//! Where on the screen things are shown.

use ratatui::layout::{Constraint, Layout};
use vstd::prelude::*;

verus! {

/// A part of the screen.
#[derive(Clone, Copy, Debug, PartialEq, Eq, Structural)]
pub struct Rect {
    pub x: u16,
    pub y: u16,
    pub width: u16,
    pub height: u16,
}

/// Whether pieces lie beside or below one another.
#[derive(Clone, Copy, Debug, PartialEq, Eq, Structural)]
pub enum Direction {
    Horizontal,
    Vertical,
}

/// How long a piece is to be.
#[derive(Clone, Copy, Debug, PartialEq, Eq, Structural)]
pub enum Part {
    Min(u16),
    Length(u16),
    Percentage(u16),
}

/// Whether a piece lies within an area.
pub open spec fn inside(piece: Rect, area: Rect) -> bool {
    &&& area.x <= piece.x
    &&& piece.x + piece.width <= area.x + area.width
    &&& area.y <= piece.y
    &&& piece.y + piece.height <= area.y + area.height
}

/// How much of a length lies on the screen, whose last column and row are those of a `u16`.
pub open spec fn reach(start: u16, len: u16) -> int {
    if start + len <= u16::MAX {
        len as int
    } else {
        u16::MAX - start
    }
}

/// Some percent of a length, rounded to the nearest whole, and up from a half on.
pub open spec fn share(len: int, percent: int) -> int {
    (len * percent + 50) / 100
}

/// The percent of the first `n` parts together.
pub open spec fn percent_before(parts: Seq<Part>, n: nat) -> int
    decreases n,
{
    if n == 0 {
        0
    } else {
        percent_before(parts, (n - 1) as nat) + parts[n - 1]->Percentage_0
    }
}

/// All parts are given in percent, and are not more than the whole together.
pub open spec fn in_percent(parts: Seq<Part>) -> bool {
    &&& forall|i: int| 0 <= i < parts.len() ==> #[trigger] parts[i] is Percentage
    &&& percent_before(parts, parts.len()) <= 100
}

/// The lengths that are given of the first `n` parts, together.
pub open spec fn lengths_before(parts: Seq<Part>, n: nat) -> int
    decreases n,
{
    if n == 0 {
        0
    } else {
        lengths_before(parts, (n - 1) as nat) + match parts[n - 1] {
            Part::Length(given) => given as int,
            _ => 0,
        }
    }
}

/// All parts have a length that is given, but for at most one that has a least length, and there
/// is room for all of them.
pub open spec fn fits(parts: Seq<Part>, len: int) -> bool {
    &&& lengths_before(parts, parts.len()) <= len
    &&& forall|i: int|
        0 <= i < parts.len() ==> match #[trigger] parts[i] {
            Part::Length(_) => true,
            Part::Min(least) => lengths_before(parts, parts.len()) + least <= len,
            Part::Percentage(_) => false,
        }
    &&& forall|i: int, j: int|
        0 <= i < j < parts.len() ==> !(#[trigger] parts[i] is Min && #[trigger] parts[j] is Min)
}

/// The nearest to `n` of what lies between two bounds.
pub open spec fn between(n: int, least: int, most: int) -> int {
    if n < least {
        least
    } else if n > most {
        most
    } else {
        n
    }
}

/// The smaller of two lengths.
pub open spec fn smaller(a: int, b: int) -> int {
    if a < b {
        a
    } else {
        b
    }
}

/// How long the first of two parts is for which there is no room. A least length comes first, and
/// a given length has what it leaves. Two given lengths are as equal as can be with neither longer
/// than given, and the border between them goes up from a half on.
pub open spec fn squeezed(first: Part, second: Part, len: int) -> Option<int> {
    match (first, second) {
        (Part::Min(least), Part::Length(_)) => Some(smaller(least as int, len)),
        (Part::Length(_), Part::Min(least)) => Some(len - smaller(least as int, len)),
        (Part::Length(a), Part::Length(b)) => {
            let twice = between(len, 2 * (len - smaller(b as int, len)), 2 * smaller(a as int, len));
            Some((twice + 1) / 2)
        },
        _ => None,
    }
}

/// Whether there is no room for two parts, and it is known how they share what there is.
pub open spec fn is_squeezed(parts: Seq<Part>, len: int) -> bool {
    parts.len() == 2 && !fits(parts, len) && squeezed(parts[0], parts[1], len) is Some
}

/// Where the part at `n` begins, and the one before it ends. In percent, at the share of the
/// parts before it. Else after the lengths before it, and after what all lengths leave, where the
/// part with a least length is before it. Between two parts for which there is no room, where
/// these share it.
pub open spec fn border(parts: Seq<Part>, n: nat, len: int) -> int
    decreases n,
{
    if in_percent(parts) {
        share(len, percent_before(parts, n))
    } else if is_squeezed(parts, len) {
        if n == 0 {
            0
        } else if n == 1 {
            squeezed(parts[0], parts[1], len)->0
        } else {
            len
        }
    } else if n == 0 {
        0
    } else {
        border(parts, (n - 1) as nat, len) + match parts[n - 1] {
            Part::Length(given) => given as int,
            _ => len - lengths_before(parts, parts.len()),
        }
    }
}

impl Direction {
    /// Where a piece begins along the direction.
    pub open spec fn start(&self, piece: Rect) -> int {
        match self {
            Direction::Horizontal => piece.x as int,
            Direction::Vertical => piece.y as int,
        }
    }

    /// How long a piece is along the direction.
    pub open spec fn len(&self, piece: Rect) -> int {
        match self {
            Direction::Horizontal => piece.width as int,
            Direction::Vertical => piece.height as int,
        }
    }

    /// How much of an area lies on the screen along the direction.
    pub open spec fn reach(&self, area: Rect) -> int {
        match self {
            Direction::Horizontal => reach(area.x, area.width),
            Direction::Vertical => reach(area.y, area.height),
        }
    }

    /// Whether a piece has the place and the size of an area across the direction.
    pub open spec fn same_across(&self, piece: Rect, area: Rect) -> bool {
        match self {
            Direction::Horizontal => piece.y == area.y && piece.height == area.height,
            Direction::Vertical => piece.x == area.x && piece.width == area.width,
        }
    }
}

/// Whether `pieces` can come out of cutting `area` into `parts`: there is one for each part, each
/// lies within the area and is as high as it, or as wide, and each ends before the next begins.
/// Where all parts are in percent, or all lengths fit, or two share what room there is, each lies
/// between its borders.
pub open spec fn cut(area: Rect, direction: Direction, parts: Seq<Part>, pieces: Seq<Rect>) -> bool {
    let len = direction.reach(area);
    &&& pieces.len() == parts.len()
    &&& forall|i: int|
        0 <= i < pieces.len() ==> inside(#[trigger] pieces[i], area) && direction.same_across(
            pieces[i],
            area,
        )
    &&& forall|i: int, j: int|
        0 <= i < j < pieces.len() ==> direction.start(#[trigger] pieces[i]) + direction.len(
            pieces[i],
        ) <= direction.start(#[trigger] pieces[j])
    &&& in_percent(parts) || fits(parts, len) || is_squeezed(parts, len) ==> forall|i: int|
        0 <= i < pieces.len() ==> {
            let from = border(parts, i as nat, len);
            let to = border(parts, (i + 1) as nat, len);
            &&& direction.start(#[trigger] pieces[i]) == direction.start(area) + from
            &&& direction.len(pieces[i]) == to - from
        }
}

/// Cuts an area into pieces, with `ratatui::layout::Layout::split`. It promises one piece for
/// each part, each of which lies within the area, keeps the place and the size of the area across
/// the direction, and ends before the next begins. Parts in percent that are not more than the
/// whole come out as that percent of the area, with the borders between them rounded to whole
/// columns or rows. Lengths for which there is room come out as they are, and one part with a
/// least length takes what they leave: what would be against that weighs less. Where there is no
/// room for two parts, a least length outweighs a given one, and two given lengths weigh the same,
/// so that the weakest wish decides, which is for equal lengths. How long pieces are where there
/// is no room for more parts, or where percents and lengths meet, is left unsaid: it can then be
/// met in several ways, and the solver goes through tables whose order differs from one run to the
/// next.
#[verifier::external_body]
fn split(area: Rect, direction: Direction, parts: &Vec<Part>) -> (r: Vec<Rect>)
    ensures
        cut(area, direction, parts@, r@),
{
    let constraints = parts.iter().map(|part| match part {
        Part::Min(n) => Constraint::Min(*n),
        Part::Length(n) => Constraint::Length(*n),
        Part::Percentage(n) => Constraint::Percentage(*n),
    });
    let way = match direction {
        Direction::Horizontal => ratatui::layout::Direction::Horizontal,
        Direction::Vertical => ratatui::layout::Direction::Vertical,
    };
    let all = ratatui::layout::Rect { x: area.x, y: area.y, width: area.width, height: area.height };
    let pieces = Layout::new(way, constraints).split(all);
    pieces.iter().map(|p| Rect { x: p.x, y: p.y, width: p.width, height: p.height }).collect()
}

/// The parts that put a piece of some percent in the middle.
pub open spec fn centered(percent: int) -> Seq<Part> {
    let side = Part::Percentage(((100 - percent) / 2) as u16);
    seq![side, Part::Percentage(percent as u16), side]
}

/// The parts that put a piece of some percent in the middle.
pub fn centered_parts(percent: u16) -> (r: Vec<Part>)
    requires
        percent <= 100,
    ensures
        r@ == centered(percent as int),
{
    let side = Part::Percentage((100 - percent) / 2);
    vec![side, Part::Percentage(percent), side]
}

/// Where a piece of some percent in the middle of a length begins.
pub open spec fn middle_start(start: u16, len: u16, percent: int) -> int {
    start + share(reach(start, len), (100 - percent) / 2)
}

/// How long a piece of some percent in the middle of a length is.
pub open spec fn middle_len(start: u16, len: u16, percent: int) -> int {
    let side = (100 - percent) / 2;
    share(reach(start, len), side + percent) - share(reach(start, len), side)
}

/// The middle of three parts has as much before it as behind it.
proof fn lemma_centered(percent: int)
    requires
        0 <= percent <= 100,
    ensures
        in_percent(centered(percent)),
        percent_before(centered(percent), 1) == (100 - percent) / 2,
        percent_before(centered(percent), 2) == (100 - percent) / 2 + percent,
{
    reveal_with_fuel(percent_before, 4);
}

/// The shares of a length lie within it, and larger shares are not shorter.
proof fn lemma_shares(len: int, less: int, more: int)
    requires
        0 <= len,
        0 <= less <= more <= 100,
    ensures
        0 <= share(len, less) <= share(len, more) <= len,
        share(len, 0) == 0,
        share(len, 100) == len,
{
    assert(0 <= len * less <= len * more <= len * 100) by (nonlinear_arith)
        requires
            0 <= len,
            0 <= less <= more <= 100,
    ;
    assert(len * 0 == 0) by (nonlinear_arith);
}

/// A piece of some percent in the middle of an area. On both sides of it, and above and below it,
/// the same percent of the area is left free.
pub fn centered_rect(percent_x: u16, percent_y: u16, r: Rect) -> (piece: Rect)
    requires
        percent_x <= 100,
        percent_y <= 100,
    ensures
        inside(piece, r),
        piece.x == middle_start(r.x, r.width, percent_x as int),
        piece.width == middle_len(r.x, r.width, percent_x as int),
        piece.y == middle_start(r.y, r.height, percent_y as int),
        piece.height == middle_len(r.y, r.height, percent_y as int),
{
    proof {
        lemma_centered(percent_x as int);
        lemma_centered(percent_y as int);
    }
    let rows = split(r, Direction::Vertical, &centered_parts(percent_y));
    let columns = split(rows[1], Direction::Horizontal, &centered_parts(percent_x));
    columns[1]
}

/// The rows of the screen: the title, a gap, what is shown, and the keys that can be used.
pub fn screen_rows() -> (r: Vec<Part>)
    ensures
        r@ == seq![Part::Length(1), Part::Length(1), Part::Min(0), Part::Length(1)],
{
    vec![Part::Length(1), Part::Length(1), Part::Min(0), Part::Length(1)]
}

/// The columns of the title: the name and the tabs.
pub fn title_columns() -> (r: Vec<Part>)
    ensures
        r@ == seq![Part::Min(0), Part::Length(45)],
{
    vec![Part::Min(0), Part::Length(45)]
}

/// The rows of the entries: the entries, and how long a key has been held.
pub fn entry_rows() -> (r: Vec<Part>)
    ensures
        r@ == seq![Part::Min(1), Part::Length(1)],
{
    vec![Part::Min(1), Part::Length(1)]
}

/// The columns of the entries: the list and the notes.
pub fn entry_columns() -> (r: Vec<Part>)
    ensures
        r@ == seq![Part::Percentage(50), Part::Percentage(50)],
{
    vec![Part::Percentage(50), Part::Percentage(50)]
}

/// The rows of the bookings: the day, a gap, the bookings, and how long a key has been held.
pub fn booking_rows() -> (r: Vec<Part>)
    ensures
        r@ == seq![Part::Length(2), Part::Length(1), Part::Min(1), Part::Length(1)],
{
    vec![Part::Length(2), Part::Length(1), Part::Min(1), Part::Length(1)]
}

/// The rows of a window in the middle: its title and what is in it.
pub fn popup_rows() -> (r: Vec<Part>)
    ensures
        r@ == seq![Part::Length(1), Part::Min(0)],
{
    vec![Part::Length(1), Part::Min(0)]
}

/// The rows of a window in the middle with some lines in it.
pub fn progress_rows(lines: u16) -> (r: Vec<Part>)
    ensures
        r@ == seq![Part::Length(1), Part::Length(lines)],
{
    vec![Part::Length(1), Part::Length(lines)]
}

/// The parts of the screen.
#[derive(Clone, Copy, Debug, PartialEq, Eq, Structural)]
pub struct ScreenAreas {
    pub title: Rect,
    pub tabs: Rect,
    pub body: Rect,
    pub keys: Rect,
}

/// The parts of the entries.
#[derive(Clone, Copy, Debug, PartialEq, Eq, Structural)]
pub struct EntryAreas {
    pub list: Rect,
    pub notes: Rect,
    pub hold: Rect,
}

/// The parts of the bookings.
#[derive(Clone, Copy, Debug, PartialEq, Eq, Structural)]
pub struct BookingAreas {
    pub day: Rect,
    pub list: Rect,
    pub hold: Rect,
}

/// The parts of a window in the middle.
#[derive(Clone, Copy, Debug, PartialEq, Eq, Structural)]
pub struct PopupAreas {
    pub title: Rect,
    pub content: Rect,
}

/// Where things are on the screen. The title and the tabs share the first row, where the tabs come
/// first to their columns. What is shown follows after a gap and takes what is left, and the keys
/// come last.
pub fn screen_areas(screen: Rect) -> (r: ScreenAreas)
    ensures
        inside(r.title, screen),
        inside(r.tabs, screen),
        inside(r.body, screen),
        inside(r.keys, screen),
        r.title.y == r.tabs.y && r.title.height == r.tabs.height,
        r.body.x == screen.x && r.body.width == screen.width,
        r.keys.x == screen.x && r.keys.width == screen.width,
        r.title.x + r.title.width <= r.tabs.x,
        r.title.y + r.title.height <= r.body.y,
        r.body.y + r.body.height <= r.keys.y,
        ({
            let wide = reach(screen.x, screen.width);
            let tabs = smaller(wide, 45);
            &&& r.title.x == screen.x && r.title.width == wide - tabs
            &&& r.tabs.x == screen.x + wide - tabs && r.tabs.width == tabs
        }),
        reach(screen.y, screen.height) >= 3 ==> {
            let high = reach(screen.y, screen.height);
            &&& r.title.y == screen.y && r.title.height == 1
            &&& r.body.y == screen.y + 2 && r.body.height == high - 3
            &&& r.keys.y == screen.y + high - 1 && r.keys.height == 1
        },
{
    proof {
        reveal_with_fuel(lengths_before, 5);
        reveal_with_fuel(border, 5);
    }
    let rows = split(screen, Direction::Vertical, &screen_rows());
    let columns = split(rows[0], Direction::Horizontal, &title_columns());
    ScreenAreas { title: columns[0], tabs: columns[1], body: rows[2], keys: rows[3] }
}

/// Where the entries are. The list is on the left half, the notes are on the right half, and the
/// hold has the last row, unless there is only one.
pub fn entry_areas(body: Rect) -> (r: EntryAreas)
    ensures
        inside(r.list, body),
        inside(r.notes, body),
        inside(r.hold, body),
        r.list.y == r.notes.y && r.list.height == r.notes.height,
        r.hold.x == body.x && r.hold.width == body.width,
        r.list.x == body.x,
        r.list.width == share(reach(body.x, body.width), 50),
        r.notes.x == body.x + share(reach(body.x, body.width), 50),
        r.notes.width == reach(body.x, body.width) - share(reach(body.x, body.width), 50),
        r.list.y + r.list.height <= r.hold.y,
        ({
            let high = reach(body.y, body.height);
            let hold: int = if high >= 2 {
                1
            } else {
                0
            };
            &&& r.list.y == body.y && r.list.height == high - hold
            &&& r.hold.y == body.y + high - hold && r.hold.height == hold
        }),
{
    proof {
        reveal_with_fuel(lengths_before, 3);
        reveal_with_fuel(percent_before, 3);
        reveal_with_fuel(border, 3);
        lemma_shares(reach(body.x, body.width), 0, 50);
    }
    let rows = split(body, Direction::Vertical, &entry_rows());
    let columns = split(rows[0], Direction::Horizontal, &entry_columns());
    EntryAreas { list: columns[0], notes: columns[1], hold: rows[1] }
}

/// Where the bookings are, below one another and in all columns: two rows for the day, a gap, the
/// list with what is left, and the hold.
pub fn booking_areas(body: Rect) -> (r: BookingAreas)
    ensures
        inside(r.day, body),
        inside(r.list, body),
        inside(r.hold, body),
        r.day.x == body.x && r.day.width == body.width,
        r.list.x == body.x && r.list.width == body.width,
        r.hold.x == body.x && r.hold.width == body.width,
        r.day.y + r.day.height <= r.list.y,
        r.list.y + r.list.height <= r.hold.y,
        reach(body.y, body.height) >= 5 ==> {
            let high = reach(body.y, body.height);
            &&& r.day.y == body.y && r.day.height == 2
            &&& r.list.y == body.y + 3 && r.list.height == high - 4
            &&& r.hold.y == body.y + high - 1 && r.hold.height == 1
        },
{
    proof {
        reveal_with_fuel(lengths_before, 5);
        reveal_with_fuel(border, 5);
    }
    let rows = split(body, Direction::Vertical, &booking_rows());
    BookingAreas { day: rows[0], list: rows[2], hold: rows[3] }
}

/// Whether the parts of a window lie in the middle of the screen, the title above the content.
pub open spec fn in_the_middle(screen: Rect, areas: PopupAreas) -> bool {
    let top = middle_start(screen.y, screen.height, 25);
    let bottom = top + middle_len(screen.y, screen.height, 25);
    &&& inside(areas.title, screen)
    &&& inside(areas.content, screen)
    &&& areas.title.x == middle_start(screen.x, screen.width, 60)
    &&& areas.title.width == middle_len(screen.x, screen.width, 60)
    &&& areas.content.x == areas.title.x && areas.content.width == areas.title.width
    &&& top <= areas.title.y
    &&& areas.title.y + areas.title.height <= areas.content.y
    &&& areas.content.y + areas.content.height <= bottom
}

/// Where the parts of a window in the middle of the screen are: below one another.
fn popup(screen: Rect, parts: &Vec<Part>) -> (r: PopupAreas)
    requires
        parts@.len() == 2,
    ensures
        in_the_middle(screen, r),
        fits(parts@, middle_len(screen.y, screen.height, 25)) || is_squeezed(
            parts@,
            middle_len(screen.y, screen.height, 25),
        ) ==> {
            let top = middle_start(screen.y, screen.height, 25);
            let high = middle_len(screen.y, screen.height, 25);
            &&& r.title.y == top + border(parts@, 0, high)
            &&& r.title.height == border(parts@, 1, high) - border(parts@, 0, high)
            &&& r.content.y == top + border(parts@, 1, high)
            &&& r.content.height == border(parts@, 2, high) - border(parts@, 1, high)
        },
{
    proof {
        lemma_shares(reach(screen.y, screen.height), 37, 62);
    }
    let area = centered_rect(60, 25, screen);
    let rows = split(area, Direction::Vertical, parts);
    PopupAreas { title: rows[0], content: rows[1] }
}

/// Where a window in the middle of the screen is: its title in one row, and what is in it in the
/// others.
pub fn popup_areas(screen: Rect) -> (r: PopupAreas)
    ensures
        in_the_middle(screen, r),
        ({
            let top = middle_start(screen.y, screen.height, 25);
            let high = middle_len(screen.y, screen.height, 25);
            let title = smaller(high, 1);
            &&& r.title.y == top && r.title.height == title
            &&& r.content.y == top + title && r.content.height == high - title
        }),
{
    proof {
        reveal_with_fuel(lengths_before, 3);
        reveal_with_fuel(border, 3);
    }
    popup(screen, &popup_rows())
}

/// Where a window in the middle of the screen with some lines in it is: its title in one row, and
/// one row for each line, as far as there are rows.
pub fn progress_areas(screen: Rect, lines: u16) -> (r: PopupAreas)
    ensures
        in_the_middle(screen, r),
        ({
            let top = middle_start(screen.y, screen.height, 25);
            let high = middle_len(screen.y, screen.height, 25);
            let title = smaller(high, 1);
            &&& r.title.y == top && r.title.height == title
            &&& r.content.y == top + title
            &&& r.content.height == smaller(lines as int, high - title)
        }),
{
    proof {
        reveal_with_fuel(lengths_before, 3);
        reveal_with_fuel(border, 3);
    }
    popup(screen, &progress_rows(lines))
}

/// A share is the whole number that is nearest to it, and of two the greater.
pub proof fn law_share_is_nearest(len: int, percent: int)
    ensures
        -50 < 100 * share(len, percent) - len * percent <= 50,
{
}

/// A piece in the middle begins and ends at the shares of the columns, or rows, before it and up
/// to its end. As many percent are left before it as behind it, but for one that cannot be halved.
pub proof fn law_middle(start: u16, len: u16, percent: int)
    requires
        0 <= percent <= 100,
    ensures
        ({
            let shown = if start + len <= 65_535 {
                len as int
            } else {
                65_535 - start
            };
            let from = middle_start(start, len, percent) - start;
            let to = from + middle_len(start, len, percent);
            let before = (100 - percent) / 2;
            &&& -50 < 100 * from - shown * before <= 50
            &&& -50 < 100 * to - shown * (before + percent) <= 50
            &&& 0 <= from <= to <= shown
        }),
{
    lemma_shares(reach(start, len), (100 - percent) / 2, (100 - percent) / 2 + percent);
}

/// The three parts that put a piece in the middle have the piece between two equal ones, and are
/// the whole together, but for one percent that cannot be halved.
pub proof fn law_centered(percent: int)
    requires
        0 <= percent <= 100,
    ensures
        centered(percent).len() == 3,
        forall|i: int| 0 <= i < 3 ==> #[trigger] centered(percent)[i] is Percentage,
        centered(percent)[1]->Percentage_0 == percent,
        centered(percent)[0] == centered(percent)[2],
        99 <= percent + 2 * centered(percent)[0]->Percentage_0 <= 100,
{
}

/// A window in the middle leaves a fifth of the columns free on each side, and more than a third
/// of the rows above it and below it, to the nearest whole.
pub proof fn law_window_in_the_middle(screen: Rect, areas: PopupAreas)
    requires
        in_the_middle(screen, areas),
        screen.x + screen.width <= 65_535,
        screen.y + screen.height <= 65_535,
    ensures
        -50 < 100 * (areas.title.x - screen.x) - 20 * screen.width <= 50,
        -50 < 100 * (areas.title.x + areas.title.width - screen.x) - 80 * screen.width <= 50,
        areas.content.x == areas.title.x,
        areas.content.width == areas.title.width,
        areas.title.y + areas.title.height <= areas.content.y,
        100 * (areas.title.y - screen.y) > 37 * screen.height - 50,
        100 * (areas.content.y + areas.content.height - screen.y) <= 62 * screen.height + 50,
{
    let before_x: int = (100 - 60) / 2;
    let before_y: int = (100 - 25) / 2;
    assert(before_x == 20 && before_y == 37);
    law_middle(screen.x, screen.width, 60);
    law_middle(screen.y, screen.height, 25);
    assert(screen.width * before_x == 20 * screen.width) by (nonlinear_arith)
        requires
            before_x == 20,
    ;
    assert(screen.height * before_y == 37 * screen.height) by (nonlinear_arith)
        requires
            before_y == 37,
    ;
}

} // verus!
