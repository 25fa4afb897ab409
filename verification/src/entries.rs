//! The log entries of the device and the notes on them.

use crate::calendar::Instant;
use crate::duration::{Duration, NANOS_PER_SEC};
use crate::text::texts;
use vstd::prelude::*;

verus! {

/// A side of the device, counted from zero.
#[derive(Clone, Copy, Debug, PartialEq, Eq, Structural)]
pub struct Facet {
    pub index: u8,
}

/// What the device logs: which side was up, from when and for how long.
#[derive(Clone, Copy, Debug, PartialEq, Eq, Structural)]
pub struct TimeEntry {
    pub id: u32,
    pub facet: Facet,
    pub time: Instant,
    pub duration: Duration,
}

impl TimeEntry {
    pub open spec fn wf(&self) -> bool {
        self.time.wf() && self.duration.wf()
    }
}

/// A log entry with what the user has added to it.
#[derive(Debug)]
pub struct MyEntry {
    pub entry: TimeEntry,
    pub description: Vec<String>,
    pub visible: bool,
    pub deleted: bool,
}

/// The contents of an entry.
#[verifier::ext_equal]
pub struct EntryModel {
    pub entry: TimeEntry,
    pub description: Seq<Seq<char>>,
    pub visible: bool,
    pub deleted: bool,
}

impl View for MyEntry {
    type V = EntryModel;

    open spec fn view(&self) -> EntryModel {
        EntryModel {
            entry: self.entry,
            description: texts(self.description@),
            visible: self.visible,
            deleted: self.deleted,
        }
    }
}

/// The contents of a list of entries.
pub open spec fn models(entries: Seq<MyEntry>) -> Seq<EntryModel> {
    entries.map_values(|e: MyEntry| e@)
}

/// Entries of at most this many seconds are left out.
pub const SHORTEST_SECS: u64 = 30;

impl EntryModel {
    /// The entry counts: it has not been deleted, and it is not too short.
    pub open spec fn counts(&self) -> bool {
        !self.deleted && self.entry.duration@ > SHORTEST_SECS * NANOS_PER_SEC
    }

    /// The entry is on the list, which may show the invisible ones too.
    pub open spec fn listed(&self, show_invisible: bool) -> bool {
        self.counts() && (self.visible || show_invisible)
    }
}

impl MyEntry {
    /// The entry counts: it has not been deleted, and it is not too short.
    pub fn counts(&self) -> (r: bool)
        requires
            self.entry.wf(),
        ensures
            r == self@.counts(),
    {
        !self.deleted && self.entry.duration.longer_than(&Duration::from_secs(SHORTEST_SECS))
    }
}

/// The ids of the entries that are on the list, in order.
pub open spec fn listed_ids(entries: Seq<EntryModel>, show_invisible: bool) -> Seq<u32>
    decreases entries.len(),
{
    if entries.len() == 0 {
        Seq::empty()
    } else {
        let before = listed_ids(entries.drop_last(), show_invisible);
        if entries.last().listed(show_invisible) {
            before.push(entries.last().entry.id)
        } else {
            before
        }
    }
}

/// The entries by their id: of several with one id, the last.
pub open spec fn by_id(entries: Seq<EntryModel>) -> Map<u32, EntryModel>
    decreases entries.len(),
{
    if entries.len() == 0 {
        Map::empty()
    } else {
        by_id(entries.drop_last()).insert(entries.last().entry.id, entries.last())
    }
}

/// The ids never descend.
pub open spec fn ascending(entries: Seq<EntryModel>) -> bool {
    forall|i: int, j: int|
        0 <= i < j < entries.len() ==> #[trigger] entries[i].entry.id <= #[trigger] entries[j].entry.id
}

/// Each id is greater than the one before it, so no id occurs twice.
pub open spec fn strictly_ascending(entries: Seq<EntryModel>) -> bool {
    forall|i: int, j: int|
        0 <= i < j < entries.len() ==> #[trigger] entries[i].entry.id < #[trigger] entries[j].entry.id
}

/// The entries with one id, in order.
pub open spec fn with_id(entries: Seq<EntryModel>, id: u32) -> Seq<EntryModel>
    decreases entries.len(),
{
    if entries.len() == 0 {
        Seq::empty()
    } else {
        let before = with_id(entries.drop_last(), id);
        if entries.last().entry.id == id {
            before.push(entries.last())
        } else {
            before
        }
    }
}

/// Whether an entry has the id.
pub open spec fn has_id(entries: Seq<EntryModel>, id: u32) -> bool {
    exists|i: int| 0 <= i < entries.len() && #[trigger] entries[i].entry.id == id
}

/// The keys are the ids.
pub proof fn lemma_by_id_key(entries: Seq<EntryModel>, id: u32)
    ensures
        by_id(entries).contains_key(id) <==> has_id(entries, id),
    decreases entries.len(),
{
    if entries.len() > 0 {
        let front = entries.drop_last();
        lemma_by_id_key(front, id);
        if has_id(front, id) {
            let i = choose|i: int| 0 <= i < front.len() && #[trigger] front[i].entry.id == id;
            assert(entries[i].entry.id == id);
        }
        if has_id(entries, id) {
            let i = choose|i: int| 0 <= i < entries.len() && #[trigger] entries[i].entry.id == id;
            if i < entries.len() - 1 {
                assert(front[i].entry.id == id);
            }
        }
        assert(entries[entries.len() - 1].entry.id == entries.last().entry.id);
    }
}

/// What is found under an id is one of the entries.
pub proof fn lemma_by_id_from(entries: Seq<EntryModel>, id: u32) -> (i: int)
    requires
        by_id(entries).contains_key(id),
    ensures
        0 <= i < entries.len(),
        entries[i] == by_id(entries)[id],
        entries[i].entry.id == id,
    decreases entries.len(),
{
    if entries.last().entry.id == id {
        entries.len() - 1
    } else {
        lemma_by_id_from(entries.drop_last(), id)
    }
}

/// Where no id occurs twice, each entry is found by its id.
pub proof fn lemma_by_id_entry(entries: Seq<EntryModel>, i: int)
    requires
        strictly_ascending(entries),
        0 <= i < entries.len(),
    ensures
        by_id(entries).contains_key(entries[i].entry.id),
        by_id(entries)[entries[i].entry.id] == entries[i],
    decreases entries.len(),
{
    if i < entries.len() - 1 {
        assert(entries.drop_last()[i] == entries[i]);
        assert(entries[i].entry.id < entries[entries.len() - 1].entry.id);
        lemma_by_id_entry(entries.drop_last(), i);
    }
}

/// The map that strictly ascending entries make is the one that holds each under its id.
proof fn lemma_by_id_is(entries: Seq<EntryModel>, map: Map<u32, EntryModel>)
    requires
        strictly_ascending(entries),
        forall|id: u32| #[trigger] map.contains_key(id) ==> has_id(entries, id),
        forall|i: int|
            0 <= i < entries.len() ==> map.contains_key((#[trigger] entries[i]).entry.id)
                && map[entries[i].entry.id] == entries[i],
    ensures
        by_id(entries) == map,
{
    assert forall|id: u32| #[trigger] by_id(entries).contains_key(id) == map.contains_key(id) by {
        lemma_by_id_key(entries, id);
        if has_id(entries, id) {
            let i = choose|i: int| 0 <= i < entries.len() && #[trigger] entries[i].entry.id == id;
            assert(map.contains_key(entries[i].entry.id));
        }
    }
    assert forall|id: u32| #[trigger] by_id(entries).contains_key(id) implies by_id(entries)[id]
        == map[id] by {
        lemma_by_id_key(entries, id);
        let i = choose|i: int| 0 <= i < entries.len() && #[trigger] entries[i].entry.id == id;
        lemma_by_id_entry(entries, i);
    }
    assert(by_id(entries) =~= map);
}

/// Strictly ascending entries are given by the map that they make.
pub proof fn lemma_by_id_unique(a: Seq<EntryModel>, b: Seq<EntryModel>)
    requires
        strictly_ascending(a),
        strictly_ascending(b),
        by_id(a) == by_id(b),
    ensures
        a == b,
    decreases a.len(),
{
    if a.len() == 0 {
        if b.len() > 0 {
            lemma_by_id_entry(b, 0);
        }
        assert(a =~= b);
    } else {
        let last = a.len() - 1;
        let id = a[last].entry.id;
        lemma_by_id_entry(a, last);
        lemma_by_id_key(b, id);
        let j = choose|j: int| 0 <= j < b.len() && #[trigger] b[j].entry.id == id;
        lemma_by_id_entry(b, j);
        let end = b.len() - 1;
        lemma_by_id_entry(b, end);
        lemma_by_id_key(a, b[end].entry.id);
        let i = choose|i: int| 0 <= i < a.len() && #[trigger] a[i].entry.id == b[end].entry.id;
        if j < end {
            assert(b[j].entry.id < b[end].entry.id);
            assert(a[i].entry.id <= a[last].entry.id);
        }
        let front_a = a.drop_last();
        let front_b = b.drop_last();
        assert(!has_id(front_a, id)) by {
            if has_id(front_a, id) {
                let k = choose|k: int| 0 <= k < front_a.len() && #[trigger] front_a[k].entry.id == id;
                assert(a[k].entry.id < a[last].entry.id);
            }
        }
        assert(!has_id(front_b, id)) by {
            if has_id(front_b, id) {
                let k = choose|k: int| 0 <= k < front_b.len() && #[trigger] front_b[k].entry.id == id;
                assert(b[k].entry.id < b[end].entry.id);
            }
        }
        lemma_by_id_key(front_a, id);
        lemma_by_id_key(front_b, id);
        assert(by_id(front_a) =~= by_id(a).remove(id));
        assert(by_id(front_b) =~= by_id(b).remove(id));
        lemma_by_id_unique(front_a, front_b);
        assert(a =~= front_a.push(a[last]));
        assert(b =~= front_b.push(b[end]));
    }
}

/// An entry in the place of one with the same id.
pub proof fn lemma_by_id_update(before: Seq<EntryModel>, i: int, entry: EntryModel)
    requires
        strictly_ascending(before),
        0 <= i < before.len(),
        before[i].entry.id == entry.entry.id,
    ensures
        strictly_ascending(before.update(i, entry)),
        by_id(before.update(i, entry)) == by_id(before).insert(entry.entry.id, entry),
{
    let after = before.update(i, entry);
    let map = by_id(before).insert(entry.entry.id, entry);
    assert forall|a: int, b: int| 0 <= a < b < after.len() implies #[trigger] after[a].entry.id
        < #[trigger] after[b].entry.id by {
        assert(before[a].entry.id < before[b].entry.id);
    }
    assert forall|id: u32| #[trigger] map.contains_key(id) implies has_id(after, id) by {
        if id == entry.entry.id {
            assert(after[i].entry.id == id);
        } else {
            lemma_by_id_key(before, id);
            let j = choose|j: int| 0 <= j < before.len() && #[trigger] before[j].entry.id == id;
            assert(after[j].entry.id == id);
        }
    }
    assert forall|j: int| 0 <= j < after.len() implies map.contains_key(
        (#[trigger] after[j]).entry.id,
    ) && map[after[j].entry.id] == after[j] by {
        lemma_by_id_entry(before, j);
        assert(j < i ==> before[j].entry.id < before[i].entry.id);
        assert(i < j ==> before[i].entry.id < before[j].entry.id);
    }
    lemma_by_id_is(after, map);
}

/// An entry with a new id, between those with smaller and those with greater ids.
proof fn lemma_by_id_insert(before: Seq<EntryModel>, at: int, entry: EntryModel)
    requires
        strictly_ascending(before),
        0 <= at <= before.len(),
        forall|i: int| 0 <= i < at ==> (#[trigger] before[i]).entry.id < entry.entry.id,
        forall|i: int| at <= i < before.len() ==> (#[trigger] before[i]).entry.id > entry.entry.id,
    ensures
        strictly_ascending(before.insert(at, entry)),
        by_id(before.insert(at, entry)) == by_id(before).insert(entry.entry.id, entry),
{
    let after = before.insert(at, entry);
    let map = by_id(before).insert(entry.entry.id, entry);
    let origin = |j: int| if j < at { j } else { j - 1 };
    assert forall|a: int, b: int| 0 <= a < b < after.len() implies #[trigger] after[a].entry.id
        < #[trigger] after[b].entry.id by {
        if a != at {
            assert(after[a] == before[origin(a)]);
        }
        if b != at {
            assert(after[b] == before[origin(b)]);
        }
        if a != at && b != at {
            assert(before[origin(a)].entry.id < before[origin(b)].entry.id);
        }
    }
    assert forall|id: u32| #[trigger] map.contains_key(id) implies has_id(after, id) by {
        if id == entry.entry.id {
            assert(after[at].entry.id == id);
        } else {
            lemma_by_id_key(before, id);
            let j = choose|j: int| 0 <= j < before.len() && #[trigger] before[j].entry.id == id;
            assert(after[if j < at { j } else { j + 1 }].entry.id == id);
        }
    }
    assert forall|j: int| 0 <= j < after.len() implies map.contains_key(
        (#[trigger] after[j]).entry.id,
    ) && map[after[j].entry.id] == after[j] by {
        if j != at {
            assert(after[j] == before[origin(j)]);
            lemma_by_id_entry(before, origin(j));
        }
    }
    lemma_by_id_is(after, map);
}

/// The number of entries whose id is at most `id`.
fn upper_bound(entries: &Vec<MyEntry>, id: u32) -> (r: usize)
    requires
        ascending(models(entries@)),
    ensures
        r <= entries@.len(),
        forall|i: int| 0 <= i < r ==> (#[trigger] entries@[i]).entry.id <= id,
        forall|i: int| r <= i < entries@.len() ==> (#[trigger] entries@[i]).entry.id > id,
{
    let mut low: usize = 0;
    let mut high: usize = entries.len();
    while low < high
        invariant
            ascending(models(entries@)),
            low <= high <= entries@.len(),
            forall|i: int| 0 <= i < low ==> (#[trigger] entries@[i]).entry.id <= id,
            forall|i: int| high <= i < entries@.len() ==> (#[trigger] entries@[i]).entry.id > id,
        decreases high - low,
    {
        let mid: usize = low + (high - low) / 2;
        let ghost all = models(entries@);
        if entries[mid].entry.id <= id {
            assert forall|i: int| 0 <= i < mid + 1 implies (#[trigger] entries@[i]).entry.id
                <= id by {
                if i < mid {
                    assert(all[i].entry.id <= all[mid as int].entry.id);
                }
            }
            low = mid + 1;
        } else {
            assert forall|i: int| mid <= i < entries@.len() implies (#[trigger] entries@[i]).entry.id
                > id by {
                if i > mid {
                    assert(all[mid as int].entry.id <= all[i].entry.id);
                }
            }
            high = mid;
        }
    }
    low
}

/// The place of the entry `id`, if there is one.
pub fn find_entry(entries: &Vec<MyEntry>, id: u32) -> (r: Option<usize>)
    requires
        strictly_ascending(models(entries@)),
    ensures
        match r {
            Some(i) => i < entries@.len() && entries@[i as int].entry.id == id,
            None => forall|i: int| 0 <= i < entries@.len() ==> (#[trigger] entries@[i]).entry.id != id,
        },
{
    let end: usize = upper_bound(entries, id);
    if end > 0 && entries[end - 1].entry.id == id {
        Some(end - 1)
    } else {
        proof {
            let all = models(entries@);
            assert forall|i: int| 0 <= i < entries@.len() implies (#[trigger] entries@[i]).entry.id
                != id by {
                if i < end - 1 {
                    assert(all[i].entry.id < all[end - 1].entry.id);
                }
            }
        }
        None
    }
}

/// Puts `entry` into the entries, in the place of the one with the same id if there is one.
pub(crate) fn put_entry(entries: &mut Vec<MyEntry>, entry: MyEntry)
    requires
        strictly_ascending(models(old(entries)@)),
    ensures
        strictly_ascending(models(final(entries)@)),
        by_id(models(final(entries)@)) == by_id(models(old(entries)@)).insert(
            entry.entry.id,
            entry@,
        ),
{
    let ghost before = models(entries@);
    let ghost model = entry@;
    let id: u32 = entry.entry.id;
    match find_entry(entries, id) {
        Some(i) => {
            entries.set(i, entry);
            proof {
                lemma_by_id_update(before, i as int, model);
                assert(models(entries@) =~= before.update(i as int, model));
            }
        },
        None => {
            let end: usize = upper_bound(entries, id);
            proof {
                assert forall|i: int| 0 <= i < end implies (#[trigger] before[i]).entry.id
                    < id by {
                    assert(entries@[i].entry.id != id);
                }
                assert forall|i: int| end <= i < before.len() implies (#[trigger] before[i]).entry.id
                    > id by {
                    assert(entries@[i].entry.id > id);
                }
            }
            entries.insert(end, entry);
            proof {
                lemma_by_id_insert(before, end as int, model);
                assert(models(entries@) =~= before.insert(end as int, model));
            }
        },
    }
}

/// Taking the entries of one id out of two lists, one after the other.
proof fn lemma_with_id_add(a: Seq<EntryModel>, b: Seq<EntryModel>, id: u32)
    ensures
        with_id(a + b, id) == with_id(a, id) + with_id(b, id),
    decreases b.len(),
{
    if b.len() == 0 {
        assert(a + b =~= a);
        assert(with_id(a, id) + with_id(b, id) =~= with_id(a, id));
    } else {
        lemma_with_id_add(a, b.drop_last(), id);
        assert((a + b).drop_last() =~= a + b.drop_last());
        assert((a + b).last() == b.last());
        assert(with_id(a + b, id) =~= with_id(a, id) + with_id(b, id));
    }
}

proof fn lemma_with_id_none(entries: Seq<EntryModel>, id: u32)
    requires
        forall|i: int| 0 <= i < entries.len() ==> (#[trigger] entries[i]).entry.id != id,
    ensures
        with_id(entries, id) == Seq::<EntryModel>::empty(),
    decreases entries.len(),
{
    if entries.len() > 0 {
        assert forall|i: int| 0 <= i < entries.drop_last().len() implies (
        #[trigger] entries.drop_last()[i]).entry.id != id by {
            assert(entries[i].entry.id != id);
        }
        lemma_with_id_none(entries.drop_last(), id);
        assert(entries[entries.len() - 1].entry.id != id);
    }
}

/// What is taken out of a list was in it.
proof fn lemma_with_id_contains(entries: Seq<EntryModel>, id: u32, k: int) -> (i: int)
    requires
        0 <= k < with_id(entries, id).len(),
    ensures
        0 <= i < entries.len(),
        entries[i] == with_id(entries, id)[k],
        entries[i].entry.id == id,
    decreases entries.len(),
{
    let before = with_id(entries.drop_last(), id);
    if k < before.len() {
        lemma_with_id_contains(entries.drop_last(), id, k)
    } else {
        entries.len() - 1
    }
}

/// Every entry is among those with its id.
proof fn lemma_with_id_has(entries: Seq<EntryModel>, i: int) -> (k: int)
    requires
        0 <= i < entries.len(),
    ensures
        0 <= k < with_id(entries, entries[i].entry.id).len(),
        with_id(entries, entries[i].entry.id)[k] == entries[i],
    decreases entries.len(),
{
    let before = with_id(entries.drop_last(), entries[i].entry.id);
    if i < entries.len() - 1 {
        assert(entries.drop_last()[i] == entries[i]);
        lemma_with_id_has(entries.drop_last(), i)
    } else {
        before.len() as int
    }
}

/// An entry behind all those with the same id.
proof fn lemma_with_id_insert(entries: Seq<EntryModel>, at: int, entry: EntryModel, id: u32)
    requires
        0 <= at <= entries.len(),
        forall|i: int| at <= i < entries.len() ==> (#[trigger] entries[i]).entry.id > entry.entry.id,
    ensures
        with_id(entries.insert(at, entry), id) == with_id(entries.push(entry), id),
{
    let front = entries.take(at);
    let back = entries.skip(at);
    assert(entries =~= front + back);
    assert(entries.insert(at, entry) =~= front.push(entry) + back);
    lemma_with_id_add(front, back, id);
    lemma_with_id_add(front.push(entry), back, id);
    assert(front.push(entry).drop_last() =~= front);
    assert(entries.push(entry).drop_last() =~= entries);
    if id == entry.entry.id {
        assert forall|i: int| 0 <= i < back.len() implies (#[trigger] back[i]).entry.id != id by {
            assert(entries[at + i].entry.id > entry.entry.id);
        }
        lemma_with_id_none(back, id);
    }
    assert(with_id(entries.insert(at, entry), id) =~= with_id(entries.push(entry), id));
}

/// The order that a saved history is read back in: by id, and entries with one id as they stand
/// in the file. The greatest id comes first in the result, or zero if there is no entry.
pub fn sorted_history(entries: Vec<MyEntry>) -> (r: (u32, Vec<MyEntry>))
    ensures
        ascending(models(r.1@)),
        forall|id: u32|
            #[trigger] with_id(models(r.1@), id) == with_id(models(entries@), id),
        r.1@.len() == entries@.len(),
        r.0 == (if entries@.len() == 0 {
            0
        } else {
            r.1@.last().entry.id
        }),
{
    let ghost all = models(entries@);
    let mut sorted: Vec<MyEntry> = Vec::new();
    assert(models(sorted@) =~= all.take(0));
    for entry in iter: entries
        invariant
            all == models(iter.seq()),
            ascending(models(sorted@)),
            sorted@.len() == iter.index(),
            forall|id: u32|
                #[trigger] with_id(models(sorted@), id) == with_id(all.take(iter.index() as int), id),
    {
        let ghost before = models(sorted@);
        let ghost model = entry@;
        let ghost n = iter.index() as int;
        let end: usize = upper_bound(&sorted, entry.entry.id);
        proof {
            assert forall|i: int| 0 <= i < end implies (#[trigger] before[i]).entry.id
                <= model.entry.id by {
                assert(sorted@[i].entry.id <= model.entry.id);
            }
            assert forall|i: int| end <= i < before.len() implies (#[trigger] before[i]).entry.id
                > model.entry.id by {
                assert(sorted@[i].entry.id > model.entry.id);
            }
        }
        sorted.insert(end, entry);
        proof {
            let after = models(sorted@);
            assert(after =~= before.insert(end as int, model));
            assert forall|i: int, j: int| 0 <= i < j < after.len() implies #[trigger] after[i].entry.id
                <= #[trigger] after[j].entry.id by {
                let i0 = if i < end { i } else { i - 1 };
                let j0 = if j < end { j } else { j - 1 };
                if i != end {
                    assert(after[i] == before[i0]);
                }
                if j != end {
                    assert(after[j] == before[j0]);
                }
                if i != end && j != end {
                    assert(before[i0].entry.id <= before[j0].entry.id);
                }
            }
            assert forall|id: u32| #[trigger] with_id(after, id) == with_id(all.take(n + 1), id) by {
                lemma_with_id_insert(before, end as int, model, id);
                assert(before.push(model).drop_last() =~= before);
                assert(all.take(n + 1).drop_last() =~= all.take(n));
                assert(with_id(before, id) == with_id(all.take(n), id));
                assert(all.take(n + 1).last() == all[n]);
                assert(all[n] == iter.seq()[n]@);
                assert(all.take(n + 1).last() == model);
            }
        }
    }
    assert(all.take(all.len() as int) =~= all);
    let last_seen: u32 = if sorted.is_empty() {
        0
    } else {
        sorted[sorted.len() - 1].entry.id
    };
    (last_seen, sorted)
}

/// There is one way only to sort a history.
pub proof fn law_sorted_history_unique(a: Seq<EntryModel>, b: Seq<EntryModel>)
    requires
        ascending(a),
        ascending(b),
        forall|id: u32| #[trigger] with_id(a, id) == with_id(b, id),
    ensures
        a == b,
    decreases a.len(),
{
    if a.len() == 0 {
        if b.len() > 0 {
            let id = b[0].entry.id;
            let k = lemma_with_id_has(b, 0);
            assert(with_id(a, id) == with_id(b, id));
        }
        assert(a =~= b);
    } else {
        let last = a.len() - 1;
        let id = a[last].entry.id;
        let k = lemma_with_id_has(a, last);
        assert(with_id(a, id) == with_id(b, id));
        let j = lemma_with_id_contains(b, id, k);
        let end = b.len() - 1;
        let other = b[end].entry.id;
        let m = lemma_with_id_has(b, end);
        assert(with_id(a, other) == with_id(b, other));
        let i = lemma_with_id_contains(a, other, m);
        assert(a[i].entry.id <= a[last].entry.id);
        assert(b[j].entry.id <= b[end].entry.id);
        let front_a = a.drop_last();
        let front_b = b.drop_last();
        assert(with_id(a, id).last() == a[last]);
        assert(with_id(b, id).last() == b[end]);
        assert forall|x: u32| #[trigger] with_id(front_a, x) == with_id(front_b, x) by {
            assert(with_id(a, x) == with_id(b, x));
            if x == id {
                assert(with_id(front_a, x) =~= with_id(a, x).drop_last());
                assert(with_id(front_b, x) =~= with_id(b, x).drop_last());
            }
        }
        law_sorted_history_unique(front_a, front_b);
        assert(a =~= front_a.push(a[last]));
        assert(b =~= front_b.push(b[end]));
    }
}

/// What is listed is not deleted, longer than half a minute, and visible, unless the invisible
/// entries are shown too.
pub proof fn law_listed(entry: EntryModel, show_invisible: bool)
    requires
        entry.entry.duration.wf(),
    ensures
        entry.counts() <==> !entry.deleted && (entry.entry.duration.secs > 30 || (
        entry.entry.duration.secs == 30 && entry.entry.duration.nanos > 0)),
        entry.listed(show_invisible) <==> entry.counts() && (entry.visible || show_invisible),
{
}

/// One entry more is listed behind the others, if it is listed, and is found by its id in the
/// place of any other with that id.
pub proof fn law_one_entry_more(entries: Seq<EntryModel>, entry: EntryModel, show_invisible: bool)
    ensures
        listed_ids(Seq::empty(), show_invisible) == Seq::<u32>::empty(),
        listed_ids(entries.push(entry), show_invisible) == if !entry.deleted
            && entry.entry.duration@ > 30_000_000_000 && (entry.visible || show_invisible) {
            listed_ids(entries, show_invisible).push(entry.entry.id)
        } else {
            listed_ids(entries, show_invisible)
        },
        by_id(Seq::empty()) == Map::<u32, EntryModel>::empty(),
        by_id(entries.push(entry)) == by_id(entries).insert(entry.entry.id, entry),
        with_id(entries.push(entry), entry.entry.id) == with_id(entries, entry.entry.id).push(
            entry,
        ),
        forall|id: u32|
            id != entry.entry.id ==> #[trigger] with_id(entries.push(entry), id) == with_id(
                entries,
                id,
            ),
{
    assert(entries.push(entry).drop_last() =~= entries);
}

} // verus!
