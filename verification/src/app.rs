//! The entries and the list that shows them.

use crate::calendar::{day_possible, local_date, Date, MAX_SECS, MIN_SECS, SECS_PER_DAY};
use crate::entries::{
    ascending, by_id, find_entry, has_id, law_sorted_history_unique, lemma_by_id_entry,
    lemma_by_id_from, lemma_by_id_key, lemma_by_id_unique, lemma_by_id_update, listed_ids, models,
    put_entry, strictly_ascending, with_id, EntryModel, MyEntry, TimeEntry,
};
use crate::stateful_list::{after_removal, with_selection, ListState, StatefulList};
use crate::text::texts;
use vstd::prelude::*;

verus! {

/// All entries, and the list of those that are shown.
#[derive(Debug)]
pub struct App {
    pub items: StatefulList<u32>,
    pub entries: Vec<MyEntry>,
    pub show_invisible: bool,
}

/// The contents of the list and of the entries.
#[verifier::ext_equal]
pub struct AppModel {
    pub items: Seq<u32>,
    pub state: ListState,
    pub entries: Seq<EntryModel>,
    pub show_invisible: bool,
}

impl View for App {
    type V = AppModel;

    open spec fn view(&self) -> AppModel {
        AppModel {
            items: self.items.items@,
            state: self.items.state,
            entries: models(self.entries@),
            show_invisible: self.show_invisible,
        }
    }
}

/// The entries with another visibility of the one with the id.
pub open spec fn set_visible(entries: Seq<EntryModel>, id: u32, visible: bool) -> Seq<EntryModel> {
    entries.map_values(
        |e: EntryModel|
            if e.entry.id == id {
                EntryModel { visible, ..e }
            } else {
                e
            },
    )
}

/// The entries with the one with the id deleted.
pub open spec fn set_deleted(entries: Seq<EntryModel>, id: u32) -> Seq<EntryModel> {
    entries.map_values(
        |e: EntryModel|
            if e.entry.id == id {
                EntryModel { deleted: true, ..e }
            } else {
                e
            },
    )
}

/// The entries with another description of the one with the id.
pub open spec fn set_description(
    entries: Seq<EntryModel>,
    id: u32,
    description: Seq<Seq<char>>,
) -> Seq<EntryModel> {
    entries.map_values(
        |e: EntryModel|
            if e.entry.id == id {
                EntryModel { description, ..e }
            } else {
                e
            },
    )
}

/// The entry that takes the place of what the map holds under the id of `update`: what the
/// device has logged is new, what the user has added stays.
pub open spec fn merged_entry(map: Map<u32, EntryModel>, update: TimeEntry) -> EntryModel {
    if map.contains_key(update.id) {
        EntryModel { entry: update, ..map[update.id] }
    } else {
        EntryModel { entry: update, description: Seq::empty(), visible: true, deleted: false }
    }
}

/// The map with all of `update` merged in, one after the other.
pub open spec fn merged(map: Map<u32, EntryModel>, update: Seq<TimeEntry>) -> Map<u32, EntryModel>
    decreases update.len(),
{
    if update.len() == 0 {
        map
    } else {
        let before = merged(map, update.drop_last());
        before.insert(update.last().id, merged_entry(before, update.last()))
    }
}

/// The greatest of `last_seen` and the ids of `update`.
pub open spec fn greatest_id(last_seen: u32, update: Seq<TimeEntry>) -> u32
    decreases update.len(),
{
    if update.len() == 0 {
        last_seen
    } else {
        let before = greatest_id(last_seen, update.drop_last());
        if update.last().id > before {
            update.last().id
        } else {
            before
        }
    }
}

impl AppModel {
    /// No id occurs twice, every entry is valid, and what is listed is there.
    pub open spec fn wf(&self) -> bool {
        &&& strictly_ascending(self.entries)
        &&& forall|i: int| 0 <= i < self.entries.len() ==> (#[trigger] self.entries[i]).entry.wf()
        &&& forall|i: int|
            0 <= i < self.items.len() ==> has_id(self.entries, #[trigger] self.items[i])
    }

    /// The id of the selected entry.
    pub open spec fn selected_id(&self) -> Option<u32> {
        match self.state.selected {
            Some(i) => if i < self.items.len() {
                Some(self.items[i as int])
            } else {
                None
            },
            None => None,
        }
    }

    /// The selected entry, where one is selected.
    pub open spec fn selected_entry(&self) -> EntryModel {
        by_id(self.entries)[self.selected_id()->0]
    }

    /// The list made anew from the entries. What was selected stays selected if it is still on
    /// the list, else the first item is.
    pub open spec fn refreshed(&self) -> AppModel {
        let items = listed_ids(self.entries, self.show_invisible);
        let selected = match self.selected_id() {
            Some(id) => match items.index_of_first(id) {
                Some(i) => i as usize,
                None => 0,
            },
            None => 0,
        };
        AppModel { items, state: ListState { offset: 0, selected: Some(selected) }, ..*self }
    }

    /// The list without the selected item.
    pub open spec fn unlisted(&self) -> AppModel {
        let i = self.state.selected->0;
        let items = self.items.remove(i as int);
        AppModel {
            items,
            state: with_selection(self.state, after_removal(i, items.len())),
            ..*self
        }
    }

    /// The selected entry is done, or not done any more. What is done leaves the list, unless
    /// the list shows the invisible ones too.
    pub open spec fn done_toggled(&self) -> AppModel {
        match self.selected_id() {
            Some(id) => {
                let visible = !self.selected_entry().visible;
                let changed = AppModel { entries: set_visible(self.entries, id, visible), ..*self };
                if !visible && !self.show_invisible {
                    changed.unlisted()
                } else {
                    changed
                }
            },
            None => *self,
        }
    }

    /// The selected entry is deleted, if it is done and the list shows such entries.
    pub open spec fn done_deleted(&self) -> AppModel {
        match self.selected_id() {
            Some(id) => if !self.selected_entry().visible && self.show_invisible {
                (AppModel { entries: set_deleted(self.entries, id), ..*self }).unlisted()
            } else {
                *self
            },
            None => *self,
        }
    }

    /// The selected entry has another description.
    pub open spec fn described(&self, description: Seq<Seq<char>>) -> AppModel {
        match self.selected_id() {
            Some(id) => AppModel {
                entries: set_description(self.entries, id, description),
                ..*self
            },
            None => *self,
        }
    }

    /// The lines to show of the selected entry: one empty line, if there is none.
    pub open spec fn selected_lines(&self) -> Seq<Seq<char>> {
        match self.selected_id() {
            Some(id) => self.selected_entry().description,
            None => seq![Seq::empty()],
        }
    }
}

/// The ids of listed entries are ids of entries.
proof fn lemma_listed_has(entries: Seq<EntryModel>, show_invisible: bool, k: int) -> (i: int)
    requires
        0 <= k < listed_ids(entries, show_invisible).len(),
    ensures
        0 <= i < entries.len(),
        entries[i].entry.id == listed_ids(entries, show_invisible)[k],
        entries[i].listed(show_invisible),
    decreases entries.len(),
{
    let before = listed_ids(entries.drop_last(), show_invisible);
    if k < before.len() {
        lemma_listed_has(entries.drop_last(), show_invisible, k)
    } else {
        entries.len() - 1
    }
}

/// A change of one entry keeps the ids.
proof fn lemma_same_ids(before: Seq<EntryModel>, after: Seq<EntryModel>)
    requires
        before.len() == after.len(),
        forall|i: int| 0 <= i < before.len() ==> (#[trigger] after[i]).entry == before[i].entry,
    ensures
        strictly_ascending(before) ==> strictly_ascending(after),
        forall|id: u32| #[trigger] has_id(before, id) == has_id(after, id),
{
    if strictly_ascending(before) {
        assert forall|i: int, j: int| 0 <= i < j < after.len() implies #[trigger] after[i].entry.id
            < #[trigger] after[j].entry.id by {
            assert(before[i].entry.id < before[j].entry.id);
        }
    }
    assert forall|id: u32| #[trigger] has_id(before, id) == has_id(after, id) by {
        if has_id(before, id) {
            let i = choose|i: int| 0 <= i < before.len() && #[trigger] before[i].entry.id == id;
            assert(after[i].entry.id == id);
        }
        if has_id(after, id) {
            let i = choose|i: int| 0 <= i < after.len() && #[trigger] after[i].entry.id == id;
            assert(before[i].entry.id == id);
        }
    }
}

impl App {
    pub open spec fn wf(&self) -> bool {
        self@.wf()
    }

    /// The place of the selected entry.
    fn selected_index(&self) -> (r: Option<usize>)
        requires
            self.wf(),
        ensures
            match r {
                Some(i) => {
                    &&& i < self.entries@.len()
                    &&& self@.selected_id() == Some(self.entries@[i as int].entry.id)
                    &&& self@.selected_entry() == self.entries@[i as int]@
                },
                None => self@.selected_id() is None,
            },
    {
        match self.items.selected() {
            Some(id) => {
                proof {
                    assert(has_id(self@.entries, self@.items[self@.state.selected->0 as int]));
                    let k = choose|k: int|
                        0 <= k < self@.entries.len() && #[trigger] self@.entries[k].entry.id == *id;
                    assert(self.entries@[k].entry.id == *id);
                }
                let found = find_entry(&self.entries, *id);
                proof {
                    lemma_by_id_entry(self@.entries, found->0 as int);
                }
                found
            },
            None => None,
        }
    }

    /// Marks the selected entry as done, or as not done any more.
    pub fn toggle_done(&mut self)
        requires
            old(self).wf(),
        ensures
            final(self)@ == old(self)@.done_toggled(),
            final(self).wf(),
    {
        let ghost before = self@;
        if let Some(i) = self.selected_index() {
            let visible = !self.entries[i].visible;
            self.entries[i].visible = visible;
            proof {
                let id = before.selected_id()->0;
                let changed = models(self.entries@);
                assert forall|k: int| 0 <= k < changed.len() implies changed[k] == set_visible(
                    before.entries,
                    id,
                    visible,
                )[k] by {
                    assert(k < i ==> before.entries[k].entry.id < before.entries[i as int].entry.id);
                    assert(i < k ==> before.entries[i as int].entry.id < before.entries[k].entry.id);
                }
                assert(changed =~= set_visible(before.entries, id, visible));
                lemma_same_ids(before.entries, changed);
            }
            if !visible && !self.show_invisible {
                self.items.remove();
            }
        }
    }

    /// Deletes the selected entry, if it is done and the list shows such entries.
    pub fn delete_done(&mut self)
        requires
            old(self).wf(),
        ensures
            final(self)@ == old(self)@.done_deleted(),
            final(self).wf(),
    {
        let ghost before = self@;
        if let Some(i) = self.selected_index() {
            if !self.entries[i].visible && self.show_invisible {
                self.items.remove();
                self.entries[i].deleted = true;
                proof {
                    let id = before.selected_id()->0;
                    let changed = models(self.entries@);
                    assert forall|k: int| 0 <= k < changed.len() implies changed[k] == set_deleted(
                        before.entries,
                        id,
                    )[k] by {
                        assert(k < i ==> before.entries[k].entry.id < before.entries[i as int].entry.id);
                        assert(i < k ==> before.entries[i as int].entry.id < before.entries[k].entry.id);
                    }
                    assert(changed =~= set_deleted(before.entries, id));
                    lemma_same_ids(before.entries, changed);
                }
            }
        }
    }

    /// Gives the selected entry another description.
    pub fn describe(&mut self, lines: &Vec<String>)
        requires
            old(self).wf(),
        ensures
            final(self)@ == old(self)@.described(texts(lines@)),
            final(self).wf(),
    {
        let ghost before = self@;
        if let Some(i) = self.selected_index() {
            let description = lines.clone();
            assert(description@ =~= lines@);
            self.entries[i].description = description;
            proof {
                let id = before.selected_id()->0;
                let changed = models(self.entries@);
                assert forall|k: int| 0 <= k < changed.len() implies changed[k] == set_description(
                    before.entries,
                    id,
                    texts(lines@),
                )[k] by {
                    assert(k < i ==> before.entries[k].entry.id < before.entries[i as int].entry.id);
                    assert(i < k ==> before.entries[i as int].entry.id < before.entries[k].entry.id);
                }
                assert(changed =~= set_description(before.entries, id, texts(lines@)));
                lemma_same_ids(before.entries, changed);
            }
        }
    }

    /// The lines of the selected entry: one empty line, if there is none.
    pub fn selected_description(&self) -> (r: Vec<String>)
        requires
            self.wf(),
        ensures
            texts(r@) == self@.selected_lines(),
    {
        match self.selected_index() {
            Some(i) => {
                let lines = self.entries[i].description.clone();
                assert(lines@ =~= self.entries@[i as int].description@);
                lines
            },
            None => {
                let mut lines: Vec<String> = Vec::new();
                lines.push(String::new());
                assert(texts(lines@) =~= seq![Seq::empty()]);
                lines
            },
        }
    }

    /// Makes the list anew from the entries.
    pub fn update_entry_list(&mut self)
        requires
            old(self).wf(),
        ensures
            final(self)@ == old(self)@.refreshed(),
            final(self).wf(),
    {
        let ghost before = self@;
        let show_invisible = self.show_invisible;
        let mut new_items: Vec<u32> = Vec::new();
        assert(before.entries.take(0).len() == 0);
        for i in 0..self.entries.len()
            invariant
                self@ == before,
                before.wf(),
                show_invisible == before.show_invisible,
                new_items@ == listed_ids(before.entries.take(i as int), show_invisible),
        {
            let entry = &self.entries[i];
            assert(before.entries[i as int] == entry@);
            assert(before.entries.take(i + 1).drop_last() =~= before.entries.take(i as int));
            if entry.counts() && (entry.visible || show_invisible) {
                new_items.push(entry.entry.id);
            }
        }
        assert(before.entries.take(before.entries.len() as int) =~= before.entries);
        let selection = match self.items.selected() {
            Some(id) => position(&new_items, *id),
            None => None,
        };
        self.items = StatefulList::with_items(new_items, selection);
        proof {
            assert forall|k: int| 0 <= k < self@.items.len() implies has_id(
                self@.entries,
                #[trigger] self@.items[k],
            ) by {
                let i = lemma_listed_has(before.entries, show_invisible, k);
                assert(self@.entries[i].entry.id == self@.items[k]);
            }
        }
    }

    /// Shows the invisible entries too, or hides them again.
    pub fn toggle_visibility(&mut self)
        requires
            old(self).wf(),
        ensures
            final(self)@ == (AppModel {
                show_invisible: !old(self)@.show_invisible,
                ..old(self)@
            }).refreshed(),
            final(self).wf(),
    {
        self.show_invisible = !self.show_invisible;
        self.update_entry_list();
    }

    /// The app with the entries of a saved history. Of several entries with one id the last is
    /// kept, and each that is listed has its place on the list.
    pub fn new_from_entries(entries: Vec<MyEntry>) -> (r: App)
        requires
            forall|i: int| 0 <= i < entries@.len() ==> (#[trigger] entries@[i]).entry.wf(),
        ensures
            r.wf(),
            r@.items == listed_ids(models(entries@), false),
            r@.state == (ListState { offset: 0, selected: Some(0) }),
            by_id(r@.entries) == by_id(models(entries@)),
            !r@.show_invisible,
    {
        let ghost all = models(entries@);
        let mut ids: Vec<u32> = Vec::new();
        let mut kept: Vec<MyEntry> = Vec::new();
        assert(all.take(0).len() == 0);
        assert(models(kept@) =~= all.take(0));
        for entry in iter: entries
            invariant
                all == models(iter.seq()),
                forall|i: int| 0 <= i < iter.seq().len() ==> (#[trigger] iter.seq()[i]).entry.wf(),
                ids@ == listed_ids(all.take(iter.index() as int), false),
                strictly_ascending(models(kept@)),
                by_id(models(kept@)) == by_id(all.take(iter.index() as int)),
        {
            let ghost n = iter.index() as int;
            proof {
                assert(all[n] == iter.seq()[n]@);
                assert(all.take(n + 1).drop_last() =~= all.take(n));
                assert(all.take(n + 1).last() == all[n]);
            }
            if entry.counts() && entry.visible {
                ids.push(entry.entry.id);
            }
            put_entry(&mut kept, entry);
        }
        assert(all.take(all.len() as int) =~= all);
        let app = App {
            items: StatefulList::with_items(ids, None),
            entries: kept,
            show_invisible: false,
        };
        proof {
            assert forall|i: int| 0 <= i < app@.entries.len() implies (
            #[trigger] app@.entries[i]).entry.wf() by {
                lemma_by_id_entry(app@.entries, i);
                let k = lemma_by_id_from(all, app@.entries[i].entry.id);
                assert(entries@[k].entry.wf());
            }
            assert forall|k: int| 0 <= k < app@.items.len() implies has_id(
                app@.entries,
                #[trigger] app@.items[k],
            ) by {
                let i = lemma_listed_has(all, false, k);
                lemma_by_id_key(all, app@.items[k]);
                lemma_by_id_key(app@.entries, app@.items[k]);
                assert(all[i].entry.id == app@.items[k]);
            }
        }
        app
    }

    /// Takes over what the device has logged, and returns the greatest id seen so far. The list
    /// is left as it is.
    pub fn merge_history(&mut self, last_seen: u32, update: Vec<TimeEntry>) -> (r: u32)
        requires
            old(self).wf(),
            forall|i: int| 0 <= i < update@.len() ==> (#[trigger] update@[i]).wf(),
        ensures
            r == greatest_id(last_seen, update@),
            final(self).wf(),
            by_id(final(self)@.entries) == merged(by_id(old(self)@.entries), update@),
            final(self)@.items == old(self)@.items,
            final(self)@.state == old(self)@.state,
            final(self)@.show_invisible == old(self)@.show_invisible,
    {
        let ghost before = self@;
        let mut seen: u32 = last_seen;
        assert(update@.take(0).len() == 0);
        for k in 0..update.len()
            invariant
                before.wf(),
                self@.wf(),
                forall|i: int| 0 <= i < update@.len() ==> (#[trigger] update@[i]).wf(),
                seen == greatest_id(last_seen, update@.take(k as int)),
                by_id(self@.entries) == merged(by_id(before.entries), update@.take(k as int)),
                self@.items == before.items,
                self@.state == before.state,
                self@.show_invisible == before.show_invisible,
        {
            let entry = update[k];
            let ghost now = self@;
            proof {
                assert(update@.take(k + 1).drop_last() =~= update@.take(k as int));
                assert(update@.take(k + 1).last() == entry);
                lemma_by_id_key(now.entries, entry.id);
            }
            if entry.id > seen {
                seen = entry.id;
            }
            match find_entry(&self.entries, entry.id) {
                Some(i) => {
                    self.entries[i].entry = entry;
                    proof {
                        lemma_by_id_entry(now.entries, i as int);
                        assert(has_id(now.entries, entry.id)) by {
                            assert(now.entries[i as int].entry.id == entry.id);
                        }
                        let changed = EntryModel { entry, ..now.entries[i as int] };
                        lemma_by_id_update(now.entries, i as int, changed);
                        assert(self@.entries =~= now.entries.update(i as int, changed));
                    }
                },
                None => {
                    let added = MyEntry {
                        entry,
                        description: Vec::new(),
                        visible: true,
                        deleted: false,
                    };
                    proof {
                        assert(added@.description =~= Seq::empty());
                        assert(!has_id(now.entries, entry.id)) by {
                            if has_id(now.entries, entry.id) {
                                let i = choose|i: int|
                                    0 <= i < now.entries.len() && #[trigger] now.entries[i].entry.id
                                        == entry.id;
                                assert(self.entries@[i].entry.id == entry.id);
                            }
                        }
                    }
                    put_entry(&mut self.entries, added);
                },
            }
            proof {
                assert(by_id(self@.entries) == by_id(now.entries).insert(
                    entry.id,
                    merged_entry(by_id(now.entries), entry),
                ));
                assert forall|i: int| 0 <= i < self@.entries.len() implies (
                #[trigger] self@.entries[i]).entry.wf() by {
                    lemma_by_id_entry(self@.entries, i);
                    let id = self@.entries[i].entry.id;
                    if id != entry.id {
                        let j = lemma_by_id_from(now.entries, id);
                        assert(now.entries[j].entry.wf());
                    } else {
                        assert(update@[k as int].wf());
                    }
                }
                assert forall|i: int| 0 <= i < self@.items.len() implies has_id(
                    self@.entries,
                    #[trigger] self@.items[i],
                ) by {
                    assert(has_id(now.entries, now.items[i]));
                    lemma_by_id_key(now.entries, now.items[i]);
                    lemma_by_id_key(self@.entries, self@.items[i]);
                }
            }
        }
        assert(update@.take(update@.len() as int) =~= update@);
        seen
    }
}

/// The first place of `id`.
fn position(ids: &Vec<u32>, id: u32) -> (r: Option<usize>)
    ensures
        match r {
            Some(i) => ids@.index_of_first(id) == Some(i as int),
            None => ids@.index_of_first(id) is None,
        },
{
    for i in 0..ids.len()
        invariant
            forall|j: int| 0 <= j < i ==> ids@[j] != id,
    {
        if ids[i] == id {
            proof {
                ids@.index_of_first_ensures(id);
                assert(ids@.contains(id));
            }
            return Some(i);
        }
    }
    proof {
        ids@.index_of_first_ensures(id);
    }
    None
}

/// Whether the machine can tell the local day of an entry: it is not within a day of the ends of
/// the calendar.
pub open spec fn has_local_time(entry: TimeEntry) -> bool {
    MIN_SECS + SECS_PER_DAY <= entry.time.secs <= MAX_SECS - SECS_PER_DAY
}

/// Each day is later than the one before it.
pub open spec fn days_ascend(dates: Seq<Date>) -> bool {
    forall|i: int, j: int| 0 <= i < j < dates.len() ==> (#[trigger] dates[i]).before(
        #[trigger] dates[j],
    )
}

/// The days that occur in `days`, in order and each once.
pub fn available_dates(days: &Vec<Option<Date>>) -> (r: Vec<Date>)
    ensures
        days_ascend(r@),
        forall|date: Date| #[trigger] r@.contains(date) <==> days@.contains(Some(date)),
{
    let mut sorted: Vec<Date> = Vec::new();
    for k in 0..days.len()
        invariant
            days_ascend(sorted@),
            forall|date: Date| #[trigger]
                sorted@.contains(date) <==> days@.take(k as int).contains(Some(date)),
    {
        let ghost before = sorted@;
        let ghost shown = days@.take(k + 1);
        let ghost day = days@[k as int];
        proof {
            assert(shown =~= days@.take(k as int).push(day));
            assert forall|d: Date| #[trigger]
                shown.contains(Some(d)) <==> before.contains(d) || Some(d) == day by {
                if shown.contains(Some(d)) && Some(d) != day {
                    let i = choose|i: int| 0 <= i < shown.len() && shown[i] == Some(d);
                    assert(days@.take(k as int)[i] == Some(d));
                    assert(before.contains(d));
                }
                if before.contains(d) {
                    assert(days@.take(k as int).contains(Some(d)));
                    let i = choose|i: int|
                        0 <= i < days@.take(k as int).len() && days@.take(k as int)[i] == Some(d);
                    assert(shown[i] == Some(d));
                }
                assert(shown[k as int] == day);
            }
        }
        if let Some(date) = days[k] {
            let mut at: usize = 0;
            while at < sorted.len() && sorted[at].is_before(&date)
                invariant
                    sorted@ == before,
                    at <= sorted@.len(),
                    forall|i: int| 0 <= i < at ==> (#[trigger] before[i]).before(date),
                decreases sorted@.len() - at,
            {
                at += 1;
            }
            if at < sorted.len() && sorted[at] == date {
                assert(before.contains(date)) by {
                    assert(before[at as int] == date);
                }
            } else {
                sorted.insert(at, date);
                proof {
                    assert forall|i: int, j: int| 0 <= i < j < sorted@.len() implies (
                    #[trigger] sorted@[i]).before(#[trigger] sorted@[j]) by {
                        let i0 = if i < at { i } else { i - 1 };
                        let j0 = if j < at { j } else { j - 1 };
                        if i != at && j != at {
                            assert(before[i0].before(before[j0]));
                        }
                        if i == at {
                            assert(at < j0 ==> before[at as int].before(before[j0]));
                        }
                    }
                    assert forall|d: Date| #[trigger] sorted@.contains(d) <==> before.contains(d)
                        || d == date by {
                        if sorted@.contains(d) && d != date {
                            let i = choose|i: int| 0 <= i < sorted@.len() && sorted@[i] == d;
                            assert(before[if i < at { i } else { i - 1 }] == d);
                        }
                        if before.contains(d) {
                            let i = choose|i: int| 0 <= i < before.len() && before[i] == d;
                            assert(sorted@[if i < at { i } else { i + 1 }] == d);
                        }
                        assert(sorted@[at as int] == date);
                    }
                }
            }
        }
    }
    assert(days@.take(days@.len() as int) =~= days@);
    sorted
}

/// The places at which `days` holds `date`, in order.
pub open spec fn places(days: Seq<Option<Date>>, date: Date) -> Seq<usize>
    decreases days.len(),
{
    if days.len() == 0 {
        Seq::empty()
    } else {
        let before = places(days.drop_last(), date);
        if days.last() == Some(date) {
            before.push((days.len() - 1) as usize)
        } else {
            before
        }
    }
}

/// A place is one at which the day stands.
pub proof fn lemma_places(days: Seq<Option<Date>>, date: Date, k: int)
    requires
        days.len() <= usize::MAX,
        0 <= k < places(days, date).len(),
    ensures
        places(days, date)[k] < days.len(),
        days[places(days, date)[k] as int] == Some(date),
    decreases days.len(),
{
    if k < places(days.drop_last(), date).len() {
        lemma_places(days.drop_last(), date, k);
    }
}

/// The places at which `days` holds `date`, in order.
pub fn places_on(days: &Vec<Option<Date>>, date: &Date) -> (r: Vec<usize>)
    ensures
        r@ == places(days@, *date),
{
    let mut found: Vec<usize> = Vec::new();
    assert(days@.take(0).len() == 0);
    for i in 0..days.len()
        invariant
            found@ == places(days@.take(i as int), *date),
    {
        assert(days@.take(i + 1).drop_last() =~= days@.take(i as int));
        if let Some(day) = days[i] {
            if day == *date {
                found.push(i);
            }
        }
    }
    assert(days@.take(days@.len() as int) =~= days@);
    found
}

/// The days of the entries that count: of the others none, and of those that count one that is
/// possible.
pub open spec fn days_of(entries: Seq<EntryModel>, days: Seq<Option<Date>>) -> bool {
    &&& days.len() == entries.len()
    &&& forall|i: int|
        0 <= i < entries.len() ==> match #[trigger] days[i] {
            Some(date) => entries[i].counts() && day_possible(
                date,
                entries[i].entry.time.secs as int,
            ),
            None => !entries[i].counts(),
        }
}

impl App {
    /// The machine can tell the local day of every entry that counts.
    pub open spec fn has_local_days(&self) -> bool {
        forall|i: int|
            0 <= i < self@.entries.len() && (#[trigger] self@.entries[i]).counts()
                ==> has_local_time(self@.entries[i].entry)
    }

    /// Whether the machine can tell the local day of every entry that counts.
    pub fn can_tell_days(&self) -> (r: bool)
        requires
            self.wf(),
        ensures
            r == self.has_local_days(),
    {
        for i in 0..self.entries.len()
            invariant
                self.wf(),
                forall|j: int|
                    0 <= j < i && (#[trigger] self@.entries[j]).counts() ==> has_local_time(
                        self@.entries[j].entry,
                    ),
        {
            let entry = &self.entries[i];
            assert(self@.entries[i as int] == entry@);
            let secs: i64 = entry.entry.time.secs;
            let outside = secs < MIN_SECS + SECS_PER_DAY || secs > MAX_SECS - SECS_PER_DAY;
            if entry.counts() && outside {
                assert(!has_local_time(self@.entries[i as int].entry));
                return false;
            }
        }
        true
    }

    /// The days on which the entries that count have begun, as the clock of the machine has
    /// them.
    pub fn local_days(&self) -> (r: Vec<Option<Date>>)
        requires
            self.wf(),
            self.has_local_days(),
        ensures
            days_of(self@.entries, r@),
    {
        let mut days: Vec<Option<Date>> = Vec::new();
        for i in 0..self.entries.len()
            invariant
                self.wf(),
                self.has_local_days(),
                days@.len() == i,
                forall|j: int|
                    0 <= j < i ==> match #[trigger] days@[j] {
                        Some(date) => self@.entries[j].counts() && day_possible(
                            date,
                            self@.entries[j].entry.time.secs as int,
                        ),
                        None => !self@.entries[j].counts(),
                    },
        {
            let entry = &self.entries[i];
            assert(self@.entries[i as int] == entry@);
            if entry.counts() {
                days.push(Some(local_date(entry.entry.time.secs)));
            } else {
                days.push(None);
            }
        }
        days
    }

    /// The days on which entries that count have begun, in order and each once. Which day that
    /// is of those possible is up to the time zone of the machine; no day comes in but by an
    /// entry that the zone has begin on it.
    pub fn get_available_dates(&self) -> (r: Vec<Date>)
        requires
            self.wf(),
            self.has_local_days(),
        ensures
            days_ascend(r@),
            exists|days: Seq<Option<Date>>|
                {
                    &&& #[trigger] days_of(self@.entries, days)
                    &&& forall|date: Date| #[trigger]
                        r@.contains(date) <==> days.contains(Some(date))
                },
            forall|k: int| 0 <= k < r@.len() ==> (#[trigger] r@[k]).valid(),
    {
        let days = self.local_days();
        let r = available_dates(&days);
        proof {
            assert forall|k: int| 0 <= k < r@.len() implies (#[trigger] r@[k]).valid() by {
                assert(r@.contains(r@[k]));
                let i = choose|i: int| 0 <= i < days@.len() && days@[i] == Some(r@[k]);
                assert(days@[i] is Some);
            }
        }
        r
    }
}

/// Merging loses nothing: every entry that was there is there, with what the user has added.
pub proof fn law_merge_keeps_notes(map: Map<u32, EntryModel>, update: Seq<TimeEntry>, id: u32)
    requires
        map.contains_key(id),
    ensures
        merged(map, update).contains_key(id),
        merged(map, update)[id].description == map[id].description,
        merged(map, update)[id].visible == map[id].visible,
        merged(map, update)[id].deleted == map[id].deleted,
    decreases update.len(),
{
    if update.len() > 0 {
        law_merge_keeps_notes(map, update.drop_last(), id);
    }
}

/// What the device has logged is there after merging: of several updates of one entry, the last.
pub proof fn law_merge_takes_log(map: Map<u32, EntryModel>, update: Seq<TimeEntry>, i: int)
    requires
        0 <= i < update.len(),
        forall|j: int| i < j < update.len() ==> (#[trigger] update[j]).id != update[i].id,
    ensures
        merged(map, update).contains_key(update[i].id),
        merged(map, update)[update[i].id].entry == update[i],
    decreases update.len(),
{
    if i < update.len() - 1 {
        let front = update.drop_last();
        assert(front[i] == update[i]);
        assert(update[update.len() - 1].id != update[i].id);
        assert forall|j: int| i < j < front.len() implies (#[trigger] front[j]).id != front[i].id by {
            assert(update[j].id != update[i].id);
        }
        law_merge_takes_log(map, front, i);
    }
}

/// Entries of which the device logs nothing new stay as they are.
pub proof fn law_merge_leaves_others(map: Map<u32, EntryModel>, update: Seq<TimeEntry>, id: u32)
    requires
        forall|j: int| 0 <= j < update.len() ==> (#[trigger] update[j]).id != id,
    ensures
        merged(map, update).contains_key(id) == map.contains_key(id),
        map.contains_key(id) ==> merged(map, update)[id] == map[id],
    decreases update.len(),
{
    if update.len() > 0 {
        let front = update.drop_last();
        assert(update[update.len() - 1].id != id);
        assert forall|j: int| 0 <= j < front.len() implies (#[trigger] front[j]).id != id by {
            assert(update[j].id != id);
        }
        law_merge_leaves_others(map, front, id);
    }
}

/// The last update with an id, if there is one.
proof fn lemma_last_update(update: Seq<TimeEntry>, id: u32) -> (i: int)
    requires
        exists|j: int| 0 <= j < update.len() && (#[trigger] update[j]).id == id,
    ensures
        0 <= i < update.len(),
        update[i].id == id,
        forall|j: int| i < j < update.len() ==> (#[trigger] update[j]).id != id,
    decreases update.len(),
{
    if update.last().id == id {
        update.len() - 1
    } else {
        let front = update.drop_last();
        let j = choose|j: int| 0 <= j < update.len() && (#[trigger] update[j]).id == id;
        assert(front[j].id == id);
        let i = lemma_last_update(front, id);
        assert forall|j: int| i < j < update.len() implies (#[trigger] update[j]).id != id by {
            if j < front.len() {
                assert(front[j].id != id);
            }
        }
        i
    }
}

/// Reading the same log a second time changes nothing.
pub proof fn law_merge_twice(map: Map<u32, EntryModel>, update: Seq<TimeEntry>)
    ensures
        merged(merged(map, update), update) == merged(map, update),
{
    let once = merged(map, update);
    let twice = merged(once, update);
    assert forall|id: u32| #[trigger] twice.contains_key(id) == once.contains_key(id) && (
    once.contains_key(id) ==> twice[id] == once[id]) by {
        if exists|j: int| 0 <= j < update.len() && (#[trigger] update[j]).id == id {
            let i = lemma_last_update(update, id);
            law_merge_takes_log(map, update, i);
            law_merge_takes_log(once, update, i);
            law_merge_keeps_notes(once, update, id);
        } else {
            law_merge_leaves_others(once, update, id);
        }
    }
    assert(twice =~= once);
}

/// No id that has been merged is greater than the one remembered as seen last.
pub proof fn law_last_seen(last_seen: u32, update: Seq<TimeEntry>)
    ensures
        greatest_id(last_seen, update) >= last_seen,
        forall|i: int|
            0 <= i < update.len() ==> (#[trigger] update[i]).id <= greatest_id(last_seen, update),
        greatest_id(last_seen, update) == last_seen || exists|i: int|
            0 <= i < update.len() && (#[trigger] update[i]).id == greatest_id(last_seen, update),
    decreases update.len(),
{
    if update.len() > 0 {
        let front = update.drop_last();
        law_last_seen(last_seen, front);
        assert forall|i: int| 0 <= i < update.len() implies (#[trigger] update[i]).id
            <= greatest_id(last_seen, update) by {
            if i < front.len() {
                assert(front[i].id <= greatest_id(last_seen, front));
            }
        }
        if greatest_id(last_seen, update) == update.last().id {
            assert(update[update.len() - 1].id == greatest_id(last_seen, update));
        } else if greatest_id(last_seen, front) != last_seen {
            let i = choose|i: int|
                0 <= i < front.len() && (#[trigger] front[i]).id == greatest_id(last_seen, front);
            assert(update[i].id == greatest_id(last_seen, update));
        }
    }
}

/// Making the list anew shows exactly the entries that are to be listed, each once and by id.
pub proof fn law_list_shows_listed(app: AppModel)
    requires
        app.wf(),
    ensures
        forall|i: int, j: int|
            0 <= i < j < app.refreshed().items.len() ==> #[trigger] app.refreshed().items[i]
                < #[trigger] app.refreshed().items[j],
        forall|i: int|
            0 <= i < app.entries.len() ==> ((#[trigger] app.entries[i]).listed(app.show_invisible)
                <==> app.refreshed().items.contains(app.entries[i].entry.id)),
        forall|k: int|
            0 <= k < app.refreshed().items.len() ==> has_id(
                app.entries,
                #[trigger] app.refreshed().items[k],
            ),
{
    let items = listed_ids(app.entries, app.show_invisible);
    lemma_listed_ascending(app.entries, app.show_invisible);
    assert forall|i: int| 0 <= i < app.entries.len() implies ((#[trigger] app.entries[i]).listed(
        app.show_invisible,
    ) <==> items.contains(app.entries[i].entry.id)) by {
        if app.entries[i].listed(app.show_invisible) {
            lemma_listed_shown(app.entries, app.show_invisible, i);
        }
        if items.contains(app.entries[i].entry.id) {
            let k = choose|k: int| 0 <= k < items.len() && items[k] == app.entries[i].entry.id;
            let j = lemma_listed_has(app.entries, app.show_invisible, k);
            assert(i < j ==> app.entries[i].entry.id < app.entries[j].entry.id);
            assert(j < i ==> app.entries[j].entry.id < app.entries[i].entry.id);
        }
    }
    assert forall|k: int| 0 <= k < items.len() implies has_id(app.entries, #[trigger] items[k]) by {
        let j = lemma_listed_has(app.entries, app.show_invisible, k);
        assert(app.entries[j].entry.id == items[k]);
    }
}

proof fn lemma_listed_shown(entries: Seq<EntryModel>, show_invisible: bool, i: int)
    requires
        0 <= i < entries.len(),
        entries[i].listed(show_invisible),
    ensures
        listed_ids(entries, show_invisible).contains(entries[i].entry.id),
    decreases entries.len(),
{
    let ids = listed_ids(entries, show_invisible);
    let before = listed_ids(entries.drop_last(), show_invisible);
    if i < entries.len() - 1 {
        assert(entries.drop_last()[i] == entries[i]);
        lemma_listed_shown(entries.drop_last(), show_invisible, i);
        let k = choose|k: int| 0 <= k < before.len() && before[k] == entries[i].entry.id;
        assert(ids[k] == entries[i].entry.id);
    } else {
        assert(ids[before.len() as int] == entries[i].entry.id);
    }
}

proof fn lemma_listed_ascending(entries: Seq<EntryModel>, show_invisible: bool)
    requires
        strictly_ascending(entries),
    ensures
        forall|i: int, j: int|
            0 <= i < j < listed_ids(entries, show_invisible).len() ==> #[trigger] listed_ids(
                entries,
                show_invisible,
            )[i] < #[trigger] listed_ids(entries, show_invisible)[j],
    decreases entries.len(),
{
    if entries.len() > 0 {
        let front = entries.drop_last();
        let before = listed_ids(front, show_invisible);
        let ids = listed_ids(entries, show_invisible);
        lemma_listed_ascending(front, show_invisible);
        assert forall|i: int, j: int| 0 <= i < j < ids.len() implies #[trigger] ids[i]
            < #[trigger] ids[j] by {
            if j < before.len() {
                assert(before[i] < before[j]);
            } else {
                let k = lemma_listed_has(front, show_invisible, i);
                assert(entries[k].entry.id < entries[entries.len() - 1].entry.id);
            }
        }
    }
}

/// Making the list anew a second time changes nothing.
pub proof fn law_refresh_twice(app: AppModel)
    requires
        app.wf(),
        app.refreshed().items.len() <= usize::MAX,
    ensures
        app.refreshed().refreshed() == app.refreshed(),
{
    let once = app.refreshed();
    lemma_listed_ascending(app.entries, app.show_invisible);
    if let Some(id) = app.selected_id() {
        once.items.index_of_first_ensures(id);
    }
    if let Some(id) = once.selected_id() {
        once.items.index_of_first_ensures(id);
        let k = once.state.selected->0 as int;
        assert(once.items.contains(once.items[k]));
        let m = once.items.index_of_first(id)->0;
        assert(m < k ==> once.items[m] < once.items[k]);
        assert(k < m ==> once.items[k] < once.items[m]);
    }
    assert(once.refreshed() =~= once);
}

/// Showing the invisible entries and hiding them again shows the list as it was. What was
/// selected is selected again, if it is listed either way.
pub proof fn law_toggle_visibility_twice(app: AppModel)
    requires
        app.wf(),
        app.entries.len() <= usize::MAX,
    ensures
        ({
            let shown = (AppModel { show_invisible: !app.show_invisible, ..app }).refreshed();
            let hidden = (AppModel { show_invisible: !shown.show_invisible, ..shown }).refreshed();
            &&& hidden.items == app.refreshed().items
            &&& hidden.entries == app.entries
            &&& hidden.show_invisible == app.show_invisible
            &&& app.selected_id() is Some && app.selected_entry().listed(false)
                ==> shown.selected_id() == app.selected_id() && hidden.selected_id()
                == app.selected_id()
        }),
{
    if app.selected_id() is Some && app.selected_entry().listed(false) {
        let shown = (AppModel { show_invisible: !app.show_invisible, ..app }).refreshed();
        lemma_selection_stays(AppModel { show_invisible: !app.show_invisible, ..app });
        assert(shown.selected_entry() == app.selected_entry());
        law_list_shows_listed(AppModel { show_invisible: !app.show_invisible, ..app });
        lemma_selection_stays(AppModel { show_invisible: !shown.show_invisible, ..shown });
    }
}

/// What is selected and listed stays selected when the list is made anew.
proof fn lemma_selection_stays(app: AppModel)
    requires
        app.wf(),
        app.entries.len() <= usize::MAX,
        app.selected_id() is Some,
        app.selected_entry().listed(app.show_invisible),
    ensures
        app.refreshed().selected_id() == app.selected_id(),
{
    let id = app.selected_id()->0;
    let items = app.refreshed().items;
    lemma_listed_len(app.entries, app.show_invisible);
    assert(has_id(app.entries, app.items[app.state.selected->0 as int]));
    let i = choose|i: int| 0 <= i < app.entries.len() && #[trigger] app.entries[i].entry.id == id;
    lemma_by_id_entry(app.entries, i);
    lemma_listed_shown(app.entries, app.show_invisible, i);
    items.index_of_first_ensures(id);
}

/// Not more is listed than there are entries.
proof fn lemma_listed_len(entries: Seq<EntryModel>, show_invisible: bool)
    ensures
        listed_ids(entries, show_invisible).len() <= entries.len(),
    decreases entries.len(),
{
    if entries.len() > 0 {
        lemma_listed_len(entries.drop_last(), show_invisible);
    }
}

/// Notes that are written to the selected entry are shown of it, and neither the other entries
/// nor anything else about it change.
pub proof fn law_notes_are_read_back(app: AppModel, notes: Seq<Seq<char>>)
    requires
        app.wf(),
        app.selected_id() is Some,
    ensures
        app.described(notes).selected_lines() == notes,
        by_id(app.described(notes).entries) == by_id(app.entries).insert(
            app.selected_id()->0,
            EntryModel { description: notes, ..app.selected_entry() },
        ),
{
    let id = app.selected_id()->0;
    let after = app.described(notes);
    lemma_same_ids(app.entries, after.entries);
    assert(has_id(app.entries, app.items[app.state.selected->0 as int]));
    let i = choose|i: int| 0 <= i < app.entries.len() && #[trigger] app.entries[i].entry.id == id;
    lemma_by_id_entry(app.entries, i);
    lemma_by_id_entry(after.entries, i);
    let expected = by_id(app.entries).insert(
        id,
        EntryModel { description: notes, ..app.selected_entry() },
    );
    assert forall|other: u32| #[trigger] by_id(after.entries).contains_key(other)
        == expected.contains_key(other) by {
        lemma_by_id_key(app.entries, other);
        lemma_by_id_key(after.entries, other);
    }
    assert forall|other: u32| #[trigger] by_id(after.entries).contains_key(other) implies by_id(
        after.entries,
    )[other] == expected[other] by {
        let j = lemma_by_id_from(after.entries, other);
        lemma_by_id_entry(app.entries, j);
    }
    assert(by_id(after.entries) =~= expected);
}

/// While the invisible entries are shown, an entry that is done and then not done any more is as
/// it was.
pub proof fn law_done_twice(app: AppModel)
    requires
        app.wf(),
        app.show_invisible,
    ensures
        app.done_toggled().done_toggled() == app,
{
    if let Some(id) = app.selected_id() {
        let once = app.done_toggled();
        lemma_same_ids(app.entries, once.entries);
        assert(has_id(app.entries, app.items[app.state.selected->0 as int]));
        let i = choose|i: int|
            0 <= i < app.entries.len() && #[trigger] app.entries[i].entry.id == id;
        lemma_by_id_entry(app.entries, i);
        lemma_by_id_entry(once.entries, i);
        let twice = once.done_toggled();
        assert forall|j: int| 0 <= j < app.entries.len() implies #[trigger] twice.entries[j]
            == app.entries[j] by {
            assert(j < i ==> app.entries[j].entry.id < app.entries[i].entry.id);
            assert(i < j ==> app.entries[i].entry.id < app.entries[j].entry.id);
        }
        assert(twice.entries =~= app.entries);
    }
}

/// Nothing that the device has logged and no notes are lost by declaring an entry done or by
/// deleting it.
pub proof fn law_done_keeps_log(app: AppModel, i: int)
    requires
        0 <= i < app.entries.len(),
    ensures
        app.done_toggled().entries.len() == app.entries.len(),
        app.done_toggled().entries[i].entry == app.entries[i].entry,
        app.done_toggled().entries[i].description == app.entries[i].description,
        app.done_deleted().entries.len() == app.entries.len(),
        app.done_deleted().entries[i].entry == app.entries[i].entry,
        app.done_deleted().entries[i].description == app.entries[i].description,
{
}

/// An entry that is done leaves a list that does not show such entries, and an entry that is
/// deleted leaves the list. All others stay, in their order.
pub proof fn law_done_leaves_list(app: AppModel)
    requires
        app.selected_id() is Some,
    ensures
        app.selected_entry().visible && !app.show_invisible ==> app.done_toggled().items
            == app.items.remove(app.state.selected->0 as int),
        !app.selected_entry().visible && app.show_invisible ==> app.done_deleted().items
            == app.items.remove(app.state.selected->0 as int),
{
}

/// A history that is saved in any order is read back as it was.
pub proof fn law_saved_history_is_read_back(
    entries: Seq<EntryModel>,
    saved: Seq<EntryModel>,
    sorted: Seq<EntryModel>,
    read: Seq<EntryModel>,
)
    requires
        strictly_ascending(entries),
        // `saved` holds the entries in any order
        forall|id: u32| #[trigger] with_id(saved, id) == with_id(entries, id),
        // `sorted` is what `sorted_history` makes of it
        ascending(sorted),
        forall|id: u32| #[trigger] with_id(sorted, id) == with_id(saved, id),
        // `read` is what `App::new_from_entries` makes of that
        strictly_ascending(read),
        by_id(read) == by_id(sorted),
    ensures
        sorted == entries,
        read == entries,
{
    assert forall|i: int, j: int| 0 <= i < j < entries.len() implies #[trigger] entries[i].entry.id
        <= #[trigger] entries[j].entry.id by {
        assert(entries[i].entry.id < entries[j].entry.id);
    }
    assert forall|id: u32| #[trigger] with_id(sorted, id) == with_id(entries, id) by {
        assert(with_id(saved, id) == with_id(entries, id));
    }
    law_sorted_history_unique(sorted, entries);
    lemma_by_id_unique(read, entries);
}

/// The selected entry is the one whose id stands at the selected place of the list, if there is
/// one, and its notes are shown; else one empty line is.
pub proof fn law_selected(app: AppModel)
    ensures
        match app.state.selected {
            Some(i) => if i < app.items.len() {
                &&& app.selected_id() == Some(app.items[i as int])
                &&& app.selected_lines() == by_id(app.entries)[app.items[i as int]].description
            } else {
                app.selected_id() is None && app.selected_lines() == seq![Seq::<char>::empty()]
            },
            None => app.selected_id() is None && app.selected_lines() == seq![Seq::<char>::empty()],
        },
{
}

/// Making the list anew keeps what is selected where it is still listed, selects the first item
/// where it is not, scrolls to the top, and changes no entry.
pub proof fn law_refresh_selection(app: AppModel)
    requires
        app.wf(),
        app.entries.len() <= usize::MAX,
    ensures
        ({
            let after = app.refreshed();
            &&& after.entries == app.entries && after.show_invisible == app.show_invisible
            &&& after.state.offset == 0
            &&& app.selected_id() is Some && after.items.contains(app.selected_id()->0)
                ==> after.selected_id() == app.selected_id()
            &&& app.selected_id() is None || !after.items.contains(app.selected_id()->0)
                ==> after.state.selected == Some(0usize)
        }),
{
    let items = app.refreshed().items;
    lemma_listed_len(app.entries, app.show_invisible);
    if app.selected_id() is Some {
        items.index_of_first_ensures(app.selected_id()->0);
    }
}

/// Declaring an entry done, or not done any more, changes whether it is visible, and nothing else
/// of the entries. It leaves the list, with the next one selected, exactly if it is done now and
/// such entries are not shown.
pub proof fn law_done_marks_selected(app: AppModel)
    requires
        app.wf(),
        app.selected_id() is Some,
        app.items.len() <= usize::MAX,
    ensures
        ({
            let id = app.selected_id()->0;
            let place = app.state.selected->0;
            let entry = by_id(app.entries)[id];
            let after = app.done_toggled();
            &&& by_id(after.entries) == by_id(app.entries).insert(
                id,
                EntryModel { visible: !entry.visible, ..entry },
            )
            &&& after.show_invisible == app.show_invisible
            &&& !entry.visible || app.show_invisible ==> after.items == app.items && after.state
                == app.state
            &&& entry.visible && !app.show_invisible ==> {
                &&& after.items == app.items.remove(place as int)
                &&& app.items.len() == 1 ==> after.state.selected is None
                &&& app.items.len() > 1 ==> after.state.selected == Some(place)
            }
        }),
{
    let id = app.selected_id()->0;
    assert(app.items.contains(id));
    let at = lemma_place_of(app.entries, id);
    let entry = app.entries[at];
    let changed = EntryModel { visible: !entry.visible, ..entry };
    lemma_one_changed(app.entries, at, changed);
    assert(set_visible(app.entries, id, !entry.visible) =~= app.entries.update(at, changed));
}

/// An entry is deleted exactly if it is done and such entries are shown; it leaves the list then,
/// and nothing else changes.
pub proof fn law_delete_needs_done(app: AppModel)
    requires
        app.wf(),
        app.selected_id() is Some,
        app.items.len() <= usize::MAX,
    ensures
        ({
            let id = app.selected_id()->0;
            let place = app.state.selected->0;
            let entry = by_id(app.entries)[id];
            let after = app.done_deleted();
            &&& entry.visible || !app.show_invisible ==> after == app
            &&& !entry.visible && app.show_invisible ==> {
                &&& by_id(after.entries) == by_id(app.entries).insert(
                    id,
                    EntryModel { deleted: true, ..entry },
                )
                &&& after.items == app.items.remove(place as int)
                &&& after.show_invisible == app.show_invisible
                &&& app.items.len() == 1 ==> after.state.selected is None
                &&& app.items.len() > 1 ==> after.state.selected == Some(place)
            }
        }),
{
    let id = app.selected_id()->0;
    assert(app.items.contains(id));
    let at = lemma_place_of(app.entries, id);
    let changed = EntryModel { deleted: true, ..app.entries[at] };
    lemma_one_changed(app.entries, at, changed);
    assert(set_deleted(app.entries, id) =~= app.entries.update(at, changed));
}

/// New notes of the selected entry take the place of its notes, and change nothing else.
pub proof fn law_notes_of_selected(app: AppModel, notes: Seq<Seq<char>>)
    requires
        app.wf(),
        app.selected_id() is Some,
    ensures
        ({
            let id = app.selected_id()->0;
            let after = app.described(notes);
            &&& by_id(after.entries) == by_id(app.entries).insert(
                id,
                EntryModel { description: notes, ..by_id(app.entries)[id] },
            )
            &&& after.items == app.items && after.state == app.state && after.show_invisible
                == app.show_invisible
        }),
{
    let id = app.selected_id()->0;
    assert(app.items.contains(id));
    let at = lemma_place_of(app.entries, id);
    let changed = EntryModel { description: notes, ..app.entries[at] };
    lemma_one_changed(app.entries, at, changed);
    assert(set_description(app.entries, id, notes) =~= app.entries.update(at, changed));
}

/// The one place of an id among the entries.
proof fn lemma_place_of(entries: Seq<EntryModel>, id: u32) -> (at: int)
    requires
        strictly_ascending(entries),
        has_id(entries, id),
    ensures
        0 <= at < entries.len(),
        entries[at].entry.id == id,
        forall|i: int| 0 <= i < entries.len() && i != at ==> (#[trigger] entries[i]).entry.id != id,
{
    let at = choose|i: int| 0 <= i < entries.len() && #[trigger] entries[i].entry.id == id;
    assert forall|i: int| 0 <= i < entries.len() && i != at implies (#[trigger] entries[i]).entry.id
        != id by {
        assert(i < at ==> entries[i].entry.id < entries[at].entry.id);
        assert(at < i ==> entries[at].entry.id < entries[i].entry.id);
    }
    at
}

/// Without a selection neither of them does anything, nor do notes.
pub proof fn law_nothing_selected(app: AppModel, notes: Seq<Seq<char>>)
    requires
        app.selected_id() is None,
    ensures
        app.done_toggled() == app,
        app.done_deleted() == app,
        app.described(notes) == app,
{
}

/// Where one entry changes, but for what was logged, what is found by its id changes alone.
proof fn lemma_one_changed(before: Seq<EntryModel>, at: int, changed: EntryModel)
    requires
        strictly_ascending(before),
        0 <= at < before.len(),
        changed.entry == before[at].entry,
    ensures
        by_id(before)[before[at].entry.id] == before[at],
        by_id(before.update(at, changed)) == by_id(before).insert(before[at].entry.id, changed),
{
    let after = before.update(at, changed);
    let id = before[at].entry.id;
    let expected = by_id(before).insert(id, changed);
    lemma_by_id_entry(before, at);
    lemma_same_ids(before, after);
    assert(has_id(before, id));
    assert forall|other: u32| #[trigger] by_id(after).contains_key(other)
        == expected.contains_key(other) by {
        lemma_by_id_key(before, other);
        lemma_by_id_key(after, other);
    }
    assert forall|other: u32| #[trigger] by_id(after).contains_key(other) implies by_id(
        after,
    )[other] == expected[other] by {
        let j = lemma_by_id_from(after, other);
        lemma_by_id_entry(before, j);
        if other == id {
            assert(j < at ==> before[j].entry.id < before[at].entry.id);
            assert(at < j ==> before[at].entry.id < before[j].entry.id);
        }
    }
    assert(by_id(after) =~= expected);
}

/// One log entry more: where its id is known, it takes the place of what was logged and the
/// user's additions stay; else it comes in visible, without notes. The greatest id is kept.
pub proof fn law_merge_one_more(
    map: Map<u32, EntryModel>,
    update: Seq<TimeEntry>,
    entry: TimeEntry,
    last_seen: u32,
)
    ensures
        merged(map, Seq::empty()) == map,
        greatest_id(last_seen, Seq::empty()) == last_seen,
        ({
            let before = merged(map, update);
            merged(map, update.push(entry)) == before.insert(
                entry.id,
                EntryModel {
                    entry,
                    description: if before.contains_key(entry.id) {
                        before[entry.id].description
                    } else {
                        Seq::empty()
                    },
                    visible: before.contains_key(entry.id) ==> before[entry.id].visible,
                    deleted: before.contains_key(entry.id) && before[entry.id].deleted,
                },
            )
        }),
        greatest_id(last_seen, update.push(entry)) == if entry.id > greatest_id(last_seen, update) {
            entry.id
        } else {
            greatest_id(last_seen, update)
        },
{
    assert(update.push(entry).drop_last() =~= update);
}

/// The local day can be told of every time that is more than a day from the ends of the calendar.
pub proof fn law_days_can_be_told(app: App)
    ensures
        app.has_local_days() <==> forall|i: int|
            0 <= i < app@.entries.len() && (#[trigger] app@.entries[i]).counts()
                ==> -8_334_601_142_400 <= app@.entries[i].entry.time.secs <= 8_210_266_790_399,
{
}

} // verus!
