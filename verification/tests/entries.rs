use timekeeper::app::{available_dates, places_on, App};
use timekeeper::calendar::{Date, Instant, MAX_SECS};
use timekeeper::duration::Duration;
use timekeeper::entries::{find_entry, sorted_history, Facet, MyEntry, TimeEntry};

fn logged(id: u32, secs: u64) -> TimeEntry {
    TimeEntry {
        id,
        facet: Facet { index: 0 },
        time: Instant { secs: 1_715_774_400, nanos: 0 },
        duration: Duration::from_secs(secs),
    }
}

fn noted(id: u32, secs: u64, visible: bool, deleted: bool) -> MyEntry {
    MyEntry {
        entry: logged(id, secs),
        description: vec![format!("note {}", id)],
        visible,
        deleted,
    }
}

fn ids(entries: &Vec<MyEntry>) -> Vec<u32> {
    entries.iter().map(|e| e.entry.id).collect()
}

fn date(day: u32) -> Date {
    Date { year: 2024, month: 5, day }
}

#[test]
fn new_app_lists_what_is_visible_and_long_enough() {
    let app = App::new_from_entries(vec![
        noted(1, 31, true, false),
        noted(2, 30, true, false),
        noted(3, 31, false, false),
        noted(4, 31, true, true),
        noted(5, 400, true, false),
    ]);
    assert_eq!(app.items.items, vec![1, 5]);
    assert_eq!(app.items.state.selected, Some(0));
    assert_eq!(ids(&app.entries), vec![1, 2, 3, 4, 5]);
    assert!(!app.show_invisible);
}

#[test]
fn last_of_several_entries_with_one_id_is_kept() {
    let mut late = noted(7, 100, true, false);
    late.description = vec!["late".to_string()];
    let app = App::new_from_entries(vec![noted(7, 50, true, false), noted(3, 50, true, false), late]);
    assert_eq!(ids(&app.entries), vec![3, 7]);
    assert_eq!(app.entries[1].description, vec!["late".to_string()]);
    assert_eq!(app.items.items, vec![7, 3, 7]);
}

#[test]
fn invisible_entries_are_shown_and_hidden() {
    let mut app = App::new_from_entries(vec![
        noted(1, 31, true, false),
        noted(3, 31, false, false),
        noted(5, 31, true, false),
        noted(6, 31, false, true),
    ]);
    app.items.next();
    app.toggle_visibility();
    assert!(app.show_invisible);
    assert_eq!(app.items.items, vec![1, 3, 5]);
    // what was selected stays selected
    assert_eq!(app.items.selected(), Some(&5));
    app.toggle_visibility();
    assert_eq!(app.items.items, vec![1, 5]);
    assert_eq!(app.items.selected(), Some(&5));
}

#[test]
fn selection_begins_anew_where_it_is_gone() {
    let mut app = App::new_from_entries(vec![
        noted(1, 31, true, false),
        noted(3, 31, false, false),
    ]);
    app.toggle_visibility();
    app.items.next();
    assert_eq!(app.items.selected(), Some(&3));
    app.toggle_visibility();
    assert_eq!(app.items.selected(), Some(&1));
}

#[test]
fn refreshing_twice_changes_nothing() {
    let mut app = App::new_from_entries(vec![noted(1, 31, true, false), noted(2, 31, true, false)]);
    app.items.next();
    app.update_entry_list();
    let (items, state) = (app.items.items.clone(), app.items.state);
    app.update_entry_list();
    assert_eq!(app.items.items, items);
    assert_eq!(app.items.state, state);
    assert_eq!(app.items.selected(), Some(&2));
}

#[test]
fn done_entry_leaves_the_list() {
    let mut app = App::new_from_entries(vec![noted(1, 31, true, false), noted(2, 31, true, false)]);
    app.toggle_done();
    assert_eq!(app.items.items, vec![2]);
    assert!(!app.entries[0].visible);
    assert_eq!(app.entries[0].description, vec!["note 1".to_string()]);
    assert_eq!(app.items.selected(), Some(&2));
}

#[test]
fn done_twice_is_not_done() {
    let mut app = App::new_from_entries(vec![noted(1, 31, true, false), noted(2, 31, true, false)]);
    app.toggle_visibility();
    app.toggle_done();
    assert!(!app.entries[0].visible);
    assert_eq!(app.items.items, vec![1, 2]);
    app.toggle_done();
    assert!(app.entries[0].visible);
    assert_eq!(app.items.items, vec![1, 2]);
}

#[test]
fn only_what_is_done_is_deleted() {
    let mut app = App::new_from_entries(vec![noted(1, 31, true, false), noted(2, 31, false, false)]);
    app.toggle_visibility();
    app.delete_done();
    assert!(!app.entries[0].deleted);
    assert_eq!(app.items.items, vec![1, 2]);
    app.items.next();
    app.delete_done();
    assert!(app.entries[1].deleted);
    assert_eq!(app.items.items, vec![1]);
    app.update_entry_list();
    assert_eq!(app.items.items, vec![1]);
    assert_eq!(ids(&app.entries), vec![1, 2]);
}

#[test]
fn nothing_is_deleted_while_hidden() {
    let mut app = App::new_from_entries(vec![noted(1, 31, false, false)]);
    app.delete_done();
    app.toggle_done();
    assert!(!app.entries[0].deleted);
    assert!(!app.entries[0].visible);
}

#[test]
fn notes_are_read_back() {
    let mut app = App::new_from_entries(vec![noted(1, 31, true, false), noted(2, 31, true, false)]);
    app.items.next();
    let notes = vec!["first".to_string(), "second".to_string()];
    app.describe(&notes);
    assert_eq!(app.selected_description(), notes);
    assert_eq!(app.entries[0].description, vec!["note 1".to_string()]);
}

#[test]
fn without_selection_one_empty_line_is_shown() {
    let mut app = App::new_from_entries(vec![]);
    assert_eq!(app.selected_description(), vec!["".to_string()]);
    app.describe(&vec!["lost".to_string()]);
    app.toggle_done();
    app.delete_done();
    assert_eq!(app.entries.len(), 0);
}

#[test]
fn merging_keeps_notes_and_takes_the_log() {
    let mut app = App::new_from_entries(vec![noted(4, 31, false, false), noted(9, 31, true, false)]);
    let seen = app.merge_history(9, vec![logged(12, 60), logged(4, 77), logged(10, 40)]);
    assert_eq!(seen, 12);
    assert_eq!(ids(&app.entries), vec![4, 9, 10, 12]);
    assert_eq!(app.entries[0].entry.duration, Duration::from_secs(77));
    assert_eq!(app.entries[0].description, vec!["note 4".to_string()]);
    assert!(!app.entries[0].visible);
    assert_eq!(app.entries[2].description, Vec::<String>::new());
    assert!(app.entries[2].visible);
    assert!(!app.entries[2].deleted);
    // the list is made anew only when it is asked for
    assert_eq!(app.items.items, vec![9]);
    app.update_entry_list();
    assert_eq!(app.items.items, vec![9, 10, 12]);
}

#[test]
fn merging_twice_changes_nothing() {
    let mut app = App::new_from_entries(vec![noted(4, 31, true, false)]);
    let update = vec![logged(5, 60), logged(6, 77)];
    let once = app.merge_history(0, update.clone());
    let before = ids(&app.entries);
    let twice = app.merge_history(once, update);
    assert_eq!(once, 6);
    assert_eq!(twice, 6);
    assert_eq!(ids(&app.entries), before);
    assert_eq!(app.merge_history(8, vec![]), 8);
}

#[test]
fn history_is_read_back_by_id() {
    let (last, sorted) = sorted_history(vec![
        noted(5, 31, true, false),
        noted(2, 31, true, false),
        noted(9, 31, true, false),
        noted(2, 99, true, false),
    ]);
    assert_eq!(last, 9);
    assert_eq!(ids(&sorted), vec![2, 2, 5, 9]);
    // entries with one id stay in their order
    assert_eq!(sorted[0].entry.duration, Duration::from_secs(31));
    assert_eq!(sorted[1].entry.duration, Duration::from_secs(99));
    let (last, sorted) = sorted_history(vec![]);
    assert_eq!(last, 0);
    assert_eq!(sorted.len(), 0);
}

#[test]
fn saved_history_in_any_order_gives_the_same_app() {
    let (_, sorted) = sorted_history(vec![noted(3, 31, true, false), noted(1, 40, false, false)]);
    let app = App::new_from_entries(sorted);
    assert_eq!(ids(&app.entries), vec![1, 3]);
    assert_eq!(app.items.items, vec![3]);
}

#[test]
fn entries_are_found_by_id() {
    let app = App::new_from_entries(vec![noted(3, 31, true, false), noted(8, 31, true, false)]);
    assert_eq!(find_entry(&app.entries, 3), Some(0));
    assert_eq!(find_entry(&app.entries, 8), Some(1));
    assert_eq!(find_entry(&app.entries, 5), None);
    assert_eq!(find_entry(&vec![], 5), None);
}

#[test]
fn days_are_sorted_and_each_comes_once() {
    let days = vec![Some(date(9)), None, Some(date(2)), Some(date(9)), Some(date(5))];
    assert_eq!(available_dates(&days), vec![date(2), date(5), date(9)]);
    assert_eq!(available_dates(&vec![None]), vec![]);
    assert_eq!(places_on(&days, &date(9)), vec![0, 3]);
    assert_eq!(places_on(&days, &date(1)), Vec::<usize>::new());
}

#[test]
fn local_days_agree_with_the_calendar_crate() {
    let mut app = App::new_from_entries(vec![noted(1, 31, true, false), noted(2, 30, true, false)]);
    app.entries[0].entry.time.secs = 1_715_774_400;
    assert!(app.can_tell_days());
    let expected = chrono::DateTime::<chrono::Utc>::from_timestamp(1_715_774_400, 0)
        .unwrap()
        .with_timezone(&chrono::Local)
        .format("%d.%m.%Y")
        .to_string();
    let days = app.local_days();
    assert_eq!(days.len(), 2);
    assert_eq!(days[0].unwrap().day_month_year(), expected);
    assert_eq!(days[1], None);
    let dates = app.get_available_dates();
    assert_eq!(dates.len(), 1);
    assert_eq!(dates[0].day_month_year(), expected);
}

#[test]
fn days_at_the_end_of_the_calendar_cannot_be_told() {
    let mut app = App::new_from_entries(vec![noted(1, 31, true, false)]);
    app.entries[0].entry.time.secs = MAX_SECS;
    assert!(!app.can_tell_days());
    app.entries[0].deleted = true;
    assert!(app.can_tell_days());
}
