use timekeeper::stateful_list::StatefulList;

fn selected(list: &StatefulList<u32>) -> Option<u32> {
    list.selected().copied()
}

#[test]
fn first_item_is_selected() {
    let list = StatefulList::with_items(vec![10, 20, 30], None);
    assert_eq!(list.state.selected, Some(0));
    assert_eq!(selected(&list), Some(10));
    let list = StatefulList::with_items(vec![10, 20, 30], Some(2));
    assert_eq!(selected(&list), Some(30));
    let empty = StatefulList::with_items(Vec::<u32>::new(), None);
    assert_eq!(empty.state.selected, Some(0));
    assert_eq!(selected(&empty), None);
}

#[test]
fn down_goes_round() {
    let mut list = StatefulList::with_items(vec![10, 20, 30], None);
    let mut seen = Vec::new();
    for _ in 0..4 {
        seen.push(selected(&list).unwrap());
        list.next();
    }
    assert_eq!(seen, vec![10, 20, 30, 10]);
}

#[test]
fn up_undoes_down() {
    for start in 0..3 {
        let mut list = StatefulList::with_items(vec![10, 20, 30], Some(start));
        list.next();
        list.previous();
        assert_eq!(list.state.selected, Some(start));
    }
}

#[test]
fn empty_list_has_no_selection() {
    let mut list = StatefulList::with_items(Vec::<u32>::new(), None);
    list.next();
    assert_eq!(list.state.selected, None);
    list.previous();
    assert_eq!(list.state.selected, None);
}

#[test]
fn nothing_selected_goes_to_the_first() {
    let mut list = StatefulList::with_items(vec![10, 20], None);
    list.state.select(None);
    list.next();
    assert_eq!(selected(&list), Some(10));
    list.state.select(None);
    list.previous();
    assert_eq!(selected(&list), Some(10));
}

#[test]
fn removing_moves_on() {
    let mut list = StatefulList::with_items(vec![10, 20, 30], Some(1));
    list.remove();
    assert_eq!(list.items, vec![10, 30]);
    assert_eq!(selected(&list), Some(30));
    list.remove();
    assert_eq!(list.items, vec![10]);
    // past the end: nothing is selected until the next move
    assert_eq!(list.state.selected, Some(1));
    assert_eq!(selected(&list), None);
    list.next();
    assert_eq!(selected(&list), Some(10));
    list.remove();
    assert_eq!(list.items, Vec::<u32>::new());
    assert_eq!(list.state.selected, None);
}

#[test]
fn no_selection_starts_at_the_top() {
    let mut list = StatefulList::with_items(vec![10, 20], Some(1));
    list.state.offset = 7;
    list.state.select(Some(0));
    assert_eq!(list.state.offset, 7);
    list.state.select(None);
    assert_eq!(list.state.offset, 0);
}
