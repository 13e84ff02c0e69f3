use rssrs::ui::{jump_ahead, jump_back, step_backward, step_forward, ListState, StatefulList, TableState, TabsState};
use rssrs::util::StatefulTable;

fn rows(n: usize) -> Vec<Vec<String>> {
    (0..n).map(|i| vec![format!("row {}", i)]).collect()
}

#[test]
fn steps_wrap_around() {
    assert_eq!(step_forward(None, 3), 0);
    assert_eq!(step_forward(Some(0), 3), 1);
    assert_eq!(step_forward(Some(2), 3), 0);
    assert_eq!(step_forward(Some(7), 3), 0);
    assert_eq!(step_forward(Some(usize::MAX), usize::MAX), 0);
    assert_eq!(step_forward(Some(0), 0), 0);
    assert_eq!(step_forward(None, 0), 0);
    assert_eq!(step_backward(None, 3), 0);
    assert_eq!(step_backward(Some(0), 3), 2);
    assert_eq!(step_backward(Some(2), 3), 1);
    assert_eq!(step_backward(Some(0), 0), 0);
}

#[test]
fn jumps_stop_at_the_ends() {
    assert_eq!(jump_ahead(None, 5, 20), 0);
    assert_eq!(jump_ahead(Some(3), 5, 20), 8);
    assert_eq!(jump_ahead(Some(14), 5, 20), 19);
    assert_eq!(jump_ahead(Some(17), 5, 20), 19);
    assert_eq!(jump_ahead(Some(19), usize::MAX, 20), 19);
    assert_eq!(jump_ahead(Some(3), 5, 0), 0);
    assert_eq!(jump_back(None, 5), 0);
    assert_eq!(jump_back(Some(8), 5), 3);
    assert_eq!(jump_back(Some(5), 5), 0);
    assert_eq!(jump_back(Some(2), 5), 0);
}

#[test]
fn a_state_starts_without_selection() {
    let mut state = TableState::default();
    assert_eq!(state.selected(), None);
    state.select(Some(4));
    assert_eq!(state.selected(), Some(4));
    state.select(None);
    assert_eq!(state.selected(), None);
    let mut state = ListState::default();
    assert_eq!(state.selected(), None);
    state.select(Some(1));
    assert_eq!(state.selected(), Some(1));
}

#[test]
fn a_table_moves_its_selection() {
    let mut table = StatefulTable::new();
    assert_eq!(table.state.selected(), None);
    assert!(table.items.is_empty());
    table.set_items(rows(12));
    assert_eq!(table.state.selected(), None);
    table.next();
    assert_eq!(table.state.selected(), Some(0));
    table.next();
    assert_eq!(table.state.selected(), Some(1));
    table.previous();
    table.previous();
    assert_eq!(table.state.selected(), Some(11));
    table.next();
    assert_eq!(table.state.selected(), Some(0));
    table.jump_forward(5);
    assert_eq!(table.state.selected(), Some(5));
    table.jump_forward(5);
    table.jump_forward(5);
    assert_eq!(table.state.selected(), Some(11));
    table.jump_backward(5);
    assert_eq!(table.state.selected(), Some(6));
    table.jump_backward(7);
    assert_eq!(table.state.selected(), Some(0));
    table.set_items(rows(2));
    assert_eq!(table.state.selected(), Some(0));
    assert_eq!(table.items.len(), 2);
}

#[test]
fn a_list_moves_its_selection() {
    let mut list: StatefulList<u8> = StatefulList::new();
    assert!(list.items.is_empty());
    list.next();
    assert_eq!(list.state.selected(), Some(0));
    let mut list = StatefulList::with_items(vec!['a', 'b', 'c']);
    assert_eq!(list.state.selected(), None);
    list.previous();
    assert_eq!(list.state.selected(), Some(0));
    list.previous();
    assert_eq!(list.state.selected(), Some(2));
    list.next();
    assert_eq!(list.state.selected(), Some(0));
    list.unselect();
    assert_eq!(list.state.selected(), None);
    list.set_items(vec!['x']);
    assert_eq!(list.items, vec!['x']);
}

#[test]
fn tabs_go_round() {
    let mut tabs = TabsState::new(vec!["one", "two", "three"]);
    assert_eq!(tabs.index, 0);
    tabs.next();
    assert_eq!(tabs.index, 1);
    tabs.next();
    tabs.next();
    assert_eq!(tabs.index, 0);
    tabs.previous();
    assert_eq!(tabs.index, 2);
    tabs.previous();
    assert_eq!(tabs.index, 1);
    assert_eq!(tabs.titles, vec!["one", "two", "three"]);
}

#[test]
fn tabs_without_titles_stay() {
    let mut tabs = TabsState::new(Vec::new());
    tabs.next();
    assert_eq!(tabs.index, 0);
    tabs.previous();
    assert_eq!(tabs.index, 0);
}

#[test]
fn a_tab_index_beyond_the_titles_comes_back() {
    let mut tabs = TabsState::new(vec!["one", "two", "three"]);
    tabs.index = 10;
    tabs.next();
    assert_eq!(tabs.index, 2);
    tabs.index = usize::MAX;
    tabs.next();
    assert_eq!(tabs.index, ((usize::MAX % 3) + 1) % 3);
}

#[test]
fn a_row_is_as_high_as_its_tallest_cell() {
    let row = |cells: &[&str]| cells.iter().map(|c| c.to_string()).collect::<Vec<String>>();
    assert_eq!(rssrs::util::row_height(&row(&["title", "date"])), 1);
    assert_eq!(rssrs::util::row_height(&row(&["two\nlines", "date"])), 2);
    assert_eq!(rssrs::util::row_height(&row(&["a", "b\n\nc\n", "d\ne"])), 4);
    assert_eq!(rssrs::util::row_height(&row(&[""])), 1);
    assert_eq!(rssrs::util::row_height(&row(&[])), 2);
}
