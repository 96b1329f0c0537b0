use hyperfind::ranking::AppEntry;
use hyperfind::usage::{UsageEntry, UsageMap};
use hyperfind::view::{
    build_view_items, count_entries, ensure_visible, entry_at_row, first_selectable_index,
    move_selection, next_selectable_index, update_results, visible_end, Section, ViewItem,
    ViewState, MAX_FREQUENT, MAX_RESULTS,
};

fn catalog(names: &[&str]) -> Vec<AppEntry> {
    names
        .iter()
        .enumerate()
        .map(|(i, n)| AppEntry { key: n.to_string(), name: n.to_string(), slot: i })
        .collect()
}

fn usage_of(records: &[(&str, u64, u64)]) -> UsageMap {
    let mut u = UsageMap::new();
    for (k, c, t) in records {
        u.insert(k.to_string(), UsageEntry { count: *c, last_used: *t });
    }
    u
}

fn state(items: Vec<ViewItem>, selected: Option<usize>) -> ViewState {
    ViewState { items, offset: 0, selected_index: selected }
}

#[test]
fn selecting_last_of_twenty_five_shows_fifteen_to_twenty_four() {
    let items: Vec<ViewItem> = (0..25).map(ViewItem::App).collect();
    let mut v = state(items, Some(24));
    ensure_visible(&mut v);
    assert_eq!(v.offset, 15);
    assert_eq!(visible_end(&v.items, v.offset), 25);
}

#[test]
fn scrolling_up_puts_selection_first() {
    let items: Vec<ViewItem> = (0..25).map(ViewItem::App).collect();
    let mut v = ViewState { items, offset: 12, selected_index: Some(3) };
    ensure_visible(&mut v);
    assert_eq!(v.offset, 3);
}

#[test]
fn short_lists_and_no_selection_reset_offset() {
    let items: Vec<ViewItem> = (0..8).map(ViewItem::App).collect();
    let mut v = ViewState { items, offset: 5, selected_index: Some(7) };
    ensure_visible(&mut v);
    assert_eq!(v.offset, 0);
    let items: Vec<ViewItem> = (0..30).map(ViewItem::App).collect();
    let mut v = ViewState { items, offset: 5, selected_index: None };
    ensure_visible(&mut v);
    assert_eq!(v.offset, 0);
    let mut v = ViewState { items: Vec::new(), offset: 3, selected_index: None };
    ensure_visible(&mut v);
    assert_eq!(v.offset, 0);
}

#[test]
fn headers_do_not_count_against_the_window() {
    let mut items = vec![ViewItem::Header(Section::Frequent)];
    items.extend((0..5).map(ViewItem::App));
    items.push(ViewItem::Header(Section::All));
    items.extend((5..20).map(ViewItem::App));
    let mut v = state(items, Some(11));
    ensure_visible(&mut v);
    assert_eq!(v.offset, 0);
    assert_eq!(count_entries(&v.items, 0, 12), 10);
    v.selected_index = Some(12);
    ensure_visible(&mut v);
    assert_eq!(v.offset, 2);
    assert_eq!(count_entries(&v.items, 2, 13), 10);
}

#[test]
fn visible_rows_stop_after_tenth_entry() {
    let mut items: Vec<ViewItem> = (0..10).map(ViewItem::App).collect();
    items.push(ViewItem::Header(Section::All));
    items.push(ViewItem::App(10));
    assert_eq!(visible_end(&items, 0), 10);
    assert_eq!(visible_end(&items, 1), 12);
    assert_eq!(visible_end(&items, 12), 12);
}

#[test]
fn move_skips_headers_and_stops_at_end() {
    let items = vec![
        ViewItem::Header(Section::Frequent),
        ViewItem::App(0),
        ViewItem::App(1),
        ViewItem::Header(Section::All),
        ViewItem::App(2),
    ];
    let mut v = state(items, Some(1));
    move_selection(&mut v, 1);
    assert_eq!(v.selected_index, Some(2));
    move_selection(&mut v, 1);
    assert_eq!(v.selected_index, Some(4));
    move_selection(&mut v, 1);
    assert_eq!(v.selected_index, Some(4));
    assert_eq!(v.offset, 0);
    move_selection(&mut v, -1);
    assert_eq!(v.selected_index, Some(2));
    move_selection(&mut v, -1);
    assert_eq!(v.selected_index, Some(1));
    move_selection(&mut v, -1);
    assert_eq!(v.selected_index, Some(1));
}

#[test]
fn move_without_selection_selects_first_entry() {
    let items = vec![ViewItem::Header(Section::All), ViewItem::App(0), ViewItem::App(1)];
    let mut v = state(items, None);
    move_selection(&mut v, -1);
    assert_eq!(v.selected_index, Some(1));
    let mut empty = state(vec![ViewItem::Header(Section::All)], None);
    move_selection(&mut empty, 1);
    assert_eq!(empty.selected_index, None);
}

#[test]
fn moving_down_a_long_list_scrolls_one_row_at_a_time() {
    let items: Vec<ViewItem> = (0..25).map(ViewItem::App).collect();
    let mut v = state(items, Some(0));
    for _ in 0..10 {
        move_selection(&mut v, 1);
    }
    assert_eq!(v.selected_index, Some(10));
    assert_eq!(v.offset, 1);
}

#[test]
fn selectable_index_helpers() {
    let items = vec![ViewItem::Header(Section::Frequent), ViewItem::App(7), ViewItem::Header(Section::All)];
    assert_eq!(first_selectable_index(&items), Some(1));
    assert_eq!(next_selectable_index(&items, 1, 1), None);
    assert_eq!(next_selectable_index(&items, 2, -1), Some(1));
    assert_eq!(next_selectable_index(&items, 0, -1), None);
    assert_eq!(first_selectable_index(&[ViewItem::Header(Section::All)].to_vec()), None);
}

#[test]
fn rendered_row_maps_back_to_catalog_entry() {
    let mut items = vec![ViewItem::Header(Section::All)];
    items.extend((0..15).map(ViewItem::App));
    let v = ViewState { items, offset: 3, selected_index: Some(3) };
    assert_eq!(entry_at_row(&v, 0), Some(2));
    assert_eq!(entry_at_row(&v, 9), Some(11));
    assert_eq!(entry_at_row(&v, 10), None);
    assert_eq!(entry_at_row(&v, -1), None);
    let v = ViewState { items: v.items, offset: 0, selected_index: None };
    assert_eq!(entry_at_row(&v, 0), None);
    assert_eq!(entry_at_row(&v, 1), Some(0));
}

#[test]
fn query_mode_has_no_headers() {
    let apps = catalog(&["Firefox", "GIMP", "Fire Alarm"]);
    let items = build_view_items(&apps, "fire", &UsageMap::new());
    assert_eq!(items, vec![ViewItem::App(0), ViewItem::App(2)]);
}

#[test]
fn idle_mode_without_history_lists_all_apps() {
    let apps = catalog(&["A", "B", "C"]);
    let items = build_view_items(&apps, "", &UsageMap::new());
    assert_eq!(
        items,
        vec![ViewItem::Header(Section::All), ViewItem::App(0), ViewItem::App(1), ViewItem::App(2)]
    );
    let items = build_view_items(&Vec::new(), "", &UsageMap::new());
    assert_eq!(items, vec![ViewItem::Header(Section::All)]);
}

#[test]
fn frequent_section_holds_top_five_and_all_apps_the_rest() {
    let apps = catalog(&["A", "B", "C", "D", "E", "F", "G", "H"]);
    let usage = usage_of(&[
        ("A", 1, 10),
        ("B", 6, 0),
        ("C", 2, 5),
        ("D", 2, 5),
        ("E", 3, 1),
        ("F", 1, 11),
    ]);
    let items = build_view_items(&apps, "", &usage);
    assert_eq!(
        items,
        vec![
            ViewItem::Header(Section::Frequent),
            ViewItem::App(1),
            ViewItem::App(4),
            ViewItem::App(2),
            ViewItem::App(3),
            ViewItem::App(5),
            ViewItem::Header(Section::All),
            ViewItem::App(0),
            ViewItem::App(6),
            ViewItem::App(7),
        ]
    );
    let entries: Vec<usize> = items
        .iter()
        .filter_map(|i| match i {
            ViewItem::App(j) => Some(*j),
            ViewItem::Header(_) => None,
        })
        .collect();
    let mut sorted = entries.clone();
    sorted.sort();
    assert_eq!(sorted, (0..8).collect::<Vec<usize>>());
    let all_apps_at = items.iter().position(|i| *i == ViewItem::Header(Section::All)).unwrap();
    assert_eq!(all_apps_at - 1, MAX_FREQUENT);
}

#[test]
fn update_results_resets_offset_and_selects_first_entry() {
    let apps = catalog(&["A", "B"]);
    let usage = usage_of(&[("B", 1, 1)]);
    let mut v = ViewState::new();
    v.offset = 4;
    update_results(&mut v, &apps, "", &usage);
    assert_eq!(v.offset, 0);
    assert_eq!(v.selected_index, Some(1));
    assert_eq!(v.items[1], ViewItem::App(1));
    update_results(&mut v, &apps, "zzzz", &usage);
    assert_eq!(v.items.len(), 0);
    assert_eq!(v.selected_index, None);
}

#[test]
fn section_titles() {
    assert_eq!(Section::Frequent.title(), "Frequently Used");
    assert_eq!(Section::All.title(), "All Apps");
    assert_eq!(MAX_RESULTS, 10);
}
