use fractal_toy::module::ui::storage::Storage;
use fractal_toy::serial::ui::collection::Collection;
use fractal_toy::ui::{RegionResult, UI};

#[test]
fn region_click_then_hold() {
    let mut ui = UI::new();
    ui.begin_frame(true);
    // the mouse presses inside the first region
    let a = ui.region(true);
    assert_eq!(a, RegionResult { hover: true, down: true, click: true });
    // another region under the mouse in the same frame is not pressed
    let b = ui.region(true);
    assert_eq!(b, RegionResult { hover: false, down: false, click: false });
    assert!(ui.has_input(false));

    // next frame, button still down: the first region holds, no second click
    ui.begin_frame(true);
    let a = ui.region(false);
    assert_eq!(a, RegionResult { hover: true, down: true, click: false });
    let b = ui.region(true);
    assert_eq!(b, RegionResult { hover: false, down: false, click: false });

    // release: nothing is held
    ui.begin_frame(false);
    let a = ui.region(true);
    assert_eq!(a, RegionResult { hover: true, down: false, click: false });
}

#[test]
fn press_outside_blocks_regions() {
    let mut ui = UI::new();
    ui.begin_frame(true);
    // pressed but on no region
    assert_eq!(ui.region(false), RegionResult { hover: false, down: false, click: false });
    assert!(!ui.has_input(false));
    ui.begin_frame(true);
    // the press is held by id 0: moving onto a region does not press it
    assert_eq!(ui.region(true), RegionResult { hover: false, down: false, click: false });
    // id 0 does not count as input for the interface
    assert!(!ui.has_input(false));
    assert!(ui.has_input(true));
}

#[test]
fn storage_key_path() {
    let mut s = Storage::new();
    s.push_id("window");
    s.push_id("button");
    assert_eq!(s.key_path("state"), vec!["window".to_string(), "button".to_string(), "state".to_string()]);
    s.pop_id();
    assert_eq!(s.id_stack, vec!["window".to_string()]);
    s.pop_id();
    s.pop_id();
    assert!(s.id_stack.is_empty());
}

#[test]
fn collection_finds_items_again() {
    let mut c: Collection<u32> = Collection::new();
    *c.item("a", || 1) += 10;
    *c.item("b", || 2) += 20;
    assert_eq!(c.index, 1);
    assert_eq!(*c.item("a", || 100), 11);
    assert_eq!(c.index, 0);
    assert_eq!(c.content.len(), 2);
    assert_eq!(c.item_index("b"), Some(1));
    assert_eq!(c.item_index("c"), None);
    assert_eq!(c.iter(), vec![&11, &22]);
}

#[test]
fn collection_lookup_starts_at_index() {
    let mut c: Collection<u32> = Collection::new();
    c.item("x", || 1);
    c.item("y", || 2);
    c.item("x2", || 3);
    // a duplicate id, as a deserialized collection may hold
    c.content[2].id = "x".to_string();
    c.index = 1;
    // from index 1 on, the first "x" is at 2
    assert_eq!(c.item_index("x"), Some(2));
    c.index = 0;
    assert_eq!(c.item_index("x"), Some(0));
}

#[test]
fn collection_iter_skips_inactive() {
    let mut c: Collection<u32> = Collection::new();
    c.item("a", || 1);
    c.item("b", || 2);
    c.item("c", || 3);
    c.content[1].active = false;
    assert_eq!(c.iter(), vec![&1, &3]);
    *c.iter_mut(1).unwrap() = 30;
    assert_eq!(c.content[2].value, 30);
    assert!(c.iter_mut(2).is_none());
}
