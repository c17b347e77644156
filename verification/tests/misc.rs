use fractal_toy::math::V2i;
use fractal_toy::module::input::{key_to_action, Button, Input, InputAction, InputEvent, Key};
use fractal_toy::update_loop::{key_event, Input as LoopInput, LoopAction, LoopEvent};
use fractal_toy::debug::{FrameTimes, Item, TreeStorage};
use fractal_toy::gpu::draw_tiles::{SlotMode, TileSlot, TileSlots, MAX_TILES};
use fractal_toy::math::{V2u, V3u};
use fractal_toy::module::atlas::Atlas;
use fractal_toy::module::fractal::tile::pos::TilePos as OldTilePos;
use fractal_toy::shelf_pack::ShelfPack;
use fractal_toy::tilemap::pos::TilePos;

#[test]
fn atlas_makes_pages_on_demand() {
    let mut a = Atlas::new();
    assert_eq!(a.page_count(), 0);
    assert_eq!(a.page_size(), 4096);
    let r = a.allocate();
    // a new page, whose last slot comes first
    assert_eq!(a.page_count(), 1);
    assert_eq!(r.index, V3u::new(31, 31, 0));
    let rect = r.rect();
    assert_eq!((rect.pos.x, rect.pos.y, rect.size.x, rect.size.y), (31 * 128, 31 * 128, 128, 128));
    let padded = r.rect_padded();
    assert_eq!((padded.pos.x, padded.pos.y, padded.size.x, padded.size.y), (31 * 128 + 1, 31 * 128 + 1, 126, 126));
    let s = a.allocate();
    assert_eq!(s.index, V3u::new(30, 31, 0));
    // giving a region back makes it the next one handed out
    a.remove(s);
    let t = a.allocate();
    assert_eq!(t.index, V3u::new(30, 31, 0));
    assert_eq!(a.page_count(), 1);
}

#[test]
fn atlas_fills_a_page_before_making_another() {
    let mut a = Atlas::new();
    for _ in 0..(32 * 32) {
        let r = a.allocate();
        assert_eq!(r.index.z, 0);
    }
    assert_eq!(a.page_count(), 1);
    let r = a.allocate();
    assert_eq!(r.index, V3u::new(31, 31, 1));
    assert_eq!(a.page_count(), 2);
}

#[test]
fn tile_slots_reuse_and_age() {
    let mut s = TileSlots::new();
    assert!(s.can_claim(5));
    // id 0 is what empty slots hold
    assert_eq!(s.claim(5), (0, true));
    assert_eq!(s.claim(5), (0, false));
    assert_eq!(s.claim(6), (1, true));
    s.age();
    // still held for one frame
    assert_eq!(s.claim(5), (0, false));
    s.age();
    s.age();
    // neither slot was drawn for two frames: both are free again, the first
    // one takes a new image
    assert_eq!(s.claim(7), (0, true));
    assert_eq!(s.claim(6), (1, false));
}

#[test]
fn tile_slots_full() {
    let mut s = TileSlots::new();
    for id in 1..=MAX_TILES {
        assert_eq!(s.claim(id), ((id - 1) as usize, true));
    }
    assert!(!s.can_claim(MAX_TILES + 1));
    assert!(s.can_claim(1));
    let slot = TileSlot { id: 3, mode: SlotMode::Used };
    assert_eq!(slot.mode, SlotMode::Used);
}

#[test]
fn frame_times_ring() {
    let mut t = FrameTimes::new();
    assert_eq!(t.stats(), (0, 0, 0));
    t.record(180);
    t.record(360);
    // the other 178 times are still zero
    assert_eq!(t.stats(), (0, 360, 3));
    for _ in 0..180 {
        t.record(1000);
    }
    assert_eq!(t.stats(), (1000, 1000, 1000));
}

#[test]
fn tree_storage_takes_over_previous_values() {
    let mut s: TreeStorage<u32> = TreeStorage::new();
    *s.push("frame", 0) += 1;
    *s.push("inner", 10) += 1;
    assert_eq!(*s.pop(), 11);
    assert_eq!(*s.pop(), 1);
    s.restart();
    assert_eq!(s.previous_items().len(), 4);
    // same names at the same places: the values are taken over
    assert_eq!(*s.push("frame", 0), 1);
    // another name at that place: the default
    assert_eq!(*s.push("other", 5), 5);
    s.pop();
    s.pop();
    assert!(matches!(s.previous_items()[1], Item::Push("inner", 11)));
}

#[test]
fn shelf_pack_places_rectangles_apart() {
    let mut p = ShelfPack::new(V2u::new(10, 10));
    let a = p.add(V2u::new(3, 3)).unwrap();
    assert_eq!((a.pos.x, a.pos.y, a.size.x, a.size.y), (0, 0, 3, 3));
    let b = p.add(V2u::new(3, 2)).unwrap();
    // same shelf, right of the first, padding in between
    assert_eq!((b.pos.x, b.pos.y), (4, 0));
    let c = p.add(V2u::new(4, 4)).unwrap();
    // too high for the first shelf: a new one below it
    assert_eq!((c.pos.x, c.pos.y), (0, 4));
    assert!(p.add(V2u::new(20, 1)).is_none());
    assert!(p.add(V2u::new(1, 5)).is_none());
}

#[test]
fn shelf_pack_as_wide_as_u32_allows() {
    let mut p = ShelfPack::new(V2u::new(u32::MAX, 100));
    let a = p.add(V2u::new(10, 10)).unwrap();
    assert_eq!((a.pos.x, a.pos.y, a.size.x, a.size.y), (0, 0, 10, 10));
    let b = p.add(V2u::new(10, 10)).unwrap();
    assert_eq!((b.pos.x, b.pos.y, b.size.x, b.size.y), (11, 0, 10, 10));
}

#[test]
fn tile_pos_parent() {
    assert_eq!(TilePos::root(), TilePos { x: 0, y: 0, z: 0 });
    assert_eq!(TilePos::root().parent(), None);
    assert_eq!(TilePos { x: 5, y: -3, z: 3 }.parent(), Some(TilePos { x: 2, y: -1, z: 2 }));
}

#[test]
fn tile_pos_between_center_first() {
    let mut v = Vec::new();
    TilePos::between(TilePos { x: 0, y: 0, z: 2 }, TilePos { x: 2, y: 0, z: 2 }, 2, 0, &mut v);
    assert_eq!(v, vec![
        TilePos { x: 1, y: 0, z: 2 },
        TilePos { x: 0, y: 0, z: 2 },
        TilePos { x: 2, y: 0, z: 2 },
    ]);
    let mut w = vec![TilePos::root()];
    TilePos::between(TilePos { x: 0, y: 0, z: 1 }, TilePos { x: 0, y: 0, z: 1 }, 1, 1, &mut w);
    assert_eq!(w.len(), 1 + 9);
    assert_eq!(w[0], TilePos::root());
    assert_eq!(w[1], TilePos { x: 0, y: 0, z: 1 });
}

#[test]
fn old_tile_pos_moves() {
    let mut p = OldTilePos::root();
    p.child(1, 0);
    p.child(0, 1);
    assert_eq!(p, OldTilePos { x: 2, y: 1, z: 2 });
    assert_eq!(p.max_size(), 4);
    p.parent();
    assert_eq!(p, OldTilePos { x: 1, y: 0, z: 1 });
    p.parent();
    p.parent();
    assert_eq!(p, OldTilePos::root());
}

#[test]
fn buttons_go_down_once() {
    let mut b = Button::new();
    assert!(!b.went_down() && !b.went_up());
    b.is_down = true;
    assert!(b.went_down());
    b.update();
    assert!(!b.went_down());
    b.is_down = false;
    assert!(b.went_up());

    let mut a = Input::new();
    a.set_down(InputAction::Quit, true);
    assert!(a.button(InputAction::Quit).went_down());
    assert!(!a.button(InputAction::F12).is_down);
    a.begin();
    assert!(a.button(InputAction::Quit).is_down);
    assert!(!a.button(InputAction::Quit).went_down());
    a.set_down(InputAction::Quit, false);
    assert!(a.button(InputAction::Quit).went_up());
}

#[test]
fn keys_map_to_actions() {
    assert_eq!(key_to_action(Key::W), InputAction::MoveUp);
    assert_eq!(key_to_action(Key::A), InputAction::MoveLeft);
    assert_eq!(key_to_action(Key::J), InputAction::LookLeft);
    assert_eq!(key_to_action(Key::Q), InputAction::B);
    assert_eq!(key_to_action(Key::Num0), InputAction::F10);
    assert_eq!(key_to_action(Key::Equals), InputAction::F12);
    assert_eq!(key_to_action(Key::Up), InputAction::NoAction);
}

#[test]
fn input_handles_events() {
    let mut input = Input::new();
    input.begin();
    input.handle_events(&[
        InputEvent::KeyDown(Key::W),
        InputEvent::KeyDown(Key::D),
        InputEvent::MouseDown,
        InputEvent::Wheel(3),
        InputEvent::Wheel(-1),
        InputEvent::Motion(10, 20),
    ]);
    assert!(input.button(InputAction::MoveUp).went_down());
    assert_eq!(input.dir_move, V2i::new(1, 1));
    assert_eq!(input.dir_look, V2i::new(0, 0));
    assert!(input.mouse_down.went_down());
    assert_eq!(input.scroll, 2);
    assert_eq!(input.mouse, V2i::new(10, 20));

    // next frame: S too wins over W, then W is released
    input.begin();
    input.handle_events(&[InputEvent::KeyDown(Key::S)]);
    assert_eq!(input.scroll, 0);
    assert_eq!(input.dir_move, V2i::new(1, -1));
    assert!(!input.mouse_down.went_down());
    input.begin();
    input.handle_events(&[InputEvent::KeyUp(Key::W), InputEvent::KeyUp(Key::D), InputEvent::Quit]);
    // releasing W sets the vertical direction to 0 though S is held
    assert_eq!(input.dir_move, V2i::new(0, 0));
    assert!(input.button(InputAction::Quit).is_down);
    assert!(input.button(InputAction::MoveDown).is_down);
}

#[test]
fn held_keys_are_a_set() {
    let mut keys = Vec::new();
    key_event(&mut keys, Key::W, true);
    key_event(&mut keys, Key::A, true);
    key_event(&mut keys, Key::W, true);
    assert_eq!(keys, vec![Key::W, Key::A]);
    key_event(&mut keys, Key::W, false);
    assert_eq!(keys, vec![Key::A]);
    key_event(&mut keys, Key::S, false);
    assert_eq!(keys, vec![Key::A]);
}

#[test]
fn frame_loop_keeps_the_input() {
    let mut input = LoopInput::new(V2u::new(800, 600));
    assert_eq!(input.handle(LoopEvent::Key(Key::W, true)), LoopAction::Wait);
    assert_eq!(input.handle(LoopEvent::Key(Key::W, true)), LoopAction::Wait);
    assert!(input.key(Key::W));
    assert!(!input.key(Key::S));
    assert_eq!(input.keys_down, vec![Key::W]);
    input.handle(LoopEvent::CursorMoved(12, -3));
    assert_eq!(input.mouse, V2i::new(12, -3));
    // the right button does nothing
    input.handle(LoopEvent::MouseButton(false, true));
    assert!(!input.mouse_down && !input.mouse_click);
    input.handle(LoopEvent::MouseButton(true, true));
    assert!(input.mouse_down && input.mouse_click);
    input.handle(LoopEvent::Resized(1024, 768));
    assert_eq!(input.resolution, V2u::new(1024, 768));
    assert_eq!(input.handle(LoopEvent::EventsCleared(false)), LoopAction::Wait);
    assert_eq!(input.handle(LoopEvent::EventsCleared(true)), LoopAction::Update);
    input.updated();
    // the click is seen by one update only; the button is still held
    assert!(input.mouse_down && !input.mouse_click);
    input.handle(LoopEvent::MouseButton(true, false));
    assert!(!input.mouse_down && !input.mouse_click);
    input.handle(LoopEvent::Key(Key::W, false));
    assert!(!input.key(Key::W));
    assert_eq!(input.handle(LoopEvent::Other), LoopAction::Wait);
    assert_eq!(input.handle(LoopEvent::CloseRequested), LoopAction::Exit);
}
