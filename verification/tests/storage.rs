use fractal_toy::fractal::builder::{TileParams, TileRequest, TileType};
use fractal_toy::fractal::queue::TaskMapWithParams;
use fractal_toy::fractal::tile::content::TileContent;
use fractal_toy::module::fractal::storage::{TileQueue, TileStorage as QueuedStorage};
use fractal_toy::module::fractal::TileTextureProvider;
use fractal_toy::tilemap::map::{Task, TileStorage};
use fractal_toy::tilemap::pos::TilePos;

fn params() -> TileParams {
    // arbitrary params, they do not matter
    TileParams { kind: TileType::Mandelbrot, iterations: 64, resolution: 128, padding: 1 }
}

/// The tiles a viewport shows: a block of tiles around the center, in
/// increasing order.
fn visible_tiles() -> Vec<TilePos> {
    let mut v = Vec::new();
    for x in -2..3 {
        for y in -1..2 {
            v.push(TilePos { z: 3, x, y });
        }
    }
    v
}

fn req(z: u8, x: i64, y: i64) -> TileRequest {
    TileRequest { pos: TilePos { z, x, y }, params: params() }
}

struct Provider {
    allocated: usize,
    freed: usize,
}

impl TileTextureProvider for Provider {
    type Texture = usize;

    fn allocate(&mut self, _: &[u8]) -> usize {
        self.allocated += 1;
        self.allocated
    }

    fn free(&mut self, _: usize) {
        self.freed += 1;
    }
}

/// One frame of the queued storage with a provider: a texture for each
/// built tile, in the order of the queue, then the update, then the freeing
/// of the textures it hands back.
fn update_frame(
    storage: &mut QueuedStorage<usize>,
    q: &mut TileQueue,
    params: TileParams,
    tiles: &[TilePos],
    provider: &mut Provider,
) -> Vec<usize> {
    let built: Vec<usize> = q.done.iter().map(|(_, c)| provider.allocate(&c.pixels)).collect();
    let freed = storage.update_tiles(q, params, tiles, built);
    for t in freed.iter() {
        provider.free(*t);
    }
    freed
}

#[test]
fn test_storage() {
    let mut storage: QueuedStorage<usize> = QueuedStorage::new();
    let mut provider = Provider { allocated: 0, freed: 0 };
    let mut queue = TileQueue::new();
    let params = params();
    let viewport = visible_tiles();

    // for now this only test very basic stuff

    // tiles should be empty in the beginning
    assert!(storage.tiles.is_empty());
    // next_frame_tiles should always be empty
    assert!(storage.next_frame_tiles.is_empty());

    update_frame(&mut storage, &mut queue, params, &viewport, &mut provider);

    // no tiles have been generated, only requested
    assert!(storage.tiles.is_empty());
    assert!(storage.next_frame_tiles.is_empty());

    // all tiles should have been requested and put into queue.todo
    assert!(!queue.todo.is_empty());

    // Pretend that we generated all those tiles
    for r in queue.todo.drain(..) {
        queue.done.push((r, TileContent::new(Vec::new())));
    }

    update_frame(&mut storage, &mut queue, params, &viewport, &mut provider);
    // Now, however, there should be tiles stored, because we generated them
    assert!(!storage.tiles.is_empty());
    // and we generated all tiles, so none should be enqueued
    assert!(queue.todo.is_empty());
    // and all done tiles are removed from the queue
    assert!(queue.done.is_empty());
}

#[test]
fn queued_storage_orders_and_frees() {
    let mut storage: QueuedStorage<usize> = QueuedStorage::new();
    let mut provider = Provider { allocated: 0, freed: 0 };
    let mut queue = TileQueue::new();
    let tiles = vec![TilePos { z: 1, x: 0, y: 0 }, TilePos { z: 1, x: 0, y: 1 }, TilePos { z: 1, x: 1, y: 0 }];

    update_frame(&mut storage, &mut queue, params(), &tiles, &mut provider);
    // the list to build is reversed: the first tile comes out last
    assert_eq!(queue.todo, vec![req(1, 1, 0), req(1, 0, 1), req(1, 0, 0)]);

    // one tile is being built, one is built
    queue.doing.push(queue.todo[0]);
    queue.done.push((req(1, 0, 1), TileContent::new(vec![0; 4])));
    queue.todo.clear();
    update_frame(&mut storage, &mut queue, params(), &tiles, &mut provider);
    assert_eq!(queue.todo, vec![req(1, 0, 0)]);
    assert_eq!(storage.tiles, vec![(req(1, 0, 1), 1)]);
    assert_eq!(provider.allocated, 1);

    // the stored tile is no longer wanted: its texture is handed back
    let freed = update_frame(&mut storage, &mut queue, params(), &tiles[..1], &mut provider);
    assert_eq!(freed, vec![1]);
    assert!(storage.tiles.is_empty());
    assert_eq!(provider.freed, 1);
    assert_eq!(queue.todo, vec![req(1, 0, 0)]);
}

#[test]
fn task_map_update_with() {
    let mut m: TileStorage<u32> = TileStorage::new();
    let removed = m.update_with(vec![req(2, 0, 0), req(2, 0, 1), req(2, 1, 0)]);
    assert!(removed.is_empty());
    assert_eq!(m.iter().len(), 3);
    for (_, t) in m.iter() {
        assert!(matches!(t, Task::Todo));
    }

    // build one, start another
    *m.get_mut(&req(2, 0, 1)).unwrap() = Task::Done(7);
    *m.iter_mut(0).unwrap() = Task::Doing;
    assert!(m.get_mut(&req(2, 5, 5)).is_none());
    assert!(m.iter_mut(3).is_none());

    // drop the built one and the started one, keep the last, add a new one
    let removed = m.update_with(vec![req(2, 1, 0), req(2, 1, 1)]);
    assert_eq!(removed, vec![(req(2, 0, 1), 7)]);
    let keys: Vec<TileRequest> = m.iter().iter().map(|(k, _)| *k).collect();
    assert_eq!(keys, vec![req(2, 1, 0), req(2, 1, 1)]);

    // updating again with the same tiles changes nothing
    let removed = m.update_with(vec![req(2, 1, 0), req(2, 1, 1)]);
    assert!(removed.is_empty());
    assert_eq!(m.iter().len(), 2);
}

#[test]
fn task_map_start_next_todo() {
    let mut m: TileStorage<u32> = TileStorage::new();
    m.update_with(vec![req(0, 0, 0), req(1, 0, 0)]);
    assert_eq!(m.start_next_todo(), Some(req(0, 0, 0)));
    assert_eq!(m.start_next_todo(), Some(req(1, 0, 0)));
    assert_eq!(m.start_next_todo(), None);
    assert!(matches!(m.get_mut(&req(0, 0, 0)), Some(Task::Doing)));
}

#[test]
fn task_map_update_tiles_frees_built() {
    let mut m: TileStorage<usize> = TileStorage::new();
    let mut provider = Provider { allocated: 0, freed: 0 };
    let tiles = vec![TilePos { z: 0, x: 0, y: 0 }];
    assert!(m.update_tiles(params(), &tiles).is_empty());
    *m.get_mut(&req(0, 0, 0)).unwrap() = Task::Done(3);
    let freed = m.update_tiles(params(), &[]);
    assert_eq!(freed, vec![3]);
    for t in freed {
        provider.free(t);
    }
    assert_eq!(provider.freed, 1);
    assert!(m.iter().is_empty());
}

#[test]
fn queue_hands_out_each_tile_once() {
    let mut q = TaskMapWithParams::new(params());
    let tiles = vec![TilePos { z: 1, x: 0, y: 0 }, TilePos { z: 1, x: 1, y: 1 }];
    assert_eq!(q.update(&tiles), 0);
    assert_eq!(q.next_task(), Ok(Some((req(1, 0, 0), 0))));
    assert_eq!(q.next_task(), Ok(Some((req(1, 1, 1), 0))));
    assert_eq!(q.next_task(), Ok(None));

    let mut p = params();
    p.iterations = 100;
    q.set_params(p);
    assert_eq!(q.params_version, 1);
    assert!(q.map.iter().is_empty());
    assert_eq!(q.next_task(), Ok(None));

    q.quit = true;
    assert_eq!(q.next_task(), Err(()));
}

#[test]
fn params_version_wraps() {
    let mut q = TaskMapWithParams::new(params());
    q.params_version = usize::MAX;
    q.set_params(params());
    assert_eq!(q.params_version, 0);
}

#[test]
fn task_map_update_with_unsorted_keys() {
    let mut m: TileStorage<u32> = TileStorage::new();
    m.update_with(vec![req(0, 0, 0)]);
    *m.get_mut(&req(0, 0, 0)).unwrap() = Task::Done(5);
    // the keys are walked as if sorted: the stored tile meets a larger key
    // first, so it is dropped, and then added again as a new tile
    let removed = m.update_with(vec![req(1, 0, 0), req(0, 0, 0)]);
    assert_eq!(removed, vec![(req(0, 0, 0), 5)]);
    assert!(matches!(m.get_mut(&req(0, 0, 0)), Some(Task::Todo)));
    assert!(matches!(m.get_mut(&req(1, 0, 0)), Some(Task::Todo)));
}

#[test]
fn queued_storage_stores_each_texture_with_its_tile() {
    let mut storage: QueuedStorage<u32> = QueuedStorage::new();
    let mut queue = TileQueue::new();
    let tiles = vec![TilePos { z: 1, x: 0, y: 0 }, TilePos { z: 1, x: 1, y: 1 }];
    // the built tiles arrive out of order; each keeps its own texture
    queue.done.push((req(1, 1, 1), TileContent::new(vec![1; 4])));
    queue.done.push((req(1, 0, 0), TileContent::new(vec![2; 4])));
    let freed = storage.update_tiles(&mut queue, params(), &tiles, vec![11, 22]);
    assert!(freed.is_empty());
    assert_eq!(storage.tiles, vec![(req(1, 0, 0), 22), (req(1, 1, 1), 11)]);
    assert!(queue.todo.is_empty());
    // both dropped, in the order of the walk
    let freed = storage.update_tiles(&mut queue, params(), &[], Vec::new());
    assert_eq!(freed, vec![22, 11]);
}
