use fractal_toy::math::V2i;
use fractal_toy::pack::{block_size, Block, Pack};

#[test]
pub fn test_it() {
    let mut p = Pack::new(16);
    p.dbg();

    let a = p.allocate(V2i::new(4, 4)).unwrap();
    p.dbg();

    let b = p.allocate(V2i::new(4, 4)).unwrap();
    p.dbg();

    let c = p.allocate(V2i::new(4, 4)).unwrap();
    p.dbg();

    let d = p.allocate(V2i::new(4, 4)).unwrap();
    p.dbg();

    let e = p.allocate(V2i::new(4, 4)).unwrap();
    p.dbg();

    p.free(a);
    p.dbg();

    p.free(b);
    p.dbg();

    p.free(c);
    p.dbg();

    p.free(d);
    p.dbg();

    p.free(e);
    p.dbg();
}

#[test]
fn block_size_rounds_up_to_power_of_two() {
    assert_eq!(block_size(V2i::new(1, 1)), 1);
    assert_eq!(block_size(V2i::new(3, 2)), 4);
    assert_eq!(block_size(V2i::new(4, 4)), 4);
    assert_eq!(block_size(V2i::new(5, 1)), 8);
    assert_eq!(block_size(V2i::new(0, 0)), 1);
    assert_eq!(block_size(V2i::new(2, 9)), 16);
}

#[test]
fn allocate_splits_top_left_first() {
    let mut p = Pack::new(16);
    let a = p.allocate(V2i::new(4, 4)).unwrap();
    assert_eq!(a, Block { pos: V2i::new(0, 0), size: 4 });
    let b = p.allocate(V2i::new(4, 4)).unwrap();
    assert_ne!(a, b);
    assert_eq!(b.size, 4);
}

#[test]
fn allocate_too_large_is_none() {
    let mut p = Pack::new(8);
    assert!(p.allocate(V2i::new(9, 1)).is_none());
    let a = p.allocate(V2i::new(8, 8)).unwrap();
    assert_eq!(a, Block { pos: V2i::new(0, 0), size: 8 });
    assert!(p.allocate(V2i::new(1, 1)).is_none());
}

#[test]
fn freeing_everything_merges_back_to_one_block() {
    let mut p = Pack::new(16);
    let mut blocks = Vec::new();
    for _ in 0..5 {
        blocks.push(p.allocate(V2i::new(4, 4)).unwrap());
    }
    for b in blocks {
        p.free(b);
    }
    // the whole square is one free block again
    let all = p.allocate(V2i::new(16, 16)).unwrap();
    assert_eq!(all, Block { pos: V2i::new(0, 0), size: 16 });
}

#[test]
fn free_then_allocate_gives_the_block_back() {
    let mut p = Pack::new(8);
    let a = p.allocate(V2i::new(8, 8)).unwrap();
    p.free(a);
    let b = p.allocate(V2i::new(8, 8)).unwrap();
    assert_eq!(a, b);
}

#[test]
fn split_and_parent() {
    let b = Block { pos: V2i::new(8, 4), size: 4 };
    let q = b.split();
    assert_eq!(q[0], Block { pos: V2i::new(8, 4), size: 2 });
    assert_eq!(q[1], Block { pos: V2i::new(10, 4), size: 2 });
    assert_eq!(q[2], Block { pos: V2i::new(8, 6), size: 2 });
    assert_eq!(q[3], Block { pos: V2i::new(10, 6), size: 2 });
    for c in q.iter() {
        assert_eq!(c.parent(), b);
    }
}

#[test]
fn dbg_draws_free_blocks() {
    let mut p = Pack::new(4);
    assert_eq!(p.dbg(), "######  \n######  \n######  \n        \n");
    let a = p.allocate(V2i::new(2, 2)).unwrap();
    assert_eq!(a, Block { pos: V2i::new(0, 0), size: 2 });
    // the three other quarters are free; each drawn without its last row and column
    assert_eq!(p.dbg(), "    ##  \n        \n##  ##  \n        \n");
}
