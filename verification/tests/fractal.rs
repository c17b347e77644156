use fractal_toy::gpu::compute_tile::{shader_impl, shader_source, step_code};
use fractal_toy::util::replace_all;
use fractal_toy::fractal::builder::cpu::build_empty_tile;
use fractal_toy::fractal::{add_clicked_steps, key_movement, Movement};
use fractal_toy::module::input::Key;
use fractal_toy::algo::{AlgStep, BurningShip, GenericAlg, Mandelbrot, ShipHybrid};
use fractal_toy::builder::{build_on_gpu, machine_worker_count, worker_count, TileCache};
use fractal_toy::colorscheme::ColorScheme;
use fractal_toy::fractal::builder::{TileParams, TileRequest, TileType};
use fractal_toy::fractal::{
    button_front_image, mandelbrot_steps, remove_steps, step_image, step_palette, FractalStep,
};
use fractal_toy::module::fractal::apply_params_input;
use fractal_toy::tilemap::pos::TilePos;
use fractal_toy::util::compare_iter::{CompareIter, ComparedValue, Order};

#[test]
fn tile_type_cycles() {
    assert_eq!(TileType::Empty.next(), TileType::Mandelbrot);
    assert_eq!(TileType::Mandelbrot.next(), TileType::BurningShip);
    assert_eq!(TileType::BurningShip.next(), TileType::ShipHybrid);
    assert_eq!(TileType::ShipHybrid.next(), TileType::Empty);
}

#[test]
fn request_compare_follows_derived_order() {
    let p = TileParams { kind: TileType::Mandelbrot, iterations: 64, resolution: 128, padding: 1 };
    let a = TileRequest { pos: TilePos { z: 1, x: 5, y: 0 }, params: p };
    let b = TileRequest { pos: TilePos { z: 2, x: 0, y: 0 }, params: p };
    let c = TileRequest { pos: TilePos { z: 1, x: 5, y: 0 }, params: TileParams { iterations: 65, ..p } };
    assert_eq!(a.compare(&b), Order::Less);
    assert_eq!(b.compare(&a), Order::Greater);
    assert_eq!(a.compare(&a), Order::Equal);
    assert_eq!(a.compare(&c), Order::Less);
    assert_eq!(a < b, a.less_than(&b));
    assert_eq!(a < c, a.less_than(&c));
    assert!(a.same(&a) && !a.same(&c));
}

#[test]
fn params_input() {
    let mut p = TileParams { kind: TileType::Mandelbrot, iterations: 64, resolution: 128, padding: 1 };
    apply_params_input(&mut p, true, false, false);
    assert_eq!(p.iterations, 104);
    apply_params_input(&mut p, false, true, true);
    assert_eq!(p.iterations, 64);
    assert_eq!(p.kind, TileType::BurningShip);
    p.iterations = 20;
    apply_params_input(&mut p, false, true, false);
    assert_eq!(p.iterations, 3);
}

#[test]
fn steps_and_images() {
    assert_eq!(mandelbrot_steps(), vec![FractalStep::Square, FractalStep::AddC]);
    assert_eq!(step_palette().len(), 6);
    assert_eq!(step_image(FractalStep::Cube), "res/mod_3.png");
    assert_eq!(step_image(FractalStep::Conj), "res/mod_conj.png");
    assert_eq!(button_front_image(true, true), "res/button_front_down.png");
    assert_eq!(button_front_image(false, true), "res/button_front_hot.png");
    assert_eq!(button_front_image(false, false), "res/button_front_norm.png");
}

#[test]
fn remove_steps_in_turn() {
    let mut s = vec![FractalStep::Square, FractalStep::Cube, FractalStep::AddC, FractalStep::Conj];
    // position 1 is counted after position 0 was removed
    remove_steps(&mut s, &[0, 1]);
    assert_eq!(s, vec![FractalStep::Cube, FractalStep::Conj]);
    remove_steps(&mut s, &[]);
    assert_eq!(s.len(), 2);
}

#[test]
fn algorithm_steps() {
    assert_eq!(Mandelbrot {}.steps().steps, vec![AlgStep::Pow2]);
    assert_eq!(BurningShip {}.steps().steps, vec![AlgStep::Abs, AlgStep::Pow2]);
    let hybrid = ShipHybrid {}.steps();
    assert_eq!(hybrid.steps, vec![AlgStep::Pow3, AlgStep::Abs, AlgStep::Pow2]);
    assert_eq!(hybrid.iterations_per_step_halves(), 5);
    assert_eq!(AlgStep::Abs.steps().iterations_per_step_halves(), 2);
    let g = GenericAlg { steps: vec![AlgStep::Pow3, AlgStep::Pow3] };
    assert_eq!(g.iterations_per_step_halves(), 6);
    assert_eq!(g.steps().steps, g.steps);
    assert_eq!(fractal_toy::algo::Debug {}.steps().steps, Vec::<AlgStep>::new());
}

#[test]
fn color_scheme_swaps_red_and_blue() {
    let mut data = vec![0u8; 32 * 32 * 4];
    // cell (1, 2)
    let i = (2 * 32 + 1) * 4;
    data[i] = 10;
    data[i + 1] = 20;
    data[i + 2] = 30;
    let c = ColorScheme::new(data);
    assert_eq!(c.get_px(1, 2), [30, 20, 10]);
    // the table repeats
    assert_eq!(c.get_px(33, 34), [30, 20, 10]);
    assert_eq!(c.get_px(0, 0), [0, 0, 0]);
}

#[test]
fn builder_choice_and_workers() {
    assert!(build_on_gpu(&TilePos { z: 15, x: 0, y: 0 }));
    assert!(!build_on_gpu(&TilePos { z: 16, x: 0, y: 0 }));
    assert_eq!(worker_count(8), 7);
    assert_eq!(worker_count(1), 1);
    assert_eq!(worker_count(0), 1);
    assert!(machine_worker_count() >= 1);
}

#[test]
fn tile_cache_counts_uses() {
    let p = TilePos { z: 1, x: 0, y: 0 };
    let q = TilePos { z: 1, x: 1, y: 0 };
    let mut c: TileCache<&str> = TileCache::new();
    assert!(c.needs_request(&p));
    // the builder was busy: not queued, asked again next time
    assert_eq!(c.tile(&p, false), None);
    assert!(c.needs_request(&p));
    assert_eq!(c.tile(&p, true), None);
    assert!(!c.needs_request(&p));
    assert_eq!(c.tile(&q, true), None);

    c.update(vec![(p, "image p")]);
    assert_eq!(c.tile(&p, false), Some(&"image p"));
    // q is still being built; p was used this frame and stays
    c.update(vec![]);
    assert_eq!(c.tile(&p, false), Some(&"image p"));
    assert!(!c.needs_request(&q));
    // a frame without using p drops it
    c.update(vec![]);
    c.update(vec![]);
    assert!(c.needs_request(&p));
    assert!(!c.needs_request(&q));
}

#[test]
fn compare_iter_walks_both_sides() {
    let left = vec![1, 3, 5];
    let right = vec![2, 3, 6];
    let mut it = CompareIter::new(left, right, |a: &i32, b: &i32| {
        if a < b {
            Order::Less
        } else if a == b {
            Order::Equal
        } else {
            Order::Greater
        }
    });
    let mut out = Vec::new();
    while let Some(v) = it.next() {
        out.push(match v {
            ComparedValue::Left(l) => (l, 0),
            ComparedValue::Right(r) => (0, r),
            ComparedValue::Both(l, r) => (l, r),
        });
    }
    assert_eq!(out, vec![(1, 0), (0, 2), (3, 3), (5, 0), (0, 6)]);
}

#[test]
fn empty_tile_pattern() {
    let px = build_empty_tile();
    assert_eq!(px.len(), 128 * 128 * 4);
    let at = |x: usize, y: usize| &px[(y * 128 + x) * 4..(y * 128 + x) * 4 + 4];
    // the border
    assert_eq!(at(0, 0), &[64, 64, 64, 255]);
    assert_eq!(at(127, 60), &[64, 64, 64, 255]);
    // inside the disc
    assert_eq!(at(64, 64), &[255, 127, 127, 255]);
    assert_eq!(at(32, 96), &[255, 63, 191, 255]);
    // outside the disc, inside the border
    assert_eq!(at(10, 10), &[0, 0, 0, 255]);
}

#[test]
fn clicked_steps_are_added() {
    let mut s = mandelbrot_steps();
    let palette = step_palette();
    assert!(!add_clicked_steps(&mut s, &palette, &[false; 6]));
    assert_eq!(s.len(), 2);
    assert!(add_clicked_steps(&mut s, &palette, &[false, true, false, false, false, true]));
    assert_eq!(s, vec![FractalStep::Square, FractalStep::AddC, FractalStep::Cube, FractalStep::Conj]);
}

#[test]
fn held_keys_move_the_view() {
    let m = key_movement(&[Key::W, Key::Up, Key::A, Key::I, Key::LShift, Key::Q]);
    assert_eq!(m, Movement { dir_x: -1, dir_y: 2, fast: true, zoom: 1 });
    let m = key_movement(&[Key::S, Key::Right, Key::K]);
    assert_eq!(m, Movement { dir_x: 1, dir_y: -1, fast: false, zoom: -1 });
}

#[test]
fn shader_lines_follow_the_steps() {
    assert_eq!(shader_impl(&[]), "");
    assert_eq!(
        shader_impl(&[FractalStep::Square, FractalStep::AddC]),
        "z = cpx_sqr(z);\nz = z + c;\nt = t + 1.0;\n"
    );
    assert_eq!(step_code(FractalStep::AbsI), "z.y = -abs(z.y);\n");
    assert_eq!(step_code(FractalStep::Cube), "z = cpx_cube(z);\n");
}

#[test]
fn shader_source_fills_the_template() {
    let template = "fn step(z: vec2<REAL>) -> vec2<REAL> {\n@IMPL@}\n";
    assert_eq!(
        shader_source(template, &[FractalStep::AbsR, FractalStep::Conj]),
        "fn step(z: vec2<f32>) -> vec2<f32> {\nz.x = abs(z.x);\nz.y = -z.y;\n}\n"
    );
    assert_eq!(shader_source("no markers", &[FractalStep::Square]), "no markers");
}

#[test]
fn replacing_takes_matches_from_the_left() {
    assert_eq!(replace_all("aaa", "aa", "b"), "aaa".replace("aa", "b"));
    assert_eq!(replace_all("aaa", "aa", "b"), "ba");
    assert_eq!(replace_all("", "x", "y"), "");
    assert_eq!(replace_all("größe REAL", "REAL", "f32"), "größe f32");
    assert_eq!(replace_all("REALREAL", "REAL", "REAL!"), "REAL!REAL!");
}
