# Fractal Toy

The logic of a fractal explorer, verified with Verus.

The plane is cut into square tiles at every zoom level. The tiles that the view
needs are requested, built by workers, cached while they are drawn and dropped
when they are not; their images are packed into texture pages.

## Layout

- `src/` — the verified library:
  - `tilemap/` tile positions (parents, the tiles of a view in center-first
    order) and the ordered storage of tile tasks, updated by walking old and
    new tiles side by side (`util/compare_iter.rs`);
  - `fractal/` tile kinds and parameters, the work queue shared with workers,
    the editable list of fractal steps, and the integer test tile;
  - `builder.rs` the cache of built tiles and the choice of builder;
  - `module/` the texture atlas, the tile storage with its build queue, the
    keyboard and mouse input (keys to actions, buttons, directions) and user
    interface storage; `update_loop.rs` the input that the frame loop keeps
    (held keys, pointer, clicks) and what it does on each window event;
  - `pack.rs` and `shelf_pack.rs` rectangle packers (a 2d buddy allocator and a
    shelf packer), `gpu/` the slots of tile images on the graphics card and
    the source of the tile shader, `ui_image.rs` interface images decoded
    from PNG files (8-bit RGBA only),
    `ui.rs` which region holds the mouse, `debug.rs` nested frame timings,
    `serial/` a collection of values found by id, `colorscheme.rs`, `algo.rs`.
- `tests/` — tests of the library.
- `app/` — a program around the library: the floating point parts (viewport,
  fractal iteration, colors), worker threads, timing and PNG output.
