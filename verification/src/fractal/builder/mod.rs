pub mod cpu;

use vstd::prelude::*;
use crate::tilemap::pos::TilePos;
use crate::tilemap::pos::{pos_rank, pos_rank_bound, lemma_pos_rank_bounds, lemma_pos_rank_lex, lex2};
use crate::util::compare_iter::Order;

verus! {

/// The kinds of fractal that a tile can show.
#[derive(PartialEq, Eq, Structural, Copy, Clone, PartialOrd, Ord, Debug, Hash)]
pub enum TileType {
    /// Used mostly for debugging
    Empty,
    /// `z = z^2 + c`
    Mandelbrot,
    /// `z = |re(z)| - |im(z)|i; z = z^2 + c`
    BurningShip,
    /// burning ship and the cubic Mandelbrot in turn
    ShipHybrid,
}

/// The place of a tile type in the cycle `Empty, Mandelbrot, BurningShip, ShipHybrid`,
/// which is also the order of its variants.
pub open spec fn type_index(t: TileType) -> int {
    match t {
        TileType::Empty => 0,
        TileType::Mandelbrot => 1,
        TileType::BurningShip => 2,
        TileType::ShipHybrid => 3,
    }
}

impl TileType {
    /// Cycle between tile types.
    pub fn next(self) -> (r: Self)
        ensures
            type_index(r) == (type_index(self) + 1) % 4,
    {
        match self {
            TileType::Empty => TileType::Mandelbrot,
            TileType::Mandelbrot => TileType::BurningShip,
            TileType::BurningShip => TileType::ShipHybrid,
            TileType::ShipHybrid => TileType::Empty,
        }
    }
}

/// The parameters with which a tile is computed.
#[derive(PartialEq, Eq, Structural, Copy, Clone, PartialOrd, Ord, Debug, Hash)]
pub struct TileParams {
    pub kind: TileType,
    pub iterations: i32,
    pub resolution: u32,
    pub padding: u32,
}

/// A tile together with the parameters it is to be computed with.
#[derive(PartialEq, Eq, Structural, Copy, Clone, PartialOrd, Ord, Debug, Hash)]
pub struct TileRequest {
    pub pos: TilePos,
    pub params: TileParams,
}

pub open spec fn two_pow_32() -> int {
    0x1_0000_0000
}

/// The position of the parameters in the order of the derived `Ord`, as one integer.
pub open spec fn params_rank(p: TileParams) -> int {
    ((type_index(p.kind) * two_pow_32() + (p.iterations as int + 0x8000_0000)) * two_pow_32()
        + p.resolution as int) * two_pow_32() + p.padding as int
}

pub open spec fn params_rank_bound() -> int {
    4 * two_pow_32() * two_pow_32() * two_pow_32()
}

/// The position of a request in the order of the derived `Ord` (by tile, then by
/// parameters), as one integer. Requests are compared by this rank.
pub open spec fn request_rank(r: TileRequest) -> int {
    pos_rank(r.pos) * params_rank_bound() + params_rank(r.params)
}

pub proof fn lemma_params_rank(a: TileParams, b: TileParams)
    ensures
        0 <= params_rank(a) < params_rank_bound(),
        (params_rank(a) == params_rank(b)) == (a == b),
        (params_rank(a) < params_rank(b)) == (type_index(a.kind) < type_index(b.kind) || (
        a.kind == b.kind && (a.iterations < b.iterations || (a.iterations == b.iterations && (
        a.resolution < b.resolution || (a.resolution == b.resolution && a.padding
        < b.padding)))))),
{
    let c = two_pow_32();
    let ai = a.iterations as int + 0x8000_0000;
    let bi = b.iterations as int + 0x8000_0000;
    assert(0 <= params_rank(a) < params_rank_bound()) by (nonlinear_arith)
        requires
            0 <= type_index(a.kind) < 4,
            0 <= ai < c,
            0 <= a.resolution < c,
            0 <= a.padding < c,
            c == 0x1_0000_0000,
            params_rank(a) == ((type_index(a.kind) * c + ai) * c + a.resolution) * c + a.padding,
            params_rank_bound() == 4 * c * c * c,
    ;
    lex2(
        (type_index(a.kind) * c + ai) * c + a.resolution,
        a.padding as int,
        (type_index(b.kind) * c + bi) * c + b.resolution,
        b.padding as int,
        c,
    );
    lex2(type_index(a.kind) * c + ai, a.resolution as int, type_index(b.kind) * c + bi, b.resolution as int, c);
    lex2(type_index(a.kind), ai, type_index(b.kind), bi, c);
}

/// Distinct requests have distinct ranks, and the rank order is the lexicographic
/// order on (tile, parameters).
pub proof fn lemma_request_rank(a: TileRequest, b: TileRequest)
    ensures
        (request_rank(a) == request_rank(b)) == (a == b),
        (request_rank(a) < request_rank(b)) == (pos_rank(a.pos) < pos_rank(b.pos) || (a.pos
            == b.pos && params_rank(a.params) < params_rank(b.params))),
{
    lemma_params_rank(a.params, b.params);
    lemma_params_rank(b.params, a.params);
    lemma_pos_rank_lex(a.pos, b.pos);
    lex2(pos_rank(a.pos), params_rank(a.params), pos_rank(b.pos), params_rank(b.params), params_rank_bound());
}

/// The place of a tile type in the order of its variants.
pub fn kind_index(t: TileType) -> (r: u8)
    ensures
        r == type_index(t),
{
    match t {
        TileType::Empty => 0,
        TileType::Mandelbrot => 1,
        TileType::BurningShip => 2,
        TileType::ShipHybrid => 3,
    }
}

impl TileRequest {
    /// Whether `self` comes before `other` in the order of the derived `Ord`.
    pub fn less_than(&self, other: &TileRequest) -> (b: bool)
        ensures
            b == (request_rank(*self) < request_rank(*other)),
    {
        proof {
            lemma_request_rank(*self, *other);
            lemma_pos_rank_lex(self.pos, other.pos);
            lemma_params_rank(self.params, other.params);
        }
        let a = self;
        let b = other;
        if a.pos.z != b.pos.z {
            return a.pos.z < b.pos.z;
        }
        if a.pos.x != b.pos.x {
            return a.pos.x < b.pos.x;
        }
        if a.pos.y != b.pos.y {
            return a.pos.y < b.pos.y;
        }
        let ka = kind_index(a.params.kind);
        let kb = kind_index(b.params.kind);
        if ka != kb {
            return ka < kb;
        }
        if a.params.iterations != b.params.iterations {
            return a.params.iterations < b.params.iterations;
        }
        if a.params.resolution != b.params.resolution {
            return a.params.resolution < b.params.resolution;
        }
        a.params.padding < b.params.padding
    }

    /// Whether the two requests are the same.
    pub fn same(&self, other: &TileRequest) -> (b: bool)
        ensures
            b == (*self == *other),
            b == (request_rank(*self) == request_rank(*other)),
    {
        proof {
            lemma_request_rank(*self, *other);
        }
        *self == *other
    }

    /// Compare two requests in the order of the derived `Ord`: by tile (`z`, `x`,
    /// `y`), then by parameters (`kind`, `iterations`, `resolution`, `padding`).
    pub fn compare(&self, other: &TileRequest) -> (o: Order)
        ensures
            (o == Order::Less) == (request_rank(*self) < request_rank(*other)),
            (o == Order::Equal) == (request_rank(*self) == request_rank(*other)),
            (o == Order::Greater) == (request_rank(*self) > request_rank(*other)),
            (o == Order::Equal) == (*self == *other),
    {
        proof {
            lemma_request_rank(*self, *other);
            lemma_request_rank(*other, *self);
            lemma_pos_rank_lex(self.pos, other.pos);
            lemma_pos_rank_lex(other.pos, self.pos);
            lemma_params_rank(self.params, other.params);
            lemma_params_rank(other.params, self.params);
        }
        if self.less_than(other) {
            Order::Less
        } else if self.same(other) {
            Order::Equal
        } else {
            Order::Greater
        }
    }
}

} // verus!
