//! Constant `m x n` F32 grids built on the host: the identity, triangular 0/1 masks, the
//! cumulative-sum matrix, and the 0/-inf causal mask.

use vstd::prelude::*;
use crate::bytes::{le_u32, push_u32};
use crate::dtype::DType;
use crate::storage::Storage;

verus! {

/// 1.0, 0.0 and -inf as f32.
pub const F32_ONE_BITS: u32 = 0x3f80_0000;
pub const F32_NEG_INF: u32 = 0xff80_0000;

/// Which grid.
#[derive(Clone, Copy, PartialEq, Eq, Structural, Debug)]
pub enum Grid {
    /// 1 on the main diagonal.
    Eye,
    /// 1 where `j <= i + diagonal` (lower) or `j >= i + diagonal` (upper).
    Tri { diagonal: i64, lower: bool },
    /// 1 where `row <= col` (so `x @ U` sums prefixes).
    PrefixOnes,
    /// 0 where `col <= row`, -inf above.
    NegInfAbove,
}

/// The entry at row `i`, column `j` as f32 bits.
pub open spec fn grid_bits(g: Grid, i: int, j: int) -> u32 {
    match g {
        Grid::Eye => if i == j { 0x3f80_0000 } else { 0 },
        Grid::Tri { diagonal, lower } => {
            let keep = if lower { j <= i + diagonal } else { j >= i + diagonal };
            if keep { 0x3f80_0000 } else { 0 }
        },
        Grid::PrefixOnes => if i <= j { 0x3f80_0000 } else { 0 },
        Grid::NegInfAbove => if j > i { 0xff80_0000 } else { 0 },
    }
}

/// The entry of grid `g` at row `i`, column `j`.
fn grid_entry(g: Grid, i: usize, j: usize) -> (b: u32)
    requires i <= i64::MAX, j <= i64::MAX,
        g matches Grid::Tri { diagonal, lower } ==> i + diagonal <= i64::MAX && i + diagonal >= i64::MIN,
    ensures b == grid_bits(g, i as int, j as int),
{
    match g {
        Grid::Eye => if i == j { 0x3f80_0000 } else { 0 },
        Grid::Tri { diagonal, lower } => {
            let d = i as i64 + diagonal;
            let jj = j as i64;
            let keep = if lower { jj <= d } else { jj >= d };
            if keep { 0x3f80_0000 } else { 0 }
        },
        Grid::PrefixOnes => if i <= j { 0x3f80_0000 } else { 0 },
        Grid::NegInfAbove => if j > i { 0xff80_0000 } else { 0 },
    }
}

/// The F32 bytes `b` hold the `m x n` grid `gr` row-major.
pub open spec fn holds_grid(b: Seq<u8>, gr: Grid, m: int, n: int) -> bool {
    &&& b.len() == 4 * (m * n)
    &&& forall|i: int, j: int| 0 <= i < m && 0 <= j < n ==>
        #[trigger] b.subrange(4 * (i * n + j), 4 * (i * n + j) + 4) == le_u32(grid_bits(gr, i, j))
}

/// Node `c` of `g` is the F32 constant `m x n` grid `gr`.
pub open spec fn is_grid_const(g: crate::graph::Graph, c: crate::graph::NodeId, gr: Grid, m: usize, n: usize) -> bool {
    g.opn(c) matches crate::graph::Op::Const { data, shape } && shape@ == seq![m, n]
        && data.spec_dtype() == DType::F32 && holds_grid(data.spec_bytes(), gr, m as int, n as int)
}

/// The `m x n` grid `g` as a row-major F32 storage.
pub fn grid_storage(g: Grid, m: usize, n: usize) -> (s: Storage)
    requires
        m * n * 4 <= usize::MAX, m <= i64::MAX, n <= i64::MAX,
        g matches Grid::Tri { diagonal, lower } ==> m + diagonal <= i64::MAX,
    ensures
        s.spec_dtype() == DType::F32, s.wf(), s.spec_bytes().len() == 4 * (m * n),
        forall|i: int, j: int| 0 <= i < m && 0 <= j < n ==>
            #[trigger] s.spec_bytes().subrange(4 * (i * n + j), 4 * (i * n + j) + 4) == le_u32(grid_bits(g, i, j)),
{
    let mut b: Vec<u8> = Vec::new();
    let mut i: usize = 0;
    while i < m
        invariant
            i <= m, m * n * 4 <= usize::MAX, m <= i64::MAX, n <= i64::MAX,
            g matches Grid::Tri { diagonal, lower } ==> m + diagonal <= i64::MAX,
            b@.len() == 4 * (i * n),
            forall|a: int, c: int| 0 <= a < i && 0 <= c < n ==>
                #[trigger] b@.subrange(4 * (a * n + c), 4 * (a * n + c) + 4) == le_u32(grid_bits(g, a, c)),
        decreases m - i,
    {
        assert(i * n + n <= m * n) by (nonlinear_arith) requires i < m;
        let mut j: usize = 0;
        while j < n
            invariant
                i < m, j <= n, m * n * 4 <= usize::MAX, i * n + n <= m * n, m <= i64::MAX, n <= i64::MAX,
                g matches Grid::Tri { diagonal, lower } ==> m + diagonal <= i64::MAX,
                b@.len() == 4 * (i * n + j),
                forall|a: int, c: int| (0 <= a < i && 0 <= c < n) || (a == i && 0 <= c < j) ==>
                    #[trigger] b@.subrange(4 * (a * n + c), 4 * (a * n + c) + 4) == le_u32(grid_bits(g, a, c)),
            decreases n - j,
        {
            let v = grid_entry(g, i, j);
            let ghost old_b = b@;
            push_u32(&mut b, v);
            assert forall|a: int, c: int| (0 <= a < i && 0 <= c < n) || (a == i && 0 <= c < j + 1) implies
                #[trigger] b@.subrange(4 * (a * n + c), 4 * (a * n + c) + 4) == le_u32(grid_bits(g, a, c)) by {
                if a == i && c == j {
                    assert(b@.subrange(4 * (a * n + c), 4 * (a * n + c) + 4) =~= le_u32(v));
                } else {
                    assert(a * n + c < i * n + j) by (nonlinear_arith)
                        requires (0 <= a < i && 0 <= c < n) || (a == i && 0 <= c < j);
                    assert(b@.subrange(4 * (a * n + c), 4 * (a * n + c) + 4) =~= old_b.subrange(4 * (a * n + c), 4 * (a * n + c) + 4));
                }
            }
            j = j + 1;
        }
        assert(i * n + n == (i + 1) * n) by (nonlinear_arith);
        i = i + 1;
    }
    assert(b@.len() % 4 == 0) by { vstd::arithmetic::div_mod::lemma_mod_multiples_basic((m * n) as int, 4); }
    Storage::new(DType::F32, b)
}

} // verus!
