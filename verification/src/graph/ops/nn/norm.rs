//! Normalization layers: layernorm, rmsnorm (a fused primitive), group and instance norm,
//! and local response normalization. None has an affine part (the frontend scales). The
//! epsilons and coefficients are f32 bit patterns.

use vstd::prelude::*;
use crate::error::{Error, ErrorKind};
use crate::graph::{Graph, NodeId, Op};
use crate::graph::infer::ins_of;
use crate::graph::f32bits::{recip_count_bits, f32_positive_normal, nearest_recip};
use crate::graph::shape::{numel, numel_checked, lemma_numel_concat};
use crate::graph::ops::base::elementwise::float_or_complex;
use crate::graph::ops::base::scalar::{ok_id, is_scalar_of, lemma_scalar_kept};
use crate::graph::ops::base::reduce::{is_spread_of, lemma_spread_kept};
use crate::graph::ops::base::signal::{axis_ranges, axis_pads};
use crate::graph::ops::base::slicing::pad_fits;

verus! {

/// `numel` of a three-axis shape.
pub proof fn lemma_numel3(a: usize, b: usize, c: usize)
    ensures numel(seq![a, b, c]) == a * b * c,
{
    assert(seq![a, b, c].drop_last() =~= seq![a, b]);
    lemma_numel2(a, b);
    assert(numel(seq![a, b, c]) == numel(seq![a, b]) * c);
}

/// `numel` of a two-axis shape.
pub proof fn lemma_numel2(a: usize, b: usize)
    ensures numel(seq![a, b]) == a * b,
{
    assert(seq![a, b].drop_last() =~= seq![a]);
    assert(seq![a].drop_last() =~= Seq::<usize>::empty());
    assert(numel(seq![a]) == numel(Seq::<usize>::empty()) * a);
    assert(numel(seq![a, b]) == numel(seq![a]) * b);
}

/// The element count of the shape group norm folds `[N, C, ..]` into.
pub open spec fn group_rest(s: Seq<usize>, groups: usize) -> int {
    numel(s.skip(2)) * (s[1] / groups) as int
}

/// The requirements of group norm on `[N, C, ..]` with `groups` groups: the folded sizes
/// fit in a `usize`.
pub open spec fn group_fits(s: Seq<usize>, groups: usize) -> bool {
    s.len() >= 2 && groups > 0 && s[1] % groups == 0
        ==> numel(s.skip(2)) <= usize::MAX && group_rest(s, groups) <= usize::MAX
            && s[0] * groups <= usize::MAX
}

impl Graph {
    /// Layer norm over `axis`: `(x - mean) / sqrt(var + eps)`, with `eps` an f32 bit pattern.
    #[verifier::spinoff_prover]
    #[verifier::rlimit(40)]
    pub fn layernorm(&mut self, x: NodeId, axis: usize, eps: u32) -> (r: Result<NodeId, Error>)
        requires
            old(self).wf(), old(self).room(24), old(self).valid(x), axis < old(self).sh(x).len(),
            numel(old(self).sh(x).remove(axis as int)) <= usize::MAX,
            old(self).dt(x).spec_is_arith() ==> float_or_complex(old(self).dt(x)),
        ensures
            final(self).wf(), final(self).grew(*old(self), 24),
            r is Ok <==> old(self).dt(x).spec_is_arith(),
            r matches Ok(id) ==> final(self).valid(id) && final(self).sh(id) == old(self).sh(x)
                && final(self).dt(id) == old(self).dt(x),
            r matches Ok(id) ==> ({
                let g = *final(self);
                let centered = g.arg(id, 0);
                let sd_b = g.arg(g.arg(id, 1), 0);
                let sd = g.arg(g.arg(sd_b, 0), 0);
                let var_eps = g.arg(sd, 0);
                let var = g.arg(var_eps, 0);
                let ssq = g.arg(var, 0);
                let mean_b = g.arg(g.arg(centered, 1), 0);
                let mean = g.arg(g.arg(mean_b, 0), 0);
                let sx = g.arg(mean, 0);
                &&& g.node_is(id, Op::Mul, seq![centered, g.arg(id, 1)])
                &&& g.node_is(g.arg(id, 1), Op::Recip, seq![sd_b])
                &&& is_spread_of(g, sd_b, sd)
                &&& g.node_is(sd, Op::Sqrt, seq![var_eps])
                &&& g.node_is(var_eps, Op::Add, seq![var, g.arg(var_eps, 1)])
                &&& is_scalar_of(g, g.arg(var_eps, 1), eps)
                &&& g.node_is(var, Op::Mul, seq![ssq, g.arg(var, 1)])
                &&& g.node_is(ssq, Op::Sum { axis }, seq![g.arg(ssq, 0)])
                &&& g.node_is(g.arg(ssq, 0), Op::Mul, seq![centered, centered])
                &&& g.node_is(centered, Op::Add, seq![x, g.arg(centered, 1)])
                &&& g.node_is(g.arg(centered, 1), Op::Neg, seq![mean_b])
                &&& is_spread_of(g, mean_b, mean)
                &&& g.node_is(mean, Op::Mul, seq![sx, g.arg(mean, 1)])
                &&& g.node_is(sx, Op::Sum { axis }, seq![x])
                &&& exists|b: u32| #[trigger] is_scalar_of(g, g.arg(mean, 1), b) && is_scalar_of(g, g.arg(var, 1), b)
                    && (old(self).sh(x)[axis as int] >= 1 ==> f32_positive_normal(b))
                    && (1 <= old(self).sh(x)[axis as int] < 0x100_0000 ==> nearest_recip(b, old(self).sh(x)[axis as int] as int))
            }),
    {
        let full = self.shape(x);
        let inv_n = recip_count_bits(full[axis] as u64);
        proof {
            assert(full@.remove(axis as int).insert(axis as int, 1) =~= full@.update(axis as int, 1));
        }
        let sx = self.sum(x, axis)?;
        let invn1 = self.scalar(sx, inv_n);
        let ghost g1 = *self;
        let mean = ok_id(self.mul(sx, invn1));
        let mean_b = ok_id(self.broadcast_back(mean, &full, axis));
        let ghost g2 = *self;
        let centered = ok_id(self.sub(x, mean_b));
        let sq = ok_id(self.mul(centered, centered));
        let ssq = ok_id(self.sum(sq, axis));
        let invn2 = self.scalar(ssq, inv_n);
        let ghost g3 = *self;
        let var = ok_id(self.mul(ssq, invn2));
        let eps_c = self.scalar(var, eps);
        let ghost g4 = *self;
        let var_eps = ok_id(self.add(var, eps_c));
        let sd = self.sqrt(var_eps);
        let sd_b = ok_id(self.broadcast_back(sd, &full, axis));
        let ghost g5 = *self;
        let res = self.div(centered, sd_b);
        proof {
            lemma_scalar_kept(g1, *self, invn1, inv_n);
            lemma_spread_kept(g2, *self, mean_b, mean);
            lemma_scalar_kept(g3, *self, invn2, inv_n);
            lemma_scalar_kept(g4, *self, eps_c, eps);
            lemma_spread_kept(g5, *self, sd_b, sd);
            assert(is_scalar_of(*self, invn1, inv_n));
        }
        res
    }

    /// RMS norm over `axis`, `x / sqrt(mean(x^2) + eps)`: the fused `Op::RmsNorm` (float).
    pub fn rmsnorm(&mut self, x: NodeId, axis: usize, eps: u32) -> (r: Result<NodeId, Error>)
        requires old(self).wf(), old(self).room(1), old(self).valid(x),
        ensures
            final(self).wf(),
            r is Ok <==> axis < old(self).sh(x).len() && old(self).dt(x).spec_is_float(),
            r matches Ok(id) ==> final(self).pushed(*old(self), id, Op::RmsNorm { axis, eps_bits: eps }, seq![x])
                && final(self).sh(id) == old(self).sh(x) && final(self).dt(id) == old(self).dt(x),
            r is Err ==> *final(self) == *old(self),
    {
        self.reduce_axis_ok("rmsnorm", x, axis)?;
        self.require("rmsnorm", x, self.dtype(x).is_float())?;
        let v = vec![x];
        assert(v@ =~= seq![x]);
        assert(ins_of(self.nodes@, v@)[0] == (self.sh(x), self.dt(x)));
        Ok(self.push(Op::RmsNorm { axis, eps_bits: eps }, v))
    }

    /// Group norm on `[N, C, ..]`: `C` split into `groups`, each group normalized per sample
    /// over its channels and all spatial axes.
    #[verifier::spinoff_prover]
    #[verifier::rlimit(60)]
    pub fn group_norm(&mut self, x: NodeId, groups: usize, eps: u32) -> (r: Result<NodeId, Error>)
        requires
            old(self).wf(), old(self).room(26), old(self).valid(x),
            numel(old(self).sh(x)) <= usize::MAX,
            group_fits(old(self).sh(x), groups),
            old(self).dt(x).spec_is_arith() ==> float_or_complex(old(self).dt(x)),
        ensures
            final(self).wf(), final(self).grew(*old(self), 26),
            r is Ok <==> old(self).sh(x).len() >= 2 && groups > 0 && old(self).sh(x)[1] % groups == 0
                && old(self).dt(x).spec_is_arith(),
            r matches Ok(id) ==> final(self).valid(id) && final(self).sh(id) == old(self).sh(x)
                && final(self).dt(id) == old(self).dt(x),
            r matches Ok(id) ==> ({
                let g = *final(self);
                let ln = g.arg(id, 0);
                &&& g.opn(id) is Reshape && g.srcs(id) == seq![ln]
                &&& g.node_is(ln, Op::Mul, seq![g.arg(ln, 0), g.arg(ln, 1)])
                &&& g.node_is(g.arg(ln, 1), Op::Recip, seq![g.arg(g.arg(ln, 1), 0)])
            }),
    {
        let sh = self.shape(x);
        if sh.len() < 2 || groups == 0 || sh[1] % groups != 0 {
            return Err(Error::new("group_norm", ErrorKind::Invalid));
        }
        let n = sh[0];
        let c = sh[1];
        let ghost s = sh@;
        let mut tail: Vec<usize> = Vec::new();
        let mut i: usize = 2;
        while i < sh.len()
            invariant 2 <= i <= s.len(), sh@ == s, tail@ == s.subrange(2, i as int),
            decreases s.len() - i,
        {
            tail.push(sh[i]);
            i = i + 1;
            assert(tail@ =~= s.subrange(2, i as int));
        }
        assert(tail@ =~= s.skip(2));
        let q = c / groups;
        let p = match numel_checked(&tail) { Some(v) => v, None => 0 };
        let rest = p * q;
        let flat_shape: Vec<usize> = vec![n, groups, rest];
        proof {
            assert(s =~= s.take(2) + s.skip(2));
            lemma_numel_concat(s.take(2), s.skip(2));
            assert(s.take(2) =~= seq![n, c]);
            lemma_numel2(n, c);
            lemma_numel3(n, groups, rest);
            assert(flat_shape@ =~= seq![n, groups, rest]);
            assert(c == groups * q) by {
                vstd::arithmetic::div_mod::lemma_fundamental_div_mod(c as int, groups as int);
            }
            assert(n * groups * (p * q) == n * c * p) by (nonlinear_arith)
                requires c == groups * q;
            assert(seq![n, groups, rest].remove(2) =~= seq![n, groups]);
            lemma_numel2(n, groups);
        }
        let flat = ok_id(self.reshape(x, flat_shape));
        let normed = self.layernorm(flat, 2, eps)?;
        self.reshape(normed, sh)
    }

    /// Instance norm on `[N, C, ..]`: each channel of each sample normalized over the spatial
    /// axes (group norm with `C` groups).
    pub fn instance_norm(&mut self, x: NodeId, eps: u32) -> (r: Result<NodeId, Error>)
        requires
            old(self).wf(), old(self).room(26), old(self).valid(x), old(self).sh(x).len() >= 2,
            numel(old(self).sh(x)) <= usize::MAX,
            group_fits(old(self).sh(x), old(self).sh(x)[1]),
            old(self).dt(x).spec_is_arith() ==> float_or_complex(old(self).dt(x)),
        ensures
            final(self).wf(), final(self).grew(*old(self), 26),
            r is Ok <==> old(self).sh(x)[1] > 0 && old(self).dt(x).spec_is_arith(),
            r matches Ok(id) ==> final(self).valid(id) && final(self).sh(id) == old(self).sh(x)
                && final(self).dt(id) == old(self).dt(x),
            r matches Ok(id) ==> ({
                let g = *final(self);
                let ln = g.arg(id, 0);
                &&& g.opn(id) is Reshape && g.srcs(id) == seq![ln]
                &&& g.node_is(ln, Op::Mul, seq![g.arg(ln, 0), g.arg(ln, 1)])
                &&& g.node_is(g.arg(ln, 1), Op::Recip, seq![g.arg(g.arg(ln, 1), 0)])
            }),
    {
        let c = self.nodes[x.0 as usize].shape[1];
        proof {
            if c > 0 {
                vstd::arithmetic::div_mod::lemma_mod_self_0(c as int);
            }
        }
        self.group_norm(x, c, eps)
    }

    /// Local response normalization over the channel axis 1:
    /// `x / (k + alpha * sum_window x^2)^beta`, the window `size` channels wide around each
    /// channel. `alpha`, `beta`, `k` are f32 bit patterns.
    #[verifier::spinoff_prover]
    #[verifier::rlimit(60)]
    #[verifier::loop_isolation(false)]
    pub fn lrn(&mut self, x: NodeId, size: usize, alpha: u32, beta: u32, k: u32) -> (r: Result<NodeId, Error>)
        requires
            old(self).wf(), old(self).room((18 + 2 * size) as nat), old(self).valid(x),
            old(self).sh(x).len() >= 2, float_or_complex(old(self).dt(x)),
            old(self).sh(x)[1] + size <= usize::MAX,
        ensures
            final(self).wf(), final(self).grew(*old(self), (18 + 2 * size) as nat),
            r is Ok <==> size >= 1,
            r matches Ok(id) ==> final(self).valid(id) && final(self).sh(id) == old(self).sh(x)
                && final(self).dt(id) == old(self).dt(x),
    {
        if size == 0 {
            return Err(Error::new("lrn", ErrorKind::Invalid));
        }
        let ghost g0 = *self;
        let sq = self.square(x);
        let sh = self.shape(x);
        let ghost s = sh@;
        let c = sh[1];
        let half = size / 2;
        let pads = axis_pads(sh.len(), 1, half, size - 1 - half);
        assert(pad_fits(s, pads@));
        let padded_id = ok_id(self.pad(sq, pads));
        let psh = self.shape(padded_id);
        let ghost ps = psh@;
        assert(ps =~= s.update(1, (c + size - 1) as usize));
        let first = axis_ranges(&psh, 1, 0, c);
        assert(first@.map_values(|r: (usize, usize)| (r.1 - r.0) as usize) =~= s);
        let mut acc = ok_id(self.slice(padded_id, first));
        let mut j: usize = 1;
        while j < size
            invariant
                1 <= j <= size, self.wf(), self.grew(g0, (2 + 2 * j) as nat),
                self.valid(padded_id) && self.sh(padded_id) == ps && self.dt(padded_id) == g0.dt(x),
                self.valid(acc) && self.sh(acc) == s && self.dt(acc) == g0.dt(x),
            decreases size - j,
        {
            let rg = axis_ranges(&psh, 1, j, j + c);
            assert(rg@.map_values(|r: (usize, usize)| (r.1 - r.0) as usize) =~= s);
            let win = ok_id(self.slice(padded_id, rg));
            acc = ok_id(self.add(acc, win));
            j = j + 1;
        }
        let al = self.scalar(acc, alpha);
        let scaled = ok_id(self.mul(acc, al));
        let kc = self.scalar(scaled, k);
        let base = ok_id(self.add(scaled, kc));
        let be = self.scalar(base, beta);
        let denom = ok_id(self.pow(base, be));
        self.div(x, denom)
    }
}

} // verus!
