//! Pairwise distances and similarity: `cdist` / `pdist` (Lp over rows) and cosine
//! similarity, through broadcasting and `norm_p`.

use vstd::prelude::*;
use crate::graph::ops::base::signal::is_quot_of;
use crate::error::{Error, ErrorKind};
use crate::graph::{Graph, NodeId, Op};
use crate::graph::shape::{numel, expand_ok, left_pad_ones};
use crate::graph::ops::base::scalar::{ok_id, F32_TWO};
use crate::graph::ops::nn::norm::{lemma_numel2, lemma_numel3};

verus! {

/// `a = [m, d]` and `b = [n, d]`.
pub open spec fn rows_match(sa: Seq<usize>, sb: Seq<usize>) -> bool {
    sa.len() == 2 && sb.len() == 2 && sa[1] == sb[1]
}

impl Graph {
    /// Pairwise Lp distance between the rows of `a = [m, d]` and `b = [n, d]`: `[m, n]`,
    /// with `p` an f32 bit pattern.
    #[verifier::spinoff_prover]
    #[verifier::rlimit(40)]
    pub fn cdist(&mut self, a: NodeId, b: NodeId, p: u32) -> (r: Result<NodeId, Error>)
        requires
            old(self).wf(), old(self).room(26), old(self).valid(a), old(self).valid(b),
            numel(old(self).sh(a)) <= usize::MAX, numel(old(self).sh(b)) <= usize::MAX,
            rows_match(old(self).sh(a), old(self).sh(b)) ==> ({
                &&& old(self).dt(b).spec_is_signed() || old(self).dt(b).spec_is_complex()
                &&& old(self).dt(a) == old(self).dt(b) ==> old(self).dt(a).spec_is_float()
            }),
        ensures
            final(self).wf(), final(self).grew(*old(self), 26),
            r is Ok <==> rows_match(old(self).sh(a), old(self).sh(b)) && old(self).dt(a) == old(self).dt(b),
            r matches Ok(id) ==> final(self).valid(id) && final(self).dt(id) == old(self).dt(a)
                && final(self).sh(id) == seq![old(self).sh(a)[0], old(self).sh(b)[0]],
    {
        let sa = self.shape(a);
        let sb = self.shape(b);
        if sa.len() != 2 || sb.len() != 2 || sa[1] != sb[1] {
            return Err(Error::new("cdist", ErrorKind::ShapeMismatch));
        }
        let m = sa[0];
        let n = sb[0];
        let d = sa[1];
        let s1: Vec<usize> = vec![m, 1, d];
        let s2: Vec<usize> = vec![1, n, d];
        let t1: Vec<usize> = vec![m, n, d];
        let t2: Vec<usize> = vec![m, n, d];
        proof {
            lemma_numel2(m, d);
            lemma_numel2(n, d);
            lemma_numel3(m, 1, d);
            lemma_numel3(1, n, d);
            assert(sa@ =~= seq![m, d]);
            assert(sb@ =~= seq![n, d]);
            assert(m * 1 * d == m * d && 1 * n * d == n * d) by (nonlinear_arith);
            assert(s1@ =~= seq![m, 1usize, d]);
            assert(s2@ =~= seq![1usize, n, d]);
        }
        let ar = ok_id(self.reshape(a, s1));
        let br = ok_id(self.reshape(b, s2));
        proof {
            assert(left_pad_ones(self.sh(ar), 3) =~= self.sh(ar));
            assert(left_pad_ones(self.sh(br), 3) =~= self.sh(br));
            assert(expand_ok(self.sh(ar), t1@));
            assert(expand_ok(self.sh(br), t2@));
        }
        let ab = ok_id(self.broadcast_to(ar, t1));
        let bb = ok_id(self.broadcast_to(br, t2));
        let diff = self.sub(ab, bb)?;
        let res = ok_id(self.norm_p(diff, p, 2));
        assert(self.sh(res) =~= seq![m, n]);
        Ok(res)
    }

    /// Pairwise Lp self-distance of the rows of `a = [m, d]`: `[m, m]`, zero diagonal.
    pub fn pdist(&mut self, a: NodeId, p: u32) -> (r: Result<NodeId, Error>)
        requires
            old(self).wf(), old(self).room(26), old(self).valid(a), numel(old(self).sh(a)) <= usize::MAX,
            old(self).sh(a).len() == 2 ==> old(self).dt(a).spec_is_float(),
        ensures
            final(self).wf(), final(self).grew(*old(self), 26),
            r is Ok <==> old(self).sh(a).len() == 2,
            r matches Ok(id) ==> final(self).valid(id) && final(self).dt(id) == old(self).dt(a)
                && final(self).sh(id) == seq![old(self).sh(a)[0], old(self).sh(a)[0]],
    {
        self.cdist(a, a, p)
    }

    /// Cosine similarity along `axis`: `sum(a b) / (||a|| ||b||)`.
    #[verifier::spinoff_prover]
    #[verifier::rlimit(40)]
    pub fn cosine_similarity(&mut self, a: NodeId, b: NodeId, axis: usize) -> (r: Result<NodeId, Error>)
        requires
            old(self).wf(), old(self).room(42), old(self).valid(a), old(self).valid(b),
            old(self).same_sd(a, b) && old(self).dt(a).spec_is_arith() && axis < old(self).sh(a).len()
                ==> old(self).dt(a).spec_is_float(),
        ensures
            final(self).wf(), final(self).grew(*old(self), 42),
            r is Ok <==> old(self).same_sd(a, b) && old(self).dt(a).spec_is_arith() && axis < old(self).sh(a).len(),
            r matches Ok(id) ==> final(self).valid(id) && final(self).sh(id) == old(self).sh(a).remove(axis as int)
                && final(self).dt(id) == old(self).dt(a),
            r matches Ok(id) ==> ({
                let g = *final(self);
                let dot = g.arg(id, 0);
                let denom = g.arg(g.arg(id, 1), 0);
                &&& is_quot_of(g, id, dot, denom)
                &&& g.node_is(dot, Op::Sum { axis }, seq![g.arg(dot, 0)]) && g.node_is(g.arg(dot, 0), Op::Mul, seq![a, b])
                &&& g.node_is(denom, Op::Mul, seq![g.arg(denom, 0), g.arg(denom, 1)])
            }),
    {
        let prod = self.mul(a, b)?;
        let ghost g1 = *self;
        let dot = self.sum(prod, axis)?;
        let ghost g2 = *self;
        let na = ok_id(self.norm_p(a, F32_TWO, axis));
        let nb = ok_id(self.norm_p(b, F32_TWO, axis));
        let denom = ok_id(self.mul(na, nb));
        let ghost g3 = *self;
        let r = self.div(dot, denom);
        proof {
            if r is Ok {
                g1.lemma_node_kept(*self, prod);
                g2.lemma_node_kept(*self, dot);
                g3.lemma_node_kept(*self, denom);
            }
        }
        r
    }
}

} // verus!
