//! Loss functions, elementwise or per sample and unreduced (the caller reduces with
//! mean or sum). Each is a decomposition into primitives, in the numerically stable form.

use vstd::prelude::*;
use crate::error::Error;
use crate::graph::{Graph, NodeId, Op};
use crate::graph::shape::numel;
use crate::graph::ops::base::elementwise::float_or_complex;
use crate::graph::ops::base::scalar::{ok_id, is_scalar_of, lemma_scalar_kept, F32_HALF, F32_ZERO, F32_ONE};
use crate::graph::ops::base::explog::{is_xlogy_of, lemma_xlogy_kept, is_log_sigmoid_of, lemma_log_sigmoid_kept};

verus! {

impl Graph {
    /// Squared error `(pred - target)^2`, elementwise.
    pub fn mse_loss(&mut self, pred: NodeId, target: NodeId) -> (r: Result<NodeId, Error>)
        requires
            old(self).wf(), old(self).room(3), old(self).valid(pred), old(self).valid(target),
            old(self).dt(target).spec_is_signed() || old(self).dt(target).spec_is_complex(),
        ensures
            final(self).wf(), final(self).grew(*old(self), 3),
            r is Ok <==> old(self).same_sd(pred, target),
            r matches Ok(id) ==> final(self).valid(id) && final(self).sh(id) == old(self).sh(pred)
                && final(self).dt(id) == old(self).dt(pred),
            r matches Ok(id) ==> ({
                let g = *final(self);
                let d = g.arg(id, 0);
                &&& g.node_is(id, Op::Mul, seq![d, d])
                &&& g.node_is(d, Op::Add, seq![pred, g.arg(d, 1)]) && g.node_is(g.arg(d, 1), Op::Neg, seq![target])
            }),
    {
        let d = self.sub(pred, target)?;
        Ok(self.square(d))
    }

    /// Absolute error `|pred - target|`, elementwise.
    pub fn l1_loss(&mut self, pred: NodeId, target: NodeId) -> (r: Result<NodeId, Error>)
        requires
            old(self).wf(), old(self).room(4), old(self).valid(pred), old(self).valid(target),
            old(self).dt(target).spec_is_signed() || old(self).dt(target).spec_is_complex(),
            old(self).same_sd(pred, target) ==> old(self).dt(target).spec_is_signed(),
        ensures
            final(self).wf(), final(self).grew(*old(self), 4),
            r is Ok <==> old(self).same_sd(pred, target),
            r matches Ok(id) ==> final(self).valid(id) && final(self).sh(id) == old(self).sh(pred)
                && final(self).dt(id) == old(self).dt(pred),
            r matches Ok(id) ==> ({
                let g = *final(self);
                let d = g.arg(id, 0);
                &&& g.node_is(id, Op::Max, seq![d, g.arg(id, 1)])
                &&& g.node_is(g.arg(id, 1), Op::Neg, seq![d])
                &&& g.node_is(d, Op::Add, seq![pred, g.arg(d, 1)]) && g.node_is(g.arg(d, 1), Op::Neg, seq![target])
            }),
    {
        let d = self.sub(pred, target)?;
        Ok(self.abs(d))
    }

    /// Huber loss with threshold `delta` (an f32 bit pattern), elementwise: `0.5 d^2` where
    /// `|d| < delta`, else `delta (|d| - 0.5 delta)`, with `d = pred - target`.
    #[verifier::spinoff_prover]
    #[verifier::rlimit(30)]
    pub fn huber_loss(&mut self, pred: NodeId, target: NodeId, delta: u32) -> (r: Result<NodeId, Error>)
        requires
            old(self).wf(), old(self).room(26), old(self).valid(pred), old(self).valid(target),
            old(self).dt(target).spec_is_signed() || old(self).dt(target).spec_is_complex(),
            old(self).same_sd(pred, target) ==> old(self).dt(target).spec_is_signed(),
        ensures
            final(self).wf(), final(self).grew(*old(self), 26),
            r is Ok <==> old(self).same_sd(pred, target),
            r matches Ok(id) ==> final(self).valid(id) && final(self).sh(id) == old(self).sh(pred)
                && final(self).dt(id) == old(self).dt(pred),
            r matches Ok(id) ==> ({
                let g = *final(self);
                let small = g.arg(id, 0);
                let quad = g.arg(id, 1);
                let lin = g.arg(id, 2);
                let ad = g.arg(small, 0);
                let d = g.arg(ad, 0);
                let shifted = g.arg(lin, 0);
                &&& g.node_is(id, Op::Where, seq![small, quad, lin])
                &&& g.node_is(small, Op::CmpLt, seq![ad, g.arg(small, 1)])
                &&& is_scalar_of(g, g.arg(small, 1), delta)
                &&& g.node_is(ad, Op::Max, seq![d, g.arg(ad, 1)])
                &&& g.node_is(g.arg(ad, 1), Op::Neg, seq![d])
                &&& g.node_is(d, Op::Add, seq![pred, g.arg(d, 1)]) && g.node_is(g.arg(d, 1), Op::Neg, seq![target])
                &&& g.node_is(quad, Op::Mul, seq![g.arg(quad, 0), g.arg(quad, 1)])
                &&& g.node_is(g.arg(quad, 0), Op::Mul, seq![d, d])
                &&& is_scalar_of(g, g.arg(quad, 1), F32_HALF)
                &&& g.node_is(lin, Op::Mul, seq![shifted, g.arg(lin, 1)])
                &&& is_scalar_of(g, g.arg(lin, 1), delta)
                &&& g.node_is(shifted, Op::Add, seq![ad, g.arg(shifted, 1)])
                &&& g.node_is(g.arg(shifted, 1), Op::Neg, seq![g.arg(g.arg(shifted, 1), 0)])
            }),
    {
        let d = self.sub(pred, target)?;
        let ad = self.abs(d);
        let dc = self.scalar(ad, delta);
        let ghost g1 = *self;
        let small = ok_id(self.cmp_lt(ad, dc));
        let sq = self.square(d);
        let half = self.scalar(sq, F32_HALF);
        let ghost g2 = *self;
        let quad = ok_id(self.mul(sq, half));
        // delta * (|d| - 0.5 * delta), with 0.5 * delta rounded in f32
        let h = self.f32_unit(ad, F32_HALF);
        let dl = self.f32_unit(ad, delta);
        let hd = ok_id(self.mul(h, dl));
        let off = self.spread_like(hd, ad);
        let shifted = ok_id(self.sub(ad, off));
        let dls = self.scalar(shifted, delta);
        let ghost g3 = *self;
        let lin = ok_id(self.mul(shifted, dls));
        let res = self.select(small, quad, lin);
        proof {
            lemma_scalar_kept(g1, *self, dc, delta);
            lemma_scalar_kept(g2, *self, half, F32_HALF);
            lemma_scalar_kept(g3, *self, dls, delta);
        }
        res
    }

    /// Binary cross-entropy `-(t ln p + (1 - t) ln(1 - p))`, elementwise, with `xlogy` so
    /// that `t = 0` and `t = 1` give no NaN.
    #[verifier::spinoff_prover]
    #[verifier::rlimit(30)]
    pub fn bce_loss(&mut self, pred: NodeId, target: NodeId) -> (r: Result<NodeId, Error>)
        requires
            old(self).wf(), old(self).room(32), old(self).valid(pred), old(self).valid(target),
            old(self).dt(target).spec_is_signed() || old(self).dt(target).spec_is_complex(),
            old(self).same_sd(pred, target) && !old(self).dt(pred).spec_is_complex()
                ==> old(self).dt(pred).spec_is_float(),
        ensures
            final(self).wf(), final(self).grew(*old(self), 32),
            r is Ok <==> old(self).same_sd(pred, target) && !old(self).dt(pred).spec_is_complex(),
            r matches Ok(id) ==> final(self).valid(id) && final(self).sh(id) == old(self).sh(pred)
                && final(self).dt(id) == old(self).dt(pred),
            r matches Ok(id) ==> ({
                let g = *final(self);
                let s = g.arg(id, 0);
                let a = g.arg(s, 0);
                let b = g.arg(s, 1);
                let omt = g.arg(g.arg(b, 0), 0);
                let omp = g.arg(g.arg(g.arg(g.arg(b, 2), 1), 0), 0);
                let one = g.arg(omt, 0);
                &&& g.node_is(id, Op::Neg, seq![s])
                &&& g.node_is(s, Op::Add, seq![a, b])
                &&& is_xlogy_of(g, a, target, pred)
                &&& is_xlogy_of(g, b, omt, omp)
                &&& is_scalar_of(g, one, F32_ONE)
                &&& g.node_is(omt, Op::Add, seq![one, g.arg(omt, 1)]) && g.node_is(g.arg(omt, 1), Op::Neg, seq![target])
                &&& g.node_is(omp, Op::Add, seq![one, g.arg(omp, 1)]) && g.node_is(g.arg(omp, 1), Op::Neg, seq![pred])
            }),
    {
        let one = self.ones_like(pred);
        let ghost g1 = *self;
        let omt = self.sub(one, target)?;
        let omp = ok_id(self.sub(one, pred));
        let a = self.xlogy(target, pred)?;
        let ghost g2 = *self;
        let b = ok_id(self.xlogy(omt, omp));
        let ghost g3 = *self;
        let s = ok_id(self.add(a, b));
        let res = self.neg(s);
        proof {
            lemma_scalar_kept(g1, *self, one, F32_ONE);
            lemma_xlogy_kept(g2, *self, a, target, pred);
            lemma_xlogy_kept(g3, *self, b, omt, omp);
        }
        Ok(res)
    }

    /// Binary cross-entropy from logits, overflow-safe:
    /// `-(t ln sigmoid(x) + (1 - t) ln sigmoid(-x))`, elementwise.
    #[verifier::spinoff_prover]
    #[verifier::rlimit(30)]
    pub fn bce_with_logits(&mut self, logits: NodeId, target: NodeId) -> (r: Result<NodeId, Error>)
        requires
            old(self).wf(), old(self).room(60), old(self).valid(logits), old(self).valid(target),
            old(self).dt(logits).spec_is_float(),
            old(self).dt(target).spec_is_signed() || old(self).dt(target).spec_is_complex(),
        ensures
            final(self).wf(), final(self).grew(*old(self), 60),
            r is Ok <==> old(self).same_sd(logits, target),
            r matches Ok(id) ==> final(self).valid(id) && final(self).sh(id) == old(self).sh(logits)
                && final(self).dt(id) == old(self).dt(logits),
            r matches Ok(id) ==> ({
                let g = *final(self);
                let s = g.arg(id, 0);
                let a = g.arg(s, 0);
                let b = g.arg(s, 1);
                let omt = g.arg(b, 0);
                let lsn = g.arg(b, 1);
                &&& g.node_is(id, Op::Neg, seq![s])
                &&& g.node_is(s, Op::Add, seq![a, b])
                &&& g.node_is(a, Op::Mul, seq![target, g.arg(a, 1)])
                &&& is_log_sigmoid_of(g, g.arg(a, 1), logits)
                &&& g.node_is(b, Op::Mul, seq![omt, lsn])
                &&& g.node_is(omt, Op::Add, seq![g.arg(omt, 0), g.arg(omt, 1)])
                &&& is_scalar_of(g, g.arg(omt, 0), F32_ONE)
                &&& g.node_is(g.arg(omt, 1), Op::Neg, seq![target])
                &&& is_log_sigmoid_of(g, lsn, g.arg(g.arg(g.arg(g.arg(lsn, 0), 0), 0), 0))
                &&& g.node_is(g.arg(g.arg(g.arg(g.arg(lsn, 0), 0), 0), 0), Op::Neg, seq![logits])
            }),
    {
        let one = self.ones_like(logits);
        let ghost g1 = *self;
        let omt = self.sub(one, target)?;
        let nx = self.neg(logits);
        let lsp = ok_id(self.log_sigmoid(logits));
        let ghost g2 = *self;
        let lsn = ok_id(self.log_sigmoid(nx));
        let ghost g3 = *self;
        let a = ok_id(self.mul(target, lsp));
        let b = ok_id(self.mul(omt, lsn));
        let s = ok_id(self.add(a, b));
        let res = self.neg(s);
        proof {
            lemma_scalar_kept(g1, *self, one, F32_ONE);
            lemma_log_sigmoid_kept(g2, *self, lsp, logits);
            lemma_log_sigmoid_kept(g3, *self, lsn, nx);
        }
        Ok(res)
    }

    /// KL divergence `p (ln p - ln q)`, elementwise (`xlogy` handles `p = 0`).
    pub fn kl_div(&mut self, p: NodeId, q: NodeId) -> (r: Result<NodeId, Error>)
        requires
            old(self).wf(), old(self).room(24), old(self).valid(p), old(self).valid(q),
            !old(self).dt(p).spec_is_complex()
                ==> old(self).dt(p).spec_is_float() && float_or_complex(old(self).dt(q)),
        ensures
            final(self).wf(), final(self).grew(*old(self), 24),
            r is Ok <==> !old(self).dt(p).spec_is_complex() && old(self).same_sd(p, q),
            r matches Ok(id) ==> final(self).valid(id) && final(self).sh(id) == old(self).sh(p)
                && final(self).dt(id) == old(self).dt(p),
            r matches Ok(id) ==> ({
                let g = *final(self);
                let pq = g.arg(g.arg(id, 1), 0);
                &&& g.node_is(id, Op::Add, seq![g.arg(id, 0), g.arg(id, 1)])
                &&& is_xlogy_of(g, g.arg(id, 0), p, p)
                &&& g.node_is(g.arg(id, 1), Op::Neg, seq![pq])
                &&& is_xlogy_of(g, pq, p, q)
            }),
    {
        let pp = self.xlogy(p, p)?;
        let ghost g1 = *self;
        let pq = self.xlogy(p, q)?;
        let ghost g2 = *self;
        let res = self.sub(pp, pq);
        proof {
            lemma_xlogy_kept(g1, *self, pp, p, p);
            lemma_xlogy_kept(g2, *self, pq, p, q);
        }
        res
    }

    /// Negative log-likelihood `-sum(target * log_probs)` over `axis`, per sample.
    pub fn nll_loss(&mut self, log_probs: NodeId, target: NodeId, axis: usize) -> (r: Result<NodeId, Error>)
        requires
            old(self).wf(), old(self).room(3), old(self).valid(log_probs), old(self).valid(target),
            old(self).same_sd(target, log_probs) && old(self).dt(target).spec_is_arith() && axis < old(self).sh(target).len()
                ==> old(self).dt(target).spec_is_signed() || old(self).dt(target).spec_is_complex(),
        ensures
            final(self).wf(), final(self).grew(*old(self), 3),
            r is Ok <==> old(self).same_sd(target, log_probs) && old(self).dt(target).spec_is_arith()
                && axis < old(self).sh(target).len(),
            r matches Ok(id) ==> final(self).valid(id)
                && final(self).sh(id) == old(self).sh(target).remove(axis as int)
                && final(self).dt(id) == old(self).dt(target),
            r matches Ok(id) ==> ({
                let g = *final(self);
                let s = g.arg(id, 0);
                &&& g.node_is(id, Op::Neg, seq![s])
                &&& g.node_is(s, Op::Sum { axis }, seq![g.arg(s, 0)])
                &&& g.node_is(g.arg(s, 0), Op::Mul, seq![target, log_probs])
            }),
    {
        let prod = self.mul(target, log_probs)?;
        let s = self.sum(prod, axis)?;
        Ok(self.neg(s))
    }

    /// Hinge loss `max(0, 1 - pred * target)`, elementwise.
    pub fn hinge_loss(&mut self, pred: NodeId, target: NodeId) -> (r: Result<NodeId, Error>)
        requires
            old(self).wf(), old(self).room(11), old(self).valid(pred), old(self).valid(target),
            old(self).same_sd(pred, target) && old(self).dt(pred).spec_is_arith()
                ==> old(self).dt(pred).spec_is_signed() || old(self).dt(pred).spec_is_complex(),
        ensures
            final(self).wf(), final(self).grew(*old(self), 11),
            r is Ok <==> old(self).same_sd(pred, target) && old(self).dt(pred).spec_is_numeric(),
            r matches Ok(id) ==> final(self).valid(id) && final(self).sh(id) == old(self).sh(pred)
                && final(self).dt(id) == old(self).dt(pred),
            r matches Ok(id) ==> ({
                let g = *final(self);
                let m = g.arg(id, 0);
                let pt = g.arg(g.arg(m, 1), 0);
                &&& g.node_is(id, Op::Max, seq![m, g.arg(id, 1)])
                &&& is_scalar_of(g, g.arg(id, 1), F32_ZERO)
                &&& g.node_is(m, Op::Add, seq![g.arg(m, 0), g.arg(m, 1)])
                &&& is_scalar_of(g, g.arg(m, 0), F32_ONE)
                &&& g.node_is(g.arg(m, 1), Op::Neg, seq![pt])
                &&& g.node_is(pt, Op::Mul, seq![pred, target])
            }),
    {
        let pt = self.mul(pred, target)?;
        let one = self.ones_like(pt);
        let ghost g1 = *self;
        let m = ok_id(self.sub(one, pt));
        let res = self.clamp_min(m, F32_ZERO);
        proof { lemma_scalar_kept(g1, *self, one, F32_ONE); }
        res
    }

    /// Cross-entropy over the class axis `axis`: `-sum(targets * log_softmax(logits))`,
    /// stable through log-sum-exp; `targets` are probabilities. Per example (axis reduced).
    #[verifier::spinoff_prover]
    #[verifier::rlimit(40)]
    pub fn cross_entropy(&mut self, logits: NodeId, targets: NodeId, axis: usize) -> (r: Result<NodeId, Error>)
        requires
            old(self).wf(), old(self).room(25), old(self).valid(logits), old(self).valid(targets),
            axis < old(self).sh(logits).len() ==> numel(old(self).sh(logits).remove(axis as int)) <= usize::MAX,
            axis < old(self).sh(logits).len() && old(self).dt(logits).spec_is_numeric()
                ==> old(self).dt(logits).spec_is_float(),
        ensures
            final(self).wf(), final(self).grew(*old(self), 25),
            r is Ok <==> axis < old(self).sh(logits).len() && old(self).dt(logits).spec_is_numeric()
                && old(self).same_sd(targets, logits),
            r matches Ok(id) ==> final(self).valid(id)
                && final(self).sh(id) == old(self).sh(logits).remove(axis as int)
                && final(self).dt(id) == old(self).dt(logits),
    {
        let full = self.shape(logits);
        let m = self.reduce_max(logits, axis)?;
        proof {
            assert(full@.remove(axis as int).insert(axis as int, 1) =~= full@.update(axis as int, 1));
        }
        let mb = ok_id(self.broadcast_back(m, &full, axis));
        let shifted = ok_id(self.sub(logits, mb));
        let e = self.exp(shifted);
        let se = ok_id(self.sum(e, axis));
        let lse = self.ln(se);
        let lb = ok_id(self.broadcast_back(lse, &full, axis));
        let logsm = ok_id(self.sub(shifted, lb));
        let prod = self.mul(targets, logsm)?;
        let s = ok_id(self.sum(prod, axis));
        Ok(self.neg(s))
    }
}

} // verus!
