//! Shape arithmetic: element counts, permutations, and broadcasting rules.

use vstd::prelude::*;

verus! {

/// Number of elements of a tensor of shape `s`.
pub open spec fn numel(s: Seq<usize>) -> int
    decreases s.len(),
{
    if s.len() == 0 { 1 } else { numel(s.drop_last()) * s.last() }
}

pub proof fn lemma_numel_nonneg(s: Seq<usize>)
    ensures numel(s) >= 0,
    decreases s.len(),
{
    if s.len() > 0 {
        lemma_numel_nonneg(s.drop_last());
        assert(numel(s.drop_last()) * s.last() >= 0) by (nonlinear_arith)
            requires numel(s.drop_last()) >= 0;
    }
}

pub proof fn lemma_numel_concat(a: Seq<usize>, b: Seq<usize>)
    ensures numel(a + b) == numel(a) * numel(b),
    decreases b.len(),
{
    if b.len() == 0 {
        assert(a + b =~= a);
    } else {
        lemma_numel_concat(a, b.drop_last());
        assert((a + b).drop_last() =~= a + b.drop_last());
        assert((a + b).last() == b.last());
        let x = numel(a);
        let y = numel(b.drop_last());
        assert(x * y * b.last() == x * (y * b.last())) by (nonlinear_arith);
    }
}

pub proof fn lemma_numel_single(v: usize)
    ensures numel(seq![v]) == v,
{
    assert(seq![v].drop_last() =~= Seq::<usize>::empty());
    assert(numel(Seq::<usize>::empty()) == 1);
    assert(numel(seq![v]) == numel(seq![v].drop_last()) * v);
}

/// Inserting or removing a size-1 axis keeps the element count.
pub proof fn lemma_numel_insert_one(s: Seq<usize>, i: int)
    requires 0 <= i <= s.len(),
    ensures numel(s.insert(i, 1)) == numel(s),
{
    assert(s.insert(i, 1) =~= s.take(i) + seq![1usize] + s.skip(i));
    assert(s =~= s.take(i) + s.skip(i));
    lemma_numel_concat(s.take(i) + seq![1usize], s.skip(i));
    lemma_numel_concat(s.take(i), seq![1usize]);
    lemma_numel_concat(s.take(i), s.skip(i));
    lemma_numel_single(1);
}

pub proof fn lemma_numel_ones(n: nat)
    ensures numel(Seq::new(n, |i: int| 1usize)) == 1,
    decreases n,
{
    if n > 0 {
        lemma_numel_ones((n - 1) as nat);
        assert(Seq::new(n, |i: int| 1usize).drop_last() =~= Seq::new((n - 1) as nat, |i: int| 1usize));
    }
}

/// `numel(s)` if it fits in a `usize`, else `None`.
pub fn numel_checked(s: &Vec<usize>) -> (r: Option<usize>)
    ensures
        r matches Some(n) ==> n == numel(s@),
        r is None ==> numel(s@) > usize::MAX,
{
    let mut i: usize = 0;
    while i < s.len()
        invariant
            i <= s@.len(),
            forall|j: int| 0 <= j < i ==> s@[j] != 0,
        decreases s@.len() - i,
    {
        if s[i] == 0 {
            proof { lemma_numel_zero(s@, i as int); }
            return Some(0);
        }
        i = i + 1;
    }
    let mut acc: usize = 1;
    let mut i: usize = 0;
    while i < s.len()
        invariant
            i <= s@.len(),
            forall|j: int| 0 <= j < s@.len() ==> s@[j] != 0,
            acc as int == numel(s@.take(i as int)),
        decreases s@.len() - i,
    {
        assert(s@.take(i + 1).drop_last() =~= s@.take(i as int));
        match acc.checked_mul(s[i]) {
            Some(v) => {
                acc = v;
            },
            None => {
                proof { lemma_numel_grows(s@, (i + 1) as int); }
                return None;
            },
        }
        i = i + 1;
    }
    assert(s@.take(s@.len() as int) =~= s@);
    Some(acc)
}

pub proof fn lemma_numel_zero(s: Seq<usize>, i: int)
    requires 0 <= i < s.len(), s[i] == 0,
    ensures numel(s) == 0,
{
    assert(s =~= s.take(i) + seq![0usize] + s.skip(i + 1));
    lemma_numel_concat(s.take(i) + seq![0usize], s.skip(i + 1));
    lemma_numel_concat(s.take(i), seq![0usize]);
    lemma_numel_single(0);
    let x = numel(s.take(i));
    let y = numel(s.skip(i + 1));
    assert(x * 0 * y == 0) by (nonlinear_arith);
}

/// With no zero dims, the prefix product bounds the full product.
pub proof fn lemma_numel_grows(s: Seq<usize>, i: int)
    requires
        0 <= i <= s.len(),
        forall|j: int| 0 <= j < s.len() ==> s[j] != 0,
    ensures numel(s.take(i)) <= numel(s),
    decreases s.len() - i,
{
    if i < s.len() {
        lemma_numel_grows(s, i + 1);
        assert(s.take(i + 1).drop_last() =~= s.take(i));
        lemma_numel_nonneg(s.take(i));
        let x = numel(s.take(i));
        assert(x <= x * s[i]) by (nonlinear_arith) requires x >= 0, s[i] >= 1;
    } else {
        assert(s.take(i) =~= s);
    }
}

/// `perm` is a permutation of `0..rank`.
pub open spec fn is_perm(perm: Seq<usize>, rank: nat) -> bool {
    &&& perm.len() == rank
    &&& forall|i: int| 0 <= i < perm.len() ==> #[trigger] perm[i] < rank
    &&& forall|i: int, j: int| 0 <= i < perm.len() && 0 <= j < perm.len() && i != j ==> perm[i] != perm[j]
}

/// Whether `perm` is a permutation of `0..rank`.
pub fn check_perm(perm: &Vec<usize>, rank: usize) -> (b: bool)
    ensures b == is_perm(perm@, rank as nat),
{
    if perm.len() != rank {
        return false;
    }
    let mut seen: Vec<bool> = Vec::new();
    let mut k: usize = 0;
    while k < rank
        invariant
            k <= rank,
            seen@.len() == k,
            forall|j: int| 0 <= j < k ==> !seen@[j],
        decreases rank - k,
    {
        seen.push(false);
        k = k + 1;
    }
    let mut i: usize = 0;
    while i < perm.len()
        invariant
            perm@.len() == rank,
            seen@.len() == rank,
            i <= rank,
            forall|a: int| 0 <= a < i ==> #[trigger] perm@[a] < rank,
            forall|a: int, c: int| 0 <= a < i && 0 <= c < i && a != c ==> perm@[a] != perm@[c],
            forall|v: int| 0 <= v < rank ==> (#[trigger] seen@[v] <==> exists|a: int| 0 <= a < i && perm@[a] == v),
        decreases rank - i,
    {
        let p = perm[i];
        if p >= rank {
            return false;
        }
        if seen[p] {
            let ghost a = choose|a: int| 0 <= a < i && perm@[a] == p;
            assert(perm@[a] == perm@[i as int]);
            return false;
        }
        seen.set(p, true);
        i = i + 1;
        assert forall|v: int| 0 <= v < rank implies (#[trigger] seen@[v] <==> exists|a: int| 0 <= a < i && perm@[a] == v) by {
            if v == p {
                assert(perm@[i - 1] == v);
            } else {
                if seen@[v] {
                    let a = choose|a: int| 0 <= a < i - 1 && perm@[a] == v;
                    assert(0 <= a < i && perm@[a] == v);
                }
            }
        }
    }
    true
}

/// `from` broadcasts to `to` by expanding size-1 dims.
pub open spec fn expand_ok(from: Seq<usize>, to: Seq<usize>) -> bool {
    &&& from.len() == to.len()
    &&& forall|i: int| 0 <= i < from.len() ==> #[trigger] from[i] == to[i] || from[i] == 1
}

/// `s` left-padded with size-1 dims to rank `n` (unchanged if already that long).
pub open spec fn left_pad_ones(s: Seq<usize>, n: nat) -> Seq<usize> {
    if s.len() < n { Seq::new((n - s.len()) as nat, |i: int| 1usize) + s } else { s }
}

/// Identity permutation of `0..r` with axes `i` and `j` swapped.
pub open spec fn swap_perm(r: nat, i: int, j: int) -> Seq<usize> {
    Seq::new(r, |k: int| if k == i { j as usize } else if k == j { i as usize } else { k as usize })
}

/// `s` with entries `i` and `j` swapped.
pub open spec fn swap_dims(s: Seq<usize>, i: int, j: int) -> Seq<usize> {
    s.update(i, s[j]).update(j, s[i])
}

/// `n` ones.
pub open spec fn ones(n: nat) -> Seq<usize> {
    Seq::new(n, |i: int| 1usize)
}

/// A vector of `n` ones.
pub fn ones_vec(n: usize) -> (v: Vec<usize>)
    ensures v@ == ones(n as nat),
{
    let mut v: Vec<usize> = Vec::new();
    let mut k: usize = 0;
    while k < n
        invariant
            k <= n,
            v@ == ones(k as nat),
        decreases n - k,
    {
        v.push(1);
        k = k + 1;
        assert(v@ =~= ones(k as nat));
    }
    v
}

/// Lowering one dim lowers (or keeps) the element count.
pub proof fn lemma_numel_update_le(s: Seq<usize>, i: int, v: usize)
    requires 0 <= i < s.len(), v <= s[i],
    ensures numel(s.update(i, v)) <= numel(s),
{
    let t = s.update(i, v);
    assert(s =~= s.take(i) + seq![s[i]] + s.skip(i + 1));
    assert(t =~= s.take(i) + seq![v] + s.skip(i + 1));
    lemma_numel_concat(s.take(i) + seq![s[i]], s.skip(i + 1));
    lemma_numel_concat(s.take(i), seq![s[i]]);
    lemma_numel_concat(s.take(i) + seq![v], s.skip(i + 1));
    lemma_numel_concat(s.take(i), seq![v]);
    lemma_numel_single(s[i]);
    lemma_numel_single(v);
    lemma_numel_nonneg(s.take(i));
    lemma_numel_nonneg(s.skip(i + 1));
    let a = numel(s.take(i));
    let b = numel(s.skip(i + 1));
    assert(a * v * b <= a * s[i] * b) by (nonlinear_arith) requires a >= 0, b >= 0, v <= s[i];
}


/// Swapping two dims keeps the element count.
pub proof fn lemma_numel_swap(s: Seq<usize>, i: int, j: int)
    requires 0 <= i < s.len(), 0 <= j < s.len(),
    ensures numel(swap_dims(s, i, j)) == numel(s),
{
    if i == j {
        assert(swap_dims(s, i, j) =~= s);
    } else {
        let (a, b) = if i < j { (i, j) } else { (j, i) };
        let t = swap_dims(s, i, j);
        let p = s.take(a);
        let q = s.subrange(a + 1, b);
        let r = s.skip(b + 1);
        assert(s =~= p + seq![s[a]] + q + seq![s[b]] + r);
        assert(t =~= p + seq![s[b]] + q + seq![s[a]] + r);
        lemma_numel_concat(p + seq![s[a]] + q + seq![s[b]], r);
        lemma_numel_concat(p + seq![s[a]] + q, seq![s[b]]);
        lemma_numel_concat(p + seq![s[a]], q);
        lemma_numel_concat(p, seq![s[a]]);
        lemma_numel_concat(p + seq![s[b]] + q + seq![s[a]], r);
        lemma_numel_concat(p + seq![s[b]] + q, seq![s[a]]);
        lemma_numel_concat(p + seq![s[b]], q);
        lemma_numel_concat(p, seq![s[b]]);
        lemma_numel_single(s[a]);
        lemma_numel_single(s[b]);
        let np = numel(p);
        let nq = numel(q);
        let nr = numel(r);
        let x = s[a] as int;
        let y = s[b] as int;
        assert(np * x * nq * y * nr == np * y * nq * x * nr) by (nonlinear_arith);
    }
}


/// Inserting a dim `v` multiplies the element count by `v`.
pub proof fn lemma_numel_insert(s: Seq<usize>, i: int, v: usize)
    requires 0 <= i <= s.len(),
    ensures numel(s.insert(i, v)) == numel(s) * v,
{
    assert(s.insert(i, v) =~= s.take(i) + seq![v] + s.skip(i));
    assert(s =~= s.take(i) + s.skip(i));
    lemma_numel_concat(s.take(i) + seq![v], s.skip(i));
    lemma_numel_concat(s.take(i), seq![v]);
    lemma_numel_concat(s.take(i), s.skip(i));
    lemma_numel_single(v);
    let a = numel(s.take(i));
    let b = numel(s.skip(i));
    assert(a * v * b == a * b * v) by (nonlinear_arith);
}

/// Replacing dim `i` (size `k`) by `k * v` multiplies the element count by `v`.
pub proof fn lemma_numel_scale(s: Seq<usize>, i: int, v: usize)
    requires 0 <= i < s.len(), s[i] * v <= usize::MAX,
    ensures numel(s.update(i, (s[i] * v) as usize)) == numel(s) * v,
{
    let t = s.update(i, (s[i] * v) as usize);
    assert(s =~= s.take(i) + seq![s[i]] + s.skip(i + 1));
    assert(t =~= s.take(i) + seq![(s[i] * v) as usize] + s.skip(i + 1));
    lemma_numel_concat(s.take(i) + seq![s[i]], s.skip(i + 1));
    lemma_numel_concat(s.take(i), seq![s[i]]);
    lemma_numel_concat(s.take(i) + seq![(s[i] * v) as usize], s.skip(i + 1));
    lemma_numel_concat(s.take(i), seq![(s[i] * v) as usize]);
    lemma_numel_single(s[i]);
    lemma_numel_single((s[i] * v) as usize);
    let a = numel(s.take(i));
    let b = numel(s.skip(i + 1));
    assert(a * (s[i] * v) * b == a * s[i] * b * v) by (nonlinear_arith);
}


/// Whether two shapes are equal.
pub fn shapes_equal(a: &Vec<usize>, b: &Vec<usize>) -> (r: bool)
    ensures r == (a@ == b@),
{
    if a.len() != b.len() {
        return false;
    }
    let mut i: usize = 0;
    while i < a.len()
        invariant i <= a@.len(), a@.len() == b@.len(), forall|k: int| 0 <= k < i ==> a@[k] == b@[k],
        decreases a@.len() - i,
    {
        if a[i] != b[i] {
            return false;
        }
        i = i + 1;
    }
    assert(a@ =~= b@);
    true
}

} // verus!
