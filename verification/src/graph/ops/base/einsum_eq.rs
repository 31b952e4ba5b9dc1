//! Einstein-summation equations: splitting `ins->out` into subscript groups, the implicit
//! output (labels seen exactly once, ascending), and the rewriting of `...` into fresh
//! letters for the batch dims.

use vstd::prelude::*;
use crate::text::{split_on, trim, split_chars, trim_chars};

verus! {

/// `->` starts at `p`.
pub open spec fn arrow_at(e: Seq<char>, p: int) -> bool {
    0 <= p && p + 1 < e.len() && e[p] == '-' && e[p + 1] == '>'
}

/// The first `->` of `e`, if any.
#[verifier::opaque]
pub open spec fn first_arrow(e: Seq<char>) -> Option<int> {
    if exists|p: int| arrow_at(e, p) {
        Some(choose|p: int| arrow_at(e, p) && forall|q: int| 0 <= q < p ==> !arrow_at(e, q))
    } else {
        None
    }
}

/// The input side of `e`: everything before the first `->`.
pub open spec fn lhs_of(e: Seq<char>) -> Seq<char> {
    match first_arrow(e) {
        Some(p) => e.take(p),
        None => e,
    }
}

/// The raw output side of `e` (after the first `->`), if `e` has one.
pub open spec fn rhs_of(e: Seq<char>) -> Option<Seq<char>> {
    match first_arrow(e) {
        Some(p) => Some(e.skip(p + 2)),
        None => None,
    }
}

/// The trimmed subscript groups of the input side.
pub open spec fn groups_of(e: Seq<char>) -> Seq<Seq<char>> {
    split_on(lhs_of(e), ',').map_values(|g: Seq<char>| trim(g))
}

/// How many times `c` occurs in `s`.
pub open spec fn count_in(s: Seq<char>, c: char) -> nat
    decreases s.len(),
{
    if s.len() == 0 { 0 } else { count_in(s.drop_last(), c) + if s.last() == c { 1nat } else { 0nat } }
}

/// `o` lists, ascending and without repeats, exactly the chars occurring once in `all`.
pub open spec fn once_sorted(o: Seq<char>, all: Seq<char>) -> bool {
    &&& forall|i: int, j: int| 0 <= i < j < o.len() ==> (o[i] as int) < (o[j] as int)
    &&& forall|c: char| o.contains(c) <==> count_in(all, c) == 1
}

/// The chars occurring once in `all`, ascending.
pub open spec fn once_of(all: Seq<char>) -> Seq<char> {
    choose|o: Seq<char>| once_sorted(o, all)
}

/// The output labels of `e`: the trimmed explicit output, or the implicit one.
pub open spec fn out_of(e: Seq<char>) -> Seq<char> {
    match rhs_of(e) {
        Some(r) => trim(r),
        None => once_of(groups_of(e).flatten_alt()),
    }
}

/// `"..."` starts at `p` in `s`.
pub open spec fn dots_at(s: Seq<char>, p: int) -> bool {
    0 <= p && p + 2 < s.len() && s[p] == '.' && s[p + 1] == '.' && s[p + 2] == '.'
}

pub open spec fn has_dots(s: Seq<char>) -> bool {
    exists|p: int| dots_at(s, p)
}

/// ASCII letter.
pub open spec fn is_alpha(c: char) -> bool {
    (65 <= c as int <= 90) || (97 <= c as int <= 122)
}

/// Number of ASCII letters in `s`.
pub open spec fn alpha_count(s: Seq<char>) -> nat
    decreases s.len(),
{
    if s.len() == 0 { 0 } else { alpha_count(s.drop_last()) + if is_alpha(s.last()) { 1nat } else { 0nat } }
}

/// The ASCII letters of `s`, in order.
pub open spec fn alphas(s: Seq<char>) -> Seq<char>
    decreases s.len(),
{
    if s.len() == 0 { s } else { if is_alpha(s.last()) { alphas(s.drop_last()).push(s.last()) } else { alphas(s.drop_last()) } }
}

/// Letter `i` of `A..Z` followed by `a..z`.
pub open spec fn letter(i: int) -> char {
    if i < 26 { (65 + i) as char } else { (97 + (i - 26)) as char }
}

/// The letters of `A..Z a..z` (in that order) among the first `k` that `e` does not use.
pub open spec fn fresh_upto(e: Seq<char>, k: int) -> Seq<char>
    decreases k,
{
    if k <= 0 { Seq::empty() } else if e.contains(letter(k - 1)) { fresh_upto(e, k - 1) } else { fresh_upto(e, k - 1).push(letter(k - 1)) }
}

/// Every `...` of `s` replaced by `rep`, scanning left to right.
pub open spec fn replace_dots(s: Seq<char>, rep: Seq<char>) -> Seq<char>
    decreases s.len(),
{
    if s.len() < 3 {
        s
    } else if s[0] == '.' && s[1] == '.' && s[2] == '.' {
        rep + replace_dots(s.skip(3), rep)
    } else {
        seq![s[0]] + replace_dots(s.skip(1), rep)
    }
}

/// `parts` joined with `sep` between neighbours.
pub open spec fn join_with(parts: Seq<Seq<char>>, sep: char) -> Seq<char>
    decreases parts.len(),
{
    if parts.len() == 0 {
        Seq::empty()
    } else if parts.len() == 1 {
        parts[0]
    } else {
        join_with(parts.drop_last(), sep).push(sep) + parts.last()
    }
}

/// The widest ellipsis over the first `k` parts: rank minus explicit letters, over the
/// parts holding `...`.
pub open spec fn ell_upto(parts: Seq<Seq<char>>, ranks: Seq<usize>, k: int) -> int
    decreases k,
{
    if k <= 0 {
        0
    } else {
        let prev = ell_upto(parts, ranks, k - 1);
        if has_dots(parts[k - 1]) && ranks[k - 1] - alpha_count(parts[k - 1]) > prev {
            ranks[k - 1] - alpha_count(parts[k - 1])
        } else {
            prev
        }
    }
}

/// Whether the ellipsis of equation `e` over operands of ranks `ranks` can be expanded:
/// one rank per part, each part with `...` holding no more letters than its rank, and
/// enough unused letters for the widest ellipsis.
pub open spec fn ellipsis_ok(e: Seq<char>, ranks: Seq<usize>) -> bool {
    let parts = groups_of(e);
    &&& parts.len() == ranks.len()
    &&& forall|i: int| 0 <= i < parts.len() && has_dots(parts[i]) ==> alpha_count(parts[i]) <= ranks[i]
    &&& ell_upto(parts, ranks, parts.len() as int) <= fresh_upto(e, 52).len()
}

/// The equation `e` with `...` written out as fresh letters (batch dims, right-aligned
/// across operands) and the output made explicit.
pub open spec fn expand_spec(e: Seq<char>, ranks: Seq<usize>) -> Seq<char> {
    let parts = groups_of(e);
    let ell = ell_upto(parts, ranks, parts.len() as int);
    let batch = fresh_upto(e, 52).take(ell);
    let ins = Seq::new(parts.len(), |i: int|
        if has_dots(parts[i]) { replace_dots(parts[i], batch.skip(ell - (ranks[i] - alpha_count(parts[i])))) } else { parts[i] });
    let out = match rhs_of(e) {
        Some(o) => replace_dots(trim(o), batch),
        None => batch + once_of(alphas(parts.flatten_alt())),
    };
    join_with(ins, ',') + seq!['-', '>'] + out
}

/// Two ascending repeat-free sequences with the same members are equal.
proof fn lemma_sorted_unique(a: Seq<char>, b: Seq<char>)
    requires
        forall|i: int, j: int| 0 <= i < j < a.len() ==> (a[i] as int) < (a[j] as int),
        forall|i: int, j: int| 0 <= i < j < b.len() ==> (b[i] as int) < (b[j] as int),
        forall|c: char| a.contains(c) <==> b.contains(c),
    ensures a == b,
    decreases a.len() + b.len(),
{
    if a.len() == 0 {
        if b.len() > 0 {
            assert(b.contains(b[0]));
        }
        assert(a =~= b);
    } else if b.len() == 0 {
        assert(a.contains(a[0]));
    } else {
        let x = a.last();
        let y = b.last();
        assert(a.contains(x));
        assert(b.contains(y));
        let i = choose|i: int| 0 <= i < b.len() && b[i] == x;
        let j = choose|j: int| 0 <= j < a.len() && a[j] == y;
        assert(x == y) by {
            if (x as int) < (y as int) {
                assert(j < a.len() - 1 ==> (a[j] as int) < (a[a.len() - 1] as int));
            } else if (y as int) < (x as int) {
                assert(i < b.len() - 1 ==> (b[i] as int) < (b[b.len() - 1] as int));
            }
        }
        let a2 = a.drop_last();
        let b2 = b.drop_last();
        assert forall|c: char| a2.contains(c) <==> b2.contains(c) by {
            if a2.contains(c) {
                let k = choose|k: int| 0 <= k < a2.len() && a2[k] == c;
                assert(a.contains(c)) by { assert(a[k] == c); }
                let m = choose|m: int| 0 <= m < b.len() && b[m] == c;
                assert((c as int) < (x as int));
                if m == b.len() - 1 {
                    assert(false);
                }
                assert(b2[m] == c);
            }
            if b2.contains(c) {
                let k = choose|k: int| 0 <= k < b2.len() && b2[k] == c;
                assert(b.contains(c)) by { assert(b[k] == c); }
                let m = choose|m: int| 0 <= m < a.len() && a[m] == c;
                assert((c as int) < (y as int));
                if m == a.len() - 1 {
                    assert(false);
                }
                assert(a2[m] == c);
            }
        }
        lemma_sorted_unique(a2, b2);
        assert(a =~= a2.push(x));
        assert(b =~= b2.push(y));
    }
}

/// How many times `c` occurs in `s`.
fn count_char(s: &Vec<char>, c: char) -> (n: usize)
    ensures n == count_in(s@, c),
{
    let mut n: usize = 0;
    let mut i: usize = 0;
    while i < s.len()
        invariant i <= s@.len(), n == count_in(s@.take(i as int), c), n <= i,
        decreases s@.len() - i,
    {
        assert(s@.take(i + 1).drop_last() =~= s@.take(i as int));
        if s[i] == c {
            n = n + 1;
        }
        i = i + 1;
    }
    assert(s@.take(s@.len() as int) =~= s@);
    n
}

/// The chars occurring once in `all`, ascending.
pub fn once_ascending(all: &Vec<char>) -> (o: Vec<char>)
    ensures o@ == once_of(all@), once_sorted(o@, all@),
{
    let mut o: Vec<char> = Vec::new();
    let mut last: Option<char> = None;
    let mut floor: u32 = 0;
    loop
        invariant
            floor <= 0x11_0000,
            last matches Some(l) ==> floor as int == l as int + 1,
            last is None ==> floor == 0,
            forall|i: int, j: int| 0 <= i < j < o@.len() ==> (o@[i] as int) < (o@[j] as int),
            forall|i: int| 0 <= i < o@.len() ==> count_in(all@, #[trigger] o@[i]) == 1
                && (last matches Some(l) && (o@[i] as int) <= (l as int)),
            last is None ==> o@.len() == 0,
            last matches Some(l) ==> o@.len() > 0 && o@.last() == l,
            forall|c: char| (last matches Some(l) && (c as int) <= (l as int)) && count_in(all@, c) == 1 ==> o@.contains(c),
        ensures once_sorted(o@, all@),
        decreases 0x11_0000 - floor,
    {
        let mut best: Option<char> = None;
        let mut i: usize = 0;
        while i < all.len()
            invariant
                i <= all@.len(),
                best matches Some(b) ==> count_in(all@, b) == 1 && (last matches Some(l) ==> (l as int) < (b as int)),
                forall|k: int| 0 <= k < i && count_in(all@, all@[k]) == 1
                    && (last matches Some(l) ==> (l as int) < (all@[k] as int))
                    ==> (best matches Some(b) && (b as int) <= (all@[k] as int)),
            decreases all@.len() - i,
        {
            let c = all[i];
            let above = match last {
                None => true,
                Some(l) => l < c,
            };
            if above && count_char(all, c) == 1 {
                let better = match best {
                    None => true,
                    Some(b) => c < b,
                };
                if better {
                    best = Some(c);
                }
            }
            i = i + 1;
        }
        match best {
            None => {
                assert forall|c: char| o@.contains(c) <==> count_in(all@, c) == 1 by {
                    if count_in(all@, c) == 1 && !o@.contains(c) {
                        lemma_count_pos_in(all@, c);
                        let k = choose|k: int| 0 <= k < all@.len() && all@[k] == c;
                        assert(count_in(all@, all@[k]) == 1);
                    }
                    if o@.contains(c) {
                        let k = choose|k: int| 0 <= k < o@.len() && o@[k] == c;
                        assert(count_in(all@, o@[k]) == 1);
                    }
                }
                break;
            },
            Some(b) => {
                let ghost old_o = o@;
                o.push(b);
                proof {
                    assert forall|c: char| (c as int) <= (b as int) && count_in(all@, c) == 1 implies o@.contains(c) by {
                        if last matches Some(l) && (c as int) <= (l as int) {
                            assert(old_o.contains(c));
                            let k = choose|k: int| 0 <= k < old_o.len() && old_o[k] == c;
                            assert(o@[k] == c);
                        } else if c != b {
                            lemma_count_pos_in(all@, c);
                            let k = choose|k: int| 0 <= k < all@.len() && all@[k] == c;
                            assert((b as int) <= (all@[k] as int));
                        } else {
                            assert(o@[o@.len() - 1] == b);
                        }
                    }
                }
                let code = crate::text::char_code(b);
                last = Some(b);
                floor = code + 1;
            },
        }
    }
    proof {
        let ch = once_of(all@);
        assert(once_sorted(ch, all@));
        lemma_sorted_unique(o@, ch);
    }
    o
}

/// A char occurring in `s` sits at some index.
proof fn lemma_count_pos_in(s: Seq<char>, c: char)
    requires count_in(s, c) >= 1,
    ensures exists|k: int| 0 <= k < s.len() && s[k] == c,
    decreases s.len(),
{
    if s.last() == c {
        assert(s[s.len() - 1] == c);
    } else {
        lemma_count_pos_in(s.drop_last(), c);
        let k = choose|k: int| 0 <= k < s.drop_last().len() && s.drop_last()[k] == c;
        assert(s[k] == c);
    }
}


proof fn lemma_first_arrow_is(e: Seq<char>, p: int)
    requires arrow_at(e, p), forall|q: int| 0 <= q < p ==> !arrow_at(e, q),
    ensures first_arrow(e) == Some(p),
{
    reveal(first_arrow);
    let w = choose|w: int| arrow_at(e, w) && forall|q: int| 0 <= q < w ==> !arrow_at(e, q);
    if w < p {
        assert(!arrow_at(e, w));
    } else if w > p {
        assert(!arrow_at(e, p));
    }
}

proof fn lemma_first_arrow_none(e: Seq<char>)
    requires forall|q: int| !arrow_at(e, q),
    ensures first_arrow(e) is None,
{
    reveal(first_arrow);
}

/// The index of the first `->` of `e`.
pub fn find_arrow(e: &Vec<char>) -> (r: Option<usize>)
    ensures
        r matches Some(p) ==> first_arrow(e@) == Some(p as int) && arrow_at(e@, p as int),
        r is None ==> first_arrow(e@) is None,
{
    let mut p: usize = 0;
    while p < e.len() && e.len() - p > 1
        invariant p <= e@.len(), forall|q: int| 0 <= q < p ==> !arrow_at(e@, q),
        decreases e@.len() - p,
    {
        if e[p] == '-' && e[p + 1] == '>' {
            proof { lemma_first_arrow_is(e@, p as int); }
            return Some(p);
        }
        p = p + 1;
    }
    proof {
        assert forall|q: int| !arrow_at(e@, q) by {}
        lemma_first_arrow_none(e@);
    }
    None
}

/// Whether `s` holds `...`.
pub fn find_dots(s: &Vec<char>) -> (b: bool)
    ensures b == has_dots(s@),
{
    let mut p: usize = 0;
    while p < s.len() && s.len() - p > 2
        invariant p <= s@.len(), forall|q: int| 0 <= q < p ==> !dots_at(s@, q),
        decreases s@.len() - p,
    {
        if s[p] == '.' && s[p + 1] == '.' && s[p + 2] == '.' {
            assert(dots_at(s@, p as int));
            return true;
        }
        p = p + 1;
    }
    assert forall|q: int| !dots_at(s@, q) by {}
    false
}

/// Whether `c` is an ASCII letter.
pub fn char_is_alpha(c: char) -> (b: bool)
    ensures b == is_alpha(c),
{
    ('A' <= c && c <= 'Z') || ('a' <= c && c <= 'z')
}

/// The ASCII letters of `s`, in order.
pub fn alpha_chars(s: &Vec<char>) -> (a: Vec<char>)
    ensures a@ == alphas(s@), a@.len() == alpha_count(s@),
{
    let mut a: Vec<char> = Vec::new();
    let mut i: usize = 0;
    while i < s.len()
        invariant i <= s@.len(), a@ == alphas(s@.take(i as int)), a@.len() == alpha_count(s@.take(i as int)),
        decreases s@.len() - i,
    {
        assert(s@.take(i + 1).drop_last() =~= s@.take(i as int));
        if char_is_alpha(s[i]) {
            a.push(s[i]);
        }
        i = i + 1;
    }
    assert(s@.take(s@.len() as int) =~= s@);
    a
}

/// Every `...` of `s` replaced by `rep`.
pub fn replace_dots_in(s: &Vec<char>, rep: &Vec<char>) -> (t: Vec<char>)
    ensures t@ == replace_dots(s@, rep@),
{
    let mut t: Vec<char> = Vec::new();
    let mut i: usize = 0;
    assert(s@.skip(0) =~= s@);
    while i < s.len()
        invariant i <= s@.len(), t@ + replace_dots(s@.skip(i as int), rep@) == replace_dots(s@, rep@),
        decreases s@.len() - i,
    {
        let ghost rest = s@.skip(i as int);
        if s.len() - i > 2 && s[i] == '.' && s[i + 1] == '.' && s[i + 2] == '.' {
            let mut k: usize = 0;
            let ghost t0 = t@;
            while k < rep.len()
                invariant k <= rep@.len(), t@ == t0 + rep@.take(k as int),
                decreases rep@.len() - k,
            {
                t.push(rep[k]);
                k = k + 1;
                assert(t@ =~= t0 + rep@.take(k as int));
            }
            assert(rep@.take(rep@.len() as int) =~= rep@);
            assert(rest.skip(3) =~= s@.skip(i + 3));
            assert(t@ + replace_dots(s@.skip(i + 3), rep@) =~= t0 + replace_dots(rest, rep@));
            i = i + 3;
        } else {
            let ghost t0 = t@;
            t.push(s[i]);
            proof {
                if rest.len() < 3 {
                    assert(replace_dots(rest, rep@) == rest);
                    assert(s@.skip(i + 1) =~= rest.skip(1));
                    assert(replace_dots(rest.skip(1), rep@) == rest.skip(1));
                    assert(t@ + s@.skip(i + 1) =~= t0 + rest);
                } else {
                    assert(rest.skip(1) =~= s@.skip(i + 1));
                    assert(t@ + replace_dots(s@.skip(i + 1), rep@) =~= t0 + replace_dots(rest, rep@));
                }
            }
            i = i + 1;
        }
    }
    assert(s@.skip(s@.len() as int) =~= Seq::<char>::empty());
    assert(t@ =~= replace_dots(s@, rep@));
    t
}

/// The letters of `A..Z a..z` that `e` does not use, in that order.
pub fn fresh_letters(e: &Vec<char>) -> (f: Vec<char>)
    ensures f@ == fresh_upto(e@, 52),
{
    let mut f: Vec<char> = Vec::new();
    let mut k: u8 = 0;
    while k < 52
        invariant k <= 52, f@ == fresh_upto(e@, k as int),
        decreases 52 - k,
    {
        let c: char = if k < 26 { (65u8 + k) as char } else { (97u8 + (k - 26)) as char };
        assert(c == letter(k as int));
        let mut used = false;
        let mut i: usize = 0;
        while i < e.len()
            invariant i <= e@.len(), used == (exists|j: int| 0 <= j < i && e@[j] == c),
            decreases e@.len() - i,
        {
            if e[i] == c {
                used = true;
            }
            i = i + 1;
        }
        if !used {
            f.push(c);
        }
        k = k + 1;
    }
    f
}

/// `parts` joined with `sep`.
pub fn join_parts(parts: &Vec<Vec<char>>, sep: char) -> (j: Vec<char>)
    ensures j@ == join_with(parts@.map_values(|p: Vec<char>| p@), sep),
{
    let ghost ps = parts@.map_values(|p: Vec<char>| p@);
    let mut j: Vec<char> = Vec::new();
    let mut i: usize = 0;
    while i < parts.len()
        invariant i <= parts@.len(), ps == parts@.map_values(|p: Vec<char>| p@), ps.len() == parts@.len(),
            j@ == join_with(ps.take(i as int), sep),
        decreases parts@.len() - i,
    {
        let ghost j0 = j@;
        if i > 0 {
            j.push(sep);
        }
        let mut k: usize = 0;
        while k < parts[i].len()
            invariant i < parts@.len(), k <= parts@[i as int]@.len(), j@ == (if i > 0 { j0.push(sep) } else { j0 }) + parts@[i as int]@.take(k as int),
            decreases parts@[i as int]@.len() - k,
        {
            j.push(parts[i][k]);
            k = k + 1;
            assert(j@ =~= (if i > 0 { j0.push(sep) } else { j0 }) + parts@[i as int]@.take(k as int));
        }
        assert(parts@[i as int]@.take(parts@[i as int]@.len() as int) =~= parts@[i as int]@);
        assert(ps.take(i + 1).drop_last() =~= ps.take(i as int));
        if i == 0 {
            assert(ps.take(1) =~= seq![ps[0]]);
            assert(j@ =~= join_with(ps.take(1), sep));
        }
        i = i + 1;
    }
    assert(ps.take(parts@.len() as int) =~= ps);
    j
}


/// Append `b` to `a`.
pub fn append_chars(a: &mut Vec<char>, b: &Vec<char>)
    ensures final(a)@ == old(a)@ + b@,
{
    let mut k: usize = 0;
    while k < b.len()
        invariant k <= b@.len(), a@ == old(a)@ + b@.take(k as int),
        decreases b@.len() - k,
    {
        a.push(b[k]);
        k = k + 1;
        assert(a@ =~= old(a)@ + b@.take(k as int));
    }
    assert(b@.take(b@.len() as int) =~= b@);
}

/// The chars of `s` from `lo` on.
fn chars_from(s: &Vec<char>, lo: usize) -> (t: Vec<char>)
    requires lo <= s@.len(),
    ensures t@ == s@.skip(lo as int),
{
    let mut t: Vec<char> = Vec::new();
    let mut k: usize = lo;
    while k < s.len()
        invariant lo <= k <= s@.len(), t@ == s@.subrange(lo as int, k as int),
        decreases s@.len() - k,
    {
        t.push(s[k]);
        k = k + 1;
        assert(t@ =~= s@.subrange(lo as int, k as int));
    }
    assert(s@.subrange(lo as int, s@.len() as int) =~= s@.skip(lo as int));
    t
}

/// The first `n` chars of `s`.
fn chars_to(s: &Vec<char>, n: usize) -> (t: Vec<char>)
    requires n <= s@.len(),
    ensures t@ == s@.take(n as int),
{
    let mut t: Vec<char> = Vec::new();
    let mut k: usize = 0;
    while k < n
        invariant k <= n, n <= s@.len(), t@ == s@.take(k as int),
        decreases n - k,
    {
        t.push(s[k]);
        k = k + 1;
        assert(t@ =~= s@.take(k as int));
    }
    t
}

/// The input side of `e` and its trimmed output side, if any.
#[verifier::spinoff_prover]
fn split_arrow(e: &Vec<char>) -> (r: (Vec<char>, Option<Vec<char>>))
    ensures
        r.0@ == lhs_of(e@),
        r.1 matches Some(o) ==> rhs_of(e@) matches Some(q) && o@ == trim(q),
        r.1 is None ==> rhs_of(e@) is None,
{
    match find_arrow(e) {
        Some(p) => {
            let n = e.len();
            assert(arrow_at(e@, p as int));
            assert(p + 2 <= n);
            let l = chars_to(e, p);
            let rr = chars_from(e, p + 2);
            (l, Some(trim_chars(&rr)))
        },
        None => {
            assert(e@.take(e@.len() as int) =~= e@);
            (chars_to(e, e.len()), None)
        },
    }
}

/// Split equation `e` into its trimmed input groups and its trimmed explicit output.
#[verifier::spinoff_prover]
pub fn parse_equation(e: &Vec<char>) -> (r: (Vec<Vec<char>>, Option<Vec<char>>))
    ensures
        r.0@.len() == groups_of(e@).len(),
        forall|k: int| 0 <= k < r.0@.len() ==> (#[trigger] r.0@[k])@ == groups_of(e@)[k],
        r.1 matches Some(o) ==> rhs_of(e@) matches Some(q) && o@ == trim(q),
        r.1 is None ==> rhs_of(e@) is None,
{
    let (lhs, rhs) = split_arrow(e);
    let raw = split_chars(&lhs, ',');
    let ghost sp = split_on(lhs@, ',');
    let mut groups: Vec<Vec<char>> = Vec::new();
    let mut i: usize = 0;
    while i < raw.len()
        invariant
            i <= raw@.len(), raw@.len() == sp.len(),
            forall|k: int| 0 <= k < raw@.len() ==> (#[trigger] raw@[k])@ == sp[k],
            groups@.len() == i,
            forall|k: int| 0 <= k < i ==> (#[trigger] groups@[k])@ == trim(sp[k]),
        decreases raw@.len() - i,
    {
        groups.push(trim_chars(&raw[i]));
        i = i + 1;
    }
    (groups, rhs)
}

/// The widest ellipsis over `parts` (operand ranks `ranks`); `None` when a part with `...`
/// holds more letters than its rank.
fn widest_ellipsis(parts: &Vec<Vec<char>>, ranks: &Vec<usize>, Ghost(ps): Ghost<Seq<Seq<char>>>) -> (r: Option<usize>)
    requires
        parts@.len() == ranks@.len(), parts@.len() == ps.len(),
        forall|k: int| 0 <= k < ps.len() ==> (#[trigger] parts@[k])@ == ps[k],
    ensures
        r is Some <==> forall|k: int| 0 <= k < ps.len() && has_dots(ps[k]) ==> alpha_count(ps[k]) <= ranks@[k],
        r matches Some(ell) ==> ell == ell_upto(ps, ranks@, ps.len() as int),
{
    let mut ell: usize = 0;
    let mut i: usize = 0;
    while i < parts.len()
        invariant
            i <= parts@.len(), parts@.len() == ranks@.len(), parts@.len() == ps.len(),
            forall|k: int| 0 <= k < ps.len() ==> (#[trigger] parts@[k])@ == ps[k],
            ell == ell_upto(ps, ranks@, i as int),
            forall|k: int| 0 <= k < i && has_dots(ps[k]) ==> alpha_count(ps[k]) <= ranks@[k],
        decreases parts@.len() - i,
    {
        assert(parts@[i as int]@ == ps[i as int]);
        if find_dots(&parts[i]) {
            let a = alpha_chars(&parts[i]).len();
            if ranks[i] < a {
                return None;
            }
            if ranks[i] - a > ell {
                ell = ranks[i] - a;
            }
        }
        i = i + 1;
    }
    Some(ell)
}

/// Each part with its `...` replaced by the right-aligned tail of `batch`, and all parts'
/// chars in order.
fn expand_parts(parts: &Vec<Vec<char>>, ranks: &Vec<usize>, batch: &Vec<char>, ell: usize,
    Ghost(ps): Ghost<Seq<Seq<char>>>) -> (r: (Vec<Vec<char>>, Vec<char>))
    requires
        parts@.len() == ranks@.len(), parts@.len() == ps.len(),
        forall|k: int| 0 <= k < ps.len() ==> (#[trigger] parts@[k])@ == ps[k],
        ell == ell_upto(ps, ranks@, ps.len() as int), batch@.len() == ell,
        forall|k: int| 0 <= k < ps.len() && has_dots(ps[k]) ==> alpha_count(ps[k]) <= ranks@[k],
    ensures
        r.0@.map_values(|p: Vec<char>| p@) == Seq::new(ps.len(), |k: int|
            if has_dots(ps[k]) { replace_dots(ps[k], batch@.skip(ell - (ranks@[k] - alpha_count(ps[k])))) } else { ps[k] }),
        r.1@ == ps.flatten_alt(),
{
    let mut ins: Vec<Vec<char>> = Vec::new();
    let mut all: Vec<char> = Vec::new();
    let mut i: usize = 0;
    while i < parts.len()
        invariant
            i <= parts@.len(), parts@.len() == ranks@.len(), parts@.len() == ps.len(),
            forall|k: int| 0 <= k < ps.len() ==> (#[trigger] parts@[k])@ == ps[k],
            ell == ell_upto(ps, ranks@, ps.len() as int), batch@.len() == ell,
            forall|k: int| 0 <= k < ps.len() && has_dots(ps[k]) ==> alpha_count(ps[k]) <= ranks@[k],
            ins@.len() == i,
            forall|k: int| 0 <= k < i ==> (#[trigger] ins@[k])@ == (if has_dots(ps[k]) {
                replace_dots(ps[k], batch@.skip(ell - (ranks@[k] - alpha_count(ps[k])))) } else { ps[k] }),
            all@ == ps.take(i as int).flatten_alt(),
        decreases parts@.len() - i,
    {
        assert(parts@[i as int]@ == ps[i as int]);
        assert(ps.take(i + 1).drop_last() =~= ps.take(i as int));
        append_chars(&mut all, &parts[i]);
        if find_dots(&parts[i]) {
            let a = alpha_chars(&parts[i]).len();
            let er = ranks[i] - a;
            proof { lemma_ell_bound(ps, ranks@, i as int, ps.len() as int); }
            let suffix = chars_from(batch, ell - er);
            ins.push(replace_dots_in(&parts[i], &suffix));
        } else {
            ins.push(chars_from(&parts[i], 0));
            assert(ps[i as int].skip(0) =~= ps[i as int]);
        }
        i = i + 1;
    }
    assert(ps.take(ps.len() as int) =~= ps);
    let ghost want = Seq::new(ps.len(), |k: int|
        if has_dots(ps[k]) { replace_dots(ps[k], batch@.skip(ell - (ranks@[k] - alpha_count(ps[k])))) } else { ps[k] });
    assert(ins@.map_values(|p: Vec<char>| p@) =~= want);
    (ins, all)
}

/// Rewrite the `...` of equation `e` (operand ranks `ranks`) into fresh letters; `None` when
/// the ellipsis cannot be expanded.
#[verifier::spinoff_prover]
pub fn expand_ellipsis(e: &Vec<char>, ranks: &Vec<usize>) -> (r: Option<Vec<char>>)
    ensures
        r is Some <==> ellipsis_ok(e@, ranks@),
        r matches Some(v) ==> v@ == expand_spec(e@, ranks@),
{
    let (parts, out) = parse_equation(e);
    let ghost ps = groups_of(e@);
    if parts.len() != ranks.len() {
        return None;
    }
    let ell = match widest_ellipsis(&parts, ranks, Ghost(ps)) {
        Some(w) => w,
        None => {
            return None;
        },
    };
    let fresh = fresh_letters(e);
    if fresh.len() < ell {
        return None;
    }
    let batch = chars_to(&fresh, ell);
    let (ins, all) = expand_parts(&parts, ranks, &batch, ell, Ghost(ps));
    let new_out = match out {
        Some(o) => replace_dots_in(&o, &batch),
        None => {
            let letters = alpha_chars(&all);
            let once = once_ascending(&letters);
            let mut v = chars_from(&batch, 0);
            append_chars(&mut v, &once);
            assert(batch@.skip(0) =~= batch@);
            v
        },
    };
    let mut res = join_parts(&ins, ',');
    res.push('-');
    res.push('>');
    append_chars(&mut res, &new_out);
    assert(res@ =~= join_with(ins@.map_values(|p: Vec<char>| p@), ',') + seq!['-', '>'] + new_out@);
    Some(res)
}

/// Each part's ellipsis is at most the widest one.
proof fn lemma_ell_bound(ps: Seq<Seq<char>>, ranks: Seq<usize>, i: int, k: int)
    requires 0 <= i < k <= ps.len(), k <= ranks.len(), has_dots(ps[i]), alpha_count(ps[i]) <= ranks[i],
    ensures ranks[i] - alpha_count(ps[i]) <= ell_upto(ps, ranks, k), ell_upto(ps, ranks, k) >= 0,
    decreases k,
{
    if k - 1 > i {
        lemma_ell_bound(ps, ranks, i, k - 1);
    } else {
        lemma_ell_nonneg(ps, ranks, k - 1);
    }
}

proof fn lemma_ell_nonneg(ps: Seq<Seq<char>>, ranks: Seq<usize>, k: int)
    ensures ell_upto(ps, ranks, k) >= 0,
    decreases k,
{
    if k > 0 {
        lemma_ell_nonneg(ps, ranks, k - 1);
    }
}

} // verus!
