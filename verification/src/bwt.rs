//! Burrows-Wheeler Transform (BWT) pre-pass.
//!
//! The BWT reorders bytes so that equal bytes tend to cluster together,
//! which improves the predictions of the context models that follow.
//!
//! The encoder sorts all cyclic rotations of the input and emits the last
//! column of the sorted matrix, plus the index of a row holding the
//! original string (the "primary index"). The decoder rebuilds the input
//! from the last column and the primary index with the LF mapping.

use vstd::prelude::*;
use vstd::relations::{sorted_by, total_ordering};

verus! {

broadcast use vstd::seq_lib::group_to_multiset_ensures;

// ---------------------------------------------------------------------------
// Lexicographic order on byte strings.
// ---------------------------------------------------------------------------

/// Lexicographic order on byte strings: `s` comes no later than `t`.
pub open spec fn lex_le(s: Seq<u8>, t: Seq<u8>) -> bool
    decreases s.len(),
{
    if s.len() == 0 {
        true
    } else if t.len() == 0 {
        false
    } else if s[0] != t[0] {
        s[0] < t[0]
    } else {
        lex_le(s.drop_first(), t.drop_first())
    }
}

/// The lexicographic order as a relation.
pub open spec fn lex_order() -> spec_fn(Seq<u8>, Seq<u8>) -> bool {
    |s: Seq<u8>, t: Seq<u8>| lex_le(s, t)
}

pub(crate) proof fn lemma_lex_reflexive(s: Seq<u8>)
    ensures
        lex_le(s, s),
    decreases s.len(),
{
    if s.len() > 0 {
        lemma_lex_reflexive(s.drop_first());
    }
}

proof fn lemma_lex_total(s: Seq<u8>, t: Seq<u8>)
    ensures
        lex_le(s, t) || lex_le(t, s),
    decreases s.len(),
{
    if s.len() > 0 && t.len() > 0 && s[0] == t[0] {
        lemma_lex_total(s.drop_first(), t.drop_first());
    }
}

pub(crate) proof fn lemma_lex_antisymmetric(s: Seq<u8>, t: Seq<u8>)
    requires
        lex_le(s, t),
        lex_le(t, s),
    ensures
        s == t,
    decreases s.len(),
{
    if s.len() > 0 {
        lemma_lex_antisymmetric(s.drop_first(), t.drop_first());
        assert(s =~= seq![s[0]] + s.drop_first());
        assert(t =~= seq![t[0]] + t.drop_first());
    }
}

pub(crate) proof fn lemma_lex_transitive(s: Seq<u8>, t: Seq<u8>, u: Seq<u8>)
    requires
        lex_le(s, t),
        lex_le(t, u),
    ensures
        lex_le(s, u),
    decreases s.len(),
{
    if s.len() > 0 && t.len() > 0 && u.len() > 0 && s[0] == t[0] && t[0] == u[0] {
        lemma_lex_transitive(s.drop_first(), t.drop_first(), u.drop_first());
    }
}

/// Lexicographic order is a total order.
pub proof fn lemma_lex_total_ordering()
    ensures
        total_ordering(lex_order()),
{
    assert forall|s: Seq<u8>| #[trigger] lex_order()(s, s) by {
        lemma_lex_reflexive(s);
    }
    assert forall|s: Seq<u8>, t: Seq<u8>|
        #[trigger] lex_order()(s, t) && #[trigger] lex_order()(t, s) implies s == t by {
        lemma_lex_antisymmetric(s, t);
    }
    assert forall|s: Seq<u8>, t: Seq<u8>, u: Seq<u8>|
        #[trigger] lex_order()(s, t) && #[trigger] lex_order()(t, u) implies lex_order()(s, u) by {
        lemma_lex_transitive(s, t, u);
    }
    assert forall|s: Seq<u8>, t: Seq<u8>| #[trigger] lex_order()(s, t) || #[trigger] lex_order()(t, s) by {
        lemma_lex_total(s, t);
    }
}

/// Equal leading bytes do not decide the order.
proof fn lemma_lex_skip(s: Seq<u8>, t: Seq<u8>, k: int)
    requires
        0 <= k <= s.len(),
        k <= t.len(),
        forall|j: int| 0 <= j < k ==> s[j] == t[j],
    ensures
        lex_le(s, t) == lex_le(s.skip(k), t.skip(k)),
    decreases k,
{
    if k > 0 {
        lemma_lex_skip(s.drop_first(), t.drop_first(), k - 1);
        assert(s.drop_first().skip(k - 1) =~= s.skip(k));
        assert(t.drop_first().skip(k - 1) =~= t.skip(k));
    } else {
        assert(s.skip(0) =~= s);
        assert(t.skip(0) =~= t);
    }
}

// ---------------------------------------------------------------------------
// Rotations.
// ---------------------------------------------------------------------------

/// The cyclic rotation of `d` that starts at position `i`.
pub open spec fn rotation(d: Seq<u8>, i: int) -> Seq<u8> {
    Seq::new(d.len(), |k: int| d[(i + k) % (d.len() as int)])
}

/// The rotation starting at `a` comes no later than the one at `b`.
pub open spec fn rot_le(d: Seq<u8>, a: u32, b: u32) -> bool {
    lex_le(rotation(d, a as int), rotation(d, b as int))
}

/// The rotation starts listed in `s` are in sorted order.
pub open spec fn rot_sorted(d: Seq<u8>, s: Seq<u32>) -> bool {
    forall|i: int, j: int| 0 <= i < j < s.len() ==> #[trigger] rot_le(d, s[i], s[j])
}

/// Every entry of `s` is a position of `d`.
pub open spec fn in_bounds(d: Seq<u8>, s: Seq<u32>) -> bool {
    forall|i: int| 0 <= i < s.len() ==> #[trigger] s[i] < d.len()
}

/// Compares the rotations of `data` starting at `a` and `b`.
fn rotation_le(data: &[u8], a: u32, b: u32) -> (r: bool)
    requires
        a < data@.len(),
        b < data@.len(),
    ensures
        r == rot_le(data@, a, b),
{
    let n = data.len();
    let ua = a as usize;
    let ub = b as usize;
    let ghost ra = rotation(data@, ua as int);
    let ghost rb = rotation(data@, ub as int);
    let mut k: usize = 0;
    while k < n
        invariant
            n == data@.len(),
            ua < n,
            ub < n,
            ua == a,
            ub == b,
            ra == rotation(data@, ua as int),
            rb == rotation(data@, ub as int),
            0 <= k <= n,
            forall|j: int| 0 <= j < k ==> ra[j] == rb[j],
        decreases n - k,
    {
        let ia = if k < n - ua { ua + k } else { k - (n - ua) };
        let ib = if k < n - ub { ub + k } else { k - (n - ub) };
        proof {
            if ua + k < n {
                vstd::arithmetic::div_mod::lemma_small_mod((ua + k) as nat, n as nat);
            } else {
                vstd::arithmetic::div_mod::lemma_fundamental_div_mod_converse((ua + k) as int, n as int, 1, (ua + k - n) as int);
            }
            if ub + k < n {
                vstd::arithmetic::div_mod::lemma_small_mod((ub + k) as nat, n as nat);
            } else {
                vstd::arithmetic::div_mod::lemma_fundamental_div_mod_converse((ub + k) as int, n as int, 1, (ub + k - n) as int);
            }
        }
        assert(ia as int == (ua + k) % (n as int));
        assert(ib as int == (ub + k) % (n as int));
        let ca = data[ia];
        let cb = data[ib];
        if ca != cb {
            proof {
                lemma_lex_skip(ra, rb, k as int);
                assert(ra.skip(k as int)[0] == ca);
                assert(rb.skip(k as int)[0] == cb);
                assert(ra.skip(k as int).len() > 0);
                assert(rb.skip(k as int).len() > 0);
                assert(lex_le(ra.skip(k as int), rb.skip(k as int)) == (ca < cb));
                assert(lex_le(ra, rb) == (ca < cb));
            }
            return ca < cb;
        }
        k += 1;
    }
    proof {
        lemma_lex_skip(ra, rb, n as int);
    }
    true
}

// ---------------------------------------------------------------------------
// Merge sort of rotation starts.
// ---------------------------------------------------------------------------

/// Rotation starts ordered by their rotations, equal rotations by start.
pub open spec fn start_le(d: Seq<u8>, a: u32, b: u32) -> bool {
    rot_le(d, a, b) && (rotation(d, a as int) == rotation(d, b as int) ==> a <= b)
}

/// The starts listed in `s` are sorted by rotation, and equal rotations by
/// start.
pub open spec fn stable_sorted(d: Seq<u8>, s: Seq<u32>) -> bool {
    forall|i: int, j: int| 0 <= i < j < s.len() ==> #[trigger] start_le(d, s[i], s[j])
}

/// The entries of `s` rise.
pub open spec fn ascending(s: Seq<u32>) -> bool {
    forall|i: int, j: int| 0 <= i < j < s.len() ==> #[trigger] s[i] < #[trigger] s[j]
}

proof fn lemma_start_le_transitive(d: Seq<u8>, a: u32, b: u32, c: u32)
    requires
        start_le(d, a, b),
        start_le(d, b, c),
    ensures
        start_le(d, a, c),
{
    let ra = rotation(d, a as int);
    let rb = rotation(d, b as int);
    let rc = rotation(d, c as int);
    lemma_lex_transitive(ra, rb, rc);
    if ra == rc {
        lemma_lex_transitive(rb, rc, ra);
        lemma_lex_antisymmetric(ra, rb);
    }
}

fn merge(data: &[u8], left: &Vec<u32>, right: &Vec<u32>) -> (r: Vec<u32>)
    requires
        in_bounds(data@, left@),
        in_bounds(data@, right@),
        stable_sorted(data@, left@),
        stable_sorted(data@, right@),
        forall|a: int, b: int|
            0 <= a < left@.len() && 0 <= b < right@.len() ==> #[trigger] left@[a] < #[trigger] right@[b],
    ensures
        in_bounds(data@, r@),
        stable_sorted(data@, r@),
        r@.to_multiset() == left@.to_multiset().add(right@.to_multiset()),
        r@.len() == left@.len() + right@.len(),
{
    let ghost d = data@;
    let mut out: Vec<u32> = Vec::new();
    let mut i: usize = 0;
    let mut j: usize = 0;
    proof {
        lemma_lex_total_ordering();
    }
    while i < left.len() || j < right.len()
        invariant
            d == data@,
            total_ordering(lex_order()),
            in_bounds(d, left@),
            in_bounds(d, right@),
            stable_sorted(d, left@),
            stable_sorted(d, right@),
            forall|a: int, b: int|
                0 <= a < left@.len() && 0 <= b < right@.len() ==> #[trigger] left@[a] < #[trigger] right@[b],
            0 <= i <= left@.len(),
            0 <= j <= right@.len(),
            in_bounds(d, out@),
            stable_sorted(d, out@),
            out@.len() == i + j,
            out@.to_multiset() == left@.subrange(0, i as int).to_multiset().add(
                right@.subrange(0, j as int).to_multiset(),
            ),
            out@.len() > 0 && i < left@.len() ==> start_le(d, out@.last(), left@[i as int]),
            out@.len() > 0 && j < right@.len() ==> start_le(d, out@.last(), right@[j as int]),
        decreases left@.len() + right@.len() - i - j,
    {
        let take_left = if i < left.len() && j < right.len() {
            rotation_le(data, left[i], right[j])
        } else {
            i < left.len()
        };
        let x = if take_left { left[i] } else { right[j] };
        proof {
            if i < left@.len() && j < right@.len() {
                let l = left@[i as int];
                let r = right@[j as int];
                assert(l < r);
                if take_left {
                    assert(start_le(d, l, r));
                } else {
                    lemma_lex_total(rotation(d, r as int), rotation(d, l as int));
                    assert(start_le(d, r, l));
                }
            }
            assert forall|a: int, b: int| 0 <= a < b < out@.len() + 1 implies #[trigger] start_le(
                d,
                out@.push(x)[a],
                out@.push(x)[b],
            ) by {
                if b == out@.len() {
                    if a < out@.len() - 1 {
                        assert(start_le(d, out@[a], out@.last()));
                        lemma_start_le_transitive(d, out@[a], out@.last(), x);
                    }
                } else {
                    assert(start_le(d, out@[a], out@[b]));
                }
            }
        }
        out.push(x);
        if take_left {
            proof {
                assert(left@.subrange(0, i + 1) =~= left@.subrange(0, i as int).push(x));
                if i + 1 < left@.len() {
                    assert(start_le(d, left@[i as int], left@[i + 1]));
                }
            }
            i += 1;
        } else {
            proof {
                assert(right@.subrange(0, j + 1) =~= right@.subrange(0, j as int).push(x));
                if j + 1 < right@.len() {
                    assert(start_le(d, right@[j as int], right@[j + 1]));
                }
            }
            j += 1;
        }
        proof {
            broadcast use vstd::multiset::group_multiset_properties;
            broadcast use vstd::multiset::group_multiset_axioms;
        }
    }
    assert(left@.subrange(0, left@.len() as int) =~= left@);
    assert(right@.subrange(0, right@.len() as int) =~= right@);
    out
}

/// A sequence holds what another with the same multiset holds.
proof fn lemma_multiset_contains(s: Seq<u32>, t: Seq<u32>, x: u32)
    requires
        s.to_multiset() == t.to_multiset(),
        s.contains(x),
    ensures
        t.contains(x),
{
    s.to_multiset_ensures();
    t.to_multiset_ensures();
    assert(s.to_multiset().count(x) > 0);
    assert(t.to_multiset().count(x) > 0);
}

fn merge_sort(data: &[u8], v: Vec<u32>) -> (r: Vec<u32>)
    requires
        in_bounds(data@, v@),
        ascending(v@),
    ensures
        in_bounds(data@, r@),
        stable_sorted(data@, r@),
        r@.to_multiset() == v@.to_multiset(),
        r@.len() == v@.len(),
    decreases v@.len(),
{
    let n = v.len();
    if n <= 1 {
        return v;
    }
    let mid = n / 2;
    let mut left: Vec<u32> = Vec::new();
    let mut right: Vec<u32> = Vec::new();
    let mut i: usize = 0;
    while i < mid
        invariant
            mid <= n == v@.len(),
            0 <= i <= mid,
            left@ == v@.subrange(0, i as int),
        decreases mid - i,
    {
        left.push(v[i]);
        assert(left@ =~= v@.subrange(0, i + 1));
        i += 1;
    }
    while i < n
        invariant
            mid <= n == v@.len(),
            mid <= i <= n,
            right@ == v@.subrange(mid as int, i as int),
        decreases n - i,
    {
        right.push(v[i]);
        assert(right@ =~= v@.subrange(mid as int, i + 1));
        i += 1;
    }
    assert(v@ =~= left@ + right@);
    proof {
        vstd::seq_lib::lemma_multiset_commutative(left@, right@);
    }
    let ghost left0 = left@;
    let ghost right0 = right@;
    let l = merge_sort(data, left);
    let r = merge_sort(data, right);
    proof {
        assert forall|a: int, b: int| 0 <= a < l@.len() && 0 <= b < r@.len() implies #[trigger] l@[a]
            < #[trigger] r@[b] by {
            assert(l@.contains(l@[a]));
            assert(r@.contains(r@[b]));
            lemma_multiset_contains(l@, left0, l@[a]);
            lemma_multiset_contains(r@, right0, r@[b]);
            let a0 = choose|a0: int| 0 <= a0 < left0.len() && left0[a0] == l@[a];
            let b0 = choose|b0: int| 0 <= b0 < right0.len() && right0[b0] == r@[b];
            assert(v@[a0] < v@[mid + b0]);
        }
    }
    merge(data, &l, &r)
}

// ---------------------------------------------------------------------------
// The forward transform.
// ---------------------------------------------------------------------------

/// All rotations of `d`, by starting position.
pub open spec fn rotations(d: Seq<u8>) -> Seq<Seq<u8>> {
    Seq::new(d.len(), |i: int| rotation(d, i))
}

/// The rotations of `d` in lexicographic order: the rows of the BWT matrix.
pub open spec fn sorted_rotations(d: Seq<u8>) -> Seq<Seq<u8>> {
    rotations(d).sort_by(lex_order())
}

/// The Burrows-Wheeler transform of `d`: the last column of the matrix of
/// its sorted rotations.
pub open spec fn spec_bwt(d: Seq<u8>) -> Seq<u8> {
    Seq::new(d.len(), |r: int| sorted_rotations(d)[r][d.len() - 1])
}

/// `idx` is a primary index for `d`: a row of the sorted rotation matrix
/// that holds `d` itself.
pub open spec fn bwt_primary(d: Seq<u8>, idx: u32) -> bool {
    idx < d.len() && sorted_rotations(d)[idx as int] == d
}

/// `idx` is the first row of the sorted rotation matrix that holds `d`.
pub open spec fn first_primary(d: Seq<u8>, idx: u32) -> bool {
    bwt_primary(d, idx) && forall|j: int| 0 <= j < idx ==> #[trigger] sorted_rotations(d)[j] != d
}

/// The primary index of `d`: the first row of its sorted rotation matrix
/// that holds `d` (rows are equal only for periodic data).
pub open spec fn primary_index(d: Seq<u8>) -> u32 {
    choose|idx: u32| first_primary(d, idx)
}

/// Only one row is the first to hold `d`.
pub proof fn lemma_primary_index_unique(d: Seq<u8>, idx: u32)
    requires
        first_primary(d, idx),
    ensures
        primary_index(d) == idx,
{
    let p = primary_index(d);
    assert(first_primary(d, p));
    if p < idx {
        assert(sorted_rotations(d)[p as int] != d);
    } else if idx < p {
        assert(sorted_rotations(d)[idx as int] != d);
    }
}

/// Some row holds `d` when `d` is not empty, so the first such row is its
/// primary index.
pub proof fn lemma_primary_index(d: Seq<u8>)
    requires
        0 < d.len() <= u32::MAX,
    ensures
        first_primary(d, primary_index(d)),
{
    let m = sorted_rotations(d);
    let n = d.len() as int;
    lemma_lex_total_ordering();
    rotations(d).lemma_sort_by_ensures(lex_order());
    rotations(d).to_multiset_ensures();
    m.to_multiset_ensures();
    assert(rotation(d, 0) =~= d) by {
        assert forall|k: int| 0 <= k < n implies rotation(d, 0)[k] == d[k] by {
            vstd::arithmetic::div_mod::lemma_small_mod(k as nat, n as nat);
        }
    }
    assert(rotations(d)[0] == d);
    assert(rotations(d).to_multiset().count(d) > 0);
    assert(m.contains(d));
    let k = choose|k: int| 0 <= k < m.len() && m[k] == d;
    lemma_first_row(d, k);
}

proof fn lemma_first_row(d: Seq<u8>, k: int)
    requires
        0 <= k < d.len() <= u32::MAX,
        sorted_rotations(d)[k] == d,
    ensures
        first_primary(d, primary_index(d)),
    decreases k,
{
    if exists|j: int| 0 <= j < k && sorted_rotations(d)[j] == d {
        let j = choose|j: int| 0 <= j < k && sorted_rotations(d)[j] == d;
        lemma_first_row(d, j);
    } else {
        assert(first_primary(d, k as u32));
    }
}

/// The positions `0..n` in order.
pub open spec fn positions(n: nat) -> Seq<u32> {
    Seq::new(n, |i: int| i as u32)
}

/// Mapping two sequences with equal multisets gives sequences with equal
/// multisets.
pub(crate) proof fn lemma_map_multiset<A, B>(s: Seq<A>, t: Seq<A>, f: spec_fn(A) -> B)
    requires
        s.to_multiset() == t.to_multiset(),
    ensures
        s.map_values(f).to_multiset() == t.map_values(f).to_multiset(),
    decreases s.len(),
{
    broadcast use vstd::multiset::group_multiset_axioms;

    if s.len() == 0 {
        t.to_multiset_ensures();
        s.to_multiset_ensures();
        assert(t.len() == 0);
        assert(s.map_values(f) =~= Seq::<B>::empty());
        assert(t.map_values(f) =~= Seq::<B>::empty());
    } else {
        let x = s.last();
        let s1 = s.drop_last();
        assert(s =~= s1.push(x));
        assert(t.to_multiset().count(x) > 0);
        assert(t.contains(x));
        let j = choose|j: int| 0 <= j < t.len() && t[j] == x;
        let t1 = t.remove(j);
        assert(t1.to_multiset() =~= t.to_multiset().remove(x));
        assert(s.to_multiset() =~= s1.to_multiset().insert(x));
        assert(s1.to_multiset() =~= t1.to_multiset());
        lemma_map_multiset(s1, t1, f);
        assert(s.map_values(f) =~= s1.map_values(f).push(f(x)));
        assert(t1.map_values(f) =~= t.map_values(f).remove(j));
        assert(t.map_values(f)[j] == f(x));
        assert(t1.map_values(f).to_multiset() =~= t.map_values(f).to_multiset().remove(f(x)));
        assert(t.map_values(f).to_multiset().count(f(x)) > 0) by {
            assert(t.map_values(f).contains(f(x)));
        }
        assert(s.map_values(f).to_multiset() =~= t.map_values(f).to_multiset());
    }
}

/// The rotations listed by a sorted permutation of the positions are the
/// sorted rotations.
proof fn lemma_sorted_positions(d: Seq<u8>, sa: Seq<u32>)
    requires
        sa.to_multiset() == positions(d.len()).to_multiset(),
        rot_sorted(d, sa),
        d.len() <= u32::MAX,
    ensures
        sa.len() == d.len(),
        sa.map_values(|i: u32| rotation(d, i as int)) == sorted_rotations(d),
{
    let f = |i: u32| rotation(d, i as int);
    let rs = sa.map_values(f);
    sa.to_multiset_ensures();
    positions(d.len()).to_multiset_ensures();
    assert(positions(d.len()).map_values(f) =~= rotations(d));
    lemma_map_multiset(sa, positions(d.len()), f);
    lemma_lex_total_ordering();
    rotations(d).lemma_sort_by_ensures(lex_order());
    assert(sorted_by(rs, lex_order())) by {
        assert forall|i: int, j: int| 0 <= i < j < rs.len() implies #[trigger] lex_order()(
            rs[i],
            rs[j],
        ) by {
            assert(rot_le(d, sa[i], sa[j]));
        }
    }
    vstd::seq_lib::lemma_sorted_unique(rs, sorted_rotations(d), lex_order());
}

/// Returns the BWT of `data` and the primary index needed to invert it:
/// a row of the sorted rotation matrix that holds `data` itself.
pub fn bwt_encode(data: &[u8]) -> (r: (Vec<u8>, u32))
    requires
        data@.len() <= u32::MAX,
    ensures
        r.0@ == spec_bwt(data@),
        data@.len() == 0 ==> r.1 == 0,
        data@.len() > 0 ==> first_primary(data@, r.1) && r.1 == primary_index(data@),
{
    let n = data.len();
    if n == 0 {
        let out: Vec<u8> = Vec::new();
        assert(out@ =~= spec_bwt(data@));
        return (out, 0);
    }
    let mut sa: Vec<u32> = Vec::new();
    let mut i: usize = 0;
    while i < n
        invariant
            n == data@.len() <= u32::MAX,
            0 <= i <= n,
            sa@ == positions(i as nat),
        decreases n - i,
    {
        sa.push(i as u32);
        assert(sa@ =~= positions((i + 1) as nat));
        i += 1;
    }
    assert(in_bounds(data@, sa@));
    assert(ascending(sa@));
    let sa = merge_sort(data, sa);
    proof {
        assert forall|a: int, b: int| 0 <= a < b < sa@.len() implies #[trigger] rot_le(
            data@,
            sa@[a],
            sa@[b],
        ) by {
            assert(start_le(data@, sa@[a], sa@[b]));
        }
        lemma_sorted_positions(data@, sa@);
    }
    let ghost rs = sa@.map_values(|i: u32| rotation(data@, i as int));
    let mut bwt: Vec<u8> = Vec::new();
    let mut r: usize = 0;
    while r < n
        invariant
            n == data@.len() == sa@.len(),
            0 < n,
            in_bounds(data@, sa@),
            rs == sorted_rotations(data@),
            rs == sa@.map_values(|i: u32| rotation(data@, i as int)),
            0 <= r <= n,
            bwt@ == spec_bwt(data@).subrange(0, r as int),
        decreases n - r,
    {
        let idx = sa[r] as usize;
        let prev = if idx == 0 { n - 1 } else { idx - 1 };
        proof {
            assert(rs[r as int] == rotation(data@, idx as int));
            if idx == 0 {
                vstd::arithmetic::div_mod::lemma_small_mod((n - 1) as nat, n as nat);
            } else {
                vstd::arithmetic::div_mod::lemma_fundamental_div_mod_converse(
                    (idx + n - 1) as int,
                    n as int,
                    1,
                    (idx - 1) as int,
                );
            }
            assert(rotation(data@, idx as int)[n - 1] == data@[prev as int]);
        }
        bwt.push(data[prev]);
        assert(bwt@ =~= spec_bwt(data@).subrange(0, r + 1));
        r += 1;
    }
    assert(bwt@ =~= spec_bwt(data@));
    proof {
        assert(positions(n as nat).to_multiset().count(0u32) > 0) by {
            assert(positions(n as nat)[0] == 0u32);
            assert(positions(n as nat).contains(0u32));
        }
        assert(sa@.contains(0u32));
    }
    let mut p: usize = 0;
    while p < n
        invariant
            n == sa@.len(),
            0 <= p <= n,
            sa@.contains(0u32),
            forall|q: int| 0 <= q < p ==> sa@[q] != 0u32,
        ensures
            0 <= p <= n,
            p < n ==> sa@[p as int] == 0u32,
            forall|q: int| 0 <= q < p ==> sa@[q] != 0u32,
        decreases n - p,
    {
        if sa[p] == 0 {
            break;
        }
        p += 1;
    }
    if p == n {
        proof {
            let q = choose|q: int| 0 <= q < sa@.len() && sa@[q] == 0u32;
            assert(sa@[q] != 0u32);
        }
    }
    proof {
        assert(p < n);
        assert(rs[p as int] == rotation(data@, 0));
        assert forall|j: int| 0 <= j < p implies rs[j] != rotation(data@, 0) by {
            assert(start_le(data@, sa@[j], sa@[p as int]));
            assert(rs[j] == rotation(data@, sa@[j] as int));
        }
        assert(rotation(data@, 0) =~= data@) by {
            assert forall|k: int| 0 <= k < n implies rotation(data@, 0)[k] == data@[k] by {
                vstd::arithmetic::div_mod::lemma_small_mod(k as nat, n as nat);
            }
        }
    }
    proof {
        lemma_primary_index_unique(data@, p as u32);
    }
    (bwt, p as u32)
}

// ---------------------------------------------------------------------------
// The inverse transform.
// ---------------------------------------------------------------------------

/// The number of occurrences of `c` in `s`.
pub open spec fn occ(s: Seq<u8>, c: u8) -> nat
    decreases s.len(),
{
    if s.len() == 0 {
        0
    } else {
        occ(s.drop_last(), c) + if s.last() == c { 1nat } else { 0nat }
    }
}

/// The number of bytes of `s` smaller than `c`: where the first row
/// starting with `c` lies in the sorted matrix.
pub open spec fn first_col(s: Seq<u8>, c: nat) -> nat
    decreases c,
{
    if c == 0 {
        0
    } else {
        first_col(s, (c - 1) as nat) + occ(s, (c - 1) as u8)
    }
}

/// The LF mapping: the `k`-th occurrence of a byte in the last column maps
/// to the `k`-th row starting with that byte.
pub open spec fn lf(s: Seq<u8>, i: int) -> nat {
    first_col(s, s[i] as nat) + occ(s.subrange(0, i), s[i])
}

/// The row reached from `idx` after `k` steps of the LF mapping.
pub open spec fn walk_row(s: Seq<u8>, idx: int, k: nat) -> int
    decreases k,
{
    if k == 0 {
        idx
    } else {
        lf(s, walk_row(s, idx, (k - 1) as nat)) as int
    }
}

/// What [`bwt_decode`] rebuilds: walking the LF mapping from the primary
/// row yields the bytes from last to first.
pub open spec fn spec_bwt_decode(s: Seq<u8>, idx: u32) -> Seq<u8> {
    Seq::new(s.len(), |j: int| s[walk_row(s, idx as int, (s.len() - 1 - j) as nat)])
}

proof fn lemma_occ_push(s: Seq<u8>, x: u8, c: u8)
    ensures
        occ(s.push(x), c) == occ(s, c) + if x == c { 1nat } else { 0nat },
{
    assert(s.push(x).drop_last() =~= s);
}

proof fn lemma_occ_len(s: Seq<u8>, c: u8)
    ensures
        occ(s, c) <= s.len(),
    decreases s.len(),
{
    if s.len() > 0 {
        lemma_occ_len(s.drop_last(), c);
    }
}

proof fn lemma_first_col_empty(c: nat)
    ensures
        first_col(Seq::empty(), c) == 0,
    decreases c,
{
    if c > 0 {
        lemma_first_col_empty((c - 1) as nat);
    }
}

pub(crate) proof fn lemma_first_col_push(s: Seq<u8>, x: u8, c: nat)
    requires
        c <= 256,
    ensures
        first_col(s.push(x), c) == first_col(s, c) + if (x as nat) < c { 1nat } else { 0nat },
    decreases c,
{
    if c > 0 {
        lemma_first_col_push(s, x, (c - 1) as nat);
        lemma_occ_push(s, x, (c - 1) as u8);
        assert(((c - 1) as u8) as nat == c - 1);
    }
}

proof fn lemma_first_col_total(s: Seq<u8>)
    ensures
        first_col(s, 256) == s.len(),
    decreases s.len(),
{
    if s.len() > 0 {
        lemma_first_col_total(s.drop_last());
        lemma_first_col_push(s.drop_last(), s.last(), 256);
        assert(s.drop_last().push(s.last()) =~= s);
    } else {
        assert(s =~= Seq::<u8>::empty());
        lemma_first_col_empty(256);
    }
}

proof fn lemma_first_col_mono(s: Seq<u8>, a: nat, b: nat)
    requires
        a <= b,
    ensures
        first_col(s, a) <= first_col(s, b),
    decreases b - a,
{
    if a < b {
        lemma_first_col_mono(s, a, (b - 1) as nat);
    }
}

proof fn lemma_occ_prefix(s: Seq<u8>, i: int, c: u8)
    requires
        0 <= i <= s.len(),
    ensures
        occ(s.subrange(0, i), c) <= occ(s, c),
        i < s.len() && s[i] == c ==> occ(s.subrange(0, i), c) < occ(s, c),
    decreases s.len() - i,
{
    if i < s.len() {
        lemma_occ_prefix(s, i + 1, c);
        lemma_occ_push(s.subrange(0, i), s[i], c);
        assert(s.subrange(0, i).push(s[i]) =~= s.subrange(0, i + 1));
    } else {
        assert(s.subrange(0, i) =~= s);
    }
}

/// The LF mapping stays within the rows.
pub(crate) proof fn lemma_lf_bound(s: Seq<u8>, i: int)
    requires
        0 <= i < s.len(),
    ensures
        lf(s, i) < s.len(),
{
    let c = s[i];
    lemma_occ_prefix(s, i, c);
    lemma_first_col_mono(s, (c + 1) as nat, 256);
    lemma_first_col_total(s);
    assert(first_col(s, (c + 1) as nat) == first_col(s, c as nat) + occ(s, c));
}

/// Rebuilds the input of the BWT from its last column and primary index.
///
/// Uses the LF mapping: the `k`-th occurrence of byte `c` in the last
/// column maps to the `k`-th occurrence of `c` in the first (sorted)
/// column.
pub fn bwt_decode(bwt: &[u8], primary_idx: u32) -> (r: Vec<u8>)
    requires
        bwt@.len() > 0 ==> primary_idx < bwt@.len(),
    ensures
        r@ == spec_bwt_decode(bwt@, primary_idx),
{
    let n = bwt.len();
    if n == 0 {
        let out: Vec<u8> = Vec::new();
        assert(out@ =~= spec_bwt_decode(bwt@, primary_idx));
        return out;
    }
    let ghost s = bwt@;
    // Count occurrences of every byte value.
    let mut count: Vec<usize> = vec![0usize; 256];
    let mut i: usize = 0;
    while i < n
        invariant
            n == s.len(),
            s == bwt@,
            0 <= i <= n,
            count@.len() == 256,
            forall|c: int| 0 <= c < 256 ==> #[trigger] count@[c] == occ(s.subrange(0, i as int), c as u8),
        decreases n - i,
    {
        let b = bwt[i] as usize;
        proof {
            lemma_occ_prefix(s.subrange(0, i + 1), i as int, b as u8);
            lemma_occ_prefix(s, i + 1, b as u8);
            assert(s.subrange(0, i + 1).subrange(0, i as int) =~= s.subrange(0, i as int));
            assert forall|c: int| 0 <= c < 256 implies #[trigger] occ(s.subrange(0, i + 1), c as u8) == occ(
                s.subrange(0, i as int),
                c as u8,
            ) + if c == b { 1nat } else { 0nat } by {
                lemma_occ_push(s.subrange(0, i as int), s[i as int], c as u8);
                assert(s.subrange(0, i as int).push(s[i as int]) =~= s.subrange(0, i + 1));
            }
            lemma_occ_prefix(s, i as int, b as u8);
            lemma_occ_len(s.subrange(0, i as int), b as u8);
        }
        count.set(b, count[b] + 1);
        i += 1;
    }
    assert(s.subrange(0, n as int) =~= s);
    // first_col_start[c] = number of bytes with value < c.
    let mut first_col_start: Vec<usize> = vec![0usize; 256];
    let mut total: usize = 0;
    let mut c: usize = 0;
    proof {
        lemma_first_col_total(s);
    }
    while c < 256
        invariant
            n == s.len(),
            s == bwt@,
            0 <= c <= 256,
            count@.len() == 256,
            first_col_start@.len() == 256,
            forall|x: int| 0 <= x < 256 ==> #[trigger] count@[x] == occ(s, x as u8),
            total == first_col(s, c as nat),
            first_col(s, 256) == n,
            forall|x: int| 0 <= x < c ==> #[trigger] first_col_start@[x] == first_col(s, x as nat),
        decreases 256 - c,
    {
        first_col_start.set(c, total);
        proof {
            lemma_first_col_mono(s, (c + 1) as nat, 256);
        }
        total = total + count[c];
        c += 1;
    }
    // Build the LF mapping.
    let mut seen: Vec<usize> = vec![0usize; 256];
    let mut lfv: Vec<usize> = Vec::new();
    let mut i: usize = 0;
    while i < n
        invariant
            n == s.len(),
            s == bwt@,
            0 <= i <= n,
            seen@.len() == 256,
            first_col_start@.len() == 256,
            forall|x: int| 0 <= x < 256 ==> #[trigger] first_col_start@[x] == first_col(s, x as nat),
            forall|x: int| 0 <= x < 256 ==> #[trigger] seen@[x] == occ(s.subrange(0, i as int), x as u8),
            lfv@.len() == i,
            forall|j: int| 0 <= j < i ==> #[trigger] lfv@[j] == lf(s, j) && lfv@[j] < n,
        decreases n - i,
    {
        let b = bwt[i] as usize;
        proof {
            lemma_lf_bound(s, i as int);
            assert forall|x: int| 0 <= x < 256 implies #[trigger] occ(s.subrange(0, i + 1), x as u8) == occ(
                s.subrange(0, i as int),
                x as u8,
            ) + if x == b { 1nat } else { 0nat } by {
                lemma_occ_push(s.subrange(0, i as int), s[i as int], x as u8);
                assert(s.subrange(0, i as int).push(s[i as int]) =~= s.subrange(0, i + 1));
            }
            lemma_occ_prefix(s, i as int, b as u8);
        }
        lfv.push(first_col_start[b] + seen[b]);
        seen.set(b, seen[b] + 1);
        i += 1;
    }
    // Walk the LF mapping backwards from the primary row.
    let mut result: Vec<u8> = vec![0u8; n];
    let mut row = primary_idx as usize;
    let mut k: usize = 0;
    while k < n
        invariant
            n == s.len(),
            s == bwt@,
            0 <= k <= n,
            result@.len() == n,
            lfv@.len() == n,
            forall|j: int| 0 <= j < n ==> #[trigger] lfv@[j] == lf(s, j) && lfv@[j] < n,
            row < n,
            row == walk_row(s, primary_idx as int, k as nat),
            forall|j: int|
                n - k <= j < n ==> #[trigger] result@[j] == s[walk_row(
                    s,
                    primary_idx as int,
                    (n - 1 - j) as nat,
                )],
        decreases n - k,
    {
        result.set(n - 1 - k, bwt[row]);
        row = lfv[row];
        k += 1;
    }
    assert(result@ =~= spec_bwt_decode(bwt@, primary_idx));
    result
}

} // verus!
