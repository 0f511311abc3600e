//! Why the LF mapping inverts the Burrows-Wheeler transform.
//!
//! Moving the last byte of every row of the sorted rotation matrix to its
//! front gives the same rows again. Rows that end in the same byte `c` keep
//! their relative order when `c` moves to the front, so the `k`-th row
//! ending in `c` becomes the `k`-th row starting with `c`: that is the row
//! the LF mapping names. Walking it from the row that holds the data visits
//! the rotations of the data from right to left, and their last bytes spell
//! the data backwards.

use vstd::prelude::*;
use vstd::relations::sorted_by;
use crate::bwt::{
    first_col, lemma_first_col_push, lemma_lex_antisymmetric, lemma_lex_reflexive,
    lemma_lex_total_ordering, lemma_lex_transitive, lemma_lf_bound, lemma_map_multiset, lex_le,
    lex_order, lf, occ, rotation, rotations, sorted_rotations, spec_bwt, spec_bwt_decode, walk_row,
};

verus! {

// ---------------------------------------------------------------------------
// Counting positions.
// ---------------------------------------------------------------------------

/// The number of positions `j` in `0..k` at which `f` holds.
pub open spec fn count_idx(k: nat, f: spec_fn(int) -> bool) -> nat
    decreases k,
{
    if k == 0 {
        0
    } else {
        count_idx((k - 1) as nat, f) + if f(k - 1) { 1nat } else { 0nat }
    }
}

proof fn lemma_count_bound(k: nat, f: spec_fn(int) -> bool)
    ensures
        count_idx(k, f) <= k,
    decreases k,
{
    if k > 0 {
        lemma_count_bound((k - 1) as nat, f);
    }
}

proof fn lemma_count_congruent(k: nat, f: spec_fn(int) -> bool, g: spec_fn(int) -> bool)
    requires
        forall|j: int| 0 <= j < k ==> #[trigger] f(j) == g(j),
    ensures
        count_idx(k, f) == count_idx(k, g),
    decreases k,
{
    if k > 0 {
        assert(f(k - 1) == g(k - 1));
        lemma_count_congruent((k - 1) as nat, f, g);
    }
}

proof fn lemma_count_mono(k: nat, f: spec_fn(int) -> bool, g: spec_fn(int) -> bool)
    requires
        forall|j: int| 0 <= j < k && #[trigger] f(j) ==> g(j),
    ensures
        count_idx(k, f) <= count_idx(k, g),
    decreases k,
{
    if k > 0 {
        assert(f(k - 1) ==> g(k - 1));
        lemma_count_mono((k - 1) as nat, f, g);
    }
}

proof fn lemma_count_grows(a: nat, b: nat, f: spec_fn(int) -> bool)
    requires
        a <= b,
    ensures
        count_idx(a, f) <= count_idx(b, f),
    decreases b,
{
    if a < b {
        lemma_count_grows(a, (b - 1) as nat, f);
    }
}

proof fn lemma_count_none_after(a: nat, b: nat, f: spec_fn(int) -> bool)
    requires
        a <= b,
        forall|j: int| a <= j < b ==> !#[trigger] f(j),
    ensures
        count_idx(b, f) == count_idx(a, f),
    decreases b,
{
    if a < b {
        assert(!f(b - 1));
        lemma_count_none_after(a, (b - 1) as nat, f);
    }
}

proof fn lemma_count_or(
    k: nat,
    f: spec_fn(int) -> bool,
    g: spec_fn(int) -> bool,
    h: spec_fn(int) -> bool,
)
    requires
        forall|j: int| 0 <= j < k ==> (#[trigger] h(j) <==> f(j) || g(j)) && !(f(j) && g(j)),
    ensures
        count_idx(k, h) == count_idx(k, f) + count_idx(k, g),
    decreases k,
{
    if k > 0 {
        assert(h(k - 1) <==> f(k - 1) || g(k - 1));
        lemma_count_or((k - 1) as nat, f, g, h);
    }
}

/// Where `f` holds on a prefix of the positions, it holds exactly below
/// its count.
proof fn lemma_count_prefix(k: nat, f: spec_fn(int) -> bool)
    requires
        forall|p: int, q: int| 0 <= q <= p < k && #[trigger] f(p) ==> #[trigger] f(q),
    ensures
        forall|p: int| 0 <= p < k ==> (#[trigger] f(p) <==> p < count_idx(k, f)),
    decreases k,
{
    if k > 0 {
        lemma_count_prefix((k - 1) as nat, f);
        lemma_count_bound((k - 1) as nat, f);
        if f(k - 1) && k >= 2 {
            assert(f(k - 2));
        }
    }
}

/// The number of bytes of `s` below `c` is `first_col(s, c)`.
proof fn lemma_count_below(s: Seq<u8>, c: u8)
    ensures
        count_idx(s.len(), |j: int| s[j] < c) == first_col(s, c as nat),
    decreases s.len(),
{
    if s.len() == 0 {
        assert(s =~= Seq::<u8>::empty());
        lemma_first_col_zero_len(c as nat);
    } else {
        let s1 = s.drop_last();
        lemma_count_below(s1, c);
        lemma_count_congruent((s.len() - 1) as nat, |j: int| s[j] < c, |j: int| s1[j] < c);
        lemma_first_col_push(s1, s.last(), c as nat);
        assert(s1.push(s.last()) =~= s);
    }
}

proof fn lemma_first_col_zero_len(c: nat)
    ensures
        first_col(Seq::<u8>::empty(), c) == 0,
    decreases c,
{
    if c > 0 {
        lemma_first_col_zero_len((c - 1) as nat);
        assert(Seq::<u8>::empty().len() == 0);
    }
}

/// The number of positions below `i` that hold `c` is the count of `c` in
/// the prefix of length `i`.
proof fn lemma_count_equal(s: Seq<u8>, c: u8, i: int)
    requires
        0 <= i <= s.len(),
    ensures
        count_idx(i as nat, |j: int| s[j] == c) == occ(s.subrange(0, i), c),
    decreases i,
{
    if i > 0 {
        lemma_count_equal(s, c, i - 1);
        assert(s.subrange(0, i).drop_last() =~= s.subrange(0, i - 1));
    }
}

// ---------------------------------------------------------------------------
// Rows and their right rotations.
// ---------------------------------------------------------------------------

/// `x` with its last byte moved to the front.
pub open spec fn rotate_right(x: Seq<u8>) -> Seq<u8> {
    seq![x.last()] + x.drop_last()
}

/// The number of rows of `m` that satisfy `p`.
pub open spec fn rows_count(m: Seq<Seq<u8>>, p: spec_fn(Seq<u8>) -> bool) -> nat {
    count_idx(m.len(), |j: int| p(m[j]))
}

proof fn lemma_rows_count_multiset(m: Seq<Seq<u8>>, p: spec_fn(Seq<u8>) -> bool)
    ensures
        rows_count(m, p) == m.map_values(p).to_multiset().count(true),
    decreases m.len(),
{
    broadcast use vstd::multiset::group_multiset_axioms;
    broadcast use vstd::multiset::group_multiset_properties;

    if m.len() == 0 {
        m.map_values(p).to_multiset_ensures();
    } else {
        let m1 = m.drop_last();
        lemma_rows_count_multiset(m1, p);
        assert(m.map_values(p) =~= m1.map_values(p).push(p(m.last())));
        m1.map_values(p).to_multiset_ensures();
        lemma_count_congruent((m.len() - 1) as nat, |j: int| p(m[j]), |j: int| p(m1[j]));
    }
}

/// Rows counts do not depend on the order of the rows.
proof fn lemma_rows_count_perm(m: Seq<Seq<u8>>, t: Seq<Seq<u8>>, p: spec_fn(Seq<u8>) -> bool)
    requires
        m.to_multiset() == t.to_multiset(),
    ensures
        rows_count(m, p) == rows_count(t, p),
{
    lemma_map_multiset(m, t, p);
    lemma_rows_count_multiset(m, p);
    lemma_rows_count_multiset(t, p);
}

/// Appending one byte to two strings of equal length keeps their order.
proof fn lemma_lex_push(s: Seq<u8>, t: Seq<u8>, c: u8)
    requires
        s.len() == t.len(),
    ensures
        lex_le(s.push(c), t.push(c)) == lex_le(s, t),
    decreases s.len(),
{
    if s.len() == 0 {
        assert(s.push(c).drop_first() =~= s);
        assert(t.push(c).drop_first() =~= t);
    } else {
        assert(s.push(c).drop_first() =~= s.drop_first().push(c));
        assert(t.push(c).drop_first() =~= t.drop_first().push(c));
        lemma_lex_push(s.drop_first(), t.drop_first(), c);
    }
}

/// How right rotations of two rows of equal length compare.
proof fn lemma_rotate_right_order(a: Seq<u8>, b: Seq<u8>)
    requires
        a.len() == b.len(),
        a.len() > 0,
    ensures
        lex_le(rotate_right(a), rotate_right(b)) == if a.last() != b.last() {
            a.last() < b.last()
        } else {
            lex_le(a, b)
        },
        (rotate_right(a) == rotate_right(b)) == (a == b),
{
    let ra = rotate_right(a);
    let rb = rotate_right(b);
    assert(ra.drop_first() =~= a.drop_last());
    assert(rb.drop_first() =~= b.drop_last());
    assert(a.drop_last().push(a.last()) =~= a);
    assert(b.drop_last().push(b.last()) =~= b);
    if a.last() == b.last() {
        lemma_lex_push(a.drop_last(), b.drop_last(), a.last());
    }
    if ra == rb {
        assert(ra[0] == rb[0]);
        assert(a.drop_last() == b.drop_last());
    }
}

proof fn lemma_rotation_full(d: Seq<u8>)
    requires
        d.len() > 0,
    ensures
        rotation(d, d.len() as int) == d,
        rotation(d, 0) == d,
{
    let n = d.len() as int;
    assert forall|k: int| 0 <= k < n implies #[trigger] rotation(d, n)[k] == d[k] by {
        vstd::arithmetic::div_mod::lemma_mod_add_multiples_vanish(k, n);
        vstd::arithmetic::div_mod::lemma_small_mod(k as nat, n as nat);
    }
    assert forall|k: int| 0 <= k < n implies #[trigger] rotation(d, 0)[k] == d[k] by {
        vstd::arithmetic::div_mod::lemma_small_mod(k as nat, n as nat);
    }
    assert(rotation(d, n) =~= d);
    assert(rotation(d, 0) =~= d);
}

/// Rotating the rotation that starts at `m` right gives the one that
/// starts at `m - 1`.
proof fn lemma_rotate_right_rotation(d: Seq<u8>, m: int)
    requires
        1 <= m <= d.len(),
    ensures
        rotate_right(rotation(d, m)) == rotation(d, m - 1),
{
    let n = d.len() as int;
    let r = rotate_right(rotation(d, m));
    assert forall|t: int| 0 <= t < n implies #[trigger] r[t] == rotation(d, m - 1)[t] by {
        if t == 0 {
            vstd::arithmetic::div_mod::lemma_mod_add_multiples_vanish(m - 1, n);
            assert(m + (n - 1) == n + (m - 1));
        } else {
            assert(m + (t - 1) == m - 1 + t);
        }
    }
    assert(r =~= rotation(d, m - 1));
}

/// Swapping the two halves of a sequence keeps its multiset.
proof fn lemma_swap_halves_multiset(a: Seq<Seq<u8>>, b: Seq<Seq<u8>>)
    ensures
        (a + b).to_multiset() == (b + a).to_multiset(),
{
    broadcast use vstd::multiset::group_multiset_axioms;

    vstd::seq_lib::lemma_multiset_commutative(a, b);
    vstd::seq_lib::lemma_multiset_commutative(b, a);
    assert(a.to_multiset().add(b.to_multiset()) =~= b.to_multiset().add(a.to_multiset()));
}

/// The right rotations of all rotations are the rotations again.
proof fn lemma_rotations_rotate_right(d: Seq<u8>)
    requires
        d.len() > 0,
    ensures
        rotations(d).map_values(|x: Seq<u8>| rotate_right(x)).to_multiset()
            == rotations(d).to_multiset(),
{
    let n = d.len() as int;
    let rs = rotations(d);
    let shifted = rs.map_values(|x: Seq<u8>| rotate_right(x));
    let front = rs.subrange(0, n - 1);
    let back = seq![rs[n - 1]];
    assert(shifted =~= back + front) by {
        assert forall|j: int| 0 <= j < n implies #[trigger] shifted[j] == (back + front)[j] by {
            if j == 0 {
                lemma_rotation_full(d);
                lemma_rotate_right_rotation(d, n);
                assert(rs[0] == rotation(d, 0));
                assert(shifted[0] == rotate_right(rotation(d, n)));
            } else {
                lemma_rotate_right_rotation(d, j);
                assert(shifted[j] == rotate_right(rotation(d, j)));
                assert((back + front)[j] == front[j - 1]);
            }
        }
    }
    assert(rs =~= front + back);
    lemma_swap_halves_multiset(front, back);
}

// ---------------------------------------------------------------------------
// The sorted rotation matrix.
// ---------------------------------------------------------------------------

/// The rows of the sorted matrix are the rotations, each as long as the
/// data, in lexicographic order.
proof fn lemma_sorted_rows(d: Seq<u8>)
    ensures
        sorted_rotations(d).len() == d.len(),
        sorted_rotations(d).to_multiset() == rotations(d).to_multiset(),
        forall|j: int| 0 <= j < d.len() ==> (#[trigger] sorted_rotations(d)[j]).len() == d.len(),
        forall|j: int, k: int|
            0 <= j <= k < d.len() ==> #[trigger] lex_le(
                sorted_rotations(d)[j],
                sorted_rotations(d)[k],
            ),
{
    let m = sorted_rotations(d);
    lemma_lex_total_ordering();
    rotations(d).lemma_sort_by_ensures(lex_order());
    m.to_multiset_ensures();
    rotations(d).to_multiset_ensures();
    assert forall|j: int| 0 <= j < d.len() implies (#[trigger] sorted_rotations(d)[j]).len()
        == d.len() by {
        assert(m.contains(m[j]));
        assert(rotations(d).contains(m[j]));
    }
    assert forall|j: int, k: int| 0 <= j <= k < d.len() implies #[trigger] lex_le(
        sorted_rotations(d)[j],
        sorted_rotations(d)[k],
    ) by {
        if j == k {
            lemma_lex_reflexive(m[j]);
        } else {
            assert(sorted_by(m, lex_order()));
            assert(lex_order()(m[j], m[k]));
        }
    }
}

/// In the sorted matrix, the LF mapping sends row `i` to the row that
/// holds the right rotation of row `i`.
proof fn lemma_lf_rotates(d: Seq<u8>, i: int)
    requires
        0 <= i < d.len(),
    ensures
        lf(spec_bwt(d), i) < d.len(),
        sorted_rotations(d)[lf(spec_bwt(d), i) as int] == rotate_right(sorted_rotations(d)[i]),
{
    let n = d.len();
    let m = sorted_rotations(d);
    let l = spec_bwt(d);
    let c = l[i];
    let y = rotate_right(m[i]);
    let rr = |x: Seq<u8>| rotate_right(x);
    let rm = m.map_values(rr);
    lemma_sorted_rows(d);
    lemma_lf_bound(l, i);
    let pos = lf(l, i) as int;

    // The rows below `y`, and those no later than `y`, form prefixes.
    let below = |z: Seq<u8>| lex_le(z, y) && z != y;
    let upto = |z: Seq<u8>| lex_le(z, y);
    let f1 = |j: int| below(m[j]);
    let f2 = |j: int| upto(m[j]);
    assert forall|p: int, q: int| 0 <= q <= p < n && #[trigger] f1(p) implies #[trigger] f1(q) by {
        assert(lex_le(m[q], m[p]));
        lemma_lex_transitive(m[q], m[p], y);
        if m[q] == y {
            lemma_lex_antisymmetric(m[p], y);
        }
    }
    assert forall|p: int, q: int| 0 <= q <= p < n && #[trigger] f2(p) implies #[trigger] f2(q) by {
        assert(lex_le(m[q], m[p]));
        lemma_lex_transitive(m[q], m[p], y);
    }
    lemma_count_prefix(n, f1);
    lemma_count_prefix(n, f2);

    // Counting rows in `m` is counting them among their right rotations.
    lemma_map_multiset(m, rotations(d), rr);
    lemma_rotations_rotate_right(d);
    assert(rotations(d).map_values(rr) == rotations(d).map_values(|x: Seq<u8>| rotate_right(x)));
    lemma_rows_count_perm(m, rm, below);
    lemma_rows_count_perm(m, rm, upto);
    lemma_count_congruent(n, |j: int| below(m[j]), f1);
    lemma_count_congruent(n, |j: int| upto(m[j]), f2);

    // How a rotated row compares with `y`.
    let smaller_last = |j: int| l[j] < c;
    let same_last = |j: int| l[j] == c;
    let same_below = |j: int| l[j] == c && lex_le(m[j], m[i]) && m[j] != m[i];
    let same_upto = |j: int| l[j] == c && lex_le(m[j], m[i]);
    assert forall|j: int| 0 <= j < n implies #[trigger] l[j] == m[j].last() by {}
    assert forall|j: int| 0 <= j < n implies (#[trigger] below(rm[j]) <==> smaller_last(j)
        || same_below(j)) && !(smaller_last(j) && same_below(j)) by {
        assert(l[j] == m[j].last());
        lemma_rotate_right_order(m[j], m[i]);
    }
    assert forall|j: int| 0 <= j < n implies (#[trigger] upto(rm[j]) <==> smaller_last(j)
        || same_upto(j)) && !(smaller_last(j) && same_upto(j)) by {
        assert(l[j] == m[j].last());
        lemma_rotate_right_order(m[j], m[i]);
    }
    lemma_count_or(n, smaller_last, same_below, |j: int| below(rm[j]));
    lemma_count_or(n, smaller_last, same_upto, |j: int| upto(rm[j]));
    lemma_count_below(l, c);
    lemma_count_equal(l, c, i);

    // At most the earlier rows ending in `c` rotate to rows below `y`.
    assert forall|j: int| i <= j < n implies !#[trigger] same_below(j) by {
        assert(lex_le(m[i], m[j]));
        if lex_le(m[j], m[i]) {
            lemma_lex_antisymmetric(m[i], m[j]);
        }
    }
    lemma_count_none_after(i as nat, n, same_below);
    assert forall|j: int| 0 <= j < i && #[trigger] same_below(j) implies same_last(j) by {}
    lemma_count_mono(i as nat, same_below, same_last);

    // All of them, and row `i` itself, rotate to rows no later than `y`.
    assert forall|j: int| 0 <= j < i && #[trigger] same_last(j) implies same_upto(j) by {
        assert(lex_le(m[j], m[i]));
    }
    lemma_count_mono(i as nat, same_last, same_upto);
    assert(lex_le(m[i], m[i]));
    assert(same_upto(i));
    lemma_count_grows((i + 1) as nat, n, same_upto);

    // So `pos` lies among the rows equal to `y`.
    assert(f2(pos) && !f1(pos));
}

/// One step of the LF mapping from the row holding the rotation at `k`
/// reaches the row holding the rotation at `k - 1`.
proof fn lemma_walk_step(d: Seq<u8>, r: int, k: int)
    requires
        0 <= r < d.len(),
        1 <= k <= d.len(),
        sorted_rotations(d)[r] == rotation(d, k),
    ensures
        lf(spec_bwt(d), r) < d.len(),
        sorted_rotations(d)[lf(spec_bwt(d), r) as int] == rotation(d, k - 1),
{
    lemma_lf_rotates(d, r);
    lemma_rotate_right_rotation(d, k);
}

/// Walking the LF mapping `k` steps from the primary row reaches the row
/// holding the rotation that starts `k` bytes before the end.
#[verifier::spinoff_prover]
proof fn lemma_walk_rows(d: Seq<u8>, idx: int, k: nat)
    requires
        0 <= idx < d.len(),
        sorted_rotations(d)[idx] == d,
        k < d.len(),
    ensures
        0 <= walk_row(spec_bwt(d), idx, k) < d.len(),
        sorted_rotations(d)[walk_row(spec_bwt(d), idx, k)] == rotation(d, d.len() - k),
    decreases k,
{
    if k == 0 {
        lemma_rotation_full(d);
    } else {
        lemma_walk_rows(d, idx, (k - 1) as nat);
        let r = walk_row(spec_bwt(d), idx, (k - 1) as nat);
        lemma_walk_step(d, r, d.len() - k + 1);
    }
}

/// Decoding the BWT of `d` from a primary index of `d` rebuilds `d`.
pub proof fn lemma_bwt_roundtrip(d: Seq<u8>, idx: u32)
    requires
        d.len() > 0 ==> idx < d.len() && sorted_rotations(d)[idx as int] == d,
    ensures
        spec_bwt_decode(spec_bwt(d), idx) == d,
{
    let n = d.len() as int;
    let l = spec_bwt(d);
    let out = spec_bwt_decode(l, idx);
    assert forall|j: int| 0 <= j < n implies #[trigger] out[j] == d[j] by {
        let k = (n - 1 - j) as nat;
        lemma_walk_rows(d, idx as int, k);
        lemma_sorted_rows(d);
        let r = walk_row(l, idx as int, k);
        assert(l[r] == sorted_rotations(d)[r][n - 1]);
        assert(rotation(d, j + 1)[n - 1] == d[(j + 1 + n - 1) % n]);
        vstd::arithmetic::div_mod::lemma_mod_add_multiples_vanish(j, n);
        vstd::arithmetic::div_mod::lemma_small_mod(j as nat, n as nat);
        assert(j + 1 + n - 1 == n + j);
    }
    assert(out =~= d);
}

// ---------------------------------------------------------------------------
// The transform of a rotation.
// ---------------------------------------------------------------------------

/// `d` rotated left by `k`: its bytes from `k` on, then those before `k`.
pub open spec fn rotate_left(d: Seq<u8>, k: int) -> Seq<u8> {
    d.subrange(k, d.len() as int) + d.subrange(0, k)
}

/// The rotations of a rotation of `d` are rotations of `d`.
proof fn lemma_rotation_of_rotation(d: Seq<u8>, k: int, i: int)
    requires
        0 <= k < d.len(),
        0 <= i < d.len(),
    ensures
        rotation(rotate_left(d, k), i) == rotation(d, (i + k) % (d.len() as int)),
{
    let n = d.len() as int;
    let r = rotate_left(d, k);
    let ik = (i + k) % n;
    assert forall|t: int| 0 <= t < n implies #[trigger] rotation(r, i)[t] == rotation(d, ik)[t] by {
        let m = (i + t) % n;
        vstd::arithmetic::div_mod::lemma_mod_bound(i + t, n);
        if m < n - k {
            assert(r[m] == d[m + k]);
            vstd::arithmetic::div_mod::lemma_small_mod((m + k) as nat, n as nat);
        } else {
            assert(r[m] == d[m + k - n]);
            vstd::arithmetic::div_mod::lemma_mod_add_multiples_vanish(m + k - n, n);
            vstd::arithmetic::div_mod::lemma_small_mod((m + k - n) as nat, n as nat);
        }
        vstd::arithmetic::div_mod::lemma_add_mod_noop(i + t, k, n);
        vstd::arithmetic::div_mod::lemma_small_mod(k as nat, n as nat);
        vstd::arithmetic::div_mod::lemma_add_mod_noop(i + k, t, n);
        vstd::arithmetic::div_mod::lemma_small_mod(t as nat, n as nat);
        assert(i + t + k == i + k + t);
    }
    assert(rotation(r, i) =~= rotation(d, ik));
}

/// Rotating the data does not change its transform: the matrix of sorted
/// rotations, and so its last column, depend only on the set of rotations.
/// (The primary index does change.)
pub proof fn lemma_bwt_of_rotation(d: Seq<u8>, k: int)
    requires
        0 <= k < d.len(),
    ensures
        sorted_rotations(rotate_left(d, k)) == sorted_rotations(d),
        spec_bwt(rotate_left(d, k)) == spec_bwt(d),
{
    let n = d.len() as int;
    let r = rotate_left(d, k);
    let rs = rotations(d);
    let front = rs.subrange(k, n);
    let back = rs.subrange(0, k);
    assert(rotations(r) =~= front + back) by {
        assert forall|i: int| 0 <= i < n implies #[trigger] rotations(r)[i] == (front + back)[i] by {
            lemma_rotation_of_rotation(d, k, i);
            if i < n - k {
                vstd::arithmetic::div_mod::lemma_small_mod((i + k) as nat, n as nat);
                assert((front + back)[i] == rs[i + k]);
            } else {
                vstd::arithmetic::div_mod::lemma_mod_add_multiples_vanish(i + k - n, n);
                vstd::arithmetic::div_mod::lemma_small_mod((i + k - n) as nat, n as nat);
                assert((front + back)[i] == rs[i + k - n]);
            }
        }
    }
    assert(rs =~= back + front);
    lemma_swap_halves_multiset(front, back);
    lemma_lex_total_ordering();
    rs.lemma_sort_by_ensures(lex_order());
    rotations(r).lemma_sort_by_ensures(lex_order());
    vstd::seq_lib::lemma_sorted_unique(sorted_rotations(r), sorted_rotations(d), lex_order());
    assert(spec_bwt(r) =~= spec_bwt(d));
}

} // verus!
