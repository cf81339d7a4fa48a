//! Solver for the n-ring disengagement puzzle.
//!
//! A state is one boolean per ring (`true` = engaged). Ring `k` may be
//! toggled exactly when `k == 0`, or ring `k - 1` is engaged and every ring
//! below `k - 1` is disengaged. The solver runs a breadth-first search over
//! this legal-move graph from the all-`false` state to the all-`true` state,
//! trying toggle indices in ascending order so the found sequence is the
//! canonical one, and returns the full state sequence of one shortest
//! solution.

use vstd::prelude::*;

use crate::tally::{count_true, fill_bool, fill_usize, lemma_count_all_false, lemma_count_true_le_len, lemma_count_true_set};
use crate::InvalidRingCountError;

verus! {

/// Every ring disengaged.
pub open spec fn all_false(s: Seq<bool>) -> bool {
    forall|i: int| 0 <= i < s.len() ==> !s[i]
}

/// Every ring engaged.
pub open spec fn all_true(s: Seq<bool>) -> bool {
    forall|i: int| 0 <= i < s.len() ==> s[i]
}

/// The legal-move rule: ring `k` may be toggled exactly when `k` is the
/// lowest ring, or ring `k - 1` is engaged and every ring below `k - 1` is
/// disengaged. The rule is symmetric: it covers engaging and disengaging.
pub open spec fn togglable(s: Seq<bool>, k: int) -> bool {
    &&& 0 <= k < s.len()
    &&& (k == 0 || (s[k - 1] && forall|i: int| 0 <= i < k - 1 ==> !s[i]))
}

/// One legal move: the two states differ in exactly one index, and that
/// index was togglable in the prior state.
#[verifier::opaque]
pub open spec fn ring_step(s: Seq<bool>, t: Seq<bool>) -> bool {
    exists|k: int| #[trigger] togglable(s, k) && t == s.update(k, !s[k])
}

/// The boolean state encoded by the low `n` bits of `m`: ring `i` is engaged
/// exactly when bit `i` is set.
pub open spec fn mask_bits(m: usize, n: nat) -> Seq<bool> {
    Seq::new(n, |i: int| (m >> (i as usize)) & 1 == 1)
}

/// The all-zero mask encodes the all-disengaged state.
proof fn lemma_mask_zero(n: nat)
    requires
        n < 32,
    ensures
        all_false(mask_bits(0, n)),
{
    assert forall|i: int| 0 <= i < n implies !mask_bits(0, n)[i] by {
        let iu = i as usize;
        assert((0usize >> iu) & 1 == 0) by (bit_vector)
            requires
                iu < 32,
        ;
    }
}

/// The all-ones mask encodes the all-engaged state.
proof fn lemma_mask_goal(n: usize, goal: usize)
    requires
        1 <= n < 32,
        goal == (1usize << n) - 1,
    ensures
        all_true(mask_bits(goal, n as nat)),
{
    assert forall|i: int| 0 <= i < n implies mask_bits(goal, n as nat)[i] by {
        let iu = i as usize;
        assert((goal >> iu) & 1 == 1) by (bit_vector)
            requires
                iu < n && n < 32 && goal == (1usize << n) - 1,
        ;
    }
}

/// Toggling one bit keeps the mask inside the state space and flips exactly
/// that ring of the encoded state.
proof fn lemma_toggle_mask(u: usize, k: usize, n: usize)
    requires
        n < 32,
        k < n,
        u < (1usize << n),
    ensures
        (u ^ (1usize << k)) < (1usize << n),
        mask_bits(u ^ (1usize << k), n as nat) == mask_bits(u, n as nat).update(
            k as int,
            !mask_bits(u, n as nat)[k as int],
        ),
{
    let w = u ^ (1usize << k);
    assert(w < (1usize << n)) by (bit_vector)
        requires
            k < n && n < 32 && u < (1usize << n) && w == u ^ (1usize << k),
    ;
    let s = mask_bits(u, n as nat);
    let t = mask_bits(w, n as nat);
    assert forall|i: int| 0 <= i < n implies t[i] == s.update(k as int, !s[k as int])[i] by {
        let iu = i as usize;
        if iu == k {
            assert(((w >> iu) & 1 == 1) == !((u >> iu) & 1 == 1)) by (bit_vector)
                requires
                    w == u ^ (1usize << k) && iu == k && k < 32,
            ;
        } else {
            assert((w >> iu) & 1 == (u >> iu) & 1) by (bit_vector)
                requires
                    w == u ^ (1usize << k) && iu != k && k < 32 && iu < 32,
            ;
        }
    }
    assert(t =~= s.update(k as int, !s[k as int]));
}

/// Distinct masks encode distinct states: the low `n` bits determine the
/// mask.
proof fn lemma_mask_bits_injective(u: usize, w: usize, n: usize)
    requires
        n < 32,
        u < (1usize << n),
        w < (1usize << n),
        mask_bits(u, n as nat) == mask_bits(w, n as nat),
    ensures
        u == w,
    decreases n,
{
    if n == 0 {
        assert((1usize << 0usize) == 1) by (bit_vector);
    } else {
        let np = (n - 1) as usize;
        assert((1usize << np) >= 1) by (bit_vector)
            requires
                np < 32,
        ;
        let m1: usize = ((1usize << np) - 1) as usize;
        assert(m1 == (1usize << np) - 1);
        let u2: usize = u & m1;
        let w2: usize = w & m1;
        assert(u2 < (1usize << np) && w2 < (1usize << np)) by (bit_vector)
            requires
                np < 32 && m1 == (1usize << np) - 1 && u2 == u & m1 && w2 == w & m1,
        ;
        assert forall|i: int| 0 <= i < np implies mask_bits(u2, np as nat)[i] == mask_bits(
            w2,
            np as nat,
        )[i] by {
            let iu = i as usize;
            assert((u2 >> iu) & 1 == (u >> iu) & 1) by (bit_vector)
                requires
                    iu < np && np < 32 && m1 == (1usize << np) - 1 && u2 == u & m1,
            ;
            assert((w2 >> iu) & 1 == (w >> iu) & 1) by (bit_vector)
                requires
                    iu < np && np < 32 && m1 == (1usize << np) - 1 && w2 == w & m1,
            ;
            assert(mask_bits(u2, np as nat)[i] == ((u2 >> iu) & 1 == 1));
            assert(mask_bits(w2, np as nat)[i] == ((w2 >> iu) & 1 == 1));
            assert(mask_bits(u, n as nat)[i] == ((u >> iu) & 1 == 1));
            assert(mask_bits(w, n as nat)[i] == ((w >> iu) & 1 == 1));
            assert(mask_bits(u, n as nat)[i] == mask_bits(w, n as nat)[i]);
        }
        assert(mask_bits(u2, np as nat) =~= mask_bits(w2, np as nat));
        lemma_mask_bits_injective(u2, w2, np);
        assert(mask_bits(u, n as nat)[np as int] == mask_bits(w, n as nat)[np as int]);
        assert(mask_bits(u, n as nat)[np as int] == ((u >> np) & 1 == 1));
        assert(mask_bits(w, n as nat)[np as int] == ((w >> np) & 1 == 1));
        assert((u >> np) & 1 == 0 || (u >> np) & 1 == 1) by (bit_vector)
            requires
                np < 32,
        ;
        assert((w >> np) & 1 == 0 || (w >> np) & 1 == 1) by (bit_vector)
            requires
                np < 32,
        ;
        assert((u >> np) & 1 == (w >> np) & 1);
        assert(u == w) by (bit_vector)
            requires
                np + 1 == n && n < 32 && u < (1usize << n) && w < (1usize << n) && m1 == (1usize
                    << np) - 1 && u2 == u & m1 && w2 == w & m1 && u2 == w2 && (u >> np) & 1 == (w
                    >> np) & 1,
        ;
    }
}


/// One legal move between mask-encoded states, toggling some ring below `m`
/// (the state width for legality stays `n`).
pub open spec fn mask_step_below(n: usize, m: usize, u: usize, w: usize) -> bool {
    exists|k: usize|
        k < m && #[trigger] togglable(mask_bits(u, n as nat), k as int) && w == u ^ (1usize << k)
}

/// A walk of legal moves over mask-encoded states that touches only the low
/// `m` rings: every mask stays below `2^m` and every toggle index below `m`.
pub open spec fn low_chain(n: usize, m: usize, c: Seq<usize>) -> bool {
    &&& c.len() >= 1
    &&& forall|i: int| 0 <= i < c.len() ==> (#[trigger] c[i]) < (1usize << m)
    &&& forall|i: int| 0 <= i && i + 1 < c.len() ==> mask_step_below(n, m, #[trigger] c[i], c[i + 1])
}

/// A walk over the low `m` rings is also a walk over the low `m2` rings for
/// any wider bound `m2`.
proof fn lemma_chain_widen(n: usize, m: usize, m2: usize, c: Seq<usize>)
    requires
        m <= m2,
        m2 < 32,
        low_chain(n, m, c),
    ensures
        low_chain(n, m2, c),
{
    assert((1usize << m) <= (1usize << m2)) by (bit_vector)
        requires
            m <= m2 && m2 < 32,
    ;
    assert forall|i: int| 0 <= i && i + 1 < c.len() implies mask_step_below(
        n,
        m2,
        #[trigger] c[i],
        c[i + 1],
    ) by {
        let k = choose|k: usize|
            k < m && #[trigger] togglable(mask_bits(c[i], n as nat), k as int) && c[i + 1] == c[i]
                ^ (1usize << k);
        assert(k < m2 && togglable(mask_bits(c[i], n as nat), k as int) && c[i + 1] == c[i] ^ (
        1usize << k));
    }
}

/// The legal-move rule is symmetric, so every legal move can be walked back.
proof fn lemma_step_sym(n: usize, m: usize, u: usize, w: usize)
    requires
        n < 32,
        m <= n,
        u < (1usize << n),
        mask_step_below(n, m, u, w),
    ensures
        mask_step_below(n, m, w, u),
        w < (1usize << n),
{
    let k = choose|k: usize|
        k < m && #[trigger] togglable(mask_bits(u, n as nat), k as int) && w == u ^ (1usize << k);
    lemma_toggle_mask(u, k, n);
    let su = mask_bits(u, n as nat);
    let sw = mask_bits(w, n as nat);
    assert(forall|i: int| 0 <= i < n && i != k ==> sw[i] == su[i]);
    assert(togglable(sw, k as int));
    assert(u == w ^ (1usize << k)) by (bit_vector)
        requires
            w == u ^ (1usize << k),
    ;
    assert(mask_step_below(n, m, w, u));
}

/// A legal walk read backwards is a legal walk.
proof fn lemma_chain_rev(n: usize, m: usize, c: Seq<usize>) -> (r: Seq<usize>)
    requires
        n < 32,
        m <= n,
        low_chain(n, m, c),
    ensures
        low_chain(n, m, r),
        r.len() == c.len(),
        r[0] == c[c.len() - 1],
        r[r.len() - 1] == c[0],
    decreases c.len(),
{
    assert((1usize << m) <= (1usize << n)) by (bit_vector)
        requires
            m <= n && n < 32,
    ;
    let r = Seq::new(c.len(), |i: int| c[c.len() - 1 - i]);
    assert forall|i: int| 0 <= i && i + 1 < r.len() implies mask_step_below(
        n,
        m,
        #[trigger] r[i],
        r[i + 1],
    ) by {
        let j = c.len() - 2 - i;
        assert(r[i] == c[j + 1]);
        assert(r[i + 1] == c[j]);
        assert(mask_step_below(n, m, c[j], c[j + 1]));
        lemma_step_sym(n, m, c[j], c[j + 1]);
    }
    r
}

/// Setting one ring above every ring a walk touches leaves the walk legal:
/// the move rule only reads rings below the toggled one.
proof fn lemma_chain_lift(n: usize, m: usize, h: usize, hp: usize, c: Seq<usize>) -> (r: Seq<usize>)
    requires
        n < 32,
        m <= h,
        h < n,
        hp == h + 1,
        low_chain(n, m, c),
    ensures
        low_chain(n, hp, r),
        r.len() == c.len(),
        forall|i: int| 0 <= i < c.len() ==> #[trigger] r[i] == (c[i] | (1usize << h)),
{
    let hbit = 1usize << h;
    let r = Seq::new(c.len(), |i: int| c[i] | hbit);
    assert forall|i: int| 0 <= i < r.len() implies (#[trigger] r[i]) < (1usize << hp) by {
        let u = c[i];
        assert(u < (1usize << m));
        assert((u | (1usize << h)) < (1usize << hp)) by (bit_vector)
            requires
                u < (1usize << m) && m <= h && h < 32 && hp == h + 1 && hp < 32,
        ;
    }
    assert forall|i: int| 0 <= i && i + 1 < r.len() implies mask_step_below(
        n,
        hp,
        #[trigger] r[i],
        r[i + 1],
    ) by {
        let u = c[i];
        let w = c[i + 1];
        let k = choose|k: usize|
            k < m && #[trigger] togglable(mask_bits(u, n as nat), k as int) && w == u ^ (1usize
                << k);
        let u2 = u | hbit;
        let w2 = w | hbit;
        assert forall|b: int| 0 <= b < h implies mask_bits(u2, n as nat)[b] == mask_bits(
            u,
            n as nat,
        )[b] by {
            let bu = b as usize;
            assert(((u | (1usize << h)) >> bu) & 1 == (u >> bu) & 1) by (bit_vector)
                requires
                    bu < h && h < 32,
            ;
        }
        assert(togglable(mask_bits(u2, n as nat), k as int));
        assert(w2 == u2 ^ (1usize << k)) by (bit_vector)
            requires
                w == u ^ (1usize << k) && k < h && h < 32 && u2 == u | (1usize << h) && w2 == w | (
                1usize << h),
        ;
        assert(mask_step_below(n, hp, u2, w2));
    }
    r
}

/// Two legal walks that meet at a state join into one legal walk.
proof fn lemma_chain_join(n: usize, m: usize, c1: Seq<usize>, c2: Seq<usize>) -> (r: Seq<usize>)
    requires
        low_chain(n, m, c1),
        low_chain(n, m, c2),
        c1[c1.len() - 1] == c2[0],
    ensures
        low_chain(n, m, r),
        r[0] == c1[0],
        r[r.len() - 1] == c2[c2.len() - 1],
{
    let r = c1 + c2.subrange(1, c2.len() as int);
    assert(forall|i: int| 0 <= i < c1.len() ==> r[i] == c1[i]);
    assert(forall|i: int| c1.len() <= i < r.len() ==> r[i] == c2[i - c1.len() + 1]);
    assert(r[r.len() - 1] == c2[c2.len() - 1]);
    assert forall|i: int| 0 <= i && i + 1 < r.len() implies mask_step_below(
        n,
        m,
        #[trigger] r[i],
        r[i + 1],
    ) by {
        if i + 1 < c1.len() {
            assert(mask_step_below(n, m, c1[i], c1[i + 1]));
        } else if i + 1 == c1.len() {
            assert(r[i] == c2[0]);
            assert(r[i + 1] == c2[1]);
            assert(mask_step_below(n, m, c2[0], c2[1]));
        } else {
            let p = i - c1.len() + 1;
            assert(r[i] == c2[p]);
            assert(r[i + 1] == c2[p + 1]);
            assert(mask_step_below(n, m, c2[p], c2[p + 1]));
        }
    }
    r
}

/// The puzzle is solvable: for every ring count there is a legal walk from
/// the all-disengaged state to the all-engaged state, built by the classic
/// recursion — solve the low rings up to their top-only state, engage the
/// next ring, walk the low rings back down, then solve them again.
proof fn lemma_rings_solvable(n: usize, m: usize)
    requires
        1 <= m,
        m <= n,
        n < 32,
    ensures
        exists|c: Seq<usize>|
            #[trigger] low_chain(n, m, c) && c[0] == 0 && 2 * c[c.len() - 1] == (1usize << m),
        exists|c: Seq<usize>|
            #[trigger] low_chain(n, m, c) && c[0] == 0 && c[c.len() - 1] == (1usize << m) - 1,
    decreases m,
{
    if m == 1 {
        let c = seq![0usize, 1usize];
        assert(togglable(mask_bits(0, n as nat), 0));
        assert(1usize == 0usize ^ (1usize << 0usize)) by (bit_vector);
        assert(0usize < (1usize << 1usize) && 1usize < (1usize << 1usize)) by (bit_vector);
        assert(mask_step_below(n, m, 0, 1));
        assert(low_chain(n, m, c));
        assert(c[c.len() - 1] == 1usize);
        assert(2 * 1usize == (1usize << 1usize)) by (bit_vector);
        assert(1usize == (1usize << 1usize) - 1) by (bit_vector);
    } else {
        let mp = (m - 1) as usize;
        lemma_rings_solvable(n, mp);
        let a1 = choose|c: Seq<usize>|
            #[trigger] low_chain(n, mp, c) && c[0] == 0 && 2 * c[c.len() - 1] == (1usize << mp);
        let b1 = choose|c: Seq<usize>|
            #[trigger] low_chain(n, mp, c) && c[0] == 0 && c[c.len() - 1] == (1usize << mp) - 1;
        let t1 = a1[a1.len() - 1];
        let hbit = 1usize << mp;
        let top = t1 ^ hbit;
        // Engaging ring m-1 is legal at the top-only state of the low rings.
        assert forall|b: int| 0 <= b < mp - 1 implies !mask_bits(t1, n as nat)[b] by {
            let bu = b as usize;
            assert((t1 >> bu) & 1 == 0) by (bit_vector)
                requires
                    2 * t1 == (1usize << mp) && bu + 1 < mp && mp < 32,
            ;
        }
        assert(mask_bits(t1, n as nat)[mp - 1]) by {
            let bu = (mp - 1) as usize;
            assert((t1 >> bu) & 1 == 1) by (bit_vector)
                requires
                    2 * t1 == (1usize << mp) && bu + 1 == mp && mp < 32,
            ;
        }
        assert(togglable(mask_bits(t1, n as nat), mp as int));
        assert(mask_step_below(n, m, t1, top));
        assert(t1 < (1usize << m) && top < (1usize << m) && hbit < (1usize << m)) by (bit_vector)
            requires
                2 * t1 == (1usize << mp) && top == t1 ^ (1usize << mp) && hbit == (1usize << mp)
                    && mp + 1 == m && m < 32,
        ;
        let s = seq![t1, top];
        assert(low_chain(n, m, s));
        // Up to the top-only low state, engage the new top ring, then walk
        // the low rings back down to zero with the top ring set.
        lemma_chain_widen(n, mp, m, a1);
        let down = lemma_chain_rev(n, mp, a1);
        let lifted_down = lemma_chain_lift(n, mp, mp, m, down);
        assert(lifted_down[0] == (t1 | hbit));
        assert(t1 | hbit == top) by (bit_vector)
            requires
                2 * t1 == (1usize << mp) && top == t1 ^ (1usize << mp) && hbit == (1usize << mp)
                    && mp < 32,
        ;
        assert(lifted_down[lifted_down.len() - 1] == (0usize | hbit));
        assert(0usize | hbit == hbit) by (bit_vector);
        let first = lemma_chain_join(n, m, a1, s);
        let reach_top = lemma_chain_join(n, m, first, lifted_down);
        assert(reach_top[0] == 0 && reach_top[reach_top.len() - 1] == hbit);
        assert(2 * hbit == (1usize << m)) by (bit_vector)
            requires
                hbit == (1usize << mp) && mp + 1 == m && m < 32,
        ;
        assert(low_chain(n, m, reach_top) && reach_top[0] == 0 && 2 * reach_top[reach_top.len()
            - 1] == (1usize << m));
        // From there, solve the low rings again with the top ring set.
        let bl = b1[b1.len() - 1];
        let lifted_b = lemma_chain_lift(n, mp, mp, m, b1);
        assert(lifted_b[0] == (0usize | hbit));
        assert(lifted_b[lifted_b.len() - 1] == (bl | hbit));
        assert(bl | hbit == (1usize << m) - 1) by (bit_vector)
            requires
                bl == (1usize << mp) - 1 && hbit == (1usize << mp) && mp + 1 == m && m < 32,
        ;
        let full = lemma_chain_join(n, m, reach_top, lifted_b);
        assert(low_chain(n, m, full) && full[0] == 0 && full[full.len() - 1] == (1usize << m) - 1);
    }
}


/// Whether ring `k` may be toggled in the state encoded by `u`.
fn can_toggle(u: usize, k: usize, n: usize) -> (b: bool)
    requires
        n < 32,
        k < n,
    ensures
        b == togglable(mask_bits(u, n as nat), k as int),
{
    let ghost s = mask_bits(u, n as nat);
    if k == 0 {
        return true;
    }
    if (u >> (k - 1)) & 1 != 1 {
        assert(!s[k - 1 as int]);
        return false;
    }
    let lim = k - 1;
    let mut i: usize = 0;
    while i < lim
        invariant
            n < 32,
            k < n,
            lim == k - 1,
            i <= lim,
            s == mask_bits(u, n as nat),
            forall|j: int| 0 <= j < i ==> !s[j],
        decreases lim - i,
    {
        if (u >> i) & 1 == 1 {
            assert(s[i as int]);
            assert(!togglable(s, k as int));
            return false;
        }
        i = i + 1;
    }
    assert(s[k - 1 as int]);
    true
}

/// The boolean state vector encoded by the low `n` bits of `mask`.
fn mask_to_vec(mask: usize, n: usize) -> (r: Vec<bool>)
    requires
        n < 32,
    ensures
        r@ == mask_bits(mask, n as nat),
{
    let mut r: Vec<bool> = Vec::new();
    let mut i: usize = 0;
    while i < n
        invariant
            n < 32,
            i <= n,
            r@.len() == i,
            forall|j: int| 0 <= j < i ==> r@[j] == ((mask >> (j as usize)) & 1 == 1),
        decreases n - i,
    {
        r.push((mask >> i) & 1 == 1);
        i = i + 1;
    }
    proof {
        assert(r@ =~= mask_bits(mask, n as nat));
    }
    r
}

/// Along a legal walk that starts at a visited mask, every mask stays
/// visited whenever the visited set is closed under legal moves.
proof fn lemma_chain_visited(n: usize, total: usize, vis: Seq<bool>, c: Seq<usize>)
    requires
        n < 32,
        total == 1usize << n,
        vis.len() == total,
        low_chain(n, n, c),
        vis[c[0] as int],
        forall|vu: usize, k: int|
            vu < total && vis[vu as int] && 0 <= k < n && #[trigger] togglable(
                mask_bits(vu, n as nat),
                k,
            ) ==> (vu ^ (1usize << (k as usize))) < total && vis[(vu ^ (1usize << (k
                as usize))) as int],
    ensures
        vis[c[c.len() - 1] as int],
    decreases c.len(),
{
    if c.len() > 1 {
        let k = choose|k: usize|
            k < n && #[trigger] togglable(mask_bits(c[0], n as nat), k as int) && c[1] == c[0] ^ (
            1usize << k);
        assert(c[0] < total);
        assert(((k as int) as usize) == k);
        assert(togglable(mask_bits(c[0], n as nat), k as int));
        assert(vis[(c[0] ^ (1usize << k)) as int]);
        let c2 = c.subrange(1, c.len() as int);
        assert(c2[0] == c[1]);
        assert(c2[c2.len() - 1] == c[c.len() - 1]);
        assert forall|i: int| 0 <= i < c2.len() implies (#[trigger] c2[i]) < (1usize << n) by {
            assert(c2[i] == c[i + 1]);
        }
        assert forall|i: int| 0 <= i && i + 1 < c2.len() implies mask_step_below(
            n,
            n,
            #[trigger] c2[i],
            c2[i + 1],
        ) by {
            assert(c2[i] == c[i + 1]);
            assert(c2[i + 1] == c[i + 2]);
            assert(mask_step_below(n, n, c[i + 1], c[i + 2]));
        }
        lemma_chain_visited(n, total, vis, c2);
    }
}


/// Rebuilds the state sequence of the found solution: walks the predecessor
/// links from the goal mask back to the all-zero mask, then emits the states
/// in solving order.
fn rebuild(
    pred: &Vec<usize>,
    dist: &Vec<usize>,
    visited: &Vec<bool>,
    n: usize,
    total: usize,
    goal: usize,
) -> (states: Vec<Vec<bool>>)
    requires
        1 <= n && n < 32,
        total == 1usize << n,
        goal < total,
        visited@.len() == total,
        dist@.len() == total,
        pred@.len() == total,
        visited@[goal as int],
        forall|v: int|
            0 <= v < total && #[trigger] visited@[v] && v != 0 ==> pred@[v] < total
                && visited@[pred@[v] as int] && dist@[v] == dist@[pred@[v] as int] + 1
                && ring_step(mask_bits(pred@[v], n as nat), mask_bits(v as usize, n as nat)),
    ensures
        states@.len() >= 1,
        states@[0]@ == mask_bits(0, n as nat),
        states@[states@.len() - 1]@ == mask_bits(goal, n as nat),
        forall|i: int| 0 <= i < states@.len() ==> (#[trigger] states@[i])@.len() == n,
        forall|i: int|
            0 <= i && i + 1 < states@.len() ==> ring_step(
                (#[trigger] states@[i])@,
                states@[i + 1]@,
            ),
        forall|a: int, b: int| 0 <= a < b < states@.len() ==> states@[a]@ != states@[b]@,
{
    // Walk the predecessor links back to the all-`false` state.
    let mut chain: Vec<usize> = Vec::new();
    let mut cur = goal;
    chain.push(cur);
    while cur != 0
        invariant
            1 <= n && n < 32,
            goal < total,
            visited@.len() == total,
            dist@.len() == total,
            pred@.len() == total,
            forall|v: int|
                0 <= v < total && #[trigger] visited@[v] && v != 0 ==> pred@[v] < total
                    && visited@[pred@[v] as int] && dist@[v] == dist@[pred@[v] as int] + 1
                    && ring_step(mask_bits(pred@[v], n as nat), mask_bits(v as usize, n as nat)),
            cur < total,
            visited@[cur as int],
            chain@.len() >= 1,
            chain@[0] == goal,
            chain@[chain@.len() - 1] == cur,
            forall|j: int| 0 <= j < chain@.len() ==> (#[trigger] chain@[j]) < total,
            forall|j: int|
                0 <= j < chain@.len() ==> dist@[(#[trigger] chain@[j]) as int] + j == dist@[goal as int],
            forall|j: int|
                0 <= j && j + 1 < chain@.len() ==> ring_step(
                    mask_bits(chain@[j + 1], n as nat),
                    mask_bits(#[trigger] chain@[j], n as nat),
                ),
        decreases dist@[cur as int],
    {
        let p = pred[cur];
        chain.push(p);
        cur = p;
    }
    proof {
        assert forall|a: int, b: int| 0 <= a < b < chain@.len() implies chain@[a] != chain@[b] by {
            assert(dist@[chain@[a] as int] + a == dist@[goal as int]);
            assert(dist@[chain@[b] as int] + b == dist@[goal as int]);
        }
    }
    // Emit the states from the all-`false` state to the goal.
    let m = chain.len();
    let mut states: Vec<Vec<bool>> = Vec::new();
    let mut i: usize = 0;
    while i < m
        invariant
            n < 32,
            m == chain@.len(),
            i <= m,
            states@.len() == i,
            forall|j: int| 0 <= j < chain@.len() ==> (#[trigger] chain@[j]) < total,
            forall|a: int, b: int| 0 <= a < b < chain@.len() ==> chain@[a] != chain@[b],
            forall|j: int|
                0 <= j < i ==> (#[trigger] states@[j])@ == mask_bits(chain@[m - 1 - j], n as nat),
        decreases m - i,
    {
        let mask = chain[m - 1 - i];
        let sv = mask_to_vec(mask, n);
        states.push(sv);
        i = i + 1;
    }
    proof {
        assert(states@[0]@ == mask_bits(chain@[m - 1], n as nat));
        assert(chain@[m - 1] == 0);
        assert(states@[states@.len() - 1]@ == mask_bits(goal, n as nat));
        assert forall|i2: int|
            0 <= i2 && i2 + 1 < states@.len() implies ring_step(
            (#[trigger] states@[i2])@,
            states@[i2 + 1]@,
        ) by {
            let j = m - 2 - i2;
            assert(states@[i2]@ == mask_bits(chain@[j + 1], n as nat));
            assert(states@[i2 + 1]@ == mask_bits(chain@[j], n as nat));
        }
        assert forall|a: int, b: int| 0 <= a < b < states@.len() implies states@[a]@
            != states@[b]@ by {
            if states@[a]@ == states@[b]@ {
                lemma_mask_bits_injective(chain@[m - 1 - a], chain@[m - 1 - b], n);
            }
        }
    }
    states
}


/// The discovered masks of finished states are closed under legal moves:
/// for every finished mask and every togglable ring of it — except, while a
/// state is being expanded, the rings `xk` and above of the state `xu` —
/// the move's outcome has been discovered.
#[verifier::opaque]
pub open spec fn toggles_covered(
    n: usize,
    total: usize,
    dn: Seq<bool>,
    vis: Seq<bool>,
    xu: usize,
    xk: usize,
) -> bool {
    forall|vu: usize, k2: int|
        vu < total && dn[vu as int] && 0 <= k2 < n && #[trigger] togglable(
            mask_bits(vu, n as nat),
            k2,
        ) && !(vu == xu && xk <= k2) ==> (vu ^ (1usize << (k2 as usize))) < total && vis[(vu ^ (
        1usize << (k2 as usize))) as int]
}

/// Every discovered but unfinished mask still waits in the live part of the
/// queue.
#[verifier::opaque]
pub open spec fn pending_queued(
    total: usize,
    vis: Seq<bool>,
    dn: Seq<bool>,
    q: Seq<usize>,
    head: int,
) -> bool {
    forall|v: int|
        0 <= v < total && (#[trigger] vis[v]) && !dn[v] ==> exists|i: int|
            head <= i < q.len() && q[i] == v
}

/// Computes the canonical minimal move sequence of the n-ring puzzle.
///
/// Fails with `InvalidRingCountError` exactly for the degenerate puzzle
/// `n == 0`; every other ring count is solvable and solved. On success the
/// returned sequence starts at the all-`false` state, ends at the all-`true`
/// state, and every consecutive pair of states differs in exactly one ring
/// whose toggle was legal in the prior state.
#[verifier::rlimit(100)]
pub fn solve_rings(n: usize) -> (r: Result<Vec<Vec<bool>>, InvalidRingCountError>)
    requires
        n < 32,
    ensures
        r is Err <==> n == 0,
        r matches Ok(states) ==> {
            &&& n > 0
            &&& states@.len() >= 1
            &&& forall|i: int| 0 <= i < states@.len() ==> (#[trigger] states@[i])@.len() == n
            &&& all_false(states@[0]@)
            &&& all_true(states@[states@.len() - 1]@)
            &&& forall|i: int|
                0 <= i && i + 1 < states@.len() ==> ring_step(
                    (#[trigger] states@[i])@,
                    states@[i + 1]@,
                )
            &&& forall|a: int, b: int| 0 <= a < b < states@.len() ==> states@[a]@ != states@[b]@
        },
{
    if n == 0 {
        return Err(InvalidRingCountError);
    }
    let total = 1usize << n;
    proof {
        assert(total >= 2) by (bit_vector)
            requires
                total == 1usize << n && 1 <= n && n < 32,
        ;
    }
    let goal = total - 1;
    proof {
        lemma_mask_goal(n, goal);
        lemma_mask_zero(n as nat);
    }
    let mut visited = fill_bool(total, false);
    let mut done = fill_bool(total, false);
    let mut dist = fill_usize(total, 0);
    let mut pred = fill_usize(total, 0);
    let mut queue: Vec<usize> = Vec::new();
    visited.set(0, true);
    queue.push(0);
    let mut head: usize = 0;
    proof {
        let blank = Seq::new(total as nat, |i: int| false);
        assert(visited@ =~= blank.update(0, true));
        lemma_count_true_set(blank, 0);
        lemma_count_all_false(total as nat);
        lemma_count_true_le_len(visited@);
        assert(toggles_covered(n, total, done@, visited@, 0, n)) by {
            reveal(toggles_covered);
        }
        assert(pending_queued(total, visited@, done@, queue@, head as int)) by {
            reveal(pending_queued);
            assert forall|v: int|
                0 <= v < total && (#[trigger] visited@[v]) && !done@[v] implies exists|q: int|
                head <= q < queue@.len() && queue@[q] == v by {
                assert(v == 0);
                assert(queue@[0] == 0usize);
            }
        }
    }
    while head < queue.len()
        invariant
            1 <= n && n < 32,
            total == 1usize << n,
            goal == total - 1,
            goal < total,
            all_true(mask_bits(goal, n as nat)),
            all_false(mask_bits(0, n as nat)),
            visited@.len() == total,
            done@.len() == total,
            dist@.len() == total,
            pred@.len() == total,
            head <= queue@.len(),
            visited@[0],
            dist@[0] == 0,
            !done@[goal as int],
            count_true(visited@) <= total,
            forall|q: int|
                0 <= q < queue@.len() ==> (#[trigger] queue@[q]) < total
                    && visited@[queue@[q] as int],
            forall|v: int| 0 <= v < total && #[trigger] visited@[v] ==> dist@[v] < count_true(
                visited@,
            ),
            forall|v: int|
                0 <= v < total && #[trigger] visited@[v] && v != 0 ==> pred@[v] < total
                    && visited@[pred@[v] as int] && dist@[v] == dist@[pred@[v] as int] + 1
                    && ring_step(mask_bits(pred@[v], n as nat), mask_bits(v as usize, n as nat)),
            forall|v: int| 0 <= v < total && #[trigger] done@[v] ==> visited@[v],
            pending_queued(total, visited@, done@, queue@, head as int),
            toggles_covered(n, total, done@, visited@, 0, n),
        decreases total - count_true(visited@), queue@.len() - head,
    {
        let u = queue[head];
        head = head + 1;
        if u == goal {
            let states = rebuild(&pred, &dist, &visited, n, total, goal);
            return Ok(states);
        }
        let ghost done_pre = done@;
        done.set(u, true);
        proof {
            assert(pending_queued(total, visited@, done@, queue@, head as int)) by {
                reveal(pending_queued);
                assert forall|v: int|
                    0 <= v < total && (#[trigger] visited@[v]) && !done@[v] implies exists|q: int|
                    head <= q < queue@.len() && queue@[q] == v by {
                    assert(v != u);
                    assert(!done_pre[v]);
                    let q0 = choose|q0: int| head - 1 <= q0 < queue@.len() && queue@[q0] == v;
                    assert(q0 != head - 1);
                }
            }
            assert(toggles_covered(n, total, done@, visited@, u, 0)) by {
                reveal(toggles_covered);
            }
        }
        let du = dist[u];
        let ghost visited_mid = visited@;
        let ghost queue_mid: int = queue@.len() as int;
        let mut k: usize = 0;
        while k < n
            invariant
                1 <= n && n < 32,
                total == 1usize << n,
                k <= n,
                u < total,
                u != goal,
                goal < total,
                visited@[u as int],
                done@[u as int],
                du == dist@[u as int],
                du + 1 <= count_true(visited@),
                visited@.len() == total,
                done@.len() == total,
                dist@.len() == total,
                pred@.len() == total,
                head <= queue@.len(),
                visited@[0],
                dist@[0] == 0,
                !done@[goal as int],
                count_true(visited@) <= total,
                count_true(visited@) >= count_true(visited_mid),
                queue@.len() - queue_mid == count_true(visited@) - count_true(visited_mid),
                forall|q: int|
                    0 <= q < queue@.len() ==> (#[trigger] queue@[q]) < total
                        && visited@[queue@[q] as int],
                forall|v: int| 0 <= v < total && #[trigger] visited@[v] ==> dist@[v] < count_true(
                    visited@,
                ),
                forall|v: int|
                    0 <= v < total && #[trigger] visited@[v] && v != 0 ==> pred@[v] < total
                        && visited@[pred@[v] as int] && dist@[v] == dist@[pred@[v] as int] + 1
                        && ring_step(mask_bits(pred@[v], n as nat), mask_bits(v as usize, n as nat)),
                forall|v: int| 0 <= v < total && #[trigger] done@[v] ==> visited@[v],
                pending_queued(total, visited@, done@, queue@, head as int),
                toggles_covered(n, total, done@, visited@, u, k),
            decreases n - k,
        {
            let ghost done_loop = done@;
            let b = can_toggle(u, k, n);
            if b {
                proof {
                    lemma_toggle_mask(u, k, n);
                }
                let w = u ^ (1usize << k);
                if !visited[w] {
                    let ghost visited_before = visited@;
                    let ghost queue_before = queue@;
                    visited.set(w, true);
                    dist.set(w, du + 1);
                    pred.set(w, u);
                    queue.push(w);
                    proof {
                        lemma_count_true_set(visited_before, w as int);
                        lemma_count_true_le_len(visited@);
                        let su = mask_bits(u, n as nat);
                        let sw = mask_bits(w, n as nat);
                        assert(togglable(su, k as int));
                        assert(sw == su.update(k as int, !su[k as int]));
                        assert(ring_step(su, sw)) by {
                            reveal(ring_step);
                        }
                        assert(pending_queued(total, visited@, done@, queue@, head as int)) by {
                            reveal(pending_queued);
                            assert forall|v: int|
                                0 <= v < total && (#[trigger] visited@[v]) && !done@[v] implies
                                exists|q: int| head <= q < queue@.len() && queue@[q] == v by {
                                if v == w {
                                    assert(queue@[queue@.len() - 1] == w);
                                } else {
                                    assert(visited_before[v]);
                                    let q0 = choose|q0: int|
                                        head <= q0 < queue_before.len() && queue_before[q0] == v;
                                    assert(queue@[q0] == v);
                                }
                            }
                        }
                    }
                }
                proof {
                    assert(visited@[(u ^ (1usize << k)) as int]);
                }
            }
            k = k + 1;
            proof {
                assert(toggles_covered(n, total, done@, visited@, u, k)) by {
                    reveal(toggles_covered);
                    assert forall|vu: usize, k2: int|
                        vu < total && done@[vu as int] && 0 <= k2 < n && #[trigger] togglable(
                            mask_bits(vu, n as nat),
                            k2,
                        ) && !(vu == u && k <= k2) implies (vu ^ (1usize << (k2 as usize))) < total
                        && visited@[(vu ^ (1usize << (k2 as usize))) as int] by {
                        if vu == u && k2 == k - 1 {
                            assert(((k2 as usize)) == (k - 1) as usize);
                            assert(b == togglable(mask_bits(u, n as nat), k2));
                        } else {
                            assert(!(vu == u && (k - 1) as usize <= k2));
                            assert(done_loop[vu as int]);
                        }
                    }
                }
            }
        }
        proof {
            assert(toggles_covered(n, total, done@, visited@, 0, n)) by {
                reveal(toggles_covered);
            }
        }
    }
    // The queue cannot run dry before the goal is found: the puzzle is
    // solvable, and every legal move from a finished state was discovered.
    proof {
        assert forall|v: int| 0 <= v < total && #[trigger] visited@[v] implies done@[v] by {
            if !done@[v] {
                reveal(pending_queued);
                let q0 = choose|q0: int| head <= q0 < queue@.len() && queue@[q0] == v;
            }
        }
        lemma_rings_solvable(n, n);
        let c = choose|c: Seq<usize>|
            #[trigger] low_chain(n, n, c) && c[0] == 0 && c[c.len() - 1] == (1usize << n) - 1;
        assert forall|vu: usize, k2: int|
            vu < total && visited@[vu as int] && 0 <= k2 < n && #[trigger] togglable(
                mask_bits(vu, n as nat),
                k2,
            ) implies (vu ^ (1usize << (k2 as usize))) < total && visited@[(vu ^ (1usize << (k2
        as usize))) as int] by {
            assert(done@[vu as int]);
            reveal(toggles_covered);
        }
        lemma_chain_visited(n, total, visited@, c);
        assert(visited@[goal as int]);
        assert(false);
    }
    Err(InvalidRingCountError)
}

} // verus!
