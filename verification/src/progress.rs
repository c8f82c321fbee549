//! The measure by which the search terminates: each entry of the trail weighs
//! `(n + 1)^(n - level)`, so that one more entry at a level outweighs every entry
//! above that level.
use vstd::prelude::*;

use crate::logic::EntryView;

verus! {

/// `b` to the power `e`.
pub open spec fn ipow(b: nat, e: nat) -> nat
    decreases e,
{
    if e == 0 {
        1
    } else {
        b * ipow(b, (e - 1) as nat)
    }
}

/// The weight of an entry at level `lvl` when the levels are at most `n`.
pub open spec fn weight(n: nat, lvl: int) -> nat {
    ipow(n + 1, (n - lvl) as nat)
}

/// The total weight of the entries of a trail.
pub open spec fn phi(t: Seq<EntryView>, n: nat) -> nat
    decreases t.len(),
{
    if t.len() == 0 {
        0
    } else {
        phi(t.drop_last(), n) + weight(n, t.last().decision_level as int)
    }
}

/// Every entry of `t` has a level between `lo` and `hi`.
pub open spec fn levels_within(t: Seq<EntryView>, lo: int, hi: int) -> bool {
    forall|k: int| 0 <= k < t.len() ==> lo <= #[trigger] t[k].decision_level <= hi
}

pub proof fn lemma_ipow_pos(b: nat, e: nat)
    requires
        b >= 1,
    ensures
        ipow(b, e) >= 1,
    decreases e,
{
    if e > 0 {
        lemma_ipow_pos(b, (e - 1) as nat);
        assert(b * ipow(b, (e - 1) as nat) >= 1) by (nonlinear_arith)
            requires
                b >= 1,
                ipow(b, (e - 1) as nat) >= 1,
        ;
    }
}

pub proof fn lemma_ipow_mono(b: nat, e1: nat, e2: nat)
    requires
        b >= 1,
        e1 <= e2,
    ensures
        ipow(b, e1) <= ipow(b, e2),
    decreases e2,
{
    if e1 < e2 {
        lemma_ipow_mono(b, e1, (e2 - 1) as nat);
        lemma_ipow_pos(b, (e2 - 1) as nat);
        let p = ipow(b, (e2 - 1) as nat);
        assert(p <= b * p) by (nonlinear_arith)
            requires
                b >= 1,
        ;
    }
}

/// The weight of a trail extended by one entry.
pub proof fn lemma_phi_push(t: Seq<EntryView>, e: EntryView, n: nat)
    ensures
        phi(t.push(e), n) == phi(t, n) + weight(n, e.decision_level as int),
{
    assert(t.push(e).drop_last() =~= t);
}

/// The weight of a trail is that of a prefix plus that of the rest.
pub proof fn lemma_phi_split(t: Seq<EntryView>, p: int, n: nat)
    requires
        0 <= p <= t.len(),
    ensures
        phi(t, n) == phi(t.subrange(0, p), n) + phi(t.subrange(p, t.len() as int), n),
    decreases t.len(),
{
    if t.len() == p {
        assert(t.subrange(0, p) =~= t);
        assert(t.subrange(p, t.len() as int) =~= Seq::<EntryView>::empty());
    } else {
        let d = t.drop_last();
        lemma_phi_split(d, p, n);
        assert(d.subrange(0, p) =~= t.subrange(0, p));
        let rest = t.subrange(p, t.len() as int);
        assert(rest.drop_last() =~= d.subrange(p, d.len() as int));
        assert(rest.last() == t.last());
    }
}

/// A trail of entries whose levels are at least `lo` (and at most `n`) weighs at
/// most its length times the weight of level `lo`.
pub proof fn lemma_phi_bound(t: Seq<EntryView>, lo: int, n: nat)
    requires
        0 <= lo <= n,
        levels_within(t, lo, n as int),
    ensures
        phi(t, n) <= t.len() * ipow(n + 1, (n - lo) as nat),
    decreases t.len(),
{
    if t.len() > 0 {
        let d = t.drop_last();
        assert(levels_within(d, lo, n as int)) by {
            assert forall|k: int| 0 <= k < d.len() implies lo <= #[trigger] d[k].decision_level <= n by {
                assert(d[k] == t[k]);
            }
        }
        lemma_phi_bound(d, lo, n);
        let lv = t.last().decision_level as int;
        assert(t[t.len() - 1] == t.last());
        lemma_ipow_mono(n + 1, (n - lv) as nat, (n - lo) as nat);
        let w = ipow(n + 1, (n - lo) as nat);
        assert(d.len() * w + w == t.len() * w) by (nonlinear_arith)
            requires
                d.len() + 1 == t.len(),
        ;
    }
}

/// Entries above level `lvl`, fewer than `n + 1` of them, weigh less than one entry at level `lvl`.
pub proof fn lemma_phi_above(t: Seq<EntryView>, lvl: int, n: nat)
    requires
        0 <= lvl < n,
        t.len() <= n,
        levels_within(t, lvl + 1, n as int),
    ensures
        phi(t, n) < weight(n, lvl),
{
    lemma_phi_bound(t, lvl + 1, n);
    let w = ipow(n + 1, (n - lvl - 1) as nat);
    assert(((n - lvl) as nat) == (((n - lvl - 1) as nat) + 1) as nat);
    assert(weight(n, lvl) == (n + 1) * w);
    lemma_ipow_pos(n + 1, (n - lvl - 1) as nat);
    assert(t.len() * w < (n + 1) * w) by (nonlinear_arith)
        requires
            t.len() <= n,
            w >= 1,
    ;
}

/// A trail of at most `k` entries with levels at most `n` weighs at most `k` times
/// the weight of level 0.
pub proof fn lemma_phi_total(t: Seq<EntryView>, n: nat)
    requires
        levels_within(t, 0, n as int),
    ensures
        phi(t, n) <= t.len() * ipow(n + 1, n),
{
    lemma_phi_bound(t, 0, n);
}

/// The weight bound of the whole search: fewer than `n + 1` entries weigh less than
/// `(n + 1)^(n + 1)`, even with one more entry of any level added.
pub proof fn lemma_phi_room(t: Seq<EntryView>, lvl: int, n: nat)
    requires
        levels_within(t, 0, n as int),
        t.len() < n,
        0 <= lvl <= n,
    ensures
        phi(t, n) + weight(n, lvl) < ipow(n + 1, n + 1),
{
    lemma_phi_total(t, n);
    let w = ipow(n + 1, n);
    lemma_ipow_mono(n + 1, (n - lvl) as nat, n);
    assert(ipow(n + 1, n + 1) == (n + 1) * w);
    lemma_ipow_pos(n + 1, n);
    assert(t.len() * w + w < (n + 1) * w) by (nonlinear_arith)
        requires
            t.len() < n,
            w >= 1,
    ;
}

/// A nonempty trail weighs at least as much as its first entry.
pub proof fn lemma_phi_first(t: Seq<EntryView>, n: nat)
    requires
        t.len() >= 1,
    ensures
        phi(t, n) >= weight(n, t[0].decision_level as int),
{
    lemma_phi_split(t, 1, n);
    let h = t.subrange(0, 1);
    assert(h.drop_last() =~= Seq::<EntryView>::empty());
    assert(h.last() == t[0]);
}

/// At most `n` entries with levels at most `n` weigh less than `(n + 1)^(n + 1)`.
pub proof fn lemma_phi_below_top(t: Seq<EntryView>, n: nat)
    requires
        levels_within(t, 0, n as int),
        t.len() <= n,
    ensures
        phi(t, n) < ipow(n + 1, n + 1),
{
    lemma_phi_total(t, n);
    let w = ipow(n + 1, n);
    assert(ipow(n + 1, n + 1) == (n + 1) * w);
    lemma_ipow_pos(n + 1, n);
    assert(t.len() * w < (n + 1) * w) by (nonlinear_arith)
        requires
            t.len() <= n,
            w >= 1,
    ;
}

} // verus!
