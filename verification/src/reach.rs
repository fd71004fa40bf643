//! Chains of links, and lists of links without a cycle.
//!
//! A link `(a, b)` runs from `a` to `b`. A chain is a list of positions in a
//! list of links such that each link ends where the next one starts.
use vstd::prelude::*;

verus! {

/// Whether `ks` is a chain in `links`: positions of links of which each
/// ends where the next one starts.
pub open spec fn is_chain<T>(links: Seq<(T, T)>, ks: Seq<int>) -> bool {
    &&& forall|i: int| 0 <= i < ks.len() ==> 0 <= #[trigger] ks[i] < links.len()
    &&& forall|i: int|
        0 <= i < ks.len() - 1 ==> (#[trigger] links[ks[i]]).1 == links[ks[i + 1]].0
}

/// Whether `ks` is a chain of one link or more that starts at `from` and
/// ends at `to`.
pub open spec fn connects<T>(links: Seq<(T, T)>, ks: Seq<int>, from: T, to: T) -> bool {
    &&& ks.len() > 0
    &&& is_chain(links, ks)
    &&& links[ks[0]].0 == from
    &&& links[ks.last()].1 == to
}

/// Whether a chain of one link or more runs from `from` to `to`.
pub open spec fn linked<T>(links: Seq<(T, T)>, from: T, to: T) -> bool {
    exists|ks: Seq<int>| connects(links, ks, from, to)
}

/// Whether `to` can be reached from `from`: they are the same, or a chain
/// runs from the one to the other.
pub open spec fn leads<T>(links: Seq<(T, T)>, from: T, to: T) -> bool {
    from == to || linked(links, from, to)
}

/// Whether no chain in `links` ends where it starts.
pub open spec fn acyclic<T>(links: Seq<(T, T)>) -> bool {
    forall|ks: Seq<int>, x: T| !connects(links, ks, x, x)
}

/// Whether the link at position `k` closes a cycle with the links before
/// it: where it ends, a way leads back to where it starts.
pub open spec fn closes<T>(links: Seq<(T, T)>, k: int) -> bool {
    leads(links.take(k), links[k].1, links[k].0)
}

/// Two chains of which the second starts where the first ends make one
/// chain.
pub proof fn lemma_chain_join<T>(links: Seq<(T, T)>, ks1: Seq<int>, ks2: Seq<int>, x: T, y: T, z: T)
    requires
        connects(links, ks1, x, y),
        connects(links, ks2, y, z),
    ensures
        connects(links, ks1 + ks2, x, z),
{
    let ks = ks1 + ks2;
    assert forall|i: int| 0 <= i < ks.len() - 1 implies (#[trigger] links[ks[i]]).1
        == links[ks[i + 1]].0 by {
        if i < ks1.len() - 1 {
            assert(links[ks1[i]].1 == links[ks1[i + 1]].0);
        } else if i > ks1.len() - 1 {
            assert(links[ks2[i - ks1.len()]].1 == links[ks2[i - ks1.len() + 1]].0);
        }
    }
}

/// `leads` is transitive.
pub proof fn lemma_leads_trans<T>(links: Seq<(T, T)>, x: T, y: T, z: T)
    requires
        leads(links, x, y),
        leads(links, y, z),
    ensures
        leads(links, x, z),
        linked(links, x, y) || linked(links, y, z) ==> linked(links, x, z),
{
    if x != y && y != z {
        let ks1 = choose|ks: Seq<int>| connects(links, ks, x, y);
        let ks2 = choose|ks: Seq<int>| connects(links, ks, y, z);
        lemma_chain_join(links, ks1, ks2, x, y, z);
    }
}

/// A link leads from where it starts to where it ends.
pub proof fn lemma_link_leads<T>(links: Seq<(T, T)>, k: int)
    requires
        0 <= k < links.len(),
    ensures
        linked(links, links[k].0, links[k].1),
{
    assert(connects(links, seq![k], links[k].0, links[k].1));
}

/// A chain in a list of links is a chain in any list that starts with it.
pub proof fn lemma_chain_extends<T>(links: Seq<(T, T)>, more: Seq<(T, T)>, ks: Seq<int>, x: T, y: T)
    requires
        connects(links, ks, x, y),
    ensures
        connects(links + more, ks, x, y),
{
    let all = links + more;
    assert forall|i: int| 0 <= i < ks.len() implies 0 <= #[trigger] ks[i] < all.len() by {}
    assert forall|i: int| 0 <= i < ks.len() - 1 implies (#[trigger] all[ks[i]]).1
        == all[ks[i + 1]].0 by {
        assert(links[ks[i]].1 == links[ks[i + 1]].0);
        assert(0 <= ks[i + 1] < links.len());
    }
    assert(0 <= ks[0] < links.len());
    assert(0 <= ks[ks.len() - 1] < links.len());
}

/// A chain through a list with one link `(a, b)` added either stays among
/// the links that were there, or runs to `a` and on from `b` among them.
pub proof fn lemma_chain_splits<T>(links: Seq<(T, T)>, a: T, b: T, ks: Seq<int>, x: T, y: T)
    requires
        connects(links.push((a, b)), ks, x, y),
    ensures
        linked(links, x, y) || (leads(links, x, a) && leads(links, b, y)),
    decreases ks.len(),
{
    let all = links.push((a, b));
    let k = ks.last();
    let front = ks.drop_last();
    assert(0 <= ks[ks.len() - 1] < all.len());
    let z = all[k].0;
    if front.len() == 0 {
        assert(ks[0] == k);
        if k < links.len() {
            lemma_link_leads(links, k);
        }
    } else {
        assert(connects(all, front, x, z)) by {
            assert forall|i: int| 0 <= i < front.len() implies 0 <= #[trigger] front[i]
                < all.len() by {
                assert(front[i] == ks[i]);
            }
            assert forall|i: int| 0 <= i < front.len() - 1 implies (#[trigger] all[front[i]]).1
                == all[front[i + 1]].0 by {
                assert(all[ks[i]].1 == all[ks[i + 1]].0);
            }
            assert(all[ks[ks.len() - 2]].1 == all[ks[ks.len() - 2 + 1]].0);
        }
        lemma_chain_splits(links, a, b, front, x, z);
        if k < links.len() {
            lemma_link_leads(links, k);
            if linked(links, x, z) {
                lemma_leads_trans(links, x, z, y);
            } else {
                lemma_leads_trans(links, b, z, y);
            }
        }
    }
}

/// A list of links without a cycle stays without one when a link `(a, b)`
/// is added, unless a way led from `b` to `a`.
pub proof fn lemma_acyclic_push<T>(links: Seq<(T, T)>, a: T, b: T)
    requires
        acyclic(links),
        !leads(links, b, a),
    ensures
        acyclic(links.push((a, b))),
{
    let all = links.push((a, b));
    assert forall|ks: Seq<int>, x: T| !connects(all, ks, x, x) by {
        if connects(all, ks, x, x) {
            lemma_chain_splits(links, a, b, ks, x, x);
            if linked(links, x, x) {
                let c = choose|c: Seq<int>| connects(links, c, x, x);
                assert(false);
            } else {
                lemma_leads_trans(links, b, x, a);
            }
        }
    }
}

/// A link `(a, b)` makes a cycle where a way led from `b` to `a`.
pub proof fn lemma_cyclic_push<T>(links: Seq<(T, T)>, a: T, b: T)
    requires
        leads(links, b, a),
    ensures
        !acyclic(links.push((a, b))),
{
    let all = links.push((a, b));
    let m = links.len() as int;
    if linked(links, b, a) {
        let ks = choose|ks: Seq<int>| connects(links, ks, b, a);
        lemma_chain_extends(links, seq![(a, b)], ks, b, a);
        assert(links + seq![(a, b)] =~= all);
        assert(connects(all, seq![m], a, b));
        lemma_chain_join(all, ks, seq![m], b, a, b);
        assert(connects(all, ks + seq![m], b, b));
    } else {
        assert(connects(all, seq![m], a, a));
    }
}

/// A list of links that starts with a list with a cycle has a cycle.
pub proof fn lemma_cyclic_extends<T>(links: Seq<(T, T)>, more: Seq<(T, T)>)
    requires
        !acyclic(links),
    ensures
        !acyclic(links + more),
{
    let (ks, x) = choose|ks: Seq<int>, x: T| connects(links, ks, x, x);
    lemma_chain_extends(links, more, ks, x, x);
}

/// Without a cycle, a way that leads from `b` to `a` rules out a link from
/// `a` to `b`.
pub proof fn lemma_acyclic_no_back_link<T>(links: Seq<(T, T)>, a: T, b: T)
    requires
        acyclic(links),
        a != b,
        leads(links, b, a),
    ensures
        !links.contains((a, b)),
{
    if links.contains((a, b)) {
        let k = choose|k: int| 0 <= k < links.len() && links[k] == (a, b);
        let ks = choose|ks: Seq<int>| connects(links, ks, b, a);
        assert(connects(links, seq![k], a, b));
        lemma_chain_join(links, ks, seq![k], b, a, b);
        assert(connects(links, ks + seq![k], b, b));
    }
}

/// A list of links has no cycle exactly where none of its links closes one
/// with the links before it.
pub proof fn lemma_acyclic_iff_none_closes<T>(links: Seq<(T, T)>)
    ensures
        acyclic(links) <==> forall|k: int| 0 <= k < links.len() ==> !closes(links, k),
    decreases links.len(),
{
    if links.len() == 0 {
        assert forall|ks: Seq<int>, x: T| !connects(links, ks, x, x) by {
            if connects(links, ks, x, x) {
                assert(0 <= ks[0] < links.len());
            }
        }
    } else {
        let front = links.drop_last();
        let (a, b) = links.last();
        let m = links.len() - 1;
        lemma_acyclic_iff_none_closes(front);
        assert(front.push((a, b)) =~= links);
        assert(links.take(m) =~= front);
        assert forall|k: int| 0 <= k < m implies closes(links, k) == closes(front, k) by {
            assert(links.take(k) =~= front.take(k));
        }
        if acyclic(front) && !closes(links, m) {
            lemma_acyclic_push(front, a, b);
        }
        if closes(links, m) {
            lemma_cyclic_push(front, a, b);
        }
        if !acyclic(front) {
            lemma_cyclic_extends(front, seq![(a, b)]);
            assert(front + seq![(a, b)] =~= links);
            let k = choose|k: int| 0 <= k < front.len() && closes(front, k);
            assert(closes(links, k));
        }
    }
}

} // verus!
