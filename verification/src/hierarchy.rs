//! The mathematical model of the state hierarchy: ancestor chains, the
//! nearest-common-ancestor search, and the exit/enter paths of a transition.
//!
//! Everything here is stated over [`InstanceParent::parent_spec`]; the
//! executable engine in [`crate::StateMachine`] is proved against this model.

use vstd::prelude::*;

use crate::traits::InstanceParent;

verus! {

/// The parent relation is a forest: every parent step strictly decreases the
/// rank `depth_spec`, so every chain of parent lookups terminates.
pub open spec fn forest_ranked<Id: InstanceParent<Id>>() -> bool {
    forall|s: Id|
        (#[trigger] s.parent_spec()) is Some ==> s.parent_spec().unwrap().depth_spec()
            < s.depth_spec()
}

/// The ancestor chain of `s`, leaf to root: `[s, parent(s), ...]`, ending at
/// the state without a parent. The rank guard keeps the definition total;
/// under [`forest_ranked`] it is never taken.
pub open spec fn ancestor_chain<Id: InstanceParent<Id>>(s: Id) -> Seq<Id>
    decreases s.depth_spec(),
{
    match s.parent_spec() {
        Option::None => seq![s],
        Option::Some(p) => if p.depth_spec() < s.depth_spec() {
            seq![s] + ancestor_chain(p)
        } else {
            seq![s]
        },
    }
}

/// The index of the first occurrence of `x` in `c`, if any.
pub open spec fn first_index_of<Id>(c: Seq<Id>, x: Id) -> Option<int>
    decreases c.len(),
{
    if c.len() == 0 {
        Option::None
    } else if c[0] == x {
        Option::Some(0)
    } else {
        match first_index_of(c.drop_first(), x) {
            Option::None => Option::None,
            Option::Some(i) => Option::Some(i + 1),
        }
    }
}

/// The least index `j` such that `ct[j]` occurs in `cf`, if any: the position
/// in the destination chain of the nearest common ancestor.
pub open spec fn first_common<Id>(cf: Seq<Id>, ct: Seq<Id>) -> Option<int>
    decreases ct.len(),
{
    if ct.len() == 0 {
        Option::None
    } else if first_index_of(cf, ct[0]) is Some {
        Option::Some(0)
    } else {
        match first_common(cf, ct.drop_first()) {
            Option::None => Option::None,
            Option::Some(j) => Option::Some(j + 1),
        }
    }
}

/// The states a transition from `from` to `to` exits, leaf to root: `from`
/// and its ancestors strictly below the nearest common ancestor; the whole
/// chain of `from` when the chains share nothing.
pub open spec fn exit_path<Id: InstanceParent<Id>>(from: Id, to: Id) -> Seq<Id> {
    let cf = ancestor_chain(from);
    let ct = ancestor_chain(to);
    match first_common(cf, ct) {
        Option::None => cf,
        Option::Some(j) => cf.take(first_index_of(cf, ct[j]).unwrap()),
    }
}

/// The states that transition enters, in delivery order (root side first,
/// `to` last): the ancestors of `to` strictly below the nearest common
/// ancestor, reversed; the whole reversed chain of `to` when the chains share
/// nothing.
pub open spec fn enter_path<Id: InstanceParent<Id>>(from: Id, to: Id) -> Seq<Id> {
    let cf = ancestor_chain(from);
    let ct = ancestor_chain(to);
    match first_common(cf, ct) {
        Option::None => ct.reverse(),
        Option::Some(j) => ct.take(j).reverse(),
    }
}

/// What [`first_index_of`] returns: the first index holding `x`, or `None`
/// when `x` does not occur.
pub proof fn lemma_first_index_of<Id>(c: Seq<Id>, x: Id)
    ensures
        match first_index_of(c, x) {
            Option::Some(i) => 0 <= i < c.len() && c[i] == x && (forall|j: int|
                0 <= j < i ==> c[j] != x),
            Option::None => forall|j: int| 0 <= j < c.len() ==> c[j] != x,
        },
    decreases c.len(),
{
    if c.len() != 0 && c[0] != x {
        let d = c.drop_first();
        lemma_first_index_of(d, x);
        match first_index_of(d, x) {
            Option::Some(i) => {
                assert(c[i + 1] == d[i]);
                assert forall|j: int| 0 <= j < i + 1 implies c[j] != x by {
                    if j > 0 {
                        assert(c[j] == d[j - 1]);
                    }
                }
            },
            Option::None => {
                assert forall|j: int| 0 <= j < c.len() implies c[j] != x by {
                    if j > 0 {
                        assert(c[j] == d[j - 1]);
                    }
                }
            },
        }
    }
}

/// The converse: an index that holds `x` with nothing equal before it is what
/// [`first_index_of`] returns.
pub proof fn lemma_first_index_of_exact<Id>(c: Seq<Id>, x: Id, i: int)
    requires
        0 <= i < c.len(),
        c[i] == x,
        forall|j: int| 0 <= j < i ==> c[j] != x,
    ensures
        first_index_of(c, x) == Option::Some(i),
    decreases c.len(),
{
    if c[0] != x {
        lemma_first_index_of_exact(c.drop_first(), x, i - 1);
    }
}

/// The converse: an index of the destination chain that occurs in the source
/// chain, with no occurring index before it, is what [`first_common`]
/// returns.
pub proof fn lemma_first_common_exact<Id>(cf: Seq<Id>, ct: Seq<Id>, j: int)
    requires
        0 <= j < ct.len(),
        first_index_of(cf, ct[j]) is Some,
        forall|m: int| 0 <= m < j ==> first_index_of(cf, ct[m]) is None,
    ensures
        first_common(cf, ct) == Option::Some(j),
    decreases ct.len(),
{
    if first_index_of(cf, ct[0]) is None {
        lemma_first_common_exact(cf, ct.drop_first(), j - 1);
    }
}

/// No state of the destination chain occurs in the source chain: then
/// [`first_common`] finds nothing.
pub proof fn lemma_first_common_none<Id>(cf: Seq<Id>, ct: Seq<Id>)
    requires
        forall|m: int| 0 <= m < ct.len() ==> first_index_of(cf, ct[m]) is None,
    ensures
        first_common(cf, ct) is None,
    decreases ct.len(),
{
    if ct.len() != 0 {
        lemma_first_common_none(cf, ct.drop_first());
    }
}

/// The shape of an ancestor chain under [`forest_ranked`]: it starts at the
/// state itself, each element's parent is the next element, the last element
/// has no parent, ranks strictly decrease along it, and its states are
/// pairwise distinct.
pub proof fn lemma_chain<Id: InstanceParent<Id>>(s: Id)
    requires
        forest_ranked::<Id>(),
    ensures
        ancestor_chain(s).len() >= 1,
        ancestor_chain(s)[0] == s,
        ancestor_chain(s).last().parent_spec() is None,
        forall|i: int|
            0 <= i < ancestor_chain(s).len() - 1 ==> (#[trigger] ancestor_chain(s)[i]).parent_spec()
                == Option::Some(ancestor_chain(s)[i + 1]),
        forall|i: int, l: int|
            0 <= i < l < ancestor_chain(s).len() ==> (#[trigger] ancestor_chain(s)[l]).depth_spec()
                < (#[trigger] ancestor_chain(s)[i]).depth_spec(),
        forall|i: int, l: int|
            0 <= i < l < ancestor_chain(s).len() ==> ancestor_chain(s)[i] != ancestor_chain(s)[l],
    decreases s.depth_spec(),
{
    match s.parent_spec() {
        Option::None => {},
        Option::Some(p) => {
            lemma_chain(p);
            let c = ancestor_chain(s);
            let cp = ancestor_chain(p);
            assert(c == seq![s] + cp);
            assert forall|i: int| 0 <= i < c.len() - 1 implies (#[trigger] c[i]).parent_spec()
                == Option::Some(c[i + 1]) by {
                if i == 0 {
                    assert(c[0] == s && c[1] == cp[0]);
                } else {
                    assert(c[i] == cp[i - 1] && c[i + 1] == cp[i]);
                }
            }
            assert forall|i: int, l: int| 0 <= i < l < c.len() implies (
            #[trigger] c[l]).depth_spec() < (#[trigger] c[i]).depth_spec() by {
                if i == 0 {
                    assert(c[l] == cp[l - 1]);
                    if l - 1 > 0 {
                        assert(cp[l - 1].depth_spec() < cp[0].depth_spec());
                    }
                    assert(cp[0] == p && p.depth_spec() < s.depth_spec());
                } else {
                    assert(c[i] == cp[i - 1] && c[l] == cp[l - 1]);
                }
            }
        },
    }
}

/// A self-transition is a no-op with respect to lifecycle events: the exit
/// and enter paths of a transition from a state to itself are both empty.
pub proof fn lemma_self_transition<Id: InstanceParent<Id>>(s: Id)
    requires
        forest_ranked::<Id>(),
    ensures
        exit_path(s, s) == Seq::<Id>::empty(),
        enter_path(s, s) == Seq::<Id>::empty(),
{
    lemma_chain(s);
    let c = ancestor_chain(s);
    lemma_first_index_of_exact(c, s, 0);
    lemma_first_common_exact(c, c, 0);
    assert(exit_path(s, s) =~= Seq::<Id>::empty());
    assert(c.take(0).reverse() =~= Seq::<Id>::empty());
}

/// Transitioning between two distinct states that share an immediate parent
/// exits exactly the source and enters exactly the destination; the parent
/// is in neither path.
pub proof fn lemma_sibling_transition<Id: InstanceParent<Id>>(a: Id, b: Id, p: Id)
    requires
        forest_ranked::<Id>(),
        a.parent_spec() == Option::Some(p),
        b.parent_spec() == Option::Some(p),
        a != b,
    ensures
        exit_path(a, b) == seq![a],
        enter_path(a, b) == seq![b],
        !exit_path(a, b).contains(p),
        !enter_path(a, b).contains(p),
{
    lemma_chain(a);
    lemma_chain(b);
    lemma_chain(p);
    let ca = ancestor_chain(a);
    let cb = ancestor_chain(b);
    let cp = ancestor_chain(p);
    assert(ca == seq![a] + cp);
    assert(cb == seq![b] + cp);
    assert forall|i: int| 0 <= i < ca.len() implies ca[i] != b by {
        if i > 0 {
            assert(ca[i] == cp[i - 1]);
            if i - 1 > 0 {
                assert(cp[i - 1].depth_spec() < cp[0].depth_spec());
            }
            assert(p.depth_spec() < b.depth_spec());
        }
    }
    lemma_first_index_of(ca, b);
    assert(cb[0] == b);
    assert(first_index_of(ca, cb[0]) is None);
    assert(ca[0] == a && a != p);
    assert(ca[1] == cp[0] && cp[0] == p);
    lemma_first_index_of_exact(ca, p, 1);
    assert(cb[1] == cp[0]);
    lemma_first_common_exact(ca, cb, 1);
    assert(exit_path(a, b) =~= seq![a]);
    assert(cb.take(1) =~= seq![b]);
    assert(enter_path(a, b) =~= seq![b]);
    assert(!seq![a].contains(p));
    assert(!seq![b].contains(p));
}

/// An ancestor chain continues as the chain of any of its states: the part
/// of the chain of `s` from position `i` on is the chain of the state at
/// position `i`.
pub proof fn lemma_chain_suffix<Id: InstanceParent<Id>>(s: Id, i: int)
    requires
        forest_ranked::<Id>(),
        0 <= i < ancestor_chain(s).len(),
    ensures
        ancestor_chain(s).skip(i) == ancestor_chain(ancestor_chain(s)[i]),
    decreases i,
{
    lemma_chain(s);
    if i == 0 {
        assert(ancestor_chain(s).skip(0) =~= ancestor_chain(s));
    } else {
        let p = s.parent_spec().unwrap();
        lemma_chain(p);
        lemma_chain_suffix(p, i - 1);
        assert(ancestor_chain(s) == seq![s] + ancestor_chain(p));
        assert(ancestor_chain(s).skip(i) =~= ancestor_chain(p).skip(i - 1));
        assert(ancestor_chain(s)[i] == ancestor_chain(p)[i - 1]);
    }
}

/// Once two ancestor chains meet they coincide: from any shared state on,
/// both chains are the same sequence.
pub proof fn lemma_chains_coincide<Id: InstanceParent<Id>>(a: Id, b: Id, i: int, j: int)
    requires
        forest_ranked::<Id>(),
        0 <= i < ancestor_chain(a).len(),
        0 <= j < ancestor_chain(b).len(),
        ancestor_chain(a)[i] == ancestor_chain(b)[j],
    ensures
        ancestor_chain(a).skip(i) == ancestor_chain(b).skip(j),
{
    lemma_chain_suffix(a, i);
    lemma_chain_suffix(b, j);
}

/// A state of the source chain strictly below the meeting point cannot hold
/// the meeting state: an earlier occurrence would make the destination chain
/// repeat a state.
proof fn lemma_meet_not_below<Id: InstanceParent<Id>>(from: Id, to: Id, k: int, m: int)
    requires
        forest_ranked::<Id>(),
        0 <= k < ancestor_chain(from).len(),
        k < ancestor_chain(to).len(),
        ancestor_chain(from)[k] == ancestor_chain(to)[k],
        0 <= m < k,
    ensures
        ancestor_chain(from)[m] != ancestor_chain(to)[k],
{
    let cf = ancestor_chain(from);
    let ct = ancestor_chain(to);
    if cf[m] == ct[k] {
        lemma_chain(to);
        lemma_chains_coincide(from, to, m, k);
        assert(cf.skip(m).len() == ct.skip(k).len());
        assert(0 <= k - m < cf.skip(m).len());
        assert(cf.skip(m)[k - m] == cf[k]);
        assert(ct.skip(k)[k - m] == ct[k + (k - m)]);
        assert(ct[k] == ct[k + (k - m)]);
        assert(k < k + (k - m) < ct.len());
        assert(false);
    }
}

/// A destination-chain state strictly below the meeting point occurs
/// nowhere in the source chain: a shared state below would make the chains
/// agree before the meeting point.
proof fn lemma_no_common_below<Id: InstanceParent<Id>>(from: Id, to: Id, k: int, m: int)
    requires
        forest_ranked::<Id>(),
        0 <= k < ancestor_chain(from).len(),
        k < ancestor_chain(to).len(),
        ancestor_chain(from)[k] == ancestor_chain(to)[k],
        ancestor_chain(from)[m] != ancestor_chain(to)[m],
        0 <= m < k,
    ensures
        first_index_of(ancestor_chain(from), ancestor_chain(to)[m]) is None,
{
    let cf = ancestor_chain(from);
    let ct = ancestor_chain(to);
    lemma_first_index_of(cf, ct[m]);
    if first_index_of(cf, ct[m]) is Some {
        let i = first_index_of(cf, ct[m]).unwrap();
        lemma_chain(from);
        lemma_chains_coincide(from, to, i, m);
        assert(cf.skip(i).len() == ct.skip(m).len());
        assert(0 <= k - m < ct.skip(m).len());
        assert(ct.skip(m)[k - m] == ct[k]);
        assert(cf.skip(i)[k - m] == cf[i + (k - m)]);
        assert(cf[i + (k - m)] == ct[k]);
        assert(cf[i + (k - m)] == cf[k]);
        assert(0 <= i + (k - m) < cf.len());
        assert(i + (k - m) == k);
        assert(cf.skip(i)[0] == ct.skip(m)[0]);
        assert(cf[m] == ct[m]);
        assert(false);
    }
}

/// When the nearest common ancestor of the two ends lies K hierarchy levels
/// above both — the two ancestor chains first agree at position K — the
/// transition exits exactly K states and enters exactly K states, and the
/// common ancestor is in neither path.
pub proof fn lemma_common_ancestor_distance<Id: InstanceParent<Id>>(from: Id, to: Id, k: int)
    requires
        forest_ranked::<Id>(),
        0 <= k < ancestor_chain(from).len(),
        k < ancestor_chain(to).len(),
        ancestor_chain(from)[k] == ancestor_chain(to)[k],
        forall|m: int| 0 <= m < k ==> #[trigger] ancestor_chain(from)[m] != ancestor_chain(to)[m],
    ensures
        exit_path(from, to).len() == k,
        enter_path(from, to).len() == k,
        !exit_path(from, to).contains(ancestor_chain(to)[k]),
        !enter_path(from, to).contains(ancestor_chain(to)[k]),
{
    lemma_chain(from);
    lemma_chain(to);
    let cf = ancestor_chain(from);
    let ct = ancestor_chain(to);
    let anc = ct[k];
    assert forall|m: int| 0 <= m < k implies cf[m] != anc by {
        lemma_meet_not_below(from, to, k, m);
    }
    lemma_first_index_of_exact(cf, anc, k);
    assert forall|m: int| 0 <= m < k implies first_index_of(cf, #[trigger] ct[m]) is None by {
        lemma_no_common_below(from, to, k, m);
    }
    lemma_first_common_exact(cf, ct, k);
    assert(exit_path(from, to) == cf.take(k));
    assert(enter_path(from, to) == ct.take(k).reverse());
    assert forall|i: int| 0 <= i < k implies cf.take(k)[i] != anc by {
        assert(cf.take(k)[i] == cf[i]);
    }
    assert(!cf.take(k).contains(anc));
    assert forall|i: int| 0 <= i < k implies ct.take(k).reverse()[i] != anc by {
        assert(ct.take(k).reverse()[i] == ct[k - 1 - i]);
    }
    assert(!ct.take(k).reverse().contains(anc));
}

} // verus!
