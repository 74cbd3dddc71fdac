//! Instances that have been brought in line with a snapshot are like it.
use crate::branch::Branch;
use crate::pairing::{fresh, kept, law_pairing, lemma_fresh, lemma_kept, lemma_passed_over, pairing};
use crate::rbx_snapshot::{is_order, SnapshotView};
use crate::reconcile::{child_names, reconciled};
use crate::reify::{mirrors, picked, resembles};
use crate::tree::InstanceMap;
use vstd::prelude::*;
use vstd::set_lib::set_int_range;

verus! {

/// Whether snapshots of one name keep their order when they are put in another order.
pub open spec fn keeps_namesakes(order: Seq<int>, snapshots: Seq<SnapshotView>) -> bool {
    forall|k: int, l: int|
        0 <= k < order.len() && 0 <= l < order.len() && snapshots[#[trigger] order[k]].name
            == snapshots[#[trigger] order[l]].name && order[k] < order[l] ==> k < l
}

/// Whether the instances of a branch are as a snapshot says, but for the order of
/// children of different names.
pub open spec fn alike(instances: InstanceMap, branch: Branch, snapshot: SnapshotView) -> bool
    decreases snapshot,
{
    &&& resembles(instances[branch.id], snapshot)
    &&& exists|order: Seq<int>|
        {
            &&& #[trigger] is_order(order, snapshot.children.len())
            &&& keeps_namesakes(order, snapshot.children)
            &&& branch.children.len() == snapshot.children.len()
            &&& forall|k: int|
                0 <= k < branch.children.len() ==> {
                    &&& 0 <= order[k] < snapshot.children.len()
                    &&& alike(
                        instances,
                        #[trigger] branch.children[k],
                        snapshot.children[order[k]],
                    )
                }
        }
}

/// Instances that mirror a snapshot child by child are like it.
pub proof fn law_mirror_is_alike(instances: InstanceMap, branch: Branch, snapshot: SnapshotView)
    requires
        mirrors(instances, branch, snapshot),
    ensures
        alike(instances, branch, snapshot),
    decreases snapshot,
{
    let order = Seq::new(snapshot.children.len(), |k: int| k);
    assert(is_order(order, snapshot.children.len()));
    assert forall|k: int| 0 <= k < branch.children.len() implies {
        &&& 0 <= order[k] < snapshot.children.len()
        &&& alike(instances, #[trigger] branch.children[k], snapshot.children[order[k]])
    } by {
        assert(mirrors(instances, branch.children[k], snapshot.children[k]));
        law_mirror_is_alike(instances, branch.children[k], snapshot.children[k]);
    }
}

/// The snapshots that a child goes on as and the fresh ones, put together, are all
/// the snapshots, each once.
proof fn lemma_order(names: Seq<Seq<char>>, snapshots: Seq<SnapshotView>) -> (order: Seq<int>)
    ensures
        is_order(order, snapshots.len()),
        keeps_namesakes(order, snapshots),
        ({
            let pairs = pairing(names, snapshots);
            let going = kept(pairs);
            let coming = fresh(pairs, snapshots.len());
            &&& order.len() == going.len() + coming.len()
            &&& forall|k: int| 0 <= k < going.len() ==> #[trigger] order[k] == pairs[going[k]]->0
            &&& forall|k: int| 0 <= k < coming.len() ==> order[going.len() + k] == #[trigger] coming[k]
        }),
{
    let pairs = pairing(names, snapshots);
    let going = kept(pairs);
    let count = snapshots.len();
    let coming = fresh(pairs, count);
    law_pairing(names, snapshots);
    lemma_kept(pairs);
    lemma_fresh(pairs, count);
    let partners = Seq::new(going.len(), |k: int| pairs[going[k]]->0);
    let order = partners + coming;
    assert forall|k: int| 0 <= k < partners.len() implies {
        &&& 0 <= #[trigger] partners[k] < count
        &&& pairs.contains(Some(partners[k]))
    } by {
        assert(pairs[going[k]] == Some(partners[k]));
    }
    assert forall|k: int| 0 <= k < order.len() implies 0 <= #[trigger] order[k] < count by {
        if k < partners.len() {
            assert(order[k] == partners[k]);
        } else {
            assert(order[k] == coming[k - partners.len()]);
        }
    }
    assert forall|k: int, l: int|
        0 <= k < order.len() && 0 <= l < order.len() && k != l implies order[k] != order[l] by {
        if k < partners.len() && l < partners.len() {
            assert(order[k] == partners[k] && order[l] == partners[l]);
            if going[k] < going[l] {
                assert(pairs[going[k]] != pairs[going[l]]);
            } else {
                assert(pairs[going[l]] != pairs[going[k]]);
            }
        } else if k < partners.len() {
            assert(order[k] == partners[k] && order[l] == coming[l - partners.len()]);
        } else if l < partners.len() {
            assert(order[l] == partners[l] && order[k] == coming[k - partners.len()]);
        } else {
            assert(order[k] == coming[k - partners.len()]);
            assert(order[l] == coming[l - partners.len()]);
        }
    }
    assert(order.no_duplicates());
    assert forall|j: int| #[trigger] order.to_set().contains(j) <==> set_int_range(
        0,
        count as int,
    ).contains(j) by {
        if 0 <= j < count {
            if pairs.contains(Some(j)) {
                let i = choose|i: int| 0 <= i < pairs.len() && pairs[i] == Some(j);
                assert(going.contains(i));
                let k = choose|k: int| 0 <= k < going.len() && going[k] == i;
                assert(order[k] == partners[k]);
                assert(order[k] == j);
            } else {
                assert(coming.contains(j));
                let k = choose|k: int| 0 <= k < coming.len() && coming[k] == j;
                assert(order[partners.len() + k] == j);
            }
        }
        if order.contains(j) {
            let k = choose|k: int| 0 <= k < order.len() && order[k] == j;
            assert(0 <= order[k] < count);
        }
    }
    assert(order.to_set() =~= set_int_range(0, count as int));
    order.unique_seq_to_set();
    vstd::set_lib::lemma_int_range(0, count as int);
    assert forall|k: int, l: int|
        0 <= k < order.len() && 0 <= l < order.len() && snapshots[#[trigger] order[k]].name
            == snapshots[#[trigger] order[l]].name && order[k] < order[l] implies k < l by {
        if l < partners.len() {
            assert(order[l] == partners[l]);
            assert(pairs[going[l]] == Some(order[l]));
            let earlier = lemma_passed_over(names, snapshots, going[l], order[k]);
            assert(going.contains(earlier));
            let m = choose|m: int| 0 <= m < going.len() && going[m] == earlier;
            assert(order[m] == partners[m]);
            assert(order[m] == order[k]);
            assert(m == k);
        } else if k >= partners.len() {
            assert(order[k] == coming[k - partners.len()]);
            assert(order[l] == coming[l - partners.len()]);
        }
    }
    order
}

/// Instances that have been brought in line with a snapshot are like it: same names,
/// classes and properties all the way down, and for every child of the snapshot one
/// child, where children of one name are in the order of the snapshot.
pub proof fn law_reconciled_is_alike(
    instances: InstanceMap,
    branch: Branch,
    snapshot: SnapshotView,
    after: InstanceMap,
    result: Branch,
)
    requires
        reconciled(instances, branch, snapshot, after, result),
    ensures
        alike(after, result, snapshot),
    decreases snapshot,
{
    let names = child_names(instances, branch);
    let pairs = pairing(names, snapshot.children);
    let going = kept(pairs);
    let coming = fresh(pairs, snapshot.children.len());
    let order = lemma_order(names, snapshot.children);
    let tail = result.children.skip(going.len() as int);
    let views = picked(snapshot.children, coming);
    assert forall|k: int| 0 <= k < result.children.len() implies {
        &&& 0 <= order[k] < snapshot.children.len()
        &&& alike(after, #[trigger] result.children[k], snapshot.children[order[k]])
    } by {
        if k < going.len() {
            assert(order[k] == pairs[going[k]]->0);
            law_reconciled_is_alike(
                instances,
                branch.children[going[k]],
                snapshot.children[pairs[going[k]]->0],
                after,
                result.children[k],
            );
        } else {
            let l = k - going.len();
            assert(order[going.len() + l] == coming[l]);
            assert(mirrors(after, tail[l], views[l]));
            assert(tail[l] == result.children[k]);
            law_mirror_is_alike(after, result.children[k], snapshot.children[coming[l]]);
        }
    }
}

} // verus!
