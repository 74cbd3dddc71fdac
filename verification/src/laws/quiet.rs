//! Where nothing is to be done, nothing is announced.
use crate::branch::{has_id, Branch};
use crate::laws::likeness::{alike, keeps_namesakes};
use crate::pairing::{first_free, fresh, kept, pairing};
use crate::rbx_snapshot::{is_order, SnapshotView};
use crate::reconcile::{child_names, differs, lost_ids, paired_notes, reconciled_notes};
use crate::reify::{picked, Notes};
use crate::tree::InstanceMap;
use crate::value::{is_text, same_properties};
use vstd::prelude::*;
use vstd::set_lib::set_int_range;

verus! {

/// Whether the properties of a snapshot, and of everything below it, are equal to
/// themselves. Values that hold a floating-point number need not be.
pub open spec fn self_equal(snapshot: SnapshotView) -> bool
    decreases snapshot,
{
    &&& same_properties(snapshot.properties, snapshot.properties)
    &&& forall|i: int|
        0 <= i < snapshot.children.len() ==> self_equal(#[trigger] snapshot.children[i])
}

/// Whether all the properties of a snapshot, and of everything below it, are texts.
pub open spec fn is_textual(snapshot: SnapshotView) -> bool
    decreases snapshot,
{
    &&& forall|name: Seq<char>| #[trigger]
        snapshot.properties.contains_key(name) ==> is_text(snapshot.properties[name])
    &&& forall|i: int|
        0 <= i < snapshot.children.len() ==> is_textual(#[trigger] snapshot.children[i])
}

/// Texts are equal to themselves.
pub proof fn law_texts_are_self_equal(snapshot: SnapshotView)
    requires
        is_textual(snapshot),
    ensures
        self_equal(snapshot),
    decreases snapshot,
{
    assert forall|i: int| 0 <= i < snapshot.children.len() implies self_equal(
        #[trigger] snapshot.children[i],
    ) by {
        law_texts_are_self_equal(snapshot.children[i]);
    }
}

/// The pairing in which each child goes on as the snapshot that `order` has in its
/// place.
pub open spec fn in_order(order: Seq<int>, count: nat) -> Seq<Option<int>> {
    Seq::new(count, |i: int| Some(order[i]))
}

/// Every number below the length of an order is in it.
proof fn lemma_order_covers(order: Seq<int>, j: int)
    requires
        is_order(order, order.len()),
        0 <= j < order.len(),
    ensures
        order.contains(j),
{
    let count = order.len() as int;
    let all = set_int_range(0, count);
    order.unique_seq_to_set();
    vstd::set_lib::lemma_int_range(0, count);
    assert(order.to_set().subset_of(all)) by {
        assert forall|i: int| order.to_set().contains(i) implies all.contains(i) by {
            let k = choose|k: int| 0 <= k < order.len() && order[k] == i;
            assert(0 <= order[k] < count);
        }
    }
    vstd::set_lib::lemma_subset_equality(order.to_set(), all);
    assert(all.contains(j));
    assert(order.to_set().contains(j));
}

/// Where the names are those of snapshots in some order that keeps namesakes in
/// theirs, each child goes on as the snapshot that the order has in its place.
pub proof fn law_pairing_in_place(
    names: Seq<Seq<char>>,
    snapshots: Seq<SnapshotView>,
    order: Seq<int>,
)
    requires
        is_order(order, snapshots.len()),
        keeps_namesakes(order, snapshots),
        names.len() <= snapshots.len(),
        forall|i: int| 0 <= i < names.len() ==> #[trigger] names[i] == snapshots[order[i]].name,
    ensures
        pairing(names, snapshots) == in_order(order, names.len()),
    decreases names.len(),
{
    if names.len() > 0 {
        let earlier = pairing(names.drop_last(), snapshots);
        assert forall|i: int| 0 <= i < names.drop_last().len() implies #[trigger] names.drop_last()[i]
            == snapshots[order[i]].name by {
            assert(names[i] == snapshots[order[i]].name);
        }
        law_pairing_in_place(names.drop_last(), snapshots, order);
        let last = names.len() - 1;
        assert(names[last] == snapshots[order[last]].name);
        lemma_next_free(earlier, last, names.last(), snapshots, order, 0);
        assert(pairing(names, snapshots) =~= in_order(order, names.len()));
    } else {
        assert(pairing(names, snapshots) =~= in_order(order, names.len()));
    }
}

proof fn lemma_next_free(
    taken: Seq<Option<int>>,
    count: int,
    name: Seq<char>,
    snapshots: Seq<SnapshotView>,
    order: Seq<int>,
    from: int,
)
    requires
        is_order(order, snapshots.len()),
        keeps_namesakes(order, snapshots),
        0 <= count < snapshots.len(),
        0 <= from <= order[count],
        taken == in_order(order, count as nat),
        snapshots[order[count]].name == name,
    ensures
        first_free(taken, name, snapshots, from) == Some(order[count]),
    decreases order[count] - from,
{
    if from < order[count] {
        if snapshots[from].name == name {
            lemma_order_covers(order, from);
            let k = choose|k: int| 0 <= k < order.len() && order[k] == from;
            assert(k < count);
            assert(taken[k] == Some(from));
            assert(taken.contains(Some(from)));
        }
        lemma_next_free(taken, count, name, snapshots, order, from + 1);
    } else {
        assert(!taken.contains(Some(order[count]))) by {
            if taken.contains(Some(order[count])) {
                let i = choose|i: int| 0 <= i < taken.len() && taken[i] == Some(order[count]);
                assert(taken[i] == Some(order[i]));
            }
        }
    }
}

proof fn lemma_all_kept(order: Seq<int>, count: nat)
    ensures
        kept(in_order(order, count)) == Seq::new(count, |i: int| i),
    decreases count,
{
    let pairs = in_order(order, count);
    if count > 0 {
        assert(pairs.drop_last() =~= in_order(order, (count - 1) as nat));
        lemma_all_kept(order, (count - 1) as nat);
        assert(pairs.last() == Some(order[count - 1]));
    }
    assert(kept(pairs) =~= Seq::new(count, |i: int| i));
}

proof fn lemma_none_fresh(order: Seq<int>, count: nat)
    requires
        is_order(order, order.len()),
        count <= order.len(),
    ensures
        fresh(in_order(order, order.len()), count) == Seq::<int>::empty(),
    decreases count,
{
    if count > 0 {
        let pairs = in_order(order, order.len());
        lemma_order_covers(order, count - 1);
        let k = choose|k: int| 0 <= k < order.len() && order[k] == count - 1;
        assert(pairs[k] == Some(count - 1));
        assert(pairs.contains(Some(count - 1)));
        lemma_none_fresh(order, (count - 1) as nat);
    }
}

/// Where the instances are already like a snapshot, bringing them in line with it
/// announces nothing.
pub proof fn law_nothing_to_announce(
    instances: InstanceMap,
    branch: Branch,
    snapshot: SnapshotView,
    result: Branch,
    notes: Notes,
)
    requires
        alike(instances, branch, snapshot),
        self_equal(snapshot),
    ensures
        reconciled_notes(instances, branch, snapshot, result, notes).changes == notes.changes,
    decreases snapshot, 0nat,
{
    let count = snapshot.children.len();
    let order = choose|order: Seq<int>|
        {
            &&& #[trigger] is_order(order, snapshot.children.len())
            &&& keeps_namesakes(order, snapshot.children)
            &&& branch.children.len() == snapshot.children.len()
            &&& forall|k: int|
                0 <= k < branch.children.len() ==> {
                    &&& 0 <= order[k] < snapshot.children.len()
                    &&& alike(
                        instances,
                        #[trigger] branch.children[k],
                        snapshot.children[order[k]],
                    )
                }
        };
    let names = child_names(instances, branch);
    let pairs = pairing(names, snapshot.children);
    assert forall|i: int| 0 <= i < names.len() implies #[trigger] names[i]
        == snapshot.children[order[i]].name by {
        assert(alike(instances, branch.children[i], snapshot.children[order[i]]));
    }
    law_pairing_in_place(names, snapshot.children, order);
    lemma_all_kept(order, count);
    lemma_none_fresh(order, count);
    let placed = notes.placed(branch.id, snapshot);
    assert(!differs(instances[branch.id], snapshot));
    let views = picked(snapshot.children, fresh(pairs, count));
    assert(views.len() == 0);
    let lost = lost_ids(branch.children, pairs);
    assert(lost =~= Set::<u128>::empty()) by {
        assert forall|id: u128| !lost.contains(id) by {
            if lost.contains(id) {
                let i = choose|i: int|
                    0 <= i < pairs.len() && pairs[i] is None && has_id(
                        #[trigger] branch.children[i],
                        id,
                    );
                assert(pairs[i] == Some(order[i]));
            }
        }
    }
    let thin = placed.removed(lost);
    assert(thin.changes.removed =~= notes.changes.removed);
    lemma_paired_quiet(
        instances,
        branch.children,
        snapshot.children,
        order,
        result.children,
        count,
        thin,
    );
}

proof fn lemma_paired_quiet(
    instances: InstanceMap,
    forest: Seq<Branch>,
    snapshots: Seq<SnapshotView>,
    order: Seq<int>,
    results: Seq<Branch>,
    count: nat,
    notes: Notes,
)
    requires
        forest.len() == snapshots.len(),
        count <= snapshots.len(),
        is_order(order, snapshots.len()),
        forall|i: int|
            0 <= i < snapshots.len() ==> {
                &&& 0 <= order[i] < snapshots.len()
                &&& alike(instances, #[trigger] forest[i], snapshots[order[i]])
            },
        forall|i: int| 0 <= i < snapshots.len() ==> self_equal(#[trigger] snapshots[i]),
    ensures
        paired_notes(
            instances,
            forest,
            snapshots,
            in_order(order, snapshots.len()),
            results,
            count,
            notes,
        ).changes == notes.changes,
    decreases snapshots, count,
{
    if count > 0 {
        let pairs = in_order(order, snapshots.len());
        let i = count - 1;
        lemma_all_kept(order, snapshots.len());
        assert(kept(pairs)[i] == i);
        assert(pairs[i] == Some(order[i]));
        let before = paired_notes(
            instances,
            forest,
            snapshots,
            pairs,
            results,
            (count - 1) as nat,
            notes,
        );
        lemma_paired_quiet(
            instances,
            forest,
            snapshots,
            order,
            results,
            (count - 1) as nat,
            notes,
        );
        assert(alike(instances, forest[i], snapshots[order[i]]));
        assert(self_equal(snapshots[order[i]]));
        law_nothing_to_announce(instances, forest[i], snapshots[order[i]], results[i], before);
    }
}

} // verus!
