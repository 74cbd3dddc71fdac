//! Bringing instances in line with a snapshot.
use crate::branch::{
    branch_ids, distinct, evolves, forest_ids, has_id, is_tree, is_whole, lemma_branch_at,
    lemma_contains_concat, lemma_distinct_at, lemma_evolves_child, lemma_evolves_cut,
    lemma_evolves_same, lemma_evolves_top, lemma_evolves_twice, lemma_forest_has,
    lemma_forest_split, lemma_has, lemma_in_forest, lemma_no_duplicates, lemma_siblings,
    lemma_stands_within, lemma_top, lemma_top_alone, lemma_tree_evolves, stands, top_ids,
    with_child_at, without_child, Branch,
};
use crate::laws::changes::lemma_forest_changes;
use crate::pairing::{
    fresh, fresh_indexes, kept, kept_indexes, law_pairing, lemma_kept, names_of, pair_children,
    pairing, pairs_view,
};
use crate::path_map::PathMap;
use crate::project::InstanceProjectNodeMetadata;
use crate::rbx_snapshot::{snapshots_view, RbxSnapshotInstance, SnapshotView};
use crate::reify::{
    forest_mirrors, indexes, lemma_mirrors_frame, lemma_settled, mirrors, notes, picked, place,
    reified_forest_notes, reify_chosen, resembles, untouched_but, with_children, ChangesView,
    InstanceChanges, Notes,
};
use crate::tree::{
    get_instance, remove_instance, set_instance, tree_instances, tree_root, InstanceMap,
    InstanceView,
};
use crate::value::{properties_same, same_properties, texts_agree};
use rbx_tree::RbxTree;
use std::collections::HashMap;
use vstd::prelude::*;

verus! {

broadcast use vstd::std_specs::hash::group_hash_axioms;

/// Some of the branches of a list, by index.
pub open spec fn chosen_branches(forest: Seq<Branch>, chosen: Seq<int>) -> Seq<Branch> {
    Seq::new(chosen.len(), |k: int| forest[chosen[k]])
}

/// The IDs in the branches that do not go on.
pub open spec fn lost_ids(forest: Seq<Branch>, pairs: Seq<Option<int>>) -> Set<u128> {
    Set::new(
        |id: u128|
            exists|i: int|
                0 <= i < pairs.len() && pairs[i] is None && has_id(#[trigger] forest[i], id),
    )
}

impl Notes {
    /// The notes once the instances with some IDs have been removed.
    pub open spec fn removed(self, ids: Set<u128>) -> Notes {
        Notes {
            metadata: self.metadata.remove_keys(ids),
            changes: ChangesView { removed: self.changes.removed.union(ids), ..self.changes },
            ..self
        }
    }

    /// The notes once an instance has been updated.
    pub open spec fn updated(self, id: u128) -> Notes {
        Notes {
            changes: ChangesView { updated: self.changes.updated.insert(id), ..self.changes },
            ..self
        }
    }
}

/// Whether what is announced of an instance is true of a change of the instances: what has
/// come is announced as added and what has gone as removed, and what is announced as added was
/// not there, or was removed on the way, and what is announced as removed is not there, or
/// was added on the way.
pub open spec fn tells_of(
    instances: InstanceMap,
    before: ChangesView,
    after: InstanceMap,
    now: ChangesView,
    id: u128,
) -> bool {
    &&& before.added.contains(id) ==> now.added.contains(id)
    &&& before.removed.contains(id) ==> now.removed.contains(id)
    &&& after.contains_key(id) && !instances.contains_key(id) ==> now.added.contains(id)
    &&& instances.contains_key(id) && !after.contains_key(id) ==> now.removed.contains(id)
    &&& now.added.contains(id) && !before.added.contains(id) ==> !instances.contains_key(id)
        || now.removed.contains(id)
    &&& now.removed.contains(id) && !before.removed.contains(id) ==> !after.contains_key(id)
        || now.added.contains(id)
}

/// Whether what is announced is true of a change of the instances.
pub open spec fn tells(
    instances: InstanceMap,
    before: ChangesView,
    after: InstanceMap,
    now: ChangesView,
) -> bool {
    forall|id: u128| #[trigger] tells_of(instances, before, after, now, id)
}

/// What is announced of two changes is true of both together.
proof fn lemma_tells_twice(
    first: InstanceMap,
    before: ChangesView,
    second: InstanceMap,
    between: ChangesView,
    third: InstanceMap,
    now: ChangesView,
)
    requires
        tells(first, before, second, between),
        tells(second, between, third, now),
    ensures
        tells(first, before, third, now),
{
    assert forall|id: u128| #[trigger] tells_of(first, before, third, now, id) by {
        assert(tells_of(first, before, second, between, id));
        assert(tells_of(second, between, third, now, id));
    }
}

/// New branches are announced as added.
proof fn lemma_tells_grown(
    instances: InstanceMap,
    top: Branch,
    after: InstanceMap,
    more: Seq<Branch>,
    views: Seq<SnapshotView>,
    before: Notes,
)
    requires
        stands(instances, top),
        evolves(instances, top, after, with_children(top, more)),
        forest_mirrors(after, more, views),
    ensures
        tells(
            instances,
            before.changes,
            after,
            reified_forest_notes(before, more, views).changes,
        ),
{
    let wide = with_children(top, more);
    let now = reified_forest_notes(before, more, views).changes;
    assert forall|id: u128| #[trigger] tells_of(instances, before.changes, after, now, id) by {
        lemma_forest_changes(after, before, more, views, id);
        lemma_has(wide, id);
        lemma_has(top, id);
        lemma_forest_split(top.children, more);
        lemma_contains_concat(forest_ids(top.children), forest_ids(more), id);
        lemma_no_duplicates(seq![wide.id], forest_ids(wide.children));
        lemma_no_duplicates(forest_ids(top.children), forest_ids(more));
        lemma_top_alone(wide);
        assert(after.contains_key(id) <==> instances.contains_key(id) && !has_id(top, id)
            || has_id(wide, id));
        if has_id(top, id) {
            lemma_stands_within(instances, top, id);
        }
        if has_id(wide, id) && !has_id(top, id) {
            assert(!instances.contains_key(id));
        }
    }
}

/// Children that do not go on are announced as removed.
proof fn lemma_tells_thinned(
    instances: InstanceMap,
    branch: Branch,
    after: InstanceMap,
    pairs: Seq<Option<int>>,
    before: ChangesView,
    now: ChangesView,
)
    requires
        stands(instances, branch),
        distinct(branch),
        pairs.len() <= branch.children.len(),
        evolves(instances, branch, after, thinned(branch, pairs)),
        now == (ChangesView {
            removed: before.removed.union(lost_ids(branch.children, pairs)),
            ..before
        }),
    ensures
        tells(instances, before, after, now),
{
    let thin = thinned(branch, pairs);
    let lost = lost_ids(branch.children, pairs);
    lemma_kept(pairs);
    assert forall|id: u128| #[trigger] tells_of(instances, before, after, now, id) by {
        lemma_has(branch, id);
        lemma_has(thin, id);
        assert(after.contains_key(id) <==> instances.contains_key(id) && !has_id(branch, id)
            || has_id(thin, id));
        if forest_ids(thin.children).contains(id) {
            let k = lemma_forest_has(thin.children, id);
            let at = if k < kept(pairs).len() {
                kept(pairs)[k]
            } else {
                k - kept(pairs).len() + pairs.len()
            };
            assert(thin.children[k] == branch.children[at]);
            lemma_in_forest(branch.children, at, id);
            lemma_stands_within(instances, branch, id);
            if lost.contains(id) {
                let i = choose|i: int|
                    0 <= i < pairs.len() && pairs[i] is None && has_id(
                        #[trigger] branch.children[i],
                        id,
                    );
                lemma_siblings(branch, at, i, id);
            }
        }
        if lost.contains(id) {
            let i = choose|i: int|
                0 <= i < pairs.len() && pairs[i] is None && has_id(
                    #[trigger] branch.children[i],
                    id,
                );
            lemma_in_forest(branch.children, i, id);
            lemma_top_alone(branch);
        }
        if forest_ids(branch.children).contains(id) {
            let i = lemma_forest_has(branch.children, id);
            if i < pairs.len() {
                if pairs[i] is Some {
                    assert(kept(pairs).contains(i));
                    let k = choose|k: int| 0 <= k < kept(pairs).len() && kept(pairs)[k] == i;
                    assert(thin.children[k] == branch.children[i]);
                    lemma_in_forest(thin.children, k, id);
                } else {
                    assert(has_id(branch.children[i], id));
                    assert(lost.contains(id));
                }
            } else {
                let k = kept(pairs).len() + i - pairs.len();
                assert(thin.children[k] == branch.children[i]);
                lemma_in_forest(thin.children, k, id);
            }
        }
        if id == branch.id {
            lemma_stands_within(instances, branch, id);
        }
    }
}

/// Appends the IDs of a branch to a list.
fn collect_ids(tree: &RbxTree, id: u128, list: &mut Vec<u128>, Ghost(branch): Ghost<Branch>)
    requires
        branch.id == id,
        stands(tree_instances(*tree), branch),
    ensures
        final(list)@ == old(list)@ + branch_ids(branch),
    decreases branch,
{
    let instance = get_instance(tree, id).unwrap();
    list.push(id);
    let ghost start = list@;
    assert(start =~= old(list)@ + seq![id]);
    let mut i: usize = 0;
    assert(branch.children.take(0) =~= Seq::<Branch>::empty());
    while i < instance.children.len()
        invariant
            i <= instance.children.len(),
            stands(tree_instances(*tree), branch),
            instance.children@ == top_ids(branch.children),
            list@ =~= start + forest_ids(branch.children.take(i as int)),
        decreases instance.children.len() - i,
    {
        let ghost child = branch.children[i as int];
        proof {
            assert(stands(tree_instances(*tree), child));
            assert(instance.children@[i as int] == child.id);
            assert(branch.children.take(i + 1).drop_last() =~= branch.children.take(i as int));
        }
        collect_ids(tree, instance.children[i], list, Ghost(child));
        i += 1;
    }
    assert(branch.children.take(i as int) =~= branch.children);
    assert(list@ =~= old(list)@ + branch_ids(branch));
}

/// Notes that instances are gone.
fn forget(
    ids: &Vec<u128>,
    instance_metadata_map: &mut HashMap<u128, InstanceProjectNodeMetadata>,
    changes: &mut InstanceChanges,
)
    ensures
        final(instance_metadata_map)@ == old(instance_metadata_map)@.remove_keys(ids@.to_set()),
        final(changes)@ == (ChangesView {
            removed: old(changes)@.removed.union(ids@.to_set()),
            ..old(changes)@
        }),
{
    let mut i: usize = 0;
    assert(instance_metadata_map@ =~= instance_metadata_map@.remove_keys(ids@.take(0).to_set()));
    assert(changes.removed@ =~= changes.removed@.union(ids@.take(0).to_set()));
    while i < ids.len()
        invariant
            i <= ids.len(),
            instance_metadata_map@ == old(instance_metadata_map)@.remove_keys(
                ids@.take(i as int).to_set(),
            ),
            changes@ == (ChangesView {
                removed: old(changes)@.removed.union(ids@.take(i as int).to_set()),
                ..old(changes)@
            }),
        decreases ids.len() - i,
    {
        let id = ids[i];
        instance_metadata_map.remove(&id);
        changes.removed.insert(id);
        proof {
            let before = ids@.take(i as int);
            let now = ids@.take(i + 1);
            assert(now =~= before.push(id));
            assert forall|other: u128| #[trigger]
                now.to_set().contains(other) <==> before.to_set().contains(other) || other
                    == id by {
                if before.contains(other) {
                    let k = choose|k: int| 0 <= k < before.len() && before[k] == other;
                    assert(now[k] == other);
                }
                if other == id {
                    assert(now[i as int] == other);
                }
                if now.contains(other) {
                    let k = choose|k: int| 0 <= k < now.len() && now[k] == other;
                    if k < i {
                        assert(before[k] == other);
                    }
                }
            }
            assert(instance_metadata_map@ =~= old(instance_metadata_map)@.remove_keys(
                now.to_set(),
            ));
            assert(changes.removed@ =~= old(changes)@.removed.union(now.to_set()));
        }
        i += 1;
    }
    assert(ids@.take(i as int) =~= ids@);
}

/// The branch once the first children, those that pairs are given for, are reduced
/// to the ones that go on.
pub open spec fn thinned(branch: Branch, pairs: Seq<Option<int>>) -> Branch {
    Branch {
        id: branch.id,
        children: chosen_branches(branch.children, kept(pairs)) + branch.children.skip(
            pairs.len() as int,
        ),
    }
}

/// Whether all instances are as before but `top` and those in `lost`.
pub open spec fn untouched_beyond(
    instances: InstanceMap,
    after: InstanceMap,
    top: u128,
    lost: Set<u128>,
) -> bool {
    forall|id: u128|
        #![trigger after[id]]
        #![trigger after.contains_key(id)]
        instances.contains_key(id) && id != top && !lost.contains(id) ==> {
            &&& after.contains_key(id)
            &&& after[id] == instances[id]
        }
}

/// Removes the children of an instance that do not go on.
fn remove_unpaired(
    tree: &mut RbxTree,
    ids: &Vec<u128>,
    pairs: &Vec<Option<usize>>,
    instance_metadata_map: &mut HashMap<u128, InstanceProjectNodeMetadata>,
    changes: &mut InstanceChanges,
    Ghost(branch): Ghost<Branch>,
)
    requires
        stands(tree_instances(*old(tree)), branch),
        distinct(branch),
        pairs.len() == ids.len(),
        ids.len() <= branch.children.len(),
        forall|i: int| 0 <= i < ids.len() ==> #[trigger] ids@[i] == branch.children[i].id,
        forall|i: int|
            0 <= i < ids.len() ==> !has_id(#[trigger] branch.children[i], tree_root(*old(tree))),
    ensures
        evolves(
            tree_instances(*old(tree)),
            branch,
            tree_instances(*final(tree)),
            thinned(branch, pairs_view(pairs@)),
        ),
        untouched_beyond(
            tree_instances(*old(tree)),
            tree_instances(*final(tree)),
            branch.id,
            lost_ids(branch.children, pairs_view(pairs@)),
        ),
        resembling(
            tree_instances(*old(tree))[branch.id],
            tree_instances(*final(tree))[branch.id],
        ),
        tree_root(*final(tree)) == tree_root(*old(tree)),
        final(instance_metadata_map)@ == old(instance_metadata_map)@.remove_keys(
            lost_ids(branch.children, pairs_view(pairs@)),
        ),
        final(changes)@ == (ChangesView {
            removed: old(changes)@.removed.union(lost_ids(branch.children, pairs_view(pairs@))),
            ..old(changes)@
        }),
{
    let ghost views = pairs_view(pairs@);
    let ghost first = tree_instances(*tree);
    let ghost root = tree_root(*tree);
    proof {
        lemma_evolves_same(first, branch);
        assert(thinned(branch, views.take(0)).children =~= branch.children);
        assert(instance_metadata_map@ =~= instance_metadata_map@.remove_keys(
            lost_ids(branch.children, views.take(0)),
        ));
        assert(changes.removed@ =~= changes.removed@.union(
            lost_ids(branch.children, views.take(0)),
        ));
    }
    let mut i: usize = 0;
    while i < ids.len()
        invariant
            i <= ids.len(),
            first == tree_instances(*old(tree)),
            root == tree_root(*old(tree)),
            views == pairs_view(pairs@),
            pairs.len() == ids.len(),
            ids.len() <= branch.children.len(),
            forall|i: int| 0 <= i < ids.len() ==> #[trigger] ids@[i] == branch.children[i].id,
            forall|i: int| 0 <= i < ids.len() ==> !has_id(#[trigger] branch.children[i], root),
            evolves(first, branch, tree_instances(*tree), thinned(branch, views.take(i as int))),
            untouched_beyond(
                first,
                tree_instances(*tree),
                branch.id,
                lost_ids(branch.children, views.take(i as int)),
            ),
            resembling(first[branch.id], tree_instances(*tree)[branch.id]),
            tree_root(*tree) == root,
            instance_metadata_map@ == old(instance_metadata_map)@.remove_keys(
                lost_ids(branch.children, views.take(i as int)),
            ),
            changes@ == (ChangesView {
                removed: old(changes)@.removed.union(
                    lost_ids(branch.children, views.take(i as int)),
                ),
                ..old(changes)@
            }),
        decreases ids.len() - i,
    {
        let ghost before = views.take(i as int);
        let ghost now = views.take(i + 1);
        let ghost current = thinned(branch, before);
        let ghost child = branch.children[i as int];
        let ghost mid = tree_instances(*tree);
        let ghost at = kept(before).len() as int;
        proof {
            assert(now.drop_last() =~= before);
            assert(now.last() == views[i as int]);
            assert(current.children[at] == child);
        }
        if pairs[i].is_none() {
            proof {
                assert(stands(mid, current.children[at]));
                assert(top_ids(current.children)[at] == child.id);
                lemma_top(child);
                lemma_distinct_at(current, at);
            }
            let mut gone: Vec<u128> = Vec::new();
            collect_ids(tree, ids[i], &mut gone, Ghost(child));
            forget(&gone, instance_metadata_map, changes);
            remove_instance(tree, ids[i]);
            proof {
                let after = tree_instances(*tree);
                lemma_evolves_cut(mid, current, at, after);
                assert(without_child(current, at).children =~= thinned(branch, now).children);
                lemma_evolves_twice(
                    first,
                    branch,
                    mid,
                    current,
                    after,
                    without_child(current, at),
                );
                assert(gone@ =~= branch_ids(child));
                lemma_lost_more(branch.children, before, now, gone@.to_set());
                assert(instance_metadata_map@ =~= old(instance_metadata_map)@.remove_keys(
                    lost_ids(branch.children, now),
                ));
                assert(changes.removed@ =~= old(changes)@.removed.union(
                    lost_ids(branch.children, now),
                ));
                assert(resembling(mid[branch.id], after[branch.id])) by {
                    assert(mid[child.id].parent == Some(branch.id));
                    assert(!has_id(child, branch.id));
                    lemma_top(without_child(current, at));
                    assert(after.contains_key(branch.id));
                }
                lemma_untouched_beyond(
                    first,
                    mid,
                    after,
                    branch.id,
                    lost_ids(branch.children, before),
                    lost_ids(branch.children, now),
                    child,
                );
            }
        } else {
            proof {
                assert(thinned(branch, now).children =~= current.children);
                lemma_lost_same(branch.children, before, now);
            }
        }
        i += 1;
    }
    assert(views.take(i as int) =~= views);
}

/// Whether two instances are alike but for their children.
pub open spec fn resembling(left: InstanceView, right: InstanceView) -> bool {
    &&& left.name == right.name
    &&& left.class_name == right.class_name
    &&& left.properties == right.properties
}

proof fn lemma_lost_more(
    forest: Seq<Branch>,
    before: Seq<Option<int>>,
    now: Seq<Option<int>>,
    ids: Set<u128>,
)
    requires
        now.len() > 0,
        now.len() <= forest.len(),
        before == now.drop_last(),
        now.last() is None,
        ids == branch_ids(forest[now.len() - 1]).to_set(),
    ensures
        lost_ids(forest, now) == lost_ids(forest, before).union(ids),
{
    assert forall|id: u128| #[trigger]
        lost_ids(forest, now).contains(id) <==> lost_ids(forest, before).union(ids).contains(
            id,
        ) by {
        if lost_ids(forest, now).contains(id) {
            let i = choose|i: int|
                0 <= i < now.len() && now[i] is None && has_id(#[trigger] forest[i], id);
            if i < before.len() {
                assert(before[i] is None && has_id(forest[i], id));
            }
        }
        if lost_ids(forest, before).contains(id) {
            let i = choose|i: int|
                0 <= i < before.len() && before[i] is None && has_id(#[trigger] forest[i], id);
            assert(now[i] is None && has_id(forest[i], id));
        }
        if ids.contains(id) {
            let i = now.len() - 1;
            assert(now[i] is None && has_id(forest[i], id));
        }
    }
    assert(lost_ids(forest, now) =~= lost_ids(forest, before).union(ids));
}

proof fn lemma_lost_same(forest: Seq<Branch>, before: Seq<Option<int>>, now: Seq<Option<int>>)
    requires
        now.len() > 0,
        before == now.drop_last(),
        now.last() is Some,
    ensures
        lost_ids(forest, now) == lost_ids(forest, before),
{
    assert forall|id: u128| #[trigger]
        lost_ids(forest, now).contains(id) <==> lost_ids(forest, before).contains(id) by {
        if lost_ids(forest, now).contains(id) {
            let i = choose|i: int|
                0 <= i < now.len() && now[i] is None && has_id(#[trigger] forest[i], id);
            assert(before[i] is None && has_id(forest[i], id));
        }
        if lost_ids(forest, before).contains(id) {
            let i = choose|i: int|
                0 <= i < before.len() && before[i] is None && has_id(#[trigger] forest[i], id);
            assert(now[i] is None && has_id(forest[i], id));
        }
    }
    assert(lost_ids(forest, now) =~= lost_ids(forest, before));
}

proof fn lemma_untouched_beyond(
    first: InstanceMap,
    second: InstanceMap,
    third: InstanceMap,
    top: u128,
    before: Set<u128>,
    now: Set<u128>,
    child: Branch,
)
    requires
        untouched_beyond(first, second, top, before),
        forall|id: u128|
            #![trigger third[id]]
            #![trigger third.contains_key(id)]
            second.contains_key(id) && id != top && !has_id(child, id) ==> {
                &&& third.contains_key(id)
                &&& third[id] == second[id]
            },
        now == before.union(branch_ids(child).to_set()),
    ensures
        untouched_beyond(first, third, top, now),
{
    assert forall|id: u128|
        #![trigger third[id]]
        #![trigger third.contains_key(id)]
        first.contains_key(id) && id != top && !now.contains(id) implies {
        &&& third.contains_key(id)
        &&& third[id] == first[id]
    } by {
        assert(second.contains_key(id));
        assert(!branch_ids(child).to_set().contains(id));
        assert(!has_id(child, id));
        assert(third[id] == second[id]);
    }
}

/// The names of the children of an instance.
pub open spec fn child_names(instances: InstanceMap, branch: Branch) -> Seq<Seq<char>> {
    names_of(instances, top_ids(branch.children))
}

/// Whether an instance has to change to be as a snapshot says.
pub open spec fn differs(instance: InstanceView, snapshot: SnapshotView) -> bool {
    ||| instance.name != snapshot.name
    ||| instance.class_name != snapshot.class_name
    ||| !same_properties(instance.properties, snapshot.properties)
}

/// Whether the instances of `branch` have become those of `result`, as a snapshot
/// says: the children that a child of the snapshot is found for go on, in order, and
/// behind them come new ones for the rest of the snapshot. An instance that is not to
/// change has the texts that the snapshot has.
pub open spec fn reconciled(
    instances: InstanceMap,
    branch: Branch,
    snapshot: SnapshotView,
    after: InstanceMap,
    result: Branch,
) -> bool
    decreases snapshot,
{
    let pairs = pairing(child_names(instances, branch), snapshot.children);
    let going = kept(pairs);
    let coming = fresh(pairs, snapshot.children.len());
    &&& resembles(after[branch.id], snapshot)
    &&& !differs(instances[branch.id], snapshot) ==> texts_agree(
        instances[branch.id].properties,
        snapshot.properties,
    )
    &&& result.id == branch.id
    &&& result.children.len() == going.len() + coming.len()
    &&& forall|k: int|
        0 <= k < going.len() ==> {
            &&& 0 <= pairs[going[k]]->0 < snapshot.children.len()
            &&& reconciled(
                instances,
                branch.children[going[k]],
                snapshot.children[pairs[going[k]]->0],
                after,
                #[trigger] result.children[k],
            )
        }
    &&& forest_mirrors(
        after,
        result.children.skip(going.len() as int),
        picked(snapshot.children, coming),
    )
}

/// The notes once the instances of a branch have become those of `result`.
pub open spec fn reconciled_notes(
    instances: InstanceMap,
    branch: Branch,
    snapshot: SnapshotView,
    result: Branch,
    notes: Notes,
) -> Notes
    decreases snapshot, 0nat,
{
    let pairs = pairing(child_names(instances, branch), snapshot.children);
    let placed = notes.placed(branch.id, snapshot);
    let updated = if differs(instances[branch.id], snapshot) {
        placed.updated(branch.id)
    } else {
        placed
    };
    let added = reified_forest_notes(
        updated,
        result.children.skip(kept(pairs).len() as int),
        picked(snapshot.children, fresh(pairs, snapshot.children.len())),
    );
    paired_notes(
        instances,
        branch.children,
        snapshot.children,
        pairs,
        result.children,
        kept(pairs).len(),
        added.removed(lost_ids(branch.children, pairs)),
    )
}

/// The notes once the first `count` children that go on have become those of
/// `results`.
pub open spec fn paired_notes(
    instances: InstanceMap,
    forest: Seq<Branch>,
    snapshots: Seq<SnapshotView>,
    pairs: Seq<Option<int>>,
    results: Seq<Branch>,
    count: nat,
    notes: Notes,
) -> Notes
    decreases snapshots, count,
{
    if count == 0 {
        notes
    } else {
        let i = kept(pairs)[count - 1];
        let before = paired_notes(
            instances,
            forest,
            snapshots,
            pairs,
            results,
            (count - 1) as nat,
            notes,
        );
        if 0 <= pairs[i]->0 < snapshots.len() {
            reconciled_notes(
                instances,
                forest[i],
                snapshots[pairs[i]->0],
                results[count - 1],
                before,
            )
        } else {
            before
        }
    }
}

/// Whether two states of the instances agree on a branch.
pub open spec fn agree_on(left: InstanceMap, right: InstanceMap, branch: Branch) -> bool {
    forall|id: u128| #[trigger] has_id(branch, id) ==> left[id] == right[id]
}

proof fn lemma_agree_child(left: InstanceMap, right: InstanceMap, branch: Branch, i: int)
    requires
        agree_on(left, right, branch),
        0 <= i < branch.children.len(),
    ensures
        agree_on(left, right, branch.children[i]),
{
    lemma_top(branch);
}

proof fn lemma_agree_names(left: InstanceMap, right: InstanceMap, branch: Branch)
    requires
        agree_on(left, right, branch),
    ensures
        child_names(left, branch) == child_names(right, branch),
        left[branch.id] == right[branch.id],
{
    lemma_top(branch);
    assert forall|i: int| 0 <= i < branch.children.len() implies #[trigger] child_names(
        left,
        branch,
    )[i] == child_names(right, branch)[i] by {
        lemma_top(branch.children[i]);
        assert(has_id(branch, branch.children[i].id));
    }
    assert(child_names(left, branch) =~= child_names(right, branch));
}

/// What becomes of a branch depends on nothing outside of it.
proof fn lemma_reconciled_frame(
    instances: InstanceMap,
    other: InstanceMap,
    branch: Branch,
    snapshot: SnapshotView,
    after: InstanceMap,
    other_after: InstanceMap,
    result: Branch,
)
    requires
        reconciled(instances, branch, snapshot, after, result),
        agree_on(instances, other, branch),
        agree_on(after, other_after, result),
    ensures
        reconciled(other, branch, snapshot, other_after, result),
    decreases snapshot,
{
    let pairs = pairing(child_names(instances, branch), snapshot.children);
    let going = kept(pairs);
    let coming = fresh(pairs, snapshot.children.len());
    lemma_agree_names(instances, other, branch);
    lemma_agree_names(after, other_after, result);
    law_pairing(child_names(instances, branch), snapshot.children);
    lemma_kept(pairs);
    assert forall|k: int| 0 <= k < going.len() implies {
        &&& 0 <= pairs[going[k]]->0 < snapshot.children.len()
        &&& reconciled(
            other,
            branch.children[going[k]],
            snapshot.children[pairs[going[k]]->0],
            other_after,
            #[trigger] result.children[k],
        )
    } by {
        lemma_agree_child(instances, other, branch, going[k]);
        lemma_agree_child(after, other_after, result, k);
        lemma_reconciled_frame(
            instances,
            other,
            branch.children[going[k]],
            snapshot.children[pairs[going[k]]->0],
            after,
            other_after,
            result.children[k],
        );
    }
    let tail = result.children.skip(going.len() as int);
    let views = picked(snapshot.children, coming);
    assert forall|k: int| 0 <= k < tail.len() implies mirrors(
        other_after,
        #[trigger] tail[k],
        views[k],
    ) by {
        assert(mirrors(after, tail[k], views[k]));
        lemma_agree_child(after, other_after, result, going.len() + k);
        lemma_mirrors_frame(after, other_after, tail[k], views[k]);
    }
}

/// The notes depend on nothing outside of a branch.
proof fn lemma_notes_frame(
    instances: InstanceMap,
    other: InstanceMap,
    branch: Branch,
    snapshot: SnapshotView,
    result: Branch,
    notes: Notes,
)
    requires
        agree_on(instances, other, branch),
    ensures
        reconciled_notes(instances, branch, snapshot, result, notes) == reconciled_notes(
            other,
            branch,
            snapshot,
            result,
            notes,
        ),
    decreases snapshot, 0nat,
{
    let pairs = pairing(child_names(instances, branch), snapshot.children);
    lemma_agree_names(instances, other, branch);
    law_pairing(child_names(instances, branch), snapshot.children);
    let placed = notes.placed(branch.id, snapshot);
    let updated = if differs(instances[branch.id], snapshot) {
        placed.updated(branch.id)
    } else {
        placed
    };
    let added = reified_forest_notes(
        updated,
        result.children.skip(kept(pairs).len() as int),
        picked(snapshot.children, fresh(pairs, snapshot.children.len())),
    );
    lemma_kept(pairs);
    lemma_paired_frame(
        instances,
        other,
        branch,
        snapshot.children,
        pairs,
        result.children,
        kept(pairs).len(),
        added.removed(lost_ids(branch.children, pairs)),
    );
}

proof fn lemma_paired_frame(
    instances: InstanceMap,
    other: InstanceMap,
    branch: Branch,
    snapshots: Seq<SnapshotView>,
    pairs: Seq<Option<int>>,
    results: Seq<Branch>,
    count: nat,
    notes: Notes,
)
    requires
        agree_on(instances, other, branch),
        pairs.len() == branch.children.len(),
        count <= kept(pairs).len(),
    ensures
        paired_notes(instances, branch.children, snapshots, pairs, results, count, notes)
            == paired_notes(other, branch.children, snapshots, pairs, results, count, notes),
    decreases snapshots, count,
{
    if count > 0 {
        let i = kept(pairs)[count - 1];
        lemma_kept(pairs);
        lemma_paired_frame(
            instances,
            other,
            branch,
            snapshots,
            pairs,
            results,
            (count - 1) as nat,
            notes,
        );
        if 0 <= pairs[i]->0 < snapshots.len() {
            lemma_agree_child(instances, other, branch, i);
            lemma_notes_frame(
                instances,
                other,
                branch.children[i],
                snapshots[pairs[i]->0],
                results[count - 1],
                paired_notes(
                    instances,
                    branch.children,
                    snapshots,
                    pairs,
                    results,
                    (count - 1) as nat,
                    notes,
                ),
            );
        }
    }
}

/// The notes on the first children depend on the first results alone.
proof fn lemma_paired_prefix(
    instances: InstanceMap,
    forest: Seq<Branch>,
    snapshots: Seq<SnapshotView>,
    pairs: Seq<Option<int>>,
    results: Seq<Branch>,
    others: Seq<Branch>,
    count: nat,
    notes: Notes,
)
    requires
        forall|k: int| 0 <= k < count ==> #[trigger] results[k] == others[k],
    ensures
        paired_notes(instances, forest, snapshots, pairs, results, count, notes) == paired_notes(
            instances,
            forest,
            snapshots,
            pairs,
            others,
            count,
            notes,
        ),
    decreases count,
{
    if count > 0 {
        lemma_paired_prefix(
            instances,
            forest,
            snapshots,
            pairs,
            results,
            others,
            (count - 1) as nat,
            notes,
        );
        assert(results[count - 1] == others[count - 1]);
    }
}

/// The branch when the first of the children that go on have become `done`.
pub open spec fn half_done(
    branch: Branch,
    pairs: Seq<Option<int>>,
    done: Seq<Branch>,
    more: Seq<Branch>,
) -> Branch {
    Branch {
        id: branch.id,
        children: done + chosen_branches(branch.children, kept(pairs)).skip(done.len() as int)
            + more,
    }
}

/// Whether the first of the children that go on have become `done`.
pub open spec fn forest_reconciled(
    instances: InstanceMap,
    forest: Seq<Branch>,
    snapshots: Seq<SnapshotView>,
    pairs: Seq<Option<int>>,
    after: InstanceMap,
    done: Seq<Branch>,
) -> bool {
    forall|k: int|
        0 <= k < done.len() ==> {
            &&& 0 <= pairs[kept(pairs)[k]]->0 < snapshots.len()
            &&& reconciled(
                instances,
                forest[kept(pairs)[k]],
                snapshots[pairs[kept(pairs)[k]]->0],
                after,
                #[trigger] done[k],
            )
        }
}

/// Whether the children that go on, from the one in place `from`, are as they were.
pub open spec fn waiting(
    instances: InstanceMap,
    now: InstanceMap,
    forest: Seq<Branch>,
    pairs: Seq<Option<int>>,
    from: int,
) -> bool {
    forall|k: int|
        from <= k < kept(pairs).len() ==> agree_on(
            instances,
            now,
            #[trigger] chosen_branches(forest, kept(pairs))[k],
        )
}

/// Brings the children that go on in line with their snapshots.
fn reconcile_paired(
    tree: &mut RbxTree,
    ids: &Vec<u128>,
    pairs: &Vec<Option<usize>>,
    snapshots: &Vec<RbxSnapshotInstance>,
    path_map: &mut PathMap<u128>,
    instance_metadata_map: &mut HashMap<u128, InstanceProjectNodeMetadata>,
    changes: &mut InstanceChanges,
    Ghost(start): Ghost<InstanceMap>,
    Ghost(branch): Ghost<Branch>,
    Ghost(more): Ghost<Seq<Branch>>,
    Ghost(coming): Ghost<Seq<SnapshotView>>,
) -> (done: Ghost<Seq<Branch>>)
    requires
        pairs.len() == ids.len(),
        ids@ == top_ids(branch.children),
        forall|i: int|
            0 <= i < pairs.len() ==> (#[trigger] pairs@[i] matches Some(j) ==> j
                < snapshots.len()),
        stands(
            tree_instances(*old(tree)),
            half_done(branch, pairs_view(pairs@), Seq::empty(), more),
        ),
        distinct(half_done(branch, pairs_view(pairs@), Seq::empty(), more)),
        waiting(start, tree_instances(*old(tree)), branch.children, pairs_view(pairs@), 0),
        forest_mirrors(tree_instances(*old(tree)), more, coming),
        forall|i: int|
            0 <= i < branch.children.len() ==> !has_id(
                #[trigger] branch.children[i],
                tree_root(*old(tree)),
            ),
    ensures
        done@.len() == kept(pairs_view(pairs@)).len(),
        evolves(
            tree_instances(*old(tree)),
            half_done(branch, pairs_view(pairs@), Seq::empty(), more),
            tree_instances(*final(tree)),
            half_done(branch, pairs_view(pairs@), done@, more),
        ),
        forest_reconciled(
            start,
            branch.children,
            snapshots_view(snapshots@),
            pairs_view(pairs@),
            tree_instances(*final(tree)),
            done@,
        ),
        forest_mirrors(tree_instances(*final(tree)), more, coming),
        tree_instances(*final(tree))[branch.id] == tree_instances(*old(tree))[branch.id],
        tree_root(*final(tree)) == tree_root(*old(tree)),
        notes(*final(path_map), *final(instance_metadata_map), *final(changes)) == paired_notes(
            start,
            branch.children,
            snapshots_view(snapshots@),
            pairs_view(pairs@),
            done@,
            kept(pairs_view(pairs@)).len(),
            notes(*old(path_map), *old(instance_metadata_map), *old(changes)),
        ),
        tells(
            tree_instances(*old(tree)),
            old(changes)@,
            tree_instances(*final(tree)),
            final(changes)@,
        ),
    decreases snapshots,
{
    let ghost views = pairs_view(pairs@);
    let ghost going = kept(views);
    let ghost targets = snapshots_view(snapshots@);
    let ghost first = tree_instances(*tree);
    let ghost root = tree_root(*tree);
    let ghost before = notes(*path_map, *instance_metadata_map, *changes);
    let ghost mut done: Seq<Branch> = Seq::empty();
    let list = kept_indexes(pairs);
    proof {
        lemma_kept(views);
        lemma_evolves_same(first, half_done(branch, views, done, more));
    }
    let mut k: usize = 0;
    while k < list.len()
        invariant
            k <= list.len(),
            done.len() == k,
            views == pairs_view(pairs@),
            going == kept(views),
            indexes(list@) == going,
            list.len() == going.len(),
            targets == snapshots_view(snapshots@),
            first == tree_instances(*old(tree)),
            root == tree_root(*old(tree)),
            before == notes(*old(path_map), *old(instance_metadata_map), *old(changes)),
            pairs.len() == ids.len(),
            ids@ == top_ids(branch.children),
            forall|i: int|
                0 <= i < pairs.len() ==> (#[trigger] pairs@[i] matches Some(j) ==> j
                    < snapshots.len()),
            forall|k: int|
                0 <= k < going.len() ==> 0 <= #[trigger] going[k] < views.len()
                    && views[going[k]] is Some,
            evolves(
                first,
                half_done(branch, views, Seq::empty(), more),
                tree_instances(*tree),
                half_done(branch, views, done, more),
            ),
            waiting(start, tree_instances(*tree), branch.children, views, k as int),
            forest_reconciled(
                start,
                branch.children,
                targets,
                views,
                tree_instances(*tree),
                done,
            ),
            forest_mirrors(tree_instances(*tree), more, coming),
            forall|i: int|
                0 <= i < branch.children.len() ==> !has_id(#[trigger] branch.children[i], root),
            tree_instances(*tree)[branch.id] == first[branch.id],
            tree_root(*tree) == root,
            tells(first, old(changes)@, tree_instances(*tree), changes@),
            notes(*path_map, *instance_metadata_map, *changes) == paired_notes(
                start,
                branch.children,
                targets,
                views,
                done,
                k as nat,
                before,
            ),
        decreases list.len() - k,
    {
        let i = list[k];
        let ghost current = half_done(branch, views, done, more);
        let ghost mid = tree_instances(*tree);
        let ghost child = branch.children[i as int];
        let ghost mid_notes = notes(*path_map, *instance_metadata_map, *changes);
        proof {
            assert(indexes(list@)[k as int] == going[k as int]);
            assert(going[k as int] == i);
            assert(chosen_branches(branch.children, going)[k as int] == child);
            assert(current.children[k as int] == child);
            assert(stands(mid, current.children[k as int]));
            lemma_distinct_at(current, k as int);
            assert(ids@[i as int] == child.id);
            assert(!has_id(child, root));
            assert forall|id: u128| #[trigger] forest_ids(child.children).contains(id) implies id
                != root by {
                lemma_has(child, id);
            }
            assert(views[i as int] is Some);
        }
        let j = pairs[i].unwrap();
        let ghost mid_changes = changes@;
        let now = reconcile_branch(
            tree,
            ids[i],
            &snapshots[j],
            path_map,
            instance_metadata_map,
            changes,
            Ghost(child),
        );
        proof {
            let after = tree_instances(*tree);
            lemma_tells_twice(first, old(changes)@, mid, mid_changes, after, changes@);
            let snapshot = snapshots@[j as int]@;
            assert(targets[j as int] == snapshot);
            assert(views[i as int] == Some(j as int));
            let next = done.push(now@);
            lemma_evolves_child(mid, current, k as int, after, now@);
            assert(with_child_at(current, k as int, now@).children =~= half_done(
                branch,
                views,
                next,
                more,
            ).children);
            lemma_evolves_twice(
                first,
                half_done(branch, views, Seq::empty(), more),
                mid,
                current,
                after,
                half_done(branch, views, next, more),
            );
            lemma_top(current);
            assert(!has_id(child, branch.id));
            assert(after[branch.id] == mid[branch.id]);
            assert(agree_on(
                start,
                mid,
                chosen_branches(branch.children, going)[k as int],
            ));
            assert(agree_on(mid, start, child));
            assert(agree_on(after, after, now@));
            lemma_reconciled_frame(mid, start, child, snapshot, after, after, now@);
            lemma_notes_frame(mid, start, child, snapshot, now@, mid_notes);
            assert forall|l: int| 0 <= l < next.len() implies {
                &&& 0 <= views[kept(views)[l]]->0 < targets.len()
                &&& reconciled(
                    start,
                    branch.children[kept(views)[l]],
                    targets[views[kept(views)[l]]->0],
                    after,
                    #[trigger] next[l],
                )
            } by {
                if l < k {
                    assert(next[l] == done[l]);
                    assert(current.children[l] == done[l]);
                    lemma_aside(mid, current, k as int, l, after);
                    assert(agree_on(start, start, branch.children[kept(views)[l]]));
                    lemma_reconciled_frame(
                        start,
                        start,
                        branch.children[kept(views)[l]],
                        targets[views[kept(views)[l]]->0],
                        mid,
                        after,
                        done[l],
                    );
                }
            }
            assert forall|l: int| k + 1 <= l < going.len() implies agree_on(
                start,
                after,
                #[trigger] chosen_branches(branch.children, going)[l],
            ) by {
                assert(current.children[l] == chosen_branches(branch.children, going)[l]);
                lemma_aside(mid, current, k as int, l, after);
                assert(agree_on(start, mid, chosen_branches(branch.children, going)[l]));
            }
            assert forall|l: int| 0 <= l < more.len() implies mirrors(
                after,
                #[trigger] more[l],
                coming[l],
            ) by {
                assert(mirrors(mid, more[l], coming[l]));
                assert(current.children[going.len() + l] == more[l]);
                lemma_aside(mid, current, k as int, going.len() + l, after);
                lemma_mirrors_frame(mid, after, more[l], coming[l]);
            }
            lemma_paired_prefix(
                start,
                branch.children,
                targets,
                views,
                done,
                next,
                k as nat,
                before,
            );
            done = next;
        }
        k += 1;
    }
    Ghost(done)
}

/// A change in one child of a branch leaves the others alone.
proof fn lemma_aside(
    instances: InstanceMap,
    branch: Branch,
    i: int,
    other: int,
    after: InstanceMap,
)
    requires
        stands(instances, branch),
        distinct(branch),
        0 <= i < branch.children.len(),
        0 <= other < branch.children.len(),
        i != other,
        forall|id: u128|
            instances.contains_key(id) && !has_id(branch.children[i], id) ==> #[trigger] after[id]
                == instances[id],
    ensures
        agree_on(instances, after, branch.children[other]),
{
    assert(stands(instances, branch.children[other]));
    assert forall|id: u128| #[trigger] has_id(branch.children[other], id) implies instances[id]
        == after[id] by {
        lemma_siblings(branch, other, i, id);
        lemma_stands_within(instances, branch.children[other], id);
    }
}

/// Brings an instance, and everything below it, in line with a snapshot, and returns
/// the IDs of what is there afterwards.
fn reconcile_branch(
    tree: &mut RbxTree,
    id: u128,
    snapshot: &RbxSnapshotInstance,
    path_map: &mut PathMap<u128>,
    instance_metadata_map: &mut HashMap<u128, InstanceProjectNodeMetadata>,
    changes: &mut InstanceChanges,
    Ghost(branch): Ghost<Branch>,
) -> (result: Ghost<Branch>)
    requires
        branch.id == id,
        stands(tree_instances(*old(tree)), branch),
        distinct(branch),
        !forest_ids(branch.children).contains(tree_root(*old(tree))),
    ensures
        evolves(tree_instances(*old(tree)), branch, tree_instances(*final(tree)), result@),
        reconciled(
            tree_instances(*old(tree)),
            branch,
            snapshot@,
            tree_instances(*final(tree)),
            result@,
        ),
        tree_root(*final(tree)) == tree_root(*old(tree)),
        notes(*final(path_map), *final(instance_metadata_map), *final(changes))
            == reconciled_notes(
            tree_instances(*old(tree)),
            branch,
            snapshot@,
            result@,
            notes(*old(path_map), *old(instance_metadata_map), *old(changes)),
        ),
        tells(
            tree_instances(*old(tree)),
            old(changes)@,
            tree_instances(*final(tree)),
            final(changes)@,
        ),
    decreases snapshot,
{
    let ghost start = tree_instances(*tree);
    let ghost start_changes = changes@;
    let ghost root = tree_root(*tree);
    let instance = get_instance(tree, id).unwrap();
    place(snapshot, id, path_map, instance_metadata_map, changes);
    if instance.name != snapshot.name || instance.class_name != snapshot.class_name
        || !properties_same(&instance.properties, &snapshot.properties) {
        changes.updated.insert(id);
    }
    set_instance(
        tree,
        id,
        snapshot.name.as_str(),
        snapshot.class_name.as_str(),
        &snapshot.properties,
    );
    let ghost first = tree_instances(*tree);
    proof {
        lemma_evolves_top(start, branch, first[id]);
        assert(first =~= start.insert(id, first[id]));
        assert forall|other: u128| #[trigger]
            tells_of(start, start_changes, first, changes@, other) by {}
        assert forall|i: int| 0 <= i < instance.children.len() implies first.contains_key(
            #[trigger] instance.children@[i],
        ) by {
            assert(instance.children@[i] == branch.children[i].id);
            assert(stands(first, branch.children[i]));
        }
    }
    let pairs = pair_children(tree, &instance.children, &snapshot.children);
    let coming = fresh_indexes(&pairs, snapshot.children.len());
    let ghost views = pairs_view(pairs@);
    let ghost incoming = picked(snapshot@.children, indexes(coming@));
    proof {
        assert(names_of(first, instance.children@) =~= child_names(start, branch)) by {
            assert forall|i: int| 0 <= i < branch.children.len() implies first[branch.children[i].id]
                == start[#[trigger] branch.children[i].id] by {
                lemma_top(branch.children[i]);
                lemma_distinct_at(branch, i);
            }
        }
    }
    let ghost first_changes = changes@;
    let ghost first_notes = notes(*path_map, *instance_metadata_map, *changes);
    let more = reify_chosen(
        &snapshot.children,
        &coming,
        tree,
        id,
        Ghost(branch),
        path_map,
        instance_metadata_map,
        changes,
    );
    let ghost second = tree_instances(*tree);
    let ghost wide = with_children(branch, more@);
    let ghost wide_notes = notes(*path_map, *instance_metadata_map, *changes);
    proof {
        lemma_tells_grown(first, branch, second, more@, incoming, first_notes);
        lemma_tells_twice(start, start_changes, first, first_changes, second, changes@);
        assert forall|i: int| 0 <= i < branch.children.len() implies !has_id(
            #[trigger] branch.children[i],
            root,
        ) by {
            if has_id(branch.children[i], root) {
                lemma_in_forest(branch.children, i, root);
            }
        }
    }
    remove_unpaired(
        tree,
        &instance.children,
        &pairs,
        instance_metadata_map,
        changes,
        Ghost(wide),
    );
    let ghost third = tree_instances(*tree);
    let ghost thin_notes = notes(*path_map, *instance_metadata_map, *changes);
    let ghost none: Seq<Branch> = Seq::empty();
    let ghost bare = half_done(branch, views, none, more@);
    proof {
        assert(thin_notes == wide_notes.removed(lost_ids(wide.children, views)));
        lemma_tells_thinned(second, wide, third, views, wide_notes.changes, thin_notes.changes);
        lemma_tells_twice(
            start,
            start_changes,
            second,
            wide_notes.changes,
            third,
            thin_notes.changes,
        );
        lemma_kept(views);
        lemma_lost_first(branch.children, more@, views);
        assert(thinned(wide, views).children =~= bare.children);
        assert(thinned(wide, views) == bare);
        lemma_evolves_twice(start, branch, first, branch, second, wide);
        lemma_evolves_twice(start, branch, second, wide, third, bare);
        assert forall|k: int| 0 <= k < kept(views).len() implies agree_on(
            start,
            third,
            #[trigger] chosen_branches(branch.children, kept(views))[k],
        ) by {
            lemma_carried(start, branch, first, second, wide, third, views, kept(views)[k]);
        }
        assert forall|k: int| 0 <= k < more@.len() implies mirrors(
            third,
            #[trigger] more@[k],
            incoming[k],
        ) by {
            assert(mirrors(second, more@[k], incoming[k]));
            lemma_spared(second, wide, third, views, branch.children.len() + k);
            assert(wide.children[branch.children.len() + k] == more@[k]);
            lemma_mirrors_frame(second, third, more@[k], incoming[k]);
        }
    }
    let done = reconcile_paired(
        tree,
        &instance.children,
        &pairs,
        &snapshot.children,
        path_map,
        instance_metadata_map,
        changes,
        Ghost(start),
        Ghost(branch),
        more,
        Ghost(incoming),
    );
    let ghost result = half_done(branch, views, done@, more@);
    proof {
        let after = tree_instances(*tree);
        lemma_tells_twice(start, start_changes, third, thin_notes.changes, after, changes@);
        lemma_evolves_twice(start, branch, third, bare, after, result);
        assert(result.children =~= done@ + more@);
        assert(result.children.skip(kept(views).len() as int) =~= more@);
        assert forall|k: int| 0 <= k < kept(views).len() implies {
            &&& 0 <= views[kept(views)[k]]->0 < snapshot@.children.len()
            &&& reconciled(
                start,
                branch.children[kept(views)[k]],
                snapshot@.children[views[kept(views)[k]]->0],
                after,
                #[trigger] result.children[k],
            )
        } by {
            assert(result.children[k] == done@[k]);
        }
        lemma_paired_prefix(
            start,
            branch.children,
            snapshot@.children,
            views,
            done@,
            result.children,
            kept(views).len(),
            thin_notes,
        );
        assert(reconciled(start, branch, snapshot@, after, result));
    }
    Ghost(result)
}

/// More branches behind the others are not lost with these.
proof fn lemma_lost_first(forest: Seq<Branch>, more: Seq<Branch>, pairs: Seq<Option<int>>)
    requires
        pairs.len() == forest.len(),
    ensures
        lost_ids(forest + more, pairs) == lost_ids(forest, pairs),
{
    assert forall|id: u128| #[trigger]
        lost_ids(forest + more, pairs).contains(id) <==> lost_ids(forest, pairs).contains(id) by {
        if lost_ids(forest + more, pairs).contains(id) {
            let i = choose|i: int|
                0 <= i < pairs.len() && pairs[i] is None && has_id(
                    #[trigger] (forest + more)[i],
                    id,
                );
            assert(has_id(forest[i], id));
        }
        if lost_ids(forest, pairs).contains(id) {
            let i = choose|i: int|
                0 <= i < pairs.len() && pairs[i] is None && has_id(#[trigger] forest[i], id);
            assert(has_id((forest + more)[i], id));
        }
    }
    assert(lost_ids(forest + more, pairs) =~= lost_ids(forest, pairs));
}

/// Removing some children leaves the others alone.
proof fn lemma_spared(
    instances: InstanceMap,
    branch: Branch,
    after: InstanceMap,
    pairs: Seq<Option<int>>,
    i: int,
)
    requires
        stands(instances, branch),
        distinct(branch),
        pairs.len() <= branch.children.len(),
        0 <= i < branch.children.len(),
        i < pairs.len() ==> pairs[i] is Some,
        untouched_beyond(instances, after, branch.id, lost_ids(branch.children, pairs)),
    ensures
        agree_on(instances, after, branch.children[i]),
{
    assert(stands(instances, branch.children[i]));
    lemma_distinct_at(branch, i);
    assert forall|id: u128| #[trigger] has_id(branch.children[i], id) implies instances[id]
        == after[id] by {
        lemma_stands_within(instances, branch.children[i], id);
        if lost_ids(branch.children, pairs).contains(id) {
            let k = choose|k: int|
                0 <= k < pairs.len() && pairs[k] is None && has_id(
                    #[trigger] branch.children[k],
                    id,
                );
            lemma_siblings(branch, i, k, id);
        }
    }
}

/// A child that goes on is as it was when the others have come and gone.
proof fn lemma_carried(
    start: InstanceMap,
    branch: Branch,
    first: InstanceMap,
    second: InstanceMap,
    wide: Branch,
    third: InstanceMap,
    pairs: Seq<Option<int>>,
    i: int,
)
    requires
        stands(start, branch),
        distinct(branch),
        first == start.insert(branch.id, first[branch.id]),
        stands(first, branch),
        untouched_but(first, second, branch.id),
        stands(second, wide),
        distinct(wide),
        wide.id == branch.id,
        pairs.len() == branch.children.len(),
        pairs.len() <= wide.children.len(),
        0 <= i < pairs.len(),
        wide.children[i] == branch.children[i],
        pairs[i] is Some,
        untouched_beyond(second, third, branch.id, lost_ids(wide.children, pairs)),
    ensures
        agree_on(start, third, branch.children[i]),
{
    lemma_spared(second, wide, third, pairs, i);
    lemma_settled(first, branch, i, second, branch.id);
    assert forall|id: u128| #[trigger] has_id(branch.children[i], id) implies start[id]
        == third[id] by {
        assert(second[id] == third[id]);
        assert(first[id] == second[id]);
    }
}

/// Whether the instance `id`, and everything below it, has been brought in line with
/// a snapshot, nothing else has changed, and the notes are up to date, with what is announced
/// true.
pub open spec fn reconciles(
    instances: InstanceMap,
    id: u128,
    snapshot: SnapshotView,
    before: Notes,
    after: InstanceMap,
    now: Notes,
) -> bool {
    &&& tells(instances, before.changes, after, now.changes)
    &&& exists|branch: Branch, result: Branch|
        {
            &&& branch.id == id
            &&& stands(instances, branch)
            &&& distinct(branch)
            &&& #[trigger] evolves(instances, branch, after, result)
            &&& reconciled(instances, branch, snapshot, after, result)
            &&& now == reconciled_notes(instances, branch, snapshot, result, before)
        }
}

/// Brings an instance, and everything below it, in line with a snapshot.
pub fn reconcile_subtree(
    tree: &mut RbxTree,
    id: u128,
    snapshot: &RbxSnapshotInstance,
    path_map: &mut PathMap<u128>,
    instance_metadata_map: &mut HashMap<u128, InstanceProjectNodeMetadata>,
    changes: &mut InstanceChanges,
)
    requires
        is_tree(tree_instances(*old(tree)), tree_root(*old(tree))),
        tree_instances(*old(tree)).contains_key(id),
    ensures
        is_tree(tree_instances(*final(tree)), tree_root(*final(tree))),
        tree_root(*final(tree)) == tree_root(*old(tree)),
        reconciles(
            tree_instances(*old(tree)),
            id,
            snapshot@,
            notes(*old(path_map), *old(instance_metadata_map), *old(changes)),
            tree_instances(*final(tree)),
            notes(*final(path_map), *final(instance_metadata_map), *final(changes)),
        ),
{
    let ghost start = tree_instances(*tree);
    let ghost root = tree_root(*tree);
    let ghost whole = choose|branch: Branch| is_whole(start, root, branch);
    let ghost branch = lemma_branch_at(start, whole, id);
    proof {
        lemma_top_alone(branch);
        if id != root {
            lemma_has(branch, root);
        }
    }
    let result = reconcile_branch(
        tree,
        id,
        snapshot,
        path_map,
        instance_metadata_map,
        changes,
        Ghost(branch),
    );
    proof {
        let after = tree_instances(*tree);
        assert(evolves(start, branch, after, result@));
        let now = choose|now: Branch| evolves(start, whole, after, now);
        lemma_tree_evolves(start, root, whole, after, now);
        assert(is_whole(after, root, now));
    }
}

} // verus!
