//! Making instances out of snapshots.
use crate::branch::{
    branch_ids, distinct, evolves, grows, has_id, is_whole, lemma_distinct_at, lemma_evolves_grown,
    lemma_evolves_same, lemma_evolves_twice, lemma_stands_within, lemma_top, lemma_tree_evolves,
    stands, top_ids, with_child, Branch,
};
use crate::path::PathView;
use crate::path_map::PathMap;
use crate::project::InstanceProjectNodeMetadata;
use crate::rbx_snapshot::{snapshots_view, RbxSnapshotInstance, SnapshotView};
use crate::tree::{
    get_root_id, insert_instance, new_tree, tree_instances, tree_root, InstanceMap, InstanceView,
};
use rbx_tree::RbxTree;
use std::collections::{HashMap, HashSet};
use vstd::prelude::*;

verus! {

broadcast use vstd::std_specs::hash::group_hash_axioms;

/// Which instances a change has added, removed and updated.
#[derive(Debug)]
pub struct InstanceChanges {
    pub added: HashSet<u128>,
    pub removed: HashSet<u128>,
    pub updated: HashSet<u128>,
}

/// What [`InstanceChanges`] stand for.
pub struct ChangesView {
    pub added: Set<u128>,
    pub removed: Set<u128>,
    pub updated: Set<u128>,
}

impl View for InstanceChanges {
    type V = ChangesView;

    open spec fn view(&self) -> ChangesView {
        ChangesView { added: self.added@, removed: self.removed@, updated: self.updated@ }
    }
}

impl ChangesView {
    /// No changes at all.
    pub open spec fn none() -> ChangesView {
        ChangesView { added: Set::empty(), removed: Set::empty(), updated: Set::empty() }
    }
}

impl Default for InstanceChanges {
    /// No changes at all.
    fn default() -> (changes: InstanceChanges)
        ensures
            changes@ == ChangesView::none(),
    {
        InstanceChanges { added: HashSet::new(), removed: HashSet::new(), updated: HashSet::new() }
    }
}

impl InstanceChanges {
    /// Whether nothing has changed.
    pub fn is_empty(&self) -> (empty: bool)
        ensures
            empty <==> self@ == ChangesView::none(),
    {
        let empty = self.added.is_empty() && self.removed.is_empty() && self.updated.is_empty();
        assert(self@ == ChangesView::none() ==> self.added@.is_empty());
        assert(self@ == ChangesView::none() ==> self.removed@.is_empty());
        assert(self@ == ChangesView::none() ==> self.updated@.is_empty());
        if empty {
            assert(self.added@ =~= Set::empty());
            assert(self.removed@ =~= Set::empty());
            assert(self.updated@ =~= Set::empty());
        }
        empty
    }
}

/// What is noted about instances outside of the tree: which stands for which path,
/// what the manifest says of each, and what has changed.
pub struct Notes {
    pub paths: Map<PathView, u128>,
    pub metadata: Map<u128, InstanceProjectNodeMetadata>,
    pub changes: ChangesView,
}

/// The notes that a path map, a metadata map and a list of changes make up.
pub open spec fn notes(
    path_map: PathMap<u128>,
    instance_metadata_map: HashMap<u128, InstanceProjectNodeMetadata>,
    changes: InstanceChanges,
) -> Notes {
    Notes { paths: path_map@, metadata: instance_metadata_map@, changes: changes@ }
}

impl Notes {
    /// The notes once an instance is as a snapshot says.
    pub open spec fn placed(self, id: u128, snapshot: SnapshotView) -> Notes {
        Notes {
            paths: match snapshot.source_path {
                Some(path) => self.paths.insert(path, id),
                None => self.paths,
            },
            metadata: match snapshot.metadata {
                Some(metadata) => self.metadata.insert(id, metadata),
                None => self.metadata,
            },
            changes: self.changes,
        }
    }

    /// The notes once an instance has been added.
    pub open spec fn added(self, id: u128) -> Notes {
        Notes {
            changes: ChangesView { added: self.changes.added.insert(id), ..self.changes },
            ..self
        }
    }
}

/// The notes once a snapshot has been made into the instances of a branch.
pub open spec fn reified_notes(notes: Notes, branch: Branch, snapshot: SnapshotView) -> Notes
    decreases snapshot,
{
    reified_forest_notes(
        notes.placed(branch.id, snapshot).added(branch.id),
        branch.children,
        snapshot.children,
    )
}

/// The notes once snapshots have been made into the instances of a list of
/// branches, one after the other.
pub open spec fn reified_forest_notes(
    notes: Notes,
    forest: Seq<Branch>,
    snapshots: Seq<SnapshotView>,
) -> Notes
    decreases snapshots,
{
    if snapshots.len() == 0 {
        notes
    } else {
        reified_notes(
            reified_forest_notes(notes, forest.drop_last(), snapshots.drop_last()),
            forest.last(),
            snapshots.last(),
        )
    }
}

/// Whether an instance has the name, class and properties of a snapshot.
pub open spec fn resembles(instance: InstanceView, snapshot: SnapshotView) -> bool {
    &&& instance.name == snapshot.name
    &&& instance.class_name == snapshot.class_name
    &&& instance.properties == snapshot.properties
}

/// Whether the instances of a branch are as a snapshot says, child by child.
pub open spec fn mirrors(instances: InstanceMap, branch: Branch, snapshot: SnapshotView) -> bool
    decreases snapshot,
{
    &&& resembles(instances[branch.id], snapshot)
    &&& branch.children.len() == snapshot.children.len()
    &&& forall|i: int|
        0 <= i < snapshot.children.len() ==> mirrors(
            instances,
            #[trigger] branch.children[i],
            snapshot.children[i],
        )
}

/// A branch mirrors a snapshot wherever its instances are as before.
pub(crate) proof fn lemma_mirrors_frame(
    instances: InstanceMap,
    other: InstanceMap,
    branch: Branch,
    snapshot: SnapshotView,
)
    requires
        mirrors(instances, branch, snapshot),
        forall|id: u128| #[trigger] has_id(branch, id) ==> other[id] == instances[id],
    ensures
        mirrors(other, branch, snapshot),
    decreases snapshot,
{
    lemma_top(branch);
    assert forall|i: int| 0 <= i < snapshot.children.len() implies mirrors(
        other,
        #[trigger] branch.children[i],
        snapshot.children[i],
    ) by {
        assert(mirrors(instances, branch.children[i], snapshot.children[i]));
        lemma_mirrors_frame(instances, other, branch.children[i], snapshot.children[i]);
    }
}

/// Notes where an instance comes from and what the manifest says of it.
pub(crate) fn place(
    snapshot: &RbxSnapshotInstance,
    id: u128,
    path_map: &mut PathMap<u128>,
    instance_metadata_map: &mut HashMap<u128, InstanceProjectNodeMetadata>,
    changes: &InstanceChanges,
)
    ensures
        notes(*final(path_map), *final(instance_metadata_map), *changes) == notes(
            *old(path_map),
            *old(instance_metadata_map),
            *changes,
        ).placed(id, snapshot@),
{
    if let Some(path) = &snapshot.source_path {
        path_map.insert(path.clone(), id);
    }
    if let Some(metadata) = &snapshot.metadata {
        instance_metadata_map.insert(id, *metadata);
    }
}

/// The snapshots of a list that have the given indexes.
pub open spec fn picked(snapshots: Seq<SnapshotView>, chosen: Seq<int>) -> Seq<SnapshotView> {
    Seq::new(chosen.len(), |k: int| snapshots[chosen[k]])
}

/// Indexes as numbers.
pub open spec fn indexes(list: Seq<usize>) -> Seq<int> {
    Seq::new(list.len(), |k: int| list[k] as int)
}

/// Whether every instance but one is as before.
pub open spec fn untouched_but(instances: InstanceMap, after: InstanceMap, top: u128) -> bool {
    forall|id: u128|
        #![trigger after[id]]
        #![trigger after.contains_key(id)]
        instances.contains_key(id) && id != top ==> {
            &&& after.contains_key(id)
            &&& after[id] == instances[id]
        }
}

pub(crate) proof fn lemma_untouched_twice(
    first: InstanceMap,
    second: InstanceMap,
    third: InstanceMap,
    top: u128,
)
    requires
        untouched_but(first, second, top),
        untouched_but(second, third, top),
    ensures
        untouched_but(first, third, top),
{
    assert forall|id: u128|
        #![trigger third[id]]
        #![trigger third.contains_key(id)]
        first.contains_key(id) && id != top implies {
        &&& third.contains_key(id)
        &&& third[id] == first[id]
    } by {
        assert(second[id] == first[id]);
        assert(third[id] == second[id]);
    }
}

/// Whether each of some branches mirrors the snapshot in its place.
pub open spec fn forest_mirrors(
    instances: InstanceMap,
    forest: Seq<Branch>,
    snapshots: Seq<SnapshotView>,
) -> bool {
    &&& forest.len() == snapshots.len()
    &&& forall|k: int|
        0 <= k < forest.len() ==> mirrors(instances, #[trigger] forest[k], snapshots[k])
}

/// The branch with more children behind the others.
pub open spec fn with_children(branch: Branch, more: Seq<Branch>) -> Branch {
    Branch { id: branch.id, children: branch.children + more }
}

/// Makes a snapshot into instances below `parent_id`, and returns their IDs.
pub(crate) fn reify_subtree(
    snapshot: &RbxSnapshotInstance,
    tree: &mut RbxTree,
    parent_id: u128,
    path_map: &mut PathMap<u128>,
    instance_metadata_map: &mut HashMap<u128, InstanceProjectNodeMetadata>,
    changes: &mut InstanceChanges,
) -> (branch: Ghost<Branch>)
    requires
        tree_instances(*old(tree)).contains_key(parent_id),
    ensures
        grows(tree_instances(*old(tree)), parent_id, tree_instances(*final(tree)), branch@),
        mirrors(tree_instances(*final(tree)), branch@, snapshot@),
        tree_root(*final(tree)) == tree_root(*old(tree)),
        notes(*final(path_map), *final(instance_metadata_map), *final(changes)) == reified_notes(
            notes(*old(path_map), *old(instance_metadata_map), *old(changes)),
            branch@,
            snapshot@,
        ),
    decreases snapshot,
{
    let ghost first = tree_instances(*tree);
    let id = insert_instance(
        tree,
        parent_id,
        snapshot.name.as_str(),
        snapshot.class_name.as_str(),
        &snapshot.properties,
    );
    let ghost planted = tree_instances(*tree);
    place(snapshot, id, path_map, instance_metadata_map, changes);
    changes.added.insert(id);
    let ghost top = Branch { id, children: Seq::empty() };
    proof {
        lemma_leaf(planted, top);
    }
    let all = every_index(snapshot.children.len());
    let more = reify_chosen(
        &snapshot.children,
        &all,
        tree,
        id,
        Ghost(top),
        path_map,
        instance_metadata_map,
        changes,
    );
    let ghost branch = with_children(top, more@);
    proof {
        assert(branch.children =~= more@);
        assert(picked(snapshot@.children, indexes(all@)) =~= snapshot@.children);
        lemma_planted(first, parent_id, planted, top, tree_instances(*tree), branch);
        assert(mirrors(tree_instances(*tree), branch, snapshot@));
    }
    Ghost(branch)
}

/// The indexes of a list of `count` items.
fn every_index(count: usize) -> (all: Vec<usize>)
    ensures
        all@ == Seq::new(count as nat, |k: int| k as usize),
{
    let mut all: Vec<usize> = Vec::new();
    let mut i: usize = 0;
    while i < count
        invariant
            i <= count,
            all@ == Seq::new(i as nat, |k: int| k as usize),
        decreases count - i,
    {
        all.push(i);
        i += 1;
    }
    all
}

/// An instance without children is a branch of its own.
proof fn lemma_leaf(instances: InstanceMap, top: Branch)
    requires
        instances.contains_key(top.id),
        instances[top.id].children.len() == 0,
        top.children.len() == 0,
    ensures
        stands(instances, top),
        distinct(top),
        forall|id: u128| #[trigger] has_id(top, id) <==> id == top.id,
{
    assert(top_ids(top.children) =~= instances[top.id].children);
    assert(top.children =~= Seq::<Branch>::empty());
    assert(branch_ids(top) =~= seq![top.id]);
    assert forall|id: u128| #[trigger] has_id(top, id) <==> id == top.id by {
        if id == top.id {
            assert(branch_ids(top)[0] == id);
        }
    }
}

/// A new instance and what has been put below it have grown below its parent.
proof fn lemma_planted(
    first: InstanceMap,
    parent: u128,
    planted: InstanceMap,
    top: Branch,
    after: InstanceMap,
    branch: Branch,
)
    requires
        first.contains_key(parent),
        !first.contains_key(top.id),
        planted.contains_key(top.id),
        planted[top.id].parent == Some(parent),
        planted == first.insert(
            parent,
            first[parent].with_children(first[parent].children.push(top.id)),
        ).insert(top.id, planted[top.id]),
        forall|id: u128| #[trigger] has_id(top, id) <==> id == top.id,
        evolves(planted, top, after, branch),
        untouched_but(planted, after, top.id),
    ensures
        grows(first, parent, after, branch),
{
    assert forall|id: u128| #[trigger] has_id(branch, id) implies !first.contains_key(id) by {
        if id != top.id {
            assert(!has_id(top, id));
            assert(!planted.contains_key(id));
        }
    }
    lemma_top(branch);
    assert forall|id: u128| #[trigger]
        after.contains_key(id) <==> first.contains_key(id) || has_id(branch, id) by {
        assert(planted.contains_key(id) <==> first.contains_key(id) || id == top.id);
        assert(has_id(top, id) <==> id == top.id);
    }
    assert(after[parent] == planted[parent]);
    assert forall|id: u128|
        first.contains_key(id) && id != parent implies #[trigger] after[id] == first[id] by {
        assert(planted.contains_key(id));
        assert(after[id] == planted[id]);
    }
}

/// Makes the chosen ones of some snapshots into instances below the instance `id`,
/// behind its other children, and returns their IDs.
pub(crate) fn reify_chosen(
    snapshots: &Vec<RbxSnapshotInstance>,
    chosen: &Vec<usize>,
    tree: &mut RbxTree,
    id: u128,
    Ghost(top): Ghost<Branch>,
    path_map: &mut PathMap<u128>,
    instance_metadata_map: &mut HashMap<u128, InstanceProjectNodeMetadata>,
    changes: &mut InstanceChanges,
) -> (more: Ghost<Seq<Branch>>)
    requires
        top.id == id,
        stands(tree_instances(*old(tree)), top),
        distinct(top),
        forall|k: int| 0 <= k < chosen.len() ==> #[trigger] chosen@[k] < snapshots.len(),
    ensures
        evolves(
            tree_instances(*old(tree)),
            top,
            tree_instances(*final(tree)),
            with_children(top, more@),
        ),
        untouched_but(tree_instances(*old(tree)), tree_instances(*final(tree)), id),
        tree_instances(*final(tree))[id] == tree_instances(*old(tree))[id].with_children(
            top_ids(with_children(top, more@).children),
        ),
        forest_mirrors(
            tree_instances(*final(tree)),
            more@,
            picked(snapshots_view(snapshots@), indexes(chosen@)),
        ),
        tree_root(*final(tree)) == tree_root(*old(tree)),
        notes(*final(path_map), *final(instance_metadata_map), *final(changes))
            == reified_forest_notes(
            notes(*old(path_map), *old(instance_metadata_map), *old(changes)),
            more@,
            picked(snapshots_view(snapshots@), indexes(chosen@)),
        ),
    decreases snapshots,
{
    let ghost first = tree_instances(*tree);
    let ghost mut more: Seq<Branch> = Seq::empty();
    let ghost views = picked(snapshots_view(snapshots@), indexes(chosen@));
    let ghost before = notes(*path_map, *instance_metadata_map, *changes);
    proof {
        lemma_evolves_same(first, top);
        assert(with_children(top, more).children =~= top.children);
        assert(views.take(0) =~= Seq::<SnapshotView>::empty());
    }
    let mut k: usize = 0;
    while k < chosen.len()
        invariant
            k <= chosen.len(),
            top.id == id,
            first == tree_instances(*old(tree)),
            before == notes(*old(path_map), *old(instance_metadata_map), *old(changes)),
            views == picked(snapshots_view(snapshots@), indexes(chosen@)),
            views.len() == chosen.len(),
            stands(first, top),
            distinct(top),
            forall|k: int| 0 <= k < chosen.len() ==> #[trigger] chosen@[k] < snapshots.len(),
            evolves(first, top, tree_instances(*tree), with_children(top, more)),
            untouched_but(first, tree_instances(*tree), id),
            tree_instances(*tree)[id] == first[id].with_children(
                top_ids(with_children(top, more).children),
            ),
            forest_mirrors(tree_instances(*tree), more, views.take(k as int)),
            tree_root(*tree) == tree_root(*old(tree)),
            notes(*path_map, *instance_metadata_map, *changes) == reified_forest_notes(
                before,
                more,
                views.take(k as int),
            ),
        decreases chosen.len() - k,
    {
        let ghost mid = tree_instances(*tree);
        let ghost between = with_children(top, more);
        let at = chosen[k];
        proof {
            lemma_top(between);
            assert(mid.contains_key(id));
            assert(views[k as int] == snapshots@[at as int]@);
        }
        let child = reify_subtree(
            &snapshots[at],
            tree,
            id,
            path_map,
            instance_metadata_map,
            changes,
        );
        proof {
            let after = tree_instances(*tree);
            lemma_evolves_grown(mid, between, after, child@);
            assert(with_child(between, child@).children =~= with_children(
                top,
                more.push(child@),
            ).children);
            lemma_evolves_twice(first, top, mid, between, after, with_child(between, child@));
            assert forall|j: int| 0 <= j < more.len() implies mirrors(
                after,
                #[trigger] more[j],
                views[j],
            ) by {
                assert(mirrors(mid, more[j], views.take(k as int)[j]));
                let at = top.children.len() + j;
                assert(between.children[at] == more[j]);
                lemma_settled(mid, between, at, after, id);
                lemma_mirrors_frame(mid, after, more[j], views[j]);
            }
            assert(top_ids(with_child(between, child@).children) =~= top_ids(
                between.children,
            ).push(child@.id));
            lemma_untouched_twice(first, mid, after, id);
            assert(views.take(k + 1).drop_last() =~= views.take(k as int));
            assert(more.push(child@).drop_last() =~= more);
            more = more.push(child@);
            assert(forest_mirrors(after, more, views.take(k + 1)));
        }
        k += 1;
    }
    assert(views.take(k as int) =~= views);
    Ghost(more)
}

/// A child of a branch is as before where every instance but the top of the branch
/// is.
pub(crate) proof fn lemma_settled(
    instances: InstanceMap,
    branch: Branch,
    i: int,
    after: InstanceMap,
    top: u128,
)
    requires
        stands(instances, branch),
        distinct(branch),
        0 <= i < branch.children.len(),
        branch.id == top,
        forall|id: u128|
            instances.contains_key(id) && id != top ==> #[trigger] after[id] == instances[id],
    ensures
        forall|id: u128| #[trigger]
            has_id(branch.children[i], id) ==> instances.contains_key(id) && id != top && after[id]
                == instances[id],
{
    lemma_distinct_at(branch, i);
    assert(stands(instances, branch.children[i]));
    assert forall|id: u128| #[trigger] has_id(branch.children[i], id) implies instances.contains_key(
        id,
    ) && id != top && after[id] == instances[id] by {
        lemma_stands_within(instances, branch.children[i], id);
    }
}

/// Makes a snapshot into a tree.
pub fn reify_root(
    snapshot: &RbxSnapshotInstance,
    path_map: &mut PathMap<u128>,
    instance_metadata_map: &mut HashMap<u128, InstanceProjectNodeMetadata>,
    changes: &mut InstanceChanges,
) -> (tree: RbxTree)
    ensures
        exists|branch: Branch|
            {
                &&& #[trigger] is_whole(tree_instances(tree), tree_root(tree), branch)
                &&& mirrors(tree_instances(tree), branch, snapshot@)
                &&& notes(*final(path_map), *final(instance_metadata_map), *final(changes))
                    == reified_notes(
                    notes(*old(path_map), *old(instance_metadata_map), *old(changes)),
                    branch,
                    snapshot@,
                )
            },
{
    let mut tree = new_tree(
        snapshot.name.as_str(),
        snapshot.class_name.as_str(),
        &snapshot.properties,
    );
    let id = get_root_id(&tree);
    let ghost first = tree_instances(tree);
    place(snapshot, id, path_map, instance_metadata_map, changes);
    changes.added.insert(id);
    let ghost top = Branch { id, children: Seq::empty() };
    proof {
        lemma_leaf(first, top);
    }
    let all = every_index(snapshot.children.len());
    let more = reify_chosen(
        &snapshot.children,
        &all,
        &mut tree,
        id,
        Ghost(top),
        path_map,
        instance_metadata_map,
        changes,
    );
    proof {
        let branch = with_children(top, more@);
        let after = tree_instances(tree);
        assert(branch.children =~= more@);
        assert(picked(snapshot@.children, indexes(all@)) =~= snapshot@.children);
        assert(is_whole(first, id, top));
        lemma_tree_evolves(first, id, top, after, branch);
        assert(mirrors(after, branch, snapshot@));
        assert(is_whole(after, tree_root(tree), branch));
    }
    tree
}

} // verus!
