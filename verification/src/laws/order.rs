//! Walks are settled but for the order of siblings in binary models.
use crate::branch::{is_whole, Branch};
use crate::failure::PanicView;
use crate::file_type::{classify, FileType};
use crate::imfs::{DirectoryView, FileView, FsView, ItemView};
use crate::laws::session::law_start;
use crate::laws::ways::{
    bare_instance, child_way, completion_way, entry_way, init_way, path_way, sync_point_way,
};
use crate::model::{
    binary_model_result, binary_outcomes, is_binary_outcome, outcome_result, outcomes_agree,
};
use crate::path::{name_text, WrittenPath};
use crate::project::{ChildView, NodeView, Project};
use crate::rbx_snapshot::{is_order, reordered, same_but_order, SnapshotView};
use crate::reify::mirrors;
use crate::session::{full_depth, gives_tree, project_snapshots, starts, SessionView};
use crate::sync_point::PointsView;
use crate::tree::InstanceMap;
use crate::walk::{
    children_added, entries_added, file_snapshots, folder, init_path, is_init_name, item_snapshots,
    name_at, node_snapshots, path_snapshots, NodeResult, SnapResult,
};
use vstd::prelude::*;

verus! {

/// Whether two results of walks are the same but for the order of children.
pub open spec fn results_agree(left: SnapResult, right: SnapResult) -> bool {
    match (left, right) {
        (Ok(Some(snapshot)), Ok(Some(other))) => same_but_order(snapshot, other),
        _ => left == right,
    }
}

/// The same for the results of manifest nodes.
pub open spec fn node_results_agree(left: NodeResult, right: NodeResult) -> bool {
    match (left, right) {
        (Ok(snapshot), Ok(other)) => same_but_order(snapshot, other),
        _ => left == right,
    }
}

/// A snapshot is the same as itself.
pub proof fn law_same_as_itself(snapshot: SnapshotView)
    ensures
        same_but_order(snapshot, snapshot),
    decreases snapshot,
{
    let order = Seq::new(snapshot.children.len(), |k: int| k);
    assert(is_order(order, snapshot.children.len()));
    assert forall|k: int| 0 <= k < snapshot.children.len() implies same_but_order(
        #[trigger] snapshot.children[k],
        snapshot.children[order[k]],
    ) by {
        law_same_as_itself(snapshot.children[k]);
    }
    assert(reordered(snapshot.children, snapshot.children));
}

/// Snapshots that are the same but for the order of children stay so when each gets one
/// more child and these are the same in this sense.
pub proof fn law_same_with_child(
    left: SnapshotView,
    right: SnapshotView,
    child: SnapshotView,
    other: SnapshotView,
)
    requires
        same_but_order(left, right),
        same_but_order(child, other),
    ensures
        same_but_order(left.with_child(child), right.with_child(other)),
{
    let count = left.children.len();
    let order = choose|order: Seq<int>|
        {
            &&& #[trigger] is_order(order, count)
            &&& forall|k: int|
                0 <= k < count ==> same_but_order(
                    #[trigger] left.children[k],
                    right.children[order[k]],
                )
        };
    let longer = order.push(count as int);
    let mine = left.with_child(child).children;
    let others = right.with_child(other).children;
    assert(is_order(longer, mine.len())) by {
        assert forall|k: int| 0 <= k < longer.len() implies 0 <= #[trigger] longer[k]
            < count + 1 by {
            if k < count {
                assert(0 <= order[k] < count);
            }
        }
        assert forall|k: int, l: int|
            0 <= k < longer.len() && 0 <= l < longer.len() && k != l implies longer[k]
            != longer[l] by {
            if k < count {
                assert(0 <= order[k] < count);
            }
            if l < count {
                assert(0 <= order[l] < count);
            }
        }
    }
    assert forall|k: int| 0 <= k < mine.len() implies same_but_order(
        #[trigger] mine[k],
        others[longer[k]],
    ) by {
        if k < count {
            assert(0 <= order[k] < count);
            assert(same_but_order(left.children[k], right.children[order[k]]));
            assert(others[longer[k]] == right.children[order[k]]);
        }
    }
    assert(reordered(mine, others));
}

/// Any two results that a binary model can give are the same but for the order of children.
pub proof fn law_binary_agree(
    name: Seq<char>,
    file: FileView,
    result: SnapResult,
    other_result: SnapResult,
)
    requires
        binary_model_result(name, file, result),
        binary_model_result(name, file, other_result),
    ensures
        results_agree(result, other_result),
{
    let outcome = choose|outcome: Result<Seq<SnapshotView>, Seq<char>>|
        {
            &&& #[trigger] is_binary_outcome(file.contents, outcome)
            &&& result == outcome_result(name, file, outcome)
        };
    let other = choose|outcome: Result<Seq<SnapshotView>, Seq<char>>|
        {
            &&& #[trigger] is_binary_outcome(file.contents, outcome)
            &&& other_result == outcome_result(name, file, outcome)
        };
    lemma_outcomes(name, file, outcome, other);
}

proof fn lemma_outcomes(
    name: Seq<char>,
    file: FileView,
    outcome: Result<Seq<SnapshotView>, Seq<char>>,
    other: Result<Seq<SnapshotView>, Seq<char>>,
)
    requires
        is_binary_outcome(file.contents, outcome),
        is_binary_outcome(file.contents, other),
    ensures
        results_agree(outcome_result(name, file, outcome), outcome_result(name, file, other)),
{
    assert(binary_outcomes(file.contents).contains(other));
    assert(outcomes_agree(outcome, other));
    if let (Ok(forest), Ok(twins)) = (outcome, other) {
        if forest.len() == 1 {
            lemma_only(forest, twins);
        }
    }
}

proof fn lemma_only(forest: Seq<SnapshotView>, twins: Seq<SnapshotView>)
    requires
        reordered(forest, twins),
        forest.len() == 1,
    ensures
        twins.len() == 1,
        same_but_order(forest[0], twins[0]),
{
    let order = choose|order: Seq<int>|
        {
            &&& #[trigger] is_order(order, forest.len())
            &&& forall|k: int|
                0 <= k < forest.len() ==> same_but_order(
                    #[trigger] forest[k],
                    twins[order[k]],
                )
        };
    assert(0 <= order[0] < 1);
    assert(same_but_order(forest[0], twins[order[0]]));
}

/// What a file gives does not depend on what is remembered of its path, but for the name and
/// the order of children in a binary model.
pub proof fn law_file_but_for_name(
    file: FileView,
    points: PointsView,
    result: SnapResult,
    other_points: PointsView,
    other_result: SnapResult,
)
    requires
        file_snapshots(file, points, result),
        file_snapshots(file, other_points, other_result),
    ensures
        match (result, other_result) {
            (Ok(Some(snapshot)), Ok(Some(other))) => same_but_order(
                snapshot.named(other.name),
                other,
            ),
            _ => result == other_result,
        },
{
    if let Some((stem, FileType::BinaryModel)) = classify(file.path.path) {
        let name = name_at(points, file.path.path, stem);
        let other_name = name_at(other_points, file.path.path, stem);
        let outcome = choose|outcome: Result<Seq<SnapshotView>, Seq<char>>|
            {
                &&& #[trigger] is_binary_outcome(file.contents, outcome)
                &&& result == outcome_result(name, file, outcome)
            };
        assert(is_binary_outcome(file.contents, outcome));
        let renamed = outcome_result(other_name, file, outcome);
        assert(binary_model_result(other_name, file, renamed));
        law_binary_agree(other_name, file, renamed, other_result);
    } else {
        if let Ok(Some(other)) = other_result {
            law_same_as_itself(other);
        }
    }
}

/// The snapshot of a path is determined, but for the order of children, by the file system
/// and the sync points that are remembered, and so are the sync points that are remembered
/// after it.
pub proof fn law_walks_agree(
    depth: nat,
    fs: FsView,
    path: WrittenPath,
    before: PointsView,
    result: SnapResult,
    after: PointsView,
    other_result: SnapResult,
    other_after: PointsView,
)
    requires
        path_snapshots(depth, fs, path, before, result, after),
        path_snapshots(depth, fs, path, before, other_result, other_after),
    ensures
        results_agree(result, other_result),
        after == other_after,
    decreases depth, 4nat, 0nat, path,
{
    if depth > 0 && fs.contains_key(path.path) {
        let (own, mid) = path_way(depth, fs, path, before, result, after);
        let (other, other_mid) = path_way(depth, fs, path, before, other_result, other_after);
        law_items_agree(depth, fs, fs[path.path], before, own, mid, other, other_mid);
        if let (Ok(Some(snapshot)), Ok(Some(twin))) = (own, other) {
            if mid.contains_key(path.path) {
                let children = mid[path.path].children;
                let whole = completion_way(depth, fs, path.path, mid, snapshot, result, after);
                let other_whole = completion_way(
                    depth,
                    fs,
                    path.path,
                    mid,
                    twin,
                    other_result,
                    other_after,
                );
                lemma_children(
                    depth,
                    fs,
                    children,
                    snapshot,
                    twin,
                    mid,
                    whole,
                    after,
                    other_whole,
                    other_after,
                );
            }
        }
    }
}

/// The same for an entry of the file system, before the manifest adds children to it.
pub proof fn law_items_agree(
    depth: nat,
    fs: FsView,
    item: ItemView,
    before: PointsView,
    result: SnapResult,
    after: PointsView,
    other_result: SnapResult,
    other_after: PointsView,
)
    requires
        item_snapshots(depth, fs, item, before, result, after),
        item_snapshots(depth, fs, item, before, other_result, other_after),
    ensures
        results_agree(result, other_result),
        after == other_after,
    decreases depth, 3nat, 0nat, item,
{
    match item {
        ItemView::File(file) => {
            if let Some((stem, FileType::BinaryModel)) = classify(file.path.path) {
                law_binary_agree(
                    name_at(before, file.path.path, stem),
                    file,
                    result,
                    other_result,
                );
            } else if let Ok(Some(snapshot)) = result {
                law_same_as_itself(snapshot);
            }
        },
        ItemView::Directory(directory) => {
            let entries = directory.children;
            if depth == 0 {
            } else if let Some(init) = init_path(directory) {
                let (own, mid) = init_way(depth, fs, directory, before, result, after);
                let (other, other_mid) = init_way(
                    depth,
                    fs,
                    directory,
                    before,
                    other_result,
                    other_after,
                );
                law_walks_agree((depth - 1) as nat, fs, init, before, own, mid, other, other_mid);
                if let (Ok(Some(snapshot)), Ok(Some(twin))) = (own, other) {
                    lemma_entries(
                        depth,
                        fs,
                        directory,
                        entries,
                        snapshot,
                        twin,
                        mid,
                        result,
                        after,
                        other_result,
                        other_after,
                    );
                }
            } else {
                let bare = folder(directory.path.path);
                law_same_as_itself(bare);
                lemma_entries(
                    depth,
                    fs,
                    directory,
                    entries,
                    bare,
                    bare,
                    before,
                    result,
                    after,
                    other_result,
                    other_after,
                );
            }
        },
    }
}

proof fn lemma_entries(
    depth: nat,
    fs: FsView,
    directory: DirectoryView,
    rest: Seq<WrittenPath>,
    snapshot: SnapshotView,
    twin: SnapshotView,
    points: PointsView,
    result: SnapResult,
    after: PointsView,
    other_result: SnapResult,
    other_after: PointsView,
)
    requires
        same_but_order(snapshot, twin),
        entries_added(depth, fs, directory, rest, snapshot, points, result, after),
        entries_added(depth, fs, directory, rest, twin, points, other_result, other_after),
    ensures
        results_agree(result, other_result),
        after == other_after,
    decreases depth, 2nat, rest.len(), rest,
{
    if rest.len() > 0 && name_text(rest[0].path) is Some {
        let tail = rest.drop_first();
        if is_init_name(name_text(rest[0].path)->0) {
            lemma_entries(
                depth,
                fs,
                directory,
                tail,
                snapshot,
                twin,
                points,
                result,
                after,
                other_result,
                other_after,
            );
        } else if depth > 0 {
            let (own, mid) = entry_way(
                depth,
                fs,
                directory,
                rest,
                snapshot,
                points,
                result,
                after,
            );
            let (other, other_mid) = entry_way(
                depth,
                fs,
                directory,
                rest,
                twin,
                points,
                other_result,
                other_after,
            );
            law_walks_agree((depth - 1) as nat, fs, rest[0], points, own, mid, other, other_mid);
            if own is Ok {
                let (grown, twin_grown) = if let (Ok(Some(child)), Ok(Some(twin_child))) = (
                    own,
                    other,
                ) {
                    law_same_with_child(snapshot, twin, child, twin_child);
                    (snapshot.with_child(child), twin.with_child(twin_child))
                } else {
                    (snapshot, twin)
                };
                lemma_entries(
                    depth,
                    fs,
                    directory,
                    tail,
                    grown,
                    twin_grown,
                    mid,
                    result,
                    after,
                    other_result,
                    other_after,
                );
            }
        }
    }
}

/// The same for manifest nodes.
pub proof fn law_nodes_agree(
    depth: nat,
    fs: FsView,
    name: Seq<char>,
    node: NodeView,
    before: PointsView,
    result: NodeResult,
    after: PointsView,
    other_result: NodeResult,
    other_after: PointsView,
)
    requires
        node_snapshots(depth, fs, name, node, before, result, after),
        node_snapshots(depth, fs, name, node, before, other_result, other_after),
    ensures
        node_results_agree(result, other_result),
        after == other_after,
    decreases depth, 0nat, 0nat, node,
{
    match node {
        NodeView::Instance { children, .. } => {
            let bare = bare_instance(name, node);
            law_same_as_itself(bare);
            lemma_children(
                depth,
                fs,
                children,
                bare,
                bare,
                before,
                result,
                after,
                other_result,
                other_after,
            );
        },
        NodeView::SyncPoint { path, children } => {
            if depth > 0 {
                let (own, mid) = sync_point_way(
                    depth,
                    fs,
                    name,
                    path,
                    children,
                    before,
                    result,
                    after,
                );
                let (other, other_mid) = sync_point_way(
                    depth,
                    fs,
                    name,
                    path,
                    children,
                    before,
                    other_result,
                    other_after,
                );
                law_walks_agree((depth - 1) as nat, fs, path, before, own, mid, other, other_mid);
            }
        },
    }
}

proof fn lemma_children(
    depth: nat,
    fs: FsView,
    rest: Seq<ChildView>,
    snapshot: SnapshotView,
    twin: SnapshotView,
    points: PointsView,
    result: NodeResult,
    after: PointsView,
    other_result: NodeResult,
    other_after: PointsView,
)
    requires
        same_but_order(snapshot, twin),
        children_added(depth, fs, rest, snapshot, points, result, after),
        children_added(depth, fs, rest, twin, points, other_result, other_after),
    ensures
        node_results_agree(result, other_result),
        after == other_after,
    decreases depth, 0nat, 0nat, rest,
{
    if rest.len() > 0 {
        let name = rest[0].name;
        let node = rest[0].node;
        let (own, mid) = child_way(depth, fs, rest, snapshot, points, result, after);
        let (other, other_mid) = child_way(
            depth,
            fs,
            rest,
            twin,
            points,
            other_result,
            other_after,
        );
        law_nodes_agree(depth, fs, name, node, points, own, mid, other, other_mid);
        if let (Ok(child), Ok(twin_child)) = (own, other) {
            law_same_with_child(snapshot, twin, child, twin_child);
            lemma_children(
                depth,
                fs,
                rest.drop_first(),
                snapshot.with_child(child),
                twin.with_child(twin_child),
                mid,
                result,
                after,
                other_result,
                other_after,
            );
        }
    }
}

/// Whether two instances, each with everything below it, are the same but for the IDs and
/// the order of children.
pub open spec fn branches_agree(
    instances: InstanceMap,
    branch: Branch,
    others: InstanceMap,
    other: Branch,
) -> bool
    decreases branch,
{
    &&& instances[branch.id].name == others[other.id].name
    &&& instances[branch.id].class_name == others[other.id].class_name
    &&& instances[branch.id].properties == others[other.id].properties
    &&& branch.children.len() == other.children.len()
    &&& exists|order: Seq<int>|
        {
            &&& #[trigger] is_order(order, branch.children.len())
            &&& forall|k: int|
                0 <= k < branch.children.len() ==> branches_agree(
                    instances,
                    #[trigger] branch.children[k],
                    others,
                    other.children[order[k]],
                )
        }
}

/// Whether two trees are the same but for the IDs and the order of children: the same
/// names, classes and properties, nested in the same way.
pub open spec fn trees_agree(
    instances: InstanceMap,
    root: u128,
    others: InstanceMap,
    other_root: u128,
) -> bool {
    exists|branch: Branch, other: Branch|
        {
            &&& #[trigger] is_whole(instances, root, branch)
            &&& #[trigger] is_whole(others, other_root, other)
            &&& branches_agree(instances, branch, others, other)
        }
}

/// Instances that mirror snapshots which are the same but for the order of children are the
/// same but for the IDs and that order.
pub proof fn law_mirrors_agree(
    instances: InstanceMap,
    branch: Branch,
    snapshot: SnapshotView,
    others: InstanceMap,
    other: Branch,
    twin: SnapshotView,
)
    requires
        mirrors(instances, branch, snapshot),
        mirrors(others, other, twin),
        same_but_order(snapshot, twin),
    ensures
        branches_agree(instances, branch, others, other),
    decreases snapshot,
{
    let count = snapshot.children.len();
    let order = choose|order: Seq<int>|
        {
            &&& #[trigger] is_order(order, count)
            &&& forall|k: int|
                0 <= k < count ==> same_but_order(
                    #[trigger] snapshot.children[k],
                    twin.children[order[k]],
                )
        };
    assert forall|k: int| 0 <= k < branch.children.len() implies branches_agree(
        instances,
        #[trigger] branch.children[k],
        others,
        other.children[order[k]],
    ) by {
        assert(0 <= order[k] < count);
        assert(same_but_order(snapshot.children[k], twin.children[order[k]]));
        assert(mirrors(instances, branch.children[k], snapshot.children[k]));
        assert(mirrors(others, other.children[order[k]], twin.children[order[k]]));
        law_mirrors_agree(
            instances,
            branch.children[k],
            snapshot.children[k],
            others,
            other.children[order[k]],
            twin.children[order[k]],
        );
    }
}

/// What a project gives is settled by the manifest and the file system, but for the order
/// of children: the sync points that are remembered, the snapshot, and if there is none,
/// why.
pub proof fn law_projects_agree(
    fs: FsView,
    project: Project,
    result: NodeResult,
    points: PointsView,
    other_result: NodeResult,
    other_points: PointsView,
)
    requires
        project_snapshots(fs, project, result, points),
        project_snapshots(fs, project, other_result, other_points),
    ensures
        node_results_agree(result, other_result),
        points == other_points,
{
    law_nodes_agree(
        full_depth(),
        fs,
        project.name@,
        project.tree@,
        Map::empty(),
        result,
        points,
        other_result,
        other_points,
    );
}

/// Any two trees that a project gives, as [`construct_oneoff_tree`] makes them, are the same
/// but for the IDs and the order of children.
///
/// [`construct_oneoff_tree`]: crate::session::construct_oneoff_tree
pub proof fn law_trees_agree(
    fs: FsView,
    project: Project,
    instances: InstanceMap,
    root: u128,
    others: InstanceMap,
    other_root: u128,
)
    requires
        gives_tree(fs, project, instances, root),
        gives_tree(fs, project, others, other_root),
    ensures
        trees_agree(instances, root, others, other_root),
{
    let (snapshot, points, branch) = lemma_given(fs, project, instances, root);
    let (twin, other_points, other) = lemma_given(fs, project, others, other_root);
    law_projects_agree(fs, project, Ok(snapshot), points, Ok(twin), other_points);
    law_mirrors_agree(instances, branch, snapshot, others, other, twin);
}

pub(crate) proof fn lemma_given(fs: FsView, project: Project, instances: InstanceMap, root: u128) -> (given: (
    SnapshotView,
    PointsView,
    Branch,
))
    requires
        gives_tree(fs, project, instances, root),
    ensures
        project_snapshots(fs, project, Ok(given.0), given.1),
        is_whole(instances, root, given.2),
        mirrors(instances, given.2, given.0),
{
    choose|snapshot: SnapshotView, points: PointsView, branch: Branch|
        {
            &&& #[trigger] project_snapshots(fs, project, Ok(snapshot), points)
            &&& #[trigger] is_whole(instances, root, branch)
            &&& mirrors(instances, branch, snapshot)
        }
}

/// The tree that a session starts with is one that the project gives. So it is the same as
/// the one-off tree of the project, and as that of any other session on it, but for the IDs
/// and the order of children.
pub proof fn law_start_agrees(
    fs: FsView,
    project: Project,
    session: SessionView,
    others: InstanceMap,
    other_root: u128,
)
    requires
        starts(fs, project, session),
        gives_tree(fs, project, others, other_root),
    ensures
        gives_tree(fs, project, session.instances, session.root),
        trees_agree(session.instances, session.root, others, other_root),
{
    let (snapshot, branch) = law_start(fs, project, session);
    assert(gives_tree(fs, project, session.instances, session.root));
    law_trees_agree(fs, project, session.instances, session.root, others, other_root);
}

/// If a project gives no tree, it never does, and for the same reason each time.
pub proof fn law_failures_agree(
    fs: FsView,
    project: Project,
    panic: PanicView,
    points: PointsView,
    other_result: NodeResult,
    other_points: PointsView,
)
    requires
        project_snapshots(fs, project, Err(panic), points),
        project_snapshots(fs, project, other_result, other_points),
    ensures
        other_result == Err::<SnapshotView, PanicView>(panic),
{
    law_projects_agree(fs, project, Err(panic), points, other_result, other_points);
}

} // verus!
