//! What is remembered of the sync points of a manifest.
use crate::path::PathView;
use crate::path_table::PathTable;
use crate::project::{children_mention, children_view, copy_children, ChildView, ProjectChild};
use vstd::prelude::*;

verus! {

/// What the manifest says of the instance at a path: its name, and the children
/// that it has besides those from the file system.
#[derive(Debug)]
pub struct SyncPointMetadata {
    pub instance_name: String,
    pub children: Vec<ProjectChild>,
}

/// What a [`SyncPointMetadata`] stands for.
pub struct SyncPointView {
    pub instance_name: Seq<char>,
    pub children: Seq<ChildView>,
}

impl View for SyncPointMetadata {
    type V = SyncPointView;

    open spec fn view(&self) -> SyncPointView {
        SyncPointView {
            instance_name: self.instance_name@,
            children: children_view(self.children@),
        }
    }
}

/// The sync points by path.
pub type SyncPoints = PathTable<SyncPointMetadata>;

/// What [`SyncPoints`] stand for.
pub type PointsView = Map<PathView, SyncPointView>;

/// What a table of sync points stands for.
pub open spec fn points_view(points: SyncPoints) -> PointsView {
    points@.map_values(|metadata: SyncPointMetadata| metadata@)
}

/// A copy of a table of sync points.
pub fn copy_points(points: &SyncPoints) -> (copy: SyncPoints)
    ensures
        points_view(copy) == points_view(*points),
{
    let paths = points.paths();
    let mut copy = SyncPoints::new();
    let mut i: usize = 0;
    while i < paths.len()
        invariant
            i <= paths.len(),
            forall|j: int| 0 <= j < paths.len() ==> points@.contains_key((#[trigger] paths@[j])@),
            forall|j: int| 0 <= j < i ==> copy@.contains_key((#[trigger] paths@[j])@),
            forall|path: PathView| #[trigger]
                copy@.contains_key(path) ==> points@.contains_key(path) && copy@[path]@
                    == points@[path]@,
        decreases paths.len() - i,
    {
        assert(points@.contains_key(paths@[i as int]@));
        if let Some(metadata) = points.get(paths[i]) {
            let metadata_copy = SyncPointMetadata {
                instance_name: metadata.instance_name.clone(),
                children: copy_children(&metadata.children),
            };
            copy.insert(paths[i].clone(), metadata_copy);
        }
        i += 1;
    }
    assert forall|path: PathView| points@.contains_key(path) implies #[trigger] copy@.contains_key(
        path,
    ) by {
        let j = choose|j: int| 0 <= j < paths.len() && (#[trigger] paths@[j])@ == path;
        assert(copy@.contains_key(paths@[j]@));
    }
    assert(points_view(copy) =~= points_view(*points));
    copy
}

/// Whether no manifest node that is remembered leads to a sync point at `path`.
pub open spec fn unmentioned(points: PointsView, path: PathView) -> bool {
    forall|key: PathView| #[trigger]
        points.contains_key(key) ==> !children_mention(points[key].children, path)
}

} // verus!
