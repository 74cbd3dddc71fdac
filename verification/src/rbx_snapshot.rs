//! Snapshots: descriptions of instances that need not exist yet.
use crate::path::{FilePath, PathView};
use crate::project::InstanceProjectNodeMetadata;
use crate::value::{property_map, Property, PropertyMap};
use vstd::prelude::*;

verus! {

/// Describes an instance and everything below it.
#[derive(Debug)]
pub struct RbxSnapshotInstance {
    pub name: String,
    pub class_name: String,
    pub properties: Vec<Property>,
    pub children: Vec<RbxSnapshotInstance>,
    /// Where in the file system the instance comes from.
    pub source_path: Option<FilePath>,
    /// What the manifest says of the instance.
    pub metadata: Option<InstanceProjectNodeMetadata>,
}

/// What an [`RbxSnapshotInstance`] stands for.
pub struct SnapshotView {
    pub name: Seq<char>,
    pub class_name: Seq<char>,
    pub properties: PropertyMap,
    pub children: Seq<SnapshotView>,
    pub source_path: Option<PathView>,
    pub metadata: Option<InstanceProjectNodeMetadata>,
}

/// What an optional path stands for.
pub open spec fn path_option(path: Option<FilePath>) -> Option<PathView> {
    match path {
        Some(path) => Some(path@),
        None => None,
    }
}

impl View for RbxSnapshotInstance {
    type V = SnapshotView;

    open spec fn view(&self) -> SnapshotView
        decreases self,
    {
        SnapshotView {
            name: self.name@,
            class_name: self.class_name@,
            properties: property_map(self.properties@),
            children: snapshots_view(self.children@),
            source_path: path_option(self.source_path),
            metadata: self.metadata,
        }
    }
}

/// What a list of snapshots stands for.
pub open spec fn snapshots_view(list: Seq<RbxSnapshotInstance>) -> Seq<SnapshotView>
    decreases list,
{
    Seq::new(
        list.len(),
        |i: int|
            if 0 <= i < list.len() {
                list[i]@
            } else {
                arbitrary()
            },
    )
}

impl SnapshotView {
    /// The snapshot under another name.
    pub open spec fn named(self, name: Seq<char>) -> SnapshotView {
        SnapshotView { name, ..self }
    }

    /// The snapshot with one more child behind the others.
    pub open spec fn with_child(self, child: SnapshotView) -> SnapshotView {
        SnapshotView { children: self.children.push(child), ..self }
    }
}

/// Whether `order` lists the numbers below `count`, each once.
pub open spec fn is_order(order: Seq<int>, count: nat) -> bool {
    &&& order.len() == count
    &&& order.no_duplicates()
    &&& forall|k: int| 0 <= k < order.len() ==> 0 <= #[trigger] order[k] < count
}

/// Whether two snapshots differ at most in the order of children, at the top or further
/// down.
pub open spec fn same_but_order(left: SnapshotView, right: SnapshotView) -> bool
    decreases left,
{
    &&& left.name == right.name
    &&& left.class_name == right.class_name
    &&& left.properties == right.properties
    &&& left.source_path == right.source_path
    &&& left.metadata == right.metadata
    &&& reordered(left.children, right.children)
}

/// Whether two lists hold the same snapshots, but for the order of the lists and that of
/// children further down.
pub open spec fn reordered(left: Seq<SnapshotView>, right: Seq<SnapshotView>) -> bool
    decreases left,
{
    &&& left.len() == right.len()
    &&& exists|order: Seq<int>|
        {
            &&& #[trigger] is_order(order, left.len())
            &&& forall|k: int|
                0 <= k < left.len() ==> same_but_order(#[trigger] left[k], right[order[k]])
        }
}

impl RbxSnapshotInstance {
    /// Puts one more child behind the others.
    pub fn push_child(&mut self, child: RbxSnapshotInstance)
        ensures
            final(self)@ == old(self)@.with_child(child@),
    {
        self.children.push(child);
        assert(snapshots_view(self.children@) =~= snapshots_view(old(self).children@).push(child@));
    }
}

} // verus!
