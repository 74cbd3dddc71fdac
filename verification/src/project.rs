//! Project manifests: which instances there are, and which of them are filled
//! from the file system.
use crate::path::{FilePath, PathView, WrittenPath};
use crate::value::{copy_properties, property_map, Property, PropertyMap};
use vstd::prelude::*;

verus! {

/// Settings that a manifest gives to one instance.
#[derive(Debug, Clone, Copy, PartialEq, Eq, Structural)]
pub struct InstanceProjectNodeMetadata {
    pub ignore_unknown_instances: bool,
}

/// A named node of a manifest.
#[derive(Debug)]
pub struct ProjectChild {
    pub name: String,
    pub node: ProjectNode,
}

/// An instance that the manifest describes in full.
#[derive(Debug)]
pub struct InstanceProjectNode {
    pub class_name: String,
    pub children: Vec<ProjectChild>,
    pub properties: Vec<Property>,
    pub metadata: InstanceProjectNodeMetadata,
}

/// An instance whose contents come from a path of the file system.
#[derive(Debug)]
pub struct SyncPointProjectNode {
    pub path: FilePath,
    pub children: Vec<ProjectChild>,
}

/// A node of a manifest.
#[derive(Debug)]
pub enum ProjectNode {
    Instance(InstanceProjectNode),
    SyncPoint(SyncPointProjectNode),
}

/// A manifest: a name and the node at the root of the tree.
#[derive(Debug)]
pub struct Project {
    pub name: String,
    pub tree: ProjectNode,
}

/// What a [`ProjectNode`] stands for.
pub enum NodeView {
    Instance {
        class_name: Seq<char>,
        children: Seq<ChildView>,
        properties: PropertyMap,
        metadata: InstanceProjectNodeMetadata,
    },
    SyncPoint { path: WrittenPath, children: Seq<ChildView> },
}

/// What a [`ProjectChild`] stands for.
pub struct ChildView {
    pub name: Seq<char>,
    pub node: NodeView,
}

impl View for ProjectNode {
    type V = NodeView;

    open spec fn view(&self) -> NodeView
        decreases self,
    {
        match *self {
            ProjectNode::Instance(node) => NodeView::Instance {
                class_name: node.class_name@,
                children: children_view(node.children@),
                properties: property_map(node.properties@),
                metadata: node.metadata,
            },
            ProjectNode::SyncPoint(node) => NodeView::SyncPoint {
                path: node.path.written(),
                children: children_view(node.children@),
            },
        }
    }
}

/// What a list of children stands for.
pub open spec fn children_view(children: Seq<ProjectChild>) -> Seq<ChildView>
    decreases children,
{
    Seq::new(
        children.len(),
        |i: int|
            if 0 <= i < children.len() {
                ChildView { name: children[i].name@, node: children[i].node@ }
            } else {
                arbitrary()
            },
    )
}

/// Whether a manifest node, or one below it, is a sync point at `path`.
pub open spec fn mentions(node: NodeView, path: PathView) -> bool
    decreases node,
{
    match node {
        NodeView::Instance { children, .. } => children_mention(children, path),
        NodeView::SyncPoint { path: own, children } => own.path == path || children_mention(
            children,
            path,
        ),
    }
}

/// Whether one of the manifest nodes, or one below them, is a sync point at
/// `path`.
pub open spec fn children_mention(children: Seq<ChildView>, path: PathView) -> bool
    decreases children,
{
    exists|i: int| 0 <= i < children.len() && mentions((#[trigger] children[i]).node, path)
}

/// Whether no two of the manifest nodes have the same name, nor have any two children
/// of one node below them.
pub open spec fn children_valid(children: Seq<ChildView>) -> bool
    decreases children,
{
    &&& forall|i: int, j: int|
        0 <= i < j < children.len() ==> (#[trigger] children[i]).name != (
        #[trigger] children[j]).name
    &&& forall|i: int| 0 <= i < children.len() ==> node_valid((#[trigger] children[i]).node)
}

/// Whether no two children of one node, at a manifest node or below it, have the same
/// name.
pub open spec fn node_valid(node: NodeView) -> bool
    decreases node,
{
    match node {
        NodeView::Instance { children, .. } => children_valid(children),
        NodeView::SyncPoint { children, .. } => children_valid(children),
    }
}

/// Whether a manifest node and everything below it is described in full, without a
/// sync point.
pub open spec fn sync_free(node: NodeView) -> bool
    decreases node,
{
    match node {
        NodeView::Instance { children, .. } => children_sync_free(children),
        NodeView::SyncPoint { .. } => false,
    }
}

/// Whether there is no sync point among manifest nodes or below them.
pub open spec fn children_sync_free(children: Seq<ChildView>) -> bool
    decreases children,
{
    forall|i: int| 0 <= i < children.len() ==> sync_free((#[trigger] children[i]).node)
}

impl ProjectNode {
    /// A copy of the node.
    pub fn copy(&self) -> (copy: ProjectNode)
        ensures
            copy@ == self@,
        decreases self,
    {
        match self {
            ProjectNode::Instance(node) => ProjectNode::Instance(
                InstanceProjectNode {
                    class_name: node.class_name.clone(),
                    children: copy_children(&node.children),
                    properties: copy_properties(&node.properties),
                    metadata: node.metadata,
                },
            ),
            ProjectNode::SyncPoint(node) => ProjectNode::SyncPoint(
                SyncPointProjectNode {
                    path: node.path.clone(),
                    children: copy_children(&node.children),
                },
            ),
        }
    }
}

/// A copy of a list of children.
pub fn copy_children(children: &Vec<ProjectChild>) -> (copy: Vec<ProjectChild>)
    ensures
        children_view(copy@) == children_view(children@),
    decreases children,
{
    let mut copy: Vec<ProjectChild> = Vec::new();
    let mut i: usize = 0;
    while i < children.len()
        invariant
            i <= children.len(),
            copy.len() == i,
            forall|j: int|
                0 <= j < i ==> (#[trigger] copy@[j]).name@ == children@[j].name@ && copy@[j].node@
                    == children@[j].node@,
        decreases children.len() - i,
    {
        let child = &children[i];
        proof {
            assert(decreases_to!(children => children@[i as int]));
        }
        copy.push(ProjectChild { name: child.name.clone(), node: child.node.copy() });
        i += 1;
    }
    assert(children_view(copy@) =~= children_view(children@));
    copy
}

} // verus!
