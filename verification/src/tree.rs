//! Instance trees, as `rbx_tree` keeps them.
use crate::value::{property_map, Property, PropertyMap};
use rbx_tree::RbxTree;
use vstd::prelude::*;

verus! {

/// `rbx_tree::RbxTree`, a collection of instances by ID.
#[verifier::external_type_specification]
#[verifier::external_body]
pub struct ExRbxTree(RbxTree);

/// What an instance in an `RbxTree` stands for.
pub struct InstanceView {
    pub name: Seq<char>,
    pub class_name: Seq<char>,
    pub properties: PropertyMap,
    pub children: Seq<u128>,
    pub parent: Option<u128>,
}

/// Instances by ID.
pub type InstanceMap = Map<u128, InstanceView>;

/// The instances in a tree by ID; an ID is a UUID, read as a number.
pub uninterp spec fn tree_instances(tree: RbxTree) -> InstanceMap;

/// The ID of the root of a tree.
pub uninterp spec fn tree_root(tree: RbxTree) -> u128;

/// An instance read out of a tree.
pub struct TreeInstance {
    pub name: String,
    pub class_name: String,
    pub properties: Vec<Property>,
    pub children: Vec<u128>,
    pub parent: Option<u128>,
}

impl View for TreeInstance {
    type V = InstanceView;

    open spec fn view(&self) -> InstanceView {
        InstanceView {
            name: self.name@,
            class_name: self.class_name@,
            properties: property_map(self.properties@),
            children: self.children@,
            parent: self.parent,
        }
    }
}

impl InstanceView {
    /// The instance with another list of children.
    pub open spec fn with_children(self, children: Seq<u128>) -> InstanceView {
        InstanceView { children, ..self }
    }
}

/// `RbxTree::new`: a tree of one instance, its root.
#[verifier::external_body]
pub(crate) fn new_tree(name: &str, class_name: &str, properties: &Vec<Property>) -> (tree: RbxTree)
    ensures
        tree_instances(tree) == map![
            tree_root(tree) => InstanceView {
                name: name@,
                class_name: class_name@,
                properties: property_map(properties@),
                children: Seq::empty(),
                parent: None,
            },
        ],
{
    RbxTree::new(rbx_tree::RbxInstanceProperties {
        name: name.to_owned(),
        class_name: class_name.to_owned(),
        properties: properties.iter().map(|p| (p.name.clone(), p.value.clone())).collect(),
    })
}

/// `RbxTree::get_root_id`: the ID of the root.
#[verifier::external_body]
pub(crate) fn get_root_id(tree: &RbxTree) -> (id: u128)
    ensures
        id == tree_root(*tree),
{
    let id = tree.get_root_id().to_string().replace('-', "");
    u128::from_str_radix(&id, 16).unwrap()
}

/// `RbxTree::get_instance`: the instance with an ID, if the tree has one.
#[verifier::external_body]
pub(crate) fn get_instance(tree: &RbxTree, id: u128) -> (instance: Option<TreeInstance>)
    ensures
        match instance {
            Some(instance) => {
                &&& tree_instances(*tree).contains_key(id)
                &&& tree_instances(*tree)[id] == instance@
            },
            None => !tree_instances(*tree).contains_key(id),
        },
{
    let number = |id: rbx_tree::RbxId| u128::from_str_radix(&id.to_string().replace('-', ""), 16).unwrap();
    let found = tree.get_instance(rbx_tree::RbxId::parse_str(&format!("{:032x}", id))?)?;
    Some(TreeInstance {
        name: found.name.clone(),
        class_name: found.class_name.clone(),
        properties: found.properties.iter()
            .map(|(name, value)| Property { name: name.clone(), value: value.clone() }).collect(),
        children: found.get_children_ids().iter().map(|id| number(*id)).collect(),
        parent: found.get_parent_id().map(number),
    })
}

/// `RbxTree::insert_instance`: puts a new instance behind the other children of
/// `parent`. It panics if there is no `parent`. The ID of the new instance is drawn
/// at random and, as the crate documents, unique.
#[verifier::external_body]
pub(crate) fn insert_instance(
    tree: &mut RbxTree,
    parent: u128,
    name: &str,
    class_name: &str,
    properties: &Vec<Property>,
) -> (id: u128)
    requires
        tree_instances(*old(tree)).contains_key(parent),
    ensures
        !tree_instances(*old(tree)).contains_key(id),
        tree_instances(*final(tree)) == tree_instances(*old(tree)).insert(
            parent,
            tree_instances(*old(tree))[parent].with_children(
                tree_instances(*old(tree))[parent].children.push(id),
            ),
        ).insert(
            id,
            InstanceView {
                name: name@,
                class_name: class_name@,
                properties: property_map(properties@),
                children: Seq::empty(),
                parent: Some(parent),
            },
        ),
        tree_root(*final(tree)) == tree_root(*old(tree)),
{
    let id = tree.insert_instance(rbx_tree::RbxInstanceProperties {
        name: name.to_owned(),
        class_name: class_name.to_owned(),
        properties: properties.iter().map(|p| (p.name.clone(), p.value.clone())).collect(),
    }, rbx_tree::RbxId::parse_str(&format!("{:032x}", parent)).unwrap());
    u128::from_str_radix(&id.to_string().replace('-', ""), 16).unwrap()
}

/// `RbxTree::get_instance_mut`: gives the instance with an ID another name, class
/// and set of properties.
#[verifier::external_body]
pub(crate) fn set_instance(
    tree: &mut RbxTree,
    id: u128,
    name: &str,
    class_name: &str,
    properties: &Vec<Property>,
)
    requires
        tree_instances(*old(tree)).contains_key(id),
    ensures
        tree_instances(*final(tree)) == tree_instances(*old(tree)).insert(
            id,
            InstanceView {
                name: name@,
                class_name: class_name@,
                properties: property_map(properties@),
                ..tree_instances(*old(tree))[id]
            },
        ),
        tree_root(*final(tree)) == tree_root(*old(tree)),
{
    let id = rbx_tree::RbxId::parse_str(&format!("{:032x}", id)).unwrap();
    let instance = tree.get_instance_mut(id).unwrap();
    instance.name = name.to_owned();
    instance.class_name = class_name.to_owned();
    instance.properties = properties.iter().map(|p| (p.name.clone(), p.value.clone())).collect();
}

/// Whether `chain` leads from one instance to another, each a child of the one
/// before.
pub open spec fn leads(instances: InstanceMap, chain: Seq<u128>, from: u128, to: u128) -> bool {
    &&& chain.len() > 0
    &&& chain.first() == from
    &&& chain.last() == to
    &&& forall|i: int| 0 <= i < chain.len() ==> instances.contains_key(#[trigger] chain[i])
    &&& forall|i: int, j: int|
        0 <= i && j == i + 1 && j < chain.len() ==> instances[#[trigger] chain[i]].children.contains(
            #[trigger] chain[j],
        )
}

/// Whether an instance is `top` or one of its descendants.
pub open spec fn is_below(instances: InstanceMap, top: u128, id: u128) -> bool {
    exists|chain: Seq<u128>| leads(instances, chain, top, id)
}

/// The instances once `id` is no longer listed as a child of its parent.
pub open spec fn detached(instances: InstanceMap, id: u128) -> InstanceMap {
    let parent = instances[id].parent->0;
    let children = instances[parent].children;
    instances.insert(
        parent,
        instances[parent].with_children(children.remove(children.index_of_first(id)->0)),
    )
}

/// `RbxTree::remove_instance`: takes the instance with an ID out of the tree, with
/// all of its descendants. It panics on the root, and on an instance that its
/// parent does not list as a child.
#[verifier::external_body]
pub(crate) fn remove_instance(tree: &mut RbxTree, id: u128)
    requires
        id != tree_root(*old(tree)),
        tree_instances(*old(tree)).contains_key(id),
        tree_instances(*old(tree))[id].parent is Some,
        tree_instances(*old(tree)).contains_key(tree_instances(*old(tree))[id].parent->0),
        tree_instances(*old(tree))[tree_instances(*old(tree))[id].parent->0].children.contains(id),
    ensures
        tree_instances(*final(tree)) == detached(tree_instances(*old(tree)), id).remove_keys(
            Set::new(|other: u128| is_below(detached(tree_instances(*old(tree)), id), id, other)),
        ),
        tree_root(*final(tree)) == tree_root(*old(tree)),
{
    tree.remove_instance(rbx_tree::RbxId::parse_str(&format!("{:032x}", id)).unwrap());
}

} // verus!
