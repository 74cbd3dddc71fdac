//! Model files: instance trees that were saved by Roblox Studio.
use crate::failure::{
    ErrorView, FailureView, PanicView, SnapshotError, SnapshotFailure, SnapshotPanic,
};
use crate::imfs::{FileView, ImfsFile};
use crate::rbx_snapshot::{reordered, snapshots_view, RbxSnapshotInstance, SnapshotView};
use crate::tree::{get_instance, get_root_id, new_tree, tree_instances, tree_root, InstanceMap};
use rbx_tree::RbxTree;
use vstd::prelude::*;

verus! {

/// What `rbx_xml::decode` reports on the contents of a file: that they are in
/// order, or the error in its debug form.
pub uninterp spec fn xml_decoding(contents: Seq<u8>) -> Result<(), Seq<char>>;

/// `rbx_xml::decode`: checks that the contents are an XML model. This version of
/// the crate is documented not to finish constructing instances: it leaves the
/// tree as it is.
#[verifier::external_body]
fn decode_xml(tree: &mut RbxTree, parent: u128, contents: &Vec<u8>) -> (decoded: Result<(), String>)
    requires
        tree_instances(*old(tree)).contains_key(parent),
    ensures
        tree_instances(*final(tree)) == tree_instances(*old(tree)),
        tree_root(*final(tree)) == tree_root(*old(tree)),
        match decoded {
            Ok(_) => xml_decoding(contents@) is Ok,
            Err(text) => xml_decoding(contents@) == Err::<(), Seq<char>>(text@),
        },
{
    let parent = rbx_tree::RbxId::parse_str(&format!("{:032x}", parent)).unwrap();
    rbx_xml::decode(tree, parent, contents.as_slice()).map_err(|error| format!("{:?}", error))
}

/// What `rbx_binary::decode` can report on the contents of a file: the instances
/// that it may find at the top level, or the error in its debug form. There may be
/// more than one outcome, since it puts children in no fixed order; there is none
/// for contents on which it panics.
pub uninterp spec fn binary_outcomes(contents: Seq<u8>) -> Set<Result<Seq<SnapshotView>, Seq<char>>>;

/// Whether contents begin with the header of a binary model.
pub open spec fn has_binary_header(contents: Seq<u8>) -> bool {
    contents.len() >= 16 && contents.take(16) == seq![
        60u8,
        114,
        111,
        98,
        108,
        111,
        120,
        33,
        137,
        255,
        13,
        10,
        26,
        10,
        0,
        0,
    ]
}

/// Whether two outcomes of a decoding are the same error, or the same instances but for the
/// order of siblings.
pub open spec fn outcomes_agree(
    left: Result<Seq<SnapshotView>, Seq<char>>,
    right: Result<Seq<SnapshotView>, Seq<char>>,
) -> bool {
    match (left, right) {
        (Ok(forest), Ok(other)) => reordered(forest, other),
        (Err(text), Err(other)) => text == other,
        _ => false,
    }
}

/// Whether `outcome` differs from what else the contents may decode to in the order of
/// siblings at most.
pub open spec fn is_settled(
    contents: Seq<u8>,
    outcome: Result<Seq<SnapshotView>, Seq<char>>,
) -> bool {
    forall|other: Result<Seq<SnapshotView>, Seq<char>>| #[trigger]
        binary_outcomes(contents).contains(other) ==> outcomes_agree(outcome, other)
}

/// Whether `rbx_binary::decode` returns on the contents, rather than panicking.
pub open spec fn binary_decodes(contents: Seq<u8>) -> bool {
    has_binary_header(contents) ==> exists|outcome: Result<Seq<SnapshotView>, Seq<char>>|
        binary_outcomes(contents).contains(outcome)
}

/// Whether a snapshot, and everything below it, comes from no path and bears nothing
/// from a manifest.
pub open spec fn is_unsourced(snapshot: SnapshotView) -> bool
    decreases snapshot,
{
    &&& snapshot.source_path is None
    &&& snapshot.metadata is None
    &&& forall|i: int|
        0 <= i < snapshot.children.len() ==> is_unsourced(#[trigger] snapshot.children[i])
}

/// Whether the instance with an ID, and those below it, are as `snapshot` says.
pub open spec fn shows(
    instances: InstanceMap,
    id: u128,
    snapshot: SnapshotView,
) -> bool
    decreases snapshot,
{
    &&& instances.contains_key(id)
    &&& instances[id].name == snapshot.name
    &&& instances[id].class_name == snapshot.class_name
    &&& instances[id].properties == snapshot.properties
    &&& instances[id].children.len() == snapshot.children.len()
    &&& forall|i: int|
        0 <= i < snapshot.children.len() ==> shows(
            instances,
            #[trigger] instances[id].children[i],
            snapshot.children[i],
        )
    &&& snapshot.source_path is None
    &&& snapshot.metadata is None
}

/// `rbx_binary::decode`: puts the instances of a binary model below `parent`, in
/// one of the ways that the contents allow, and leaves the tree as it is if the
/// contents are not in order, as they are not without the header of a binary model.
/// The ways differ in the order of siblings alone, which is that of a hash map; whether
/// there is an error, and which, is settled by the contents. Contents that begin with the
/// header, but are damaged further on, can make it panic. Instance IDs are drawn at random
/// and, as the crate documents, unique.
#[verifier::external_body]
fn decode_binary(tree: &mut RbxTree, parent: u128, contents: &Vec<u8>) -> (decoded: Result<
    (),
    String,
>)
    requires
        tree_instances(*old(tree)).contains_key(parent),
        tree_instances(*old(tree))[parent].children.len() == 0,
        binary_decodes(contents@),
    ensures
        tree_root(*final(tree)) == tree_root(*old(tree)),
        !has_binary_header(contents@) ==> decoded is Err,
        match decoded {
            Ok(_) => exists|forest: Seq<SnapshotView>|
                {
                    &&& #[trigger] binary_outcomes(contents@).contains(Ok(forest))
                    &&& is_settled(contents@, Ok(forest))
                    &&& shows_forest(tree_instances(*final(tree)), parent, forest)
                },
            Err(text) => {
                &&& binary_outcomes(contents@).contains(Err(text@))
                &&& is_settled(contents@, Err(text@))
                &&& tree_instances(*final(tree)) == tree_instances(*old(tree))
            },
        },
{
    let parent = rbx_tree::RbxId::parse_str(&format!("{:032x}", parent)).unwrap();
    rbx_binary::decode(tree, parent, contents.as_slice()).map_err(|error| format!("{:?}", error))
}

/// Whether the children of the instance with an ID are as `forest` says.
pub open spec fn shows_forest(
    instances: InstanceMap,
    id: u128,
    forest: Seq<SnapshotView>,
) -> bool {
    &&& instances.contains_key(id)
    &&& instances[id].children.len() == forest.len()
    &&& forall|i: int|
        0 <= i < forest.len() ==> shows(
            instances,
            #[trigger] instances[id].children[i],
            forest[i],
        )
}

/// What is read out of a tree comes from no path.
proof fn lemma_unsourced(instances: InstanceMap, id: u128, snapshot: SnapshotView)
    requires
        shows(instances, id, snapshot),
    ensures
        is_unsourced(snapshot),
    decreases snapshot,
{
    assert forall|i: int| 0 <= i < snapshot.children.len() implies is_unsourced(
        #[trigger] snapshot.children[i],
    ) by {
        let child = instances[id].children[i];
        assert(shows(instances, child, snapshot.children[i]));
        lemma_unsourced(instances, child, snapshot.children[i]);
    }
}

/// The snapshot of an instance in a tree and of those below it.
fn snapshot_from_tree(tree: &RbxTree, id: u128, Ghost(model): Ghost<SnapshotView>) -> (snapshot:
    RbxSnapshotInstance)
    requires
        shows(tree_instances(*tree), id, model),
    ensures
        snapshot@ == model,
    decreases model,
{
    let found = get_instance(tree, id);
    let instance = found.unwrap();
    let mut children: Vec<RbxSnapshotInstance> = Vec::new();
    let mut i: usize = 0;
    while i < instance.children.len()
        invariant
            i <= instance.children.len(),
            children.len() == i,
            shows(tree_instances(*tree), id, model),
            instance.children@ == tree_instances(*tree)[id].children,
            forall|j: int| 0 <= j < i ==> (#[trigger] children@[j])@ == model.children[j],
        decreases instance.children.len() - i,
    {
        assert(shows(
            tree_instances(*tree),
            tree_instances(*tree)[id].children[i as int],
            model.children[i as int],
        ));
        children.push(
            snapshot_from_tree(tree, instance.children[i], Ghost(model.children[i as int])),
        );
        i += 1;
    }
    assert(snapshots_view(children@) =~= model.children);
    RbxSnapshotInstance {
        name: instance.name,
        class_name: instance.class_name,
        properties: instance.properties,
        children,
        source_path: None,
        metadata: None,
    }
}

/// What a model file with these top-level instances gives: the only one of them
/// under the name of the file, or nothing if there is none.
pub open spec fn model_result(name: Seq<char>, forest: Seq<SnapshotView>) -> Result<
    Option<SnapshotView>,
    FailureView,
> {
    if forest.len() == 0 {
        Ok(None)
    } else if forest.len() == 1 {
        Ok(Some(forest[0].named(name)))
    } else {
        Err(FailureView::Panic(PanicView::MultipleRoots))
    }
}

/// What a result of taking a snapshot stands for.
pub open spec fn result_view(
    result: Result<Option<RbxSnapshotInstance>, SnapshotFailure>,
) -> Result<Option<SnapshotView>, FailureView> {
    match result {
        Ok(Some(snapshot)) => Ok(Some(snapshot@)),
        Ok(None) => Ok(None),
        Err(failure) => Err(failure@),
    }
}

/// The snapshot of a model with the given instances at the top level: the only one of
/// them, under another name.
pub fn snapshot_model(instance_name: String, forest: Vec<RbxSnapshotInstance>) -> (result: Result<
    Option<RbxSnapshotInstance>,
    SnapshotFailure,
>)
    ensures
        result_view(result) == model_result(instance_name@, snapshots_view(forest@)),
        forest.len() == 0 ==> (result matches Ok(None)),
        forest.len() == 1 ==> (result matches Ok(Some(snapshot)) && {
            &&& snapshot.name == instance_name
            &&& snapshot.class_name == forest@[0].class_name
            &&& snapshot.properties == forest@[0].properties
            &&& snapshot.children == forest@[0].children
            &&& snapshot.source_path == forest@[0].source_path
            &&& snapshot.metadata == forest@[0].metadata
        }),
        forest.len() > 1 ==> (result matches Err(SnapshotFailure::Panic(
            SnapshotPanic::MultipleRoots,
        ))),
{
    let mut forest = forest;
    if forest.len() > 1 {
        return Err(SnapshotFailure::Panic(SnapshotPanic::MultipleRoots));
    }
    match forest.pop() {
        None => Ok(None),
        Some(instance) => {
            let mut snapshot = instance;
            snapshot.name = instance_name;
            Ok(Some(snapshot))
        },
    }
}

/// The snapshots of the children of an instance in a tree.
fn snapshots_below(tree: &RbxTree, id: u128, Ghost(forest): Ghost<Seq<SnapshotView>>) -> (list: Vec<
    RbxSnapshotInstance,
>)
    requires
        shows_forest(tree_instances(*tree), id, forest),
    ensures
        snapshots_view(list@) == forest,
{
    let found = get_instance(tree, id);
    let children = found.unwrap().children;
    let mut list: Vec<RbxSnapshotInstance> = Vec::new();
    let mut i: usize = 0;
    while i < children.len()
        invariant
            i <= children.len(),
            list.len() == i,
            shows_forest(tree_instances(*tree), id, forest),
            children@ == tree_instances(*tree)[id].children,
            forall|j: int| 0 <= j < i ==> (#[trigger] list@[j])@ == forest[j],
        decreases children.len() - i,
    {
        assert(shows(
            tree_instances(*tree),
            tree_instances(*tree)[id].children[i as int],
            forest[i as int],
        ));
        list.push(snapshot_from_tree(tree, children[i], Ghost(forest[i as int])));
        i += 1;
    }
    assert(snapshots_view(list@) =~= forest);
    list
}

/// What the snapshot of an XML model is.
pub open spec fn xml_model_result(name: Seq<char>, file: FileView) -> Result<
    Option<SnapshotView>,
    FailureView,
> {
    match xml_decoding(file.contents) {
        Ok(_) => model_result(name, Seq::empty()),
        Err(text) => Err(
            FailureView::Error(ErrorView::XmlModelDecodeError { inner: text, path: file.path }),
        ),
    }
}

/// Whether `outcome` can be what a binary model decodes to: only with the header are
/// there instances, these come from no path, and what else the model may decode to differs
/// in the order of siblings at most.
pub open spec fn is_binary_outcome(
    contents: Seq<u8>,
    outcome: Result<Seq<SnapshotView>, Seq<char>>,
) -> bool {
    &&& binary_outcomes(contents).contains(outcome)
    &&& is_settled(contents, outcome)
    &&& match outcome {
        Ok(forest) => {
            &&& has_binary_header(contents)
            &&& forall|i: int| 0 <= i < forest.len() ==> is_unsourced(#[trigger] forest[i])
        },
        Err(_) => true,
    }
}

/// What a binary model that decodes to `outcome` gives.
pub open spec fn outcome_result(
    name: Seq<char>,
    file: FileView,
    outcome: Result<Seq<SnapshotView>, Seq<char>>,
) -> Result<Option<SnapshotView>, FailureView> {
    match outcome {
        Ok(forest) => model_result(name, forest),
        Err(text) => Err(
            FailureView::Error(ErrorView::BinaryModelDecodeError { inner: text, path: file.path }),
        ),
    }
}

/// Whether `result` is a snapshot that a binary model can give.
pub open spec fn binary_model_result(
    name: Seq<char>,
    file: FileView,
    result: Result<Option<SnapshotView>, FailureView>,
) -> bool {
    exists|outcome: Result<Seq<SnapshotView>, Seq<char>>|
        {
            &&& #[trigger] is_binary_outcome(file.contents, outcome)
            &&& result == outcome_result(name, file, outcome)
        }
}

/// The snapshot of a model in XML form, under the given name.
pub fn snapshot_xml_model(instance_name: String, file: &ImfsFile) -> (result: Result<
    Option<RbxSnapshotInstance>,
    SnapshotFailure,
>)
    ensures
        result_view(result) == xml_model_result(instance_name@, file@),
{
    let mut temp_tree = new_tree("Temp", "Folder", &Vec::new());
    let root_id = get_root_id(&temp_tree);
    match decode_xml(&mut temp_tree, root_id, &file.contents) {
        Err(inner) => Err(
            SnapshotFailure::Error(
                SnapshotError::XmlModelDecodeError { inner, path: file.path.clone() },
            ),
        ),
        Ok(_) => {
            let forest = snapshots_below(&temp_tree, root_id, Ghost(Seq::empty()));
            snapshot_model(instance_name, forest)
        },
    }
}

/// The snapshot of a model in binary form, under the given name.
pub fn snapshot_binary_model(instance_name: String, file: &ImfsFile) -> (result: Result<
    Option<RbxSnapshotInstance>,
    SnapshotFailure,
>)
    requires
        binary_decodes(file.contents@),
    ensures
        binary_model_result(instance_name@, file@, result_view(result)),
{
    let mut temp_tree = new_tree("Temp", "Folder", &Vec::new());
    let root_id = get_root_id(&temp_tree);
    match decode_binary(&mut temp_tree, root_id, &file.contents) {
        Err(inner) => {
            let ghost outcome: Result<Seq<SnapshotView>, Seq<char>> = Err(inner@);
            assert(is_binary_outcome(file@.contents, outcome));
            let result = Err(
                SnapshotFailure::Error(
                    SnapshotError::BinaryModelDecodeError { inner, path: file.path.clone() },
                ),
            );
            assert(binary_model_result(instance_name@, file@, result_view(result)));
            result
        },
        Ok(_) => {
            let ghost forest = choose|forest: Seq<SnapshotView>|
                {
                    &&& #[trigger] binary_outcomes(file.contents@).contains(Ok(forest))
                    &&& is_settled(file.contents@, Ok(forest))
                    &&& shows_forest(tree_instances(temp_tree), root_id, forest)
                };
            let ghost outcome: Result<Seq<SnapshotView>, Seq<char>> = Ok(forest);
            assert forall|i: int| 0 <= i < forest.len() implies is_unsourced(
                #[trigger] forest[i],
            ) by {
                let child = tree_instances(temp_tree)[root_id].children[i];
                assert(shows(tree_instances(temp_tree), child, forest[i]));
                lemma_unsourced(tree_instances(temp_tree), child, forest[i]);
            }
            assert(is_binary_outcome(file@.contents, outcome));
            let list = snapshots_below(&temp_tree, root_id, Ghost(forest));
            snapshot_model(instance_name, list)
        },
    }
}

} // verus!
