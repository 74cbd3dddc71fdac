//! The shape of instance trees, and how a tree changes in one place.
use crate::tree::{detached, is_below, leads, InstanceMap, InstanceView};
use vstd::prelude::*;

verus! {

/// The IDs of an instance and of everything below it, as a tree.
pub struct Branch {
    pub id: u128,
    pub children: Seq<Branch>,
}

/// All the IDs in a branch.
pub open spec fn branch_ids(branch: Branch) -> Seq<u128>
    decreases branch,
{
    seq![branch.id] + forest_ids(branch.children)
}

/// All the IDs in a list of branches.
pub open spec fn forest_ids(forest: Seq<Branch>) -> Seq<u128>
    decreases forest,
{
    if forest.len() == 0 {
        Seq::empty()
    } else {
        forest_ids(forest.drop_last()) + branch_ids(forest.last())
    }
}

/// The IDs at the top of a list of branches.
pub open spec fn top_ids(forest: Seq<Branch>) -> Seq<u128> {
    Seq::new(forest.len(), |i: int| forest[i].id)
}

/// Whether an ID is in a branch.
pub open spec fn has_id(branch: Branch, id: u128) -> bool {
    branch_ids(branch).contains(id)
}

/// Whether no ID is twice in a branch.
pub open spec fn distinct(branch: Branch) -> bool {
    branch_ids(branch).no_duplicates()
}

/// Whether the instances lie below one another as a branch says, and know their
/// parents.
pub open spec fn stands(instances: InstanceMap, branch: Branch) -> bool
    decreases branch,
{
    &&& instances.contains_key(branch.id)
    &&& instances[branch.id].children == top_ids(branch.children)
    &&& forall|i: int|
        0 <= i < branch.children.len() ==> {
            &&& stands(instances, #[trigger] branch.children[i])
            &&& instances[branch.children[i].id].parent == Some(branch.id)
        }
}

/// Whether `branch` is what becomes of `before` in a change of the instances that
/// touches nothing else: it stands, and what is new in it is new in the tree.
pub open spec fn evolves(
    instances: InstanceMap,
    before: Branch,
    after: InstanceMap,
    branch: Branch,
) -> bool {
    &&& branch.id == before.id
    &&& stands(after, branch)
    &&& distinct(branch)
    &&& after[branch.id].parent == instances[before.id].parent
    &&& forall|id: u128| #[trigger]
        after.contains_key(id) <==> instances.contains_key(id) && !has_id(before, id) || has_id(
            branch,
            id,
        )
    &&& forall|id: u128| #[trigger]
        has_id(branch, id) && !has_id(before, id) ==> !instances.contains_key(id)
    &&& forall|id: u128|
        instances.contains_key(id) && !has_id(before, id) ==> #[trigger] after[id] == instances[id]
}

/// Whether a branch is the whole of a tree: it starts at the root and leaves no
/// instance out.
pub open spec fn is_whole(instances: InstanceMap, root: u128, branch: Branch) -> bool {
    &&& branch.id == root
    &&& instances[root].parent is None
    &&& stands(instances, branch)
    &&& distinct(branch)
    &&& forall|id: u128| #[trigger] instances.contains_key(id) ==> has_id(branch, id)
}

/// Whether the instances are a tree: each but the root is the child of one other,
/// its parent, and all are below the root.
pub open spec fn is_tree(instances: InstanceMap, root: u128) -> bool {
    exists|branch: Branch| is_whole(instances, root, branch)
}

pub(crate) proof fn lemma_forest_split(left: Seq<Branch>, right: Seq<Branch>)
    ensures
        forest_ids(left + right) == forest_ids(left) + forest_ids(right),
    decreases right.len(),
{
    if right.len() == 0 {
        assert(left + right =~= left);
        assert(forest_ids(left) + forest_ids(right) =~= forest_ids(left));
    } else {
        assert((left + right).drop_last() =~= left + right.drop_last());
        lemma_forest_split(left, right.drop_last());
        assert(forest_ids(left + right) =~= forest_ids(left) + forest_ids(right));
    }
}

pub(crate) proof fn lemma_forest_one(branch: Branch)
    ensures
        forest_ids(seq![branch]) == branch_ids(branch),
{
    assert(seq![branch].drop_last() =~= Seq::<Branch>::empty());
    assert(forest_ids(seq![branch].drop_last()) =~= Seq::<u128>::empty());
    assert(forest_ids(seq![branch]) =~= branch_ids(branch));
}

/// The IDs in a list of branches, with one of them set apart.
pub(crate) proof fn lemma_forest_at(forest: Seq<Branch>, i: int)
    requires
        0 <= i < forest.len(),
    ensures
        forest_ids(forest) == forest_ids(forest.take(i)) + branch_ids(forest[i]) + forest_ids(
            forest.skip(i + 1),
        ),
{
    assert(forest =~= forest.take(i) + seq![forest[i]] + forest.skip(i + 1));
    lemma_forest_split(forest.take(i) + seq![forest[i]], forest.skip(i + 1));
    lemma_forest_split(forest.take(i), seq![forest[i]]);
    lemma_forest_one(forest[i]);
}

pub(crate) proof fn lemma_contains_concat(left: Seq<u128>, right: Seq<u128>, id: u128)
    ensures
        (left + right).contains(id) <==> left.contains(id) || right.contains(id),
{
    let whole = left + right;
    if whole.contains(id) {
        let i = choose|i: int| 0 <= i < whole.len() && whole[i] == id;
        if i < left.len() {
            assert(left[i] == id);
        } else {
            assert(right[i - left.len()] == id);
        }
    }
    if left.contains(id) {
        let i = choose|i: int| 0 <= i < left.len() && left[i] == id;
        assert(whole[i] == id);
    }
    if right.contains(id) {
        let i = choose|i: int| 0 <= i < right.len() && right[i] == id;
        assert(whole[left.len() + i] == id);
    }
}

/// An ID is in a branch if it is at the top or in one of the lists that the
/// children are split into.
pub(crate) proof fn lemma_has_at(branch: Branch, i: int, id: u128)
    requires
        0 <= i < branch.children.len(),
    ensures
        has_id(branch, id) <==> {
            ||| id == branch.id
            ||| forest_ids(branch.children.take(i)).contains(id)
            ||| has_id(branch.children[i], id)
            ||| forest_ids(branch.children.skip(i + 1)).contains(id)
        },
{
    let forest = branch.children;
    lemma_forest_at(forest, i);
    lemma_contains_concat(seq![branch.id], forest_ids(forest), id);
    lemma_contains_concat(
        forest_ids(forest.take(i)) + branch_ids(forest[i]),
        forest_ids(forest.skip(i + 1)),
        id,
    );
    lemma_contains_concat(forest_ids(forest.take(i)), branch_ids(forest[i]), id);
    assert(seq![branch.id].contains(id) <==> id == branch.id) by {
        if id == branch.id {
            assert(seq![branch.id][0] == id);
        }
    }
}

pub(crate) proof fn lemma_has(branch: Branch, id: u128)
    ensures
        has_id(branch, id) <==> id == branch.id || forest_ids(branch.children).contains(id),
{
    lemma_contains_concat(seq![branch.id], forest_ids(branch.children), id);
    assert(seq![branch.id].contains(id) <==> id == branch.id) by {
        if id == branch.id {
            assert(seq![branch.id][0] == id);
        }
    }
}

/// An ID in a list of branches is in one of them.
pub(crate) proof fn lemma_forest_has(forest: Seq<Branch>, id: u128) -> (i: int)
    requires
        forest_ids(forest).contains(id),
    ensures
        0 <= i < forest.len(),
        has_id(forest[i], id),
    decreases forest.len(),
{
    lemma_contains_concat(forest_ids(forest.drop_last()), branch_ids(forest.last()), id);
    if has_id(forest.last(), id) {
        forest.len() - 1
    } else {
        lemma_forest_has(forest.drop_last(), id)
    }
}

/// An ID in one of a list of branches is in the list.
pub(crate) proof fn lemma_in_forest(forest: Seq<Branch>, i: int, id: u128)
    requires
        0 <= i < forest.len(),
        has_id(forest[i], id),
    ensures
        forest_ids(forest).contains(id),
{
    lemma_forest_at(forest, i);
    lemma_contains_concat(
        forest_ids(forest.take(i)) + branch_ids(forest[i]),
        forest_ids(forest.skip(i + 1)),
        id,
    );
    lemma_contains_concat(forest_ids(forest.take(i)), branch_ids(forest[i]), id);
}

/// Without duplicates, two lists put together have nothing in common, and the
/// other way round.
pub(crate) proof fn lemma_no_duplicates(left: Seq<u128>, right: Seq<u128>)
    ensures
        (left + right).no_duplicates() <==> {
            &&& left.no_duplicates()
            &&& right.no_duplicates()
            &&& forall|id: u128| !(#[trigger] left.contains(id) && right.contains(id))
        },
{
    let whole = left + right;
    if whole.no_duplicates() {
        assert forall|i: int, j: int|
            0 <= i < left.len() && 0 <= j < left.len() && i != j implies left[i] != left[j] by {
            assert(whole[i] == left[i] && whole[j] == left[j]);
        }
        assert forall|i: int, j: int|
            0 <= i < right.len() && 0 <= j < right.len() && i != j implies right[i]
            != right[j] by {
            assert(whole[left.len() + i] == right[i] && whole[left.len() + j] == right[j]);
        }
        assert forall|id: u128| !(#[trigger] left.contains(id) && right.contains(id)) by {
            if left.contains(id) && right.contains(id) {
                let i = choose|i: int| 0 <= i < left.len() && left[i] == id;
                let j = choose|j: int| 0 <= j < right.len() && right[j] == id;
                assert(whole[i] == whole[left.len() + j]);
            }
        }
    }
    if left.no_duplicates() && right.no_duplicates() && (forall|id: u128|
        !(#[trigger] left.contains(id) && right.contains(id))) {
        assert forall|i: int, j: int|
            0 <= i < whole.len() && 0 <= j < whole.len() && i != j implies whole[i]
            != whole[j] by {
            if i < left.len() && j >= left.len() {
                assert(left.contains(whole[i]));
                assert(right[j - left.len()] == whole[j]);
                assert(right.contains(whole[j]));
            } else if j < left.len() && i >= left.len() {
                assert(left.contains(whole[j]));
                assert(right[i - left.len()] == whole[i]);
                assert(right.contains(whole[i]));
            }
        }
    }
}

/// What it means for a branch to be without duplicates, with one child set apart.
pub(crate) proof fn lemma_distinct_at(branch: Branch, i: int)
    requires
        0 <= i < branch.children.len(),
    ensures
        distinct(branch) <==> {
            &&& distinct(branch.children[i])
            &&& (seq![branch.id] + (forest_ids(branch.children.take(i)) + forest_ids(
                branch.children.skip(i + 1),
            ))).no_duplicates()
            &&& forall|id: u128|
                #![trigger has_id(branch.children[i], id)]
                has_id(branch.children[i], id) ==> {
                    &&& id != branch.id
                    &&& !forest_ids(branch.children.take(i)).contains(id)
                    &&& !forest_ids(branch.children.skip(i + 1)).contains(id)
                }
        },
{
    let top = seq![branch.id];
    let left = forest_ids(branch.children.take(i));
    let own = branch_ids(branch.children[i]);
    let right = forest_ids(branch.children.skip(i + 1));
    lemma_forest_at(branch.children, i);
    lemma_no_duplicates(top, left + own + right);
    lemma_no_duplicates(left + own, right);
    lemma_no_duplicates(left, own);
    lemma_no_duplicates(top, left + right);
    lemma_no_duplicates(left, right);
    assert forall|id: u128| true implies {
        &&& #[trigger] (left + own + right).contains(id) <==> left.contains(id) || own.contains(id)
            || right.contains(id)
        &&& (left + own).contains(id) <==> left.contains(id) || own.contains(id)
        &&& (left + right).contains(id) <==> left.contains(id) || right.contains(id)
        &&& top.contains(id) <==> id == branch.id
    } by {
        lemma_contains_concat(left + own, right, id);
        lemma_contains_concat(left, own, id);
        lemma_contains_concat(left, right, id);
        if id == branch.id {
            assert(top[0] == id);
        }
    }
    if distinct(branch) {
        assert forall|id: u128|
            #![trigger has_id(branch.children[i], id)]
            has_id(branch.children[i], id) implies {
            &&& id != branch.id
            &&& !left.contains(id)
            &&& !right.contains(id)
        } by {
            assert((left + own + right).contains(id));
            assert(own.contains(id));
            assert((left + own).contains(id));
            if id == branch.id {
                assert(top.contains(id));
            }
        }
        assert forall|id: u128| !(#[trigger] top.contains(id) && (left + right).contains(id)) by {
            assert((left + own + right).contains(id) <==> left.contains(id) || own.contains(id)
                || right.contains(id));
        }
        assert forall|id: u128| !(#[trigger] left.contains(id) && right.contains(id)) by {
            assert((left + own + right).contains(id) <==> left.contains(id) || own.contains(id)
                || right.contains(id));
        }
    }
    if distinct(branch.children[i]) && (top + (left + right)).no_duplicates() && (forall|id: u128|
        #![trigger has_id(branch.children[i], id)]
        has_id(branch.children[i], id) ==> {
            &&& id != branch.id
            &&& !left.contains(id)
            &&& !right.contains(id)
        }) {
        assert forall|id: u128| !(#[trigger] left.contains(id) && own.contains(id)) by {
            assert(own.contains(id) == has_id(branch.children[i], id));
        }
        assert forall|id: u128| !(#[trigger] (left + own).contains(id) && right.contains(id)) by {
            assert((left + own + right).contains(id) <==> left.contains(id) || own.contains(id)
                || right.contains(id));
            assert(own.contains(id) == has_id(branch.children[i], id));
        }
        assert forall|id: u128| !(#[trigger] top.contains(id) && (left + own + right).contains(
            id,
        )) by {
            assert((left + own + right).contains(id) <==> left.contains(id) || own.contains(id)
                || right.contains(id));
            assert(own.contains(id) == has_id(branch.children[i], id));
        }
    }
}

/// In a branch without duplicates, the ID at the top is nowhere below.
pub(crate) proof fn lemma_top_alone(branch: Branch)
    requires
        distinct(branch),
    ensures
        !forest_ids(branch.children).contains(branch.id),
{
    lemma_no_duplicates(seq![branch.id], forest_ids(branch.children));
    assert(seq![branch.id][0] == branch.id);
    assert(seq![branch.id].contains(branch.id));
}

/// Two children of a branch without duplicates have no ID in common.
pub(crate) proof fn lemma_siblings(branch: Branch, i: int, j: int, id: u128)
    requires
        distinct(branch),
        0 <= i < branch.children.len(),
        0 <= j < branch.children.len(),
        i != j,
        has_id(branch.children[i], id),
    ensures
        !has_id(branch.children[j], id),
        id != branch.id,
{
    lemma_distinct_at(branch, i);
    if has_id(branch.children[j], id) {
        if j < i {
            assert(branch.children.take(i)[j] == branch.children[j]);
            lemma_in_forest(branch.children.take(i), j, id);
        } else {
            assert(branch.children.skip(i + 1)[j - i - 1] == branch.children[j]);
            lemma_in_forest(branch.children.skip(i + 1), j - i - 1, id);
        }
    }
}

/// The ID at the top of a branch is in it, and so is what is in its children.
pub(crate) proof fn lemma_top(branch: Branch)
    ensures
        has_id(branch, branch.id),
        forall|i: int, id: u128|
            0 <= i < branch.children.len() && #[trigger] has_id(branch.children[i], id) ==> has_id(
                branch,
                id,
            ),
{
    lemma_has(branch, branch.id);
    assert forall|i: int, id: u128|
        0 <= i < branch.children.len() && #[trigger] has_id(
            branch.children[i],
            id,
        ) implies has_id(branch, id) by {
        lemma_has_at(branch, i, id);
    }
}

/// The IDs of a branch that stands are those of instances.
pub(crate) proof fn lemma_stands_within(instances: InstanceMap, branch: Branch, id: u128)
    requires
        stands(instances, branch),
        has_id(branch, id),
    ensures
        instances.contains_key(id),
    decreases branch,
{
    lemma_has(branch, id);
    if id != branch.id {
        let i = lemma_forest_has(branch.children, id);
        lemma_stands_within(instances, branch.children[i], id);
    }
}

/// A branch stands wherever its instances are as before.
pub(crate) proof fn lemma_stands_frame(instances: InstanceMap, other: InstanceMap, branch: Branch)
    requires
        stands(instances, branch),
        forall|id: u128| #[trigger]
            has_id(branch, id) ==> other.contains_key(id) && other[id] == instances[id],
    ensures
        stands(other, branch),
    decreases branch,
{
    lemma_top(branch);
    assert forall|i: int| 0 <= i < branch.children.len() implies {
        &&& stands(other, #[trigger] branch.children[i])
        &&& other[branch.children[i].id].parent == Some(branch.id)
    } by {
        lemma_top(branch.children[i]);
        lemma_stands_frame(instances, other, branch.children[i]);
        assert(has_id(branch, branch.children[i].id));
    }
}

/// A change in two steps is a change.
pub(crate) proof fn lemma_evolves_twice(
    first: InstanceMap,
    before: Branch,
    second: InstanceMap,
    between: Branch,
    third: InstanceMap,
    branch: Branch,
)
    requires
        evolves(first, before, second, between),
        evolves(second, between, third, branch),
    ensures
        evolves(first, before, third, branch),
{
    lemma_top(between);
    assert forall|id: u128| #[trigger] has_id(branch, id) && !has_id(before, id) implies !first.contains_key(
        id,
    ) by {
        if !has_id(between, id) {
            assert(!second.contains_key(id));
        }
    }
    assert forall|id: u128| #[trigger]
        third.contains_key(id) <==> first.contains_key(id) && !has_id(before, id) || has_id(
            branch,
            id,
        ) by {
        assert(second.contains_key(id) <==> first.contains_key(id) && !has_id(before, id)
            || has_id(between, id));
        if first.contains_key(id) && !has_id(before, id) {
            assert(!has_id(between, id));
        }
    }
    assert forall|id: u128|
        first.contains_key(id) && !has_id(before, id) implies #[trigger] third[id]
        == first[id] by {
        assert(!has_id(between, id));
        assert(second[id] == first[id]);
        assert(second.contains_key(id));
    }
}

/// A branch that stands is what becomes of it when nothing happens.
pub(crate) proof fn lemma_evolves_same(instances: InstanceMap, branch: Branch)
    requires
        stands(instances, branch),
        distinct(branch),
    ensures
        evolves(instances, branch, instances, branch),
{
    assert forall|id: u128| #[trigger] has_id(branch, id) implies instances.contains_key(id) by {
        lemma_stands_within(instances, branch, id);
    }
}

/// Other fields at the top of a branch leave it standing.
pub(crate) proof fn lemma_evolves_top(
    instances: InstanceMap,
    branch: Branch,
    top: InstanceView,
)
    requires
        stands(instances, branch),
        distinct(branch),
        top.children == instances[branch.id].children,
        top.parent == instances[branch.id].parent,
    ensures
        evolves(instances, branch, instances.insert(branch.id, top), branch),
{
    let after = instances.insert(branch.id, top);
    lemma_top(branch);
    assert forall|id: u128| #[trigger] has_id(branch, id) implies instances.contains_key(id) by {
        lemma_stands_within(instances, branch, id);
    }
    assert forall|i: int| 0 <= i < branch.children.len() implies {
        &&& stands(after, #[trigger] branch.children[i])
        &&& after[branch.children[i].id].parent == Some(branch.id)
    } by {
        let child = branch.children[i];
        lemma_distinct_at(branch, i);
        lemma_top(child);
        assert(stands(instances, child));
        lemma_stands_frame(instances, after, child);
    }
}

/// The branch with another child in one place.
pub open spec fn with_child_at(branch: Branch, i: int, child: Branch) -> Branch {
    Branch { id: branch.id, children: branch.children.update(i, child) }
}

/// A change in one child of a branch is a change of the branch.
pub(crate) proof fn lemma_evolves_child(
    instances: InstanceMap,
    branch: Branch,
    i: int,
    after: InstanceMap,
    child: Branch,
)
    requires
        stands(instances, branch),
        distinct(branch),
        0 <= i < branch.children.len(),
        evolves(instances, branch.children[i], after, child),
    ensures
        evolves(instances, branch, after, with_child_at(branch, i, child)),
{
    let old_child = branch.children[i];
    let result = with_child_at(branch, i, child);
    let left = branch.children.take(i);
    let right = branch.children.skip(i + 1);
    assert(result.children.take(i) =~= left);
    assert(result.children.skip(i + 1) =~= right);
    assert(result.children[i] == child);
    lemma_distinct_at(branch, i);
    lemma_distinct_at(result, i);
    lemma_top(branch);
    lemma_top(old_child);
    assert(!has_id(old_child, branch.id));
    assert forall|id: u128| true implies {
        &&& #[trigger] has_id(branch, id) <==> id == branch.id || forest_ids(left).contains(id)
            || has_id(old_child, id) || forest_ids(right).contains(id)
        &&& has_id(result, id) <==> id == branch.id || forest_ids(left).contains(id) || has_id(
            child,
            id,
        ) || forest_ids(right).contains(id)
        &&& has_id(branch, id) ==> instances.contains_key(id)
    } by {
        lemma_has_at(branch, i, id);
        lemma_has_at(result, i, id);
        if has_id(branch, id) {
            lemma_stands_within(instances, branch, id);
        }
    }
    assert forall|id: u128|
        #![trigger has_id(result.children[i], id)]
        has_id(result.children[i], id) implies {
        &&& id != branch.id
        &&& !forest_ids(left).contains(id)
        &&& !forest_ids(right).contains(id)
    } by {
        assert(has_id(branch, id) <==> id == branch.id || forest_ids(left).contains(id) || has_id(
            old_child,
            id,
        ) || forest_ids(right).contains(id));
        if !has_id(old_child, id) {
            assert(has_id(child, id));
            assert(!instances.contains_key(id));
        }
    }
    assert(distinct(result));
    assert(after[branch.id] == instances[branch.id]);
    assert(top_ids(result.children) =~= top_ids(branch.children));
    assert forall|k: int| 0 <= k < result.children.len() implies {
        &&& stands(after, #[trigger] result.children[k])
        &&& after[result.children[k].id].parent == Some(result.id)
    } by {
        assert(stands(instances, branch.children[k]));
        if k != i {
            let other = branch.children[k];
            lemma_top(other);
            assert forall|id: u128| #[trigger] has_id(other, id) implies after.contains_key(id)
                && after[id] == instances[id] by {
                lemma_siblings(branch, k, i, id);
                assert(has_id(branch, id));
            }
            lemma_stands_frame(instances, after, other);
        }
    }
    assert(stands(after, result));
    assert(after.contains_key(branch.id));
    assert forall|id: u128| #[trigger]
        after.contains_key(id) <==> instances.contains_key(id) && !has_id(branch, id) || has_id(
            result,
            id,
        ) by {
        assert(has_id(branch, id) <==> id == branch.id || forest_ids(left).contains(id) || has_id(
            old_child,
            id,
        ) || forest_ids(right).contains(id));
    }
    assert forall|id: u128| #[trigger] has_id(result, id) && !has_id(branch, id) implies !instances.contains_key(
        id,
    ) by {
        assert(has_id(child, id));
    }
}

/// Whether a new branch has grown below the instance `parent`, and nothing else has
/// changed: none of its IDs were in use, and it is the last child there.
pub open spec fn grows(
    instances: InstanceMap,
    parent: u128,
    after: InstanceMap,
    branch: Branch,
) -> bool {
    &&& distinct(branch)
    &&& stands(after, branch)
    &&& after[branch.id].parent == Some(parent)
    &&& forall|id: u128| #[trigger] has_id(branch, id) ==> !instances.contains_key(id)
    &&& forall|id: u128| #[trigger]
        after.contains_key(id) <==> instances.contains_key(id) || has_id(branch, id)
    &&& after[parent] == instances[parent].with_children(
        instances[parent].children.push(branch.id),
    )
    &&& forall|id: u128|
        instances.contains_key(id) && id != parent ==> #[trigger] after[id] == instances[id]
}

/// The branch with one more child behind the others.
pub open spec fn with_child(branch: Branch, child: Branch) -> Branch {
    Branch { id: branch.id, children: branch.children.push(child) }
}

/// A new branch below the top of another is a change of that branch.
pub(crate) proof fn lemma_evolves_grown(
    instances: InstanceMap,
    branch: Branch,
    after: InstanceMap,
    child: Branch,
)
    requires
        stands(instances, branch),
        distinct(branch),
        grows(instances, branch.id, after, child),
    ensures
        evolves(instances, branch, after, with_child(branch, child)),
{
    let result = with_child(branch, child);
    let last = branch.children.len() as int;
    let none = Seq::<Branch>::empty();
    assert(result.children.take(last) =~= branch.children);
    assert(result.children.skip(last + 1) =~= none);
    assert(forest_ids(none) =~= Seq::<u128>::empty());
    assert(forest_ids(branch.children) + forest_ids(none) =~= forest_ids(branch.children));
    lemma_distinct_at(result, last);
    lemma_top(branch);
    lemma_top(child);
    assert forall|id: u128| true implies {
        &&& #[trigger] has_id(result, id) <==> has_id(branch, id) || has_id(child, id)
        &&& has_id(branch, id) <==> id == branch.id || forest_ids(branch.children).contains(id)
        &&& has_id(branch, id) ==> instances.contains_key(id)
    } by {
        lemma_has_at(result, last, id);
        lemma_has(branch, id);
        if has_id(branch, id) {
            lemma_stands_within(instances, branch, id);
        }
    }
    assert forall|id: u128|
        #![trigger has_id(result.children[last], id)]
        has_id(result.children[last], id) implies {
        &&& id != branch.id
        &&& !forest_ids(branch.children).contains(id)
        &&& !forest_ids(none).contains(id)
    } by {
        assert(has_id(child, id));
        assert(has_id(result, id) <==> has_id(branch, id) || has_id(child, id));
    }
    assert(distinct(result));
    assert(top_ids(result.children) =~= top_ids(branch.children).push(child.id));
    assert forall|k: int| 0 <= k < result.children.len() implies {
        &&& stands(after, #[trigger] result.children[k])
        &&& after[result.children[k].id].parent == Some(result.id)
    } by {
        if k < last {
            let other = branch.children[k];
            assert(stands(instances, other));
            lemma_top(other);
            lemma_distinct_at(branch, k);
            assert forall|id: u128| #[trigger] has_id(other, id) implies after.contains_key(id)
                && after[id] == instances[id] by {
                assert(has_id(branch, id));
                assert(has_id(result, id));
            }
            lemma_stands_frame(instances, after, other);
        }
    }
    assert(stands(after, result));
}

/// From the top of a branch that stands, the instances below it are those in the
/// branch.
pub(crate) proof fn lemma_below(instances: InstanceMap, branch: Branch, id: u128)
    requires
        stands(instances, branch),
    ensures
        is_below(instances, branch.id, id) <==> has_id(branch, id),
{
    if has_id(branch, id) {
        lemma_chain(instances, branch, id);
    }
    if is_below(instances, branch.id, id) {
        let chain = choose|chain: Seq<u128>| leads(instances, chain, branch.id, id);
        lemma_chain_within(instances, branch, chain, chain.len() - 1);
    }
}

proof fn lemma_chain(instances: InstanceMap, branch: Branch, id: u128)
    requires
        stands(instances, branch),
        has_id(branch, id),
    ensures
        is_below(instances, branch.id, id),
    decreases branch,
{
    lemma_has(branch, id);
    if id == branch.id {
        assert(leads(instances, seq![id], id, id));
    } else {
        let i = lemma_forest_has(branch.children, id);
        let child = branch.children[i];
        lemma_chain(instances, child, id);
        let rest = choose|chain: Seq<u128>| leads(instances, chain, child.id, id);
        let chain = seq![branch.id] + rest;
        assert(top_ids(branch.children)[i] == child.id);
        assert(chain.last() == rest.last());
        assert forall|k: int| 0 <= k < chain.len() implies instances.contains_key(
            #[trigger] chain[k],
        ) by {
            if k > 0 {
                assert(chain[k] == rest[k - 1]);
            }
        }
        assert forall|k: int, j: int|
            0 <= k && j == k + 1 && j < chain.len() implies instances[#[trigger] chain[k]].children.contains(
            #[trigger] chain[j]) by {
            assert(chain[j] == rest[j - 1]);
            if k > 0 {
                assert(chain[k] == rest[k - 1]);
            }
        }
        assert(leads(instances, chain, branch.id, id));
    }
}

proof fn lemma_chain_within(instances: InstanceMap, branch: Branch, chain: Seq<u128>, n: int)
    requires
        stands(instances, branch),
        0 <= n < chain.len(),
        leads(instances, chain, branch.id, chain.last()),
    ensures
        has_id(branch, chain[n]),
    decreases n,
{
    if n == 0 {
        lemma_top(branch);
    } else {
        lemma_chain_within(instances, branch, chain, n - 1);
        assert(instances[chain[n - 1]].children.contains(chain[n]));
        lemma_closed(instances, branch, chain[n - 1], chain[n]);
    }
}

/// The children of what is in a branch are in the branch.
proof fn lemma_closed(instances: InstanceMap, branch: Branch, id: u128, child: u128)
    requires
        stands(instances, branch),
        has_id(branch, id),
        instances[id].children.contains(child),
    ensures
        has_id(branch, child),
    decreases branch,
{
    lemma_has(branch, id);
    lemma_top(branch);
    if id == branch.id {
        let i = choose|i: int|
            0 <= i < top_ids(branch.children).len() && top_ids(branch.children)[i] == child;
        lemma_top(branch.children[i]);
    } else {
        let i = lemma_forest_has(branch.children, id);
        lemma_closed(instances, branch.children[i], id, child);
    }
}

/// The branch without one of its children.
pub open spec fn without_child(branch: Branch, i: int) -> Branch {
    Branch { id: branch.id, children: branch.children.remove(i) }
}

/// Taking a child of a branch out of the tree, with everything below it, is a
/// change of the branch.
pub(crate) proof fn lemma_evolves_cut(
    instances: InstanceMap,
    branch: Branch,
    i: int,
    after: InstanceMap,
)
    requires
        stands(instances, branch),
        distinct(branch),
        0 <= i < branch.children.len(),
        after == detached(instances, branch.children[i].id).remove_keys(
            Set::new(
                |id: u128|
                    is_below(
                        detached(instances, branch.children[i].id),
                        branch.children[i].id,
                        id,
                    ),
            ),
        ),
    ensures
        evolves(instances, branch, after, without_child(branch, i)),
        forall|id: u128|
            #![trigger after[id]]
            #![trigger after.contains_key(id)]
            instances.contains_key(id) && id != branch.id && !has_id(branch.children[i], id) ==> {
                &&& after.contains_key(id)
                &&& after[id] == instances[id]
            },
{
    let child = branch.children[i];
    let result = without_child(branch, i);
    let mid = detached(instances, child.id);
    let left = branch.children.take(i);
    let right = branch.children.skip(i + 1);
    lemma_top(branch);
    lemma_top(child);
    lemma_distinct_at(branch, i);
    let tops = top_ids(branch.children);
    assert(tops[i] == child.id);
    assert(tops.contains(child.id));
    tops.index_of_first_ensures(child.id);
    let found = tops.index_of_first(child.id)->0;
    if found != i {
        lemma_top(branch.children[found]);
        lemma_siblings(branch, i, found, child.id);
    }
    assert(instances[child.id].parent == Some(branch.id));
    assert(mid == instances.insert(branch.id, instances[branch.id].with_children(tops.remove(i))));
    assert(stands(instances, child));
    assert forall|id: u128| #[trigger] has_id(child, id) implies mid.contains_key(id) && mid[id]
        == instances[id] by {
        lemma_stands_within(instances, child, id);
    }
    lemma_stands_frame(instances, mid, child);
    assert forall|id: u128| true implies {
        &&& #[trigger] after.contains_key(id) <==> instances.contains_key(id) && !has_id(child, id)
        &&& after.contains_key(id) ==> after[id] == mid[id]
    } by {
        lemma_below(mid, child, id);
        lemma_stands_within(instances, branch, branch.id);
    }
    assert(result.children =~= left + right);
    lemma_forest_split(left, right);
    assert(branch_ids(result) =~= seq![branch.id] + (forest_ids(left) + forest_ids(right)));
    assert(distinct(result));
    assert forall|id: u128| true implies {
        &&& #[trigger] has_id(branch, id) <==> id == branch.id || forest_ids(left).contains(id)
            || has_id(child, id) || forest_ids(right).contains(id)
        &&& has_id(result, id) <==> id == branch.id || forest_ids(left).contains(id)
            || forest_ids(right).contains(id)
        &&& has_id(branch, id) ==> instances.contains_key(id)
    } by {
        lemma_has_at(branch, i, id);
        lemma_has(result, id);
        lemma_contains_concat(forest_ids(left), forest_ids(right), id);
        if has_id(branch, id) {
            lemma_stands_within(instances, branch, id);
        }
    }
    assert(top_ids(result.children) =~= tops.remove(i));
    assert(!has_id(child, branch.id));
    assert(after.contains_key(branch.id));
    assert forall|k: int| 0 <= k < result.children.len() implies {
        &&& stands(after, #[trigger] result.children[k])
        &&& after[result.children[k].id].parent == Some(result.id)
    } by {
        let at = if k < i {
            k
        } else {
            k + 1
        };
        let other = branch.children[at];
        assert(result.children[k] == other);
        assert(stands(instances, other));
        lemma_top(other);
        assert forall|id: u128| #[trigger] has_id(other, id) implies after.contains_key(id)
            && after[id] == instances[id] by {
            lemma_siblings(branch, at, i, id);
            assert(has_id(branch, id));
            assert(after.contains_key(id));
        }
        lemma_stands_frame(instances, after, other);
    }
    assert(stands(after, result));
    assert forall|id: u128| #[trigger]
        after.contains_key(id) <==> instances.contains_key(id) && !has_id(branch, id) || has_id(
            result,
            id,
        ) by {
        assert(has_id(branch, id) <==> id == branch.id || forest_ids(left).contains(id) || has_id(
            child,
            id,
        ) || forest_ids(right).contains(id));
    }
    assert forall|id: u128| #[trigger] has_id(result, id) && !has_id(branch, id) implies !instances.contains_key(
        id,
    ) by {
    }
}

/// The branch that starts at one of the IDs of another: a change of it is a change
/// of the other.
pub(crate) proof fn lemma_branch_at(instances: InstanceMap, whole: Branch, id: u128) -> (branch:
    Branch)
    requires
        stands(instances, whole),
        distinct(whole),
        has_id(whole, id),
    ensures
        branch.id == id,
        stands(instances, branch),
        distinct(branch),
        forall|other: u128| #[trigger] has_id(branch, other) ==> has_id(whole, other),
        id != whole.id ==> !has_id(branch, whole.id),
        forall|after: InstanceMap, now: Branch| #[trigger]
            evolves(instances, branch, after, now) ==> exists|result: Branch|
                evolves(instances, whole, after, result),
    decreases whole,
{
    lemma_has(whole, id);
    if id == whole.id {
        whole
    } else {
        let i = lemma_forest_has(whole.children, id);
        let child = whole.children[i];
        lemma_distinct_at(whole, i);
        lemma_top(whole);
        assert(stands(instances, child));
        let branch = lemma_branch_at(instances, child, id);
        assert forall|after: InstanceMap, now: Branch| #[trigger]
            evolves(instances, branch, after, now) implies exists|result: Branch|
            evolves(instances, whole, after, result) by {
            let changed = choose|result: Branch| evolves(instances, child, after, result);
            assert(evolves(instances, child, after, changed));
            lemma_evolves_child(instances, whole, i, after, changed);
            assert(evolves(instances, whole, after, with_child_at(whole, i, changed)));
        }
        branch
    }
}

/// A tree stays a tree when one of its branches changes.
pub(crate) proof fn lemma_tree_evolves(
    instances: InstanceMap,
    root: u128,
    whole: Branch,
    after: InstanceMap,
    result: Branch,
)
    requires
        is_whole(instances, root, whole),
        evolves(instances, whole, after, result),
    ensures
        is_whole(after, root, result),
{
    assert forall|id: u128| #[trigger] after.contains_key(id) implies has_id(result, id) by {
        if instances.contains_key(id) {
            assert(has_id(whole, id));
        }
    }
}

/// There is one branch that stands at an ID.
pub proof fn law_one_branch(instances: InstanceMap, left: Branch, right: Branch)
    requires
        stands(instances, left),
        stands(instances, right),
        left.id == right.id,
    ensures
        left == right,
    decreases left,
{
    assert(top_ids(left.children) == top_ids(right.children));
    assert(left.children.len() == top_ids(left.children).len());
    assert(right.children.len() == top_ids(right.children).len());
    assert forall|i: int| 0 <= i < left.children.len() implies left.children[i]
        == right.children[i] by {
        assert(stands(instances, left.children[i]));
        assert(stands(instances, right.children[i]));
        assert(top_ids(left.children)[i] == top_ids(right.children)[i]);
        law_one_branch(instances, left.children[i], right.children[i]);
    }
    assert(left.children =~= right.children);
}

} // verus!
