//! Property values of instances.
use rbx_tree::RbxValue;
use vstd::prelude::*;
use vstd::std_specs::cmp::PartialEqSpec;

verus! {

/// `rbx_tree::RbxValue`, carried without being looked into.
#[verifier::external_type_specification]
#[verifier::external_body]
pub struct ExRbxValue(RbxValue);

/// The value `RbxValue::String` that holds a text.
pub uninterp spec fn text_value(text: Seq<char>) -> RbxValue;

/// The variant `RbxValue::String` of `rbx_tree::RbxValue`: the value that holds the
/// text.
#[verifier::external_body]
pub(crate) fn make_text_value(text: &str) -> (value: RbxValue)
    ensures
        value == text_value(text@),
{
    RbxValue::String { value: text.to_owned() }
}

/// The `clone` of `rbx_tree::RbxValue`, which `derive` wrote: the copy is the value
/// that it was made from.
pub assume_specification[ <RbxValue as Clone>::clone ](value: &RbxValue) -> (copy: RbxValue)
    ensures
        copy == *value,
;

/// Whether a value holds a text.
pub open spec fn is_text(value: RbxValue) -> bool {
    exists|text: Seq<char>| value == text_value(text)
}

/// Whether two values are equal. Texts are equal if they are the same. Of other values
/// only `==` itself tells: some hold floating-point numbers.
pub open spec fn value_equal(left: RbxValue, right: RbxValue) -> bool {
    if is_text(left) && is_text(right) {
        left == right
    } else {
        left.eq_spec(&right)
    }
}

/// The `==` of `rbx_tree::RbxValue`, which `derive` wrote: it depends on the two
/// values alone. Two texts are equal if they have the same characters. On values that
/// hold floating-point numbers it is not the identity.
#[verifier::external_body]
fn same_value(left: &RbxValue, right: &RbxValue) -> (same: bool)
    ensures
        same == value_equal(*left, *right),
        forall|a: Seq<char>, b: Seq<char>|
            #![trigger text_value(a), text_value(b)]
            *left == text_value(a) && *right == text_value(b) ==> same == (a == b),
{
    left == right
}

/// A property: a name and the value assigned to it.
#[derive(Debug)]
pub struct Property {
    pub name: String,
    pub value: RbxValue,
}

/// Properties by name.
pub type PropertyMap = Map<Seq<char>, RbxValue>;

/// The assignments made by a list of properties, in order: where a name
/// occurs twice, the later value holds.
pub open spec fn property_map(list: Seq<Property>) -> PropertyMap
    decreases list.len(),
{
    if list.len() == 0 {
        Map::empty()
    } else {
        property_map(list.drop_last()).insert(list.last().name@, list.last().value)
    }
}

/// Copies a list of properties.
pub fn copy_properties(list: &Vec<Property>) -> (copy: Vec<Property>)
    ensures
        property_map(copy@) == property_map(list@),
{
    let mut copy: Vec<Property> = Vec::new();
    let mut i: usize = 0;
    while i < list.len()
        invariant
            i <= list.len(),
            property_map(copy@) == property_map(list@.take(i as int)),
        decreases list.len() - i,
    {
        let ghost before = copy@;
        copy.push(Property { name: list[i].name.clone(), value: list[i].value.clone() });
        assert(copy@.drop_last() =~= before);
        assert(list@.take(i + 1).drop_last() =~= list@.take(i as int));
        i += 1;
    }
    assert(list@.take(i as int) =~= list@);
    copy
}

/// The list that assigns one value to one name.
pub fn single_property(name: &str, value: RbxValue) -> (list: Vec<Property>)
    ensures
        property_map(list@) == map![name@ => value],
{
    let mut list: Vec<Property> = Vec::new();
    list.push(Property { name: name.to_owned(), value });
    assert(list@.drop_last() =~= Seq::empty());
    assert(property_map(list@.drop_last()) =~= Map::empty());
    assert(property_map(list@) =~= map![name@ => value]);
    list
}

/// The value that a list of properties assigns to a name.
fn find_property<'a>(list: &'a Vec<Property>, name: &String) -> (value: Option<&'a RbxValue>)
    ensures
        match value {
            Some(value) => property_map(list@).contains_key(name@) && property_map(list@)[name@]
                == *value,
            None => !property_map(list@).contains_key(name@),
        },
{
    let mut found: Option<&RbxValue> = None;
    let mut i: usize = 0;
    while i < list.len()
        invariant
            i <= list.len(),
            match found {
                Some(value) => {
                    &&& property_map(list@.take(i as int)).contains_key(name@)
                    &&& property_map(list@.take(i as int))[name@] == *value
                },
                None => !property_map(list@.take(i as int)).contains_key(name@),
            },
        decreases list.len() - i,
    {
        assert(list@.take(i + 1).drop_last() =~= list@.take(i as int));
        assert(list@.take(i + 1).last() == list@[i as int]);
        if list[i].name == *name {
            found = Some(&list[i].value);
        }
        i += 1;
    }
    assert(list@.take(i as int) =~= list@);
    found
}

/// Whether two sets of properties assign the same values to the same names.
pub open spec fn same_properties(left: PropertyMap, right: PropertyMap) -> bool {
    &&& forall|name: Seq<char>| left.contains_key(name) <==> right.contains_key(name)
    &&& forall|name: Seq<char>| #[trigger]
        left.contains_key(name) ==> value_equal(left[name], right[name])
}

/// Whether no name is assigned two different texts.
pub open spec fn texts_agree(left: PropertyMap, right: PropertyMap) -> bool {
    forall|name: Seq<char>, a: Seq<char>, b: Seq<char>|
        #![trigger left[name], text_value(a), text_value(b)]
        left.contains_key(name) && right.contains_key(name) && left[name] == text_value(a)
            && right[name] == text_value(b) ==> a == b
}

/// Every name that a list of properties assigns to is the name of one of them.
proof fn lemma_property_listed(list: Seq<Property>, name: Seq<char>)
    requires
        property_map(list).contains_key(name),
    ensures
        exists|i: int| 0 <= i < list.len() && (#[trigger] list[i]).name@ == name,
    decreases list.len(),
{
    if list.last().name@ == name {
        assert(list[list.len() - 1].name@ == name);
    } else {
        lemma_property_listed(list.drop_last(), name);
        let i = choose|i: int|
            0 <= i < list.drop_last().len() && (#[trigger] list.drop_last()[i]).name@ == name;
        assert(list[i].name@ == name);
    }
}

/// The name of a listed property is assigned to.
proof fn lemma_property_assigned(list: Seq<Property>, i: int)
    requires
        0 <= i < list.len(),
    ensures
        property_map(list).contains_key(list[i].name@),
    decreases list.len(),
{
    if i < list.len() - 1 {
        lemma_property_assigned(list.drop_last(), i);
    }
}

/// Whether two lists of properties assign the same values to the same names.
pub fn properties_same(left: &Vec<Property>, right: &Vec<Property>) -> (same: bool)
    ensures
        same == same_properties(property_map(left@), property_map(right@)),
        same ==> texts_agree(property_map(left@), property_map(right@)),
{
    let ghost left_map = property_map(left@);
    let ghost right_map = property_map(right@);
    let mut i: usize = 0;
    while i < left.len()
        invariant
            i <= left.len(),
            left_map == property_map(left@),
            right_map == property_map(right@),
            forall|j: int|
                0 <= j < i ==> right_map.contains_key((#[trigger] left@[j]).name@)
                    && value_equal(left_map[left@[j].name@], right_map[left@[j].name@]),
            forall|j: int, a: Seq<char>, b: Seq<char>|
                #![trigger left@[j], text_value(a), text_value(b)]
                0 <= j < i && left_map[left@[j].name@] == text_value(a)
                    && right_map[left@[j].name@] == text_value(b) ==> a == b,
        decreases left.len() - i,
    {
        proof {
            lemma_property_assigned(left@, i as int);
        }
        match (find_property(left, &left[i].name), find_property(right, &left[i].name)) {
            (Some(ours), Some(theirs)) => {
                if !same_value(ours, theirs) {
                    return false;
                }
            },
            _ => {
                return false;
            },
        }
        i += 1;
    }
    let mut k: usize = 0;
    while k < right.len()
        invariant
            k <= right.len(),
            left_map == property_map(left@),
            right_map == property_map(right@),
            forall|j: int| 0 <= j < k ==> left_map.contains_key((#[trigger] right@[j]).name@),
        decreases right.len() - k,
    {
        proof {
            lemma_property_assigned(right@, k as int);
        }
        if find_property(left, &right[k].name).is_none() {
            return false;
        }
        k += 1;
    }
    proof {
        assert forall|name: Seq<char>| left_map.contains_key(name) implies right_map.contains_key(
            name,
        ) && value_equal(left_map[name], right_map[name]) by {
            lemma_property_listed(left@, name);
        }
        assert forall|name: Seq<char>, a: Seq<char>, b: Seq<char>|
            #![trigger left_map[name], text_value(a), text_value(b)]
            left_map.contains_key(name) && right_map.contains_key(name) && left_map[name]
                == text_value(a) && right_map[name] == text_value(b) implies a == b by {
            lemma_property_listed(left@, name);
            let j = choose|j: int| 0 <= j < left@.len() && (#[trigger] left@[j]).name@ == name;
            assert(left_map[left@[j].name@] == text_value(a));
        }
        assert forall|name: Seq<char>| right_map.contains_key(name) implies left_map.contains_key(
            name,
        ) by {
            lemma_property_listed(right@, name);
        }
    }
    true
}

} // verus!
