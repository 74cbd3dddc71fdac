//! What a renaming announces.
use crate::imfs::FsView;
use crate::laws::changes::is_changed;
use crate::laws::session::law_update_announces;
use crate::met::unframed;
use crate::path::{PathView, WrittenPath};
use crate::reify::ChangesView;
use crate::session::{
    carefully_renames, messages_of, rename_result, renames, update_meets_only, updates,
    CheckedRenameView, RenameResult, SessionView, UpdatePanicView, UpdateResult,
};
use crate::tree::InstanceView;
use vstd::prelude::*;

verus! {

/// Whether a list holds the changes of two updates in order, as far as there are any.
pub open spec fn lists_both(
    messages: Seq<ChangesView>,
    first: Option<ChangesView>,
    second: Option<ChangesView>,
) -> bool {
    match (first, second) {
        (Some(one), Some(two)) => messages.len() == 2 && messages[0] == one && messages[1] == two,
        (Some(one), None) => messages.len() == 1 && messages[0] == one,
        (None, Some(two)) => messages.len() == 1 && messages[0] == two,
        (None, None) => messages.len() == 0,
    }
}

/// A renaming that succeeds is a change at the old path, of which nothing is noted any more,
/// and then one at the new path, and it announces what each of them announces, in order.
pub proof fn law_rename_lists_both(
    fs: FsView,
    roots: Seq<WrittenPath>,
    from: PathView,
    to: PathView,
    before: SessionView,
    messages: Seq<ChangesView>,
    after: SessionView,
) -> (way: (Option<ChangesView>, SessionView, Option<ChangesView>))
    requires
        renames(fs, roots, from, to, before, Ok(messages), after),
    ensures
        updates(fs, roots, from, before.without_path(from), Ok(way.0), way.1),
        updates(fs, roots, to, way.1, Ok(way.2), after),
        lists_both(messages, way.0, way.2),
{
    let result: RenameResult = Ok(messages);
    let (first, mid) = choose|first: UpdateResult, mid: SessionView|
        {
            &&& #[trigger] updates(fs, roots, from, before.without_path(from), first, mid)
            &&& first is Err ==> result is Err
            &&& first is Ok ==> exists|second: UpdateResult|
                {
                    &&& #[trigger] updates(fs, roots, to, mid, second, after)
                    &&& result == rename_result(first, second)
                }
        };
    let second = choose|second: UpdateResult|
        {
            &&& #[trigger] updates(fs, roots, to, mid, second, after)
            &&& result == rename_result(first, second)
        };
    (first->Ok_0, mid, second->Ok_0)
}

/// Whether one of the messages announces an instance as added, as removed, or as updated.
pub open spec fn tells_added(messages: Seq<ChangesView>, id: u128) -> bool {
    exists|i: int| 0 <= i < messages.len() && (#[trigger] messages[i]).added.contains(id)
}

pub open spec fn tells_removed(messages: Seq<ChangesView>, id: u128) -> bool {
    exists|i: int| 0 <= i < messages.len() && (#[trigger] messages[i]).removed.contains(id)
}

pub open spec fn tells_updated(messages: Seq<ChangesView>, id: u128) -> bool {
    exists|i: int| 0 <= i < messages.len() && (#[trigger] messages[i]).updated.contains(id)
}

/// Everything that a renaming changes is announced: every instance that has come, every one
/// that has gone, and every one that has another name, another class, or properties of other
/// names.
pub proof fn law_rename_announces(
    fs: FsView,
    roots: Seq<WrittenPath>,
    from: PathView,
    to: PathView,
    before: SessionView,
    messages: Seq<ChangesView>,
    after: SessionView,
    id: u128,
)
    requires
        renames(fs, roots, from, to, before, Ok(messages), after),
    ensures
        !before.instances.contains_key(id) && after.instances.contains_key(id) ==> tells_added(
            messages,
            id,
        ),
        before.instances.contains_key(id) && !after.instances.contains_key(id) ==> tells_removed(
            messages,
            id,
        ),
        before.instances.contains_key(id) && after.instances.contains_key(id) && {
            ||| before.instances[id].name != after.instances[id].name
            ||| before.instances[id].class_name != after.instances[id].class_name
            ||| before.instances[id].properties.dom() != after.instances[id].properties.dom()
        } ==> tells_updated(messages, id) || tells_removed(messages, id),
{
    let (first, mid, second) = law_rename_lists_both(
        fs,
        roots,
        from,
        to,
        before,
        messages,
        after,
    );
    let start = before.without_path(from);
    law_update_announces(fs, roots, from, start, Ok(first), mid, id);
    law_update_announces(fs, roots, to, mid, Ok(second), after, id);
    if let Some(one) = first {
        assert(messages[0] == one);
    }
    if let Some(two) = second {
        assert(messages[messages.len() - 1] == two);
    }
    if before.instances.contains_key(id) && mid.instances.contains_key(id) {
        lemma_other_names(before.instances[id], mid.instances[id]);
    }
    if mid.instances.contains_key(id) && after.instances.contains_key(id) {
        lemma_other_names(mid.instances[id], after.instances[id]);
    }
}

proof fn lemma_other_names(before: InstanceView, after: InstanceView)
    ensures
        before.properties.dom() != after.properties.dom() ==> is_changed(before, after),
{
    if before.properties.dom() != after.properties.dom() && !is_changed(before, after) {
        assert(before.properties.dom() =~= after.properties.dom());
    }
}

/// A renaming that fails tells what was announced before it failed: nothing, if the change
/// at the old path failed, and else what that announced.
pub proof fn law_rename_failure(
    fs: FsView,
    roots: Seq<WrittenPath>,
    from: PathView,
    to: PathView,
    before: SessionView,
    messages: Seq<ChangesView>,
    panic: UpdatePanicView,
    after: SessionView,
) -> (way: (UpdateResult, SessionView))
    requires
        renames(fs, roots, from, to, before, Err((messages, panic)), after),
    ensures
        updates(fs, roots, from, before.without_path(from), way.0, way.1),
        match way.0 {
            Err(failure) => failure == panic && messages.len() == 0 && after == way.1,
            Ok(first) => {
                &&& updates(fs, roots, to, way.1, Err(panic), after)
                &&& lists_both(messages, first, None)
            },
        },
{
    let result: RenameResult = Err((messages, panic));
    let (first, mid) = choose|first: UpdateResult, mid: SessionView|
        {
            &&& #[trigger] updates(fs, roots, from, before.without_path(from), first, mid)
            &&& first is Err ==> result == Err::<
                Seq<ChangesView>,
                (Seq<ChangesView>, UpdatePanicView),
            >((Seq::empty(), first->Err_0)) && after == mid
            &&& first is Ok ==> exists|second: UpdateResult|
                {
                    &&& #[trigger] updates(fs, roots, to, mid, second, after)
                    &&& result == rename_result(first, second)
                }
        };
    if first is Ok {
        let second = choose|second: UpdateResult|
            {
                &&& #[trigger] updates(fs, roots, to, mid, second, after)
                &&& result == rename_result(first, second)
            };
        assert(second == Err::<Option<ChangesView>, UpdatePanicView>(panic));
    }
    (first, mid)
}

/// A careful renaming that is done is a renaming. One that stops halfway has made the change
/// at the old path, announces what that announces, and would have met a framed model at the
/// new path. One that is refused has done nothing, and would have met one at the old path.
pub proof fn law_careful_rename(
    fs: FsView,
    roots: Seq<WrittenPath>,
    from: PathView,
    to: PathView,
    before: SessionView,
    checked: CheckedRenameView,
    after: SessionView,
) -> (first: Option<ChangesView>)
    requires
        carefully_renames(fs, roots, from, to, before, checked, after),
    ensures
        match checked {
            CheckedRenameView::Done(result) => {
                &&& renames(fs, roots, from, to, before, result, after)
                &&& update_meets_only(unframed(), fs, roots, from, before.without_path(from))
            },
            CheckedRenameView::Halfway(messages) => {
                &&& updates(fs, roots, from, before.without_path(from), Ok(first), after)
                &&& lists_both(messages, first, None)
                &&& update_meets_only(unframed(), fs, roots, from, before.without_path(from))
                &&& !update_meets_only(unframed(), fs, roots, to, after)
            },
            CheckedRenameView::Refused => {
                &&& after == before
                &&& !update_meets_only(unframed(), fs, roots, from, before.without_path(from))
            },
        },
{
    if checked is Refused {
        None
    } else {
        let start = before.without_path(from);
        let (first, mid) = choose|first: UpdateResult, mid: SessionView|
            {
                &&& #[trigger] updates(fs, roots, from, start, first, mid)
                &&& first is Err ==> after == mid && checked == CheckedRenameView::Done(
                    Err((Seq::empty(), first->Err_0)),
                )
                &&& first is Ok && update_meets_only(unframed(), fs, roots, to, mid) ==> exists|
                    second: UpdateResult,
                |
                    {
                        &&& #[trigger] updates(fs, roots, to, mid, second, after)
                        &&& checked == CheckedRenameView::Done(rename_result(first, second))
                    }
                &&& first is Ok && !update_meets_only(unframed(), fs, roots, to, mid) ==> after
                    == mid && checked == CheckedRenameView::Halfway(messages_of(first))
            };
        assert(updates(fs, roots, from, start, first, mid));
        match first {
            Ok(changes) => changes,
            Err(_) => None,
        }
    }
}

} // verus!
