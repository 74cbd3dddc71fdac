//! Which instance a change concerns.
use crate::imfs::{root_for_path, FsView};
use crate::laws::components::law_parent;
use crate::laws::session::lemma_descended;
use crate::path::{has_file_name, starts_with, PathPart, PathView, WrittenPath};
use crate::path_map::{descended, descent, law_descent, law_removed};
use crate::reify::ChangesView;
use crate::session::{
    lemma_root, update_target, updates, SessionView, UpdatePanicView, UpdateResult,
};
use vstd::prelude::*;

verus! {

/// The root of a path is the first that the path lies under, and there is none only if the
/// path lies under no root.
pub proof fn law_root_for_path(roots: Seq<WrittenPath>, path: PathView)
    ensures
        match root_for_path(roots, path) {
            Some(root) => exists|i: int|
                {
                    &&& 0 <= i < roots.len()
                    &&& #[trigger] roots[i] == root
                    &&& starts_with(path, root.path)
                    &&& forall|j: int| 0 <= j < i ==> !starts_with(path, (#[trigger] roots[j]).path)
                },
            None => forall|i: int|
                0 <= i < roots.len() ==> !starts_with(path, (#[trigger] roots[i]).path),
        },
    decreases roots.len(),
{
    if roots.len() > 0 {
        let tail = roots.drop_first();
        law_root_for_path(tail, path);
        if starts_with(path, roots[0].path) {
            assert(roots[0] == root_for_path(roots, path)->0);
        } else {
            match root_for_path(roots, path) {
                Some(root) => {
                    let i = choose|i: int|
                        {
                            &&& 0 <= i < tail.len()
                            &&& #[trigger] tail[i] == root
                            &&& starts_with(path, root.path)
                            &&& forall|j: int|
                                0 <= j < i ==> !starts_with(path, (#[trigger] tail[j]).path)
                        };
                    assert(roots[i + 1] == root);
                    assert forall|j: int| 0 <= j < i + 1 implies !starts_with(
                        path,
                        (#[trigger] roots[j]).path,
                    ) by {
                        if j > 0 {
                            assert(tail[j - 1] == roots[j]);
                        }
                    }
                },
                None => {
                    assert forall|i: int| 0 <= i < roots.len() implies !starts_with(
                        path,
                        (#[trigger] roots[i]).path,
                    ) by {
                        if i > 0 {
                            assert(tail[i - 1] == roots[i]);
                        }
                    }
                },
            }
        }
    }
}

/// A change is outside of the roots if, and only if, its path lies under none of them.
pub proof fn law_outside_roots(
    fs: FsView,
    roots: Seq<WrittenPath>,
    path: PathView,
    before: SessionView,
    result: UpdateResult,
    after: SessionView,
)
    requires
        updates(fs, roots, path, before, result, after),
    ensures
        result == Err::<Option<ChangesView>, UpdatePanicView>(
            UpdatePanicView::OutsideRoots,
        ) <==> forall|i: int|
            0 <= i < roots.len() ==> !starts_with(path, (#[trigger] roots[i]).path),
{
    law_root_for_path(roots, path);
}

/// Whether `count` components of a path are the end of the way down: from the root on,
/// every path on the way is in `keys`, and the next one is not.
pub open spec fn ends_way(
    keys: Set<PathView>,
    root: PathView,
    path: PathView,
    count: int,
) -> bool {
    &&& root.len() <= count <= path.len()
    &&& forall|n: int| root.len() < n <= count ==> keys.contains(#[trigger] path.take(n))
    &&& count < path.len() ==> !keys.contains(path.take(count + 1))
}

/// Whether a name is that of an init script.
pub open spec fn is_init_script(path: PathView) -> bool {
    path.len() > 0 && (match path[path.len() - 1] {
        PathPart::Normal(name) => name == "init.lua"@ || name == "init.server.lua"@ || name
            == "init.client.lua"@,
        _ => false,
    })
}

/// A change concerns the instance at the end of the way down from the root to its path. The
/// snapshot is taken of that end or, if it is an init script, of the directory it is in,
/// written as the root is with the components behind it added one by one. There is nothing to concern if the path is under no root, if no instance stands for the end of
/// the way, or if the end has no name.
pub proof fn law_target(
    roots: Seq<WrittenPath>,
    paths: Map<PathView, u128>,
    path: PathView,
) -> (way: (int, int))
    ensures
        match update_target(roots, paths, path) {
            Err(UpdatePanicView::OutsideRoots) => forall|i: int|
                0 <= i < roots.len() ==> !starts_with(path, (#[trigger] roots[i]).path),
            found => {
                let root = roots[way.0];
                let reached = path.take(way.1);
                &&& 0 <= way.0 < roots.len()
                &&& starts_with(path, root.path)
                &&& forall|j: int|
                    0 <= j < way.0 ==> !starts_with(path, (#[trigger] roots[j]).path)
                &&& ends_way(paths.dom(), root.path, path, way.1)
                &&& match found {
                    Ok((id, target)) => {
                        &&& paths.contains_key(reached)
                        &&& paths[reached] == id
                        &&& has_file_name(reached)
                        &&& target.path == if is_init_script(reached) {
                            reached.drop_last()
                        } else {
                            reached
                        }
                        &&& target == if is_init_script(reached) {
                            root.with_parts(
                                path.subrange(root.path.len() as int, way.1),
                            ).parent()
                        } else {
                            root.with_parts(path.subrange(root.path.len() as int, way.1))
                        }
                    },
                    Err(UpdatePanicView::NoInstance) => !paths.contains_key(reached),
                    Err(UpdatePanicView::NoFileName) => paths.contains_key(reached)
                        && !has_file_name(reached),
                    Err(_) => false,
                }
            },
        },
{
    law_root_for_path(roots, path);
    match root_for_path(roots, path) {
        None => (0, 0),
        Some(root) => {
            lemma_root(roots, path);
            let i = choose|i: int|
                {
                    &&& 0 <= i < roots.len()
                    &&& #[trigger] roots[i] == root
                    &&& starts_with(path, root.path)
                    &&& forall|j: int| 0 <= j < i ==> !starts_with(path, (#[trigger] roots[j]).path)
                };
            law_descent(paths.dom(), root.path, path);
            lemma_descended(paths.dom(), root, path);
            let reached = descent(paths.dom(), root.path, path);
            assert(path.take(reached.len() as int) =~= reached);
            law_parent(descended(paths.dom(), root, path));
            (i, reached.len() as int)
        },
    }
}

/// There is only one end of the way down.
pub proof fn law_one_end(
    keys: Set<PathView>,
    root: PathView,
    path: PathView,
    count: int,
    other: int,
)
    requires
        ends_way(keys, root, path, count),
        ends_way(keys, root, path, other),
    ensures
        count == other,
{
    if count < other {
        assert(keys.contains(path.take(count + 1)));
    } else if other < count {
        assert(keys.contains(path.take(other + 1)));
    }
}

/// A session without a path notes nothing for the path and what lies below it, and is else
/// as it was.
pub proof fn law_without_path(session: SessionView, path: PathView, key: PathView)
    ensures
        session.without_path(path).instances == session.instances,
        session.without_path(path).root == session.root,
        session.without_path(path).metadata == session.metadata,
        session.without_path(path).points == session.points,
        session.without_path(path).paths.contains_key(key) <==> session.paths.contains_key(key)
            && !starts_with(key, path),
        session.without_path(path).paths.contains_key(key) ==> session.without_path(path).paths[key]
            == session.paths[key],
{
    law_removed(session.paths, path, key);
}

} // verus!
