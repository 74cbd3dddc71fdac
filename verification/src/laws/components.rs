//! Paths in terms of their components, and how they are written.
use crate::path::{
    has_file_name, has_parent, in_one, join, name_text, part_text, plainly, starts_with, FilePath,
    PathComponent, PathPart, PathView, Separator, WrittenPath,
};
use vstd::prelude::*;

verus! {

/// The name of a path is its last component, if that is a name in Unicode.
pub proof fn law_name_text(path: PathView, name: Seq<char>)
    ensures
        name_text(path) == Some(name) <==> path.len() > 0 && path[path.len() - 1]
            == PathPart::Normal(name),
        name_text(path.push(PathPart::Normal(name))) == Some(name),
        has_file_name(path) <==> path.len() > 0 && match path[path.len() - 1] {
            PathPart::Normal(_) => true,
            PathPart::Opaque(_) => true,
            _ => false,
        },
{
}

/// A path starts with another if it is that path with more components behind it.
pub proof fn law_starts_with(path: PathView, prefix: PathView, more: PathView)
    ensures
        starts_with(path, prefix) <==> prefix.len() <= path.len() && forall|i: int|
            0 <= i < prefix.len() ==> #[trigger] path[i] == prefix[i],
        starts_with(prefix + more, prefix),
        starts_with(path, prefix) ==> path == prefix + path.skip(prefix.len() as int),
{
    let start = path.take(prefix.len() as int);
    if prefix.len() <= path.len() && forall|i: int|
        0 <= i < prefix.len() ==> #[trigger] path[i] == prefix[i] {
        assert(start =~= prefix);
    }
    if starts_with(path, prefix) {
        assert forall|i: int| 0 <= i < prefix.len() implies #[trigger] path[i] == prefix[i] by {
            assert(start[i] == path[i]);
        }
        assert(path =~= prefix + path.skip(prefix.len() as int));
    }
    assert((prefix + more).take(prefix.len() as int) =~= prefix);
}

/// The entry `name` below a path has the components of the path and its name behind them.
pub proof fn law_join(path: PathView, name: Seq<char>)
    ensures
        join(path, name).len() == path.len() + 1,
        join(path, name)[path.len() as int] == PathPart::Normal(name),
        forall|i: int| 0 <= i < path.len() ==> #[trigger] join(path, name)[i] == path[i],
        starts_with(join(path, name), path),
        name_text(join(path, name)) == Some(name),
{
    assert(join(path, name).take(path.len() as int) =~= path);
}

/// A path has one component for each that it is made of, and these are what they say.
pub proof fn law_path_view(path: FilePath)
    ensures
        path@.len() == path.components.len(),
        path.written().path == path@,
        path.written().rest == path.rest@,
        path.written().separator == path.separator,
        path.written().pieces.len() == path.pieces.len(),
        forall|i: int|
            0 <= i < path.pieces.len() ==> #[trigger] path.written().pieces[i] == path.pieces@[i]@,
        forall|i: int|
            0 <= i < path.components.len() ==> (#[trigger] path@[i]) == match path.components@[i] {
                PathComponent::Prefix(name) => PathPart::Prefix(name@),
                PathComponent::RootDir => PathPart::RootDir,
                PathComponent::CurDir => PathPart::CurDir,
                PathComponent::ParentDir => PathPart::ParentDir,
                PathComponent::Normal(name) => PathPart::Normal(name@),
                PathComponent::Opaque(bytes) => PathPart::Opaque(bytes@),
            },
{
}

/// Pieces of text are put together in order.
pub proof fn law_in_one(left: Seq<Seq<char>>, piece: Seq<char>, right: Seq<Seq<char>>)
    ensures
        in_one(left + right) == in_one(left) + in_one(right),
        in_one(seq![piece]) == piece,
        in_one(Seq::empty()) == Seq::<char>::empty(),
    decreases right.len(),
{
    assert(seq![piece].drop_last() =~= Seq::<Seq<char>>::empty());
    assert(in_one(seq![piece].drop_last()) =~= Seq::<char>::empty());
    assert(seq![piece].last() == piece);
    assert(in_one(seq![piece]) =~= piece);
    if right.len() == 0 {
        assert(left + right =~= left);
        assert(in_one(left) + in_one(right) =~= in_one(left));
    } else {
        assert((left + right).drop_last() =~= left + right.drop_last());
        law_in_one(left, piece, right.drop_last());
        assert(in_one(left + right) =~= in_one(left) + in_one(right));
    }
}

/// How components are written: names as they are, and the others as usual.
pub proof fn law_part_text(name: Seq<char>)
    ensures
        part_text(PathPart::Normal(name)) == name,
        part_text(PathPart::Prefix(name)) == name,
        part_text(PathPart::RootDir) == seq!['/'],
        part_text(PathPart::CurDir) == seq!['.'],
        part_text(PathPart::ParentDir) == seq!['.', '.'],
{
    reveal_strlit("/");
    reveal_strlit(".");
    reveal_strlit("..");
    assert(part_text(PathPart::RootDir) =~= seq!['/']);
    assert(part_text(PathPart::CurDir) =~= seq!['.']);
    assert(part_text(PathPart::ParentDir) =~= seq!['.', '.']);
}

/// The text of a path is its pieces one after the other, and what is written behind them.
pub proof fn law_text(path: WrittenPath, start: Seq<Seq<char>>, piece: Seq<char>)
    requires
        path.pieces == start.push(piece),
    ensures
        path.text() == in_one(start) + piece + path.rest,
        (WrittenPath { pieces: Seq::empty(), ..path }).text() == path.rest,
{
    assert(path.pieces.drop_last() =~= start);
    assert(path.text() =~= in_one(start) + piece + path.rest);
    assert(WrittenPath { pieces: Seq::empty(), ..path }.text() =~= path.rest);
}

/// A component that is added is written behind the path, and a separator between the two,
/// unless the path is empty, ends in a separator, or is a drive.
pub proof fn law_added_text(path: WrittenPath, part: PathPart)
    ensures
        ({
            let text = path.text();
            let mark = if path.separator == Separator::Slash {
                '/'
            } else {
                '\\'
            };
            let is_drive = path.path.len() == 1 && path.rest.len() == 0 && (match path.path[0] {
                PathPart::Prefix(name) => name.len() == 2,
                _ => false,
            });
            let longer = path.with_part(part);
            &&& longer.path == path.path.push(part)
            &&& longer.separator == path.separator
            &&& longer.rest == Seq::<char>::empty()
            &&& longer.text() == if text.len() == 0 || text[text.len() - 1] == '/'
                || text[text.len() - 1] == mark || is_drive {
                text + part_text(part)
            } else {
                text + seq![mark] + part_text(part)
            }
        }),
        forall|name: Seq<char>| #[trigger]
            path.joined(name) == path.with_part(PathPart::Normal(name)),
{
    let longer = path.with_part(part);
    assert(longer.pieces.drop_last() =~= path.pieces);
    assert(longer.text() =~= in_one(path.pieces) + longer.pieces.last());
    let mark = path.separator.mark();
    assert(in_one(path.pieces) + (path.rest + part_text(part)) =~= path.text() + part_text(part));
    assert(in_one(path.pieces) + (path.rest.push(mark) + part_text(part)) =~= path.text() + seq![
        mark,
    ] + part_text(part));
}

/// Components are added one after the other.
pub proof fn law_with_parts(path: WrittenPath, parts: Seq<PathPart>, part: PathPart)
    ensures
        path.with_parts(Seq::empty()) == path,
        path.with_parts(parts.push(part)) == path.with_parts(parts).with_part(part),
        path.with_parts(parts).path == path.path + parts,
    decreases parts.len(),
{
    assert(parts.push(part).drop_last() =~= parts);
    if parts.len() == 0 {
        assert(path.path + parts =~= path.path);
    } else {
        law_with_parts(path, parts.drop_last(), part);
        assert(path.with_parts(parts).path =~= path.path + parts);
    }
}

/// The parent of a path is written as the path up to the component before the last. A root
/// and a prefix have no parent.
pub proof fn law_parent(path: WrittenPath)
    ensures
        has_parent(path.path) <==> path.path.len() > 0 && match path.path[path.path.len() - 1] {
            PathPart::RootDir => false,
            PathPart::Prefix(_) => false,
            _ => true,
        },
        !has_parent(path.path) ==> path.parent() == path,
        has_parent(path.path) ==> {
            &&& path.parent().path == path.path.drop_last()
            &&& path.parent().separator == path.separator
            &&& path.pieces.len() > 0 ==> path.text() == path.parent().text()
                + path.pieces[path.pieces.len() - 1] + path.rest
        },
{
    if has_parent(path.path) {
        assert(path.parent().text() =~= in_one(path.parent().pieces));
        if path.pieces.len() > 0 {
            assert(path.text() =~= in_one(path.pieces.drop_last()) + path.pieces.last()
                + path.rest);
        }
    }
}

/// A path that is written plainly has a slash between names, and no other.
pub proof fn law_plainly(path: PathView, part: PathPart)
    ensures
        plainly(path).path == path,
        plainly(Seq::empty()).text() == Seq::<char>::empty(),
        plainly(path.push(part)).text() == plainly(path).text() + if path.len() == 0 || (
        match path[path.len() - 1] {
            PathPart::RootDir => true,
            PathPart::Prefix(_) => true,
            _ => false,
        }) {
            part_text(part)
        } else {
            seq!['/'] + part_text(part)
        },
{
    reveal_strlit("/");
    let longer = plainly(path.push(part));
    assert(plainly(Seq::empty()).pieces =~= Seq::empty());
    assert(plainly(Seq::empty()).text() =~= Seq::<char>::empty());
    assert(longer.pieces.drop_last() =~= plainly(path).pieces);
    assert("/"@ =~= seq!['/']);
    assert(longer.text() =~= in_one(plainly(path).pieces) + longer.pieces.last());
    assert(plainly(path).text() =~= in_one(plainly(path).pieces));
}

} // verus!
