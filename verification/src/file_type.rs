//! What a file stands for, told by its name.
use crate::imfs::ImfsFile;
use crate::path::{name_text, PathView};
use vstd::prelude::*;
use vstd::string::StringSliceAdditionalSpecFns;
use vstd::utf8::*;

verus! {

/// The kinds of file that give an instance.
#[derive(Debug, Clone, Copy, PartialEq, Eq, Structural)]
pub enum FileType {
    ModuleScript,
    ServerScript,
    ClientScript,
    StringValue,
    LocalizationTable,
    XmlModel,
    BinaryModel,
}

/// Whether `text` ends in `trailer`.
pub open spec fn ends_with(text: Seq<char>, trailer: Seq<char>) -> bool {
    trailer.len() <= text.len() && text.skip(text.len() - trailer.len()) == trailer
}

/// What stands before a trailer of `text`.
pub open spec fn before_trailer(text: Seq<char>, trailer: Seq<char>) -> Seq<char> {
    text.take(text.len() - trailer.len())
}

/// Where the encoding of a text begins behind other text, a character begins.
proof fn lemma_boundary(bytes: Seq<u8>, at: int, tail: Seq<char>)
    requires
        valid_utf8(bytes),
        0 <= at <= bytes.len(),
        bytes.skip(at) == encode_utf8(tail),
    ensures
        is_char_boundary(bytes, at),
{
    let encoded = encode_utf8(tail);
    if encoded.len() == 0 {
        assert(at == bytes.len());
        is_char_boundary_start_end_of_seq(bytes);
    } else {
        encode_utf8_valid_utf8(tail);
        is_char_boundary_start_end_of_seq(encoded);
        assert(bytes.skip(at)[0] == bytes[at]);
        is_char_boundary_iff_not_is_continuation_byte(encoded, 0);
        is_char_boundary_iff_not_is_continuation_byte(bytes, at);
    }
}

/// The encoding of two texts one after the other.
proof fn lemma_encode_concat(head: Seq<char>, tail: Seq<char>)
    ensures
        encode_utf8(head + tail) == encode_utf8(head) + encode_utf8(tail),
{
    let first = encode_utf8(head);
    let second = encode_utf8(tail);
    let both = first + second;
    encode_utf8_valid_utf8(head);
    encode_utf8_valid_utf8(tail);
    valid_utf8_concat(first, second);
    assert(both.skip(first.len() as int) =~= second);
    lemma_boundary(both, first.len() as int, tail);
    assert(both.subrange(0, first.len() as int) =~= first);
    assert(both.subrange(first.len() as int, both.len() as int) =~= second);
    decode_utf8_split(both, first.len() as int);
    encode_utf8_decode_utf8(head);
    encode_utf8_decode_utf8(tail);
    decode_utf8_encode_utf8(both);
}

/// What stands before `trailer`, if `input` ends in it.
pub fn get_trailing<'a>(input: &'a str, trailer: &str) -> (head: Option<&'a str>)
    ensures
        match head {
            Some(head) => ends_with(input@, trailer@) && head@ == before_trailer(input@, trailer@),
            None => !ends_with(input@, trailer@),
        },
{
    let bytes = input.as_bytes();
    let wanted = trailer.as_bytes();
    proof {
        encode_utf8_valid_utf8(input@);
        if ends_with(input@, trailer@) {
            let head = before_trailer(input@, trailer@);
            lemma_encode_concat(head, trailer@);
            assert(head + trailer@ =~= input@);
            assert(bytes@.skip(bytes@.len() - wanted@.len()) =~= wanted@);
        }
    }
    if bytes.len() < wanted.len() {
        return None;
    }
    let end = bytes.len() - wanted.len();
    let mut i: usize = 0;
    while i < wanted.len()
        invariant
            i <= wanted.len(),
            end == bytes.len() - wanted.len(),
            forall|j: int| 0 <= j < i ==> #[trigger] wanted@[j] == bytes@[end + j],
            ends_with(input@, trailer@) ==> bytes@.skip(end as int) == wanted@,
        decreases wanted.len() - i,
    {
        assert(bytes@.skip(end as int)[i as int] == bytes@[end + i]);
        if bytes[end + i] != wanted[i] {
            return None;
        }
        i += 1;
    }
    proof {
        assert(bytes@.skip(end as int) =~= wanted@);
        lemma_boundary(bytes@, end as int, trailer@);
        decode_utf8_split(bytes@, end as int);
        assert(bytes@.subrange(end as int, bytes@.len() as int) =~= wanted@);
        encode_utf8_decode_utf8(input@);
        encode_utf8_decode_utf8(trailer@);
    }
    let (head, _) = input.split_at(end);
    proof {
        encode_utf8_decode_utf8(head@);
        assert(input@ == head@ + trailer@);
        assert(input@.skip(head@.len() as int) =~= trailer@);
        assert(input@.take(head@.len() as int) =~= head@);
    }
    Some(head)
}

/// What a file of a given name stands for: the name of the instance, which is
/// what stands before the extension, and the kind of file. The longer of two
/// extensions counts.
pub open spec fn classify_name(name: Seq<char>) -> Option<(Seq<char>, FileType)> {
    if ends_with(name, ".server.lua"@) {
        Some((before_trailer(name, ".server.lua"@), FileType::ServerScript))
    } else if ends_with(name, ".client.lua"@) {
        Some((before_trailer(name, ".client.lua"@), FileType::ClientScript))
    } else if ends_with(name, ".lua"@) {
        Some((before_trailer(name, ".lua"@), FileType::ModuleScript))
    } else if ends_with(name, ".csv"@) {
        Some((before_trailer(name, ".csv"@), FileType::LocalizationTable))
    } else if ends_with(name, ".txt"@) {
        Some((before_trailer(name, ".txt"@), FileType::StringValue))
    } else if ends_with(name, ".rbxmx"@) {
        Some((before_trailer(name, ".rbxmx"@), FileType::XmlModel))
    } else if ends_with(name, ".rbxm"@) {
        Some((before_trailer(name, ".rbxm"@), FileType::BinaryModel))
    } else {
        None
    }
}

/// What the file at a path stands for; nothing, if its name is no text.
pub open spec fn classify(path: PathView) -> Option<(Seq<char>, FileType)> {
    match name_text(path) {
        Some(name) => classify_name(name),
        None => None,
    }
}

/// What a file stands for.
pub fn classify_file(file: &ImfsFile) -> (class: Option<(&str, FileType)>)
    ensures
        match class {
            Some((name, file_type)) => classify(file.path@) == Some((name@, file_type)),
            None => classify(file.path@) is None,
        },
{
    let file_name = match file.path.name_text() {
        Some(name) => name,
        None => return None,
    };
    if let Some(name) = get_trailing(file_name, ".server.lua") {
        return Some((name, FileType::ServerScript));
    }
    if let Some(name) = get_trailing(file_name, ".client.lua") {
        return Some((name, FileType::ClientScript));
    }
    if let Some(name) = get_trailing(file_name, ".lua") {
        return Some((name, FileType::ModuleScript));
    }
    if let Some(name) = get_trailing(file_name, ".csv") {
        return Some((name, FileType::LocalizationTable));
    }
    if let Some(name) = get_trailing(file_name, ".txt") {
        return Some((name, FileType::StringValue));
    }
    if let Some(name) = get_trailing(file_name, ".rbxmx") {
        return Some((name, FileType::XmlModel));
    }
    if let Some(name) = get_trailing(file_name, ".rbxm") {
        return Some((name, FileType::BinaryModel));
    }
    None
}

/// The extension of a kind of file.
pub open spec fn extension(file_type: FileType) -> Seq<char> {
    match file_type {
        FileType::ServerScript => ".server.lua"@,
        FileType::ClientScript => ".client.lua"@,
        FileType::ModuleScript => ".lua"@,
        FileType::LocalizationTable => ".csv"@,
        FileType::StringValue => ".txt"@,
        FileType::XmlModel => ".rbxmx"@,
        FileType::BinaryModel => ".rbxm"@,
    }
}

/// The name of a file that stands for an instance is the name of the instance with
/// the extension of its kind behind it.
pub proof fn law_classified_name(name: Seq<char>)
    ensures
        classify_name(name) matches Some((stem, file_type)) ==> name == stem + extension(
            file_type,
        ),
{
    if let Some((stem, file_type)) = classify_name(name) {
        assert(name =~= stem + extension(file_type));
    }
}

proof fn lemma_last(text: Seq<char>, trailer: Seq<char>, back: int)
    requires
        ends_with(text, trailer),
        0 < back <= trailer.len(),
    ensures
        text[text.len() - back] == trailer[trailer.len() - back],
{
    assert(text.skip(text.len() - trailer.len())[trailer.len() - back] == text[text.len() - back]);
}

/// A name with the extension of a kind of file behind it stands for an instance of
/// that name and kind. The one thing in the way is that a module script whose name
/// ends in `.server` or `.client` is no module script.
pub proof fn law_name_with_extension(stem: Seq<char>, file_type: FileType)
    requires
        file_type is ModuleScript ==> !ends_with(stem, ".server"@) && !ends_with(
            stem,
            ".client"@,
        ),
    ensures
        classify_name(stem + extension(file_type)) == Some((stem, file_type)),
{
    reveal_strlit(".server.lua");
    reveal_strlit(".client.lua");
    reveal_strlit(".server");
    reveal_strlit(".client");
    reveal_strlit(".lua");
    reveal_strlit(".csv");
    reveal_strlit(".txt");
    reveal_strlit(".rbxmx");
    reveal_strlit(".rbxm");
    let end = extension(file_type);
    let name = stem + end;
    assert(name.skip(name.len() - end.len()) =~= end);
    assert(before_trailer(name, end) =~= stem);
    assert(name[name.len() - 1] == end[end.len() - 1]);
    if ends_with(name, ".server.lua"@) {
        lemma_last(name, ".server.lua"@, 1);
        lemma_last(name, ".server.lua"@, 5);
        if file_type is ModuleScript {
            assert(stem.skip(stem.len() - 7) =~= ".server"@) by {
                assert forall|i: int| 0 <= i < 7 implies stem.skip(stem.len() - 7)[i]
                    == ".server"@[i] by {
                    lemma_last(name, ".server.lua"@, 11 - i);
                }
            }
        } else if file_type is ClientScript {
            assert(name[name.len() - 5] == end[end.len() - 5]);
        }
    }
    if ends_with(name, ".client.lua"@) {
        lemma_last(name, ".client.lua"@, 1);
        lemma_last(name, ".client.lua"@, 5);
        if file_type is ModuleScript {
            assert(stem.skip(stem.len() - 7) =~= ".client"@) by {
                assert forall|i: int| 0 <= i < 7 implies stem.skip(stem.len() - 7)[i]
                    == ".client"@[i] by {
                    lemma_last(name, ".client.lua"@, 11 - i);
                }
            }
        }
    }
    if ends_with(name, ".lua"@) {
        lemma_last(name, ".lua"@, 1);
    }
    if ends_with(name, ".csv"@) {
        lemma_last(name, ".csv"@, 1);
    }
    if ends_with(name, ".txt"@) {
        lemma_last(name, ".txt"@, 1);
    }
    if ends_with(name, ".rbxmx"@) {
        lemma_last(name, ".rbxmx"@, 1);
    }
    if ends_with(name, ".rbxm"@) {
        lemma_last(name, ".rbxm"@, 1);
    }
}

} // verus!
