//! What the files of each kind give, by their names.
use crate::failure::{ErrorView, FailureView, PanicView};
use crate::file_type::{
    before_trailer, classify, classify_name, ends_with, extension, law_name_with_extension,
    FileType,
};
use crate::filter_plugin::is_filtered;
use crate::imfs::FileView;
use crate::localization::table_contents;
use crate::model::{
    binary_model_result, binary_outcomes, is_binary_outcome, model_result, outcome_result, shows,
    xml_decoding,
};
use crate::path::{name_text, PathPart, PathView};
use crate::rbx_snapshot::SnapshotView;
use crate::sync_point::PointsView;
use crate::text::{law_valid_length, utf8_error_text};
use crate::tree::InstanceMap;
use crate::value::text_value;
use crate::walk::{file_snapshots, is_init_name, SnapResult};
use vstd::prelude::*;
use vstd::utf8::{decode_utf8, valid_utf8};

verus! {

/// The names that decide what a directory is are `init.lua`, `init.server.lua` and
/// `init.client.lua`, and no others.
pub proof fn law_init_names(name: Seq<char>)
    ensures
        is_init_name(name) <==> {
            ||| name == "init.lua"@
            ||| name == "init.server.lua"@
            ||| name == "init.client.lua"@
        },
{
}

/// No file whose name ends in `.lua` is an init script, unless what comes before is `init`,
/// `init.server` or `init.client`.
pub proof fn law_other_scripts(stem: Seq<char>)
    ensures
        is_init_name(stem + ".client.lua"@) ==> stem == "init"@,
        is_init_name(stem + ".server.lua"@) ==> stem == "init"@,
        is_init_name(stem + ".lua"@) ==> stem == "init"@ || stem == "init.server"@ || stem
            == "init.client"@,
{
    reveal_strlit("init");
    reveal_strlit("init.server");
    reveal_strlit("init.client");
    reveal_strlit("init.lua");
    reveal_strlit("init.server.lua");
    reveal_strlit("init.client.lua");
    reveal_strlit(".lua");
    reveal_strlit(".server.lua");
    reveal_strlit(".client.lua");
    let client = stem + ".client.lua"@;
    let server = stem + ".server.lua"@;
    let module = stem + ".lua"@;
    if is_init_name(client) {
        assert(stem =~= client.take(client.len() - 11));
        assert(client.skip(client.len() - 11) =~= ".client.lua"@);
        assert(client[client.len() - 5] == 't');
        assert(client.len() == 15);
        assert(stem =~= "init"@);
    }
    if is_init_name(server) {
        assert(stem =~= server.take(server.len() - 11));
        assert(server[server.len() - 5] == 'r');
        assert(server[server.len() - 6] == 'e');
        assert(server.len() == 15);
        assert(stem =~= "init"@);
    }
    if is_init_name(module) {
        assert(stem =~= module.take(module.len() - 4));
        if module == "init.lua"@ {
            assert(stem =~= "init"@);
        } else if module == "init.server.lua"@ {
            assert(stem =~= "init.server"@);
        } else {
            assert(stem =~= "init.client"@);
        }
    }
}

/// A text ends in a trailer if, and only if, it is some text with the trailer behind it, and
/// that is what stands before the trailer.
pub proof fn law_trailer(text: Seq<char>, trailer: Seq<char>, head: Seq<char>)
    ensures
        ends_with(text, trailer) <==> trailer.len() <= text.len() && forall|i: int|
            0 <= i < trailer.len() ==> #[trigger] trailer[i] == text[text.len() - trailer.len()
                + i],
        ends_with(head + trailer, trailer),
        before_trailer(head + trailer, trailer) == head,
        ends_with(text, trailer) ==> text == before_trailer(text, trailer) + trailer,
{
    let both = head + trailer;
    assert(both.skip(both.len() - trailer.len()) =~= trailer);
    assert(before_trailer(both, trailer) =~= head);
    if trailer.len() <= text.len() {
        let end = text.skip(text.len() - trailer.len());
        if forall|i: int|
            0 <= i < trailer.len() ==> #[trigger] trailer[i] == text[text.len() - trailer.len()
                + i] {
            assert(end =~= trailer);
        }
        if ends_with(text, trailer) {
            assert forall|i: int| 0 <= i < trailer.len() implies #[trigger] trailer[i]
                == text[text.len() - trailer.len() + i] by {
                assert(end[i] == trailer[i]);
            }
            assert(text =~= before_trailer(text, trailer) + trailer);
        }
    }
}

/// What a file is for follows from how its name ends. What comes before the extension is the
/// name of the instance.
pub proof fn law_extensions(stem: Seq<char>)
    ensures
        classify_name(stem + ".server.lua"@) == Some((stem, FileType::ServerScript)),
        classify_name(stem + ".client.lua"@) == Some((stem, FileType::ClientScript)),
        !ends_with(stem, ".server"@) && !ends_with(stem, ".client"@) ==> classify_name(
            stem + ".lua"@,
        ) == Some((stem, FileType::ModuleScript)),
        classify_name(stem + ".csv"@) == Some((stem, FileType::LocalizationTable)),
        classify_name(stem + ".txt"@) == Some((stem, FileType::StringValue)),
        classify_name(stem + ".rbxmx"@) == Some((stem, FileType::XmlModel)),
        classify_name(stem + ".rbxm"@) == Some((stem, FileType::BinaryModel)),
{
    law_name_with_extension(stem, FileType::ServerScript);
    law_name_with_extension(stem, FileType::ClientScript);
    if !ends_with(stem, ".server"@) && !ends_with(stem, ".client"@) {
        law_name_with_extension(stem, FileType::ModuleScript);
    }
    law_name_with_extension(stem, FileType::LocalizationTable);
    law_name_with_extension(stem, FileType::StringValue);
    law_name_with_extension(stem, FileType::XmlModel);
    law_name_with_extension(stem, FileType::BinaryModel);
}

/// A file stands for nothing if, and only if, its name has none of the extensions, or is no
/// text.
pub proof fn law_no_extension(path: PathView)
    ensures
        classify(path) is None <==> {
            ||| path.len() == 0
            ||| match path[path.len() - 1] {
                PathPart::Normal(name) => {
                    &&& !ends_with(name, ".lua"@)
                    &&& !ends_with(name, ".csv"@)
                    &&& !ends_with(name, ".txt"@)
                    &&& !ends_with(name, ".rbxmx"@)
                    &&& !ends_with(name, ".rbxm"@)
                },
                _ => true,
            }
        },
        path.len() > 0 ==> (path[path.len() - 1] matches PathPart::Normal(name) ==> classify(path)
            == classify_name(name)),
{
    if let Some(name) = name_text(path) {
        reveal_strlit(".lua");
        reveal_strlit(".server.lua");
        reveal_strlit(".client.lua");
        if ends_with(name, ".server.lua"@) {
            law_trailer(name, ".server.lua"@, name);
            law_trailer(name, ".lua"@, name);
            assert(".server.lua"@.skip(7) =~= ".lua"@);
            assert(name.skip(name.len() - 4) =~= name.skip(name.len() - 11).skip(7));
        }
        if ends_with(name, ".client.lua"@) {
            assert(".client.lua"@.skip(7) =~= ".lua"@);
            assert(name.skip(name.len() - 4) =~= name.skip(name.len() - 11).skip(7));
        }
    }
}

/// The name of the instance at a path whose own name is `stem`: the one that is remembered,
/// if there is one.
pub open spec fn given_name(points: PointsView, path: PathView, stem: Seq<char>) -> Seq<char> {
    if points.contains_key(path) {
        points[path].instance_name
    } else {
        stem
    }
}

/// Whether a file gives an instance with a class and one property, the text of the file, or
/// the error that it is no text.
pub open spec fn gives_text(
    file: FileView,
    name: Seq<char>,
    class_name: Seq<char>,
    property: Seq<char>,
    result: SnapResult,
) -> bool {
    if valid_utf8(file.contents) {
        gives_value(file, name, class_name, property, decode_utf8(file.contents), result)
    } else {
        gives_no_text(file, result)
    }
}

/// Whether there is an instance with a class and one text property, without children, that
/// comes from a file.
pub open spec fn gives_value(
    file: FileView,
    name: Seq<char>,
    class_name: Seq<char>,
    property: Seq<char>,
    text: Seq<char>,
    result: SnapResult,
) -> bool {
    match result {
        Ok(Some(snapshot)) => {
            &&& snapshot.name == name
            &&& snapshot.class_name == class_name
            &&& snapshot.properties.dom() == set![property]
            &&& snapshot.properties[property] == text_value(text)
            &&& snapshot.children.len() == 0
            &&& snapshot.source_path == Some(file.path.path)
            &&& snapshot.metadata is None
        },
        _ => false,
    }
}

/// Whether there is the error that a file is no text, which tells how much of it is.
pub open spec fn gives_no_text(file: FileView, result: SnapResult) -> bool {
    match result {
        Err(FailureView::Error(ErrorView::Utf8Error { inner, path })) => {
            &&& path == file.path
            &&& inner.message == utf8_error_text(file.contents)
            &&& inner.valid_up_to <= file.contents.len()
            &&& valid_utf8(file.contents.take(inner.valid_up_to as int))
            &&& forall|n: int|
                inner.valid_up_to < n <= file.contents.len() ==> !valid_utf8(
                    #[trigger] file.contents.take(n),
                )
        },
        _ => false,
    }
}

/// A script gives an instance with its text as `Source`: a `Script` if it ends in
/// `.server.lua`, a `LocalScript` if it ends in `.client.lua`, and else a `ModuleScript`. A
/// text file gives a `StringValue` with its text as `Value`. The name is that of the file
/// without the extension, or else the one that is remembered.
pub proof fn law_text_files(
    file: FileView,
    stem: Seq<char>,
    points: PointsView,
    result: SnapResult,
)
    requires
        file.path.path.len() > 0,
        file_snapshots(file, points, result),
    ensures
        ({
            let last = file.path.path[file.path.path.len() - 1];
            let name = given_name(points, file.path.path, stem);
            &&& last == PathPart::Normal(stem + ".server.lua"@) ==> gives_text(
                file,
                name,
                "Script"@,
                "Source"@,
                result,
            )
            &&& last == PathPart::Normal(stem + ".client.lua"@) ==> gives_text(
                file,
                name,
                "LocalScript"@,
                "Source"@,
                result,
            )
            &&& last == PathPart::Normal(stem + ".lua"@) && !ends_with(stem, ".server"@)
                && !ends_with(stem, ".client"@) ==> gives_text(
                file,
                name,
                "ModuleScript"@,
                "Source"@,
                result,
            )
            &&& last == PathPart::Normal(stem + ".txt"@) ==> gives_text(
                file,
                name,
                "StringValue"@,
                "Value"@,
                result,
            )
        }),
{
    law_extensions(stem);
    law_valid_length(file.contents);
    lemma_one_property("Source"@, decode_utf8(file.contents));
    lemma_one_property("Value"@, decode_utf8(file.contents));
}

proof fn lemma_one_property(property: Seq<char>, text: Seq<char>)
    ensures
        map![property => text_value(text)].dom() == set![property],
        map![property => text_value(text)][property] == text_value(text),
{
    assert(map![property => text_value(text)].dom() =~= set![property]);
}

/// A table of texts gives a `LocalizationTable` with its rows in JSON as `Contents`. A
/// malformed one is not survived.
pub proof fn law_table_files(
    file: FileView,
    stem: Seq<char>,
    points: PointsView,
    result: SnapResult,
)
    requires
        file.path.path.len() > 0,
        file.path.path[file.path.path.len() - 1] == PathPart::Normal(stem + ".csv"@),
        file_snapshots(file, points, result),
    ensures
        if !valid_utf8(file.contents) {
            gives_no_text(file, result)
        } else {
            match table_contents(decode_utf8(file.contents)) {
                Some(contents) => gives_value(
                    file,
                    given_name(points, file.path.path, stem),
                    "LocalizationTable"@,
                    "Contents"@,
                    contents,
                    result,
                ),
                None => result == Err::<Option<SnapshotView>, FailureView>(
                    FailureView::Panic(PanicView::MalformedTable),
                ),
            }
        },
{
    law_extensions(stem);
    law_valid_length(file.contents);
    if let Some(contents) = table_contents(decode_utf8(file.contents)) {
        lemma_one_property("Contents"@, contents);
    }
}

/// A file that stands for nothing gives nothing.
pub proof fn law_other_files(file: FileView, points: PointsView, result: SnapResult)
    requires
        classify(file.path.path) is None,
        file_snapshots(file, points, result),
    ensures
        result == Ok::<Option<SnapshotView>, FailureView>(None),
{
}

/// Whether `result` is what a model with these instances at the top level gives: the only
/// one of them in all but the name, nothing if there is none, and no survival if there are
/// more.
pub open spec fn gives_only(
    name: Seq<char>,
    forest: Seq<SnapshotView>,
    result: SnapResult,
) -> bool {
    if forest.len() == 0 {
        result == Ok::<Option<SnapshotView>, FailureView>(None)
    } else if forest.len() > 1 {
        result == Err::<Option<SnapshotView>, FailureView>(
            FailureView::Panic(PanicView::MultipleRoots),
        )
    } else {
        match result {
            Ok(Some(snapshot)) => {
                &&& snapshot.name == name
                &&& snapshot.class_name == forest[0].class_name
                &&& snapshot.properties == forest[0].properties
                &&& snapshot.children == forest[0].children
                &&& snapshot.source_path == forest[0].source_path
                &&& snapshot.metadata == forest[0].metadata
            },
            _ => false,
        }
    }
}

/// A model is its only instance in everything but the name.
pub proof fn law_model_instance(name: Seq<char>, forest: Seq<SnapshotView>)
    ensures
        gives_only(name, forest, model_result(name, forest)),
{
}

/// A snapshot that shows an instance has its name, its class and all of its properties, and
/// shows each of its children in order.
pub proof fn law_shown(instances: InstanceMap, id: u128, snapshot: SnapshotView)
    ensures
        shows(instances, id, snapshot) <==> {
            &&& instances.contains_key(id)
            &&& snapshot.name == instances[id].name
            &&& snapshot.class_name == instances[id].class_name
            &&& snapshot.properties == instances[id].properties
            &&& snapshot.source_path is None
            &&& snapshot.metadata is None
            &&& snapshot.children.len() == instances[id].children.len()
            &&& forall|i: int|
                0 <= i < snapshot.children.len() ==> shows(
                    instances,
                    #[trigger] instances[id].children[i],
                    snapshot.children[i],
                )
        },
{
}

/// A binary model gives its only instance, under the name of the file or the one that is
/// remembered, or the error of the decoder.
pub proof fn law_binary_models(
    file: FileView,
    stem: Seq<char>,
    points: PointsView,
    result: SnapResult,
) -> (outcome: Result<Seq<SnapshotView>, Seq<char>>)
    requires
        file.path.path.len() > 0,
        file.path.path[file.path.path.len() - 1] == PathPart::Normal(stem + ".rbxm"@),
        file_snapshots(file, points, result),
    ensures
        binary_outcomes(file.contents).contains(outcome),
        match outcome {
            Ok(forest) => gives_only(given_name(points, file.path.path, stem), forest, result),
            Err(text) => result == Err::<Option<SnapshotView>, FailureView>(
                FailureView::Error(
                    ErrorView::BinaryModelDecodeError { inner: text, path: file.path },
                ),
            ),
        },
{
    law_extensions(stem);
    let name = given_name(points, file.path.path, stem);
    assert(binary_model_result(name, file, result));
    choose|outcome: Result<Seq<SnapshotView>, Seq<char>>|
        {
            &&& #[trigger] is_binary_outcome(file.contents, outcome)
            &&& result == outcome_result(name, file, outcome)
        }
}

/// An XML model gives nothing, or the error of the decoder.
pub proof fn law_xml_models(
    file: FileView,
    stem: Seq<char>,
    points: PointsView,
    result: SnapResult,
)
    requires
        file.path.path.len() > 0,
        file.path.path[file.path.path.len() - 1] == PathPart::Normal(stem + ".rbxmx"@),
        file_snapshots(file, points, result),
    ensures
        match xml_decoding(file.contents) {
            Ok(_) => result == Ok::<Option<SnapshotView>, FailureView>(None),
            Err(text) => result == Err::<Option<SnapshotView>, FailureView>(
                FailureView::Error(ErrorView::XmlModelDecodeError { inner: text, path: file.path }),
            ),
        },
{
    law_extensions(stem);
}

/// The files that are left out are those whose names end in `.spec.lua` or `.ui` and are one
/// line.
pub proof fn law_filtered(name: Seq<char>, stem: Seq<char>)
    ensures
        is_filtered(name) <==> (forall|i: int| 0 <= i < name.len() ==> #[trigger] name[i] != '\n')
            && (ends_with(name, ".spec.lua"@) || ends_with(name, ".ui"@)),
        name == stem + ".spec.lua"@ || name == stem + ".ui"@ ==> (is_filtered(name)
            <==> forall|i: int| 0 <= i < stem.len() ==> #[trigger] stem[i] != '\n'),
{
    reveal_strlit(".spec.lua");
    reveal_strlit(".ui");
    law_trailer(name, ".spec.lua"@, stem);
    law_trailer(name, ".ui"@, stem);
    if forall|i: int| 0 <= i < name.len() ==> #[trigger] name[i] != '\n' {
        if name.contains('\n') {
            let i = choose|i: int| 0 <= i < name.len() && name[i] == '\n';
            assert(name[i] != '\n');
        }
    }
    if name == stem + ".spec.lua"@ || name == stem + ".ui"@ {
        if forall|i: int| 0 <= i < stem.len() ==> #[trigger] stem[i] != '\n' {
            assert forall|i: int| 0 <= i < name.len() implies #[trigger] name[i] != '\n' by {
                if i < stem.len() {
                    assert(name[i] == stem[i]);
                }
            }
        }
        if !name.contains('\n') {
            assert forall|i: int| 0 <= i < stem.len() implies #[trigger] stem[i] != '\n' by {
                assert(name[i] == stem[i]);
            }
        }
    }
}

} // verus!
