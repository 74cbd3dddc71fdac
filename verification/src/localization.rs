//! Localization tables: CSV files turned into the JSON text that a
//! `LocalizationTable` instance holds.
use crate::laws::tables::law_one_entry_per_row;
use vstd::prelude::*;
use vstd::string::StringExecFns;

verus! {

/// What a list of strings stands for.
pub open spec fn texts(list: Seq<String>) -> Seq<Seq<char>> {
    Seq::new(list.len(), |i: int| list[i]@)
}

/// What a list of records stands for.
pub open spec fn records_view(records: Seq<Vec<String>>) -> Seq<Seq<Seq<char>>> {
    Seq::new(records.len(), |i: int| texts(records[i]@))
}

/// The records, the header among them, that the `csv` crate reads out of a
/// text with its default settings; absent if it reports an error.
pub uninterp spec fn csv_records(text: Seq<char>) -> Option<Seq<Seq<Seq<char>>>>;

/// Whether the `csv` crate, asked to guess the type of a cell, takes it for
/// text rather than for a truth value or a number.
pub uninterp spec fn csv_infers_text(cell: Seq<char>) -> bool;

/// `csv::Reader::records`, on a reader that keeps the header among the records:
/// all records of `text`, or nothing if one of them is malformed.
#[verifier::external_body]
fn read_records(text: &str) -> (records: Option<Vec<Vec<String>>>)
    ensures
        match records {
            Some(records) => csv_records(text@) == Some(records_view(records@)),
            None => csv_records(text@) is None,
        },
{
    csv::ReaderBuilder::new()
        .has_headers(false)
        .from_reader(text.as_bytes())
        .records()
        .map(|record| record.map(|record| record.iter().map(String::from).collect()))
        .collect::<Result<Vec<Vec<String>>, csv::Error>>()
        .ok()
}

/// `csv::StringRecord::deserialize` into a value of any type: tells whether the
/// type that it guesses for the cell is text.
#[verifier::external_body]
fn cell_is_text(cell: &str) -> (r: bool)
    ensures
        r == csv_infers_text(cell@),
{
    let record = csv::StringRecord::from(vec![cell]);
    matches!(
        record.deserialize::<serde_json::Value>(None),
        Ok(serde_json::Value::String(_))
    )
}

/// A localized name: the column it stands in, and its text.
#[derive(Debug)]
pub struct LocalizedValue {
    pub locale: String,
    pub text: String,
}

/// A row of the table as it is read.
#[derive(Debug)]
pub struct LocalizationEntryCsv {
    pub key: String,
    pub context: String,
    pub example: String,
    pub source: String,
    pub values: Vec<LocalizedValue>,
}

/// A row of the table as it is written.
#[derive(Debug)]
pub struct LocalizationEntryJson {
    pub key: String,
    pub context: String,
    pub example: String,
    pub source: String,
    pub values: Vec<LocalizedValue>,
}

/// What a row of the table stands for; its values are pairs of locale and text.
pub struct EntryView {
    pub key: Seq<char>,
    pub context: Seq<char>,
    pub example: Seq<char>,
    pub source: Seq<char>,
    pub values: Seq<(Seq<char>, Seq<char>)>,
}

/// What a list of localized values stands for.
pub open spec fn values_view(values: Seq<LocalizedValue>) -> Seq<(Seq<char>, Seq<char>)> {
    Seq::new(values.len(), |i: int| (values[i].locale@, values[i].text@))
}

impl View for LocalizationEntryCsv {
    type V = EntryView;

    open spec fn view(&self) -> EntryView {
        EntryView {
            key: self.key@,
            context: self.context@,
            example: self.example@,
            source: self.source@,
            values: values_view(self.values@),
        }
    }
}

impl View for LocalizationEntryJson {
    type V = EntryView;

    open spec fn view(&self) -> EntryView {
        EntryView {
            key: self.key@,
            context: self.context@,
            example: self.example@,
            source: self.source@,
            values: values_view(self.values@),
        }
    }
}

impl LocalizationEntryCsv {
    /// The row in the form in which it is written.
    pub fn to_json(self) -> (json: LocalizationEntryJson)
        ensures
            json@ == self@,
            json == (LocalizationEntryJson {
                key: self.key,
                context: self.context,
                example: self.example,
                source: self.source,
                values: self.values,
            }),
    {
        LocalizationEntryJson {
            key: self.key,
            context: self.context,
            example: self.example,
            source: self.source,
            values: self.values,
        }
    }
}

/// Whether exactly one column is headed `name`.
pub open spec fn occurs_once(header: Seq<Seq<char>>, name: Seq<char>) -> bool {
    exists|i: int| is_only_column(header, name, i)
}

/// Whether column `i`, and no other, is headed `name`.
pub open spec fn is_only_column(header: Seq<Seq<char>>, name: Seq<char>, i: int) -> bool {
    &&& 0 <= i < header.len()
    &&& header[i] == name
    &&& forall|j: int| 0 <= j < header.len() && j != i ==> #[trigger] header[j] != name
}

/// The cell of `row` in the column headed `name`.
pub open spec fn cell_of(header: Seq<Seq<char>>, row: Seq<Seq<char>>, name: Seq<char>) -> Seq<char> {
    row[choose|i: int| is_only_column(header, name, i)]
}

/// Whether `name` heads one of the columns that every table has.
pub open spec fn is_fixed_column(name: Seq<char>) -> bool {
    name == "Key"@ || name == "Context"@ || name == "Example"@ || name == "Source"@
}

/// Sets the text of a locale: in place where the locale is listed, else behind
/// the others.
pub open spec fn set_value(
    values: Seq<(Seq<char>, Seq<char>)>,
    locale: Seq<char>,
    text: Seq<char>,
) -> Seq<(Seq<char>, Seq<char>)>
    decreases values.len(),
{
    if values.len() == 0 {
        seq![(locale, text)]
    } else if values[0].0 == locale {
        values.update(0, (locale, text))
    } else {
        seq![values[0]] + set_value(values.drop_first(), locale, text)
    }
}

/// The values in the first `count` columns: one for each locale, where a later
/// column of the same locale stands in place of an earlier one.
pub open spec fn localized_values(
    header: Seq<Seq<char>>,
    row: Seq<Seq<char>>,
    count: int,
) -> Seq<(Seq<char>, Seq<char>)>
    decreases count,
{
    if count <= 0 {
        seq![]
    } else if is_fixed_column(header[count - 1]) {
        localized_values(header, row, count - 1)
    } else {
        set_value(localized_values(header, row, count - 1), header[count - 1], row[count - 1])
    }
}

/// The row that a record stands for, where `is_text` tells of each cell whether
/// it is taken for text: absent if a fixed column is missing or doubled, if the
/// record has another length than the header, or if the cell of a locale is not
/// text.
pub open spec fn entry_of_row(
    header: Seq<Seq<char>>,
    row: Seq<Seq<char>>,
    is_text: Seq<bool>,
) -> Option<EntryView> {
    if {
        &&& row.len() == header.len()
        &&& occurs_once(header, "Key"@)
        &&& occurs_once(header, "Context"@)
        &&& occurs_once(header, "Example"@)
        &&& occurs_once(header, "Source"@)
        &&& forall|i: int|
            0 <= i < header.len() && !is_fixed_column(#[trigger] header[i]) ==> is_text[i]
    } {
        Some(
            EntryView {
                key: cell_of(header, row, "Key"@),
                context: cell_of(header, row, "Context"@),
                example: cell_of(header, row, "Example"@),
                source: cell_of(header, row, "Source"@),
                values: localized_values(header, row, header.len() as int),
            },
        )
    } else {
        None
    }
}

/// What the `csv` crate takes the cells of a row for.
pub open spec fn inferred(row: Seq<Seq<char>>) -> Seq<bool> {
    Seq::new(row.len(), |i: int| csv_infers_text(row[i]))
}

/// The rows of a table whose records, the header first, are `records`: absent
/// if one of them is malformed.
pub open spec fn entries_of_records(records: Seq<Seq<Seq<char>>>) -> Option<Seq<EntryView>>
    decreases records.len(),
{
    if records.len() <= 1 {
        Some(seq![])
    } else {
        match (
            entries_of_records(records.drop_last()),
            entry_of_row(records[0], records.last(), inferred(records.last())),
        ) {
            (Some(entries), Some(entry)) => Some(entries.push(entry)),
            _ => None,
        }
    }
}

/// The column that alone is headed `name`.
fn find_once(header: &Vec<String>, name: &str) -> (column: Option<usize>)
    ensures
        match column {
            Some(i) => is_only_column(texts(header@), name@, i as int),
            None => !occurs_once(texts(header@), name@),
        },
{
    let ghost heads = texts(header@);
    let mut found: Option<usize> = None;
    let mut i: usize = 0;
    let wanted = name.to_owned();
    while i < header.len()
        invariant
            i <= header.len(),
            heads == texts(header@),
            wanted@ == name@,
            match found {
                Some(k) => {
                    &&& k < i
                    &&& heads[k as int] == name@
                    &&& forall|j: int| 0 <= j < i && j != k ==> #[trigger] heads[j] != name@
                },
                None => forall|j: int| 0 <= j < i ==> #[trigger] heads[j] != name@,
            },
        decreases header.len() - i,
    {
        assert(heads[i as int] == header@[i as int]@);
        if header[i] == wanted {
            match found {
                Some(k) => {
                    assert(heads[k as int] == heads[i as int]);
                    return None;
                },
                None => {
                    found = Some(i);
                },
            }
        }
        i += 1;
    }
    found
}

/// Whether `name` heads one of the columns that every table has.
fn fixed_column(name: &String) -> (r: bool)
    ensures
        r == is_fixed_column(name@),
{
    *name == "Key".to_owned() || *name == "Context".to_owned() || *name == "Example".to_owned()
        || *name == "Source".to_owned()
}

/// Sets the text of a locale.
fn put_value(values: &mut Vec<LocalizedValue>, locale: &String, text: &String)
    ensures
        values_view(final(values)@) == set_value(values_view(old(values)@), locale@, text@),
{
    let ghost before = values_view(values@);
    let mut i: usize = 0;
    assert(before.skip(0) =~= before);
    assert(before.take(0) + set_value(before, locale@, text@) =~= set_value(before, locale@, text@));
    while i < values.len()
        invariant
            i <= values.len(),
            values@ == old(values)@,
            before == values_view(values@),
            set_value(before, locale@, text@) == before.take(i as int) + set_value(
                before.skip(i as int),
                locale@,
                text@,
            ),
        decreases values.len() - i,
    {
        assert(before.skip(i as int)[0] == before[i as int]);
        if values[i].locale == *locale {
            let value = LocalizedValue { locale: locale.clone(), text: text.clone() };
            values[i] = value;
            assert(values_view(values@) =~= before.take(i as int) + before.skip(i as int).update(
                0,
                (locale@, text@),
            ));
            return;
        }
        assert(before.skip(i as int).drop_first() =~= before.skip(i + 1));
        assert(before.take(i + 1) =~= before.take(i as int) + seq![before[i as int]]);
        assert(before.take(i as int) + (seq![before[i as int]] + set_value(
            before.skip(i + 1),
            locale@,
            text@,
        )) =~= before.take(i + 1) + set_value(before.skip(i + 1), locale@, text@));
        i += 1;
    }
    values.push(LocalizedValue { locale: locale.clone(), text: text.clone() });
    assert(values_view(values@) =~= before.take(i as int) + seq![(locale@, text@)]);
}

/// The row that a record stands for; `is_text` tells of each cell whether it is
/// taken for text.
pub fn entry_from_row(header: &Vec<String>, row: &Vec<String>, is_text: &Vec<bool>) -> (entry:
    Option<LocalizationEntryCsv>)
    requires
        is_text.len() == row.len(),
    ensures
        match entry {
            Some(entry) => entry_of_row(texts(header@), texts(row@), is_text@) == Some(entry@),
            None => entry_of_row(texts(header@), texts(row@), is_text@) is None,
        },
{
    let ghost heads = texts(header@);
    let ghost cells = texts(row@);
    if row.len() != header.len() {
        return None;
    }
    let key = match find_once(header, "Key") {
        Some(i) => i,
        None => return None,
    };
    let context = match find_once(header, "Context") {
        Some(i) => i,
        None => return None,
    };
    let example = match find_once(header, "Example") {
        Some(i) => i,
        None => return None,
    };
    let source = match find_once(header, "Source") {
        Some(i) => i,
        None => return None,
    };
    let mut values: Vec<LocalizedValue> = Vec::new();
    assert(values_view(values@) =~= seq![]);
    let mut i: usize = 0;
    while i < header.len()
        invariant
            i <= header.len() == row.len(),
            is_text.len() == row.len(),
            heads == texts(header@),
            cells == texts(row@),
            values_view(values@) == localized_values(heads, cells, i as int),
            forall|j: int| 0 <= j < i && !is_fixed_column(#[trigger] heads[j]) ==> is_text@[j],
        decreases header.len() - i,
    {
        assert(heads[i as int] == header@[i as int]@);
        assert(cells[i as int] == row@[i as int]@);
        if !fixed_column(&header[i]) {
            if !is_text[i] {
                return None;
            }
            put_value(&mut values, &header[i], &row[i]);
        }
        i += 1;
    }
    assert(is_only_column(heads, "Key"@, key as int));
    assert(is_only_column(heads, "Context"@, context as int));
    assert(is_only_column(heads, "Example"@, example as int));
    assert(is_only_column(heads, "Source"@, source as int));
    Some(
        LocalizationEntryCsv {
            key: row[key].clone(),
            context: row[context].clone(),
            example: row[example].clone(),
            source: row[source].clone(),
            values,
        },
    )
}

/// What a list of rows stands for.
pub open spec fn entries_view(entries: Seq<LocalizationEntryJson>) -> Seq<EntryView> {
    Seq::new(entries.len(), |i: int| entries[i]@)
}

/// The rows of a table whose records, the header first, are `records`.
pub fn entries_from_records(records: &Vec<Vec<String>>) -> (entries: Option<
    Vec<LocalizationEntryJson>,
>)
    ensures
        match entries {
            Some(entries) => entries_of_records(records_view(records@)) == Some(
                entries_view(entries@),
            ),
            None => entries_of_records(records_view(records@)) is None,
        },
        entries matches Some(entries) ==> {
            &&& entries.len() == if records.len() == 0 {
                0
            } else {
                records.len() - 1
            }
            &&& forall|i: int|
                0 <= i < entries.len() ==> Some((#[trigger] entries@[i])@) == entry_of_row(
                    texts(records@[0]@),
                    texts(records@[i + 1]@),
                    inferred(texts(records@[i + 1]@)),
                )
        },
{
    let ghost all = records_view(records@);
    let mut entries: Vec<LocalizationEntryJson> = Vec::new();
    assert(entries_view(entries@) =~= seq![]);
    if records.len() == 0 {
        return Some(entries);
    }
    let mut i: usize = 1;
    while i < records.len()
        invariant
            1 <= i <= records.len(),
            all == records_view(records@),
            entries_of_records(all.take(i as int)) == Some(entries_view(entries@)),
        decreases records.len() - i,
    {
        let row = &records[i];
        let ghost cells = texts(row@);
        let mut is_text: Vec<bool> = Vec::new();
        let mut k: usize = 0;
        while k < row.len()
            invariant
                k <= row.len(),
                cells == texts(row@),
                is_text.len() == k,
                forall|j: int| 0 <= j < k ==> #[trigger] is_text@[j] == csv_infers_text(cells[j]),
            decreases row.len() - k,
        {
            assert(cells[k as int] == row@[k as int]@);
            is_text.push(cell_is_text(row[k].as_str()));
            k += 1;
        }
        assert(is_text@ =~= inferred(cells));
        assert(all.take(i + 1).drop_last() =~= all.take(i as int));
        assert(all.take(i + 1).last() == cells);
        assert(all.take(i + 1)[0] == texts(records@[0]@));
        match entry_from_row(&records[0], row, &is_text) {
            Some(entry) => {
                let ghost before = entries@;
                let ghost value = entry@;
                entries.push(entry.to_json());
                assert(entries_view(entries@) =~= entries_view(before).push(value));
            },
            None => {
                proof {
                    lemma_entries_prefix(all, i + 1);
                }
                return None;
            },
        }
        i += 1;
    }
    assert(all.take(i as int) =~= all);
    proof {
        law_one_entry_per_row(all);
        assert forall|k: int| 0 <= k < entries.len() implies Some((#[trigger] entries@[k])@)
            == entry_of_row(
            texts(records@[0]@),
            texts(records@[k + 1]@),
            inferred(texts(records@[k + 1]@)),
        ) by {
            assert(entries_view(entries@)[k] == entries@[k]@);
            assert(all[k + 1] == texts(records@[k + 1]@));
        }
    }
    Some(entries)
}

/// A malformed row spoils every longer table.
proof fn lemma_entries_prefix(records: Seq<Seq<Seq<char>>>, count: int)
    requires
        1 <= count <= records.len(),
        entries_of_records(records.take(count)) is None,
    ensures
        entries_of_records(records) is None,
    decreases records.len(),
{
    if count == records.len() {
        assert(records.take(count) =~= records);
    } else {
        assert(records.drop_last().take(count) =~= records.take(count));
        lemma_entries_prefix(records.drop_last(), count);
    }
}

/// How a character stands inside a JSON string.
pub open spec fn json_char(c: char) -> Seq<char> {
    if c == '"' {
        seq!['\\', '"']
    } else if c == '\\' {
        seq!['\\', '\\']
    } else if c == '\n' {
        seq!['\\', 'n']
    } else if c == '\r' {
        seq!['\\', 'r']
    } else if c == '\t' {
        seq!['\\', 't']
    } else if c as u32 == 8 {
        seq!['\\', 'b']
    } else if c as u32 == 12 {
        seq!['\\', 'f']
    } else if c as u32 <= 15 {
        seq!['\\', 'u', '0', '0', '0', hex_digit(c as u32 as int)]
    } else if c as u32 <= 31 {
        seq!['\\', 'u', '0', '0', '1', hex_digit(c as u32 - 16)]
    } else {
        seq![c]
    }
}

/// The digit for a number below sixteen, in lower case.
pub open spec fn hex_digit(n: int) -> char {
    "0123456789abcdef"@[n]
}

/// The characters of a text as they stand inside a JSON string.
pub open spec fn json_chars(text: Seq<char>) -> Seq<char>
    decreases text.len(),
{
    if text.len() == 0 {
        seq![]
    } else {
        json_chars(text.drop_last()) + json_char(text.last())
    }
}

/// A text as a JSON string.
pub open spec fn json_string(text: Seq<char>) -> Seq<char> {
    "\""@ + json_chars(text) + "\""@
}

/// Parts with commas between them.
pub open spec fn comma_joined(parts: Seq<Seq<char>>) -> Seq<char>
    decreases parts.len(),
{
    if parts.len() == 0 {
        seq![]
    } else if parts.len() == 1 {
        parts[0]
    } else {
        comma_joined(parts.drop_last()) + ","@ + parts.last()
    }
}

/// The members of the JSON object that lists localized values.
pub open spec fn json_members(values: Seq<(Seq<char>, Seq<char>)>) -> Seq<Seq<char>> {
    Seq::new(values.len(), |i: int| json_string(values[i].0) + ":"@ + json_string(values[i].1))
}

/// A row as a JSON object.
pub open spec fn json_entry(entry: EntryView) -> Seq<char> {
    "{\"key\":"@ + json_string(entry.key) + ",\"context\":"@ + json_string(entry.context)
        + ",\"example\":"@ + json_string(entry.example) + ",\"source\":"@ + json_string(
        entry.source,
    ) + ",\"values\":{"@ + comma_joined(json_members(entry.values)) + "}}"@
}

/// The rows of a table as a JSON array.
pub open spec fn json_table(entries: Seq<EntryView>) -> Seq<char> {
    "["@ + comma_joined(Seq::new(entries.len(), |i: int| json_entry(entries[i]))) + "]"@
}

/// `serde_json::to_string` of a string: the text in double quotes, where quotes,
/// backslashes and the characters below U+0020 are escaped. It never fails on a
/// string.
#[verifier::external_body]
fn to_json_string(text: &str) -> (json: String)
    ensures
        json@ == json_string(text@),
{
    serde_json::to_string(text).unwrap()
}

/// Parts with commas between them.
fn join_with_commas(parts: &Vec<String>) -> (joined: String)
    ensures
        joined@ == comma_joined(texts(parts@)),
{
    let ghost all = texts(parts@);
    let mut joined = String::new();
    let mut i: usize = 0;
    assert(all.take(0) =~= seq![]);
    while i < parts.len()
        invariant
            i <= parts.len(),
            all == texts(parts@),
            joined@ == comma_joined(all.take(i as int)),
        decreases parts.len() - i,
    {
        assert(all.take(i + 1).drop_last() =~= all.take(i as int));
        assert(all.take(i + 1).last() == parts@[i as int]@);
        if i > 0 {
            joined.append(",");
        }
        joined.append(parts[i].as_str());
        assert(joined@ =~= comma_joined(all.take(i + 1)));
        i += 1;
    }
    assert(all.take(i as int) =~= all);
    joined
}

/// A row as a JSON object.
fn entry_to_json(entry: &LocalizationEntryJson) -> (json: String)
    ensures
        json@ == json_entry(entry@),
{
    let mut members: Vec<String> = Vec::new();
    let mut i: usize = 0;
    while i < entry.values.len()
        invariant
            i <= entry.values.len(),
            members.len() == i,
            forall|j: int|
                0 <= j < i ==> (#[trigger] members@[j])@ == json_members(
                    values_view(entry.values@),
                )[j],
        decreases entry.values.len() - i,
    {
        let mut member = to_json_string(entry.values[i].locale.as_str());
        member.append(":");
        let text = to_json_string(entry.values[i].text.as_str());
        member.append(text.as_str());
        members.push(member);
        i += 1;
    }
    assert(texts(members@) =~= json_members(entry@.values));
    let key = to_json_string(entry.key.as_str());
    let context = to_json_string(entry.context.as_str());
    let example = to_json_string(entry.example.as_str());
    let source = to_json_string(entry.source.as_str());
    let values = join_with_commas(&members);
    let mut json = "{\"key\":".to_owned();
    json.append(key.as_str());
    json.append(",\"context\":");
    json.append(context.as_str());
    json.append(",\"example\":");
    json.append(example.as_str());
    json.append(",\"source\":");
    json.append(source.as_str());
    json.append(",\"values\":{");
    json.append(values.as_str());
    json.append("}}");
    json
}

/// The rows of a table as a JSON array.
pub fn entries_to_json(entries: &Vec<LocalizationEntryJson>) -> (json: String)
    ensures
        json@ == json_table(entries_view(entries@)),
{
    let ghost rows = entries_view(entries@);
    let mut parts: Vec<String> = Vec::new();
    let mut i: usize = 0;
    while i < entries.len()
        invariant
            i <= entries.len(),
            rows == entries_view(entries@),
            parts.len() == i,
            forall|j: int| 0 <= j < i ==> (#[trigger] parts@[j])@ == json_entry(rows[j]),
        decreases entries.len() - i,
    {
        parts.push(entry_to_json(&entries[i]));
        i += 1;
    }
    assert(texts(parts@) =~= Seq::new(rows.len(), |i: int| json_entry(rows[i])));
    let joined = join_with_commas(&parts);
    let mut json = "[".to_owned();
    json.append(joined.as_str());
    json.append("]");
    json
}

/// The JSON text for a table written as CSV: absent if the table is malformed.
pub open spec fn table_contents(text: Seq<char>) -> Option<Seq<char>> {
    match csv_records(text) {
        Some(records) => match entries_of_records(records) {
            Some(entries) => Some(json_table(entries)),
            None => None,
        },
        None => None,
    }
}

/// The JSON text for a table written as CSV.
pub fn localization_table(text: &str) -> (contents: Option<String>)
    ensures
        match contents {
            Some(contents) => table_contents(text@) == Some(contents@),
            None => table_contents(text@) is None,
        },
{
    let records = match read_records(text) {
        Some(records) => records,
        None => return None,
    };
    match entries_from_records(&records) {
        Some(entries) => Some(entries_to_json(&entries)),
        None => None,
    }
}

} // verus!
