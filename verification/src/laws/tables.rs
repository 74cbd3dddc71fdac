//! Localization tables: what becomes of rows and columns.
use crate::localization::{
    comma_joined, csv_infers_text, csv_records, entries_of_records, entry_of_row, inferred,
    is_fixed_column, is_only_column, json_char, json_chars, json_entry, json_members, json_string,
    json_table, localized_values, set_value, table_contents, EntryView,
};
use vstd::prelude::*;

verus! {

/// A table has one entry for each row behind the header, in the order of the rows. It has
/// none at all if, and only if, one of the rows has none.
pub proof fn law_one_entry_per_row(records: Seq<Seq<Seq<char>>>)
    ensures
        match entries_of_records(records) {
            Some(entries) => {
                &&& records.len() == 0 ==> entries.len() == 0
                &&& records.len() > 0 ==> entries.len() == records.len() - 1
                &&& forall|i: int|
                    0 <= i < records.len() - 1 ==> Some(#[trigger] entries[i]) == entry_of_row(
                        records[0],
                        records[i + 1],
                        inferred(records[i + 1]),
                    )
            },
            None => exists|i: int|
                0 < i < records.len() && entry_of_row(
                    records[0],
                    #[trigger] records[i],
                    inferred(records[i]),
                ) is None,
        },
    decreases records.len(),
{
    if records.len() > 1 {
        let fewer = records.drop_last();
        let count = records.len() as int;
        law_one_entry_per_row(fewer);
        match entries_of_records(records) {
            Some(entries) => {
                let earlier = entries_of_records(fewer)->0;
                assert forall|i: int| 0 <= i < count - 1 implies Some(#[trigger] entries[i])
                    == entry_of_row(records[0], records[i + 1], inferred(records[i + 1])) by {
                    if i < count - 2 {
                        assert(entries[i] == earlier[i]);
                        assert(fewer[i + 1] == records[i + 1]);
                    }
                }
            },
            None => {
                if entries_of_records(fewer) is None {
                    let i = choose|i: int|
                        0 < i < fewer.len() && entry_of_row(
                            fewer[0],
                            #[trigger] fewer[i],
                            inferred(fewer[i]),
                        ) is None;
                    assert(records[i] == fewer[i]);
                } else {
                    assert(records[count - 1] == records.last());
                }
            },
        }
    }
}

/// Whether a column has one of the four heads that every table has.
pub open spec fn has_fixed_head(head: Seq<char>) -> bool {
    ||| head == seq!['K', 'e', 'y']
    ||| head == seq!['C', 'o', 'n', 't', 'e', 'x', 't']
    ||| head == seq!['E', 'x', 'a', 'm', 'p', 'l', 'e']
    ||| head == seq!['S', 'o', 'u', 'r', 'c', 'e']
}

/// Whether there is a column with a head, and no second one.
pub open spec fn has_one(header: Seq<Seq<char>>, head: Seq<char>) -> bool {
    &&& exists|i: int| 0 <= i < header.len() && #[trigger] header[i] == head
    &&& forall|i: int, j: int|
        0 <= i < j < header.len() && #[trigger] header[i] == head ==> #[trigger] header[j] != head
}

proof fn lemma_heads()
    ensures
        "Key"@ == seq!['K', 'e', 'y'],
        "Context"@ == seq!['C', 'o', 'n', 't', 'e', 'x', 't'],
        "Example"@ == seq!['E', 'x', 'a', 'm', 'p', 'l', 'e'],
        "Source"@ == seq!['S', 'o', 'u', 'r', 'c', 'e'],
{
    reveal_strlit("Key");
    reveal_strlit("Context");
    reveal_strlit("Example");
    reveal_strlit("Source");
    assert("Key"@ =~= seq!['K', 'e', 'y']);
    assert("Context"@ =~= seq!['C', 'o', 'n', 't', 'e', 'x', 't']);
    assert("Example"@ =~= seq!['E', 'x', 'a', 'm', 'p', 'l', 'e']);
    assert("Source"@ =~= seq!['S', 'o', 'u', 'r', 'c', 'e']);
}

/// The columns that are no locales are those headed `Key`, `Context`, `Example` and
/// `Source`.
pub proof fn law_fixed_columns(head: Seq<char>)
    ensures
        is_fixed_column(head) <==> has_fixed_head(head),
{
    lemma_heads();
}

proof fn lemma_has_one(header: Seq<Seq<char>>, head: Seq<char>)
    ensures
        has_one(header, head) <==> exists|i: int| is_only_column(header, head, i),
        forall|i: int, j: int|
            #[trigger] is_only_column(header, head, i) && 0 <= j < header.len()
                && #[trigger] header[j] == head ==> j == i,
{
    if has_one(header, head) {
        let i = choose|i: int| 0 <= i < header.len() && #[trigger] header[i] == head;
        assert forall|j: int| 0 <= j < header.len() && j != i implies #[trigger] header[j]
            != head by {
            if j < i && header[j] == head {
                assert(header[i] != head);
            }
        }
        assert(is_only_column(header, head, i));
    }
    if exists|i: int| is_only_column(header, head, i) {
        let i = choose|i: int| is_only_column(header, head, i);
        assert(header[i] == head);
    }
}

/// A row gives an entry if, and only if, it is as long as the header, each of the four
/// columns that every table has is there once, and the cell of each locale is taken for
/// text.
pub proof fn law_rows_that_count(
    header: Seq<Seq<char>>,
    row: Seq<Seq<char>>,
    is_text: Seq<bool>,
)
    ensures
        entry_of_row(header, row, is_text) is Some <==> {
            &&& row.len() == header.len()
            &&& has_one(header, seq!['K', 'e', 'y'])
            &&& has_one(header, seq!['C', 'o', 'n', 't', 'e', 'x', 't'])
            &&& has_one(header, seq!['E', 'x', 'a', 'm', 'p', 'l', 'e'])
            &&& has_one(header, seq!['S', 'o', 'u', 'r', 'c', 'e'])
            &&& forall|i: int|
                0 <= i < header.len() && !has_fixed_head(#[trigger] header[i]) ==> is_text[i]
        },
{
    lemma_heads();
    lemma_has_one(header, "Key"@);
    lemma_has_one(header, "Context"@);
    lemma_has_one(header, "Example"@);
    lemma_has_one(header, "Source"@);
}

/// The entry of a row has each of its four texts from the column with that head.
pub proof fn law_cells_by_head(
    header: Seq<Seq<char>>,
    row: Seq<Seq<char>>,
    is_text: Seq<bool>,
    entry: EntryView,
    i: int,
)
    requires
        entry_of_row(header, row, is_text) == Some(entry),
        0 <= i < header.len(),
    ensures
        header[i] == seq!['K', 'e', 'y'] ==> entry.key == row[i],
        header[i] == seq!['C', 'o', 'n', 't', 'e', 'x', 't'] ==> entry.context == row[i],
        header[i] == seq!['E', 'x', 'a', 'm', 'p', 'l', 'e'] ==> entry.example == row[i],
        header[i] == seq!['S', 'o', 'u', 'r', 'c', 'e'] ==> entry.source == row[i],
{
    lemma_heads();
    lemma_has_one(header, "Key"@);
    lemma_has_one(header, "Context"@);
    lemma_has_one(header, "Example"@);
    lemma_has_one(header, "Source"@);
}

/// Whether `text` stands in the last column that is headed `locale`.
pub open spec fn is_last_text(
    header: Seq<Seq<char>>,
    row: Seq<Seq<char>>,
    locale: Seq<char>,
    text: Seq<char>,
) -> bool {
    exists|i: int|
        {
            &&& 0 <= i < header.len()
            &&& #[trigger] header[i] == locale
            &&& row[i] == text
            &&& forall|j: int| i < j < header.len() ==> #[trigger] header[j] != locale
        }
}

/// The entry of a row has one text for each locale, that of the last column headed so, and
/// no locale twice.
pub proof fn law_locales(
    header: Seq<Seq<char>>,
    row: Seq<Seq<char>>,
    is_text: Seq<bool>,
    entry: EntryView,
)
    requires
        entry_of_row(header, row, is_text) == Some(entry),
    ensures
        forall|k: int|
            0 <= k < entry.values.len() ==> {
                &&& !has_fixed_head((#[trigger] entry.values[k]).0)
                &&& is_last_text(header, row, entry.values[k].0, entry.values[k].1)
            },
        forall|i: int|
            0 <= i < header.len() && !has_fixed_head(#[trigger] header[i]) ==> exists|k: int|
                0 <= k < entry.values.len() && (#[trigger] entry.values[k]).0 == header[i],
        forall|k: int, l: int|
            0 <= k < l < entry.values.len() ==> (#[trigger] entry.values[k]).0 != (
            #[trigger] entry.values[l]).0,
{
    let count = header.len() as int;
    lemma_values(header, row, count);
    assert(header.take(count) =~= header);
    assert(row.take(count) =~= row);
    let values = localized_values(header, row, count);
    assert(entry.values == values);
    assert forall|i: int| 0 <= i < header.len() && !has_fixed_head(#[trigger] header[i]) implies exists|
        k: int,
    |
        0 <= k < entry.values.len() && (#[trigger] entry.values[k]).0 == header[i] by {
        let heads = header.take(count);
        assert(!has_fixed_head(heads[i]));
        let k = choose|k: int| 0 <= k < values.len() && (#[trigger] values[k]).0 == heads[i];
        assert(entry.values[k].0 == header[i]);
    }
}

/// Setting the text of a locale leaves the other locales as they are.
proof fn lemma_set_value(
    values: Seq<(Seq<char>, Seq<char>)>,
    locale: Seq<char>,
    text: Seq<char>,
)
    requires
        forall|k: int, l: int|
            0 <= k < l < values.len() ==> (#[trigger] values[k]).0 != (#[trigger] values[l]).0,
    ensures
        ({
            let set = set_value(values, locale, text);
            &&& forall|k: int, l: int|
                0 <= k < l < set.len() ==> (#[trigger] set[k]).0 != (#[trigger] set[l]).0
            &&& forall|k: int|
                0 <= k < set.len() ==> (#[trigger] set[k]) == (locale, text) || set[k].0 != locale
                    && values.contains(set[k])
            &&& forall|k: int|
                0 <= k < values.len() ==> exists|l: int|
                    0 <= l < set.len() && (#[trigger] set[l]).0 == (#[trigger] values[k]).0
            &&& exists|l: int| 0 <= l < set.len() && (#[trigger] set[l]).0 == locale
        }),
    decreases values.len(),
{
    let set = set_value(values, locale, text);
    if values.len() == 0 {
        assert(set[0].0 == locale);
    } else if values[0].0 == locale {
        assert(set[0].0 == locale);
        assert forall|k: int| 0 <= k < values.len() implies exists|l: int|
            0 <= l < set.len() && (#[trigger] set[l]).0 == (#[trigger] values[k]).0 by {
            assert(set[k].0 == values[k].0);
        }
        assert forall|k: int| 0 <= k < set.len() implies (#[trigger] set[k]) == (locale, text)
            || set[k].0 != locale && values.contains(set[k]) by {
            if k > 0 {
                assert(set[k] == values[k]);
                assert(values[0].0 != values[k].0);
            }
        }
        assert forall|k: int, l: int| 0 <= k < l < set.len() implies (#[trigger] set[k]).0 != (
        #[trigger] set[l]).0 by {
            assert(set[l] == values[l]);
            assert(values[k].0 != values[l].0);
        }
    } else {
        let tail = values.drop_first();
        let later = set_value(tail, locale, text);
        assert forall|k: int, l: int| 0 <= k < l < tail.len() implies (#[trigger] tail[k]).0 != (
        #[trigger] tail[l]).0 by {
            assert(values[k + 1].0 != values[l + 1].0);
        }
        lemma_set_value(tail, locale, text);
        assert forall|k: int| 0 <= k < set.len() implies (#[trigger] set[k]) == (locale, text)
            || set[k].0 != locale && values.contains(set[k]) by {
            if k > 0 {
                assert(set[k] == later[k - 1]);
                if tail.contains(set[k]) {
                    let j = choose|j: int| 0 <= j < tail.len() && tail[j] == set[k];
                    assert(values[j + 1] == set[k]);
                }
            } else {
                assert(values[0] == set[0]);
            }
        }
        assert forall|k: int, l: int| 0 <= k < l < set.len() implies (#[trigger] set[k]).0 != (
        #[trigger] set[l]).0 by {
            assert(set[l] == later[l - 1]);
            if k > 0 {
                assert(set[k] == later[k - 1]);
            } else if tail.contains(set[l]) {
                let j = choose|j: int| 0 <= j < tail.len() && tail[j] == set[l];
                assert(values[0].0 != values[j + 1].0);
            }
        }
        assert forall|k: int| 0 <= k < values.len() implies exists|l: int|
            0 <= l < set.len() && (#[trigger] set[l]).0 == (#[trigger] values[k]).0 by {
            if k == 0 {
                assert(set[0].0 == values[0].0);
            } else {
                assert(tail[k - 1] == values[k]);
                let l = choose|l: int|
                    0 <= l < later.len() && (#[trigger] later[l]).0 == tail[k - 1].0;
                assert(set[l + 1].0 == values[k].0);
            }
        }
        let l = choose|l: int| 0 <= l < later.len() && (#[trigger] later[l]).0 == locale;
        assert(set[l + 1].0 == locale);
    }
}

proof fn lemma_values(header: Seq<Seq<char>>, row: Seq<Seq<char>>, count: int)
    requires
        0 <= count <= header.len(),
        row.len() == header.len(),
    ensures
        ({
            let heads = header.take(count);
            let cells = row.take(count);
            let values = localized_values(header, row, count);
            &&& forall|k: int|
                0 <= k < values.len() ==> {
                    &&& !has_fixed_head((#[trigger] values[k]).0)
                    &&& is_last_text(heads, cells, values[k].0, values[k].1)
                }
            &&& forall|i: int|
                0 <= i < heads.len() && !has_fixed_head(#[trigger] heads[i]) ==> exists|k: int|
                    0 <= k < values.len() && (#[trigger] values[k]).0 == heads[i]
            &&& forall|k: int, l: int|
                0 <= k < l < values.len() ==> (#[trigger] values[k]).0 != (#[trigger] values[l]).0
        }),
    decreases count,
{
    if count > 0 {
        let heads = header.take(count);
        let cells = row.take(count);
        let less_heads = header.take(count - 1);
        let less_cells = row.take(count - 1);
        let less = localized_values(header, row, count - 1);
        let values = localized_values(header, row, count);
        let head = header[count - 1];
        let cell = row[count - 1];
        lemma_values(header, row, count - 1);
        law_fixed_columns(head);
        if !has_fixed_head(head) {
            lemma_set_value(less, head, cell);
        }
        assert forall|k: int| 0 <= k < values.len() implies {
            &&& !has_fixed_head((#[trigger] values[k]).0)
            &&& is_last_text(heads, cells, values[k].0, values[k].1)
        } by {
            if !has_fixed_head(head) && values[k] == (head, cell) {
                assert(heads[count - 1] == head);
            } else {
                let place = if has_fixed_head(head) {
                    k
                } else {
                    choose|l: int| 0 <= l < less.len() && less[l] == values[k]
                };
                assert(less[place] == values[k]);
                let i = choose|i: int|
                    {
                        &&& 0 <= i < less_heads.len()
                        &&& #[trigger] less_heads[i] == values[k].0
                        &&& less_cells[i] == values[k].1
                        &&& forall|j: int|
                            i < j < less_heads.len() ==> #[trigger] less_heads[j] != values[k].0
                    };
                assert(heads[i] == less_heads[i]);
                assert(cells[i] == less_cells[i]);
                assert forall|j: int| i < j < heads.len() implies #[trigger] heads[j]
                    != values[k].0 by {
                    if j < count - 1 {
                        assert(less_heads[j] == heads[j]);
                    }
                }
            }
        }
        assert forall|i: int| 0 <= i < heads.len() && !has_fixed_head(#[trigger] heads[i]) implies exists|
            k: int,
        |
            0 <= k < values.len() && (#[trigger] values[k]).0 == heads[i] by {
            if i < count - 1 {
                assert(less_heads[i] == heads[i]);
                let l = choose|l: int| 0 <= l < less.len() && (#[trigger] less[l]).0 == heads[i];
                if has_fixed_head(head) {
                    assert(values[l].0 == heads[i]);
                } else {
                    assert(less[l].0 == heads[i]);
                }
            }
        }
    }
}

/// What the `csv` crate takes a cell for is asked of each cell.
pub proof fn law_inferred(row: Seq<Seq<char>>, i: int)
    requires
        0 <= i < row.len(),
    ensures
        inferred(row).len() == row.len(),
        inferred(row)[i] == csv_infers_text(row[i]),
{
}

/// A text is escaped character by character: quotes, backslashes and what comes before the
/// space. Everything else stands for itself.
pub proof fn law_escapes(left: Seq<char>, right: Seq<char>, c: char)
    ensures
        json_chars(left + right) == json_chars(left) + json_chars(right),
        json_chars(Seq::empty()) == Seq::<char>::empty(),
        c != '"' && c != '\\' && c as u32 >= 32 ==> json_chars(seq![c]) == seq![c],
        json_chars(seq!['"']) == seq!['\\', '"'],
        json_chars(seq!['\\']) == seq!['\\', '\\'],
        json_chars(seq!['\n']) == seq!['\\', 'n'],
        json_chars(seq!['\r']) == seq!['\\', 'r'],
        json_chars(seq!['\t']) == seq!['\\', 't'],
        c as u32 == 8 ==> json_chars(seq![c]) == seq!['\\', 'b'],
        c as u32 == 12 ==> json_chars(seq![c]) == seq!['\\', 'f'],
        c as u32 <= 31 && c as u32 != 8 && c as u32 != 12 && c != '\n' && c != '\r' && c != '\t'
            ==> json_chars(seq![c]) == seq![
            '\\',
            'u',
            '0',
            '0',
            if c as u32 <= 15 {
                '0'
            } else {
                '1'
            },
            "0123456789abcdef"@[c as u32 as int % 16],
        ],
        json_string(left) == seq!['"'] + json_chars(left) + seq!['"'],
    decreases right.len(),
{
    lemma_one_char(c);
    lemma_one_char('"');
    lemma_one_char('\\');
    lemma_one_char('\n');
    lemma_one_char('\r');
    lemma_one_char('\t');
    reveal_strlit("\"");
    assert("\""@ =~= seq!['"']);
    if right.len() == 0 {
        assert(left + right =~= left);
        assert(json_chars(left) + json_chars(right) =~= json_chars(left));
    } else {
        assert((left + right).drop_last() =~= left + right.drop_last());
        law_escapes(left, right.drop_last(), c);
        assert(json_chars(left + right) =~= json_chars(left) + json_chars(right));
    }
}

proof fn lemma_one_char(c: char)
    ensures
        json_chars(seq![c]) == json_char(c),
{
    let one = seq![c];
    assert(one.drop_last() =~= Seq::<char>::empty());
    assert(one.last() == c);
    assert(json_chars(one.drop_last()) =~= Seq::<char>::empty());
    assert(json_chars(one) =~= json_char(c));
}

/// Parts are put together in order, with a comma between two of them and nowhere else.
pub proof fn law_commas(left: Seq<Seq<char>>, part: Seq<char>, right: Seq<Seq<char>>)
    ensures
        comma_joined(Seq::empty()) == Seq::<char>::empty(),
        comma_joined(seq![part]) == part,
        left.len() > 0 && right.len() > 0 ==> comma_joined(left + right) == comma_joined(left)
            + seq![','] + comma_joined(right),
    decreases right.len(),
{
    reveal_strlit(",");
    assert(","@ =~= seq![',']);
    if left.len() > 0 && right.len() > 0 {
        let both = left + right;
        let fewer = right.drop_last();
        assert(both.drop_last() =~= left + fewer);
        if right.len() == 1 {
            assert(left + fewer =~= left);
            assert(comma_joined(both) =~= comma_joined(left) + seq![','] + comma_joined(right));
        } else {
            law_commas(left, part, fewer);
            assert(comma_joined(both) =~= comma_joined(left) + seq![','] + comma_joined(right));
        }
    }
}

/// A JSON object with the given members, of which each is a name and a value in JSON.
pub open spec fn object(members: Seq<(Seq<char>, Seq<char>)>) -> Seq<char> {
    seq!['{'] + comma_joined(
        Seq::new(members.len(), |i: int| json_string(members[i].0) + seq![':'] + members[i].1),
    ) + seq!['}']
}

/// An entry is an object of its key, its context, its example, its source and its values,
/// and the values are an object of a text for each locale.
pub proof fn law_entry_object(entry: EntryView)
    ensures
        json_entry(entry) == object(
            seq![
                ("key"@, json_string(entry.key)),
                ("context"@, json_string(entry.context)),
                ("example"@, json_string(entry.example)),
                ("source"@, json_string(entry.source)),
                (
                    "values"@,
                    object(
                        Seq::new(
                            entry.values.len(),
                            |i: int| (entry.values[i].0, json_string(entry.values[i].1)),
                        ),
                    ),
                ),
            ],
        ),
{
    let pairs = Seq::new(
        entry.values.len(),
        |i: int| (entry.values[i].0, json_string(entry.values[i].1)),
    );
    let values = object(pairs);
    reveal_strlit(":");
    assert(":"@ =~= seq![':']);
    let inside = json_members(entry.values);
    assert(Seq::new(
        pairs.len(),
        |i: int| json_string(pairs[i].0) + seq![':'] + pairs[i].1,
    ) =~= inside);
    lemma_entry_text(entry, comma_joined(inside), values);
}

proof fn lemma_entry_text(entry: EntryView, inside: Seq<char>, values: Seq<char>)
    requires
        inside == comma_joined(json_members(entry.values)),
        values == seq!['{'] + inside + seq!['}'],
    ensures
        json_entry(entry) == object(
            seq![
                ("key"@, json_string(entry.key)),
                ("context"@, json_string(entry.context)),
                ("example"@, json_string(entry.example)),
                ("source"@, json_string(entry.source)),
                ("values"@, values),
            ],
        ),
{
    let members = seq![
        ("key"@, json_string(entry.key)),
        ("context"@, json_string(entry.context)),
        ("example"@, json_string(entry.example)),
        ("source"@, json_string(entry.source)),
        ("values"@, values),
    ];
    let parts = Seq::new(
        members.len(),
        |i: int| json_string(members[i].0) + seq![':'] + members[i].1,
    );
    lemma_literals();
    lemma_five(parts);
    let key = json_string("key"@) + seq![':'];
    let context = json_string("context"@) + seq![':'];
    let example = json_string("example"@) + seq![':'];
    let source = json_string("source"@) + seq![':'];
    let locales = json_string("values"@) + seq![':'];
    assert(parts[0] == key + json_string(entry.key));
    assert(parts[1] == context + json_string(entry.context));
    assert(parts[2] == example + json_string(entry.example));
    assert(parts[3] == source + json_string(entry.source));
    assert(parts[4] == locales + values);
    assert(object(members) == seq!['{'] + comma_joined(parts) + seq!['}']);
    lemma_regrouped(
        seq!['{'],
        seq![','],
        seq!['}'],
        key,
        json_string(entry.key),
        context,
        json_string(entry.context),
        example,
        json_string(entry.example),
        source,
        json_string(entry.source),
        locales,
        inside,
    );
}

/// The same text, put together member by member.
proof fn lemma_regrouped(
    open: Seq<char>,
    comma: Seq<char>,
    close: Seq<char>,
    k: Seq<char>,
    key: Seq<char>,
    c: Seq<char>,
    context: Seq<char>,
    e: Seq<char>,
    example: Seq<char>,
    s: Seq<char>,
    source: Seq<char>,
    v: Seq<char>,
    inside: Seq<char>,
)
    ensures
        (open + k) + key + (comma + c) + context + (comma + e) + example + (comma + s) + source + (
        comma + v + open) + inside + (close + close) == open + ((k + key) + comma + (c + context)
            + comma + (e + example) + comma + (s + source) + comma + (v + (open + inside + close)))
            + close,
{
    let one = (open + k) + key;
    let first = k + key;
    assert(one =~= open + first);
    let two = one + (comma + c) + context;
    let second = first + comma + (c + context);
    assert(two =~= open + second);
    let three = two + (comma + e) + example;
    let third = second + comma + (e + example);
    assert(three =~= open + third);
    let four = three + (comma + s) + source;
    let fourth = third + comma + (s + source);
    assert(four =~= open + fourth);
    let five = four + (comma + v + open) + inside + (close + close);
    let fifth = fourth + comma + (v + (open + inside + close));
    assert(five =~= open + fifth + close);
}

/// The fixed texts of an entry are its names as JSON strings, with what stands around them.
proof fn lemma_literals()
    ensures
        "{\"key\":"@ == seq!['{'] + (json_string("key"@) + seq![':']),
        ",\"context\":"@ == seq![','] + (json_string("context"@) + seq![':']),
        ",\"example\":"@ == seq![','] + (json_string("example"@) + seq![':']),
        ",\"source\":"@ == seq![','] + (json_string("source"@) + seq![':']),
        ",\"values\":{"@ == seq![','] + (json_string("values"@) + seq![':']) + seq!['{'],
        "}}"@ == seq!['}'] + seq!['}'],
{
    reveal_strlit("\"");
    reveal_strlit("key");
    reveal_strlit("context");
    reveal_strlit("example");
    reveal_strlit("source");
    reveal_strlit("values");
    reveal_strlit("{\"key\":");
    reveal_strlit(",\"context\":");
    reveal_strlit(",\"example\":");
    reveal_strlit(",\"source\":");
    reveal_strlit(",\"values\":{");
    reveal_strlit("}}");
    lemma_plain_text("key"@);
    lemma_plain_text("context"@);
    lemma_plain_text("example"@);
    lemma_plain_text("source"@);
    lemma_plain_text("values"@);
    assert("{\"key\":"@ =~= seq!['{'] + (json_string("key"@) + seq![':']));
    assert(",\"context\":"@ =~= seq![','] + (json_string("context"@) + seq![':']));
    assert(",\"example\":"@ =~= seq![','] + (json_string("example"@) + seq![':']));
    assert(",\"source\":"@ =~= seq![','] + (json_string("source"@) + seq![':']));
    assert(",\"values\":{"@ =~= seq![','] + (json_string("values"@) + seq![':']) + seq!['{']);
    assert("}}"@ =~= seq!['}'] + seq!['}']);
}

/// Text without quotes, backslashes and control characters stands for itself.
proof fn lemma_plain_text(text: Seq<char>)
    requires
        forall|i: int|
            0 <= i < text.len() ==> (#[trigger] text[i]) != '"' && text[i] != '\\' && text[i] as u32
                >= 32,
    ensures
        json_chars(text) == text,
    decreases text.len(),
{
    if text.len() > 0 {
        lemma_plain_text(text.drop_last());
        assert(text[text.len() - 1] == text.last());
        assert(json_chars(text) =~= text);
    } else {
        assert(json_chars(text) =~= text);
    }
}

proof fn lemma_five(parts: Seq<Seq<char>>)
    requires
        parts.len() == 5,
    ensures
        comma_joined(parts) == parts[0] + seq![','] + parts[1] + seq![','] + parts[2] + seq![',']
            + parts[3] + seq![','] + parts[4],
{
    reveal_strlit(",");
    assert(","@ =~= seq![',']);
    let four = parts.drop_last();
    let three = four.drop_last();
    let two = three.drop_last();
    let one = two.drop_last();
    assert(comma_joined(one) == parts[0]);
    assert(comma_joined(two) == parts[0] + seq![','] + parts[1]);
    assert(comma_joined(three) == comma_joined(two) + seq![','] + parts[2]);
    assert(comma_joined(four) == comma_joined(three) + seq![','] + parts[3]);
}

/// The rows of a table are the elements of an array, in order.
pub proof fn law_table_array(entries: Seq<EntryView>)
    ensures
        json_table(entries) == seq!['['] + comma_joined(
            Seq::new(entries.len(), |i: int| json_entry(entries[i])),
        ) + seq![']'],
{
    reveal_strlit("[");
    reveal_strlit("]");
    assert("["@ =~= seq!['[']);
    assert("]"@ =~= seq![']']);
}

/// The contents of a table are those of the rows that the `csv` crate reads, if it reads
/// any and none of them is malformed.
pub proof fn law_table_contents(text: Seq<char>)
    ensures
        table_contents(text) is Some <==> csv_records(text) is Some && entries_of_records(
            csv_records(text)->0,
        ) is Some,
        table_contents(text) is Some ==> table_contents(text) == Some(
            json_table(entries_of_records(csv_records(text)->0)->0),
        ),
{
}

} // verus!
