use vstd::prelude::*;
use vstd::string::StrSliceExecFns;
use vstd::string::StringExecFns;

verus! {

/// The character that separates the fields of a row.
pub open spec fn separator() -> char {
    ','
}

/// The end of the field that holds position `from`: the position of the next
/// separator at or behind `from`, or the end of the text.
pub open spec fn field_end(text: Seq<char>, from: int) -> int
    decreases text.len() - from,
{
    if from >= text.len() || text[from] == separator() {
        from
    } else {
        field_end(text, from + 1)
    }
}

/// A field ends at or behind the position it is looked for from, within the
/// text, and holds no separator.
pub proof fn lemma_field_end(text: Seq<char>, from: int)
    requires
        0 <= from <= text.len(),
    ensures
        from <= field_end(text, from) <= text.len(),
        field_end(text, from) < text.len() ==> text[field_end(text, from)] == separator(),
        forall|i: int| from <= i < field_end(text, from) ==> text[i] != separator(),
    decreases text.len() - from,
{
    if from < text.len() && text[from] != separator() {
        lemma_field_end(text, from + 1);
    }
}

/// The fields of the text behind position `from`: the pieces between
/// separators, in order. A text without a separator is one field.
pub open spec fn fields_from(text: Seq<char>, from: int) -> Seq<Seq<char>>
    decreases text.len() - from,
    via fields_from_terminates
{
    let end = field_end(text, from);
    if 0 <= from && end < text.len() {
        seq![text.subrange(from, end)] + fields_from(text, end + 1)
    } else {
        seq![text.subrange(from, text.len() as int)]
    }
}

#[via_fn]
proof fn fields_from_terminates(text: Seq<char>, from: int) {
    if 0 <= from <= text.len() {
        lemma_field_end(text, from);
    }
}

/// The fields of a row.
pub open spec fn fields_of(text: Seq<char>) -> Seq<Seq<char>> {
    fields_from(text, 0)
}

/// The texts of a run of strings.
pub open spec fn texts(strings: Seq<String>) -> Seq<Seq<char>> {
    strings.map_values(|s: String| s@)
}

/// Splits a row into its fields.
pub fn split_fields(row: &str) -> (fields: Vec<String>)
    ensures
        texts(fields@) == fields_of(row@),
{
    let n = row.unicode_len();
    let mut fields: Vec<String> = Vec::new();
    let mut from: usize = 0;
    let mut i: usize = 0;
    assert(texts(fields@) + fields_from(row@, 0) == fields_of(row@));
    while i < n
        invariant
            n == row@.len(),
            from <= i <= n,
            field_end(row@, from as int) == field_end(row@, i as int),
            texts(fields@) + fields_from(row@, from as int) == fields_of(row@),
        decreases n - i,
    {
        if row.get_char(i) == ',' {
            let ghost before = texts(fields@);
            let field = row.substring_char(from, i).to_owned();
            fields.push(field);
            proof {
                let piece = row@.subrange(from as int, i as int);
                assert(texts(fields@) == before.push(piece));
                assert(fields_from(row@, from as int) == seq![piece] + fields_from(row@, i + 1));
                assert(before + (seq![piece] + fields_from(row@, i + 1)) == before.push(piece)
                    + fields_from(row@, i + 1));
            }
            from = i + 1;
        }
        i += 1;
    }
    let ghost before = texts(fields@);
    let field = row.substring_char(from, n).to_owned();
    fields.push(field);
    proof {
        let piece = row@.subrange(from as int, n as int);
        assert(texts(fields@) == before.push(piece));
        assert(fields_from(row@, from as int) == seq![piece]);
        assert(before + seq![piece] == before.push(piece));
    }
    fields
}

/// Fields put in a row, with a separator between each two.
pub open spec fn row_of_fields(fields: Seq<Seq<char>>) -> Seq<char>
    decreases fields.len(),
{
    if fields.len() == 0 {
        Seq::empty()
    } else if fields.len() == 1 {
        fields[0]
    } else {
        row_of_fields(fields.drop_last()) + seq![separator()] + fields.last()
    }
}

/// A row of six fields is the fields in order with a separator between each
/// two.
pub proof fn lemma_row_of_six_fields(
    a: Seq<char>,
    b: Seq<char>,
    c: Seq<char>,
    d: Seq<char>,
    e: Seq<char>,
    f: Seq<char>,
)
    ensures
        row_of_fields(seq![a, b, c, d, e, f]) == a + seq![separator()] + b + seq![separator()] + c
            + seq![separator()] + d + seq![separator()] + e + seq![separator()] + f,
{
    let fields = seq![a, b, c, d, e, f];
    reveal_with_fuel(row_of_fields, 7);
    assert(fields.drop_last() == seq![a, b, c, d, e]);
    assert(fields.drop_last().drop_last() == seq![a, b, c, d]);
    assert(fields.drop_last().drop_last().drop_last() == seq![a, b, c]);
    assert(fields.drop_last().drop_last().drop_last().drop_last() == seq![a, b]);
    assert(fields.drop_last().drop_last().drop_last().drop_last().drop_last() == seq![a]);
}

/// Appends a separator and a field to a row.
pub fn append_field(row: &mut String, field: &str)
    ensures
        final(row)@ == old(row)@ + seq![separator()] + field@,
{
    proof {
        reveal_strlit(",");
    }
    row.append(",");
    row.append(field);
}

} // verus!
