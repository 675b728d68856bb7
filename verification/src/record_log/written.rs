//! That a log is read as it is written.
use super::parse::{law_parse_appends, parsed, record_of, records_of_lines};
use super::types::RecordView;
use crate::dtype::DType;
use crate::fields::{field_number, field_text, law_split_joined, lemma_no_separator, split};
use crate::text::{decimal, law_number_of_decimal};
use vstd::prelude::*;
use vstd::utf8::encode_utf8;

verus! {

/// The field for a kind: a letter, or nothing.
pub open spec fn kind_field(d: Option<DType>) -> Seq<u8> {
    match d {
        Some(DType::File) => seq![102u8],
        Some(DType::Dir) => seq![100u8],
        Some(DType::Link) => seq![108u8],
        None => Seq::empty(),
    }
}

/// The field for a number.
pub open spec fn number_field(n: u64) -> Seq<u8> {
    encode_utf8(decimal(n as nat))
}

/// The fields in which a record is written. Where it is about a path, that
/// path is `dir`, a slash and `name`.
pub open spec fn fields_of(r: RecordView, dir: Seq<char>, name: Seq<char>) -> Seq<Seq<u8>> {
    let (d, n) = (encode_utf8(dir), encode_utf8(name));
    match r {
        RecordView::Added { dtype, ino, .. } => seq![
            seq![65u8],
            d,
            n,
            kind_field(dtype),
            number_field(ino),
        ],
        RecordView::Modified { dtype, ino, .. } => seq![
            seq![77u8],
            d,
            n,
            kind_field(dtype),
            number_field(ino),
        ],
        RecordView::Deleted { .. } => seq![seq![68u8], d, n],
        RecordView::Redirect { dtype, base, .. } => seq![
            seq![82u8],
            d,
            n,
            kind_field(dtype),
            encode_utf8(base),
        ],
        RecordView::Replace { dtype, base, .. } => seq![
            seq![80u8],
            d,
            n,
            kind_field(dtype),
            encode_utf8(base),
        ],
        RecordView::Checkpoint { gen_id, name } => seq![
            seq![75u8],
            number_field(gen_id),
            encode_utf8(name),
        ],
        RecordView::Restore { gen_id, target_gen } => seq![
            seq![83u8],
            number_field(gen_id),
            number_field(target_gen),
        ],
    }
}

/// The record is about the path made up of `dir` and `name`, if it is about a path.
pub open spec fn is_at(r: RecordView, dir: Seq<char>, name: Seq<char>) -> bool {
    let p = dir + seq!['/'] + name;
    match r {
        RecordView::Added { path, .. } => path == p,
        RecordView::Modified { path, .. } => path == p,
        RecordView::Deleted { path } => path == p,
        RecordView::Redirect { path, .. } => path == p,
        RecordView::Replace { path, .. } => path == p,
        _ => true,
    }
}

/// The fields with a NUL between each two of them.
pub open spec fn line_of(fields: Seq<Seq<u8>>) -> Seq<u8>
    decreases fields.len(),
{
    if fields.len() == 0 {
        Seq::empty()
    } else if fields.len() == 1 {
        fields[0]
    } else {
        line_of(fields.drop_last()).push(0) + fields.last()
    }
}

pub(crate) proof fn lemma_text_field(s: Seq<char>)
    ensures
        field_text(encode_utf8(s)) == s,
{
    vstd::utf8::encode_utf8_valid_utf8(s);
    vstd::utf8::encode_utf8_decode_utf8(s);
}

pub(crate) proof fn lemma_number_field(n: u64)
    ensures
        field_number(number_field(n)) == Some(n),
{
    lemma_text_field(decimal(n as nat));
    law_number_of_decimal(n);
}

/// A record is read from the fields in which it is written.
pub proof fn law_fields_read_back(r: RecordView, dir: Seq<char>, name: Seq<char>)
    requires
        is_at(r, dir, name),
    ensures
        record_of(fields_of(r, dir, name)) == Some(r),
{
    lemma_text_field(dir);
    lemma_text_field(name);
    assert(seq![65u8][0] == 65 && seq![77u8][0] == 77 && seq![68u8][0] == 68 && seq![82u8][0] == 82
        && seq![80u8][0] == 80 && seq![75u8][0] == 75 && seq![83u8][0] == 83);
    assert(dir + seq!['/'] + name =~= dir.push('/') + name);
    match r {
        RecordView::Added { ino, .. } => {
            lemma_number_field(ino);
        },
        RecordView::Modified { ino, .. } => {
            lemma_number_field(ino);
        },
        RecordView::Deleted { .. } => {},
        RecordView::Redirect { base, .. } => {
            lemma_text_field(base);
        },
        RecordView::Replace { base, .. } => {
            lemma_text_field(base);
        },
        RecordView::Checkpoint { gen_id, name } => {
            lemma_number_field(gen_id);
            lemma_text_field(name);
        },
        RecordView::Restore { gen_id, target_gen } => {
            lemma_number_field(gen_id);
            lemma_number_field(target_gen);
        },
    }
}

/// A line is cut into the fields that it is made up of.
pub proof fn law_line_cuts_into_fields(fields: Seq<Seq<u8>>)
    requires
        fields.len() > 0,
        forall|i: int| 0 <= i < fields.len() ==> !(#[trigger] fields[i]).contains(0),
    ensures
        split(line_of(fields), 0) == fields,
    decreases fields.len(),
{
    if fields.len() == 1 {
        lemma_no_separator(fields[0], 0);
        assert(fields =~= seq![fields[0]]);
    } else {
        let f = fields.drop_last();
        assert forall|i: int| 0 <= i < f.len() implies !(#[trigger] f[i]).contains(0) by {
            assert(f[i] == fields[i]);
        }
        law_line_cuts_into_fields(f);
        law_split_joined(line_of(f), fields.last(), 0);
        assert(!fields[fields.len() - 1].contains(0));
        lemma_no_separator(fields.last(), 0);
        assert(fields =~= f + seq![fields.last()]);
    }
}

/// A log is read as it is written: a line that is appended to it adds the
/// record that the line is made up of, and leaves those before as they are.
pub proof fn law_written_is_read(
    data: Seq<u8>,
    r: RecordView,
    dir: Seq<char>,
    name: Seq<char>,
)
    requires
        is_at(r, dir, name),
        data.len() == 0 || data.last() == 10,
        forall|i: int|
            0 <= i < fields_of(r, dir, name).len() ==> !(#[trigger] fields_of(
                r,
                dir,
                name,
            )[i]).contains(0),
        !line_of(fields_of(r, dir, name)).contains(10),
    ensures
        parsed(data + line_of(fields_of(r, dir, name)).push(10)) == parsed(data).push(r),
{
    let f = fields_of(r, dir, name);
    let l = line_of(f);
    law_fields_read_back(r, dir, name);
    law_line_cuts_into_fields(f);
    lemma_no_separator(l, 10);
    let e = Seq::<u8>::empty();
    lemma_no_separator(e, 10);
    lemma_no_separator(e, 0);
    law_split_joined(l, e, 10);
    assert(l.push(10) + e =~= l.push(10));
    let lines = split(l.push(10), 10);
    assert(lines =~= seq![l, e]);
    assert(record_of(split(e, 0)) is None) by {
        assert(split(e, 0)[0] == e);
        assert(seq![65u8].len() == 1 && seq![77u8].len() == 1 && seq![68u8].len() == 1
            && seq![82u8].len() == 1 && seq![80u8].len() == 1 && seq![75u8].len() == 1
            && seq![83u8].len() == 1);
    }
    reveal_with_fuel(records_of_lines, 3);
    assert(parsed(l.push(10)) =~= seq![r]);
    if data.len() == 0 {
        assert(data + l.push(10) =~= l.push(10));
        let ls = split(data, 10);
        assert(data =~= e);
        assert(parsed(data) =~= Seq::empty());
        assert(parsed(data).push(r) =~= seq![r]);
    } else {
        law_parse_appends(data.drop_last(), l.push(10));
        assert(data.drop_last().push(10) + l.push(10) =~= data + l.push(10));
        lemma_ended_same(data);
        assert(parsed(data.drop_last()) + seq![r] =~= parsed(data).push(r));
    }
}

/// The last line end of a log adds nothing to it.
proof fn lemma_ended_same(data: Seq<u8>)
    requires
        data.len() > 0,
        data.last() == 10,
    ensures
        parsed(data) == parsed(data.drop_last()),
{
    let d = data.drop_last();
    let e = Seq::<u8>::empty();
    law_parse_appends(d, e);
    assert(d.push(10) + e =~= data);
    lemma_no_separator(e, 10);
    lemma_no_separator(e, 0);
    assert(record_of(split(e, 0)) is None) by {
        assert(split(e, 0)[0] == e);
        assert(seq![65u8].len() == 1 && seq![77u8].len() == 1 && seq![68u8].len() == 1
            && seq![82u8].len() == 1 && seq![80u8].len() == 1 && seq![75u8].len() == 1
            && seq![83u8].len() == 1);
    }
    reveal_with_fuel(records_of_lines, 2);
    assert(parsed(e) =~= Seq::empty());
    assert(parsed(d) + parsed(e) =~= parsed(d));
}

} // verus!
