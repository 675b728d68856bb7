//! The entry log: a journal with one kind of entry record and checkpoints.
//!
//! Records are lines of NUL-separated fields:
//!
//! - `E`, dir, name, ino, kind, base: an entry that is staged, deleted (inode
//!   0) or redirected to `base` (inode -1)
//! - `K`, number, name: a checkpoint
//!
//! Lines that are neither are skipped.
use crate::dtype::DType;
use crate::error::Error;
use crate::fields::{
    byte_views, decode_lossy, entry_path, field_dtype, field_number, is_tag, make_path,
    parse_dtype, parse_field_number, pieces, split, split_bytes, field_text,
};
use crate::record_log::written::{kind_field, lemma_number_field, lemma_text_field, number_field};
use crate::text::{decimal, law_decimal_is_digits, same};
use vstd::prelude::*;
use vstd::utf8::encode_utf8;

verus! {

/// The inode number of a deleted entry.
pub const INO_DELETED: u64 = 0;

/// What stands at an entry.
#[derive(Debug)]
pub enum Target {
    Staged(u64),
    Redirect(String),
    Deleted,
}

/// A record of the log.
#[derive(Debug)]
pub enum Record {
    Entry { path: String, target: Target, dtype: Option<DType> },
    Checkpoint { id: u64, name: String },
}

/// What stands at an entry, as a mathematical value.
pub enum TargetView {
    Staged(u64),
    Redirect(Seq<char>),
    Deleted,
}

/// A record as a mathematical value.
pub enum RecordView {
    Entry { path: Seq<char>, target: TargetView, dtype: Option<DType> },
    Checkpoint { id: u64, name: Seq<char> },
}

impl View for Target {
    type V = TargetView;

    open spec fn view(&self) -> TargetView {
        match self {
            Target::Staged(ino) => TargetView::Staged(*ino),
            Target::Redirect(base) => TargetView::Redirect(base@),
            Target::Deleted => TargetView::Deleted,
        }
    }
}

impl View for Record {
    type V = RecordView;

    open spec fn view(&self) -> RecordView {
        match self {
            Record::Entry { path, target, dtype } => RecordView::Entry {
                path: path@,
                target: target@,
                dtype: *dtype,
            },
            Record::Checkpoint { id, name } => RecordView::Checkpoint { id: *id, name: name@ },
        }
    }
}

/// The records as mathematical values.
pub open spec fn record_views(s: Seq<Record>) -> Seq<RecordView> {
    Seq::new(s.len(), |i: int| s[i]@)
}

/// A parsed log: its records, and for each the offset just past its line.
#[derive(Debug)]
pub struct Journal {
    pub records: Vec<Record>,
    pub offsets: Vec<u64>,
}

/// What the inode and base fields of an entry say, if they say anything.
pub open spec fn target_of(ino: Seq<u8>, base: Seq<u8>) -> Option<TargetView> {
    if field_text(ino) == "-1"@ {
        Some(TargetView::Redirect(field_text(base)))
    } else {
        match field_number(ino) {
            Some(n) => Some(
                if n == INO_DELETED {
                    TargetView::Deleted
                } else {
                    TargetView::Staged(n)
                },
            ),
            None => None,
        }
    }
}

/// The record that the fields of a line make up, if they make one up.
pub open spec fn record_of(f: Seq<Seq<u8>>) -> Option<RecordView> {
    if f[0] == seq![69u8] && f.len() >= 6 && target_of(f[3], f[5]) is Some {
        Some(
            RecordView::Entry {
                path: entry_path(field_text(f[1]), field_text(f[2])),
                target: target_of(f[3], f[5])->0,
                dtype: field_dtype(f[4]),
            },
        )
    } else if f[0] == seq![75u8] && f.len() >= 3 && field_number(f[1]) is Some {
        Some(RecordView::Checkpoint { id: field_number(f[1])->0, name: field_text(f[2]) })
    } else {
        None
    }
}

/// The offset just past the first `n` lines and their line ends.
pub open spec fn past_lines(lines: Seq<Seq<u8>>, n: int) -> nat
    decreases n,
{
    if n <= 0 {
        0
    } else {
        past_lines(lines, n - 1) + lines[n - 1].len() + 1
    }
}

/// The records of the first `n` lines, each with the offset just past its line.
pub open spec fn records_of_lines(lines: Seq<Seq<u8>>, n: int) -> Seq<(RecordView, nat)>
    decreases n,
{
    if n <= 0 {
        Seq::empty()
    } else {
        match record_of(split(lines[n - 1], 0)) {
            Some(r) => records_of_lines(lines, n - 1).push((r, past_lines(lines, n))),
            None => records_of_lines(lines, n - 1),
        }
    }
}

/// The records that the bytes of a log hold, each with the offset just past its line.
pub open spec fn parsed(data: Seq<u8>) -> Seq<(RecordView, nat)> {
    records_of_lines(split(data, 10), split(data, 10).len() as int)
}

/// The records and offsets are those listed.
pub open spec fn holds(j: Journal, s: Seq<(RecordView, nat)>) -> bool {
    &&& j.records@.len() == s.len()
    &&& j.offsets@.len() == s.len()
    &&& forall|i: int| 0 <= i < s.len() ==> (#[trigger] j.records@[i])@ == s[i].0
    &&& forall|i: int| 0 <= i < s.len() ==> (#[trigger] j.offsets@[i]) == s[i].1
}

proof fn lemma_lines_fit(s: Seq<u8>, n: int, sep: u8)
    requires
        0 <= n <= s.len(),
    ensures
        past_lines(
            pieces(s, n, sep),
            pieces(s, n, sep).len() as int,
        ) == n + 1,
        pieces(s, n, sep).len() >= 1,
    decreases n,
{
    let p = pieces(s, n, sep);
    if n == 0 {
        assert(past_lines(p, 0) == 0);
    } else {
        lemma_lines_fit(s, n - 1, sep);
        let q = pieces(s, n - 1, sep);
        if s[n - 1] == sep {
            lemma_past_prefix(q, p, q.len() as int);
        } else {
            lemma_past_prefix(q, p, q.len() - 1);
        }
    }
}

proof fn lemma_past_prefix(a: Seq<Seq<u8>>, b: Seq<Seq<u8>>, n: int)
    requires
        0 <= n <= a.len(),
        n <= b.len(),
        forall|i: int| 0 <= i < n ==> #[trigger] a[i] == b[i],
    ensures
        past_lines(a, n) == past_lines(b, n),
    decreases n,
{
    if n > 0 {
        lemma_past_prefix(a, b, n - 1);
    }
}

proof fn lemma_past_mono(lines: Seq<Seq<u8>>, n: int, m: int)
    requires
        0 <= n <= m,
    ensures
        past_lines(lines, n) <= past_lines(lines, m),
    decreases m - n,
{
    if n < m {
        lemma_past_mono(lines, n, m - 1);
    }
}

/// What the inode and base fields of an entry say, if they say anything.
fn parse_target(ino: &[u8], base: &[u8]) -> (r: Option<Target>)
    ensures
        match r {
            Some(t) => target_of(ino@, base@) == Some(t@),
            None => target_of(ino@, base@) is None,
        },
{
    let text = decode_lossy(ino);
    if same(text.as_str(), "-1") {
        Some(Target::Redirect(decode_lossy(base)))
    } else {
        match parse_field_number(ino) {
            Some(n) => if n == INO_DELETED {
                Some(Target::Deleted)
            } else {
                Some(Target::Staged(n))
            },
            None => None,
        }
    }
}

/// The record that the fields of a line make up, if they make one up.
fn parse_record(f: &Vec<Vec<u8>>) -> (r: Option<Record>)
    requires
        f@.len() >= 1,
    ensures
        match r {
            Some(x) => record_of(byte_views(f@)) == Some(x@),
            None => record_of(byte_views(f@)) is None,
        },
{
    let ghost v = byte_views(f@);
    assert(forall|i: int| 0 <= i < f@.len() ==> v[i] == (#[trigger] f@[i])@);
    assert(seq![69u8][0] == 69);
    assert(seq![75u8][0] == 75);
    let tag: &[u8] = f[0].as_slice();
    if is_tag(tag, 69) && f.len() >= 6 {
        let path = make_path(f[1].as_slice(), f[2].as_slice());
        let dtype = parse_dtype(f[4].as_slice());
        match parse_target(f[3].as_slice(), f[5].as_slice()) {
            Some(target) => Some(Record::Entry { path, target, dtype }),
            None => None,
        }
    } else if is_tag(tag, 75) && f.len() >= 3 {
        let name = decode_lossy(f[2].as_slice());
        match parse_field_number(f[1].as_slice()) {
            Some(id) => Some(Record::Checkpoint { id, name }),
            None => None,
        }
    } else {
        None
    }
}

/// True when the log ends with a line end.
pub open spec fn is_ended(data: Seq<u8>) -> bool {
    data.len() > 0 && data.last() == 10
}

/// No record stands after the last line end.
proof fn lemma_ended(data: Seq<u8>)
    requires
        is_ended(data),
    ensures
        ({
            let lines = split(data, 10);
            let n = lines.len() - 1;
            &&& n >= 1
            &&& record_of(split(lines[n], 0)) is None
            &&& past_lines(lines, n) == data.len()
        }),
{
    let lines = split(data, 10);
    let n = lines.len() - 1;
    lemma_lines_fit(data, data.len() as int, 10);
    lemma_lines_fit(data, data.len() - 1, 10);
    assert(lines[n] == Seq::<u8>::empty());
    assert(split(Seq::<u8>::empty(), 0)[0].len() == 0);
    assert(seq![69u8].len() == 1 && seq![75u8].len() == 1);
}

/// Parses the bytes of a log. Malformed lines are skipped.
pub fn parse(data: &[u8]) -> (r: Journal)
    requires
        data@.len() < u64::MAX || is_ended(data@),
    ensures
        holds(r, parsed(data@)),
{
    let size: usize = data.len();
    let lines = split_bytes(data, 10);
    let ghost v = byte_views(lines@);
    proof {
        lemma_lines_fit(data@, data@.len() as int, 10);
        if is_ended(data@) {
            lemma_ended(data@);
        }
    }
    let mut r = Journal { records: Vec::new(), offsets: Vec::new() };
    let mut pos: u64 = 0;
    let mut i: usize = 0;
    while i < lines.len()
        invariant
            i <= lines@.len(),
            v == byte_views(lines@),
            i < lines@.len() ==> pos == past_lines(v, i as int),
            past_lines(v, v.len() as int) == data@.len() + 1,
            data@.len() == size,
            data@.len() < u64::MAX || record_of(split(v[v.len() - 1], 0)) is None,
            holds(r, records_of_lines(v, i as int)),
        decreases lines@.len() - i,
    {
        assert(v[i as int] == lines@[i as int]@);
        proof {
            lemma_past_mono(v, i + 1, v.len() as int);
            if i < v.len() - 1 {
                lemma_past_mono(v, i + 1, v.len() - 1);
            }
        }
        let fields = split_bytes(lines[i].as_slice(), 0);
        match parse_record(&fields) {
            Some(x) => {
                r.records.push(x);
                r.offsets.push(pos + lines[i].len() as u64 + 1);
            },
            None => {},
        }
        if i + 1 < lines.len() {
            pos = pos + lines[i].len() as u64 + 1;
        }
        i += 1;
    }
    r
}

/// The length to which the log is cut so that it ends with the record at an index.
pub fn truncate_offset(journal: &Journal, record_idx: usize) -> (r: Result<u64, Error>)
    ensures
        match r {
            Ok(n) => record_idx < journal.offsets@.len() && n == journal.offsets@[record_idx as int],
            Err(e) => record_idx >= journal.offsets@.len() && e is RecordOutOfBounds,
        },
{
    if record_idx < journal.offsets.len() {
        Ok(journal.offsets[record_idx])
    } else {
        Err(Error::RecordOutOfBounds)
    }
}

// ── Laws ─────────────────────────────────────────────────────────────

proof fn lemma_offsets_rise(lines: Seq<Seq<u8>>, n: int)
    requires
        0 <= n,
    ensures
        forall|i: int|
            0 <= i < records_of_lines(lines, n).len() ==> 0 < (#[trigger] records_of_lines(
                lines,
                n,
            )[i]).1 <= past_lines(lines, n),
        forall|i: int, j: int|
            0 <= i < j < records_of_lines(lines, n).len() ==> (#[trigger] records_of_lines(
                lines,
                n,
            )[i]).1 < (#[trigger] records_of_lines(lines, n)[j]).1,
    decreases n,
{
    if n > 0 {
        lemma_offsets_rise(lines, n - 1);
        let a = records_of_lines(lines, n - 1);
        let b = records_of_lines(lines, n);
        assert forall|i: int| 0 <= i < b.len() implies 0 < (#[trigger] b[i]).1 <= past_lines(
            lines,
            n,
        ) by {
            if i < a.len() {
                assert(b[i] == a[i]);
            }
        }
        assert forall|i: int, j: int| 0 <= i < j < b.len() implies (#[trigger] b[i]).1 < (
        #[trigger] b[j]).1 by {
            assert(b[i] == a[i]);
            if j < a.len() {
                assert(b[j] == a[j]);
            }
        }
    }
}

/// Offsets rise from record to record, and none is past the end of the log
/// by more than the line end that its last line may lack.
pub proof fn law_offsets_rise(data: Seq<u8>)
    ensures
        forall|i: int, j: int|
            0 <= i < j < parsed(data).len() ==> (#[trigger] parsed(data)[i]).1 < (
            #[trigger] parsed(data)[j]).1,
        forall|i: int|
            0 <= i < parsed(data).len() ==> (#[trigger] parsed(data)[i]).1 <= data.len() + 1,
{
    lemma_lines_fit(data, data.len() as int, 10);
    lemma_offsets_rise(split(data, 10), split(data, 10).len() as int);
}

/// The line ends stand just before the offsets past the lines, and what comes
/// before a line end is made up of the lines before it.
proof fn lemma_line_ends(s: Seq<u8>, m: int, n: int, sep: u8)
    requires
        0 <= m <= s.len(),
        1 <= n < pieces(s, m, sep).len(),
    ensures
        1 <= past_lines(pieces(s, m, sep), n) <= m,
        s[past_lines(pieces(s, m, sep), n) - 1] == sep,
        pieces(s, past_lines(pieces(s, m, sep), n) - 1, sep) == pieces(s, m, sep).take(n),
    decreases m,
{
    let p = pieces(s, m, sep);
    if m > 0 {
        let q = pieces(s, m - 1, sep);
        lemma_lines_fit(s, m - 1, sep);
        lemma_past_prefix(q, p, if n <= q.len() { n } else { q.len() as int });
        if s[m - 1] == sep && n == q.len() {
            assert(p.take(n) =~= q);
        } else {
            assert(n < q.len());
            lemma_past_prefix(q, p, n);
            lemma_line_ends(s, m - 1, n, sep);
            assert(p.take(n) =~= q.take(n));
        }
    }
}

proof fn lemma_record_line(lines: Seq<Seq<u8>>, m: int, i: int) -> (n: int)
    requires
        0 <= m <= lines.len(),
        0 <= i < records_of_lines(lines, m).len(),
    ensures
        1 <= n <= m,
        records_of_lines(lines, n).len() == i + 1,
        records_of_lines(lines, m)[i].1 == past_lines(lines, n),
        records_of_lines(lines, n) == records_of_lines(lines, m).take(i + 1),
    decreases m,
{
    let b = records_of_lines(lines, m);
    let a = records_of_lines(lines, m - 1);
    if i < a.len() {
        let n = lemma_record_line(lines, m - 1, i);
        assert(b[i] == a[i]);
        assert(b.take(i + 1) =~= a.take(i + 1));
        n
    } else {
        assert(b.take(i + 1) =~= b);
        m
    }
}

proof fn lemma_lines_prefix(a: Seq<Seq<u8>>, b: Seq<Seq<u8>>, n: int)
    requires
        0 <= n <= a.len(),
        n <= b.len(),
        forall|i: int| 0 <= i < n ==> #[trigger] a[i] == b[i],
    ensures
        records_of_lines(a, n) == records_of_lines(b, n),
    decreases n,
{
    if n > 0 {
        lemma_lines_prefix(a, b, n - 1);
        lemma_past_prefix(a, b, n);
    }
}

/// Cutting the log at the offset of a record keeps the records up to that
/// one, and no more.
pub proof fn law_truncate_keeps_records(data: Seq<u8>, i: int)
    requires
        0 <= i < parsed(data).len(),
        parsed(data)[i].1 <= data.len(),
    ensures
        parsed(data.take(parsed(data)[i].1 as int)) == parsed(data).take(i + 1),
{
    let lines = split(data, 10);
    let n = lemma_record_line(lines, lines.len() as int, i);
    let k = past_lines(lines, n) as int;
    lemma_lines_fit(data, data.len() as int, 10);
    assert(n < lines.len());
    lemma_line_ends(data, data.len() as int, n, 10);
    let cut = data.take(k);
    assert(cut.take(k - 1) =~= data.take(k - 1));
    crate::fields::lemma_pieces_prefix(cut, data, k - 1, 10);
    let short = lines.take(n).push(Seq::<u8>::empty());
    assert(split(cut, 10) == short);
    lemma_lines_prefix(short, lines, n);
    assert(short[n] == Seq::<u8>::empty());
    assert(split(Seq::<u8>::empty(), 0)[0].len() == 0);
    assert(seq![69u8].len() == 1 && seq![75u8].len() == 1);
    assert(record_of(split(Seq::<u8>::empty(), 0)) is None);
}

/// Of a log that ends with a line end no offset is past the end of the log, so
/// that cutting it at the offset of any record keeps the records up to that
/// one, and at that of the last record all of them.
pub proof fn law_truncate_ended(data: Seq<u8>, i: int)
    requires
        is_ended(data),
        0 <= i < parsed(data).len(),
    ensures
        parsed(data)[i].1 <= data.len(),
        parsed(data.take(parsed(data)[i].1 as int)) == parsed(data).take(i + 1),
        i == parsed(data).len() - 1 ==> parsed(data.take(parsed(data)[i].1 as int)) == parsed(data),
{
    let lines = split(data, 10);
    lemma_ended(data);
    lemma_offsets_rise(lines, lines.len() - 1);
    assert(parsed(data) == records_of_lines(lines, lines.len() - 1));
    law_truncate_keeps_records(data, i);
    if i == parsed(data).len() - 1 {
        assert(parsed(data).take(i + 1) =~= parsed(data));
    }
}

/// The fields in which a record is written. An entry is about the path made up
/// of `dir`, a slash and `name`; its inode is -1 where it is redirected and 0
/// where it is deleted.
pub open spec fn fields_of(r: RecordView, dir: Seq<char>, name: Seq<char>) -> Seq<Seq<u8>> {
    match r {
        RecordView::Entry { target, dtype, .. } => {
            let (ino, base) = match target {
                TargetView::Staged(n) => (number_field(n), Seq::empty()),
                TargetView::Redirect(b) => (encode_utf8(seq!['-', '1']), encode_utf8(b)),
                TargetView::Deleted => (encode_utf8(seq!['0']), Seq::empty()),
            };
            seq![
                seq![69u8],
                encode_utf8(dir),
                encode_utf8(name),
                ino,
                kind_field(dtype),
                base,
            ]
        },
        RecordView::Checkpoint { id, name } => seq![
            seq![75u8],
            number_field(id),
            encode_utf8(name),
        ],
    }
}

/// A record is read from the fields in which it is written.
pub proof fn law_fields_read_back(r: RecordView, dir: Seq<char>, name: Seq<char>)
    requires
        r matches RecordView::Entry { path, target, .. } ==> path == dir + seq!['/'] + name
            && target != TargetView::Staged(0),
    ensures
        record_of(fields_of(r, dir, name)) == Some(r),
{
    lemma_text_field(dir);
    lemma_text_field(name);
    lemma_text_field(seq!['-', '1']);
    lemma_text_field(seq!['0']);
    assert(seq![69u8][0] == 69 && seq![75u8][0] == 75);
    assert(dir + seq!['/'] + name =~= dir.push('/') + name);
    reveal_strlit("-1");
    assert("-1"@ =~= seq!['-', '1']);
    match r {
        RecordView::Entry { target, .. } => {
            match target {
                TargetView::Staged(n) => {
                    lemma_number_field(n);
                    lemma_text_field(decimal(n as nat));
                    law_decimal_is_digits(n as nat);
                    assert(decimal(n as nat)[0] != '-');
                },
                TargetView::Redirect(b) => {
                    lemma_text_field(b);
                },
                TargetView::Deleted => {
                    lemma_number_field(0);
                    assert(decimal(0) =~= seq!['0']);
                },
            }
        },
        RecordView::Checkpoint { id, name } => {
            lemma_number_field(id);
            lemma_text_field(name);
        },
    }
}

} // verus!
