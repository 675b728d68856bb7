//! Parsing the record log.
//!
//! Records are lines of NUL-separated fields:
//!
//! - `A`, dir, name, kind, ino: an addition
//! - `M`, dir, name, kind, ino: a modification
//! - `D`, dir, name: a deletion
//! - `R`, dir, name, kind, base: a redirect at a new path
//! - `P`, dir, name, kind, base: a redirect at an existing path
//! - `K`, generation, name: a checkpoint
//! - `S`, generation, target generation: a restore
//!
//! Lines that are none of these are skipped.
use super::types::{record_views, Checkpoint, Record, RecordView};
use crate::error::Error;
use crate::fields::{
    byte_views, decode_lossy, entry_path, field_dtype, field_number, is_tag, make_path,
    parse_dtype, parse_field_number, split, split_bytes, field_text,
};
use crate::text::{decimal, join_path, joined, to_decimal};
use vstd::prelude::*;

verus! {

/// A parsed log.
#[derive(Debug)]
pub struct Journal {
    pub records: Vec<Record>,
}

/// The record that the fields of a line make up, if they make one up.
pub open spec fn record_of(f: Seq<Seq<u8>>) -> Option<RecordView> {
    let tag = f[0];
    if tag == seq![65u8] && f.len() >= 5 && field_number(f[4]) is Some {
        Some(
            RecordView::Added {
                path: entry_path(field_text(f[1]), field_text(f[2])),
                dtype: field_dtype(f[3]),
                ino: field_number(f[4])->0,
            },
        )
    } else if tag == seq![77u8] && f.len() >= 5 && field_number(f[4]) is Some {
        Some(
            RecordView::Modified {
                path: entry_path(field_text(f[1]), field_text(f[2])),
                dtype: field_dtype(f[3]),
                ino: field_number(f[4])->0,
            },
        )
    } else if tag == seq![68u8] && f.len() >= 3 {
        Some(RecordView::Deleted { path: entry_path(field_text(f[1]), field_text(f[2])) })
    } else if tag == seq![82u8] && f.len() >= 5 {
        Some(
            RecordView::Redirect {
                path: entry_path(field_text(f[1]), field_text(f[2])),
                dtype: field_dtype(f[3]),
                base: field_text(f[4]),
            },
        )
    } else if tag == seq![80u8] && f.len() >= 5 {
        Some(
            RecordView::Replace {
                path: entry_path(field_text(f[1]), field_text(f[2])),
                dtype: field_dtype(f[3]),
                base: field_text(f[4]),
            },
        )
    } else if tag == seq![75u8] && f.len() >= 3 && field_number(f[1]) is Some {
        Some(RecordView::Checkpoint { gen_id: field_number(f[1])->0, name: field_text(f[2]) })
    } else if tag == seq![83u8] && f.len() >= 3 && field_number(f[1]) is Some && field_number(
        f[2],
    ) is Some {
        Some(
            RecordView::Restore {
                gen_id: field_number(f[1])->0,
                target_gen: field_number(f[2])->0,
            },
        )
    } else {
        None
    }
}

/// The records of the first `n` lines.
pub open spec fn records_of_lines(lines: Seq<Seq<u8>>, n: int) -> Seq<RecordView>
    decreases n,
{
    if n <= 0 {
        Seq::empty()
    } else {
        match record_of(split(lines[n - 1], 0)) {
            Some(r) => records_of_lines(lines, n - 1).push(r),
            None => records_of_lines(lines, n - 1),
        }
    }
}

/// The records that the bytes of a log hold.
pub open spec fn parsed(data: Seq<u8>) -> Seq<RecordView> {
    records_of_lines(split(data, 10), split(data, 10).len() as int)
}

/// The record that the fields of a line make up, if they make one up.
fn parse_record(f: &Vec<Vec<u8>>) -> (r: Option<Record>)
    requires
        f@.len() >= 1,
    ensures
        match r {
            Some(x) => record_of(byte_views(f@)) == Some(x@),
            None => record_of(byte_views(f@)) is None,
        },
{
    let ghost v = byte_views(f@);
    assert(forall|i: int| 0 <= i < f@.len() ==> v[i] == (#[trigger] f@[i])@);
    let tag: &[u8] = f[0].as_slice();
    let n: usize = f.len();
    proof {
        assert(seq![65u8][0] == 65);
        assert(seq![77u8][0] == 77);
        assert(seq![68u8][0] == 68);
        assert(seq![82u8][0] == 82);
        assert(seq![80u8][0] == 80);
        assert(seq![75u8][0] == 75);
        assert(seq![83u8][0] == 83);
    }
    if (is_tag(tag, 65) || is_tag(tag, 77)) && n >= 5 {
        let path = make_path(f[1].as_slice(), f[2].as_slice());
        let dtype = parse_dtype(f[3].as_slice());
        let ino: u64 = match parse_field_number(f[4].as_slice()) {
            Some(x) => x,
            None => return None,
        };
        if is_tag(tag, 65) {
            Some(Record::Added { path, dtype, ino })
        } else {
            Some(Record::Modified { path, dtype, ino })
        }
    } else if is_tag(tag, 68) && n >= 3 {
        Some(Record::Deleted { path: make_path(f[1].as_slice(), f[2].as_slice()) })
    } else if (is_tag(tag, 82) || is_tag(tag, 80)) && n >= 5 {
        let path = make_path(f[1].as_slice(), f[2].as_slice());
        let dtype = parse_dtype(f[3].as_slice());
        let base = decode_lossy(f[4].as_slice());
        if is_tag(tag, 82) {
            Some(Record::Redirect { path, dtype, base })
        } else {
            Some(Record::Replace { path, dtype, base })
        }
    } else if is_tag(tag, 75) && n >= 3 {
        let name = decode_lossy(f[2].as_slice());
        match parse_field_number(f[1].as_slice()) {
            Some(gen_id) => Some(Record::Checkpoint(Checkpoint { gen_id, name })),
            None => None,
        }
    } else if is_tag(tag, 83) && n >= 3 {
        match (parse_field_number(f[1].as_slice()), parse_field_number(f[2].as_slice())) {
            (Some(gen_id), Some(target_gen)) => Some(Record::Restore { gen_id, target_gen }),
            _ => None,
        }
    } else {
        None
    }
}

/// Parses the bytes of a log. Malformed lines are skipped.
pub fn parse(data: &[u8]) -> (r: Result<Journal, Error>)
    ensures
        r is Ok,
        record_views((r->Ok_0).records@) == parsed(data@),
{
    let lines = split_bytes(data, 10);
    let ghost v = byte_views(lines@);
    let mut records: Vec<Record> = Vec::new();
    let mut i: usize = 0;
    while i < lines.len()
        invariant
            i <= lines@.len(),
            v == byte_views(lines@),
            record_views(records@) == records_of_lines(v, i as int),
        decreases lines@.len() - i,
    {
        let ghost before = records@;
        assert(v[i as int] == lines@[i as int]@);
        let fields = split_bytes(lines[i].as_slice(), 0);
        match parse_record(&fields) {
            Some(x) => {
                records.push(x);
                proof {
                    assert(record_views(records@) =~= record_views(before).push(x@));
                }
            },
            None => {},
        }
        i += 1;
    }
    Ok(Journal { records })
}

/// The path of a staged inode below the session directory.
pub open spec fn staged_path(agfs_dir: Seq<char>, ino: nat) -> Seq<char> {
    joined(joined(agfs_dir, "inodes"@), decimal(ino))
}

/// The path of a staged inode below the session directory.
pub fn inode_path(agfs_dir: &str, ino: u64) -> (r: String)
    ensures
        r@ == staged_path(agfs_dir@, ino as nat),
{
    let dir = join_path(agfs_dir, "inodes");
    let leaf = to_decimal(ino);
    join_path(dir.as_str(), leaf.as_str())
}

proof fn lemma_records_of_joined(a: Seq<Seq<u8>>, b: Seq<Seq<u8>>, n: int)
    requires
        0 <= n <= b.len(),
    ensures
        records_of_lines(a + b, a.len() + n) == records_of_lines(a, a.len() as int)
            + records_of_lines(b, n),
    decreases n,
{
    if n == 0 {
        lemma_records_of_prefix(a, b, a.len() as int);
        assert(records_of_lines(a, a.len() as int) + records_of_lines(b, 0) =~= records_of_lines(
            a,
            a.len() as int,
        ));
    } else {
        lemma_records_of_joined(a, b, n - 1);
        assert((a + b)[a.len() + n - 1] == b[n - 1]);
        match record_of(split(b[n - 1], 0)) {
            Some(r) => {
                assert((records_of_lines(a, a.len() as int) + records_of_lines(b, n - 1)).push(r)
                    =~= records_of_lines(a, a.len() as int) + records_of_lines(b, n - 1).push(r));
            },
            None => {},
        }
    }
}

proof fn lemma_records_of_prefix(a: Seq<Seq<u8>>, b: Seq<Seq<u8>>, n: int)
    requires
        0 <= n <= a.len(),
    ensures
        records_of_lines(a + b, n) == records_of_lines(a, n),
    decreases n,
{
    if n > 0 {
        lemma_records_of_prefix(a, b, n - 1);
        assert((a + b)[n - 1] == a[n - 1]);
    }
}

/// A log is append-only: what is appended after a line end adds its records
/// and leaves those before as they are.
pub proof fn law_parse_appends(a: Seq<u8>, b: Seq<u8>)
    ensures
        parsed(a.push(10u8) + b) == parsed(a) + parsed(b),
{
    crate::fields::law_split_joined(a, b, 10);
    lemma_records_of_joined(split(a, 10), split(b, 10), split(b, 10).len() as int);
}

} // verus!
