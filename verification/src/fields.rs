//! Journal lines: byte strings cut at separators, and text in them.
use crate::dtype::{dtype_of_code, DType};
use crate::text::{number, parse_number};
use vstd::prelude::*;
use vstd::string::StringExecFns;

verus! {

/// The pieces into which the separators among the first `n` bytes cut them.
/// There is one piece more than there are separators.
pub open spec fn pieces(s: Seq<u8>, n: int, sep: u8) -> Seq<Seq<u8>>
    decreases n,
{
    if n <= 0 {
        seq![Seq::<u8>::empty()]
    } else {
        let p = pieces(s, n - 1, sep);
        if s[n - 1] == sep {
            p.push(Seq::empty())
        } else {
            p.drop_last().push(p.last().push(s[n - 1]))
        }
    }
}

/// The pieces into which the separators cut `s`.
pub open spec fn split(s: Seq<u8>, sep: u8) -> Seq<Seq<u8>> {
    pieces(s, s.len() as int, sep)
}

/// The byte strings as mathematical values.
pub open spec fn byte_views(v: Seq<Vec<u8>>) -> Seq<Seq<u8>> {
    Seq::new(v.len(), |i: int| v[i]@)
}

proof fn lemma_pieces_nonempty(s: Seq<u8>, n: int, sep: u8)
    ensures
        pieces(s, n, sep).len() >= 1,
    decreases n,
{
    if n > 0 {
        lemma_pieces_nonempty(s, n - 1, sep);
    }
}

/// Cuts bytes at each separator.
pub fn split_bytes(s: &[u8], sep: u8) -> (r: Vec<Vec<u8>>)
    ensures
        byte_views(r@) == split(s@, sep),
        r@.len() >= 1,
{
    let mut out: Vec<Vec<u8>> = Vec::new();
    let mut cur: Vec<u8> = Vec::new();
    let mut i: usize = 0;
    assert(byte_views(out@).push(cur@) =~= pieces(s@, 0, sep));
    while i < s.len()
        invariant
            i <= s@.len(),
            byte_views(out@).push(cur@) == pieces(s@, i as int, sep),
        decreases s@.len() - i,
    {
        let ghost before = byte_views(out@);
        let ghost piece = cur@;
        proof {
            assert(before.push(piece).drop_last() =~= before);
        }
        if s[i] == sep {
            out.push(cur);
            proof {
                assert(byte_views(out@) =~= before.push(piece));
            }
            cur = Vec::new();
        } else {
            cur.push(s[i]);
        }
        i += 1;
    }
    let ghost before = byte_views(out@);
    let ghost piece = cur@;
    out.push(cur);
    proof {
        assert(byte_views(out@) =~= before.push(piece));
    }
    out
}

/// The pieces of a prefix depend on that prefix alone.
pub proof fn lemma_pieces_prefix(s: Seq<u8>, t: Seq<u8>, n: int, sep: u8)
    requires
        0 <= n <= s.len(),
        n <= t.len(),
        s.take(n) == t.take(n),
    ensures
        pieces(s, n, sep) == pieces(t, n, sep),
    decreases n,
{
    if n > 0 {
        assert(s.take(n - 1) =~= s.take(n).take(n - 1));
        assert(t.take(n - 1) =~= t.take(n).take(n - 1));
        lemma_pieces_prefix(s, t, n - 1, sep);
        assert(s[n - 1] == s.take(n)[n - 1]);
        assert(t[n - 1] == t.take(n)[n - 1]);
    }
}

proof fn lemma_pieces_joined(a: Seq<u8>, b: Seq<u8>, n: int, sep: u8)
    requires
        0 <= n <= b.len(),
    ensures
        pieces(a.push(sep) + b, a.len() + 1 + n, sep) == split(a, sep) + pieces(b, n, sep),
    decreases n,
{
    let s = a.push(sep) + b;
    lemma_pieces_nonempty(b, n, sep);
    if n == 0 {
        assert(s.take(a.len() as int) =~= a);
        assert(a.take(a.len() as int) =~= a);
        lemma_pieces_prefix(s, a, a.len() as int, sep);
        assert(split(a, sep).push(Seq::<u8>::empty()) =~= split(a, sep) + pieces(b, 0, sep));
    } else {
        lemma_pieces_joined(a, b, n - 1, sep);
        lemma_pieces_nonempty(b, n - 1, sep);
        let (x, y) = (split(a, sep), pieces(b, n - 1, sep));
        assert(s[a.len() + n] == b[n - 1]);
        assert((x + y).last() == y.last());
        if b[n - 1] == sep {
            assert((x + y).push(Seq::<u8>::empty()) =~= x + y.push(Seq::<u8>::empty()));
        } else {
            assert((x + y).drop_last().push(y.last().push(b[n - 1])) =~= x + y.drop_last().push(
                y.last().push(b[n - 1]),
            ));
        }
    }
}

/// Bytes without a separator are one piece.
pub(crate) proof fn lemma_no_separator(s: Seq<u8>, sep: u8)
    requires
        !s.contains(sep),
    ensures
        split(s, sep) == seq![s],
{
    lemma_one_piece(s, s.len() as int, sep);
    assert(s.take(s.len() as int) =~= s);
}

proof fn lemma_one_piece(s: Seq<u8>, n: int, sep: u8)
    requires
        !s.contains(sep),
        0 <= n <= s.len(),
    ensures
        pieces(s, n, sep) == seq![s.take(n)],
    decreases n,
{
    if n == 0 {
        assert(s.take(0) =~= Seq::empty());
    } else {
        lemma_one_piece(s, n - 1, sep);
        assert(s[n - 1] != sep);
        let p = seq![s.take(n - 1)];
        assert(s.take(n - 1).push(s[n - 1]) =~= s.take(n));
        assert(p.drop_last().push(s.take(n)) =~= seq![s.take(n)]);
    }
}

/// The pieces of two byte strings with a separator between them are those of
/// the one and then those of the other.
pub proof fn law_split_joined(a: Seq<u8>, b: Seq<u8>, sep: u8)
    ensures
        split(a.push(sep) + b, sep) == split(a, sep) + split(b, sep),
{
    lemma_pieces_joined(a, b, b.len() as int, sep);
}

// ── Text in fields ───────────────────────────────────────────────────

/// The text that bytes which are not UTF-8 stand for, with the replacement
/// character in it.
pub uninterp spec fn utf8_lossy(bytes: Seq<u8>) -> Seq<char>;

/// The text that the bytes of a field stand for: what they encode where they
/// are UTF-8, and else what is left when the rest is replaced.
pub open spec fn field_text(bytes: Seq<u8>) -> Seq<char> {
    if vstd::utf8::valid_utf8(bytes) {
        vstd::utf8::decode_utf8(bytes)
    } else {
        utf8_lossy(bytes)
    }
}

/// `String::from_utf8_lossy`: valid UTF-8 is decoded as it is. Of other bytes
/// the text, with replacement characters, depends on the bytes alone; which
/// text it is, is left unsaid.
#[verifier::external_body]
pub(crate) fn decode_lossy(bytes: &[u8]) -> (r: String)
    ensures
        vstd::utf8::valid_utf8(bytes@) ==> r@ == vstd::utf8::decode_utf8(bytes@),
        !vstd::utf8::valid_utf8(bytes@) ==> r@ == utf8_lossy(bytes@),
{
    String::from_utf8_lossy(bytes).into_owned()
}

/// The path of an entry, from its directory and its name.
pub open spec fn entry_path(dir: Seq<char>, name: Seq<char>) -> Seq<char> {
    dir.push('/') + name
}

/// The path of an entry, from the fields for its directory and its name.
pub fn make_path(dir_field: &[u8], name_field: &[u8]) -> (r: String)
    ensures
        r@ == entry_path(field_text(dir_field@), field_text(name_field@)),
{
    let mut path = decode_lossy(dir_field);
    path.push('/');
    let name = decode_lossy(name_field);
    path.append(name.as_str());
    path
}

/// The kind that a field names: a one-letter code, or nothing.
pub open spec fn field_dtype(field: Seq<u8>) -> Option<DType> {
    if field.len() == 1 {
        dtype_of_code(field[0])
    } else {
        None
    }
}

/// The kind that a field names, if it is a one-letter code.
pub fn parse_dtype(field: &[u8]) -> (r: Option<DType>)
    ensures
        r == field_dtype(field@),
{
    if field.len() == 1 {
        DType::from_char(field[0])
    } else {
        None
    }
}

/// The number that a field holds.
pub open spec fn field_number(field: Seq<u8>) -> Option<u64> {
    number(field_text(field))
}

/// The number that a field holds.
pub fn parse_field_number(field: &[u8]) -> (r: Option<u64>)
    ensures
        r == field_number(field@),
{
    parse_number(decode_lossy(field).as_str())
}

/// True when the field is this one byte.
pub fn is_tag(field: &[u8], tag: u8) -> (r: bool)
    ensures
        r == (field@ == seq![tag]),
{
    let r: bool = field.len() == 1 && field[0] == tag;
    assert(r ==> field@ =~= seq![tag]);
    r
}

} // verus!
