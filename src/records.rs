//! The text forms that the search exchanges with its persistence layer:
//! sequences as `+`/`-` strings, rowsum quadruples as lines of integers, and
//! the tags that a file name carries.
use vstd::prelude::*;
use vstd::string::*;
use vstd::utf8::encode_utf8;
use crate::quad::SequenceTag;
use crate::rowsum::{Quad, rowsum, seq_sum};
use crate::symmetries::RowsumPairing;
use crate::equations::{append_int, int_text};

verus! {

/// Which side of the correlation equation a pair stands on.
#[derive(Clone, Copy, Debug, PartialEq, Eq, Structural)]
pub enum EquationSide {
    LEFT,
    RIGHT,
}

/// How candidate pairs are matched.
#[derive(Clone, Copy, Debug, PartialEq, Eq, Structural)]
pub enum MatchOption {
    CORRELATION,
    PSD,
}

/// Why a text could not be read.
#[derive(Clone, Copy, Debug, PartialEq, Eq, Structural)]
pub enum RecordError {
    /// A byte that is neither `+` nor `-` where a sequence entry was expected.
    UnrecognizedSymbol,
    /// A file name too short to carry two tags.
    NameTooShort,
    /// A character that names no tag where a tag was expected.
    UnrecognizedTag,
}

/// The entry that a byte of a sequence text stands for.
pub open spec fn byte_entry(b: u8) -> i8 {
    if b == 43 { 1i8 } else { -1i8 }
}

/// Every byte is `+` (43) or `-` (45).
pub open spec fn sign_bytes(b: Seq<u8>) -> bool {
    forall|i: int| 0 <= i < b.len() ==> #[trigger] b[i] == 43 || b[i] == 45
}

/// The sequence written as the text `s`, one `+` or `-` per entry; an error
/// on any other symbol.
pub fn string_to_sequence(s: &String) -> (r: Result<Vec<i8>, RecordError>)
    ensures
        r is Ok <==> sign_bytes(encode_utf8(s@)),
        r is Ok ==> r->Ok_0@ == Seq::new(encode_utf8(s@).len(), |i: int| byte_entry(encode_utf8(s@)[i])),
        r is Err ==> r->Err_0 == RecordError::UnrecognizedSymbol,
{
    let st = s.as_str();
    let bytes = st.as_bytes();
    let ghost b = encode_utf8(s@);
    assert(st@ == s@);
    assert(bytes@ == b);
    let mut res: Vec<i8> = Vec::new();
    let mut i: usize = 0;
    while i < bytes.len()
        invariant
            bytes@ == b,
            b == encode_utf8(s@),
            0 <= i <= b.len(),
            sign_bytes(b.subrange(0, i as int)),
            res@ == Seq::new(i as nat, |k: int| byte_entry(b[k])),
        decreases b.len() - i,
    {
        let c = bytes[i];
        if c == 43 {
            res.push(1);
        } else if c == 45 {
            res.push(-1);
        } else {
            assert(!sign_bytes(b)) by {
                assert(b[i as int] == c);
            }
            return Err(RecordError::UnrecognizedSymbol);
        }
        i = i + 1;
        assert(sign_bytes(b.subrange(0, i as int))) by {
            assert forall|k: int| 0 <= k < i implies #[trigger] b.subrange(0, i as int)[k] == 43 || b.subrange(0, i as int)[k] == 45 by {
                if k < i - 1 {
                    assert(b.subrange(0, i as int)[k] == b.subrange(0, i - 1)[k]);
                }
            }
        }
        assert(res@ =~= Seq::new(i as nat, |k: int| byte_entry(b[k])));
    }
    assert(b.subrange(0, b.len() as int) =~= b);
    Ok(res)
}

/// Whether `seq` reads the same from index `t` and from index `n - t`.
pub fn symmetric(seq: &Vec<i8>) -> (r: bool)
    ensures
        r == (forall|t: int| 1 <= t <= seq@.len() / 2 ==> #[trigger] seq@[t] == seq@[seq@.len() - t]),
{
    let n = seq.len();
    let mut t: usize = 1;
    while t <= n / 2
        invariant
            n == seq@.len(),
            1 <= t <= n / 2 + 1,
            forall|u: int| 1 <= u < t ==> #[trigger] seq@[u] == seq@[n - u],
        decreases n / 2 + 1 - t,
    {
        if seq[t] != seq[n - t] {
            return false;
        }
        t = t + 1;
    }
    true
}

/// The positions, in the order `W, X, Y, Z`, of the two tags that form pair
/// `pair` (1 or 2) of a pairing; none for another pair number or no pairing.
pub fn get_indices(pairing: Option<RowsumPairing>, pair: u8) -> (r: Option<(usize, usize)>)
    ensures
        r == match (pairing, pair) {
            (Some(RowsumPairing::WX), 1) => Some((0usize, 1usize)),
            (Some(RowsumPairing::WX), 2) => Some((2usize, 3usize)),
            (Some(RowsumPairing::WY), 1) => Some((0usize, 2usize)),
            (Some(RowsumPairing::WY), 2) => Some((1usize, 3usize)),
            (Some(RowsumPairing::WZ), 1) => Some((0usize, 3usize)),
            (Some(RowsumPairing::WZ), 2) => Some((1usize, 2usize)),
            _ => None,
        },
{
    match (pairing, pair) {
        (Some(RowsumPairing::WX), 1) => Some((0, 1)),
        (Some(RowsumPairing::WX), 2) => Some((2, 3)),
        (Some(RowsumPairing::WY), 1) => Some((0, 2)),
        (Some(RowsumPairing::WY), 2) => Some((1, 3)),
        (Some(RowsumPairing::WZ), 1) => Some((0, 3)),
        (Some(RowsumPairing::WZ), 2) => Some((1, 2)),
        _ => None,
    }
}

/// The rowsum that a quadruple in the order `W, X, Y, Z` gives a tag.
pub open spec fn rowsum_of_tag(rs: Quad, tag: SequenceTag) -> isize {
    match tag {
        SequenceTag::W => rs.0,
        SequenceTag::X => rs.1,
        SequenceTag::Y => rs.2,
        SequenceTag::Z => rs.3,
    }
}

fn rowsum_for(rs: &Quad, tag: &SequenceTag) -> (r: isize)
    ensures
        r == rowsum_of_tag(*rs, *tag),
{
    match tag {
        SequenceTag::W => rs.0,
        SequenceTag::X => rs.1,
        SequenceTag::Y => rs.2,
        SequenceTag::Z => rs.3,
    }
}

fn all_have_rowsum(sequences: &Vec<Vec<i8>>, target: isize) -> (r: bool)
    requires
        forall|i: int| 0 <= i < sequences@.len() ==> 128 * (#[trigger] sequences@[i])@.len() <= isize::MAX,
    ensures
        r == (forall|i: int| 0 <= i < sequences@.len() ==> seq_sum((#[trigger] sequences@[i])@) == target),
{
    let mut i: usize = 0;
    while i < sequences.len()
        invariant
            0 <= i <= sequences@.len(),
            forall|i: int| 0 <= i < sequences@.len() ==> 128 * (#[trigger] sequences@[i])@.len() <= isize::MAX,
            forall|j: int| 0 <= j < i ==> seq_sum((#[trigger] sequences@[j])@) == target,
        decreases sequences@.len() - i,
    {
        if rowsum(sequences[i].clone()) != target {
            return false;
        }
        i = i + 1;
    }
    true
}

/// Whether every sequence of the first list has the rowsum that `rs` gives
/// the first tag, and every one of the second list the rowsum of the second tag.
pub fn verify_rowsums(sequences: (&Vec<Vec<i8>>, &Vec<Vec<i8>>), tags: (&SequenceTag, &SequenceTag), rs: Quad) -> (r: bool)
    requires
        forall|i: int| 0 <= i < sequences.0@.len() ==> 128 * (#[trigger] sequences.0@[i])@.len() <= isize::MAX,
        forall|i: int| 0 <= i < sequences.1@.len() ==> 128 * (#[trigger] sequences.1@[i])@.len() <= isize::MAX,
    ensures
        r == ((forall|i: int| 0 <= i < sequences.0@.len() ==> seq_sum((#[trigger] sequences.0@[i])@) == rowsum_of_tag(rs, *tags.0))
            && (forall|i: int| 0 <= i < sequences.1@.len() ==> seq_sum((#[trigger] sequences.1@[i])@) == rowsum_of_tag(rs, *tags.1))),
{
    let rowsum_0 = rowsum_for(&rs, tags.0);
    let rowsum_1 = rowsum_for(&rs, tags.1);
    all_have_rowsum(sequences.0, rowsum_0) && all_have_rowsum(sequences.1, rowsum_1)
}

/// The four values in decimal, separated by spaces, ending the line.
pub open spec fn quad_text(q: Quad) -> Seq<char> {
    int_text(q.0 as int) + " "@ + int_text(q.1 as int) + " "@ + int_text(q.2 as int) + " "@ + int_text(q.3 as int) + "\n"@
}

/// A rowsum quadruple as one line of text.
pub fn quad_to_string(q: (isize, isize, isize, isize)) -> (r: String)
    requires
        q.0 > i64::MIN && q.1 > i64::MIN && q.2 > i64::MIN && q.3 > i64::MIN,
    ensures
        r@ == quad_text(q),
{
    proof { reveal_strlit(" "); reveal_strlit("\n"); }
    let mut s = String::new();
    append_int(&mut s, q.0 as i64);
    s.append(" ");
    append_int(&mut s, q.1 as i64);
    s.append(" ");
    append_int(&mut s, q.2 as i64);
    s.append(" ");
    append_int(&mut s, q.3 as i64);
    s.append("\n");
    assert(s@ =~= quad_text(q));
    s
}

/// The tag that a character names.
pub open spec fn tag_of_byte(b: u8) -> Option<SequenceTag> {
    if b == 87 { Some(SequenceTag::W) } else if b == 88 { Some(SequenceTag::X) }
    else if b == 89 { Some(SequenceTag::Y) } else if b == 90 { Some(SequenceTag::Z) } else { None }
}

fn tag_from_byte(b: u8) -> (r: Option<SequenceTag>)
    ensures
        r == tag_of_byte(b),
{
    if b == 87 { Some(SequenceTag::W) } else if b == 88 { Some(SequenceTag::X) }
    else if b == 89 { Some(SequenceTag::Y) } else if b == 90 { Some(SequenceTag::Z) } else { None }
}

/// The two tags that the characters at positions 5 and 6 of a file name
/// carry (as in `pairs_WX...`).
pub fn get_tag_from_filename(filename: &str) -> (r: Result<(SequenceTag, SequenceTag), RecordError>)
    ensures
        encode_utf8(filename@).len() < 7 ==> r == Err::<(SequenceTag, SequenceTag), RecordError>(RecordError::NameTooShort),
        encode_utf8(filename@).len() >= 7 ==> match (tag_of_byte(encode_utf8(filename@)[5]), tag_of_byte(encode_utf8(filename@)[6])) {
            (Some(t1), Some(t2)) => r == Ok::<(SequenceTag, SequenceTag), RecordError>((t1, t2)),
            _ => r == Err::<(SequenceTag, SequenceTag), RecordError>(RecordError::UnrecognizedTag),
        },
{
    let bytes = filename.as_bytes();
    if bytes.len() < 7 {
        return Err(RecordError::NameTooShort);
    }
    match (tag_from_byte(bytes[5]), tag_from_byte(bytes[6])) {
        (Some(t1), Some(t2)) => Ok((t1, t2)),
        _ => Err(RecordError::UnrecognizedTag),
    }
}

} // verus!
