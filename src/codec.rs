//! The on-disk record format of a command.
//!
//! A record is a tag byte (`0` for `Put`, `1` for `Remove`) followed by the
//! command's text fields. Each field is its UTF-8 length as a little-endian
//! `u64` and then its UTF-8 bytes, so records can be read back one after the
//! other from a stream without a side index.
use vstd::prelude::*;
use vstd::bytes::{spec_u64_to_le_bytes, spec_u64_from_le_bytes, lemma_auto_spec_u64_to_from_le_bytes, u64_to_le_bytes, u64_from_le_bytes};
use vstd::utf8::{encode_utf8, decode_utf8, valid_utf8, encode_utf8_valid_utf8, encode_utf8_decode_utf8, decode_utf8_encode_utf8};
use vstd::string::StringSliceAdditionalSpecFns;
use crate::error::KvsError;

verus! {

/// One mutation of the store, as it is written to the log.
#[derive(Debug)]
pub enum Command {
    Put { key: String, value: String },
    Remove { key: String },
}

/// The mathematical value of a [`Command`].
pub enum CommandView {
    Put { key: Seq<char>, value: Seq<char> },
    Remove { key: Seq<char> },
}

impl View for Command {
    type V = CommandView;

    open spec fn view(&self) -> CommandView {
        match self {
            Command::Put { key, value } => CommandView::Put { key: key@, value: value@ },
            Command::Remove { key } => CommandView::Remove { key: key@ },
        }
    }
}

/// What reading a record from the front of a byte sequence gives.
pub enum Decoded {
    /// A whole record: the command and the number of bytes it took.
    Record(CommandView, nat),
    /// The bytes end before the record does.
    Truncated,
    /// The tag byte names no command.
    BadTag,
    /// A text field is not valid UTF-8.
    BadText,
}

pub const PUT_TAG: u8 = 0;
pub const REMOVE_TAG: u8 = 1;

/// A text field: its UTF-8 length, then its UTF-8 bytes.
pub open spec fn spec_field(s: Seq<char>) -> Seq<u8> {
    spec_u64_to_le_bytes(encode_utf8(s).len() as u64) + encode_utf8(s)
}

/// The record of a command.
pub open spec fn spec_serialize(c: CommandView) -> Seq<u8> {
    match c {
        CommandView::Put { key, value } => seq![PUT_TAG] + spec_field(key) + spec_field(value),
        CommandView::Remove { key } => seq![REMOVE_TAG] + spec_field(key),
    }
}

/// The text fields of the command fit in the length prefix.
pub open spec fn fits(c: CommandView) -> bool {
    match c {
        CommandView::Put { key, value } => encode_utf8(key).len() <= u64::MAX && encode_utf8(
            value,
        ).len() <= u64::MAX,
        CommandView::Remove { key } => encode_utf8(key).len() <= u64::MAX,
    }
}

/// The bytes of the field that starts at `p`, and the position after it;
/// `None` where `b` ends first.
pub open spec fn field_at(b: Seq<u8>, p: int) -> Option<(Seq<u8>, int)> {
    if p + 8 > b.len() {
        None
    } else {
        let n = spec_u64_from_le_bytes(b.subrange(p, p + 8)) as int;
        if p + 8 + n > b.len() {
            None
        } else {
            Some((b.subrange(p + 8, p + 8 + n), p + 8 + n))
        }
    }
}

/// Reads the record at the front of `b`.
pub open spec fn spec_decode(b: Seq<u8>) -> Decoded {
    if b.len() == 0 {
        Decoded::Truncated
    } else if b[0] == PUT_TAG {
        match field_at(b, 1) {
            None => Decoded::Truncated,
            Some((kb, p)) => match field_at(b, p) {
                None => Decoded::Truncated,
                Some((vb, q)) => if valid_utf8(kb) && valid_utf8(vb) {
                    Decoded::Record(
                        CommandView::Put { key: decode_utf8(kb), value: decode_utf8(vb) },
                        q as nat,
                    )
                } else {
                    Decoded::BadText
                },
            },
        }
    } else if b[0] == REMOVE_TAG {
        match field_at(b, 1) {
            None => Decoded::Truncated,
            Some((kb, p)) => if valid_utf8(kb) {
                Decoded::Record(CommandView::Remove { key: decode_utf8(kb) }, p as nat)
            } else {
                Decoded::BadText
            },
        }
    } else {
        Decoded::BadTag
    }
}

proof fn lemma_field_at(s: Seq<char>, pre: Seq<u8>, rest: Seq<u8>)
    requires
        encode_utf8(s).len() <= u64::MAX,
    ensures
        field_at(pre + spec_field(s) + rest, pre.len() as int) == Some(
            (encode_utf8(s), (pre.len() + spec_field(s).len()) as int),
        ),
        spec_field(s).len() == 8 + encode_utf8(s).len(),
{
    lemma_auto_spec_u64_to_from_le_bytes();
    let e = encode_utf8(s);
    let b = pre + spec_field(s) + rest;
    let p = pre.len() as int;
    let lb = spec_u64_to_le_bytes(e.len() as u64);
    assert(b.subrange(p, p + 8) =~= lb);
    assert(b.subrange(p + 8, p + 8 + e.len()) =~= e);
}

/// Reading the record of a command from the front of any byte sequence that
/// starts with it gives back that command and the record's length.
pub proof fn lemma_decode_serialize(c: CommandView, rest: Seq<u8>)
    requires
        fits(c),
    ensures
        spec_decode(spec_serialize(c) + rest) == Decoded::Record(c, spec_serialize(c).len()),
{
    broadcast use encode_utf8_valid_utf8, encode_utf8_decode_utf8;

    match c {
        CommandView::Put { key, value } => {
            let pre = seq![PUT_TAG];
            lemma_field_at(key, pre, spec_field(value) + rest);
            assert(pre + spec_field(key) + (spec_field(value) + rest) =~= spec_serialize(c) + rest);
            lemma_field_at(value, pre + spec_field(key), rest);
            assert(pre + spec_field(key) + spec_field(value) + rest =~= spec_serialize(c) + rest);
        },
        CommandView::Remove { key } => {
            let pre = seq![REMOVE_TAG];
            lemma_field_at(key, pre, rest);
            assert(pre + spec_field(key) + rest =~= spec_serialize(c) + rest);
        },
    }
}

/// Serializing, deserializing and serializing again gives the first bytes.
pub proof fn lemma_round_trip(c: CommandView)
    requires
        fits(c),
    ensures
        spec_decode(spec_serialize(c)) matches Decoded::Record(d, n) && d == c && n
            == spec_serialize(c).len() && spec_serialize(d) == spec_serialize(c),
{
    lemma_decode_serialize(c, Seq::empty());
    assert(spec_serialize(c) + Seq::<u8>::empty() =~= spec_serialize(c));
}

/// A record cut short reads as truncated.
pub proof fn lemma_decode_cut(c: CommandView, cut: int)
    requires
        fits(c),
        0 <= cut < spec_serialize(c).len(),
    ensures
        spec_decode(spec_serialize(c).subrange(0, cut)) == Decoded::Truncated,
{
    lemma_auto_spec_u64_to_from_le_bytes();
    let full = spec_serialize(c);
    let b = full.subrange(0, cut);
    if cut > 0 {
        match c {
            CommandView::Put { key, value } => {
                lemma_field_at(key, seq![PUT_TAG], spec_field(value));
                assert(seq![PUT_TAG] + spec_field(key) + spec_field(value) =~= full);
                let p = (1 + spec_field(key).len()) as int;
                lemma_field_at(value, seq![PUT_TAG] + spec_field(key), Seq::empty());
                assert(seq![PUT_TAG] + spec_field(key) + spec_field(value) + Seq::<u8>::empty()
                    =~= full);
                if 9 <= cut {
                    assert(b.subrange(1, 9) =~= full.subrange(1, 9));
                    if p <= cut && p + 8 <= cut {
                        assert(b.subrange(p, p + 8) =~= full.subrange(p, p + 8));
                    }
                }
            },
            CommandView::Remove { key } => {
                lemma_field_at(key, seq![REMOVE_TAG], Seq::empty());
                assert(seq![REMOVE_TAG] + spec_field(key) + Seq::<u8>::empty() =~= full);
                if 9 <= cut {
                    assert(b.subrange(1, 9) =~= full.subrange(1, 9));
                }
            },
        }
    }
}

proof fn lemma_field_decoded(b: Seq<u8>, p: int)
    requires
        0 <= p,
        field_at(b, p) matches Some((fb, q)) && valid_utf8(fb),
    ensures
        field_at(b, p) matches Some((fb, q)) && b.subrange(p, q) == spec_field(decode_utf8(fb))
            && encode_utf8(decode_utf8(fb)).len() <= u64::MAX && p < q <= b.len(),
{
    lemma_auto_spec_u64_to_from_le_bytes();
    let (fb, q) = field_at(b, p).unwrap();
    decode_utf8_encode_utf8(fb);
    let lb = b.subrange(p, p + 8);
    let n = spec_u64_from_le_bytes(lb);
    assert(spec_u64_to_le_bytes(spec_u64_from_le_bytes(lb)) == lb);
    assert(fb.len() as u64 == n);
    assert(b.subrange(p, q) =~= lb + fb);
}

/// A record read from the front of `b` is exactly the record of the command
/// that it gives.
pub proof fn lemma_serialize_decoded(b: Seq<u8>)
    requires
        spec_decode(b) is Record,
    ensures
        spec_decode(b) matches Decoded::Record(c, n) && 0 < n <= b.len() && fits(c) && b.subrange(
            0,
            n as int,
        ) == spec_serialize(c),
{
    let (kb, p) = field_at(b, 1).unwrap();
    lemma_field_decoded(b, 1);
    if b[0] == PUT_TAG {
        lemma_field_decoded(b, p);
        let (vb, q) = field_at(b, p).unwrap();
        assert(b.subrange(0, q) =~= seq![PUT_TAG] + b.subrange(1, p) + b.subrange(p, q));
    } else {
        assert(b.subrange(0, p) =~= seq![REMOVE_TAG] + b.subrange(1, p));
    }
}

/// Appends the bytes of `src` to `dst`.
pub fn push_bytes(dst: &mut Vec<u8>, src: &[u8])
    ensures
        final(dst)@ == old(dst)@ + src@,
{
    let mut i: usize = 0;
    while i < src.len()
        invariant
            i <= src@.len(),
            dst@ == old(dst)@ + src@.subrange(0, i as int),
        decreases src@.len() - i,
    {
        dst.push(src[i]);
        i = i + 1;
        assert(dst@ =~= old(dst)@ + src@.subrange(0, i as int));
    }
    assert(src@.subrange(0, i as int) =~= src@);
}

fn push_field(dst: &mut Vec<u8>, s: &String)
    ensures
        final(dst)@ == old(dst)@ + spec_field(s@),
        encode_utf8(s@).len() <= u64::MAX,
{
    let b = s.as_str().as_bytes();
    let mut len = u64_to_le_bytes(b.len() as u64);
    dst.append(&mut len);
    push_bytes(dst, b);
    assert(dst@ =~= old(dst)@ + spec_field(s@));
}

/// The record of `cmd`.
pub fn serialize(cmd: &Command) -> (r: Vec<u8>)
    ensures
        r@ == spec_serialize(cmd@),
        fits(cmd@),
{
    let mut r: Vec<u8> = Vec::new();
    match cmd {
        Command::Put { key, value } => {
            r.push(PUT_TAG);
            push_field(&mut r, key);
            push_field(&mut r, value);
        },
        Command::Remove { key } => {
            r.push(REMOVE_TAG);
            push_field(&mut r, key);
        },
    }
    assert(r@ =~= spec_serialize(cmd@));
    r
}

/// Relies on `String::from_utf8`: it returns the text whose UTF-8 encoding the
/// bytes are, and fails exactly where they are not valid UTF-8.
#[verifier::external_body]
fn text_from_bytes(b: Vec<u8>) -> (r: std::result::Result<String, std::string::FromUtf8Error>)
    ensures
        r is Ok <==> valid_utf8(b@),
        r matches Ok(s) ==> s@ == decode_utf8(b@),
{
    String::from_utf8(b)
}

/// Reads the field at `p` of `b`: `Ok(None)` where `b` ends first.
fn read_field(b: &[u8], p: usize) -> (r: Option<(Vec<u8>, usize)>)
    ensures
        match field_at(b@, p as int) {
            None => r is None,
            Some((fb, q)) => r matches Some((v, e)) && v@ == fb && e == q,
        },
{
    if p > b.len() || b.len() - p < 8 {
        return None;
    }
    let n = u64_from_le_bytes(vstd::slice::slice_subrange(b, p, p + 8));
    let start = p + 8;
    if n > (b.len() - start) as u64 {
        return None;
    }
    let end = start + n as usize;
    let mut v: Vec<u8> = Vec::new();
    push_bytes(&mut v, vstd::slice::slice_subrange(b, start, end));
    Some((v, end))
}

/// Reads the record at the front of `b`.
///
/// Gives `Ok(Some((cmd, n)))` for a whole record of `n` bytes, `Ok(None)`
/// where `b` ends inside the record, `UnexpectedCommandType` for an unknown
/// tag and `Utf8` for a text field that is not valid UTF-8.
pub fn deserialize(b: &[u8]) -> (r: Result<Option<(Command, usize)>, KvsError>)
    ensures
        match spec_decode(b@) {
            Decoded::Record(c, n) => r matches Ok(Some((cmd, m))) && cmd@ == c && m == n,
            Decoded::Truncated => r matches Ok(None),
            Decoded::BadTag => r matches Err(KvsError::UnexpectedCommandType),
            Decoded::BadText => r matches Err(KvsError::Utf8(_)),
        },
{
    if b.len() == 0 {
        return Ok(None);
    }
    let tag = b[0];
    if tag == PUT_TAG {
        let (kb, p) = match read_field(b, 1) {
            None => return Ok(None),
            Some(f) => f,
        };
        let (vb, q) = match read_field(b, p) {
            None => return Ok(None),
            Some(f) => f,
        };
        let key = match text_from_bytes(kb) {
            Ok(s) => s,
            Err(e) => return Err(KvsError::Utf8(e)),
        };
        let value = match text_from_bytes(vb) {
            Ok(s) => s,
            Err(e) => return Err(KvsError::Utf8(e)),
        };
        Ok(Some((Command::Put { key, value }, q)))
    } else if tag == REMOVE_TAG {
        let (kb, p) = match read_field(b, 1) {
            None => return Ok(None),
            Some(f) => f,
        };
        let key = match text_from_bytes(kb) {
            Ok(s) => s,
            Err(e) => return Err(KvsError::Utf8(e)),
        };
        Ok(Some((Command::Remove { key }, p)))
    } else {
        Err(KvsError::UnexpectedCommandType)
    }
}

} // verus!
