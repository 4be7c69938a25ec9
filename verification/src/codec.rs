//! The binary stream codec for frames.
//!
//! A frame's own key/value pairs are written as a self-describing record:
//! a count of pairs, then for each pair a length-prefixed UTF-8 key and a
//! tagged value. All counts and lengths are 64-bit little-endian. A record
//! carries no outer delimiter: its encoding is self-terminating, and a
//! stream of frames is a plain concatenation of records.

use vstd::prelude::*;
use vstd::bytes::{
    spec_u64_from_le_bytes, spec_u64_to_le_bytes, lemma_auto_spec_u64_to_from_le_bytes,
    u64_from_le_bytes, u64_to_le_bytes,
};
use vstd::slice::slice_subrange;
use vstd::utf8::{
    decode_utf8, decode_utf8_encode_utf8, encode_utf8, encode_utf8_decode_utf8,
    encode_utf8_valid_utf8, valid_utf8,
};
use crate::frame::ValueModel;

verus! {

/// Tag byte marking an encoded text value.
pub const TAG_TEXT: u8 = 0;

/// Tag byte marking an encoded byte value.
pub const TAG_BYTE: u8 = 1;

/// A frame record (or one of its fields) could not be decoded: the bytes
/// are malformed or end before the record does. Distinct from a clean
/// end of stream at a record boundary.
#[derive(Clone, Copy, Debug, PartialEq, Eq, Structural)]
pub struct DecodeError;

/// The encoding of one stored value: a tag byte, then the value's data,
/// length-prefixed where it is not fixed-size.
pub open spec fn encode_value(v: ValueModel) -> Seq<u8> {
    match v {
        ValueModel::Text(t) => seq![TAG_TEXT] + spec_u64_to_le_bytes(
            encode_utf8(t).len() as u64,
        ) + encode_utf8(t),
        ValueModel::Byte(b) => seq![TAG_BYTE, b],
    }
}

/// The encoding of one key/value pair: length-prefixed UTF-8 key, then the
/// encoded value.
pub open spec fn encode_pair(k: Seq<char>, v: ValueModel) -> Seq<u8> {
    spec_u64_to_le_bytes(encode_utf8(k).len() as u64) + encode_utf8(k) + encode_value(v)
}

/// The encoding of a list of pairs, back to back.
pub open spec fn encode_pairs(s: Seq<(Seq<char>, ValueModel)>) -> Seq<u8>
    decreases s.len(),
{
    if s.len() == 0 {
        Seq::empty()
    } else {
        encode_pair(s.first().0, s.first().1) + encode_pairs(s.drop_first())
    }
}

/// The encoding of one whole frame record: the pair count, then the pairs.
pub open spec fn frame_bytes(s: Seq<(Seq<char>, ValueModel)>) -> Seq<u8> {
    spec_u64_to_le_bytes(s.len() as u64) + encode_pairs(s)
}

/// Whether a value's variable-size data fits a 64-bit length field.
pub open spec fn value_bounded(v: ValueModel) -> bool {
    match v {
        ValueModel::Text(t) => encode_utf8(t).len() <= u64::MAX,
        ValueModel::Byte(_) => true,
    }
}

/// Whether every length written for this pair list fits its field.
pub open spec fn pairs_bounded(s: Seq<(Seq<char>, ValueModel)>) -> bool {
    &&& s.len() <= u64::MAX
    &&& forall|i: int|
        0 <= i < s.len() ==> encode_utf8(#[trigger] s[i].0).len() <= u64::MAX && value_bounded(
            s[i].1,
        )
}

/// Read a 64-bit little-endian integer off the front of a byte stream.
pub open spec fn take_u64(b: Seq<u8>) -> Option<(u64, Seq<u8>)> {
    if b.len() >= 8 {
        Some((spec_u64_from_le_bytes(b.take(8)), b.skip(8)))
    } else {
        None
    }
}

/// Decode one value off the front of a byte stream.
pub open spec fn decode_value(b: Seq<u8>) -> Option<(ValueModel, Seq<u8>)> {
    if b.len() == 0 {
        None
    } else if b.first() == TAG_TEXT {
        match take_u64(b.drop_first()) {
            Some((n, rest)) => if rest.len() >= n && valid_utf8(rest.take(n as int)) {
                Some((ValueModel::Text(decode_utf8(rest.take(n as int))), rest.skip(n as int)))
            } else {
                None
            },
            None => None,
        }
    } else if b.first() == TAG_BYTE {
        if b.len() >= 2 {
            Some((ValueModel::Byte(b[1]), b.skip(2)))
        } else {
            None
        }
    } else {
        None
    }
}

/// Decode one key/value pair off the front of a byte stream.
pub open spec fn decode_pair(b: Seq<u8>) -> Option<((Seq<char>, ValueModel), Seq<u8>)> {
    match take_u64(b) {
        Some((n, rest)) => if rest.len() >= n && valid_utf8(rest.take(n as int)) {
            match decode_value(rest.skip(n as int)) {
                Some((v, rest2)) => Some(((decode_utf8(rest.take(n as int)), v), rest2)),
                None => None,
            }
        } else {
            None
        },
        None => None,
    }
}

/// Decode exactly `n` pairs off the front of a byte stream.
pub open spec fn decode_pairs(b: Seq<u8>, n: nat) -> Option<
    (Seq<(Seq<char>, ValueModel)>, Seq<u8>),
>
    decreases n,
{
    if n == 0 {
        Some((Seq::empty(), b))
    } else {
        match decode_pair(b) {
            Some((p, rest)) => match decode_pairs(rest, (n - 1) as nat) {
                Some((ps, rest2)) => Some((seq![p] + ps, rest2)),
                None => None,
            },
            None => None,
        }
    }
}

/// Decode one whole frame record off the front of a byte stream.
pub open spec fn decode_frame_bytes(b: Seq<u8>) -> Option<
    (Seq<(Seq<char>, ValueModel)>, Seq<u8>),
> {
    match take_u64(b) {
        Some((n, rest)) => decode_pairs(rest, n as nat),
        None => None,
    }
}

/// Appending one pair to a list appends its encoding to the list's.
pub proof fn lemma_encode_pairs_push(s: Seq<(Seq<char>, ValueModel)>, k: Seq<char>, v: ValueModel)
    ensures
        encode_pairs(s.push((k, v))) == encode_pairs(s) + encode_pair(k, v),
    decreases s.len(),
{
    let s2 = s.push((k, v));
    assert(s2.len() == s.len() + 1);
    assert(encode_pairs(s2) == encode_pair(s2.first().0, s2.first().1) + encode_pairs(
        s2.drop_first(),
    ));
    if s.len() == 0 {
        assert(s2.first() == (k, v));
        assert(s2.drop_first() =~= Seq::<(Seq<char>, ValueModel)>::empty());
        assert(encode_pairs(s2.drop_first()) == Seq::<u8>::empty());
        assert(encode_pair(k, v) + Seq::<u8>::empty() =~= encode_pair(k, v));
        assert(encode_pairs(s) == Seq::<u8>::empty());
        assert(Seq::<u8>::empty() + encode_pair(k, v) =~= encode_pair(k, v));
    } else {
        assert(s2.first() == s.first());
        assert(s2.drop_first() =~= s.drop_first().push((k, v)));
        lemma_encode_pairs_push(s.drop_first(), k, v);
        assert(encode_pair(s.first().0, s.first().1) + (encode_pairs(s.drop_first())
            + encode_pair(k, v)) =~= (encode_pair(s.first().0, s.first().1) + encode_pairs(
            s.drop_first(),
        )) + encode_pair(k, v));
    }
}

/// Decoding `n` pairs and then putting an already-decoded prefix in front.
pub open spec fn decode_pairs_then(
    prefix: Seq<(Seq<char>, ValueModel)>,
    b: Seq<u8>,
    n: nat,
) -> Option<(Seq<(Seq<char>, ValueModel)>, Seq<u8>)> {
    match decode_pairs(b, n) {
        Some(d) => Some((prefix + d.0, d.1)),
        None => None,
    }
}

/// Relies on String::from_utf8: it succeeds exactly on UTF-8 input, and the
/// returned string spells those bytes.
#[verifier::external_body]
pub(crate) fn string_from_utf8(bytes: Vec<u8>) -> (r: Option<String>)
    ensures
        r is Some <==> valid_utf8(bytes@),
        r is Some ==> encode_utf8(r->0@) == bytes@,
{
    match String::from_utf8(bytes) {
        Ok(s) => Some(s),
        Err(_) => None,
    }
}

/// Append a 64-bit little-endian integer to the output stream.
pub(crate) fn write_u64(out: &mut Vec<u8>, x: u64)
    ensures
        final(out)@ == old(out)@ + spec_u64_to_le_bytes(x),
{
    let mut b = u64_to_le_bytes(x);
    out.append(&mut b);
}

/// Read a 64-bit little-endian integer at `pos`, advancing past it.
pub(crate) fn read_u64(source: &[u8], pos: usize) -> (r: Option<(u64, usize)>)
    requires
        pos <= source@.len(),
    ensures
        match r {
            Some(p) => p.1 == pos + 8 && p.1 <= source@.len() && take_u64(
                source@.skip(pos as int),
            ) == Some((p.0, source@.skip(p.1 as int))),
            None => take_u64(source@.skip(pos as int)) is None,
        },
{
    if source.len() - pos >= 8 {
        let sub = slice_subrange(source, pos, pos + 8);
        let x = u64_from_le_bytes(sub);
        proof {
            assert(source@.skip(pos as int).take(8) =~= source@.subrange(
                pos as int,
                pos as int + 8,
            ));
            assert(source@.skip(pos as int).skip(8) =~= source@.skip(pos as int + 8));
        }
        Some((x, pos + 8))
    } else {
        None
    }
}

/// Concatenation splits back at the first operand's length.
proof fn lemma_concat_parts(a: Seq<u8>, b: Seq<u8>)
    ensures
        (a + b).len() == a.len() + b.len(),
        (a + b).take(a.len() as int) == a,
        (a + b).skip(a.len() as int) == b,
{
    assert((a + b).take(a.len() as int) =~= a);
    assert((a + b).skip(a.len() as int) =~= b);
}

/// A 64-bit length written at the head of a stream reads back as itself.
proof fn lemma_take_u64_roundtrip(x: u64, rest: Seq<u8>)
    ensures
        take_u64(spec_u64_to_le_bytes(x) + rest) == Some((x, rest)),
{
    lemma_auto_spec_u64_to_from_le_bytes();
    lemma_concat_parts(spec_u64_to_le_bytes(x), rest);
    assert((spec_u64_to_le_bytes(x) + rest).take(8) == spec_u64_to_le_bytes(x));
    assert((spec_u64_to_le_bytes(x) + rest).skip(8) == rest);
}

/// Decoding an encoded value consumes exactly it and yields it back.
pub proof fn lemma_value_roundtrip(v: ValueModel, rest: Seq<u8>)
    requires
        value_bounded(v),
    ensures
        decode_value(encode_value(v) + rest) == Some((v, rest)),
{
    match v {
        ValueModel::Text(t) => {
            let tb = encode_utf8(t);
            let b = encode_value(v) + rest;
            assert(b.first() == TAG_TEXT);
            assert(b.drop_first() =~= spec_u64_to_le_bytes(tb.len() as u64) + (tb + rest));
            lemma_take_u64_roundtrip(tb.len() as u64, tb + rest);
            lemma_concat_parts(tb, rest);
            encode_utf8_valid_utf8(t);
            encode_utf8_decode_utf8(t);
        },
        ValueModel::Byte(x) => {
            let b = encode_value(v) + rest;
            assert(b.first() == TAG_BYTE);
            assert(b[1] == x);
            assert(b.skip(2) =~= rest);
        },
    }
}

/// Decoding an encoded pair consumes exactly it and yields it back.
pub proof fn lemma_pair_roundtrip(k: Seq<char>, v: ValueModel, rest: Seq<u8>)
    requires
        encode_utf8(k).len() <= u64::MAX,
        value_bounded(v),
    ensures
        decode_pair(encode_pair(k, v) + rest) == Some(((k, v), rest)),
{
    let kb = encode_utf8(k);
    let b = encode_pair(k, v) + rest;
    assert(b =~= spec_u64_to_le_bytes(kb.len() as u64) + (kb + (encode_value(v) + rest)));
    lemma_take_u64_roundtrip(kb.len() as u64, kb + (encode_value(v) + rest));
    lemma_concat_parts(kb, encode_value(v) + rest);
    encode_utf8_valid_utf8(k);
    encode_utf8_decode_utf8(k);
    lemma_value_roundtrip(v, rest);
}

/// Decoding the encoding of `s` followed by anything yields `s` and leaves
/// the rest untouched.
pub proof fn lemma_pairs_roundtrip(s: Seq<(Seq<char>, ValueModel)>, rest: Seq<u8>)
    requires
        forall|i: int|
            0 <= i < s.len() ==> encode_utf8(#[trigger] s[i].0).len() <= u64::MAX
                && value_bounded(s[i].1),
    ensures
        decode_pairs(encode_pairs(s) + rest, s.len() as nat) == Some((s, rest)),
    decreases s.len(),
{
    if s.len() == 0 {
        assert(encode_pairs(s) + rest =~= rest);
    } else {
        let p = s.first();
        let tail = s.drop_first();
        assert(encode_pairs(s) + rest =~= encode_pair(p.0, p.1) + (encode_pairs(tail) + rest));
        lemma_pair_roundtrip(p.0, p.1, encode_pairs(tail) + rest);
        lemma_pairs_roundtrip(tail, rest);
        assert(seq![p] + tail =~= s);
    }
}

/// A strict prefix of an encoded value does not decode.
proof fn lemma_value_prefix_fails(v: ValueModel, m: int)
    requires
        value_bounded(v),
        0 <= m < encode_value(v).len(),
    ensures
        decode_value(encode_value(v).take(m)) is None,
{
    let ev = encode_value(v);
    let p = ev.take(m);
    if m == 0 {
        assert(p.len() == 0);
    } else {
        match v {
            ValueModel::Text(t) => {
                let tb = encode_utf8(t);
                let lenb = spec_u64_to_le_bytes(tb.len() as u64);
                lemma_auto_spec_u64_to_from_le_bytes();
                assert(p.first() == TAG_TEXT);
                let q = p.drop_first();
                assert(q =~= (lenb + tb).take(m - 1));
                if m - 1 < 8 {
                    assert(q.len() < 8);
                } else {
                    assert(q.take(8) =~= lenb);
                    let rest = q.skip(8);
                    assert(rest =~= tb.take(m - 9));
                    assert(rest.len() < tb.len());
                }
            },
            ValueModel::Byte(x) => {
                assert(m == 1);
                assert(p.first() == TAG_BYTE);
                assert(p.len() < 2);
            },
        }
    }
}

/// A strict prefix of an encoded pair does not decode.
proof fn lemma_pair_prefix_fails(k: Seq<char>, v: ValueModel, m: int)
    requires
        encode_utf8(k).len() <= u64::MAX,
        value_bounded(v),
        0 <= m < encode_pair(k, v).len(),
    ensures
        decode_pair(encode_pair(k, v).take(m)) is None,
{
    let kb = encode_utf8(k);
    let lenb = spec_u64_to_le_bytes(kb.len() as u64);
    let ev = encode_value(v);
    let p = encode_pair(k, v).take(m);
    assert(p =~= (lenb + (kb + ev)).take(m));
    if m < 8 {
        assert(p.len() < 8);
    } else {
        lemma_auto_spec_u64_to_from_le_bytes();
        assert(p.take(8) =~= lenb);
        let rest = p.skip(8);
        assert(rest =~= (kb + ev).take(m - 8));
        if m - 8 < kb.len() {
            assert(rest.len() < kb.len());
        } else {
            assert(rest.take(kb.len() as int) =~= kb);
            encode_utf8_valid_utf8(k);
            assert(rest.skip(kb.len() as int) =~= ev.take(m - 8 - kb.len()));
            lemma_value_prefix_fails(v, m - 8 - kb.len());
        }
    }
}

/// A strict prefix of an encoded pair list never decodes as the full count
/// of pairs.
proof fn lemma_pairs_prefix_fails(s: Seq<(Seq<char>, ValueModel)>, m: int)
    requires
        forall|i: int|
            0 <= i < s.len() ==> encode_utf8(#[trigger] s[i].0).len() <= u64::MAX
                && value_bounded(s[i].1),
        0 <= m < encode_pairs(s).len(),
    ensures
        decode_pairs(encode_pairs(s).take(m), s.len() as nat) is None,
    decreases s.len(),
{
    let head = s.first();
    let tail = s.drop_first();
    let e1 = encode_pair(head.0, head.1);
    let p = encode_pairs(s).take(m);
    if m < e1.len() {
        assert(p =~= e1.take(m));
        lemma_pair_prefix_fails(head.0, head.1, m);
    } else {
        assert(p =~= e1 + encode_pairs(tail).take(m - e1.len()));
        lemma_pair_roundtrip(head.0, head.1, encode_pairs(tail).take(m - e1.len()));
        lemma_pairs_prefix_fails(tail, m - e1.len());
    }
}

/// Truncation fails cleanly: a strict prefix of an encoded frame record
/// never decodes as a frame. A reader that meets one reports an error, not
/// a clean end of stream.
pub proof fn lemma_truncated_frame_fails(s: Seq<(Seq<char>, ValueModel)>, m: int)
    requires
        pairs_bounded(s),
        0 <= m < frame_bytes(s).len(),
    ensures
        decode_frame_bytes(frame_bytes(s).take(m)) is None,
{
    let lenb = spec_u64_to_le_bytes(s.len() as u64);
    let p = frame_bytes(s).take(m);
    if m < 8 {
        assert(p.len() < 8);
    } else {
        lemma_auto_spec_u64_to_from_le_bytes();
        assert(p.take(8) =~= lenb);
        assert(p.skip(8) =~= encode_pairs(s).take(m - 8));
        lemma_pairs_prefix_fails(s, m - 8);
    }
}

/// The byte stream that a sequence of frame records forms: their encodings
/// back to back, with no delimiter, count or header.
pub open spec fn stream_bytes(list: Seq<Seq<(Seq<char>, ValueModel)>>) -> Seq<u8>
    decreases list.len(),
{
    if list.len() == 0 {
        Seq::empty()
    } else {
        frame_bytes(list.first()) + stream_bytes(list.drop_first())
    }
}

/// Reading a stream of encoded records yields them in order: the head
/// record decodes first, leaving exactly the remaining records' bytes.
pub proof fn lemma_stream_head(list: Seq<Seq<(Seq<char>, ValueModel)>>)
    requires
        list.len() > 0,
        pairs_bounded(list.first()),
    ensures
        decode_frame_bytes(stream_bytes(list)) == Some(
            (list.first(), stream_bytes(list.drop_first())),
        ),
{
    lemma_frame_roundtrip(list.first(), stream_bytes(list.drop_first()));
}

/// A stream of `n` records reads back as exactly those `n` records in
/// order, then ends: after any `k` records are consumed, the next decode
/// yields record `k` and leaves the records after it — and once all are
/// consumed, the remaining stream is empty, which a reader reports as a
/// clean end of the sequence.
pub proof fn lemma_stream_read_in_order(list: Seq<Seq<(Seq<char>, ValueModel)>>, k: int)
    requires
        0 <= k < list.len(),
        pairs_bounded(list[k]),
    ensures
        decode_frame_bytes(stream_bytes(list.skip(k))) == Some(
            (list[k], stream_bytes(list.skip(k + 1))),
        ),
        stream_bytes(list.skip(list.len() as int)).len() == 0,
{
    assert(list.skip(k).first() == list[k]);
    assert(list.skip(k).drop_first() =~= list.skip(k + 1));
    lemma_stream_head(list.skip(k));
    assert(list.skip(list.len() as int) =~= Seq::<Seq<(Seq<char>, ValueModel)>>::empty());
}

/// Round trip: decoding an encoded frame record, wherever it stands in a
/// stream, yields exactly the pairs that were encoded and leaves the bytes
/// after the record untouched.
pub proof fn lemma_frame_roundtrip(s: Seq<(Seq<char>, ValueModel)>, rest: Seq<u8>)
    requires
        pairs_bounded(s),
    ensures
        decode_frame_bytes(frame_bytes(s) + rest) == Some((s, rest)),
{
    assert(frame_bytes(s) + rest =~= spec_u64_to_le_bytes(s.len() as u64) + (encode_pairs(s)
        + rest));
    lemma_take_u64_roundtrip(s.len() as u64, encode_pairs(s) + rest);
    lemma_pairs_roundtrip(s, rest);
}

} // verus!
