//! The keyed event container (`Frame`) and the values it can hold.
//!
//! A frame maps string keys to storable values and may share a read-only
//! ancestor frame: lookups that miss locally fall back to the ancestor
//! chain, while mutation only ever touches the frame's own storage.

use vstd::prelude::*;
use vstd::string::{StringSliceAdditionalSpecFns, StrSliceExecFns};
use std::sync::Arc;
use crate::codec::{
    decode_frame_bytes, decode_pair, decode_pairs, decode_pairs_then, decode_value, encode_pair,
    encode_pairs, encode_value, frame_bytes, lemma_encode_pairs_push, pairs_bounded, read_u64,
    string_from_utf8, take_u64, value_bounded, write_u64, DecodeError, TAG_BYTE, TAG_TEXT,
};

verus! {

/// The mathematical content of a stored value: what a value is, with the
/// concrete carrier types erased to their views.
pub enum ValueModel {
    Text(Seq<char>),
    Byte(u8),
}

/// A storable value: one of the variants a frame can hold.
#[derive(Debug)]
pub enum Value {
    /// UTF-8 text.
    Text(String),
    /// A single unsigned byte.
    Byte(u8),
}

impl View for Value {
    type V = ValueModel;

    open spec fn view(&self) -> ValueModel {
        match self {
            Value::Text(s) => ValueModel::Text(s@),
            Value::Byte(b) => ValueModel::Byte(*b),
        }
    }
}

/// Base trait for any object that can be stored in a `Frame`.
///
/// A concrete type ties itself to the stored representation three ways:
/// `as_model` says which model a stored copy of a value has, `fits` says
/// whether a stored model carries this type at all, and `reads` says which
/// values of this type a stored model can be read back as.
pub trait Serializeable: Sized {
    /// The model a stored copy of this value has.
    spec fn as_model(&self) -> ValueModel;

    /// Whether a stored model holds a value of this type.
    spec fn fits(m: ValueModel) -> bool;

    /// Whether `x` is a faithful read-back of the stored model `m`.
    spec fn reads(m: ValueModel, x: Self) -> bool;

    /// Storing a value and reading it back is faithful.
    proof fn lemma_store_reads(&self)
        ensures
            Self::fits(self.as_model()),
            Self::reads(self.as_model(), *self),
    ;

    /// A read-back value carries exactly the stored model.
    proof fn lemma_reads_model(m: ValueModel, x: Self)
        requires
            Self::reads(m, x),
        ensures
            Self::fits(m),
            x.as_model() == m,
    ;

    /// Wrap a value for storage.
    fn into_value(self) -> (v: Value)
        ensures
            v@ == self.as_model(),
    ;

    /// Downcast a stored value, read-only.
    fn try_borrow(v: &Value) -> (r: Option<&Self>)
        ensures
            match r {
                Some(t) => Self::fits(v@) && Self::reads(v@, *t),
                None => !Self::fits(v@),
            },
    ;

    /// Downcast a stored value, mutably.
    fn try_borrow_mut(v: &mut Value) -> (r: Option<&mut Self>)
        ensures
            match r {
                Some(t) => Self::fits(old(v)@) && Self::reads(old(v)@, *t) && final(v)@
                    == final(t).as_model(),
                None => !Self::fits(old(v)@) && *final(v) == *old(v),
            },
    ;
}

impl Serializeable for String {
    open spec fn as_model(&self) -> ValueModel {
        ValueModel::Text(self@)
    }

    open spec fn fits(m: ValueModel) -> bool {
        m is Text
    }

    open spec fn reads(m: ValueModel, x: Self) -> bool {
        m == ValueModel::Text(x@)
    }

    proof fn lemma_store_reads(&self) {
    }

    proof fn lemma_reads_model(m: ValueModel, x: Self) {
    }

    fn into_value(self) -> (v: Value) {
        Value::Text(self)
    }

    fn try_borrow(v: &Value) -> (r: Option<&Self>) {
        match v {
            Value::Text(s) => Some(s),
            _ => None,
        }
    }

    fn try_borrow_mut(v: &mut Value) -> (r: Option<&mut Self>) {
        match v {
            Value::Text(s) => Some(s),
            _ => None,
        }
    }
}

impl Serializeable for u8 {
    open spec fn as_model(&self) -> ValueModel {
        ValueModel::Byte(*self)
    }

    open spec fn fits(m: ValueModel) -> bool {
        m is Byte
    }

    open spec fn reads(m: ValueModel, x: Self) -> bool {
        m == ValueModel::Byte(x)
    }

    proof fn lemma_store_reads(&self) {
    }

    proof fn lemma_reads_model(m: ValueModel, x: Self) {
    }

    fn into_value(self) -> (v: Value) {
        Value::Byte(self)
    }

    fn try_borrow(v: &Value) -> (r: Option<&Self>) {
        match v {
            Value::Byte(b) => Some(b),
            _ => None,
        }
    }

    fn try_borrow_mut(v: &mut Value) -> (r: Option<&mut Self>) {
        match v {
            Value::Byte(b) => Some(b),
            _ => None,
        }
    }
}

/// A recoverable lookup failure on a `Frame`.
#[derive(Clone, Copy, Debug, PartialEq, Eq, Structural)]
pub enum FrameError {
    /// The key is absent from the searched storage.
    KeyNotFound,
    /// The key is present but the stored value is of another type.
    TypeMismatch,
}

/// The keyed container for event data.
///
/// Keys are strings, values are [`Value`]s, and an optional read-only
/// ancestor frame is consulted (recursively) when a lookup misses locally.
/// The ancestor is shared through a reference count and is never mutated
/// through a descendant.
pub struct Frame {
    entries: Vec<(String, Value)>,
    parent: Option<Arc<Frame>>,
}

/// The map described by an association list, later entries winning.
pub open spec fn pairs_to_map(s: Seq<(Seq<char>, ValueModel)>) -> Map<Seq<char>, ValueModel>
    decreases s.len(),
{
    if s.len() == 0 {
        Map::empty()
    } else {
        pairs_to_map(s.drop_last()).insert(s.last().0, s.last().1)
    }
}

/// The views of an entry list's keys and values, in storage order.
spec fn view_pairs(s: Seq<(String, Value)>) -> Seq<(Seq<char>, ValueModel)> {
    Seq::new(s.len(), |i: int| (s[i].0@, s[i].1@))
}

impl Frame {
    /// The frame's own key/value pairs, in storage order.
    pub closed spec fn pairs(&self) -> Seq<(Seq<char>, ValueModel)> {
        view_pairs(self.entries@)
    }

    /// The frame's own storage as a map.
    pub open spec fn local(&self) -> Map<Seq<char>, ValueModel> {
        pairs_to_map(self.pairs())
    }

    /// The ancestor frame, if one was bound at construction.
    pub closed spec fn ancestor(&self) -> Option<Frame> {
        match self.parent {
            Some(p) => Some(*p),
            None => None,
        }
    }

    /// No key occurs twice in the frame's own storage.
    pub closed spec fn keys_unique(&self) -> bool {
        forall|i: int, j: int|
            0 <= i < j < self.pairs().len() ==> self.pairs()[i].0 != self.pairs()[j].0
    }

    /// Well-formed: unique keys, here and in every ancestor.
    pub closed spec fn wf(&self) -> bool
        decreases *self,
    {
        self.keys_unique() && match self.parent {
            Some(p) => (*p).wf(),
            None => true,
        }
    }

    /// The value a lookup for `k` finds: the local entry if present, else
    /// the first match along the ancestor chain.
    pub closed spec fn chain(&self, k: Seq<char>) -> Option<ValueModel>
        decreases *self,
    {
        if self.local().contains_key(k) {
            Some(self.local()[k])
        } else {
            match self.parent {
                Some(p) => (*p).chain(k),
                None => None,
            }
        }
    }

    /// A local hit resolves the whole lookup.
    pub proof fn lemma_chain_local(&self, k: Seq<char>)
        requires
            self.local().contains_key(k),
        ensures
            self.chain(k) == Some(self.local()[k]),
    {
    }

    /// A local miss delegates the lookup to the ancestor.
    pub proof fn lemma_chain_delegates(&self, k: Seq<char>)
        requires
            !self.local().contains_key(k),
        ensures
            self.chain(k) == match self.ancestor() {
                Some(a) => a.chain(k),
                None => None::<ValueModel>,
            },
    {
    }

    /// A well-formed frame has a well-formed ancestor.
    pub proof fn lemma_wf_ancestor(&self)
        requires
            self.wf(),
        ensures
            match self.ancestor() {
                Some(a) => a.wf(),
                None => true,
            },
    {
    }

    /// Create a new empty frame with no ancestor.
    pub fn new() -> (f: Frame)
        ensures
            f.wf(),
            f.local() == Map::<Seq<char>, ValueModel>::empty(),
            f.ancestor() is None,
    {
        Frame { entries: Vec::new(), parent: None }
    }

    /// Create a new empty frame sharing the given read-only ancestor.
    pub fn new_with_parent(parent: Arc<Frame>) -> (f: Frame)
        ensures
            f.local() == Map::<Seq<char>, ValueModel>::empty(),
            f.ancestor() == Some(*parent),
            parent.wf() ==> f.wf(),
    {
        Frame { entries: Vec::new(), parent: Some(parent) }
    }

    /// Get a read-only reference to the value at `key`.
    ///
    /// A local miss is delegated to the ancestor chain; the first match
    /// wins. Fails with `KeyNotFound` when the key is absent from the whole
    /// chain, and with `TypeMismatch` when the local storage holds the key
    /// with a value of another type. A mismatch found further up the chain
    /// is reported as `KeyNotFound`.
    pub fn get<'a, T: Serializeable>(&'a self, key: &str) -> (r: Result<&'a T, FrameError>)
        requires
            self.wf(),
        ensures
            match r {
                Ok(t) => self.chain(key@) is Some && T::fits(self.chain(key@)->0) && T::reads(
                    self.chain(key@)->0,
                    *t,
                ),
                Err(FrameError::TypeMismatch) => self.local().contains_key(key@) && !T::fits(
                    self.local()[key@],
                ),
                Err(FrameError::KeyNotFound) => !self.local().contains_key(key@) && !(self.chain(
                    key@,
                ) is Some && T::fits(self.chain(key@)->0)),
            },
        decreases *self,
    {
        match self.find_index(key) {
            Some(i) => {
                proof {
                    lemma_pairs_to_map_index(self.pairs(), i as int);
                }
                match T::try_borrow(&self.entries[i].1) {
                    Some(t) => Ok(t),
                    None => Err(FrameError::TypeMismatch),
                }
            },
            None => {
                match &self.parent {
                    Some(p) => {
                        let anc: &Frame = &**p;
                        match anc.get::<T>(key) {
                            Ok(t) => Ok(t),
                            Err(_) => Err(FrameError::KeyNotFound),
                        }
                    },
                    None => Err(FrameError::KeyNotFound),
                }
            },
        }
    }

    /// Get a mutable reference to the value at `key`.
    ///
    /// Only the frame's own storage is searched: the ancestor is read-only
    /// and is never considered, so a key present only in an ancestor fails
    /// with `KeyNotFound` here even though `get` would find it.
    pub fn get_mut<'a, T: Serializeable>(&'a mut self, key: &str) -> (r: Result<
        &'a mut T,
        FrameError,
    >)
        requires
            old(self).wf(),
        ensures
            match r {
                Ok(t) => {
                    &&& old(self).local().contains_key(key@)
                    &&& T::fits(old(self).local()[key@])
                    &&& T::reads(old(self).local()[key@], *t)
                    &&& final(self).wf()
                    &&& final(self).ancestor() == old(self).ancestor()
                    &&& final(self).local() == old(self).local().insert(
                        key@,
                        final(t).as_model(),
                    )
                },
                Err(FrameError::KeyNotFound) => {
                    &&& !old(self).local().contains_key(key@)
                    &&& final(self).wf()
                    &&& final(self).pairs() == old(self).pairs()
                    &&& final(self).ancestor() == old(self).ancestor()
                },
                Err(FrameError::TypeMismatch) => {
                    &&& old(self).local().contains_key(key@)
                    &&& !T::fits(old(self).local()[key@])
                    &&& final(self).wf()
                    &&& final(self).pairs() == old(self).pairs()
                    &&& final(self).ancestor() == old(self).ancestor()
                },
            },
    {
        let ghost es0 = self.entries@;
        let ghost ps = self.pairs();
        match self.find_index(key) {
            Some(i) => {
                proof {
                    lemma_pairs_to_map_index(ps, i as int);
                    assert forall|e: (String, Value)| #[trigger] view_pairs(
                        es0.update(i as int, e),
                    ) == ps.update(i as int, (e.0@, e.1@)) by {
                        assert(view_pairs(es0.update(i as int, e)) =~= ps.update(
                            i as int,
                            (e.0@, e.1@),
                        ));
                    }
                    lemma_pairs_to_map_update(ps, i as int);
                    assert(ps.update(i as int, ps[i as int]) =~= ps);
                }
                let entry = &mut self.entries[i];
                match T::try_borrow_mut(&mut entry.1) {
                    Some(t) => Ok(t),
                    None => Err(FrameError::TypeMismatch),
                }
            },
            None => Err(FrameError::KeyNotFound),
        }
    }

    /// Set the value at `key` in the frame's own storage.
    ///
    /// An existing local entry is overwritten; the ancestor chain is never
    /// touched. This always succeeds.
    pub fn set<T: Serializeable>(&mut self, key: &str, value: T)
        requires
            old(self).wf(),
        ensures
            final(self).wf(),
            final(self).ancestor() == old(self).ancestor(),
            final(self).local() == old(self).local().insert(key@, value.as_model()),
    {
        self.set_value(key.to_owned(), value.into_value())
    }

    /// Set the already-wrapped value at `key` in the frame's own storage.
    fn set_value(&mut self, key: String, v: Value)
        requires
            old(self).wf(),
        ensures
            final(self).wf(),
            final(self).ancestor() == old(self).ancestor(),
            final(self).local() == old(self).local().insert(key@, v@),
    {
        let ghost ps = self.pairs();
        let ghost vm = v@;
        match self.find_index(key.as_str()) {
            Some(i) => {
                proof {
                    lemma_pairs_to_map_update(ps, i as int);
                }
                let entry = &mut self.entries[i];
                entry.1 = v;
                proof {
                    assert(self.pairs() =~= ps.update(i as int, (ps[i as int].0, vm)));
                }
            },
            None => {
                proof {
                    assert forall|j: int| 0 <= j < ps.len() implies ps[j].0 != key@ by {
                        if ps[j].0 == key@ {
                            lemma_pairs_to_map_index(ps, j);
                        }
                    }
                    lemma_pairs_to_map_domain(ps, key@);
                }
                self.entries.push((key, v));
                proof {
                    assert(self.pairs().drop_last() =~= ps);
                    assert(self.pairs() =~= ps.push((key@, vm)));
                }
            },
        }
    }

    /// Write the frame to a byte stream.
    ///
    /// Appends the frame's own key/value pairs to `destination` as one
    /// self-terminating record; the ancestor is never serialized. The bytes
    /// written are exactly `frame_bytes` of the frame's pairs.
    pub fn write_to_stream(&self, destination: &mut Vec<u8>)
        ensures
            pairs_bounded(self.pairs()),
            final(destination)@ == old(destination)@ + frame_bytes(self.pairs()),
    {
        let ghost ps = self.pairs();
        let n = self.entries.len();
        write_u64(destination, n as u64);
        let ghost base = old(destination)@ + vstd::bytes::spec_u64_to_le_bytes(n as u64);
        let mut i: usize = 0;
        while i < n
            invariant
                n == self.entries.len(),
                ps == self.pairs(),
                i <= n,
                forall|j: int|
                    0 <= j < i ==> vstd::utf8::encode_utf8(#[trigger] ps[j].0).len() <= u64::MAX
                        && value_bounded(ps[j].1),
                destination@ == base + encode_pairs(ps.take(i as int)),
            decreases n - i,
        {
            let ghost pre = destination@;
            let mut kb = self.entries[i].0.as_str().as_bytes_vec();
            write_u64(destination, kb.len() as u64);
            let ghost kbytes = kb@;
            destination.append(&mut kb);
            match &self.entries[i].1 {
                Value::Text(t) => {
                    destination.push(TAG_TEXT);
                    let mut tb = t.as_str().as_bytes_vec();
                    write_u64(destination, tb.len() as u64);
                    let ghost tbytes = tb@;
                    destination.append(&mut tb);
                    proof {
                        assert(encode_value(ps[i as int].1) =~= seq![TAG_TEXT]
                            + vstd::bytes::spec_u64_to_le_bytes(tbytes.len() as u64) + tbytes);
                    }
                },
                Value::Byte(b) => {
                    destination.push(TAG_BYTE);
                    destination.push(*b);
                    proof {
                        assert(encode_value(ps[i as int].1) =~= seq![TAG_BYTE, *b]);
                    }
                },
            }
            proof {
                assert(kbytes == vstd::utf8::encode_utf8(ps[i as int].0));
                assert(kbytes.len() <= u64::MAX);
                assert(value_bounded(ps[i as int].1));
                assert(destination@ =~= pre + encode_pair(ps[i as int].0, ps[i as int].1));
                assert(ps.take(i + 1) =~= ps.take(i as int).push(ps[i as int]));
                lemma_encode_pairs_push(ps.take(i as int), ps[i as int].0, ps[i as int].1);
                assert(destination@ =~= base + encode_pairs(ps.take(i + 1)));
            }
            i += 1;
        }
        proof {
            assert(ps.take(n as int) =~= ps);
            assert(destination@ =~= old(destination)@ + frame_bytes(ps));
        }
    }

    /// Read a frame record from a byte stream.
    ///
    /// Decodes exactly one record starting at `pos` and replaces the
    /// frame's own storage with its pairs (a repeated key keeps the last
    /// occurrence, as a map rebuild would). The ancestor binding is kept.
    /// Returns the position just past the record. On malformed or truncated
    /// bytes the frame is left unchanged.
    pub fn read_from_stream(&mut self, source: &[u8], pos: usize) -> (r: Result<usize, DecodeError>)
        requires
            old(self).wf(),
            pos <= source@.len(),
        ensures
            match r {
                Ok(end) => {
                    &&& pos <= end <= source@.len()
                    &&& decode_frame_bytes(source@.skip(pos as int)) is Some
                    &&& final(self).local() == pairs_to_map(
                        (decode_frame_bytes(source@.skip(pos as int))->0).0,
                    )
                    &&& source@.skip(end as int) == (decode_frame_bytes(
                        source@.skip(pos as int),
                    )->0).1
                    &&& final(self).wf()
                    &&& final(self).ancestor() == old(self).ancestor()
                },
                Err(_) => {
                    &&& decode_frame_bytes(source@.skip(pos as int)) is None
                    &&& *final(self) == *old(self)
                },
            },
    {
        let n = match read_u64(source, pos) {
            Some(p) => p,
            None => {
                return Err(DecodeError);
            },
        };
        let count = n.0;
        let mut p = n.1;
        let mut tmp = Frame::new();
        let ghost b8 = source@.skip(p as int);
        let ghost acc = Seq::<(Seq<char>, ValueModel)>::empty();
        let mut j: u64 = 0;
        proof {
            match decode_pairs(b8, count as nat) {
                Some(d) => {
                    assert(acc + d.0 =~= d.0);
                },
                None => {},
            }
        }
        while j < count
            invariant
                j <= count,
                pos + 8 <= p <= source@.len(),
                take_u64(source@.skip(pos as int)) == Some((count, b8)),
                tmp.wf(),
                tmp.ancestor() is None,
                tmp.local() == pairs_to_map(acc),
                decode_pairs(b8, count as nat) == decode_pairs_then(
                    acc,
                    source@.skip(p as int),
                    (count - j) as nat,
                ),
            decreases count - j,
        {
            let ghost acc0 = acc;
            let ghost bj = source@.skip(p as int);
            let (k, v, next_pos) = match Self::decode_pair_exec(source, p) {
                Ok(t) => t,
                Err(e) => {
                    proof {
                        assert(decode_pairs(source@.skip(p as int), (count - j) as nat) is None);
                        assert(decode_pairs(b8, count as nat) is None);
                        assert(decode_frame_bytes(source@.skip(pos as int)) is None);
                    }
                    return Err(e);
                },
            };
            proof {
                let dp = decode_pairs(source@.skip(next_pos as int), (count - j - 1) as nat);
                match dp {
                    Some(d) => {
                        assert(acc0 + (seq![(k@, v@)] + d.0) =~= acc0.push((k@, v@)) + d.0);
                    },
                    None => {},
                }
                acc = acc0.push((k@, v@));
                assert(acc0.push((k@, v@)).drop_last() =~= acc0);
            }
            tmp.set_value(k, v);
            p = next_pos;
            j = j + 1;
        }
        proof {
            assert(acc + Seq::<(Seq<char>, ValueModel)>::empty() =~= acc);
        }
        self.entries = tmp.entries;
        Ok(p)
    }

    /// Decode one key/value pair at `pos`, returning it with the position
    /// just past it.
    fn decode_pair_exec(source: &[u8], pos: usize) -> (r: Result<(String, Value, usize), DecodeError>)
        requires
            pos <= source@.len(),
        ensures
            match r {
                Ok(t) => {
                    &&& pos <= t.2 <= source@.len()
                    &&& decode_pair(source@.skip(pos as int)) == Some(
                        ((t.0@, t.1@), source@.skip(t.2 as int)),
                    )
                },
                Err(_) => decode_pair(source@.skip(pos as int)) is None,
            },
    {
        let n = match read_u64(source, pos) {
            Some(p) => p,
            None => {
                return Err(DecodeError);
            },
        };
        let klen = n.0;
        let kstart = n.1;
        if klen > (source.len() - kstart) as u64 {
            return Err(DecodeError);
        }
        let kend = kstart + (klen as usize);
        let kb = vstd::slice::slice_to_vec(vstd::slice::slice_subrange(source, kstart, kend));
        proof {
            assert(kb@ =~= source@.skip(kstart as int).take(klen as int));
        }
        let key = match string_from_utf8(kb) {
            Some(s) => s,
            None => {
                return Err(DecodeError);
            },
        };
        proof {
            vstd::utf8::encode_utf8_decode_utf8(key@);
        }
        let (v, end) = match Self::decode_value_exec(source, kend) {
            Ok(t) => t,
            Err(e) => {
                proof {
                    assert(source@.skip(kstart as int).skip(klen as int) =~= source@.skip(
                        kend as int,
                    ));
                }
                return Err(e);
            },
        };
        proof {
            assert(source@.skip(kstart as int).skip(klen as int) =~= source@.skip(kend as int));
        }
        Ok((key, v, end))
    }

    /// Decode one tagged value at `pos`, returning it with the position
    /// just past it.
    fn decode_value_exec(source: &[u8], pos: usize) -> (r: Result<(Value, usize), DecodeError>)
        requires
            pos <= source@.len(),
        ensures
            match r {
                Ok(t) => {
                    &&& pos <= t.1 <= source@.len()
                    &&& decode_value(source@.skip(pos as int)) == Some(
                        (t.0@, source@.skip(t.1 as int)),
                    )
                },
                Err(_) => decode_value(source@.skip(pos as int)) is None,
            },
    {
        if pos >= source.len() {
            return Err(DecodeError);
        }
        let tag = *vstd::slice::slice_index_get(source, pos);
        if tag == TAG_TEXT {
            let n = match read_u64(source, pos + 1) {
                Some(p) => p,
                None => {
                    proof {
                        assert(source@.skip(pos as int).drop_first() =~= source@.skip(
                            pos as int + 1,
                        ));
                    }
                    return Err(DecodeError);
                },
            };
            proof {
                assert(source@.skip(pos as int).drop_first() =~= source@.skip(pos as int + 1));
            }
            let tlen = n.0;
            let tstart = n.1;
            if tlen > (source.len() - tstart) as u64 {
                return Err(DecodeError);
            }
            let tend = tstart + (tlen as usize);
            let tb = vstd::slice::slice_to_vec(vstd::slice::slice_subrange(source, tstart, tend));
            proof {
                assert(tb@ =~= source@.skip(tstart as int).take(tlen as int));
            }
            let text = match string_from_utf8(tb) {
                Some(s) => s,
                None => {
                    return Err(DecodeError);
                },
            };
            proof {
                vstd::utf8::encode_utf8_decode_utf8(text@);
                assert(source@.skip(tstart as int).skip(tlen as int) =~= source@.skip(tend as int));
            }
            Ok((Value::Text(text), tend))
        } else if tag == TAG_BYTE {
            if source.len() - pos < 2 {
                return Err(DecodeError);
            }
            let b = *vstd::slice::slice_index_get(source, pos + 1);
            proof {
                assert(source@.skip(pos as int)[1] == b);
                assert(source@.skip(pos as int).skip(2) =~= source@.skip(pos as int + 2));
            }
            Ok((Value::Byte(b), pos + 2))
        } else {
            Err(DecodeError)
        }
    }

    /// The index of `key` in the frame's own storage, if present.
    fn find_index(&self, key: &str) -> (r: Option<usize>)
        requires
            self.wf(),
        ensures
            match r {
                Some(i) => i < self.pairs().len() && self.pairs()[i as int].0 == key@,
                None => !self.local().contains_key(key@),
            },
    {
        let ghost ps = self.pairs();
        let mut i: usize = 0;
        while i < self.entries.len()
            invariant
                self.wf(),
                ps == self.pairs(),
                i <= self.entries.len(),
                forall|j: int| 0 <= j < i ==> ps[j].0 != key@,
            decreases self.entries.len() - i,
        {
            if str_eq(self.entries[i].0.as_str(), key) {
                return Some(i);
            }
            i += 1;
        }
        proof {
            lemma_pairs_to_map_domain(ps, key@);
        }
        None
    }
}

/// Whether two string slices hold the same characters.
fn str_eq(a: &str, b: &str) -> (r: bool)
    ensures
        r == (a@ == b@),
{
    let ab = a.as_bytes();
    let bb = b.as_bytes();
    if ab.len() != bb.len() {
        proof {
            if a@ == b@ {
                assert(a.spec_bytes() == b.spec_bytes());
            }
        }
        return false;
    }
    let mut i: usize = 0;
    while i < ab.len()
        invariant
            ab@ == a.spec_bytes(),
            bb@ == b.spec_bytes(),
            ab@.len() == bb@.len(),
            i <= ab@.len(),
            forall|j: int| 0 <= j < i ==> ab@[j] == bb@[j],
        decreases ab@.len() - i,
    {
        if ab[i] != bb[i] {
            proof {
                if a@ == b@ {
                    assert(a.spec_bytes() == b.spec_bytes());
                }
            }
            return false;
        }
        i += 1;
    }
    proof {
        assert(a.spec_bytes() =~= b.spec_bytes());
        vstd::utf8::encode_utf8_decode_utf8(a@);
        vstd::utf8::encode_utf8_decode_utf8(b@);
    }
    true
}

/// Round trip: a frame's encoded record, wherever it stands in a stream,
/// decodes back to exactly the frame's own key/value map and consumes
/// exactly the record's bytes. The ancestor is no part of the record.
pub proof fn lemma_record_roundtrip(f: Frame, rest: Seq<u8>)
    requires
        pairs_bounded(f.pairs()),
    ensures
        decode_frame_bytes(frame_bytes(f.pairs()) + rest) is Some,
        pairs_to_map((decode_frame_bytes(frame_bytes(f.pairs()) + rest)->0).0) == f.local(),
        (decode_frame_bytes(frame_bytes(f.pairs()) + rest)->0).1 == rest,
{
    crate::codec::lemma_frame_roundtrip(f.pairs(), rest);
}

/// Ancestor delegation: a key stored in the ancestor is seen by a child that
/// lacks it locally; setting the key on the child shadows the ancestor's
/// value for the child, while the ancestor itself still holds its own.
pub proof fn lemma_ancestor_delegation(a: Frame, c: Frame, c2: Frame, k: Seq<char>, v2: ValueModel)
    requires
        a.local().contains_key(k),
        c.ancestor() == Some(a),
        !c.local().contains_key(k),
        c2.ancestor() == Some(a),
        c2.local() == c.local().insert(k, v2),
    ensures
        a.chain(k) == Some(a.local()[k]),
        c.chain(k) == Some(a.local()[k]),
        c2.chain(k) == Some(v2),
{
}

/// Every key of an association list is in its map, with the value of its
/// last occurrence; with unique keys, the value at index `i` is the map's.
proof fn lemma_pairs_to_map_index(s: Seq<(Seq<char>, ValueModel)>, i: int)
    requires
        0 <= i < s.len(),
        forall|x: int, y: int| 0 <= x < y < s.len() ==> s[x].0 != s[y].0,
    ensures
        pairs_to_map(s).contains_key(s[i].0),
        pairs_to_map(s)[s[i].0] == s[i].1,
    decreases s.len(),
{
    if i == s.len() - 1 {
    } else {
        lemma_pairs_to_map_index(s.drop_last(), i);
    }
}

/// Overwriting the value at one index of an association list, its key kept,
/// is an insert on its map.
proof fn lemma_pairs_to_map_update_one(s: Seq<(Seq<char>, ValueModel)>, i: int, v: ValueModel)
    requires
        0 <= i < s.len(),
        forall|x: int, y: int| 0 <= x < y < s.len() ==> s[x].0 != s[y].0,
    ensures
        pairs_to_map(s.update(i, (s[i].0, v))) == pairs_to_map(s).insert(s[i].0, v),
    decreases s.len(),
{
    let s2 = s.update(i, (s[i].0, v));
    if i == s.len() - 1 {
        assert(s2.drop_last() =~= s.drop_last());
        assert(pairs_to_map(s.drop_last()).insert(s[i].0, v) =~= pairs_to_map(s).insert(
            s[i].0,
            v,
        ));
    } else {
        assert(s2.drop_last() =~= s.drop_last().update(i, (s[i].0, v)));
        lemma_pairs_to_map_update_one(s.drop_last(), i, v);
        assert(pairs_to_map(s.drop_last()).insert(s[i].0, v).insert(s.last().0, s.last().1)
            =~= pairs_to_map(s).insert(s[i].0, v));
    }
}

/// The same, stated for every written value at once.
proof fn lemma_pairs_to_map_update(s: Seq<(Seq<char>, ValueModel)>, i: int)
    requires
        0 <= i < s.len(),
        forall|x: int, y: int| 0 <= x < y < s.len() ==> s[x].0 != s[y].0,
    ensures
        forall|v: ValueModel| #[trigger] pairs_to_map(s.update(i, (s[i].0, v))) == pairs_to_map(
            s,
        ).insert(s[i].0, v),
{
    assert forall|v: ValueModel| #[trigger] pairs_to_map(s.update(i, (s[i].0, v))) == pairs_to_map(
        s,
    ).insert(s[i].0, v) by {
        lemma_pairs_to_map_update_one(s, i, v);
    }
}

/// A key outside an association list is outside its map.
proof fn lemma_pairs_to_map_domain(s: Seq<(Seq<char>, ValueModel)>, k: Seq<char>)
    requires
        forall|j: int| 0 <= j < s.len() ==> s[j].0 != k,
    ensures
        !pairs_to_map(s).contains_key(k),
    decreases s.len(),
{
    if s.len() > 0 {
        lemma_pairs_to_map_domain(s.drop_last(), k);
    }
}

} // verus!
