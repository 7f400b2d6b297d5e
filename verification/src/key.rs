//! The layout of the keys in the keyspace.
//!
//! A key is a tag byte followed by a payload: tag 0 alone is the key of the
//! set of every document; tag 1 followed by a value's encoding is the key of the
//! documents that hold that value. Tag 255 is never written: it marks the end
//! of the tag-1 keys in range scans.
use crate::store::decode_u8;
use vstd::prelude::*;

verus! {

/// The kinds of key, each with its tag byte.
#[derive(Debug, Clone, Copy)]
pub enum KeyKind {
    All,
    Entry,
    FinalKind,
}

impl KeyKind {
    pub open spec fn tag(self) -> u8 {
        match self {
            KeyKind::All => 0,
            KeyKind::Entry => 1,
            KeyKind::FinalKind => 255,
        }
    }

    /// The tag byte of this kind of key.
    pub fn tag_byte(&self) -> (t: u8)
        ensures
            t == self.tag(),
    {
        match self {
            KeyKind::All => 0,
            KeyKind::Entry => 1,
            KeyKind::FinalKind => 255,
        }
    }

    /// The encoding of the kind alone: its tag byte.
    pub fn encode(&self) -> (bytes: Vec<u8>)
        ensures
            bytes@ == seq![self.tag()],
    {
        let mut bytes: Vec<u8> = Vec::new();
        bytes.push(self.tag_byte());
        bytes
    }
}

/// A key of the index: the set of every document, or the set of the documents
/// that hold one value (given by its encoding).
#[derive(Debug, Clone)]
pub enum Key<B> {
    All,
    Entry(B),
}

impl<B: View> View for Key<B> {
    type V = Key<B::V>;

    open spec fn view(&self) -> Key<B::V> {
        match self {
            Key::All => Key::All,
            Key::Entry(b) => Key::Entry(b@),
        }
    }
}

/// The bytes under which a key is stored.
pub open spec fn key_bytes(k: Key<Seq<u8>>) -> Seq<u8> {
    match k {
        Key::All => seq![KeyKind::All.tag()],
        Key::Entry(v) => seq![KeyKind::Entry.tag()] + v,
    }
}

/// The bytes under which the documents holding the value encoded as `v` are stored.
pub open spec fn entry_key(v: Seq<u8>) -> Seq<u8> {
    key_bytes(Key::Entry(v))
}

/// The bytes under which the set of every document is stored.
pub open spec fn all_key() -> Seq<u8> {
    key_bytes(Key::All)
}

/// What decoding stored bytes gives: nothing for empty bytes, the set of every
/// document for tag 0 (whatever follows), a value's entry for tag 1.
/// Other tags are never decoded (decoding panics on them).
pub open spec fn parse_key(bytes: Seq<u8>) -> Option<Key<Seq<u8>>>
    recommends
        bytes.len() > 0 ==> bytes[0] <= 1,
{
    if bytes.len() == 0 {
        None
    } else if bytes[0] == KeyKind::All.tag() {
        Some(Key::All)
    } else {
        Some(Key::Entry(bytes.drop_first()))
    }
}

impl Key<Vec<u8>> {
    /// The key of the documents that hold the value encoded as `encoded_value`.
    pub fn new(encoded_value: Vec<u8>) -> (k: Self)
        ensures
            k == Key::Entry(encoded_value),
    {
        Key::Entry(encoded_value)
    }

    /// The kind of this key.
    pub fn as_kind(&self) -> (kind: KeyKind)
        ensures
            kind == (match self {
                Key::All => KeyKind::All,
                Key::Entry(_) => KeyKind::Entry,
            }),
    {
        match self {
            Key::All => KeyKind::All,
            Key::Entry(_) => KeyKind::Entry,
        }
    }

    /// The value encoding of an entry key (`All` has none: not accepted).
    pub fn as_entry(&self) -> (v: &Vec<u8>)
        requires
            self is Entry,
        ensures
            Key::Entry(*v) == *self,
    {
        match self {
            Key::Entry(v) => v,
            Key::All => vstd::pervasive::unreached(),
        }
    }
}

/// The codec of the keys.
pub struct KeyCodec;

impl KeyCodec {
    /// The stored bytes of `key`: its tag byte, then the value encoding of an entry.
    pub fn encode(key: &Key<Vec<u8>>) -> (bytes: Vec<u8>)
        ensures
            bytes@ == key_bytes(key@),
    {
        let mut bytes = key.as_kind().encode();
        match key {
            Key::All => {},
            Key::Entry(v) => {
                let mut i: usize = 0;
                while i < v.len()
                    invariant
                        i <= v.len(),
                        bytes@ == seq![KeyKind::Entry.tag()] + v@.subrange(0, i as int),
                    decreases v.len() - i,
                {
                    bytes.push(v[i]);
                    i = i + 1;
                }
                assert(v@.subrange(0, v.len() as int) == v@);
            },
        }
        bytes
    }

    /// Reads a key back from stored bytes; fails on empty bytes, the tag decoder's error.
    pub fn decode(bytes: &Vec<u8>) -> (r: Result<Key<Vec<u8>>, std::io::Error>)
        requires
            bytes.len() > 0 ==> bytes[0] <= 1,
        ensures
            r is Ok <==> bytes.len() > 0,
            r matches Ok(k) ==> parse_key(bytes@) == Some(k@),
    {
        let tag = match decode_u8(bytes) {
            Ok(tag) => tag,
            Err(e) => return Err(e),
        };
        if tag == KeyKind::All.tag_byte() {
            Ok(Key::All)
        } else {
            let mut payload: Vec<u8> = Vec::new();
            let mut i: usize = 1;
            while i < bytes.len()
                invariant
                    1 <= i <= bytes.len(),
                    payload@ == bytes@.subrange(1, i as int),
                decreases bytes.len() - i,
            {
                payload.push(bytes[i]);
                i = i + 1;
            }
            assert(payload@ == bytes@.drop_first());
            Ok(Key::Entry(payload))
        }
    }
}

/// Decoding gives back the key that was encoded.
pub proof fn lemma_key_round_trip(k: Key<Seq<u8>>)
    ensures
        parse_key(key_bytes(k)) == Some(k),
{
    if let Key::Entry(v) = k {
        assert((seq![1u8] + v).drop_first() == v);
    }
}

/// The key of the set of every document sorts before every entry key, and every
/// entry key sorts before the tag that closes the entries.
pub proof fn lemma_key_order(v: Seq<u8>)
    ensures
        crate::store::bytes_lt(all_key(), entry_key(v)),
        crate::store::bytes_lt(entry_key(v), seq![KeyKind::FinalKind.tag()]),
{
}

} // verus!
