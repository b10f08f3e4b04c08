use crate::codec::{Encoded, KeyCodec, ValueCodec};
use crate::errors::{EngineError, StorageError};
use core::marker::PhantomData;
use vstd::pervasive::unreached;
use vstd::prelude::*;

verus! {

/// What a storage engine holds, as far as a typed map can tell: byte strings
/// under byte-string keys.
pub type Contents = Map<Seq<u8>, Seq<u8>>;

/// What an engine that holds `contents` answers when asked for `key`.
pub open spec fn stored(contents: Contents, key: Seq<u8>) -> Option<Seq<u8>> {
    if contents.dom().contains(key) {
        Some(contents[key])
    } else {
        None
    }
}

/// A change that a typed map asks its storage engine to make.
pub enum Write<'a> {
    /// Store `value` under `key`, replacing what was there.
    Put { key: Encoded<'a>, value: Encoded<'a> },
    /// Drop `key` and its value, if it is there.
    Delete { key: Encoded<'a> },
}

/// A `Write` with its bytes as sequences.
pub ghost enum WriteView {
    Put { key: Seq<u8>, value: Seq<u8> },
    Delete { key: Seq<u8> },
}

impl WriteView {
    /// What the engine holds once it has made the change.
    pub open spec fn apply(self, contents: Contents) -> Contents {
        match self {
            WriteView::Put { key, value } => contents.insert(key, value),
            WriteView::Delete { key } => contents.remove(key),
        }
    }
}

impl<'a> View for Write<'a> {
    type V = WriteView;

    open spec fn view(&self) -> WriteView {
        match self {
            Write::Put { key, value } => WriteView::Put { key: key@, value: value@ },
            Write::Delete { key } => WriteView::Delete { key: key@ },
        }
    }
}

/// The engine property that a typed map reads to learn how many keys it holds.
pub const ESTIMATE_NUM_KEYS: &'static str = "rocksdb.estimate-num-keys";

/// The typed face of one storage engine: keys of type `K` and values of type `V`
/// over an engine that stores bytes.
///
/// The map itself does no input or output. Each operation says what the engine
/// is to be asked, or turns what the engine answered into a typed result; the
/// caller carries requests and answers between the two.
pub struct RocksdbMap<K, V> {
    _key: PhantomData<K>,
    _value: PhantomData<V>,
}

impl<K: KeyCodec, V: ValueCodec> RocksdbMap<K, V> {
    /// The request that `insert` makes for a key and a value.
    pub open spec fn insertion(key: K::V, value: V::V) -> Result<WriteView, StorageError> {
        match (K::encoding(key), V::encoding(value)) {
            (Some(k), Some(v)) => Ok(WriteView::Put { key: k, value: v }),
            _ => Err(StorageError::SerializationError),
        }
    }

    /// The request that `remove` makes for a key.
    pub open spec fn removal(key: K::V) -> Result<WriteView, StorageError> {
        match K::encoding(key) {
            Some(k) => Ok(WriteView::Delete { key: k }),
            None => Err(StorageError::SerializationError),
        }
    }

    /// The bytes under which the engine holds `key`.
    pub open spec fn engine_key(key: K::V) -> Result<Seq<u8>, StorageError> {
        match K::encoding(key) {
            Some(k) => Ok(k),
            None => Err(StorageError::SerializationError),
        }
    }

    /// The result of `get` for what the engine answered.
    pub open spec fn gotten(found: Result<Option<Seq<u8>>, EngineError>) -> Result<
        Option<V::V>,
        StorageError,
    > {
        match found {
            Err(e) => Err(StorageError::Engine(e)),
            Ok(None) => Ok(None),
            Ok(Some(bytes)) => match V::decoding(bytes) {
                Some(value) => Ok(Some(value)),
                None => Err(StorageError::DeserializationError),
            },
        }
    }

    /// The result of `contains` for what the engine answered.
    pub open spec fn contained(found: Result<Option<Seq<u8>>, EngineError>) -> Result<
        bool,
        StorageError,
    > {
        match found {
            Err(e) => Err(StorageError::Engine(e)),
            Ok(slot) => Ok(slot is Some),
        }
    }

    /// Wraps an engine that the caller has tried to open at some path: the map
    /// exists exactly if the engine could be opened.
    pub fn create(opened: Result<(), EngineError>) -> (r: Result<Self, StorageError>)
        ensures
            match opened {
                Ok(_) => r is Ok,
                Err(e) => r matches Err(failure) && failure == StorageError::Engine(e),
            },
    {
        match opened {
            Ok(_) => Ok(RocksdbMap { _key: PhantomData, _value: PhantomData }),
            Err(e) => Err(StorageError::Engine(e)),
        }
    }

    /// The approximate number of keys, from the engine's answer for the
    /// property `ESTIMATE_NUM_KEYS`.
    ///
    /// An engine answers without a number where it does not know the
    /// property. There is then nothing to return: such an answer is not
    /// admitted.
    pub fn count(&self, estimate: Result<Option<u64>, EngineError>) -> (r: Result<
        usize,
        StorageError,
    >)
        requires
            !(estimate matches Ok(None)),
        ensures
            match estimate {
                Ok(Some(n)) => r == Ok::<usize, StorageError>(n as usize),
                Ok(None) => false,
                Err(e) => r == Err::<usize, StorageError>(StorageError::Engine(e)),
            },
    {
        match estimate {
            Ok(Some(n)) => Ok(
                #[verifier::truncate]
                (n as usize),
            ),
            Ok(None) => unreached(),
            Err(e) => Err(StorageError::Engine(e)),
        }
    }

    /// The bytes to ask the engine for when looking `key` up, for `get` and
    /// `contains`. Nothing is asked of the engine where the key has no encoding.
    pub fn key<'a>(&self, key: &'a K) -> (r: Result<Encoded<'a>, StorageError>)
        ensures
            match r {
                Ok(bytes) => Self::engine_key(key@) == Ok::<Seq<u8>, StorageError>(bytes@),
                Err(e) => Self::engine_key(key@) == Err::<Seq<u8>, StorageError>(e),
            },
    {
        key.encode()
    }

    /// The value under a key, from the engine's answer for `key(..)`: a view of
    /// the stored bytes that is only lent for this call. The value returned owns
    /// its data.
    pub fn get(&self, found: Result<Option<&[u8]>, EngineError>) -> (r: Result<
        Option<V>,
        StorageError,
    >)
        ensures
            match r {
                Ok(Some(value)) => Self::gotten(view_found(found)) == Ok::<
                    Option<V::V>,
                    StorageError,
                >(Some(value@)),
                Ok(None) => Self::gotten(view_found(found)) == Ok::<Option<V::V>, StorageError>(
                    None,
                ),
                Err(e) => Self::gotten(view_found(found)) == Err::<Option<V::V>, StorageError>(e),
            },
    {
        match found {
            Err(e) => Err(StorageError::Engine(e)),
            Ok(None) => Ok(None),
            Ok(Some(bytes)) => match V::decode(bytes) {
                Ok(value) => Ok(Some(value)),
                Err(e) => Err(e),
            },
        }
    }

    /// Whether a key is present, from the engine's answer for `key(..)`. The
    /// stored bytes are not decoded.
    pub fn contains(&self, found: Result<Option<&[u8]>, EngineError>) -> (r: Result<
        bool,
        StorageError,
    >)
        ensures
            r == Self::contained(view_found(found)),
    {
        match found {
            Err(e) => Err(StorageError::Engine(e)),
            Ok(slot) => Ok(slot.is_some()),
        }
    }

    /// The change to ask of the engine so that `key` holds `value`. Nothing is
    /// asked where either has no encoding.
    pub fn insert<'a>(&self, key: &'a K, value: &'a V) -> (r: Result<Write<'a>, StorageError>)
        ensures
            match r {
                Ok(write) => Self::insertion(key@, value@) == Ok::<WriteView, StorageError>(
                    write@,
                ),
                Err(e) => Self::insertion(key@, value@) == Err::<WriteView, StorageError>(e),
            },
    {
        let key = match key.encode() {
            Ok(bytes) => bytes,
            Err(e) => {
                return Err(e);
            },
        };
        let value = match value.encode() {
            Ok(bytes) => bytes,
            Err(e) => {
                return Err(e);
            },
        };
        Ok(Write::Put { key, value })
    }

    /// The change to ask of the engine so that `key` is absent.
    pub fn remove<'a>(&self, key: &'a K) -> (r: Result<Write<'a>, StorageError>)
        ensures
            match r {
                Ok(write) => Self::removal(key@) == Ok::<WriteView, StorageError>(write@),
                Err(e) => Self::removal(key@) == Err::<WriteView, StorageError>(e),
            },
    {
        match key.encode() {
            Ok(key) => Ok(Write::Delete { key }),
            Err(e) => Err(e),
        }
    }

    /// The result of `insert` or `remove` once the engine has been asked to
    /// make the change.
    pub fn written(&self, done: Result<(), EngineError>) -> (r: Result<(), StorageError>)
        ensures
            match done {
                Ok(_) => r is Ok,
                Err(e) => r == Err::<(), StorageError>(StorageError::Engine(e)),
            },
    {
        match done {
            Ok(_) => Ok(()),
            Err(e) => Err(StorageError::Engine(e)),
        }
    }

    /// The result of asking the engine to flush what it buffers to disk.
    pub fn flush(&self, flushed: Result<(), EngineError>) -> (r: Result<(), StorageError>)
        ensures
            match flushed {
                Ok(_) => r is Ok,
                Err(e) => r == Err::<(), StorageError>(StorageError::Engine(e)),
            },
    {
        match flushed {
            Ok(_) => Ok(()),
            Err(e) => Err(StorageError::Engine(e)),
        }
    }
}

impl<K: KeyCodec, V: ValueCodec> RocksdbMap<K, V> {
    /// After the engine has made the change that `insert` asks for, `get` on
    /// the engine's answer for the same key returns the inserted value, and
    /// `contains` returns true, whatever the engine held before.
    pub proof fn insert_then_get(contents: Contents, key: K::V, value: V::V)
        requires
            K::encoding(key) is Some,
            V::encoding(value) is Some,
        ensures
            ({
                let after = Self::insertion(key, value).unwrap().apply(contents);
                let found = Ok::<Option<Seq<u8>>, EngineError>(
                    stored(after, Self::engine_key(key).unwrap()),
                );
                &&& Self::gotten(found) == Ok::<Option<V::V>, StorageError>(Some(value))
                &&& Self::contained(found) == Ok::<bool, StorageError>(true)
            }),
    {
        V::decoding_inverts_encoding(value);
    }

    /// After the engine has made the change that `remove` asks for, `get` on
    /// the engine's answer for the same key returns nothing, and `contains`
    /// returns false, whatever the engine held before.
    pub proof fn remove_then_get(contents: Contents, key: K::V)
        requires
            K::encoding(key) is Some,
        ensures
            ({
                let after = Self::removal(key).unwrap().apply(contents);
                let found = Ok::<Option<Seq<u8>>, EngineError>(
                    stored(after, Self::engine_key(key).unwrap()),
                );
                &&& Self::gotten(found) == Ok::<Option<V::V>, StorageError>(None)
                &&& Self::contained(found) == Ok::<bool, StorageError>(false)
            }),
    {
    }

    /// On one answer of the engine, `contains` reports a key as present exactly
    /// if `get` returns a value for it. Where `get` fails because the engine
    /// failed, so does `contains`; where `get` fails because the stored bytes
    /// do not decode, `contains`, which does not decode, reports the key as
    /// present.
    pub proof fn contains_agrees_with_get(found: Result<Option<Seq<u8>>, EngineError>)
        ensures
            match Self::gotten(found) {
                Ok(slot) => Self::contained(found) == Ok::<bool, StorageError>(slot is Some),
                Err(StorageError::Engine(e)) => Self::contained(found) == Err::<
                    bool,
                    StorageError,
                >(StorageError::Engine(e)),
                Err(_) => Self::contained(found) == Ok::<bool, StorageError>(true),
            },
    {
    }

    /// The changes that `insert` and `remove` ask for leave every other key as
    /// it was: what the engine answers for a different key does not change.
    pub proof fn writes_keep_other_keys(contents: Contents, key: K::V, value: V::V, other: K::V)
        requires
            K::encoding(key) is Some,
            V::encoding(value) is Some,
            K::encoding(other) is Some,
            other != key,
        ensures
            ({
                let asked = Self::engine_key(other).unwrap();
                &&& stored(Self::insertion(key, value).unwrap().apply(contents), asked) == stored(
                    contents,
                    asked,
                )
                &&& stored(Self::removal(key).unwrap().apply(contents), asked) == stored(
                    contents,
                    asked,
                )
            }),
    {
        if K::encoding(key) == K::encoding(other) {
            K::encoding_is_injective(key, other);
        }
    }
}

/// An engine's answer to a lookup with its bytes as a sequence.
pub open spec fn view_found(found: Result<Option<&[u8]>, EngineError>) -> Result<
    Option<Seq<u8>>,
    EngineError,
> {
    match found {
        Ok(Some(bytes)) => Ok(Some(bytes@)),
        Ok(None) => Ok(None),
        Err(e) => Err(e),
    }
}

} // verus!
