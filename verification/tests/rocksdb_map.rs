use std::collections::HashMap;

use dozer_core::codec::{Decode, Encode, Encoded, KeyCodec};
use dozer_core::errors::{EngineError, StorageError};
use dozer_core::rocksdb_map::{RocksdbMap, Write, ESTIMATE_NUM_KEYS};

/// A storage engine for the tests: byte strings under byte-string keys, in memory.
struct Engine {
    entries: HashMap<Vec<u8>, Vec<u8>>,
}

impl Engine {
    fn new() -> Self {
        Engine { entries: HashMap::new() }
    }

    fn apply(&mut self, write: Write<'_>) {
        match write {
            Write::Put { key, value } => {
                self.entries.insert(key.into_owned(), value.into_owned());
            }
            Write::Delete { key } => {
                self.entries.remove(key.as_bytes());
            }
        }
    }

    fn get_pinned(&self, key: &[u8]) -> Result<Option<&[u8]>, EngineError> {
        Ok(self.entries.get(key).map(|value| value.as_slice()))
    }
}

fn open<K: dozer_core::codec::KeyCodec, V: dozer_core::codec::ValueCodec>() -> RocksdbMap<K, V> {
    RocksdbMap::create(Ok(())).unwrap()
}

#[test]
fn insert_then_get_returns_the_value() {
    let map: RocksdbMap<u64, Vec<u8>> = open();
    let mut engine = Engine::new();
    let key = 42u64;
    let value = vec![1u8, 2, 3];
    engine.apply(map.insert(&key, &value).unwrap());
    let asked = map.key(&key).unwrap();
    let found = engine.get_pinned(asked.as_bytes());
    assert_eq!(map.get(found.clone()), Ok(Some(vec![1u8, 2, 3])));
    assert_eq!(map.contains(found), Ok(true));
}

#[test]
fn remove_then_get_returns_nothing() {
    let map: RocksdbMap<u64, Vec<u8>> = open();
    let mut engine = Engine::new();
    let key = 42u64;
    let value = vec![9u8];
    engine.apply(map.insert(&key, &value).unwrap());
    engine.apply(map.remove(&key).unwrap());
    let asked = map.key(&key).unwrap();
    let found = engine.get_pinned(asked.as_bytes());
    assert_eq!(map.get(found.clone()), Ok(None));
    assert_eq!(map.contains(found), Ok(false));
}

#[test]
fn empty_key_and_empty_value_round_trip() {
    let map: RocksdbMap<Vec<u8>, Vec<u8>> = open();
    let mut engine = Engine::new();
    let key: Vec<u8> = Vec::new();
    let value: Vec<u8> = Vec::new();
    engine.apply(map.insert(&key, &value).unwrap());
    let asked = map.key(&key).unwrap();
    assert_eq!(asked.as_bytes(), &[] as &[u8]);
    let found = engine.get_pinned(asked.as_bytes());
    assert_eq!(map.get(found.clone()), Ok(Some(Vec::new())));
    assert_eq!(map.contains(found), Ok(true));
    engine.apply(map.remove(&key).unwrap());
    let found = engine.get_pinned(asked.as_bytes());
    assert_eq!(map.get(found.clone()), Ok(None));
    assert_eq!(map.contains(found), Ok(false));
}

#[test]
fn insert_replaces_and_keeps_other_keys() {
    let map: RocksdbMap<u32, u64> = open();
    let mut engine = Engine::new();
    engine.apply(map.insert(&1, &100).unwrap());
    engine.apply(map.insert(&2, &200).unwrap());
    engine.apply(map.insert(&1, &101).unwrap());
    let one = map.key(&1).unwrap();
    let two = map.key(&2).unwrap();
    let three = map.key(&3).unwrap();
    assert_eq!(map.get(engine.get_pinned(one.as_bytes())), Ok(Some(101)));
    assert_eq!(map.get(engine.get_pinned(two.as_bytes())), Ok(Some(200)));
    assert_eq!(map.get(engine.get_pinned(three.as_bytes())), Ok(None));
    engine.apply(map.remove(&1).unwrap());
    assert_eq!(map.get(engine.get_pinned(one.as_bytes())), Ok(None));
    assert_eq!(map.get(engine.get_pinned(two.as_bytes())), Ok(Some(200)));
}

#[test]
fn insert_asks_for_a_put_of_the_encodings() {
    let map: RocksdbMap<u32, u64> = open();
    match map.insert(&0x0102_0304, &0x1122_3344_5566_7788).unwrap() {
        Write::Put { key, value } => {
            assert_eq!(key.as_bytes(), &[1u8, 2, 3, 4]);
            assert_eq!(value.as_bytes(), &[0x11u8, 0x22, 0x33, 0x44, 0x55, 0x66, 0x77, 0x88]);
        }
        Write::Delete { .. } => panic!("insert asked for a delete"),
    }
    match map.remove(&7).unwrap() {
        Write::Delete { key } => assert_eq!(key.as_bytes(), &[0u8, 0, 0, 7]),
        Write::Put { .. } => panic!("remove asked for a put"),
    }
}

#[test]
fn get_fails_on_bytes_that_do_not_decode() {
    let map: RocksdbMap<u32, u64> = open();
    let stored = [1u8, 2, 3];
    assert_eq!(map.get(Ok(Some(&stored[..]))), Err(StorageError::DeserializationError));
    assert_eq!(map.contains(Ok(Some(&stored[..]))), Ok(true));
}

#[test]
fn engine_failures_are_passed_on() {
    let failure = EngineError { message: String::from("IO error: disk full") };
    let wrapped = StorageError::Engine(failure.clone());
    let map: RocksdbMap<u32, u64> = open();
    assert_eq!(map.get(Err(failure.clone())), Err(wrapped.clone()));
    assert_eq!(map.contains(Err(failure.clone())), Err(wrapped.clone()));
    assert_eq!(map.flush(Err(failure.clone())), Err(wrapped.clone()));
    assert_eq!(map.count(Err(failure.clone())), Err(wrapped.clone()));
    assert!(matches!(RocksdbMap::<u32, u64>::create(Err(failure)), Err(e) if e == wrapped));
    assert_eq!(map.flush(Ok(())), Ok(()));
}

#[test]
fn count_is_the_estimate_of_the_engine() {
    let map: RocksdbMap<u32, u64> = open();
    assert_eq!(ESTIMATE_NUM_KEYS, "rocksdb.estimate-num-keys");
    assert_eq!(map.count(Ok(Some(0))), Ok(0));
    assert_eq!(map.count(Ok(Some(12345))), Ok(12345));
}

#[test]
fn integers_are_encoded_big_endian() {
    assert_eq!(7u8.encode().unwrap().as_bytes(), &[7u8]);
    assert_eq!(258u32.encode().unwrap().as_bytes(), &[0u8, 0, 1, 2]);
    assert_eq!(u32::MAX.encode().unwrap().as_bytes(), &[255u8; 4]);
    assert_eq!(258u64.encode().unwrap().as_bytes(), &[0u8, 0, 0, 0, 0, 0, 1, 2]);
    assert_eq!(u64::MAX.encode().unwrap().into_owned(), vec![255u8; 8]);
    assert_eq!(u8::decode(&[7]), Ok(7));
    assert_eq!(u32::decode(&[0, 0, 1, 2]), Ok(258));
    assert_eq!(u64::decode(&[255; 8]), Ok(u64::MAX));
    assert_eq!(u64::decode(&[0, 0, 0, 0, 0, 0, 1, 2]), Ok(258));
}

#[test]
fn decoding_rejects_a_wrong_length() {
    assert_eq!(u8::decode(&[]), Err(StorageError::DeserializationError));
    assert_eq!(u8::decode(&[1, 2]), Err(StorageError::DeserializationError));
    assert_eq!(u32::decode(&[1, 2, 3]), Err(StorageError::DeserializationError));
    assert_eq!(u64::decode(&[0; 9]), Err(StorageError::DeserializationError));
}

#[test]
fn bytes_are_borrowed_not_copied() {
    let value = vec![5u8, 6, 7];
    match value.encode().unwrap() {
        Encoded::Borrowed(bytes) => assert_eq!(bytes.as_ptr(), value.as_ptr()),
        _ => panic!("a byte string was copied"),
    }
    assert_eq!(Vec::<u8>::decode(&[5, 6, 7]), Ok(vec![5u8, 6, 7]));
}

#[test]
fn errors_describe_themselves() {
    let failure = EngineError { message: String::from("x") };
    assert_eq!(StorageError::Engine(failure).describe(), "storage engine error");
    assert_eq!(StorageError::SerializationError.describe(), "serialization error");
    assert_eq!(StorageError::DeserializationError.describe(), "deserialization error");
}

#[test]
fn a_write_that_the_engine_refused_fails() {
    let map: RocksdbMap<u32, u64> = open();
    let failure = EngineError { message: String::from("Corruption: bad block") };
    assert_eq!(map.written(Ok(())), Ok(()));
    assert_eq!(map.written(Err(failure.clone())), Err(StorageError::Engine(failure.clone())));
    assert_eq!(StorageError::from_engine(failure.clone()), StorageError::Engine(failure));
}

/// A key of the caller's own that has no encoding when it is odd. Its
/// mathematical members serve the proofs and are never run.
struct Even(u64);

impl vstd::view::View for Even {
    type V = u64;

    fn view(&self) -> u64 {
        self.0
    }
}

impl Encode for Even {
    fn encoding(_value: u64) -> Option<vstd::seq::Seq<u8>> {
        unreachable!()
    }

    fn encode(&self) -> Result<Encoded<'_>, StorageError> {
        if self.0 % 2 == 0 {
            self.0.encode()
        } else {
            Err(StorageError::SerializationError)
        }
    }
}

impl KeyCodec for Even {
    fn encoding_is_injective(_a: u64, _b: u64) {}
}

#[test]
fn a_key_without_an_encoding_is_refused_before_the_engine_is_asked() {
    let map: RocksdbMap<Even, u64> = open();
    assert_eq!(map.key(&Even(2)).unwrap().as_bytes(), &[0u8, 0, 0, 0, 0, 0, 0, 2]);
    assert!(matches!(map.key(&Even(3)), Err(StorageError::SerializationError)));
    assert!(matches!(map.insert(&Even(3), &1), Err(StorageError::SerializationError)));
    assert!(matches!(map.remove(&Even(3)), Err(StorageError::SerializationError)));
    assert!(matches!(map.insert(&Even(4), &1), Ok(Write::Put { .. })));
}
