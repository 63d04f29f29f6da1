use vstd::prelude::*;
use vstd::bytes::{u128_to_le_bytes, u32_to_le_bytes, u64_to_le_bytes, u128_from_le_bytes,
    u32_from_le_bytes, u64_from_le_bytes, spec_u128_to_le_bytes, spec_u32_to_le_bytes,
    spec_u64_to_le_bytes, lemma_auto_spec_u128_to_from_le_bytes,
    lemma_auto_spec_u32_to_from_le_bytes, lemma_auto_spec_u64_to_from_le_bytes};
use vstd::string::{StrSliceExecFns, StringSliceAdditionalSpecFns};
use crate::errors::Errors;
use crate::fio::IOManager;
use crate::db::Engine;
use crate::options::{EngineOptions, WriteBatchOptions};
use crate::log_record::{copy_range, push_bytes};

verus! {

/// Where a fresh list's head and tail start, leaving room to push on
/// either side.
pub const INITIAL_LIST_MARK: u64 = 0x7FFFFFFFFFFFFFFF;

/// The kinds of values the adapter models on top of the store.
#[derive(Debug, PartialEq, Eq, Structural, Clone, Copy)]
pub enum RedisDataType {
    Strings,
    Hashes,
    Sets,
    Lists,
    ZSets,
}

/// The byte that encodes a data type.
pub open spec fn spec_redis_type_byte(t: RedisDataType) -> u8 {
    match t {
        RedisDataType::Strings => 0,
        RedisDataType::Hashes => 1,
        RedisDataType::Sets => 2,
        RedisDataType::Lists => 3,
        RedisDataType::ZSets => 4,
    }
}

impl RedisDataType {
    /// The on-disk byte of this data type.
    pub fn to_u8(self) -> (r: u8)
        ensures
            r == spec_redis_type_byte(self),
    {
        match self {
            RedisDataType::Strings => 0,
            RedisDataType::Hashes => 1,
            RedisDataType::Sets => 2,
            RedisDataType::Lists => 3,
            RedisDataType::ZSets => 4,
        }
    }

    /// Reads a data type back from its byte.
    pub fn from_u8(value: u8) -> (r: Self)
        requires
            value <= 4,
        ensures
            spec_redis_type_byte(r) == value,
    {
        if value == 0 { RedisDataType::Strings }
        else if value == 1 { RedisDataType::Hashes }
        else if value == 2 { RedisDataType::Sets }
        else if value == 3 { RedisDataType::Lists }
        else { RedisDataType::ZSets }
    }
}

/// What the adapter stores under a collection's own key: the collection's
/// kind, its expiry, the version that namespaces its elements, how many
/// elements it holds, and, for lists, the two ends.
#[derive(Debug, PartialEq, Eq, Structural, Clone, Copy)]
pub struct Metadata {
    pub data_type: RedisDataType,
    pub expire: u128,
    pub version: u128,
    pub size: u32,
    pub head: u64,
    pub tail: u64,
}

/// The encoding of a metadata record: type, expiry, version and size, with
/// the list ends appended for lists.
pub open spec fn spec_meta_bytes(m: Metadata) -> Seq<u8> {
    let base = seq![spec_redis_type_byte(m.data_type)]
        + spec_u128_to_le_bytes(m.expire)
        + spec_u128_to_le_bytes(m.version)
        + spec_u32_to_le_bytes(m.size);
    if m.data_type == RedisDataType::Lists {
        base + spec_u64_to_le_bytes(m.head) + spec_u64_to_le_bytes(m.tail)
    } else {
        base
    }
}

impl Metadata {
    /// Encodes the metadata.
    pub fn encode(&self) -> (r: Vec<u8>)
        ensures
            r@ == spec_meta_bytes(*self),
    {
        let mut buf: Vec<u8> = Vec::new();
        buf.push(self.data_type.to_u8());
        let expire_bytes = u128_to_le_bytes(self.expire);
        push_bytes(&mut buf, &expire_bytes);
        let version_bytes = u128_to_le_bytes(self.version);
        push_bytes(&mut buf, &version_bytes);
        let size_bytes = u32_to_le_bytes(self.size);
        push_bytes(&mut buf, &size_bytes);
        if matches!(self.data_type, RedisDataType::Lists) {
            let head_bytes = u64_to_le_bytes(self.head);
            push_bytes(&mut buf, &head_bytes);
            let tail_bytes = u64_to_le_bytes(self.tail);
            push_bytes(&mut buf, &tail_bytes);
        }
        proof {
            assert(buf@ =~= spec_meta_bytes(*self));
        }
        buf
    }

    /// Decodes a metadata record; an encoded metadata value decodes back
    /// to itself.
    pub fn decode(buf: &Vec<u8>) -> (r: Result<Metadata, Errors>)
        ensures
            forall|m: Metadata| buf@ == spec_meta_bytes(m)
                && (m.data_type == RedisDataType::Lists || (m.head == 0 && m.tail == 0))
                ==> r == Ok::<Metadata, Errors>(m),
            r matches Ok(m) ==> buf@ == spec_meta_bytes(m),
    {
        proof {
            lemma_auto_spec_u128_to_from_le_bytes();
            lemma_auto_spec_u32_to_from_le_bytes();
            lemma_auto_spec_u64_to_from_le_bytes();
        }
        if buf.len() < 37 {
            proof {
                assert forall|m: Metadata| buf@ != spec_meta_bytes(m) by {
                    assert(spec_meta_bytes(m).len() >= 37);
                }
            }
            return Err(Errors::DecodeError);
        }
        let tb = buf[0];
        if tb > 4 {
            proof {
                assert forall|m: Metadata| buf@ != spec_meta_bytes(m) by {
                    assert(spec_meta_bytes(m)[0] == spec_redis_type_byte(m.data_type));
                }
            }
            return Err(Errors::DecodeError);
        }
        let data_type = RedisDataType::from_u8(tb);
        let expire_bytes = copy_range(buf, 1, 17);
        let expire = u128_from_le_bytes(expire_bytes.as_slice());
        let version_bytes = copy_range(buf, 17, 33);
        let version = u128_from_le_bytes(version_bytes.as_slice());
        let size_bytes = copy_range(buf, 33, 37);
        let size = u32_from_le_bytes(size_bytes.as_slice());
        let mut head: u64 = 0;
        let mut tail: u64 = 0;
        if !matches!(data_type, RedisDataType::Lists) && buf.len() != 37 {
            proof {
                assert forall|m: Metadata| buf@ != spec_meta_bytes(m) by {
                    lemma_meta_bytes_parts(m);
                    if buf@ == spec_meta_bytes(m) {
                        assert(buf@[0] == spec_redis_type_byte(m.data_type));
                    }
                }
            }
            return Err(Errors::DecodeError);
        }
        if matches!(data_type, RedisDataType::Lists) {
            if buf.len() != 53 {
                proof {
                    assert forall|m: Metadata| buf@ != spec_meta_bytes(m) by {
                        lemma_meta_bytes_parts(m);
                        if buf@ == spec_meta_bytes(m) {
                            assert(buf@[0] == spec_redis_type_byte(m.data_type));
                        }
                    }
                }
                return Err(Errors::DecodeError);
            }
            let head_bytes = copy_range(buf, 37, 45);
            head = u64_from_le_bytes(head_bytes.as_slice());
            let tail_bytes = copy_range(buf, 45, 53);
            tail = u64_from_le_bytes(tail_bytes.as_slice());
        }
        let m = Metadata { data_type, expire, version, size, head, tail };
        proof {
            lemma_meta_bytes_parts(m);
            assert(buf@ =~= spec_meta_bytes(m)) by {
                assert(expire_bytes@ =~= buf@.subrange(1, 17));
                assert(spec_u128_to_le_bytes(expire) == buf@.subrange(1, 17));
                assert(version_bytes@ =~= buf@.subrange(17, 33));
                assert(spec_u128_to_le_bytes(version) == buf@.subrange(17, 33));
                assert(size_bytes@ =~= buf@.subrange(33, 37));
                assert(spec_u32_to_le_bytes(size) == buf@.subrange(33, 37));
                if matches!(data_type, RedisDataType::Lists) {
                    assert(spec_u64_to_le_bytes(head) == buf@.subrange(37, 45));
                    assert(spec_u64_to_le_bytes(tail) == buf@.subrange(45, 53));
                }
            }
            assert forall|m2: Metadata| buf@ == spec_meta_bytes(m2)
                && (m2.data_type == RedisDataType::Lists
                    || (m2.head == 0 && m2.tail == 0)) implies m2 == m by {
                lemma_type_byte_injective(m2.data_type, m.data_type);
                lemma_meta_bytes_parts(m2);
                assert(spec_u128_to_le_bytes(m2.expire) == buf@.subrange(1, 17));
                assert(spec_u128_to_le_bytes(m2.version) == buf@.subrange(17, 33));
                assert(spec_u32_to_le_bytes(m2.size) == buf@.subrange(33, 37));
                if m2.data_type == RedisDataType::Lists {
                    assert(spec_u64_to_le_bytes(m2.head) == buf@.subrange(37, 45));
                    assert(spec_u64_to_le_bytes(m2.tail) == buf@.subrange(45, 53));
                }
            }
        }
        Ok(m)
    }
}

/// Equal type bytes mean equal types.
proof fn lemma_type_byte_injective(a: RedisDataType, b: RedisDataType)
    requires
        spec_redis_type_byte(a) == spec_redis_type_byte(b),
    ensures
        a == b,
{
}

/// The pieces of an encoded metadata value sit at fixed offsets.
proof fn lemma_meta_bytes_parts(m: Metadata)
    ensures
        spec_meta_bytes(m).len() == if m.data_type == RedisDataType::Lists { 53int } else { 37 },
        spec_meta_bytes(m)[0] == spec_redis_type_byte(m.data_type),
        spec_meta_bytes(m).subrange(1, 17) == spec_u128_to_le_bytes(m.expire),
        spec_meta_bytes(m).subrange(17, 33) == spec_u128_to_le_bytes(m.version),
        spec_meta_bytes(m).subrange(33, 37) == spec_u32_to_le_bytes(m.size),
        m.data_type == RedisDataType::Lists
            ==> spec_meta_bytes(m).subrange(37, 45) == spec_u64_to_le_bytes(m.head)
                && spec_meta_bytes(m).subrange(45, 53) == spec_u64_to_le_bytes(m.tail),
{
    lemma_auto_spec_u128_to_from_le_bytes();
    lemma_auto_spec_u32_to_from_le_bytes();
    lemma_auto_spec_u64_to_from_le_bytes();
    let s = spec_meta_bytes(m);
    assert(s.subrange(1, 17) =~= spec_u128_to_le_bytes(m.expire));
    assert(s.subrange(17, 33) =~= spec_u128_to_le_bytes(m.version));
    assert(s.subrange(33, 37) =~= spec_u32_to_le_bytes(m.size));
    if m.data_type == RedisDataType::Lists {
        assert(s.subrange(37, 45) =~= spec_u64_to_le_bytes(m.head));
        assert(s.subrange(45, 53) =~= spec_u64_to_le_bytes(m.tail));
    }
}

/// The stored key of one hash field: the hash's key, its version, and the
/// field's bytes.
pub open spec fn spec_hash_key(key: Seq<u8>, version: u128, field: Seq<u8>) -> Seq<u8> {
    key + spec_u128_to_le_bytes(version) + field
}

/// The stored key of one set member: the set's key, its version, the
/// member's bytes, and the member's length.
pub open spec fn spec_set_key(key: Seq<u8>, version: u128, member: Seq<u8>) -> Seq<u8> {
    key + spec_u128_to_le_bytes(version) + member + spec_u32_to_le_bytes(member.len() as u32)
}

/// The stored key of one list slot: the list's key, its version, and the
/// slot index.
pub open spec fn spec_list_key(key: Seq<u8>, version: u128, index: u64) -> Seq<u8> {
    key + spec_u128_to_le_bytes(version) + spec_u64_to_le_bytes(index)
}

/// The characters `String::from_utf8` decodes a byte string to. No
/// contract says what they are; they depend on the bytes alone.
pub uninterp spec fn utf8_chars(b: Seq<u8>) -> Seq<char>;

/// Relies on String::from_utf8: decodes UTF-8 bytes to text, a function of
/// the bytes alone; bytes that are not UTF-8 are refused.
#[verifier::external_body]
fn string_from_utf8(v: Vec<u8>) -> (r: Result<String, Errors>)
    ensures
        r matches Ok(s) ==> s@ == utf8_chars(v@),
{
    match String::from_utf8(v) {
        Ok(s) => Ok(s),
        Err(_) => Err(Errors::FromUtf8Error),
    }
}

/// Relies on std::time::SystemTime::now: nanoseconds since the epoch, from
/// the clock; nothing is promised of the value.
#[verifier::external_body]
fn now_nanos() -> (r: u128)
{
    match std::time::SystemTime::now().duration_since(std::time::UNIX_EPOCH) {
        Ok(d) => d.as_nanos(),
        Err(_) => 0,
    }
}

/// Models a few of the textbook remote-dictionary data types, each as a
/// family of keys in the store: a metadata record under the collection's
/// key, and one record per element under version-stamped internal keys.
pub struct RedisLucasDb<IO: IOManager> {
    pub(crate) eng: Engine<IO>,
}

impl<IO: IOManager> RedisLucasDb<IO> {
    /// The underlying store is intact.
    pub closed spec fn wf(&self) -> bool {
        self.eng.wf()
    }

    /// The raw key/value pairs the underlying store holds.
    pub closed spec fn store(&self) -> Map<Seq<u8>, Seq<u8>> {
        self.eng.view()
    }

    /// Opens the adapter over a fresh store.
    pub fn new(options: EngineOptions) -> (r: Result<Self, Errors>)
        ensures
            r matches Ok(d) ==> d.wf()
                && d.store() == (Map::<Seq<u8>, Seq<u8>>::empty()),
    {
        let engine = Engine::<IO>::open(options)?;
        Ok(RedisLucasDb { eng: engine })
    }


    /// The stored key of one set member.
    fn make_set_key(key: &Vec<u8>, version: u128, member: &Vec<u8>) -> (r: Vec<u8>)
        requires
            key@.len() + member@.len() + 64 <= usize::MAX,
        ensures
            r@ == spec_set_key(key@, version, member@),
    {
        let mut buf = copy_range(key, 0, key.len());
        let vb = u128_to_le_bytes(version);
        push_bytes(&mut buf, &vb);
        push_bytes(&mut buf, member);
        let lb = u32_to_le_bytes(member.len() as u32);
        push_bytes(&mut buf, &lb);
        proof {
            assert(buf@ =~= spec_set_key(key@, version, member@));
        }
        buf
    }

    /// The stored key of one hash field.
    fn make_hash_key(key: &Vec<u8>, version: u128, field: &Vec<u8>) -> (r: Vec<u8>)
        requires
            key@.len() + field@.len() + 64 <= usize::MAX,
        ensures
            r@ == spec_hash_key(key@, version, field@),
    {
        let mut buf = copy_range(key, 0, key.len());
        let vb = u128_to_le_bytes(version);
        push_bytes(&mut buf, &vb);
        push_bytes(&mut buf, field);
        proof {
            assert(buf@ =~= spec_hash_key(key@, version, field@));
        }
        buf
    }

    /// The stored key of one list slot.
    fn make_list_key(key: &Vec<u8>, version: u128, index: u64) -> (r: Vec<u8>)
        requires
            key@.len() + 64 <= usize::MAX,
        ensures
            r@ == spec_list_key(key@, version, index),
    {
        let mut buf = copy_range(key, 0, key.len());
        let vb = u128_to_le_bytes(version);
        push_bytes(&mut buf, &vb);
        let ib = u64_to_le_bytes(index);
        push_bytes(&mut buf, &ib);
        proof {
            assert(buf@ =~= spec_list_key(key@, version, index));
        }
        buf
    }

    /// Adds `member` to the set under `key`; nothing happens when the set
    /// already holds it.
    pub fn sadd(&mut self, key: &str, member: &str) -> (r: Result<bool, Errors>)
        requires
            old(self).wf(),
            key.spec_bytes().len() + member.spec_bytes().len() + 512 <= usize::MAX,
        ensures
            final(self).wf(),
            r matches Ok(false) ==> final(self).store() == old(self).store(),
            r matches Ok(true) ==> exists|m: Metadata| {
                &&& m.data_type == RedisDataType::Sets
                &&& final(self).store() == crate::batch::spec_commit_effect(
                    old(self).store(),
                    Map::empty()
                        .insert(key.spec_bytes(),
                            (crate::log_record::LogRecordType::Normal, spec_meta_bytes(m)))
                        .insert(
                            #[trigger] spec_set_key(key.spec_bytes(), m.version,
                                member.spec_bytes()),
                            (crate::log_record::LogRecordType::Normal, Seq::<u8>::empty())))
            },
    {
        let kb = key.as_bytes_vec();
        let mb = member.as_bytes_vec();
        let meta = match self.find_or_new_metadata(&kb, RedisDataType::Sets) {
            Ok(m) => m,
            Err(e) => { return Err(e); },
        };
        let internal = Self::make_set_key(&kb, meta.version, &mb);
        let internal_probe = copy_range(&internal, 0, internal.len());
        match self.eng.get(internal_probe) {
            Ok(_) => Ok(false),
            Err(Errors::KeyNotFound) => {
                if meta.size == u32::MAX {
                    return Err(Errors::Io);
                }
                let meta2 = Metadata {
                    data_type: meta.data_type,
                    expire: meta.expire,
                    version: meta.version,
                    size: meta.size + 1,
                    head: meta.head,
                    tail: meta.tail,
                };
                let mut wb = match self.eng.new_write_batch(
                    WriteBatchOptions { max_batch_num: 10000, sync_writes: true }) {
                    Ok(b) => b,
                    Err(e) => { return Err(e); },
                };
                proof {
                    lemma_meta_bytes_parts(meta2);
                    lemma_auto_spec_u128_to_from_le_bytes();
                    lemma_auto_spec_u32_to_from_le_bytes();
                    assert(kb@.len() == key.spec_bytes().len());
                    assert(internal@.len()
                        == kb@.len() + 16 + mb@.len() + 4);
                }
                if let Err(e) = wb.put(kb, meta2.encode()) {
                    return Err(e);
                }
                let empty_value: Vec<u8> = Vec::new();
                proof {
                    assert(empty_value@ =~= Seq::<u8>::empty());
                }
                if let Err(e) = wb.put(internal, empty_value) {
                    return Err(e);
                }
                match wb.commit(&mut self.eng) {
                    Ok(_) => {
                        proof {
                            assert(final(self).store() == crate::batch::spec_commit_effect(
                                old(self).store(),
                                Map::empty()
                                    .insert(key.spec_bytes(),
                                        (crate::log_record::LogRecordType::Normal,
                                            spec_meta_bytes(meta2)))
                                    .insert(spec_set_key(key.spec_bytes(), meta2.version,
                                        member.spec_bytes()),
                                        (crate::log_record::LogRecordType::Normal,
                                            Seq::<u8>::empty()))));
                        }
                        Ok(true)
                    },
                    Err(e) => Err(e),
                }
            },
            Err(e) => Err(e),
        }
    }

    /// Whether the set under `key` holds `member`.
    pub fn sismember(&self, key: &str, member: &str) -> (r: Result<bool, Errors>)
        requires
            self.wf(),
            key.spec_bytes().len() + member.spec_bytes().len() + 512 <= usize::MAX,
        ensures
            r matches Ok(b) ==> (b ==> exists|ver: u128| self.store().contains_key(
                #[trigger] spec_set_key(key.spec_bytes(), ver, member.spec_bytes()))),
    {
        let kb = key.as_bytes_vec();
        let mb = member.as_bytes_vec();
        let meta = match self.find_or_new_metadata(&kb, RedisDataType::Sets) {
            Ok(m) => m,
            Err(e) => { return Err(e); },
        };
        if meta.size == 0 {
            return Ok(false);
        }
        let internal = Self::make_set_key(&kb, meta.version, &mb);
        match self.eng.get(internal) {
            Ok(_) => Ok(true),
            Err(Errors::KeyNotFound) => Ok(false),
            Err(e) => Err(e),
        }
    }

    /// Removes `member` from the set under `key`; says whether the set
    /// held it.
    pub fn srem(&mut self, key: &str, member: &str) -> (r: Result<bool, Errors>)
        requires
            old(self).wf(),
            key.spec_bytes().len() + member.spec_bytes().len() + 512 <= usize::MAX,
        ensures
            final(self).wf(),
            r matches Ok(false) ==> final(self).store() == old(self).store(),
            r matches Ok(true) ==> exists|m: Metadata| {
                &&& m.data_type == RedisDataType::Sets
                &&& final(self).store() == crate::batch::spec_commit_effect(
                    old(self).store(),
                    Map::empty()
                        .insert(key.spec_bytes(),
                            (crate::log_record::LogRecordType::Normal, spec_meta_bytes(m)))
                        .insert(
                            #[trigger] spec_set_key(key.spec_bytes(), m.version,
                                member.spec_bytes()),
                            (crate::log_record::LogRecordType::Deleted, Seq::<u8>::empty())))
            },
    {
        let kb = key.as_bytes_vec();
        let mb = member.as_bytes_vec();
        let meta = match self.find_or_new_metadata(&kb, RedisDataType::Sets) {
            Ok(m) => m,
            Err(e) => { return Err(e); },
        };
        if meta.size == 0 {
            return Ok(false);
        }
        let internal = Self::make_set_key(&kb, meta.version, &mb);
        let internal_probe = copy_range(&internal, 0, internal.len());
        match self.eng.get(internal_probe) {
            Ok(_) => {
                let meta2 = Metadata {
                    data_type: meta.data_type,
                    expire: meta.expire,
                    version: meta.version,
                    size: (meta.size - 1) as u32,
                    head: meta.head,
                    tail: meta.tail,
                };
                let mut wb = match self.eng.new_write_batch(
                    WriteBatchOptions { max_batch_num: 10000, sync_writes: true }) {
                    Ok(b) => b,
                    Err(e) => { return Err(e); },
                };
                proof {
                    lemma_meta_bytes_parts(meta2);
                    lemma_auto_spec_u128_to_from_le_bytes();
                    lemma_auto_spec_u32_to_from_le_bytes();
                    assert(kb@.len() == key.spec_bytes().len());
                    assert(internal@.len()
                        == kb@.len() + 16 + mb@.len() + 4);
                }
                if let Err(e) = wb.put(kb, meta2.encode()) {
                    return Err(e);
                }
                if let Err(e) = wb.delete(&self.eng, internal) {
                    return Err(e);
                }
                match wb.commit(&mut self.eng) {
                    Ok(_) => Ok(true),
                    Err(e) => Err(e),
                }
            },
            Err(Errors::KeyNotFound) => Ok(false),
            Err(e) => Err(e),
        }
    }


    /// Stores `value` under `field` in the hash under `key`; says whether
    /// the field was new.
    pub fn hset(&mut self, key: &str, field: &str, value: &str) -> (r: Result<bool, Errors>)
        requires
            old(self).wf(),
            key.spec_bytes().len() + field.spec_bytes().len()
                + value.spec_bytes().len() + 512 <= usize::MAX,
        ensures
            final(self).wf(),
            r == Ok::<bool, Errors>(true) ==> exists|ver: u128, mb: Seq<u8>|
                final(self).store() == crate::batch::spec_commit_effect(
                    old(self).store(),
                    Map::empty()
                        .insert(key.spec_bytes(),
                            (crate::log_record::LogRecordType::Normal, mb))
                        .insert(
                            spec_hash_key(key.spec_bytes(), ver, field.spec_bytes()),
                            (crate::log_record::LogRecordType::Normal,
                                value.spec_bytes()))),
            r == Ok::<bool, Errors>(false) ==> exists|ver: u128|
                final(self).store() == crate::batch::spec_commit_effect(
                    old(self).store(),
                    Map::empty().insert(
                        #[trigger] spec_hash_key(key.spec_bytes(), ver, field.spec_bytes()),
                        (crate::log_record::LogRecordType::Normal, value.spec_bytes()))),
    {
        let kb = key.as_bytes_vec();
        let fb = field.as_bytes_vec();
        let vb = value.as_bytes_vec();
        let meta = match self.find_or_new_metadata(&kb, RedisDataType::Hashes) {
            Ok(m) => m,
            Err(e) => { return Err(e); },
        };
        let internal = Self::make_hash_key(&kb, meta.version, &fb);
        let internal_probe = copy_range(&internal, 0, internal.len());
        let mut exist = true;
        match self.eng.get(internal_probe) {
            Ok(_) => {},
            Err(Errors::KeyNotFound) => { exist = false; },
            Err(e) => { return Err(e); },
        }
        let mut wb = match self.eng.new_write_batch(
            WriteBatchOptions { max_batch_num: 10000, sync_writes: true }) {
            Ok(b) => b,
            Err(e) => { return Err(e); },
        };
        proof {
            lemma_auto_spec_u128_to_from_le_bytes();
            assert(internal@.len() == kb@.len() + 16 + fb@.len());
        }
        let ghost mut mb2: Seq<u8> = Seq::empty();
        let ghost ver = meta.version;
        if !exist {
            if meta.size == u32::MAX {
                return Err(Errors::Io);
            }
            let meta2 = Metadata {
                data_type: meta.data_type,
                expire: meta.expire,
                version: meta.version,
                size: meta.size + 1,
                head: meta.head,
                tail: meta.tail,
            };
            proof {
                lemma_meta_bytes_parts(meta2);
                mb2 = spec_meta_bytes(meta2);
            }
            if let Err(e) = wb.put(kb, meta2.encode()) {
                return Err(e);
            }
        }
        if let Err(e) = wb.put(internal, vb) {
            return Err(e);
        }
        match wb.commit(&mut self.eng) {
            Ok(_) => {
                proof {
                    if !exist {
                        assert(final(self).store() == crate::batch::spec_commit_effect(
                            old(self).store(),
                            Map::empty()
                                .insert(key.spec_bytes(),
                                    (crate::log_record::LogRecordType::Normal, mb2))
                                .insert(spec_hash_key(key.spec_bytes(), ver,
                                    field.spec_bytes()),
                                    (crate::log_record::LogRecordType::Normal,
                                        value.spec_bytes()))));
                    } else {
                        assert(final(self).store() == crate::batch::spec_commit_effect(
                            old(self).store(),
                            Map::empty().insert(
                                spec_hash_key(key.spec_bytes(), ver, field.spec_bytes()),
                                (crate::log_record::LogRecordType::Normal,
                                    value.spec_bytes()))));
                    }
                }
                Ok(!exist)
            },
            Err(e) => Err(e),
        }
    }

    /// The value stored under `field` in the hash under `key`, or nothing
    /// when the hash is empty; a missing field is an error.
    pub fn hget(&self, key: &str, field: &str) -> (r: Result<Option<String>, Errors>)
        requires
            self.wf(),
            key.spec_bytes().len() + field.spec_bytes().len() + 512 <= usize::MAX,
        ensures
            r matches Ok(Some(s)) ==> exists|ver: u128| {
                &&& self.store().contains_key(
                    #[trigger] spec_hash_key(key.spec_bytes(), ver, field.spec_bytes()))
                &&& s@ == utf8_chars(self.store()[
                    spec_hash_key(key.spec_bytes(), ver, field.spec_bytes())])
            },
    {
        let kb = key.as_bytes_vec();
        let fb = field.as_bytes_vec();
        let meta = match self.find_or_new_metadata(&kb, RedisDataType::Hashes) {
            Ok(m) => m,
            Err(e) => { return Err(e); },
        };
        if meta.size == 0 {
            return Ok(None);
        }
        let internal = Self::make_hash_key(&kb, meta.version, &fb);
        let value = match self.eng.get(internal) {
            Ok(v) => v,
            Err(e) => { return Err(e); },
        };
        match string_from_utf8(value) {
            Ok(s) => Ok(Some(s)),
            Err(e) => Err(e),
        }
    }

    /// Removes `field` from the hash under `key`; says whether the hash
    /// held it.
    pub fn hdel(&mut self, key: &str, field: &str) -> (r: Result<bool, Errors>)
        requires
            old(self).wf(),
            key.spec_bytes().len() + field.spec_bytes().len() + 512 <= usize::MAX,
        ensures
            final(self).wf(),
            r matches Ok(false) ==> final(self).store() == old(self).store(),
    {
        let kb = key.as_bytes_vec();
        let fb = field.as_bytes_vec();
        let meta = match self.find_or_new_metadata(&kb, RedisDataType::Hashes) {
            Ok(m) => m,
            Err(e) => { return Err(e); },
        };
        if meta.size == 0 {
            return Ok(false);
        }
        let internal = Self::make_hash_key(&kb, meta.version, &fb);
        let internal_probe = copy_range(&internal, 0, internal.len());
        match self.eng.get(internal_probe) {
            Ok(_) => {
                let meta2 = Metadata {
                    data_type: meta.data_type,
                    expire: meta.expire,
                    version: meta.version,
                    size: (meta.size - 1) as u32,
                    head: meta.head,
                    tail: meta.tail,
                };
                let mut wb = match self.eng.new_write_batch(
                    WriteBatchOptions { max_batch_num: 10000, sync_writes: true }) {
                    Ok(b) => b,
                    Err(e) => { return Err(e); },
                };
                proof {
                    lemma_meta_bytes_parts(meta2);
                    lemma_auto_spec_u128_to_from_le_bytes();
                    assert(internal@.len() == kb@.len() + 16 + fb@.len());
                }
                if let Err(e) = wb.put(kb, meta2.encode()) {
                    return Err(e);
                }
                if let Err(e) = wb.delete(&self.eng, internal) {
                    return Err(e);
                }
                match wb.commit(&mut self.eng) {
                    Ok(_) => Ok(true),
                    Err(e) => Err(e),
                }
            },
            Err(Errors::KeyNotFound) => Ok(false),
            Err(e) => Err(e),
        }
    }

    /// Pushes `element` at the left end of the list under `key` and
    /// returns how many elements the list then holds.
    pub fn lpush(&mut self, key: &str, element: &str) -> (r: Result<u32, Errors>)
        requires
            old(self).wf(),
            key.spec_bytes().len() + element.spec_bytes().len() + 512 <= usize::MAX,
        ensures
            final(self).wf(),
            r matches Ok(n) ==> n >= 1,
    {
        self.inner_push(key, element, true)
    }

    /// Pushes `element` at the right end of the list under `key` and
    /// returns how many elements the list then holds.
    pub fn rpush(&mut self, key: &str, element: &str) -> (r: Result<u32, Errors>)
        requires
            old(self).wf(),
            key.spec_bytes().len() + element.spec_bytes().len() + 512 <= usize::MAX,
        ensures
            final(self).wf(),
            r matches Ok(n) ==> n >= 1,
    {
        self.inner_push(key, element, false)
    }

    /// Pops the element at the left end of the list under `key`, or
    /// nothing when the list is empty.
    pub fn lpop(&mut self, key: &str) -> (r: Result<Option<String>, Errors>)
        requires
            old(self).wf(),
            key.spec_bytes().len() + 512 <= usize::MAX,
        ensures
            final(self).wf(),
            r matches Ok(Some(s)) ==> exists|ver: u128, idx: u64| {
                &&& old(self).store().contains_key(
                    #[trigger] spec_list_key(key.spec_bytes(), ver, idx))
                &&& s@ == utf8_chars(old(self).store()[
                    spec_list_key(key.spec_bytes(), ver, idx)])
            },
    {
        self.inner_pop(key, true)
    }

    /// Pops the element at the right end of the list under `key`, or
    /// nothing when the list is empty.
    pub fn rpop(&mut self, key: &str) -> (r: Result<Option<String>, Errors>)
        requires
            old(self).wf(),
            key.spec_bytes().len() + 512 <= usize::MAX,
        ensures
            final(self).wf(),
            r matches Ok(Some(s)) ==> exists|ver: u128, idx: u64| {
                &&& old(self).store().contains_key(
                    #[trigger] spec_list_key(key.spec_bytes(), ver, idx))
                &&& s@ == utf8_chars(old(self).store()[
                    spec_list_key(key.spec_bytes(), ver, idx)])
            },
    {
        self.inner_pop(key, false)
    }

    /// Pushes one element at an end of the list under `key`: the element
    /// goes in the next free slot on that side and the list's metadata
    /// moves its end outward.
    pub fn inner_push(&mut self, key: &str, element: &str, is_left_push: bool)
        -> (r: Result<u32, Errors>)
        requires
            old(self).wf(),
            key.spec_bytes().len() + element.spec_bytes().len() + 512 <= usize::MAX,
        ensures
            final(self).wf(),
            r matches Ok(n) ==> n >= 1,
    {
        let kb = key.as_bytes_vec();
        let eb = element.as_bytes_vec();
        let meta = match self.find_or_new_metadata(&kb, RedisDataType::Lists) {
            Ok(m) => m,
            Err(e) => { return Err(e); },
        };
        if meta.head == 0 || meta.tail == u64::MAX || meta.size == u32::MAX {
            return Err(Errors::Io);
        }
        let index = if is_left_push { meta.head - 1 } else { meta.tail };
        let meta2 = Metadata {
            data_type: meta.data_type,
            expire: meta.expire,
            version: meta.version,
            size: meta.size + 1,
            head: if is_left_push { meta.head - 1 } else { meta.head },
            tail: if is_left_push { meta.tail } else { meta.tail + 1 },
        };
        let internal = Self::make_list_key(&kb, meta.version, index);
        let mut wb = match self.eng.new_write_batch(
            WriteBatchOptions { max_batch_num: 10000, sync_writes: true }) {
            Ok(b) => b,
            Err(e) => { return Err(e); },
        };
        proof {
            lemma_meta_bytes_parts(meta2);
            lemma_auto_spec_u128_to_from_le_bytes();
            lemma_auto_spec_u64_to_from_le_bytes();
            assert(internal@.len() == kb@.len() + 16 + 8);
        }
        if let Err(e) = wb.put(kb, meta2.encode()) {
            return Err(e);
        }
        if let Err(e) = wb.put(internal, eb) {
            return Err(e);
        }
        match wb.commit(&mut self.eng) {
            Ok(_) => Ok(meta2.size),
            Err(e) => Err(e),
        }
    }

    /// Pops one element from an end of the list under `key`: the slot at
    /// that end is removed and the list's metadata moves its end inward.
    pub fn inner_pop(&mut self, key: &str, is_left_pop: bool)
        -> (r: Result<Option<String>, Errors>)
        requires
            old(self).wf(),
            key.spec_bytes().len() + 512 <= usize::MAX,
        ensures
            final(self).wf(),
            r matches Ok(Some(s)) ==> exists|ver: u128, idx: u64| {
                &&& old(self).store().contains_key(
                    #[trigger] spec_list_key(key.spec_bytes(), ver, idx))
                &&& s@ == utf8_chars(old(self).store()[
                    spec_list_key(key.spec_bytes(), ver, idx)])
            },
    {
        let kb = key.as_bytes_vec();
        let meta = match self.find_or_new_metadata(&kb, RedisDataType::Lists) {
            Ok(m) => m,
            Err(e) => { return Err(e); },
        };
        if meta.size == 0 {
            return Ok(None);
        }
        if meta.head == u64::MAX || meta.tail == 0 {
            return Err(Errors::Io);
        }
        let index = if is_left_pop { meta.head } else { meta.tail - 1 };
        let internal = Self::make_list_key(&kb, meta.version, index);
        let internal_probe = copy_range(&internal, 0, internal.len());
        proof {
            assert(internal_probe@ =~= internal@);
        }
        let element = match self.eng.get(internal_probe) {
            Ok(v) => v,
            Err(e) => { return Err(e); },
        };
        let ghost element_view = element@;
        proof {
            assert(old(self).store().contains_key(
                spec_list_key(key.spec_bytes(), meta.version, index)));
            assert(element_view == old(self).store()[
                spec_list_key(key.spec_bytes(), meta.version, index)]);
        }
        let meta2 = Metadata {
            data_type: meta.data_type,
            expire: meta.expire,
            version: meta.version,
            size: (meta.size - 1) as u32,
            head: if is_left_pop { meta.head + 1 } else { meta.head },
            tail: if is_left_pop { meta.tail } else { meta.tail - 1 },
        };
        let mut wb = match self.eng.new_write_batch(
            WriteBatchOptions { max_batch_num: 10000, sync_writes: true }) {
            Ok(b) => b,
            Err(e) => { return Err(e); },
        };
        proof {
            lemma_meta_bytes_parts(meta2);
            lemma_auto_spec_u128_to_from_le_bytes();
            lemma_auto_spec_u64_to_from_le_bytes();
            assert(internal@.len() == kb@.len() + 16 + 8);
        }
        if let Err(e) = wb.put(kb, meta2.encode()) {
            return Err(e);
        }
        if let Err(e) = wb.delete(&self.eng, internal) {
            return Err(e);
        }
        match wb.commit(&mut self.eng) {
            Ok(_) => {
                match string_from_utf8(element) {
                    Ok(s) => Ok(Some(s)),
                    Err(e) => Err(e),
                }
            },
            Err(e) => Err(e),
        }
    }

    /// The metadata stored for `key`, checked to be of the wanted kind, or
    /// fresh empty metadata when the store has none (or only expired data).
    fn find_or_new_metadata(&self, key: &Vec<u8>, data_type: RedisDataType)
        -> (r: Result<Metadata, Errors>)
        requires
            self.wf(),
        ensures
            r matches Ok(m) ==> {
                &&& m.data_type == data_type
                &&& (self.store().contains_key(key@)
                        && spec_meta_bytes(m) == self.store()[key@])
                    || m.size == 0
            },
            r matches Err(e) ==> e matches Errors::WrongTypeOperation { .. }
                || e == Errors::Io || e == Errors::DecodeError,
    {
        let mut exist = true;
        let mut meta: Option<Metadata> = None;
        let key_copy = copy_range(key, 0, key.len());
        proof {
            assert(key_copy@ =~= key@);
        }
        match self.eng.get(key_copy) {
            Ok(meta_buf) => {
                let m = match Metadata::decode(&meta_buf) {
                    Ok(m) => m,
                    Err(_) => { return Err(Errors::DecodeError); },
                };
                if m.data_type.to_u8() != data_type.to_u8() {
                    return Err(Errors::WrongTypeOperation {
                        expected: data_type.to_u8(),
                        actual: m.data_type.to_u8(),
                    });
                }
                proof {
                    lemma_type_byte_injective(m.data_type, data_type);
                }
                let now = now_nanos();
                if m.expire != 0 && m.expire <= now {
                    exist = false;
                } else {
                    meta = Some(m);
                }
            },
            Err(Errors::KeyNotFound) => {
                exist = false;
            },
            Err(_) => {
                return Err(Errors::Io);
            },
        }
        if !exist || matches!(meta, None) {
            let now = now_nanos();
            let mut m = Metadata {
                data_type,
                expire: 0,
                version: now,
                size: 0,
                head: 0,
                tail: 0,
            };
            if matches!(data_type, RedisDataType::Lists) {
                m.head = INITIAL_LIST_MARK;
                m.tail = INITIAL_LIST_MARK;
            }
            return Ok(m);
        }
        match meta {
            Some(m) => Ok(m),
            None => Err(Errors::Io),
        }
    }
}

} // verus!
