use vstd::prelude::*;
use vstd::bytes::{spec_u32_to_le_bytes, spec_u32_from_le_bytes, u32_to_le_bytes, lemma_auto_spec_u32_to_from_le_bytes};
use crate::errors::Errors;
use crate::varint::{spec_varint, spec_varint_decode, encode_varint, varint_len, lemma_varint_len, lemma_varint_round_trip, lemma_varint_decode_local, lemma_varint_decode_bounds};

verus! {

/// The number of bytes of the checksum that ends every record.
pub const CRC_SIZE: usize = 4;

/// What a persisted record stands for.
#[derive(Debug, PartialEq, Eq, Structural, Clone, Copy)]
pub enum LogRecordType {
    /// A live key/value pair.
    Normal,
    /// A tombstone: the key was deleted.
    Deleted,
    /// The sentinel that commits every record of one transaction.
    TxnFinished,
}

/// The byte that encodes a record type on disk.
pub open spec fn spec_type_byte(t: LogRecordType) -> u8 {
    match t {
        LogRecordType::Normal => 1,
        LogRecordType::Deleted => 2,
        LogRecordType::TxnFinished => 3,
    }
}

impl LogRecordType {
    /// Reads a record type back from its on-disk byte.
    pub fn from_u8(value: u8) -> (r: Self)
        requires
            1 <= value <= 3,
        ensures
            spec_type_byte(r) == value,
    {
        if value == 1 {
            LogRecordType::Normal
        } else if value == 2 {
            LogRecordType::Deleted
        } else {
            LogRecordType::TxnFinished
        }
    }

    /// The on-disk byte of this record type.
    pub fn to_u8(self) -> (r: u8)
        ensures
            r == spec_type_byte(self),
    {
        match self {
            LogRecordType::Normal => 1,
            LogRecordType::Deleted => 2,
            LogRecordType::TxnFinished => 3,
        }
    }
}

/// Where one record lives on disk: the data file, the byte offset of its
/// first byte, and its full encoded size.
#[derive(Debug, PartialEq, Eq, Structural, Clone, Copy)]
pub struct LogRecordPos {
    pub file_id: u32,
    pub offset: u64,
    pub size: usize,
}

/// The unit persisted in data files.
#[derive(Debug)]
pub struct LogRecord {
    pub key: Vec<u8>,
    pub value: Vec<u8>,
    pub rec_type: LogRecordType,
}

/// A record read back from a data file, together with the number of bytes it
/// occupies on disk.
#[derive(Debug)]
pub struct ReadLogRecord {
    pub record: LogRecord,
    pub size: usize,
}

/// The checksum of a byte sequence as the read and write paths compute it.
/// No contract says what the value is; it depends on the bytes alone.
pub uninterp spec fn crc32_of(bytes: Seq<u8>) -> u32;

/// Relies on crc32fast::hash: the CRC32 checksum of a byte slice, a function
/// of the bytes alone.
#[verifier::external_body]
pub fn crc32(data: &Vec<u8>) -> (r: u32)
    ensures
        r == crc32_of(data@),
{
    crc32fast::hash(data.as_slice())
}

/// The header and body of a record: type byte, key length, value length, key
/// bytes, value bytes. The checksum is computed over exactly these bytes.
pub open spec fn spec_record_body(t: LogRecordType, key: Seq<u8>, value: Seq<u8>) -> Seq<u8> {
    seq![spec_type_byte(t)]
        + spec_varint(key.len() as u64)
        + spec_varint(value.len() as u64)
        + key
        + value
}

/// The full on-disk encoding of a record: its body followed by the
/// little-endian checksum of the body.
pub open spec fn spec_record_bytes(t: LogRecordType, key: Seq<u8>, value: Seq<u8>) -> Seq<u8> {
    spec_record_body(t, key, value) + spec_u32_to_le_bytes(crc32_of(spec_record_body(t, key, value)))
}

/// What reading a record at one offset of a file yields.
pub enum RecordParse {
    /// The offset is at or past the end, or at zero-length padding.
    Eof,
    /// The bytes do not form a record (bad length delimiter, bad type byte,
    /// or a body that runs past the end of the file).
    Corrupt,
    /// The record is well-formed but its stored checksum does not match.
    BadCrc,
    /// A record: its type, stored key, value, and total encoded size.
    Valid(LogRecordType, Seq<u8>, Seq<u8>, int),
}

/// Parses the record that starts at `off` in the byte sequence `s`.
pub open spec fn spec_parse_record(s: Seq<u8>, off: int) -> RecordParse {
    if off < 0 || off >= s.len() {
        RecordParse::Eof
    } else {
        let t = s[off];
        match spec_varint_decode(s, off + 1) {
            Option::None => RecordParse::Corrupt,
            Option::Some((klen, a)) => match spec_varint_decode(s, off + 1 + a) {
                Option::None => RecordParse::Corrupt,
                Option::Some((vlen, b)) => {
                    if a > 10 || b > 10 {
                        RecordParse::Corrupt
                    } else if klen == 0 && vlen == 0 {
                        RecordParse::Eof
                    } else if klen > usize::MAX || vlen > usize::MAX {
                        RecordParse::Corrupt
                    } else {
                        let hdr = 1 + a + b;
                        let total = hdr + klen + vlen + 4;
                        if off + total > s.len() {
                            RecordParse::Corrupt
                        } else {
                            let body = s.subrange(off, off + hdr + klen + vlen);
                            let stored = spec_u32_from_le_bytes(
                                s.subrange(off + hdr + klen + vlen, off + total));
                            if stored != crc32_of(body) {
                                RecordParse::BadCrc
                            } else if 1 <= t <= 3 {
                                RecordParse::Valid(
                                    spec_type_of(t),
                                    s.subrange(off + hdr, off + hdr + klen),
                                    s.subrange(off + hdr + klen, off + hdr + klen + vlen),
                                    total,
                                )
                            } else {
                                RecordParse::Corrupt
                            }
                        }
                    }
                },
            },
        }
    }
}

/// The record type a valid on-disk byte stands for.
pub open spec fn spec_type_of(b: u8) -> LogRecordType
    recommends
        1 <= b <= 3,
{
    if b == 1 {
        LogRecordType::Normal
    } else if b == 2 {
        LogRecordType::Deleted
    } else {
        LogRecordType::TxnFinished
    }
}

/// A parsed record lies entirely within the byte sequence, and its size
/// covers at least its header and checksum.
pub proof fn lemma_parse_bounds(s: Seq<u8>, off: int)
    requires
        spec_parse_record(s, off) is Valid,
    ensures
        0 <= off < s.len(),
        off + spec_parse_record(s, off)->Valid_3 <= s.len(),
        spec_parse_record(s, off)->Valid_3 >= 7,
        spec_parse_record(s, off)->Valid_1.len() + spec_parse_record(s, off)->Valid_2.len()
            + 7 <= spec_parse_record(s, off)->Valid_3,
{
    let (klen, a) = spec_varint_decode(s, off + 1)->Some_0;
    let (vlen, b) = spec_varint_decode(s, off + 1 + a)->Some_0;
    lemma_varint_decode_bounds(s, off + 1);
    lemma_varint_decode_bounds(s, off + 1 + a);
}

/// Appending bytes to a file does not change how records already inside it
/// parse: a parse that yielded a record at `off` yields the same record in
/// any sequence that carries the same bytes at `off2`.
pub proof fn lemma_parse_local(s1: Seq<u8>, s2: Seq<u8>, off1: int, off2: int)
    requires
        spec_parse_record(s1, off1) is Valid,
        0 <= off2,
        off2 + spec_parse_record(s1, off1)->Valid_3 <= s2.len(),
        s2.subrange(off2, off2 + spec_parse_record(s1, off1)->Valid_3)
            == s1.subrange(off1, off1 + spec_parse_record(s1, off1)->Valid_3),
    ensures
        spec_parse_record(s2, off2) == spec_parse_record(s1, off1),
{
    lemma_parse_bounds(s1, off1);
    let total = spec_parse_record(s1, off1)->Valid_3;
    let window1 = s1.subrange(off1, off1 + total);
    let window2 = s2.subrange(off2, off2 + total);
    assert forall|j: int| off2 <= j < off2 + total implies #[trigger] s2[j]
        == s1[j - off2 + off1] by {
        assert(window2[j - off2] == window1[j - off2]);
    }
    assert(spec_varint_decode(s1, off1 + 1) is Some);
    let (klen, a) = spec_varint_decode(s1, off1 + 1)->Some_0;
    lemma_varint_decode_bounds(s1, off1 + 1);
    assert(spec_varint_decode(s1, off1 + 1 + a) is Some);
    let (vlen0, b0) = spec_varint_decode(s1, off1 + 1 + a)->Some_0;
    lemma_varint_decode_bounds(s1, off1 + 1 + a);
    assert(total == 1 + a + b0 + klen + vlen0 + 4);
    assert(s2.subrange(off2 + 1, off2 + 1 + a) =~= s1.subrange(off1 + 1, off1 + 1 + a));
    lemma_varint_decode_local(s1, s2, off1 + 1, off2 + 1);
    let (vlen, b) = spec_varint_decode(s1, off1 + 1 + a)->Some_0;
    lemma_varint_decode_bounds(s1, off1 + 1 + a);
    assert(s2.subrange(off2 + 1 + a, off2 + 1 + a + b)
        =~= s1.subrange(off1 + 1 + a, off1 + 1 + a + b));
    lemma_varint_decode_local(s1, s2, off1 + 1 + a, off2 + 1 + a);
    let hdr = 1 + a + b;
    assert(s2[off2] == s1[off1]);
    assert(s2.subrange(off2, off2 + hdr + klen + vlen)
        =~= s1.subrange(off1, off1 + hdr + klen + vlen));
    assert(s2.subrange(off2 + hdr + klen + vlen, off2 + total)
        =~= s1.subrange(off1 + hdr + klen + vlen, off1 + total));
    assert(s2.subrange(off2 + hdr, off2 + hdr + klen)
        =~= s1.subrange(off1 + hdr, off1 + hdr + klen));
    assert(s2.subrange(off2 + hdr + klen, off2 + hdr + klen + vlen)
        =~= s1.subrange(off1 + hdr + klen, off1 + hdr + klen + vlen));
}

/// The encoding of a record, appended to any prefix, parses back to exactly
/// that record.
pub proof fn lemma_record_round_trip(prefix: Seq<u8>, t: LogRecordType, key: Seq<u8>, value: Seq<u8>)
    requires
        1 <= key.len() <= usize::MAX,
        value.len() <= usize::MAX,
    ensures
        spec_parse_record(prefix + spec_record_bytes(t, key, value), prefix.len() as int)
            == RecordParse::Valid(t, key, value, spec_record_bytes(t, key, value).len() as int),
{
    let enc = spec_record_bytes(t, key, value);
    let body = spec_record_body(t, key, value);
    let s = prefix + enc;
    let off = prefix.len() as int;
    let ka = spec_varint(key.len() as u64);
    let va = spec_varint(value.len() as u64);
    let a = ka.len() as int;
    let b = va.len() as int;
    lemma_varint_len(key.len() as u64);
    lemma_varint_len(value.len() as u64);
    lemma_auto_spec_u32_to_from_le_bytes();
    assert(s.len() == off + enc.len());
    assert(enc.len() == body.len() + 4);
    assert(body.len() == 1 + a + b + key.len() + value.len());
    assert forall|i: int| 0 <= i < enc.len() implies s[off + i] == enc[i] by {}
    assert(s[off] == enc[0]);
    assert(enc[0] == spec_type_byte(t));
    assert(s.subrange(off + 1, off + 1 + a) =~= ka);
    lemma_varint_round_trip(s, off + 1, key.len() as u64);
    assert(s.subrange(off + 1 + a, off + 1 + a + b) =~= va);
    lemma_varint_round_trip(s, off + 1 + a, value.len() as u64);
    let hdr = 1 + a + b;
    assert(s.subrange(off, off + body.len() as int) =~= body);
    assert(s.subrange(off + body.len() as int, off + enc.len() as int)
        =~= spec_u32_to_le_bytes(crc32_of(body)));
    assert(spec_u32_from_le_bytes(spec_u32_to_le_bytes(crc32_of(body))) == crc32_of(body));
    assert(s.subrange(off + hdr, off + hdr + key.len() as int) =~= key);
    assert(s.subrange(off + hdr + key.len(), off + hdr + key.len() + value.len()) =~= value);
    assert(1 <= spec_type_byte(t) <= 3);
    assert(spec_type_of(spec_type_byte(t)) == t);
    assert(key.len() as u64 != 0);
}

/// Appends a copy of `src` to `dst`.
pub fn push_bytes(dst: &mut Vec<u8>, src: &Vec<u8>)
    ensures
        final(dst)@ == old(dst)@ + src@,
{
    let ghost start = dst@;
    let mut i: usize = 0;
    while i < src.len()
        invariant
            i <= src.len(),
            dst@ == start + src@.subrange(0, i as int),
        decreases src.len() - i,
    {
        dst.push(src[i]);
        assert(start + src@.subrange(0, i as int) + seq![src@[i as int]]
            =~= start + src@.subrange(0, i + 1));
        i = i + 1;
    }
    assert(src@.subrange(0, src@.len() as int) =~= src@);
}

/// Copies `src[start..end]` into a fresh vector.
pub fn copy_range(src: &Vec<u8>, start: usize, end: usize) -> (r: Vec<u8>)
    requires
        start <= end <= src.len(),
    ensures
        r@ == src@.subrange(start as int, end as int),
{
    let mut out: Vec<u8> = Vec::new();
    let mut i: usize = start;
    while i < end
        invariant
            start <= i <= end <= src.len(),
            out@ == src@.subrange(start as int, i as int),
        decreases end - i,
    {
        out.push(src[i]);
        assert(src@.subrange(start as int, i as int) + seq![src@[i as int]]
            =~= src@.subrange(start as int, i + 1));
        i = i + 1;
    }
    out
}

impl LogRecord {
    /// The number of bytes this record occupies once encoded.
    pub open spec fn spec_encoded_len(&self) -> int {
        spec_record_bytes(self.rec_type, self.key@, self.value@).len() as int
    }

    /// Encodes the record: type byte, two length delimiters, key, value, and
    /// the checksum of everything before it.
    pub fn encode(&self) -> (r: Result<Vec<u8>, Errors>)
        requires
            self.key@.len() + self.value@.len() + 32 <= usize::MAX,
        ensures
            r is Ok,
            r matches Ok(b) ==> b@ == spec_record_bytes(self.rec_type, self.key@, self.value@),
    {
        let (buf, _) = self.encode_and_get_crc();
        Ok(buf)
    }

    /// The checksum stored at the end of this record's encoding.
    pub fn get_crc(&self) -> (r: u32)
        requires
            self.key@.len() + self.value@.len() + 32 <= usize::MAX,
        ensures
            r == crc32_of(spec_record_body(self.rec_type, self.key@, self.value@)),
    {
        let (_, crc) = self.encode_and_get_crc();
        crc
    }

    /// Encodes the record and also returns the checksum of its body.
    fn encode_and_get_crc(&self) -> (r: (Vec<u8>, u32))
        requires
            self.key@.len() + self.value@.len() + 32 <= usize::MAX,
        ensures
            r.0@ == spec_record_bytes(self.rec_type, self.key@, self.value@),
            r.1 == crc32_of(spec_record_body(self.rec_type, self.key@, self.value@)),
    {
        proof {
            lemma_varint_len(self.key@.len() as u64);
            lemma_varint_len(self.value@.len() as u64);
        }
        let mut buf: Vec<u8> = Vec::new();
        buf.push(self.rec_type.to_u8());
        assert(buf@ =~= seq![spec_type_byte(self.rec_type)]);
        encode_varint(self.key.len() as u64, &mut buf);
        encode_varint(self.value.len() as u64, &mut buf);
        push_bytes(&mut buf, &self.key);
        push_bytes(&mut buf, &self.value);
        assert(buf@ =~= spec_record_body(self.rec_type, self.key@, self.value@));
        let crc = crc32(&buf);
        let mut crc_bytes = u32_to_le_bytes(crc);
        push_bytes(&mut buf, &crc_bytes);
        assert(buf@ =~= spec_record_bytes(self.rec_type, self.key@, self.value@));
        (buf, crc)
    }

    /// The encoded length of this record.
    pub fn encoded_length(&self) -> (r: usize)
        requires
            self.key@.len() + self.value@.len() + 32 <= usize::MAX,
        ensures
            r == self.spec_encoded_len(),
    {
        proof {
            lemma_varint_len(self.key@.len() as u64);
            lemma_varint_len(self.value@.len() as u64);
            lemma_auto_spec_u32_to_from_le_bytes();
        }
        1 + varint_len(self.key.len() as u64) + varint_len(self.value.len() as u64)
            + self.key.len() + self.value.len() + CRC_SIZE
    }
}

/// The bytes of an encoded record position: three length delimiters.
pub open spec fn spec_pos_bytes(p: LogRecordPos) -> Seq<u8> {
    spec_varint(p.file_id as u64) + spec_varint(p.offset) + spec_varint(p.size as u64)
}

/// Decoding a position from bytes: three delimiters whose values fit the
/// position's fields; trailing bytes are ignored, as the encoder never
/// leaves any.
pub open spec fn spec_pos_decode(s: Seq<u8>) -> Option<LogRecordPos> {
    match spec_varint_decode(s, 0) {
        Option::None => None,
        Option::Some((fid, a)) => {
            if fid > u32::MAX {
                None
            } else {
                match spec_varint_decode(s, a) {
                    Option::None => None,
                    Option::Some((off, b)) => match spec_varint_decode(s, a + b) {
                        Option::None => None,
                        Option::Some((sz, _c)) => {
                            if sz > usize::MAX {
                                None
                            } else {
                                Some(LogRecordPos {
                                    file_id: fid as u32,
                                    offset: off,
                                    size: sz as usize,
                                })
                            }
                        },
                    },
                }
            }
        },
    }
}

impl LogRecordPos {
    /// Encodes the position as three length delimiters, for the hint file.
    pub fn encode(&self) -> (r: Result<Vec<u8>, Errors>)
        ensures
            r is Ok,
            r matches Ok(b) ==> b@ == spec_pos_bytes(*self),
    {
        let mut buf: Vec<u8> = Vec::new();
        encode_varint(self.file_id as u64, &mut buf);
        encode_varint(self.offset, &mut buf);
        encode_varint(self.size as u64, &mut buf);
        Ok(buf)
    }

    /// Decodes a position from the value bytes of a hint record. Trailing
    /// bytes after the three delimiters are ignored, as the encoder never
    /// leaves any.
    pub fn decode(pos: Vec<u8>) -> (r: Result<LogRecordPos, Errors>)
        ensures
            forall|p: LogRecordPos| pos@ == spec_pos_bytes(p)
                ==> r == Ok::<LogRecordPos, Errors>(p),
            r matches Ok(p) ==> spec_pos_decode(pos@) == Some(p),
            r is Err ==> spec_pos_decode(pos@) is None,
    {
        let n = pos.len();
        let (fid, a) = match crate::varint::decode_varint(&pos, 0) {
            Ok(v) => v,
            Err(e) => {
                proof {
                    assert forall|p: LogRecordPos| pos@ == spec_pos_bytes(p)
                        implies false by { lemma_pos_round_trip(pos@, p); }
                }
                return Err(e);
            },
        };
        if fid > u32::MAX as u64 {
            proof {
                assert forall|p: LogRecordPos| pos@ == spec_pos_bytes(p)
                    implies false by { lemma_pos_round_trip(pos@, p); }
            }
            return Err(Errors::DecodeError);
        }
        proof { lemma_varint_decode_bounds(pos@, 0); }
        let (off, b) = match crate::varint::decode_varint(&pos, a) {
            Ok(v) => v,
            Err(e) => {
                proof {
                    assert forall|p: LogRecordPos| pos@ == spec_pos_bytes(p)
                        implies false by { lemma_pos_round_trip(pos@, p); }
                }
                return Err(e);
            },
        };
        proof { lemma_varint_decode_bounds(pos@, a as int); }
        let (sz, _c) = match crate::varint::decode_varint(&pos, a + b) {
            Ok(v) => v,
            Err(e) => {
                proof {
                    assert forall|p: LogRecordPos| pos@ == spec_pos_bytes(p)
                        implies false by { lemma_pos_round_trip(pos@, p); }
                }
                return Err(e);
            },
        };
        if sz > usize::MAX as u64 {
            proof {
                assert forall|p: LogRecordPos| pos@ == spec_pos_bytes(p)
                    implies false by { lemma_pos_round_trip(pos@, p); }
            }
            return Err(Errors::DecodeError);
        }
        let r = LogRecordPos { file_id: fid as u32, offset: off, size: sz as usize };
        proof {
            assert forall|p: LogRecordPos| pos@ == spec_pos_bytes(p) implies p == r by {
                lemma_pos_round_trip(pos@, p);
            }
        }
        Ok(r)
    }
}

/// An encoded position decodes back to itself.
proof fn lemma_pos_round_trip(s: Seq<u8>, p: LogRecordPos)
    requires
        s == spec_pos_bytes(p),
    ensures
        spec_varint_decode(s, 0)
            == Some((p.file_id as u64, spec_varint(p.file_id as u64).len() as int)),
        spec_varint_decode(s, spec_varint(p.file_id as u64).len() as int)
            == Some((p.offset, spec_varint(p.offset).len() as int)),
        spec_varint_decode(s,
            spec_varint(p.file_id as u64).len() + spec_varint(p.offset).len() as int)
            == Some((p.size as u64, spec_varint(p.size as u64).len() as int)),
{
    let e1 = spec_varint(p.file_id as u64);
    let e2 = spec_varint(p.offset);
    let e3 = spec_varint(p.size as u64);
    assert(s.subrange(0, e1.len() as int) =~= e1);
    lemma_varint_round_trip(s, 0, p.file_id as u64);
    assert(s.subrange(e1.len() as int, (e1.len() + e2.len()) as int) =~= e2);
    lemma_varint_round_trip(s, e1.len() as int, p.offset);
    assert(s.subrange((e1.len() + e2.len()) as int, (e1.len() + e2.len() + e3.len()) as int) =~= e3);
    lemma_varint_round_trip(s, (e1.len() + e2.len()) as int, p.size as u64);
}

/// The largest number of bytes a record header (type byte plus the two
/// length delimiters of 32-bit lengths) can occupy.
pub fn max_log_record_header_size() -> (r: usize)
    ensures
        r == 11,
{
    proof {
        assert(spec_varint(u32::MAX as u64).len() == 5) by {
            reveal_with_fuel(spec_varint, 6);
        }
    }
    1 + varint_len(u32::MAX as u64) * 2
}

} // verus!
