use vstd::prelude::*;
use vstd::bytes::u32_from_le_bytes;
use crate::errors::Errors;
use crate::fio::IOManager;
use crate::log_record::{
    LogRecord, LogRecordPos, LogRecordType, ReadLogRecord, RecordParse,
    spec_parse_record, spec_pos_bytes, spec_record_bytes, copy_range, push_bytes, crc32,
};
use crate::varint::{
    spec_varint_decode, decode_varint, lemma_varint_decode_bounds, lemma_varint_decode_local,
    lemma_varint_decode_shift,
};

verus! {

/// The suffix of every data file's name.
pub const DATA_FILE_NAME_SUFFIX: &'static str = ".data";

/// The name of the hint file a merge leaves behind.
pub const HINT_FILE_NAME: &'static str = "hint-index";

/// The name of the marker that a merge completed.
pub const MERGE_FINISHED_FILE_NAME: &'static str = "merge-finished";

/// The name of the file that records the sequence counter on a clean close.
pub const SEQ_NO_FILE_NAME: &'static str = "__seq_no_file__";

/// The character of one decimal digit.
pub open spec fn spec_digit(d: int) -> char
    recommends
        0 <= d <= 9,
{
    if d == 0 { '0' }
    else if d == 1 { '1' }
    else if d == 2 { '2' }
    else if d == 3 { '3' }
    else if d == 4 { '4' }
    else if d == 5 { '5' }
    else if d == 6 { '6' }
    else if d == 7 { '7' }
    else if d == 8 { '8' }
    else { '9' }
}

/// The last `k` decimal digits of `n`, left-padded with zeros.
pub open spec fn spec_dec_digits(n: int, k: nat) -> Seq<char>
    decreases k,
{
    if k == 0 {
        Seq::empty()
    } else {
        spec_dec_digits(n / 10, (k - 1) as nat) + seq![spec_digit(n % 10)]
    }
}

/// The name of the data file with the given id: nine zero-padded decimal
/// digits followed by the data suffix.
pub open spec fn spec_data_file_name(file_id: int) -> Seq<char> {
    spec_dec_digits(file_id, 9) + DATA_FILE_NAME_SUFFIX@
}

/// One decimal digit as text.
fn digit_str(d: u64) -> (r: &'static str)
    requires
        d <= 9,
    ensures
        r@ == seq![spec_digit(d as int)],
{
    proof {
        reveal_strlit("0"); reveal_strlit("1"); reveal_strlit("2"); reveal_strlit("3");
        reveal_strlit("4"); reveal_strlit("5"); reveal_strlit("6"); reveal_strlit("7");
        reveal_strlit("8"); reveal_strlit("9");
    }
    if d == 0 { "0" }
    else if d == 1 { "1" }
    else if d == 2 { "2" }
    else if d == 3 { "3" }
    else if d == 4 { "4" }
    else if d == 5 { "5" }
    else if d == 6 { "6" }
    else if d == 7 { "7" }
    else if d == 8 { "8" }
    else { "9" }
}

/// Appends the last `k` decimal digits of `n`, zero-padded, to `s`.
fn push_dec_digits(s: &mut String, n: u64, k: usize)
    ensures
        final(s)@ == old(s)@ + spec_dec_digits(n as int, k as nat),
    decreases k,
{
    if k == 0 {
        assert(final(s)@ =~= old(s)@ + spec_dec_digits(n as int, 0));
    } else {
        push_dec_digits(s, n / 10, k - 1);
        s.append(digit_str(n % 10));
        assert(final(s)@ =~= old(s)@ + spec_dec_digits(n as int, k as nat));
    }
}

/// The file name of the data file with this id.
pub fn get_data_file_name(file_id: u32) -> (r: String)
    ensures
        r@ == spec_data_file_name(file_id as int),
{
    let mut s = String::new();
    push_dec_digits(&mut s, file_id as u64, 9);
    s.append(DATA_FILE_NAME_SUFFIX);
    proof {
        assert(s@ =~= spec_data_file_name(file_id as int));
    }
    s
}

/// The ASCII byte of one decimal digit.
pub open spec fn spec_dec_byte(d: int) -> u8
    recommends
        0 <= d <= 9,
{
    (48 + d) as u8
}

/// The last `k` decimal digits of `n` as ASCII bytes, zero-padded.
pub open spec fn spec_dec_bytes(n: int, k: nat) -> Seq<u8>
    decreases k,
{
    if k == 0 {
        Seq::empty()
    } else {
        spec_dec_bytes(n / 10, (k - 1) as nat) + seq![spec_dec_byte(n % 10)]
    }
}

/// The number a string of ASCII digits denotes.
pub open spec fn spec_dec_value(s: Seq<u8>) -> int
    decreases s.len(),
{
    if s.len() == 0 {
        0
    } else {
        spec_dec_value(s.drop_last()) * 10 + (s.last() - 48)
    }
}

/// Every byte is an ASCII digit.
pub open spec fn spec_all_digits(s: Seq<u8>) -> bool {
    forall|i: int| 0 <= i < s.len() ==> 48 <= #[trigger] s[i] <= 57
}

/// Ten raised to the power k.
pub open spec fn pow10(k: nat) -> int
    decreases k,
{
    if k == 0 { 1 } else { 10 * pow10((k - 1) as nat) }
}

/// Padded digits denote the number they were made from, as long as it fits.
pub proof fn lemma_dec_bytes_value(n: u64, k: nat)
    requires
        n < pow10(k),
    ensures
        spec_dec_value(spec_dec_bytes(n as int, k)) == n,
        spec_all_digits(spec_dec_bytes(n as int, k)),
        spec_dec_bytes(n as int, k).len() == k,
    decreases k,
{
    if k > 0 {
        if n >= 10 {
            assert(pow10(k) == 10 * pow10((k - 1) as nat));
            assert(n / 10 < pow10((k - 1) as nat)) by (nonlinear_arith)
                requires n < 10 * pow10((k - 1) as nat), pow10((k - 1) as nat) >= 0, n >= 10;
            lemma_dec_bytes_value(n / 10, (k - 1) as nat);
        } else {
            lemma_pow10_pos((k - 1) as nat);
            lemma_dec_bytes_value(n / 10, (k - 1) as nat);
        }
        let s = spec_dec_bytes(n as int, k);
        assert(s.drop_last() =~= spec_dec_bytes(n as int / 10, (k - 1) as nat));
        assert(s.last() == spec_dec_byte(n as int % 10));
        assert(spec_dec_value(s) == (n as int / 10) * 10 + n as int % 10);
    }
}

/// Padded digits have exactly the asked-for width.
pub proof fn lemma_dec_bytes_len(n: int, k: nat)
    ensures
        spec_dec_bytes(n, k).len() == k,
    decreases k,
{
    if k > 0 {
        lemma_dec_bytes_len(n / 10, (k - 1) as nat);
    }
}

/// Powers of ten are positive.
pub proof fn lemma_pow10_pos(k: nat)
    ensures
        pow10(k) >= 1,
    decreases k,
{
    if k > 0 {
        lemma_pow10_pos((k - 1) as nat);
    }
}

/// A digit string's value only grows as digits are appended.
pub proof fn lemma_dec_value_prefix_le(s: Seq<u8>, j: int)
    requires
        0 <= j <= s.len(),
        spec_all_digits(s),
    ensures
        spec_dec_value(s.subrange(0, j)) <= spec_dec_value(s),
        spec_dec_value(s) >= 0,
    decreases s.len(),
{
    if s.len() == 0 {
        assert(s.subrange(0, j) =~= s);
    } else {
        assert(spec_all_digits(s.drop_last())) by {
            assert(forall|i: int| 0 <= i < s.len() - 1 ==> #[trigger] s.drop_last()[i] == s[i]);
        }
        lemma_dec_value_prefix_le(s.drop_last(), if j < s.len() { j } else { j - 1 });
        if j < s.len() {
            assert(s.subrange(0, j) =~= s.drop_last().subrange(0, j));
            assert(spec_dec_value(s) == spec_dec_value(s.drop_last()) * 10 + (s.last() - 48));
            assert(spec_dec_value(s.drop_last()) * 10 >= spec_dec_value(s.drop_last()))
                by (nonlinear_arith)
                requires spec_dec_value(s.drop_last()) >= 0;
        } else {
            assert(s.subrange(0, j) =~= s);
            assert(spec_dec_value(s.drop_last()) * 10 >= spec_dec_value(s.drop_last()))
                by (nonlinear_arith)
                requires spec_dec_value(s.drop_last()) >= 0;
        }
    }
}

/// Appends the last `k` decimal digits of `n`, zero-padded, as ASCII bytes.
pub fn push_dec_bytes(v: &mut Vec<u8>, n: u64, k: usize)
    ensures
        final(v)@ == old(v)@ + spec_dec_bytes(n as int, k as nat),
    decreases k,
{
    if k == 0 {
        assert(final(v)@ =~= old(v)@ + spec_dec_bytes(n as int, 0));
    } else {
        push_dec_bytes(v, n / 10, k - 1);
        v.push((48 + (n % 10)) as u8);
        assert(final(v)@ =~= old(v)@ + spec_dec_bytes(n as int, k as nat));
    }
}

/// Reads a number from a string of ASCII digits.
pub fn parse_dec_u64(s: &Vec<u8>) -> (r: Result<u64, Errors>)
    ensures
        r matches Ok(m) ==> s@.len() >= 1 && spec_all_digits(s@) && m == spec_dec_value(s@),
        (s@.len() >= 1 && spec_all_digits(s@) && spec_dec_value(s@) <= u64::MAX) ==> r is Ok,
{
    if s.len() == 0 {
        return Err(Errors::ParseIntError);
    }
    let mut acc: u64 = 0;
    let mut i: usize = 0;
    let n = s.len();
    while i < n
        invariant
            i <= n == s@.len(),
            acc == spec_dec_value(s@.subrange(0, i as int)),
            forall|j: int| 0 <= j < i ==> 48 <= #[trigger] s@[j] <= 57,
        decreases n - i,
    {
        let b = s[i];
        if b < 48 || b > 57 {
            return Err(Errors::ParseIntError);
        }
        let d = (b - 48) as u64;
        if acc > (u64::MAX - d) / 10 {
            proof {
                assert(s@.subrange(0, i + 1).drop_last() =~= s@.subrange(0, i as int));
                assert(s@.subrange(0, i + 1).last() == s@[i as int]);
                assert(spec_dec_value(s@.subrange(0, i + 1)) == acc * 10 + d);
                assert(acc * 10 + d > u64::MAX) by (nonlinear_arith)
                    requires acc > (u64::MAX - d) / 10, d <= 9;
                if spec_all_digits(s@) {
                    lemma_dec_value_prefix_le(s@, i + 1);
                }
            }
            return Err(Errors::ParseIntError);
        }
        proof {
            assert(acc * 10 + d <= u64::MAX) by (nonlinear_arith)
                requires acc <= (u64::MAX - d) / 10, d <= 9;
            assert(s@.subrange(0, i + 1).drop_last() =~= s@.subrange(0, i as int));
            assert(s@.subrange(0, i + 1).last() == s@[i as int]);
        }
        acc = acc * 10 + d;
        i = i + 1;
    }
    proof {
        assert(s@.subrange(0, n as int) =~= s@);
    }
    Ok(acc)
}

/// One log segment: an append-only file, its id, and the offset at which the
/// next record will be written.
pub struct DataFile<IO: IOManager> {
    file_id: u32,
    write_off: u64,
    io: IO,
}

impl<IO: IOManager> DataFile<IO> {
    /// The bytes the file holds.
    pub closed spec fn contents(&self) -> Seq<u8> {
        self.io.contents()
    }

    /// The file's id.
    pub closed spec fn spec_file_id(&self) -> u32 {
        self.file_id
    }

    /// The offset the file tracks for its next append.
    pub closed spec fn spec_write_off(&self) -> u64 {
        self.write_off
    }

    /// The write offset tracks the end of the file, and the file fits in
    /// memory-addressable bounds.
    pub closed spec fn wf(&self) -> bool {
        &&& self.write_off == self.contents().len()
        &&& self.contents().len() <= usize::MAX
    }

    /// A well-formed file fits in addressable memory and its write offset
    /// sits at its end.
    pub proof fn lemma_wf_bounds(&self)
        requires
            self.wf(),
        ensures
            self.contents().len() <= usize::MAX,
            self.spec_write_off() == self.contents().len(),
    {
    }

    /// Opens a fresh, empty data file with the given id inside `dir_path`.
    pub fn new(dir_path: &str, file_id: u32) -> (r: Result<Self, Errors>)
        ensures
            r matches Ok(f) ==> {
                &&& f.wf()
                &&& f.spec_file_id() == file_id
                &&& f.contents() == Seq::<u8>::empty()
            },
            r matches Err(e) ==> e == Errors::Io,
    {
        let name = get_data_file_name(file_id);
        let io = match IO::create(dir_path, name.as_str()) {
            Ok(io) => io,
            Err(_) => { return Err(Errors::Io); },
        };
        Ok(DataFile { file_id, write_off: 0, io })
    }

    /// Opens the hint file of a directory, fresh and empty.
    pub fn new_hint_file(dir_path: &str) -> (r: Result<Self, Errors>)
        ensures
            r matches Ok(f) ==> f.wf() && f.spec_file_id() == 0
                && f.contents() == Seq::<u8>::empty(),
            r matches Err(e) ==> e == Errors::Io,
    {
        let io = match IO::create(dir_path, HINT_FILE_NAME) {
            Ok(io) => io,
            Err(_) => { return Err(Errors::Io); },
        };
        Ok(DataFile { file_id: 0, write_off: 0, io })
    }

    /// Opens the merge-finished marker file of a directory, fresh and empty.
    pub fn new_merge_fin_file(dir_path: &str) -> (r: Result<Self, Errors>)
        ensures
            r matches Ok(f) ==> f.wf() && f.spec_file_id() == 0
                && f.contents() == Seq::<u8>::empty(),
            r matches Err(e) ==> e == Errors::Io,
    {
        let io = match IO::create(dir_path, MERGE_FINISHED_FILE_NAME) {
            Ok(io) => io,
            Err(_) => { return Err(Errors::Io); },
        };
        Ok(DataFile { file_id: 0, write_off: 0, io })
    }

    /// Opens the sequence-number file of a directory, fresh and empty.
    pub fn new_seq_no_file(dir_path: &str) -> (r: Result<Self, Errors>)
        ensures
            r matches Ok(f) ==> f.wf() && f.spec_file_id() == 0
                && f.contents() == Seq::<u8>::empty(),
            r matches Err(e) ==> e == Errors::Io,
    {
        let io = match IO::create(dir_path, SEQ_NO_FILE_NAME) {
            Ok(io) => io,
            Err(_) => { return Err(Errors::Io); },
        };
        Ok(DataFile { file_id: 0, write_off: 0, io })
    }

    /// Wraps a file handle that already holds bytes, as found on disk.
    pub fn from_io(file_id: u32, io: IO) -> (r: Result<Self, Errors>)
        ensures
            r matches Ok(f) ==> {
                &&& f.wf()
                &&& f.spec_file_id() == file_id
                &&& f.contents() == io.contents()
            },
            r matches Err(e) ==> e == Errors::Io || e == Errors::DataFileLoadError,
    {
        let size = match io.size() {
            Ok(n) => n,
            Err(_) => { return Err(Errors::Io); },
        };
        if size > usize::MAX as u64 {
            return Err(Errors::DataFileLoadError);
        }
        Ok(DataFile { file_id, write_off: size, io })
    }

    /// Gives up the file: its id and the handle that holds its bytes.
    pub fn into_parts(self) -> (r: (u32, IO))
        ensures
            r.0 == self.spec_file_id(),
            r.1.contents() == self.contents(),
    {
        (self.file_id, self.io)
    }

    /// The offset at which the next record will be appended.
    pub fn get_write_off(&self) -> (r: u64)
        ensures
            r == self.spec_write_off(),
            self.wf() ==> r == self.contents().len(),
    {
        self.write_off
    }

    /// The file's id.
    pub fn get_file_id(&self) -> (r: u32)
        ensures
            r == self.spec_file_id(),
    {
        self.file_id
    }

    /// Flushes the file durably.
    pub fn sync(&self) -> (r: Result<(), Errors>)
    {
        self.io.sync()
    }

    /// Appends the buffer to the file.
    pub fn write(&mut self, buf: &Vec<u8>) -> (r: Result<usize, Errors>)
        requires
            old(self).wf(),
        ensures
            final(self).wf(),
            final(self).spec_file_id() == old(self).spec_file_id(),
            r matches Ok(n) ==> {
                &&& n == buf.len()
                &&& final(self).contents() == old(self).contents() + buf@
            },
            r matches Err(e) ==> final(self).contents() == old(self).contents()
                && e == Errors::Io,
    {
        let n = match self.io.write(buf) {
            Ok(n) => n,
            Err(_) => { return Err(Errors::Io); },
        };
        self.write_off = self.write_off + n as u64;
        Ok(n)
    }

    /// Writes a hint entry: a record whose key is the real key and whose
    /// value is the encoded position of that key's record.
    pub fn write_hint_record(&mut self, key: Vec<u8>, pos: LogRecordPos) -> (r: Result<(), Errors>)
        requires
            old(self).wf(),
            key@.len() + 64 <= usize::MAX,
        ensures
            final(self).wf(),
            final(self).spec_file_id() == old(self).spec_file_id(),
            r matches Ok(_) ==> final(self).contents() == old(self).contents()
                + spec_record_bytes(LogRecordType::Normal, key@, spec_pos_bytes(pos)),
            r matches Err(e) ==> final(self).contents() == old(self).contents()
                && e == Errors::Io,
    {
        let value = match pos.encode() {
            Ok(v) => v,
            Err(_) => { return Err(Errors::Io); },
        };
        proof {
            crate::varint::lemma_varint_len(pos.file_id as u64);
            crate::varint::lemma_varint_len(pos.offset);
            crate::varint::lemma_varint_len(pos.size as u64);
        }
        let hint_record = LogRecord { key, value, rec_type: LogRecordType::Normal };
        let encoded = match hint_record.encode() {
            Ok(v) => v,
            Err(_) => { return Err(Errors::Io); },
        };
        match self.write(&encoded) {
            Ok(_) => Ok(()),
            Err(e) => Err(e),
        }
    }

    /// Reads and decodes the two length delimiters of the record that
    /// starts at `offset`, which must lie inside the file.
    #[verifier::spinoff_prover]
    #[verifier::rlimit(60)]
    fn read_header(&self, offset: u64) -> (r: Result<(u64, usize, u64, usize), Errors>)
        requires
            self.wf(),
            offset < self.contents().len(),
        ensures
            ({
                let c = self.contents();
                let coff = offset as int;
                match r {
                    Ok((klen, a, vlen, b)) => {
                        &&& spec_varint_decode(c, coff + 1) == Some((klen, a as int))
                        &&& spec_varint_decode(c, coff + 1 + a) == Some((vlen, b as int))
                        &&& a <= 10
                        &&& b <= 10
                    },
                    Err(Errors::DecodeError) => spec_parse_record(c, coff) is Corrupt,
                    Err(Errors::Io) => true,
                    Err(_) => false,
                }
            }),
    {
        let ghost c = self.contents();
        let ghost coff = offset as int;
        let size = self.write_off;
        let avail = size - offset;
        let chunk_len: usize = if avail >= 21 { 21 } else { avail as usize };
        let chunk = match self.io.read_at(offset, chunk_len) {
            Ok(v) => v,
            Err(_) => { return Err(Errors::Io); },
        };
        proof {
            if avail < 21 {
                assert(chunk@ =~= c.subrange(coff, c.len() as int));
            }
        }

        // Key length delimiter.
        let kdec = decode_varint(&chunk, 1);
        proof {
            if avail < 21 {
                lemma_varint_decode_shift(c, coff, coff + 1);
            } else {
                match kdec {
                    Ok((v, k)) => {
                        lemma_varint_decode_bounds(chunk@, 1);
                        assert(c.subrange(coff + 1, coff + 1 + k)
                            =~= chunk@.subrange(1, 1 + k as int));
                        lemma_varint_decode_local(chunk@, c, 1, coff + 1);
                    },
                    Err(_) => {
                        if spec_varint_decode(c, coff + 1) is Some {
                            let (v, k) = spec_varint_decode(c, coff + 1)->Some_0;
                            if k <= 10 {
                                lemma_varint_decode_bounds(c, coff + 1);
                                assert(chunk@.subrange(1, 1 + k)
                                    =~= c.subrange(coff + 1, coff + 1 + k));
                                lemma_varint_decode_local(c, chunk@, coff + 1, 1);
                            }
                        }
                    },
                }
            }
        }
        let (klen, a) = match kdec {
            Ok(v) => v,
            Err(_) => { return Err(Errors::DecodeError); },
        };
        if a > 10 {
            return Err(Errors::DecodeError);
        }
        proof { lemma_varint_decode_bounds(c, coff + 1); }

        // Value length delimiter.
        let vdec = decode_varint(&chunk, 1 + a);
        proof {
            if avail < 21 {
                lemma_varint_decode_shift(c, coff, coff + 1 + a);
            } else {
                match vdec {
                    Ok((v, k)) => {
                        lemma_varint_decode_bounds(chunk@, 1 + a as int);
                        assert(c.subrange(coff + 1 + a, coff + 1 + a + k)
                            =~= chunk@.subrange(1 + a as int, 1 + a + k as int));
                        lemma_varint_decode_local(chunk@, c, 1 + a as int, coff + 1 + a);
                    },
                    Err(_) => {
                        if spec_varint_decode(c, coff + 1 + a) is Some {
                            let (v, k) = spec_varint_decode(c, coff + 1 + a)->Some_0;
                            if k <= 10 {
                                lemma_varint_decode_bounds(c, coff + 1 + a);
                                assert(chunk@.subrange(1 + a as int, 1 + a + k)
                                    =~= c.subrange(coff + 1 + a, coff + 1 + a + k));
                                lemma_varint_decode_local(c, chunk@, coff + 1 + a, 1 + a as int);
                            }
                        }
                    },
                }
            }
        }
        let (vlen, b) = match vdec {
            Ok(v) => v,
            Err(_) => { return Err(Errors::DecodeError); },
        };
        if b > 10 {
            return Err(Errors::DecodeError);
        }
        proof { lemma_varint_decode_bounds(c, coff + 1 + a); }
        Ok((klen, a, vlen, b))
    }

    /// Reads the record that starts at `offset`, mirroring how
    /// `spec_parse_record` reads the file's bytes: end of file and padding
    /// give `ReadDataFileEOF`, a checksum mismatch gives
    /// `InvalidLogRecordCrc`, malformed bytes give `DecodeError` or
    /// `DataFileBroken`, and `Io` stands for a failed read of storage.
    #[verifier::spinoff_prover]
    #[verifier::rlimit(100)]
    pub fn read_log_record(&self, offset: u64) -> (r: Result<ReadLogRecord, Errors>)
        requires
            self.wf(),
        ensures
            ({
                let p = spec_parse_record(self.contents(), offset as int);
                match r {
                    Ok(rr) => p == RecordParse::Valid(
                        rr.record.rec_type, rr.record.key@, rr.record.value@, rr.size as int),
                    Err(Errors::ReadDataFileEOF) => p is Eof,
                    Err(Errors::InvalidLogRecordCrc) => p is BadCrc,
                    Err(Errors::DecodeError) => p is Corrupt,
                    Err(Errors::DataFileBroken) => p is Corrupt,
                    Err(Errors::Io) => true,
                    Err(_) => false,
                }
            }),
    {
        let ghost c = self.contents();
        let ghost coff = offset as int;
        let size = self.write_off;
        if offset >= size {
            return Err(Errors::ReadDataFileEOF);
        }
        let (klen, a, vlen, b) = match self.read_header(offset) {
            Ok(v) => v,
            Err(e) => { return Err(e); },
        };

        // Zero-length key and value mark the end of the file.
        if klen == 0 && vlen == 0 {
            return Err(Errors::ReadDataFileEOF);
        }
        if klen > usize::MAX as u64 || vlen > usize::MAX as u64 {
            return Err(Errors::DecodeError);
        }
        let hdr: usize = 1 + a + b;
        let total128: u128 = hdr as u128 + klen as u128 + vlen as u128 + 4;
        if offset as u128 + total128 > size as u128 {
            return Err(Errors::DataFileBroken);
        }
        let klen_us = klen as usize;
        let vlen_us = vlen as usize;
        let kv = match self.io.read_at(offset + hdr as u64, klen_us + vlen_us + 4) {
            Ok(v) => v,
            Err(_) => { return Err(Errors::Io); },
        };
        let ghost total = hdr + klen_us + vlen_us + 4;
        assert(kv@ == c.subrange(coff + hdr, coff + total));

        // The checksum covers the header bytes, the key, and the value.
        let hdr_vec = match self.io.read_at(offset, hdr) {
            Ok(v) => v,
            Err(_) => { return Err(Errors::Io); },
        };
        let mut body = hdr_vec;
        assert(body@ =~= c.subrange(coff, coff + hdr));
        let kv_body = copy_range(&kv, 0, klen_us + vlen_us);
        push_bytes(&mut body, &kv_body);
        assert(body@ =~= c.subrange(coff, coff + hdr + klen_us + vlen_us));
        let crc_computed = crc32(&body);
        let crc_stored_vec = copy_range(&kv, klen_us + vlen_us, klen_us + vlen_us + 4);
        assert(crc_stored_vec@ =~= c.subrange(coff + hdr + klen_us + vlen_us, coff + total));
        let crc_stored = u32_from_le_bytes(crc_stored_vec.as_slice());
        if crc_stored != crc_computed {
            return Err(Errors::InvalidLogRecordCrc);
        }

        let t_vec = match self.io.read_at(offset, 1) {
            Ok(v) => v,
            Err(_) => { return Err(Errors::Io); },
        };
        let t = t_vec[0];
        assert(t == c[coff]);
        if t < 1 || t > 3 {
            return Err(Errors::DataFileBroken);
        }
        let rec_type = LogRecordType::from_u8(t);
        let key = copy_range(&kv, 0, klen_us);
        let value = copy_range(&kv, klen_us, klen_us + vlen_us);
        assert(key@ =~= c.subrange(coff + hdr, coff + hdr + klen_us));
        assert(value@ =~= c.subrange(coff + hdr + klen_us, coff + hdr + klen_us + vlen_us));
        Ok(ReadLogRecord {
            record: LogRecord { key, value, rec_type },
            size: hdr + klen_us + vlen_us + 4,
        })
    }
}

} // verus!
