use vstd::prelude::*;
use crate::errors::Errors;

verus! {

/// Which kind of I/O backs a data file while the database starts up.
#[derive(Debug, PartialEq, Eq, Structural, Clone, Copy)]
pub enum IOType {
    /// Positional reads and appends through a plain file handle.
    StandardFileIO,
    /// A read-only memory map, used to rebuild the index quickly.
    MemoryMap,
}

/// A handle to one append-only file. The engine sees a file purely as the
/// byte sequence `contents()`: reads return slices of it, writes extend it.
///
/// Implementations over real storage live outside the verified library and
/// are trusted to meet these contracts; `MemIO` below is a verified
/// in-memory implementation.
pub trait IOManager: Sized {
    /// The bytes the file holds. The default leaves the view empty so an
    /// implementation outside the verified world, which carries no ghost
    /// state, can omit it; a verified implementation supplies its own.
    open spec fn contents(&self) -> Seq<u8> {
        Seq::empty()
    }

    /// Opens a fresh, empty file named `file_name` inside `dir_path`,
    /// truncating any previous file of that name.
    fn create(dir_path: &str, file_name: &str) -> (r: Result<Self, Errors>)
        ensures
            r matches Ok(io) ==> io.contents() == Seq::<u8>::empty(),
    ;

    /// Reads `len` bytes starting at byte `offset`.
    fn read_at(&self, offset: u64, len: usize) -> (r: Result<Vec<u8>, Errors>)
        requires
            offset + len <= self.contents().len(),
        ensures
            r matches Ok(v) ==> v@ == self.contents().subrange(
                offset as int, offset + len),
    ;

    /// Appends the whole buffer to the end of the file.
    fn write(&mut self, buf: &Vec<u8>) -> (r: Result<usize, Errors>)
        ensures
            r matches Ok(n) ==> {
                &&& n == buf.len()
                &&& final(self).contents() == old(self).contents() + buf@
                &&& final(self).contents().len() <= usize::MAX
            },
            r is Err ==> final(self).contents() == old(self).contents(),
    ;

    /// Flushes the file durably to storage.
    fn sync(&self) -> (r: Result<(), Errors>)
    ;

    /// How many bytes of storage are free for new files beside `dir_path`.
    /// Nothing is promised of the answer.
    fn available_space(dir_path: &str) -> (r: u64)
    ;

    /// The current length of the file in bytes.
    fn size(&self) -> (r: Result<u64, Errors>)
        ensures
            r matches Ok(n) ==> n == self.contents().len(),
    ;
}

/// A file held entirely in memory: the verified `IOManager`. Tests run the
/// engine over it, and callers that persist bytes themselves can move its
/// buffer in and out.
pub struct MemIO {
    data: Vec<u8>,
}

impl MemIO {
    /// An in-memory file that starts with the given bytes, as read back from
    /// some store.
    pub fn from_bytes(data: Vec<u8>) -> (r: Self)
        ensures
            r.contents() == data@,
    {
        MemIO { data }
    }

    /// Gives up the file's bytes, e.g. to persist them.
    pub fn into_bytes(self) -> (r: Vec<u8>)
        ensures
            r@ == self.contents(),
    {
        self.data
    }

    /// A copy of the file's bytes.
    pub fn to_bytes(&self) -> (r: Vec<u8>)
        ensures
            r@ == self.contents(),
    {
        crate::log_record::copy_range(&self.data, 0, self.data.len())
    }
}

impl IOManager for MemIO {
    closed spec fn contents(&self) -> Seq<u8> {
        self.data@
    }

    fn create(dir_path: &str, file_name: &str) -> (r: Result<Self, Errors>) {
        Ok(MemIO { data: Vec::new() })
    }

    fn read_at(&self, offset: u64, len: usize) -> (r: Result<Vec<u8>, Errors>) {
        let n = self.data.len();
        assert(offset + len <= n);
        let start = offset as usize;
        Ok(crate::log_record::copy_range(&self.data, start, start + len))
    }

    fn write(&mut self, buf: &Vec<u8>) -> (r: Result<usize, Errors>) {
        crate::log_record::push_bytes(&mut self.data, buf);
        let n = self.data.len();
        assert(final(self).contents().len() == n <= u64::MAX);
        Ok(buf.len())
    }

    fn sync(&self) -> (r: Result<(), Errors>) {
        Ok(())
    }

    fn available_space(dir_path: &str) -> (r: u64) {
        u64::MAX
    }

    fn size(&self) -> (r: Result<u64, Errors>) {
        Ok(self.data.len() as u64)
    }
}

} // verus!
