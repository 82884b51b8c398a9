use vstd::prelude::*;
use crate::errors::{Errors, Result};

verus! {

/// How many bytes a read of `want` bytes at `offset` obtains from a file of
/// `len` bytes: all of them, or what is left before the end of the file.
pub open spec fn read_len(len: nat, offset: nat, want: nat) -> nat {
    if offset >= len {
        0
    } else if want <= len - offset {
        want
    } else {
        (len - offset) as nat
    }
}

/// A file that can be appended to and read at any position. The store reaches
/// its data files only through this capability.
pub trait IOManager: Sized {
    /// The bytes the file holds.
    spec fn content(&self) -> Seq<u8>;

    /// Opens the file named `file_name` in the directory `dir_path`, creating it
    /// if it does not exist.
    fn open(dir_path: &str, file_name: &str) -> (r: Result<Self>)
        ensures
            r is Err ==> r->Err_0 == Errors::FailedToOpenDataFile,
    ;

    /// Fills `buf` from `offset` on; returns how many bytes it obtained, fewer than
    /// `buf.len()` only where the file ends first. The rest of `buf` is left as it was.
    fn read(&self, buf: &mut Vec<u8>, offset: u64) -> (r: Result<usize>)
        ensures
            final(buf)@.len() == old(buf)@.len(),
            self.content().len() <= u64::MAX,
            match r {
                Ok(n) => {
                    &&& n == read_len(self.content().len(), offset as nat, old(buf)@.len())
                    &&& forall|j: int|
                        0 <= j < n ==> #[trigger] final(buf)@[j] == self.content()[offset + j]
                    &&& forall|j: int|
                        n <= j < old(buf)@.len() ==> #[trigger] final(buf)@[j] == old(buf)@[j]
                },
                Err(e) => e == Errors::FailedReadFromDataFile,
            },
    ;

    /// Appends all of `buf` to the end of the file and returns its length; on
    /// failure the file is left as it was.
    fn write(&mut self, buf: &[u8]) -> (r: Result<usize>)
        ensures
            match r {
                Ok(n) => n == buf@.len() && final(self).content() == old(self).content() + buf@,
                Err(e) => e == Errors::FailedToWriteToDataFile && final(self).content() == old(
                    self,
                ).content(),
            },
    ;

    /// Flushes the file to durable storage.
    fn sync(&self) -> (r: Result<()>)
        ensures
            r is Err ==> r->Err_0 == Errors::FailedToSyncDataFile,
    ;

    /// The length of the file in bytes.
    fn size(&self) -> (r: u64)
        ensures
            r == self.content().len(),
    ;
}

/// A file held in memory.
pub struct MemIO {
    data: Vec<u8>,
}

impl MemIO {
    /// A file that holds `data`.
    pub fn from_bytes(data: Vec<u8>) -> (r: MemIO)
        ensures
            r.content() == data@,
    {
        MemIO { data }
    }

    /// The bytes the file holds.
    pub fn bytes(&self) -> (r: &Vec<u8>)
        ensures
            r@ == self.content(),
    {
        &self.data
    }
}

impl IOManager for MemIO {
    closed spec fn content(&self) -> Seq<u8> {
        self.data@
    }

    fn open(dir_path: &str, file_name: &str) -> (r: Result<MemIO>) {
        Ok(MemIO { data: Vec::new() })
    }

    fn read(&self, buf: &mut Vec<u8>, offset: u64) -> (r: Result<usize>) {
        let len = self.data.len();
        if offset >= len as u64 {
            return Ok(0);
        }
        let start = offset as usize;
        let n: usize = if buf.len() <= len - start {
            buf.len()
        } else {
            len - start
        };
        let mut i: usize = 0;
        while i < n
            invariant
                0 <= i <= n,
                start + n <= len == self.data@.len(),
                n <= buf@.len() == old(buf)@.len(),
                forall|j: int| 0 <= j < i ==> buf@[j] == self.data@[start + j],
                forall|j: int| i <= j < buf@.len() ==> buf@[j] == old(buf)@[j],
            decreases n - i,
        {
            buf.set(i, self.data[start + i]);
            i = i + 1;
        }
        Ok(n)
    }

    fn write(&mut self, buf: &[u8]) -> (r: Result<usize>) {
        self.data.extend_from_slice(buf);
        Ok(buf.len())
    }

    fn sync(&self) -> (r: Result<()>) {
        Ok(())
    }

    fn size(&self) -> (r: u64) {
        self.data.len() as u64
    }
}

} // verus!
