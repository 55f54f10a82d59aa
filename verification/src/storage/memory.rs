//! Storage in memory.
use crate::storage::error::{bounds_check, StorageError};
use crate::storage::traits::Storage;
use vstd::prelude::*;

verus! {

/// Storage in a buffer of fixed size, zero at first.
#[derive(Debug)]
pub struct MemoryStorage {
    buf: Vec<u8>,
}

impl MemoryStorage {
    /// Storage of `capacity` zero bytes.
    pub fn new(capacity: u64) -> (r: MemoryStorage)
        requires
            capacity <= usize::MAX,
        ensures
            r.contents() == Seq::new(capacity as nat, |i: int| 0u8),
    {
        let buf: Vec<u8> = vec![0u8; capacity as usize];
        assert(buf@ =~= Seq::new(capacity as nat, |i: int| 0u8));
        MemoryStorage { buf }
    }

    /// Refuses a range that is not inside the storage.
    fn bounds_check(&self, offset: u64, len: u64) -> (r: Result<(), StorageError>)
        ensures
            match r {
                Ok(_) => offset + len <= self.contents().len(),
                Err(e) => offset + len > self.contents().len() && e.out_of_bounds(
                    offset,
                    len,
                    self.contents().len() as u64,
                ),
            },
    {
        bounds_check(offset, len, self.buf.len() as u64)
    }
}

impl Storage for MemoryStorage {
    closed spec fn contents(&self) -> Seq<u8> {
        self.buf@
    }

    open spec fn never_fails(&self) -> bool {
        true
    }

    fn capacity(&self) -> (r: u64) {
        self.buf.len() as u64
    }

    fn write_block(&mut self, offset: u64, buf: &[u8]) -> (r: Result<(), StorageError>) {
        match self.bounds_check(offset, buf.len() as u64) {
            Ok(_) => {},
            Err(e) => {
                return Err(e);
            },
        }
        let room: usize = self.buf.len();
        assert(offset <= room);
        let start: usize = offset as usize;
        let ghost before = self.buf@;
        let mut i: usize = 0;
        assert(self.buf@ =~= before.take(start as int) + buf@.take(0) + before.skip(start as int));
        while i < buf.len()
            invariant
                i <= buf@.len(),
                start + buf@.len() <= before.len(),
                before.len() == self.buf@.len(),
                self.buf@ == before.take(start as int) + buf@.take(i as int) + before.skip(
                    start + i,
                ),
            decreases buf@.len() - i,
        {
            assert(self.buf.len() == self.buf@.len());
            self.buf[start + i] = buf[i];
            assert(self.buf@ =~= before.take(start as int) + buf@.take(i + 1) + before.skip(
                start + i + 1,
            ));
            i = i + 1;
        }
        assert(buf@.take(i as int) =~= buf@);
        Ok(())
    }

    fn read_block(&self, offset: u64, buf: &mut [u8]) -> (r: Result<(), StorageError>) {
        match self.bounds_check(offset, buf.len() as u64) {
            Ok(_) => {},
            Err(e) => {
                return Err(e);
            },
        }
        let room: usize = self.buf.len();
        assert(offset <= room);
        let start: usize = offset as usize;
        let n: usize = buf.len();
        let mut i: usize = 0;
        while i < n
            invariant
                i <= n,
                n == buf@.len(),
                n == old(buf)@.len(),
                room == self.buf@.len(),
                start + n <= room,
                forall|j: int| 0 <= j < i ==> buf@[j] == self.buf@[start + j],
            decreases n - i,
        {
            buf[i] = self.buf[start + i];
            i = i + 1;
        }
        assert(buf@ =~= self.buf@.subrange(start as int, start + n));
        Ok(())
    }
}

} // verus!
