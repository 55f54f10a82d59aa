//! The storage trait.
use crate::storage::error::StorageError;
use vstd::prelude::*;

verus! {

/// Bytes to write, and where.
#[derive(Debug, Clone, Copy)]
pub struct IoVec<'a> {
    /// Where they go.
    pub offset: u64,
    /// The bytes.
    pub buf: &'a [u8],
}

/// Bytes to read, and where.
#[derive(Debug)]
pub struct IoVecMut {
    /// Where they stand.
    pub offset: u64,
    /// Room for them.
    pub buf: Vec<u8>,
}

/// `after` has the bytes of `s` at the place that `before` names.
pub open spec fn filled(s: Seq<u8>, before: IoVecMut, after: IoVecMut) -> bool {
    &&& before.offset + before.buf@.len() <= s.len()
    &&& after.buf@ == s.subrange(before.offset as int, before.offset + before.buf@.len())
}

/// `s` with `data` in place of what stood at `offset`.
pub open spec fn spliced(s: Seq<u8>, offset: int, data: Seq<u8>) -> Seq<u8> {
    s.take(offset) + data + s.skip(offset + data.len())
}

/// `s` after the writes of `iov`, one after the other.
pub open spec fn all_spliced(s: Seq<u8>, iov: Seq<IoVec<'_>>) -> Seq<u8>
    decreases iov.len(),
{
    if iov.len() == 0 {
        s
    } else {
        let last = iov.last();
        spliced(all_spliced(s, iov.drop_last()), last.offset as int, last.buf@)
    }
}

/// Every write of `iov` goes to bytes that a storage of `len` has.
pub open spec fn all_in_range(iov: Seq<IoVec<'_>>, len: nat) -> bool {
    forall|i: int| 0 <= i < iov.len() ==> (#[trigger] iov[i]).offset + iov[i].buf@.len() <= len
}

/// Every read of `iov` asks for bytes that a storage of `len` has.
pub open spec fn all_have_bytes(iov: Seq<IoVecMut>, len: nat) -> bool {
    forall|i: int| 0 <= i < iov.len() ==> (#[trigger] iov[i]).offset + iov[i].buf@.len() <= len
}

/// `e` is the failure of a backend, not of a range.
pub open spec fn backend_failure(e: StorageError) -> bool {
    !(e.kind is OutOfBounds)
}

/// Storage behind a torrent's bytes: a fixed number of them.
pub trait Storage {
    /// The bytes that are stored. An implementation says here what they are; one
    /// that says nothing stores none.
    open spec fn contents(&self) -> Seq<u8> {
        Seq::empty()
    }

    /// Whether nothing but a range outside the storage is ever refused. An
    /// implementation that says nothing may fail at any time.
    open spec fn never_fails(&self) -> bool {
        false
    }

    /// The number of bytes.
    fn capacity(&self) -> (r: u64)
        ensures
            r == self.contents().len(),
    ;

    /// Writes `buf` at `offset`. A range outside the storage is refused and
    /// changes nothing.
    fn write_block(&mut self, offset: u64, buf: &[u8]) -> (r: Result<(), StorageError>)
        ensures
            final(self).contents().len() == old(self).contents().len(),
            final(self).never_fails() == old(self).never_fails(),
            old(self).never_fails() ==> (r is Ok <==> offset + buf@.len()
                <= old(self).contents().len()),
            (old(self).never_fails() && r is Err) ==> !backend_failure(r->Err_0),
            match r {
                Ok(_) => offset + buf@.len() <= old(self).contents().len() && final(self).contents()
                    == spliced(old(self).contents(), offset as int, buf@),
                Err(e) => backend_failure(e) || (offset + buf@.len() > old(self).contents().len()
                    && e.out_of_bounds(
                    offset,
                    buf@.len() as u64,
                    old(self).contents().len() as u64,
                ) && final(self).contents() == old(self).contents()),
            },
    ;

    /// Fills `buf` with the bytes at `offset`. A range outside the storage is
    /// refused and leaves `buf` as it was.
    fn read_block(&self, offset: u64, buf: &mut [u8]) -> (r: Result<(), StorageError>)
        ensures
            final(buf)@.len() == old(buf)@.len(),
            self.never_fails() ==> (r is Ok <==> offset + old(buf)@.len()
                <= self.contents().len()),
            (self.never_fails() && r is Err) ==> !backend_failure(r->Err_0),
            match r {
                Ok(_) => offset + old(buf)@.len() <= self.contents().len() && final(buf)@
                    == self.contents().subrange(offset as int, offset + old(buf)@.len()),
                Err(e) => backend_failure(e) || (offset + old(buf)@.len() > self.contents().len()
                    && e.out_of_bounds(
                    offset,
                    old(buf)@.len() as u64,
                    self.contents().len() as u64,
                ) && final(buf)@ == old(buf)@),
            },
    ;

    /// Writes several ranges, one after the other, up to the first that fails.
    fn writev(&mut self, iov: &[IoVec<'_>]) -> (r: Result<(), StorageError>)
        ensures
            final(self).contents().len() == old(self).contents().len(),
            final(self).never_fails() == old(self).never_fails(),
            iov@.len() == 0 ==> r is Ok,
            old(self).never_fails() ==> (r is Ok <==> all_in_range(iov@, old(self).contents().len())),
            (old(self).never_fails() && r is Err) ==> !backend_failure(r->Err_0),
            r is Ok ==> {
                &&& all_in_range(iov@, old(self).contents().len())
                &&& final(self).contents() == all_spliced(old(self).contents(), iov@)
            },
            (r is Err && !backend_failure(r->Err_0)) ==> exists|n: int|
                0 <= n < iov@.len() && final(self).contents() == #[trigger] all_spliced(
                    old(self).contents(),
                    iov@.take(n),
                ) && iov@[n].offset + iov@[n].buf@.len() > old(self).contents().len(),
    {
        let mut i: usize = 0;
        assert(iov@.take(0) =~= Seq::empty());
        while i < iov.len()
            invariant
                i <= iov@.len(),
                self.contents().len() == old(self).contents().len(),
                self.never_fails() == old(self).never_fails(),
                self.contents() == all_spliced(old(self).contents(), iov@.take(i as int)),
                forall|j: int|
                    0 <= j < i ==> (#[trigger] iov@[j]).offset + iov@[j].buf@.len() <= old(
                        self,
                    ).contents().len(),
            decreases iov@.len() - i,
        {
            assert(iov@.take(i + 1).drop_last() =~= iov@.take(i as int));
            match self.write_block(iov[i].offset, iov[i].buf) {
                Ok(_) => {},
                Err(e) => {
                    return Err(e);
                },
            }
            i = i + 1;
        }
        assert(iov@.take(i as int) =~= iov@);
        Ok(())
    }

    /// Reads several ranges, one after the other, up to the first that fails.
    fn readv(&self, iov: &mut Vec<IoVecMut>) -> (r: Result<(), StorageError>)
        ensures
            final(iov)@.len() == old(iov)@.len(),
            forall|i: int|
                0 <= i < old(iov)@.len() ==> {
                    &&& (#[trigger] final(iov)@[i]).offset == old(iov)@[i].offset
                    &&& final(iov)@[i].buf@.len() == old(iov)@[i].buf@.len()
                },
            old(iov)@.len() == 0 ==> r is Ok,
            self.never_fails() ==> (r is Ok <==> all_have_bytes(
                old(iov)@,
                self.contents().len(),
            )),
            (self.never_fails() && r is Err) ==> !backend_failure(r->Err_0),
            r is Ok ==> forall|i: int|
                0 <= i < old(iov)@.len() ==> #[trigger] filled(
                    self.contents(),
                    old(iov)@[i],
                    final(iov)@[i],
                ),
            (r is Err && !backend_failure(r->Err_0)) ==> exists|i: int|
                0 <= i < old(iov)@.len() && (#[trigger] old(iov)@[i]).offset + old(
                    iov,
                )@[i].buf@.len() > self.contents().len(),
    {
        let mut i: usize = 0;
        while i < iov.len()
            invariant
                i <= iov@.len(),
                iov@.len() == old(iov)@.len(),
                forall|j: int|
                    0 <= j < iov@.len() ==> {
                        &&& (#[trigger] iov@[j]).offset == old(iov)@[j].offset
                        &&& iov@[j].buf@.len() == old(iov)@[j].buf@.len()
                    },
                forall|j: int|
                    0 <= j < i ==> #[trigger] filled(self.contents(), old(iov)@[j], iov@[j]),
            decreases iov@.len() - i,
        {
            let ghost before = iov@;
            let offset: u64 = iov[i].offset;
            let got = self.read_block(offset, iov[i].buf.as_mut_slice());
            assert forall|j: int| 0 <= j < iov@.len() implies {
                &&& (#[trigger] iov@[j]).offset == old(iov)@[j].offset
                &&& iov@[j].buf@.len() == old(iov)@[j].buf@.len()
                &&& j != i ==> iov@[j] == before[j]
            } by {
                assert(before[j].offset == old(iov)@[j].offset);
            }
            match got {
                Ok(_) => {},
                Err(e) => {
                    assert(old(iov)@[i as int].offset == offset);
                    return Err(e);
                },
            }
            assert(before[i as int].offset == old(iov)@[i as int].offset);
            assert(filled(self.contents(), old(iov)@[i as int], iov@[i as int]));
            assert forall|j: int| 0 <= j < i + 1 implies #[trigger] filled(
                self.contents(),
                old(iov)@[j],
                iov@[j],
            ) by {
                if j < i {
                    assert(filled(self.contents(), old(iov)@[j], before[j]));
                    assert(iov@[j] == before[j]);
                }
            }
            i = i + 1;
        }
        assert forall|j: int| 0 <= j < old(iov)@.len() implies (#[trigger] old(iov)@[j]).offset
            + old(iov)@[j].buf@.len() <= self.contents().len() by {
            assert(filled(self.contents(), old(iov)@[j], iov@[j]));
        }
        Ok(())
    }

    /// Deletes what backs the storage for good. Where nothing does, this changes
    /// nothing.
    fn delete(&mut self) -> (r: Result<(), StorageError>)
        default_ensures
            r is Ok,
            final(self).contents() == old(self).contents(),
    {
        Ok(())
    }
}

/// What was written is what is read: a read of a range that was just written
/// gives back the bytes that went in.
pub proof fn law_read_gives_back_write(s: Seq<u8>, offset: int, data: Seq<u8>)
    requires
        0 <= offset,
        offset + data.len() <= s.len(),
    ensures
        spliced(s, offset, data).len() == s.len(),
        spliced(s, offset, data).subrange(offset, offset + data.len()) == data,
{
    assert(spliced(s, offset, data).subrange(offset, offset + data.len()) =~= data);
}

/// A write leaves every byte outside its range as it was.
pub proof fn law_write_touches_its_range_alone(s: Seq<u8>, offset: int, data: Seq<u8>, i: int)
    requires
        0 <= offset,
        offset + data.len() <= s.len(),
        0 <= i < s.len(),
        i < offset || i >= offset + data.len(),
    ensures
        spliced(s, offset, data)[i] == s[i],
{
}

/// Of several writes each is done: the last stands as it was given, and a single one
/// is that write. None changes the number of bytes.
pub proof fn law_last_of_several_writes_stands(s: Seq<u8>, iov: Seq<IoVec<'_>>, last: IoVec<'_>)
    requires
        all_in_range(iov.push(last), s.len()),
    ensures
        ({
            let done = all_spliced(s, iov.push(last));
            let before = all_spliced(s, iov);
            &&& done.len() == s.len()
            &&& done.subrange(last.offset as int, last.offset + last.buf@.len()) == last.buf@
            &&& forall|i: int|
                0 <= i < s.len() && !(last.offset <= i < last.offset + last.buf@.len())
                    ==> #[trigger] done[i] == before[i]
        }),
        iov.len() == 0 ==> all_spliced(s, iov) == s,
{
    let all = iov.push(last);
    assert(all.drop_last() =~= iov);
    lemma_several_writes_keep_length(s, iov, iov.len() as int);
    assert forall|i: int| 0 <= i < iov.len() implies (#[trigger] iov[i]).offset + iov[i].buf@.len()
        <= s.len() by {
        assert(all[i] == iov[i]);
    }
    assert(iov.take(iov.len() as int) =~= iov);
    assert(all[iov.len() as int] == last);
    law_read_gives_back_write(all_spliced(s, iov), last.offset as int, last.buf@);
}

proof fn lemma_several_writes_keep_length(s: Seq<u8>, iov: Seq<IoVec<'_>>, n: int)
    requires
        0 <= n <= iov.len(),
    ensures
        all_in_range(iov, s.len()) ==> all_spliced(s, iov.take(n)).len() == s.len(),
    decreases n,
{
    if n > 0 {
        lemma_several_writes_keep_length(s, iov, n - 1);
        assert(iov.take(n).drop_last() =~= iov.take(n - 1));
        assert(iov.take(n).last() == iov[n - 1]);
    } else {
        assert(iov.take(0) =~= Seq::<IoVec<'_>>::empty());
    }
}

} // verus!
