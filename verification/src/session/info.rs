//! What the library reads of a parsed info dictionary.
use vstd::prelude::*;

verus! {

/// A parsed info dictionary.
#[derive(Debug)]
pub struct Info {
    /// Bytes per piece.
    pub piece_length: u64,
    /// The private flag.
    pub private: bool,
    /// The version 1 part; a torrent of version 2 alone has none.
    pub v1: Option<InfoV1>,
}

/// The version 1 part.
#[derive(Debug)]
pub struct InfoV1 {
    /// The pieces' hashes, one after the other.
    pub pieces: Vec<u8>,
    /// The files.
    pub files: FileListV1,
}

/// One file or several.
#[derive(Debug)]
pub enum FileListV1 {
    /// A single file.
    Single {
        /// Its length.
        length: u64,
    },
    /// A directory of files.
    Multi {
        /// The files in order.
        files: Vec<FileV1>,
    },
}

/// A file of several.
#[derive(Debug)]
pub struct FileV1 {
    /// Its length.
    pub length: u64,
    /// The components of its path.
    pub path: Vec<Vec<u8>>,
}

/// The lengths of the files together.
pub open spec fn sum_lengths(files: Seq<FileV1>) -> nat
    decreases files.len(),
{
    if files.len() == 0 {
        0
    } else {
        sum_lengths(files.drop_last()) + files.last().length as nat
    }
}

pub proof fn lemma_sum_lengths_monotone(files: Seq<FileV1>, k: int)
    requires
        0 <= k <= files.len(),
    ensures
        sum_lengths(files.take(k)) <= sum_lengths(files),
    decreases files.len(),
{
    if k < files.len() {
        lemma_sum_lengths_monotone(files.drop_last(), k);
        assert(files.drop_last().take(k) =~= files.take(k));
    } else {
        assert(files.take(k) =~= files);
    }
}

impl FileListV1 {
    /// The length of the torrent.
    pub open spec fn total(self) -> nat {
        match self {
            FileListV1::Single { length } => length as nat,
            FileListV1::Multi { files } => sum_lengths(files@),
        }
    }

    /// The length of the torrent, if it can be counted.
    pub fn checked_length(&self) -> (r: Option<u64>)
        ensures
            match r {
                Some(n) => n == self.total(),
                None => self.total() > u64::MAX,
            },
    {
        match self {
            FileListV1::Single { length } => Some(*length),
            FileListV1::Multi { files } => {
                let mut sum: u64 = 0;
                let mut i: usize = 0;
                assert(files@.take(0) =~= Seq::<FileV1>::empty());
                while i < files.len()
                    invariant
                        i <= files@.len(),
                        *self == (FileListV1::Multi { files: *files }),
                        sum == sum_lengths(files@.take(i as int)),
                    decreases files@.len() - i,
                {
                    proof {
                        lemma_sum_lengths_monotone(files@, i + 1);
                        assert(files@.take(i + 1).drop_last() =~= files@.take(i as int));
                    }
                    sum = match sum.checked_add(files[i].length) {
                        Some(n) => n,
                        None => {
                            return None;
                        },
                    };
                    i = i + 1;
                }
                assert(files@.take(i as int) =~= files@);
                Some(sum)
            },
        }
    }

    /// The length of the torrent.
    pub fn total_length(&self) -> (r: u64)
        requires
            self.total() <= u64::MAX,
        ensures
            r == self.total(),
    {
        match self {
            FileListV1::Single { length } => *length,
            FileListV1::Multi { files } => {
                let mut sum: u64 = 0;
                let mut i: usize = 0;
                assert(files@.take(0) =~= Seq::<FileV1>::empty());
                while i < files.len()
                    invariant
                        i <= files@.len(),
                        sum == sum_lengths(files@.take(i as int)),
                        sum_lengths(files@) <= u64::MAX,
                    decreases files@.len() - i,
                {
                    proof {
                        lemma_sum_lengths_monotone(files@, i + 1);
                        assert(files@.take(i + 1).drop_last() =~= files@.take(i as int));
                    }
                    sum = sum + files[i].length;
                    i = i + 1;
                }
                assert(files@.take(i as int) =~= files@);
                sum
            },
        }
    }
}

/// The bytes of a torrent are those of its file, or of its files together.
pub proof fn law_total_is_the_sum(files: Seq<FileV1>, file: FileV1)
    ensures
        sum_lengths(Seq::empty()) == 0,
        sum_lengths(files.push(file)) == sum_lengths(files) + file.length,
        (FileListV1::Single { length: file.length }).total() == file.length,
{
    assert(files.push(file).drop_last() =~= files);
}

} // verus!
