use vstd::prelude::*;

verus! {

/// Lifecycle stage of one temporary partition file.
#[derive(Clone, Copy, Debug, PartialEq, Eq, Structural)]
pub enum FileStage {
    Created,
    Written,
    Reopened,
    Drained,
    Deleted,
}

/// The lifecycle of the temporary partition files, tracked explicitly:
/// each file is created, written once by the partition phase, reopened
/// for reading only after every file is written (the barrier between the
/// two phases), drained by the merge phase, and deleted. The caller that
/// owns the real files drives this state machine alongside them; the
/// transitions refuse any out-of-order step.
pub struct TempFileSet {
    stages: Vec<FileStage>,
}

impl TempFileSet {
    /// The stage of each file.
    pub closed spec fn stages(&self) -> Seq<FileStage> {
        self.stages@
    }

    /// How many files the set tracks.
    pub fn len(&self) -> (n: usize)
        ensures
            n == self.stages().len(),
    {
        self.stages.len()
    }

    /// A set of `count` files, all just created.
    pub fn new(count: usize) -> (r: TempFileSet)
        ensures
            r.stages().len() == count,
            forall|i: int| 0 <= i < count ==> r.stages()[i] == FileStage::Created,
    {
        let mut stages: Vec<FileStage> = Vec::new();
        let mut i: usize = 0;
        while i < count
            invariant
                i <= count,
                stages@.len() == i,
                forall|j: int| 0 <= j < i ==> stages@[j] == FileStage::Created,
            decreases count - i,
        {
            stages.push(FileStage::Created);
            i = i + 1;
        }
        TempFileSet { stages }
    }

    /// The partition phase finished writing file `i`.
    pub fn mark_written(&mut self, i: usize)
        requires
            i < old(self).stages().len(),
            old(self).stages()[i as int] == FileStage::Created,
        ensures
            final(self).stages() == old(self).stages().update(i as int, FileStage::Written),
    {
        self.stages.set(i, FileStage::Written);
    }

    /// Whether every file has passed the write barrier: written, and
    /// possibly further along already.
    pub fn all_written(&self) -> (r: bool)
        ensures
            r <==> forall|i: int|
                0 <= i < self.stages().len() ==> self.stages()[i] != FileStage::Created,
    {
        let n = self.stages.len();
        let mut i: usize = 0;
        while i < n
            invariant
                i <= n,
                n == self.stages().len(),
                forall|j: int| 0 <= j < i ==> self.stages()[j] != FileStage::Created,
            decreases n - i,
        {
            if self.stages[i] == FileStage::Created {
                return false;
            }
            i = i + 1;
        }
        true
    }

    /// The merge phase reopened file `i` for reading; allowed only after
    /// every file is written, so reading never starts before the
    /// partition phase is complete.
    pub fn mark_reopened(&mut self, i: usize)
        requires
            i < old(self).stages().len(),
            old(self).stages()[i as int] == FileStage::Written,
            forall|j: int|
                0 <= j < old(self).stages().len() ==> old(self).stages()[j]
                    != FileStage::Created,
        ensures
            final(self).stages() == old(self).stages().update(i as int, FileStage::Reopened),
    {
        self.stages.set(i, FileStage::Reopened);
    }

    /// The merge phase consumed the last record of file `i`.
    pub fn mark_drained(&mut self, i: usize)
        requires
            i < old(self).stages().len(),
            old(self).stages()[i as int] == FileStage::Reopened,
        ensures
            final(self).stages() == old(self).stages().update(i as int, FileStage::Drained),
    {
        self.stages.set(i, FileStage::Drained);
    }

    /// File `i` was removed from disk; only a drained file may go.
    pub fn mark_deleted(&mut self, i: usize)
        requires
            i < old(self).stages().len(),
            old(self).stages()[i as int] == FileStage::Drained,
        ensures
            final(self).stages() == old(self).stages().update(i as int, FileStage::Deleted),
    {
        self.stages.set(i, FileStage::Deleted);
    }
}

} // verus!
