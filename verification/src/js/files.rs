//! The files that a guest has open, by their descriptors.

use vstd::prelude::*;

verus! {

/// A file that is open: the handle of the file system, and the position in it.
#[derive(Debug, Clone, Copy, PartialEq, Eq, Structural)]
pub struct OpenFile {
    pub handle: u64,
    pub position: u64,
}

/// The first descriptor that is given out.
pub const FIRST_FD: i32 = 3;

pub open spec fn descriptors_ascend(files: Seq<(i32, OpenFile)>) -> bool {
    forall|i: int, j: int| 0 <= i < j < files.len() ==> (#[trigger] files[i]).0 < (
    #[trigger] files[j]).0
}

pub open spec fn has_descriptor(files: Seq<(i32, OpenFile)>, fd: i32) -> bool {
    exists|i: int| 0 <= i < files.len() && (#[trigger] files[i]).0 == fd
}

pub open spec fn files_map(files: Seq<(i32, OpenFile)>) -> Map<i32, OpenFile> {
    Map::new(
        |fd: i32| has_descriptor(files, fd),
        |fd: i32| files[choose|i: int| 0 <= i < files.len() && (#[trigger] files[i]).0 == fd].1,
    )
}

/// Whether `fds` are the descriptors of all files, in ascending order, and `r` their files.
pub open spec fn listed(files: Map<i32, OpenFile>, fds: Seq<i32>, r: Seq<OpenFile>) -> bool {
    &&& fds.len() == r.len()
    &&& forall|i: int, j: int| 0 <= i < j < fds.len() ==> #[trigger] fds[i] < #[trigger] fds[j]
    &&& forall|i: int|
        0 <= i < fds.len() ==> files.dom().contains(#[trigger] fds[i]) && files[fds[i]] == r[i]
    &&& forall|fd: i32| #[trigger] files.dom().contains(fd) ==> fds.contains(fd)
}

proof fn lemma_files_map(files: Seq<(i32, OpenFile)>, i: int)
    requires
        descriptors_ascend(files),
        0 <= i < files.len(),
    ensures
        files_map(files).dom().contains(files[i].0),
        files_map(files)[files[i].0] == files[i].1,
{
    let fd = files[i].0;
    assert(has_descriptor(files, fd));
    let k = choose|k: int| 0 <= k < files.len() && (#[trigger] files[k]).0 == fd;
    if k < i {
        assert(files[k].0 < files[i].0);
    } else if i < k {
        assert(files[i].0 < files[k].0);
    }
}

/// The open files of a guest. Descriptors are given out in order, and none is given out twice.
#[derive(Debug)]
pub struct FdTable {
    files: Vec<(i32, OpenFile)>,
    next_fd: i32,
    max_open: usize,
}

impl FdTable {
    #[verifier::type_invariant]
    spec fn wf(self) -> bool {
        &&& descriptors_ascend(self.files@)
        &&& self.next_fd >= FIRST_FD
        &&& forall|i: int|
            0 <= i < self.files@.len() ==> FIRST_FD <= (#[trigger] self.files@[i]).0 < self.next_fd
    }

    pub closed spec fn view(&self) -> Map<i32, OpenFile> {
        files_map(self.files@)
    }

    /// The number of files that are open.
    pub closed spec fn count(&self) -> nat {
        self.files@.len()
    }

    /// The descriptor that is given out next.
    pub closed spec fn next(&self) -> i32 {
        self.next_fd
    }

    pub closed spec fn limit(&self) -> nat {
        self.max_open as nat
    }

    /// Whether no more files can be opened.
    pub open spec fn is_full(&self) -> bool {
        self.count() >= self.limit() || self.next() == i32::MAX
    }

    pub fn new(max_open: usize) -> (r: Self)
        ensures
            r@ == Map::<i32, OpenFile>::empty(),
            r.count() == 0,
            r.next() == FIRST_FD,
            r.limit() == max_open,
    {
        let r = FdTable { files: Vec::new(), next_fd: FIRST_FD, max_open };
        proof {
            assert(r@ =~= Map::<i32, OpenFile>::empty());
        }
        r
    }

    pub fn full(&self) -> (r: bool)
        ensures
            r == self.is_full(),
    {
        self.files.len() >= self.max_open || self.next_fd == i32::MAX
    }

    fn place(&self, fd: i32) -> (r: Option<usize>)
        ensures
            match r {
                Some(i) => i < self.files@.len() && self.files@[i as int].0 == fd,
                None => !has_descriptor(self.files@, fd),
            },
    {
        let mut i: usize = 0;
        while i < self.files.len()
            invariant
                i <= self.files@.len(),
                forall|j: int| 0 <= j < i ==> (#[trigger] self.files@[j]).0 != fd,
            decreases self.files@.len() - i,
        {
            if self.files[i].0 == fd {
                return Some(i);
            }
            i = i + 1;
        }
        None
    }

    pub fn get(&self, fd: i32) -> (r: Option<OpenFile>)
        ensures
            match r {
                Some(file) => self@.dom().contains(fd) && self@[fd] == file,
                None => !self@.dom().contains(fd),
            },
    {
        proof {
            use_type_invariant(self);
        }
        match self.place(fd) {
            Some(i) => {
                proof {
                    lemma_files_map(self.files@, i as int);
                }
                Some(self.files[i].1)
            },
            None => None,
        }
    }

    /// Takes note of a file that was opened, and gives it a descriptor that was never used.
    pub fn insert(&mut self, handle: u64) -> (r: i32)
        requires
            !old(self).is_full(),
        ensures
            r == old(self).next(),
            r >= FIRST_FD,
            !old(self)@.dom().contains(r),
            final(self)@ == old(self)@.insert(r, OpenFile { handle, position: 0 }),
            final(self).count() == old(self).count() + 1,
            final(self).next() == old(self).next() + 1,
            final(self).limit() == old(self).limit(),
    {
        proof {
            use_type_invariant(&*self);
        }
        let ghost before = self.files@;
        let fd: i32 = self.next_fd;
        let mut swapped = FdTable::new(self.max_open);
        std::mem::swap(self, &mut swapped);
        let FdTable { mut files, next_fd, max_open } = swapped;
        let file = OpenFile { handle, position: 0 };
        files.push((fd, file));
        proof {
            let after = files@;
            assert(descriptors_ascend(after));
            assert(files_map(after) =~= files_map(before).insert(fd, file)) by {
                assert forall|k: i32| has_descriptor(after, k) <==> (has_descriptor(before, k) || k
                    == fd) by {
                    if has_descriptor(before, k) {
                        let i = choose|i: int| 0 <= i < before.len() && (#[trigger] before[i]).0
                            == k;
                        assert(after[i].0 == k);
                    }
                    if has_descriptor(after, k) {
                        let i = choose|i: int| 0 <= i < after.len() && (#[trigger] after[i]).0 == k;
                        if i < before.len() {
                            assert(before[i].0 == k);
                        }
                    }
                    assert(after[before.len() as int].0 == fd);
                }
                assert forall|k: i32| has_descriptor(after, k) implies #[trigger] files_map(
                    after,
                )[k] == files_map(before).insert(fd, file)[k] by {
                    let i = choose|i: int| 0 <= i < after.len() && (#[trigger] after[i]).0 == k;
                    lemma_files_map(after, i);
                    if i < before.len() {
                        assert(before[i] == after[i]);
                        lemma_files_map(before, i);
                    }
                }
            }
        }
        *self = FdTable { files, next_fd: next_fd + 1, max_open };
        fd
    }

    /// Moves the position in a file.
    pub fn set_position(&mut self, fd: i32, position: u64)
        requires
            old(self)@.dom().contains(fd),
        ensures
            final(self)@ == old(self)@.insert(fd, OpenFile { position, ..old(self)@[fd] }),
            final(self).count() == old(self).count(),
            final(self).next() == old(self).next(),
            final(self).limit() == old(self).limit(),
    {
        proof {
            use_type_invariant(&*self);
        }
        let ghost before = self.files@;
        let place = self.place(fd);
        match place {
            Some(at) => {
                proof {
                    lemma_files_map(before, at as int);
                }
                let file = OpenFile { handle: self.files[at].1.handle, position };
                let mut swapped = FdTable::new(self.max_open);
                std::mem::swap(self, &mut swapped);
                let FdTable { mut files, next_fd, max_open } = swapped;
                files.set(at, (fd, file));
                proof {
                    let after = files@;
                    assert(after == before.update(at as int, (fd, file)));
                    assert(descriptors_ascend(after)) by {
                        assert forall|i: int, j: int| 0 <= i < j < after.len() implies (
                        #[trigger] after[i]).0 < (#[trigger] after[j]).0 by {
                            assert(before[i].0 < before[j].0);
                        }
                    }
                    assert forall|i: int| 0 <= i < after.len() implies FIRST_FD <= (
                    #[trigger] after[i]).0 < next_fd by {
                        assert(after[i].0 == before[i].0);
                    }
                    assert(files_map(after) =~= files_map(before).insert(fd, file)) by {
                        assert forall|k: i32| has_descriptor(after, k) <==> has_descriptor(
                            before,
                            k,
                        ) by {
                            if has_descriptor(before, k) {
                                let i = choose|i: int|
                                    0 <= i < before.len() && (#[trigger] before[i]).0 == k;
                                assert(after[i].0 == k);
                            }
                            if has_descriptor(after, k) {
                                let i = choose|i: int|
                                    0 <= i < after.len() && (#[trigger] after[i]).0 == k;
                                assert(before[i].0 == k);
                            }
                        }
                        assert forall|k: i32| has_descriptor(after, k) implies #[trigger] files_map(
                            after,
                        )[k] == files_map(before).insert(fd, file)[k] by {
                            let i = choose|i: int|
                                0 <= i < after.len() && (#[trigger] after[i]).0 == k;
                            lemma_files_map(after, i);
                            lemma_files_map(before, i);
                            if k == fd {
                                if i < at {
                                    assert(after[i].0 < after[at as int].0);
                                } else if i > at {
                                    assert(after[at as int].0 < after[i].0);
                                }
                            }
                        }
                        assert(has_descriptor(before, fd));
                    }
                }
                *self = FdTable { files, next_fd, max_open };
            },
            None => {},
        }
    }

    /// Forgets a file, and gives it back to be closed.
    pub fn remove(&mut self, fd: i32) -> (r: Option<OpenFile>)
        ensures
            match r {
                Some(file) => old(self)@.dom().contains(fd) && old(self)@[fd] == file
                    && final(self).count() == old(self).count() - 1,
                None => !old(self)@.dom().contains(fd) && final(self).count() == old(self).count(),
            },
            final(self)@ == old(self)@.remove(fd),
            final(self).next() == old(self).next(),
            final(self).limit() == old(self).limit(),
    {
        proof {
            use_type_invariant(&*self);
        }
        let ghost before = self.files@;
        let place = self.place(fd);
        match place {
            Some(at) => {
                proof {
                    lemma_files_map(before, at as int);
                }
                let mut swapped = FdTable::new(self.max_open);
                std::mem::swap(self, &mut swapped);
                let FdTable { mut files, next_fd, max_open } = swapped;
                let removed = files.remove(at);
                proof {
                    let after = files@;
                    assert(after == before.remove(at as int));
                    assert(descriptors_ascend(after)) by {
                        assert forall|i: int, j: int| 0 <= i < j < after.len() implies (
                        #[trigger] after[i]).0 < (#[trigger] after[j]).0 by {
                            let a = if i < at {
                                i
                            } else {
                                i + 1
                            };
                            let b = if j < at {
                                j
                            } else {
                                j + 1
                            };
                            assert(before[a].0 < before[b].0);
                        }
                    }
                    assert forall|i: int| 0 <= i < after.len() implies FIRST_FD <= (
                    #[trigger] after[i]).0 < next_fd by {
                        if i < at {
                            assert(after[i] == before[i]);
                        } else {
                            assert(after[i] == before[i + 1]);
                        }
                    }
                    assert(files_map(after) =~= files_map(before).remove(fd)) by {
                        assert forall|k: i32| has_descriptor(after, k) <==> (has_descriptor(
                            before,
                            k,
                        ) && k != fd) by {
                            if has_descriptor(before, k) && k != fd {
                                let i = choose|i: int|
                                    0 <= i < before.len() && (#[trigger] before[i]).0 == k;
                                if i < at {
                                    assert(after[i].0 == k);
                                } else {
                                    assert(after[i - 1].0 == k);
                                }
                            }
                            if has_descriptor(after, k) {
                                let i = choose|i: int|
                                    0 <= i < after.len() && (#[trigger] after[i]).0 == k;
                                if i < at {
                                    assert(before[i].0 == k);
                                    assert(before[i].0 < before[at as int].0);
                                } else {
                                    assert(before[i + 1].0 == k);
                                    assert(before[at as int].0 < before[i + 1].0);
                                }
                            }
                        }
                        assert forall|k: i32| has_descriptor(after, k) implies #[trigger] files_map(
                            after,
                        )[k] == files_map(before)[k] by {
                            let i = choose|i: int|
                                0 <= i < after.len() && (#[trigger] after[i]).0 == k;
                            lemma_files_map(after, i);
                            if i < at {
                                lemma_files_map(before, i);
                            } else {
                                lemma_files_map(before, i + 1);
                            }
                        }
                    }
                }
                *self = FdTable { files, next_fd, max_open };
                Some(removed.1)
            },
            None => {
                proof {
                    assert(files_map(before) =~= files_map(before).remove(fd));
                }
                None
            },
        }
    }

    /// Forgets all files, and gives each of them once, in the order of their descriptors.
    pub fn take_all(&mut self) -> (r: Vec<OpenFile>)
        ensures
            final(self)@ == Map::<i32, OpenFile>::empty(),
            final(self).count() == 0,
            final(self).next() == old(self).next(),
            final(self).limit() == old(self).limit(),
            r@.len() == old(self).count(),
            exists|fds: Seq<i32>| #[trigger] listed(old(self)@, fds, r@),
    {
        proof {
            use_type_invariant(&*self);
        }
        let ghost before = self.files@;
        let ghost open = self@;
        let mut swapped = FdTable::new(self.max_open);
        std::mem::swap(self, &mut swapped);
        let FdTable { files, next_fd, max_open } = swapped;
        let mut r: Vec<OpenFile> = Vec::new();
        let mut i: usize = 0;
        while i < files.len()
            invariant
                i <= files@.len(),
                files@ == before,
                r@.len() == i,
                forall|j: int| 0 <= j < i ==> #[trigger] r@[j] == files@[j].1,
            decreases files@.len() - i,
        {
            r.push(files[i].1);
            i = i + 1;
        }
        proof {
            let fds = Seq::new(before.len(), |k: int| before[k].0);
            assert forall|k: int| 0 <= k < fds.len() implies files_map(before).dom().contains(
                #[trigger] fds[k],
            ) && files_map(before)[fds[k]] == r@[k] by {
                lemma_files_map(before, k);
            }
            assert forall|fd: i32| #[trigger]
                files_map(before).dom().contains(fd) implies fds.contains(fd) by {
                let k = choose|k: int| 0 <= k < before.len() && (#[trigger] before[k]).0 == fd;
                assert(fds[k] == fd);
            }
            assert(listed(open, fds, r@));
        }
        let empty: Vec<(i32, OpenFile)> = Vec::new();
        proof {
            assert(files_map(empty@) =~= Map::<i32, OpenFile>::empty());
        }
        *self = FdTable { files: empty, next_fd, max_open };
        r
    }
}

/// How the files that a guest leaves open are given back: they are kept only if it succeeded.
pub fn commits(exit_code: i32, cancelled: bool) -> (r: bool)
    ensures
        r == (exit_code == 0 && !cancelled),
{
    exit_code == 0 && !cancelled
}

} // verus!
