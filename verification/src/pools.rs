//! Ceilings on what executions hold at once: across the executions that share pools, and within
//! one execution.

use vstd::prelude::*;

use crate::vfs::{Errno, VfsError};

verus! {

/// Capacity of the resources that sandboxes sharing a [`Pools`] contend for.
#[derive(Debug, Clone, Copy, PartialEq, Eq, Structural)]
#[non_exhaustive]
pub struct PoolCapacity {
    /// Concurrent `jq` guests. Each holds an OS thread while it evaluates.
    pub jq_workers: usize,
    /// Concurrent `js` guests. Each holds an OS thread while it evaluates.
    pub js_workers: usize,
    /// Concurrent blocking VFS operations dispatched to the blocking pool.
    pub blocking_vfs_workers: usize,
    /// Open file handles held at once across every sharing sandbox.
    pub open_files: usize,
    /// Threads that release handles a cancelled execution abandoned.
    pub cleanup_threads: usize,
}

/// The capacity where none is set.
pub open spec fn default_capacity() -> PoolCapacity {
    PoolCapacity {
        jq_workers: 16,
        js_workers: 16,
        blocking_vfs_workers: 128,
        open_files: 16384,
        cleanup_threads: 4,
    }
}

impl Default for PoolCapacity {
    fn default() -> (r: Self)
        ensures
            r == default_capacity(),
    {
        PoolCapacity {
            jq_workers: 16,
            js_workers: 16,
            blocking_vfs_workers: 128,
            open_files: 16384,
            cleanup_threads: 4,
        }
    }
}

impl PoolCapacity {
    /// Sets the concurrent `jq` guest ceiling.
    #[must_use]
    pub fn with_jq_workers(self, jq_workers: usize) -> (r: Self)
        ensures
            r == (PoolCapacity { jq_workers, ..self }),
    {
        PoolCapacity { jq_workers, ..self }
    }

    /// Sets the concurrent `js` guest ceiling.
    #[must_use]
    pub fn with_js_workers(self, js_workers: usize) -> (r: Self)
        ensures
            r == (PoolCapacity { js_workers, ..self }),
    {
        PoolCapacity { js_workers, ..self }
    }

    /// Sets the concurrent blocking VFS operation ceiling.
    #[must_use]
    pub fn with_blocking_vfs_workers(self, blocking_vfs_workers: usize) -> (r: Self)
        ensures
            r == (PoolCapacity { blocking_vfs_workers, ..self }),
    {
        PoolCapacity { blocking_vfs_workers, ..self }
    }

    /// Sets the shared open-handle ceiling.
    #[must_use]
    pub fn with_open_files(self, open_files: usize) -> (r: Self)
        ensures
            r == (PoolCapacity { open_files, ..self }),
    {
        PoolCapacity { open_files, ..self }
    }

    /// Sets the handle-cleanup thread count.
    #[must_use]
    pub fn with_cleanup_threads(self, cleanup_threads: usize) -> (r: Self)
        ensures
            r == (PoolCapacity { cleanup_threads, ..self }),
    {
        PoolCapacity { cleanup_threads, ..self }
    }
}

/// A ceiling that admits something: one, where none is given.
pub open spec fn at_least_one(n: usize) -> usize {
    if n == 0 {
        1
    } else {
        n
    }
}

fn raised(n: usize) -> (r: usize)
    ensures
        r == at_least_one(n),
{
    if n == 0 {
        1
    } else {
        n
    }
}

/// The capacity that pools enforce: a ceiling of zero would deadlock the work that it admits.
pub open spec fn enforced(capacity: PoolCapacity) -> PoolCapacity {
    PoolCapacity {
        jq_workers: at_least_one(capacity.jq_workers),
        js_workers: at_least_one(capacity.js_workers),
        blocking_vfs_workers: at_least_one(capacity.blocking_vfs_workers),
        open_files: at_least_one(capacity.open_files),
        cleanup_threads: at_least_one(capacity.cleanup_threads),
    }
}

/// The handles that are open at once, under a ceiling.
#[derive(Debug)]
pub struct OpenFiles {
    open: usize,
    limit: usize,
}

impl OpenFiles {
    #[verifier::type_invariant]
    spec fn wf(self) -> bool {
        self.open <= self.limit
    }

    pub closed spec fn open(&self) -> nat {
        self.open as nat
    }

    pub closed spec fn limit(&self) -> nat {
        self.limit as nat
    }

    pub fn new(limit: usize) -> (r: Self)
        ensures
            r.open() == 0,
            r.limit() == limit,
    {
        OpenFiles { open: 0, limit }
    }

    pub fn count(&self) -> (r: usize)
        ensures
            r == self.open(),
            r <= self.limit(),
    {
        proof {
            use_type_invariant(self);
        }
        self.open
    }

    /// Takes a place, unless all are taken.
    pub fn acquire(&mut self) -> (r: bool)
        ensures
            r == (old(self).open() < old(self).limit()),
            final(self).open() == old(self).open() + if r {
                1nat
            } else {
                0nat
            },
            final(self).limit() == old(self).limit(),
    {
        proof {
            use_type_invariant(&*self);
        }
        if self.open < self.limit {
            self.open = self.open + 1;
            true
        } else {
            false
        }
    }

    /// Gives a place back.
    pub fn release(&mut self)
        requires
            old(self).open() > 0,
        ensures
            final(self).open() == old(self).open() - 1,
            final(self).limit() == old(self).limit(),
    {
        proof {
            use_type_invariant(&*self);
        }
        self.open = self.open - 1;
    }
}

/// Resources shared by every sandbox built with these pools.
///
/// Build one per isolation domain: separate pools account for their handles independently.
#[derive(Debug)]
pub struct Pools {
    capacity: PoolCapacity,
    files: OpenFiles,
}

impl Pools {
    #[verifier::type_invariant]
    spec fn wf(self) -> bool {
        &&& self.files.limit() == self.capacity.open_files
        &&& enforced(self.capacity) == self.capacity
    }

    pub closed spec fn view(&self) -> PoolCapacity {
        self.capacity
    }

    pub closed spec fn open(&self) -> nat {
        self.files.open()
    }

    /// Builds pools with the given capacity, every field of it raised to at least one.
    pub fn new(capacity: PoolCapacity) -> (r: Self)
        ensures
            r@ == enforced(capacity),
            r.open() == 0,
    {
        let capacity = PoolCapacity {
            jq_workers: raised(capacity.jq_workers),
            js_workers: raised(capacity.js_workers),
            blocking_vfs_workers: raised(capacity.blocking_vfs_workers),
            open_files: raised(capacity.open_files),
            cleanup_threads: raised(capacity.cleanup_threads),
        };
        Pools { capacity, files: OpenFiles::new(capacity.open_files) }
    }

    /// Returns the capacity these pools enforce, after the minimum is applied.
    pub fn capacity(&self) -> (r: PoolCapacity)
        ensures
            r == self@,
            r.jq_workers > 0 && r.js_workers > 0 && r.blocking_vfs_workers > 0 && r.open_files > 0
                && r.cleanup_threads > 0,
    {
        proof {
            use_type_invariant(self);
        }
        self.capacity
    }

    /// Returns the handles currently open across every sharing sandbox.
    pub fn open_files(&self) -> (r: usize)
        ensures
            r == self.open(),
            r <= self@.open_files,
    {
        proof {
            use_type_invariant(self);
        }
        self.files.count()
    }

    pub fn acquire_file(&mut self) -> (r: bool)
        ensures
            r == (old(self).open() < old(self)@.open_files),
            final(self).open() == old(self).open() + if r {
                1nat
            } else {
                0nat
            },
            final(self)@ == old(self)@,
    {
        proof {
            use_type_invariant(&*self);
        }
        let mut swapped = Pools::new(self.capacity);
        std::mem::swap(self, &mut swapped);
        let Pools { capacity, mut files } = swapped;
        let r = files.acquire();
        *self = Pools { capacity, files };
        r
    }

    pub fn release_file(&mut self)
        requires
            old(self).open() > 0,
        ensures
            final(self).open() == old(self).open() - 1,
            final(self)@ == old(self)@,
    {
        proof {
            use_type_invariant(&*self);
        }
        let mut swapped = Pools::new(self.capacity);
        std::mem::swap(self, &mut swapped);
        let Pools { capacity, mut files } = swapped;
        files.release();
        *self = Pools { capacity, files };
    }
}

/// Reserves a handle in the pools and, within an execution, under its own ceiling. A reservation
/// that is refused leaves both as they were.
pub fn reserve(pools: &mut Pools, execution: Option<&mut OpenFiles>, cancelled: bool) -> (r: Result<
    (),
    VfsError,
>)
    ensures
        final(pools)@ == old(pools)@,
        final(pools).open() == old(pools).open() + if r.is_ok() {
            1nat
        } else {
            0nat
        },
        match execution {
            None => r == (if old(pools).open() < old(pools)@.open_files {
                Ok::<(), VfsError>(())
            } else {
                Err(VfsError { errno: Errno::ENOSPC })
            }),
            Some(files) => {
                &&& r == (if old(pools).open() >= old(pools)@.open_files {
                    Err::<(), VfsError>(VfsError { errno: Errno::ENOSPC })
                } else if cancelled {
                    Err(VfsError { errno: Errno::EIO })
                } else if files.open() >= files.limit() {
                    Err(VfsError { errno: Errno::ENOSPC })
                } else {
                    Ok(())
                })
                &&& final(files).limit() == files.limit()
                &&& final(files).open() == files.open() + if r.is_ok() {
                    1nat
                } else {
                    0nat
                }
            },
        },
{
    if !pools.acquire_file() {
        return Err(VfsError::new(Errno::ENOSPC));
    }
    match execution {
        None => Ok(()),
        Some(files) => {
            if cancelled {
                pools.release_file();
                return Err(VfsError::new(Errno::EIO));
            }
            if !files.acquire() {
                pools.release_file();
                return Err(VfsError::new(Errno::ENOSPC));
            }
            Ok(())
        },
    }
}

/// The handles that an execution has open.
#[derive(Debug)]
pub struct HandleTable {
    handles: Vec<u64>,
}

pub open spec fn ascending(s: Seq<u64>) -> bool {
    forall|i: int, j: int| 0 <= i < j < s.len() ==> s[i] < s[j]
}

impl HandleTable {
    #[verifier::type_invariant]
    spec fn wf(self) -> bool {
        ascending(self.handles@)
    }

    pub closed spec fn view(&self) -> Set<u64> {
        self.handles@.to_set()
    }

    pub fn new() -> (r: Self)
        ensures
            r@ == Set::<u64>::empty(),
    {
        let r = HandleTable { handles: Vec::new() };
        proof {
            assert(r@ =~= Set::<u64>::empty());
        }
        r
    }

    /// The place of a handle, or where it would go.
    fn place(handles: &Vec<u64>, handle: u64) -> (r: usize)
        requires
            ascending(handles@),
        ensures
            r <= handles@.len(),
            forall|i: int| 0 <= i < r ==> handles@[i] < handle,
            forall|i: int| r <= i < handles@.len() ==> handles@[i] >= handle,
    {
        let mut i: usize = 0;
        while i < handles.len() && handles[i] < handle
            invariant
                i <= handles@.len(),
                ascending(handles@),
                forall|j: int| 0 <= j < i ==> handles@[j] < handle,
            decreases handles@.len() - i,
        {
            i = i + 1;
        }
        i
    }

    /// Takes note of a handle that was opened.
    pub fn insert(&mut self, handle: u64)
        ensures
            final(self)@ == old(self)@.insert(handle),
    {
        proof {
            use_type_invariant(&*self);
        }
        let ghost before = self.handles@;
        let at = HandleTable::place(&self.handles, handle);
        if at < self.handles.len() && self.handles[at] == handle {
            proof {
                assert(before.to_set() =~= before.to_set().insert(handle)) by {
                    assert(before[at as int] == handle);
                }
            }
            return;
        }
        let mut swapped = HandleTable::new();
        std::mem::swap(self, &mut swapped);
        let HandleTable { mut handles } = swapped;
        handles.insert(at, handle);
        proof {
            let after = handles@;
            assert(after == before.insert(at as int, handle));
            assert(after.to_set() =~= before.to_set().insert(handle)) by {
                assert forall|h: u64| after.contains(h) <==> (before.contains(h) || h == handle) by {
                    if before.contains(h) {
                        let i = choose|i: int| 0 <= i < before.len() && before[i] == h;
                        if i < at {
                            assert(after[i] == h);
                        } else {
                            assert(after[i + 1] == h);
                        }
                    }
                    if h == handle {
                        assert(after[at as int] == h);
                    }
                    if after.contains(h) && h != handle {
                        let i = choose|i: int| 0 <= i < after.len() && after[i] == h;
                        if i < at {
                            assert(before[i] == h);
                        } else {
                            assert(before[i - 1] == h);
                        }
                    }
                }
            }
        }
        *self = HandleTable { handles };
    }

    /// Forgets a handle; one that is not there is refused.
    pub fn remove(&mut self, handle: u64) -> (r: Result<(), VfsError>)
        ensures
            r == (if old(self)@.contains(handle) {
                Ok::<(), VfsError>(())
            } else {
                Err(VfsError { errno: Errno::EBADF })
            }),
            final(self)@ == old(self)@.remove(handle),
    {
        proof {
            use_type_invariant(&*self);
        }
        let ghost before = self.handles@;
        let at = HandleTable::place(&self.handles, handle);
        if at >= self.handles.len() || self.handles[at] != handle {
            proof {
                assert(!before.contains(handle));
                assert(before.to_set() =~= before.to_set().remove(handle));
            }
            return Err(VfsError::new(Errno::EBADF));
        }
        proof {
            assert(before[at as int] == handle);
        }
        let mut swapped = HandleTable::new();
        std::mem::swap(self, &mut swapped);
        let HandleTable { mut handles } = swapped;
        let _ = handles.remove(at);
        proof {
            let after = handles@;
            assert(after == before.remove(at as int));
            assert(after.to_set() =~= before.to_set().remove(handle)) by {
                assert forall|h: u64| after.contains(h) <==> (before.contains(h) && h != handle) by {
                    if after.contains(h) {
                        let i = choose|i: int| 0 <= i < after.len() && after[i] == h;
                        if i < at {
                            assert(before[i] == h);
                        } else {
                            assert(before[i + 1] == h);
                        }
                    }
                    if before.contains(h) && h != handle {
                        let i = choose|i: int| 0 <= i < before.len() && before[i] == h;
                        if i < at {
                            assert(after[i] == h);
                        } else {
                            assert(after[i - 1] == h);
                        }
                    }
                }
            }
        }
        *self = HandleTable { handles };
        Ok(())
    }

    /// Forgets all handles, and gives each of them once, to be released.
    pub fn take_all(&mut self) -> (r: Vec<u64>)
        ensures
            final(self)@ == Set::<u64>::empty(),
            r@.to_set() == old(self)@,
            ascending(r@),
    {
        proof {
            use_type_invariant(&*self);
        }
        let mut swapped = HandleTable::new();
        std::mem::swap(self, &mut swapped);
        let HandleTable { handles } = swapped;
        handles
    }
}

/// Every ceiling admits something, and one that does is enforced as it is given.
pub proof fn law_ceilings_admit_something(capacity: PoolCapacity)
    ensures
        ({
            let held = enforced(capacity);
            &&& held.jq_workers > 0 && held.js_workers > 0 && held.blocking_vfs_workers > 0
            &&& held.open_files > 0 && held.cleanup_threads > 0
            &&& capacity.jq_workers > 0 ==> held.jq_workers == capacity.jq_workers
            &&& capacity.js_workers > 0 ==> held.js_workers == capacity.js_workers
            &&& capacity.blocking_vfs_workers > 0 ==> held.blocking_vfs_workers
                == capacity.blocking_vfs_workers
            &&& capacity.open_files > 0 ==> held.open_files == capacity.open_files
            &&& capacity.cleanup_threads > 0 ==> held.cleanup_threads == capacity.cleanup_threads
            &&& enforced(held) == held
        }),
{
}

} // verus!
