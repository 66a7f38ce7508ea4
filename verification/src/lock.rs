use vstd::prelude::*;
use vstd::string::StringExecFns;

verus! {

/// One lock file: its file name (with the `.lock` extension), the time it
/// was created, and the process identifier written into it.
pub struct LockFile {
    pub name: String,
    pub mtime: u64,
    pub pid: u64,
}

/// The lock files present in one directory.
pub struct LockDir {
    pub files: Vec<LockFile>,
}

/// An acquired advisory lock: the handle remembers the file it must remove
/// on release.
pub struct FileLock {
    pub lock_file: String,
}

/// The file name of the lock called `name`.
pub open spec fn lock_name(name: Seq<char>) -> Seq<char> {
    name + ".lock"@
}

/// The position of the lock file called `fname`, or -1 when absent.
pub open spec fn lock_idx(files: Seq<LockFile>, fname: Seq<char>) -> int
    decreases files.len(),
{
    if files.len() == 0 {
        -1
    } else if files[0].name@ == fname {
        0
    } else {
        let r = lock_idx(files.skip(1), fname);
        if r < 0 {
            -1
        } else {
            r + 1
        }
    }
}

/// A lock file of that name exists.
pub open spec fn holds_lock(files: Seq<LockFile>, fname: Seq<char>) -> bool {
    lock_idx(files, fname) >= 0
}

pub proof fn lemma_lock_idx(files: Seq<LockFile>, fname: Seq<char>)
    ensures
        -1 <= lock_idx(files, fname) < files.len(),
        lock_idx(files, fname) >= 0 ==> files[lock_idx(files, fname)].name@ == fname,
        forall|j: int| 0 <= j < lock_idx(files, fname) ==> (#[trigger] files[j]).name@ != fname,
        lock_idx(files, fname) == -1 ==> (forall|j: int|
            0 <= j < files.len() ==> (#[trigger] files[j]).name@ != fname),
    decreases files.len(),
{
    if files.len() > 0 && files[0].name@ != fname {
        lemma_lock_idx(files.skip(1), fname);
        assert forall|j: int| 0 <= j < files.len() implies files.skip(1).len() > j - 1 && (j >= 1
            ==> files[j] == files.skip(1)[j - 1]) by {}
    }
}

impl LockDir {
    /// No two lock files share a name.
    pub open spec fn wf(&self) -> bool {
        forall|i: int, j: int|
            0 <= i < j < self.files@.len() ==> (#[trigger] self.files@[i]).name@ != (
            #[trigger] self.files@[j]).name@
    }
}

impl FileLock {
    /// A lock file created at `mtime` is stale at `now` when it is older
    /// than `consider_stale`; a file from the future is not stale (the
    /// clock may have moved).
    pub fn lock_is_stale(now: u64, mtime: u64, consider_stale: u64) -> (r: bool)
        ensures
            r == (now >= mtime && now - mtime > consider_stale),
    {
        now >= mtime && now - mtime > consider_stale
    }

    /// Tries to create `<name>.lock` with exclusive-create semantics.
    ///
    /// When no such file exists the lock is acquired: the file is created
    /// with the caller's process identifier and the current time, and a
    /// handle is returned. When the file exists and is no older than
    /// `consider_stale`, the lock is held elsewhere and nothing is
    /// returned; when it is older, the call fails and names the holding
    /// process, for an operator to resolve by hand.
    #[verifier::loop_isolation(false)]
    pub fn try_acquire(
        dir: &mut LockDir,
        name: &str,
        consider_stale: u64,
        now: u64,
        pid: u64,
    ) -> (r: Result<Option<FileLock>, u64>)
        requires
            old(dir).wf(),
        ensures
            final(dir).wf(),
            ({
                let fname = lock_name(name@);
                let idx = lock_idx(old(dir).files@, fname);
                if idx < 0 {
                    &&& r matches Ok(Some(l)) && l.lock_file@ == fname
                    &&& final(dir).files@.len() == old(dir).files@.len() + 1
                    &&& final(dir).files@.take(old(dir).files@.len() as int) == old(dir).files@
                    &&& final(dir).files@.last().name@ == fname
                    &&& final(dir).files@.last().mtime == now
                    &&& final(dir).files@.last().pid == pid
                } else {
                    let held = old(dir).files@[idx];
                    &&& final(dir).files@ == old(dir).files@
                    &&& if now >= held.mtime && now - held.mtime > consider_stale {
                        r matches Err(p) && p == held.pid
                    } else {
                        r matches Ok(o) && o is None
                    }
                }
            }),
    {
        let fname = name.to_owned().concat(".lock");
        proof {
            lemma_lock_idx(dir.files@, fname@);
        }
        let ghost idx = lock_idx(dir.files@, fname@);
        let mut i: usize = 0;
        loop
            invariant
                i <= dir.files@.len(),
                forall|j: int| 0 <= j < i ==> (#[trigger] dir.files@[j]).name@ != fname@,
            decreases dir.files@.len() - i,
        {
            if i >= dir.files.len() {
                break ;
            }
            if dir.files[i].name == fname {
                proof {
                    assert(idx >= 0);
                    assert(!(idx < i) && !(i < idx));
                }
                let held_mtime = dir.files[i].mtime;
                let held_pid = dir.files[i].pid;
                if FileLock::lock_is_stale(now, held_mtime, consider_stale) {
                    return Err(held_pid);
                }
                return Ok(None);
            }
            i = i + 1;
        }
        proof {
            assert(idx == -1);
        }
        let handle_name = fname.clone();
        dir.files.push(LockFile { name: fname, mtime: now, pid });
        proof {
            assert(final(dir).files@.take(old(dir).files@.len() as int) =~= old(dir).files@);
        }
        Ok(Some(FileLock { lock_file: handle_name }))
    }

    /// Removes the lock file; afterwards no lock file of that name exists.
    #[verifier::loop_isolation(false)]
    pub fn release(self, dir: &mut LockDir)
        requires
            old(dir).wf(),
        ensures
            final(dir).wf(),
            !holds_lock(final(dir).files@, self.lock_file@),
            ({
                let idx = lock_idx(old(dir).files@, self.lock_file@);
                if idx < 0 {
                    final(dir).files@ == old(dir).files@
                } else {
                    final(dir).files@ == old(dir).files@.remove(idx)
                }
            }),
    {
        proof {
            lemma_lock_idx(dir.files@, self.lock_file@);
        }
        let ghost idx = lock_idx(dir.files@, self.lock_file@);
        let mut i: usize = 0;
        loop
            invariant
                i <= dir.files@.len(),
                dir.files@ == old(dir).files@,
                forall|j: int| 0 <= j < i ==> (#[trigger] dir.files@[j]).name@ != self.lock_file@,
            decreases dir.files@.len() - i,
        {
            if i >= dir.files.len() {
                break ;
            }
            if dir.files[i].name == self.lock_file {
                proof {
                    assert(idx >= 0);
                    assert(!(idx < i) && !(i < idx));
                }
                dir.files.remove(i);
                proof {
                    let nf = dir.files@;
                    let of = old(dir).files@;
                    assert forall|m: int| 0 <= m < nf.len() implies (#[trigger] nf[m]).name@
                        != self.lock_file@ by {
                        if m < i {
                            assert(nf[m] == of[m]);
                        } else {
                            assert(nf[m] == of[m + 1]);
                        }
                    }
                    lemma_lock_idx(nf, self.lock_file@);
                    if lock_idx(nf, self.lock_file@) >= 0 {
                        assert(nf[lock_idx(nf, self.lock_file@)].name@ == self.lock_file@);
                    }
                }
                return ;
            }
            i = i + 1;
        }
        proof {
            assert(idx == -1);
            lemma_lock_idx(dir.files@, self.lock_file@);
        }
    }
}

/// Lock exclusivity: a successful acquisition leaves its lock file in the
/// directory, so by `try_acquire`'s contract a second attempt on the same
/// name can never acquire while the file stands; once `release` has run,
/// no file of the name remains and a further attempt finds the name free.
pub proof fn lemma_lock_exclusive(before: Seq<LockFile>, after: Seq<LockFile>, fname: Seq<char>)
    requires
        after.len() == before.len() + 1,
        after.take(before.len() as int) == before,
        after.last().name@ == fname,
    ensures
        holds_lock(after, fname),
{
    lemma_lock_idx(after, fname);
    assert(after[after.len() - 1].name@ == fname);
}

} // verus!
