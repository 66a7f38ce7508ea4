use vstd::prelude::*;
use vstd::string::StringExecFns;
use crate::cache::{
    key_idx, key_matches, swept, sweep_keys, valid_scope, Cache, CacheFs, StoredData,
    CLEANUP_LOCK_STALE, CLEANUP_RATE_LIMIT,
};
use crate::lock::{lock_idx, lock_name};
use crate::desc::CommandDesc;
use crate::fingerprint::spec_fingerprint;
use crate::record::Invocation;

verus! {

/// The exit status reported for a child that ended without a numeric exit
/// code, for example on a signal.
pub const DEFAULT_EXIT_STATUS: i32 = 126;

/// Binds a cache handle to an execution policy. The embedder performs the
/// subprocess launches and hands the captured results back; every decision
/// in between — hit or miss, ages, what is stored — is made here.
pub struct Bkt {
    cache: Cache,
}

impl Bkt {
    /// The cache root directory this orchestrator uses.
    pub closed spec fn spec_cache_dir(&self) -> Seq<char> {
        self.cache.spec_dir()
    }

    /// The key scope this orchestrator uses.
    pub closed spec fn spec_scope(&self) -> Option<Seq<char>> {
        self.cache.spec_scope()
    }

    /// An orchestrator over the default, unscoped cache root.
    pub fn new() -> (r: Bkt)
        ensures
            r.spec_cache_dir() == "bkt-0.1-cache"@,
            r.spec_scope() is None,
    {
        Bkt::create(None, None)
    }

    /// An orchestrator over the default cache root, scoped.
    pub fn scoped(scope: &str) -> (r: Bkt)
        requires
            valid_scope(scope@),
        ensures
            r.spec_cache_dir() == "bkt-0.1-cache"@,
            r.spec_scope() == Some(scope@),
    {
        Bkt::create(None, Some(scope.to_owned()))
    }

    /// An orchestrator over a chosen root and scope. The effective cache
    /// directory carries the build's major and minor version in its name,
    /// so a version bump starts from a fresh cache. When no root is given
    /// the directory is relative; the embedder resolves it against the
    /// system temporary directory.
    pub fn create(root_dir: Option<String>, scope: Option<String>) -> (r: Bkt)
        requires
            match scope {
                Some(s) => valid_scope(s@),
                None => true,
            },
        ensures
            r.spec_cache_dir() == match root_dir {
                Some(rd) => rd@ + "/bkt-0.1-cache"@,
                None => "bkt-0.1-cache"@,
            },
            r.spec_scope() == crate::cache::scope_view(scope),
    {
        let dir = match root_dir {
            Some(rd) => rd.concat("/bkt-0.1-cache"),
            None => "bkt-0.1-cache".to_owned(),
        };
        proof {
            reveal_strlit("bkt-0.1-cache");
            reveal_strlit("/bkt-0.1-cache");
        }
        Bkt { cache: Cache::new(dir, scope) }
    }

    /// The cache handle this orchestrator drives.
    pub fn cache(&self) -> (r: &Cache)
        ensures
            r.spec_dir() == self.spec_cache_dir(),
            r.spec_scope() == self.spec_scope(),
    {
        &self.cache
    }

    /// The cached half of an execution: consults the cache and, on a hit,
    /// returns the stored record together with the entry's age. A miss
    /// returns nothing; the embedder then runs the subprocess and records
    /// the result. An entry older than `ttl` counts as a miss and is
    /// evicted on the spot.
    pub fn execute_cached(&self, fs: &mut CacheFs, command: &CommandDesc, ttl: u64, now: u64) -> (r:
        Option<(Invocation, u64)>)
        requires
            old(fs).wf(),
        ensures
            final(fs).wf(),
            final(fs).data@ == old(fs).data@,
            final(fs).last_cleanup == old(fs).last_cleanup,
            final(fs).locks.files@ == old(fs).locks.files@,
            ({
                let fp = spec_fingerprint(command@);
                let idx = key_idx(old(fs).keys@, self.spec_scope(), fp);
                &&& idx < 0 ==> r is None && final(fs).keys@ == old(fs).keys@
                &&& idx >= 0 ==> {
                    let tgt = old(fs).keys@[idx].target as int;
                    match old(fs).data@[tgt] {
                        None => r is None && final(fs).keys@ == old(fs).keys@,
                        Some(sd) => {
                            &&& (now < sd.mtime || now - sd.mtime > ttl) ==> r is None
                                && final(fs).keys@ == old(fs).keys@.remove(idx)
                            &&& !(now < sd.mtime || now - sd.mtime > ttl) && sd.record@.command
                                != command@ ==> r is None && final(fs).keys@ == old(fs).keys@
                            &&& !(now < sd.mtime || now - sd.mtime > ttl) && sd.record@.command
                                == command@ ==> (r matches Some(p) && p.0@ == sd.record@ && p.1
                                == now - sd.mtime && final(fs).keys@ == old(fs).keys@)
                        },
                    }
                }
            }),
    {
        match self.cache.lookup(fs, command, ttl, now) {
            None => None,
            Some((record, mtime)) => Some((record, now - mtime)),
        }
    }

    /// The recording half of an execution: stores a freshly captured
    /// result under `ttl` and returns it with age zero.
    pub fn record_result(&self, fs: &mut CacheFs, inv: &Invocation, ttl: u64, now: u64) -> (r: (
        Invocation,
        u64,
    ))
        requires
            old(fs).wf(),
            ttl > 0,
        ensures
            final(fs).wf(),
            r.0@ == inv@,
            r.1 == 0,
            final(fs).last_cleanup == old(fs).last_cleanup,
            final(fs).locks.files@ == old(fs).locks.files@,
            final(fs).data@.len() == old(fs).data@.len() + 1,
            final(fs).data@.take(old(fs).data@.len() as int) == old(fs).data@,
            final(fs).data@.last() matches Some(sd) && sd.ttl_secs == crate::spec_seconds_ceiling(
                ttl,
            ) && sd.record@ == inv@ && sd.mtime == now,
            ({
                let fp = spec_fingerprint(inv@.command);
                let idx = key_idx(old(fs).keys@, self.spec_scope(), fp);
                &&& idx >= 0 ==> final(fs).keys@.len() == old(fs).keys@.len() && (forall|j: int|
                    0 <= j < old(fs).keys@.len() && j != idx ==> #[trigger] final(fs).keys@[j]
                        == old(fs).keys@[j]) && key_matches(
                    final(fs).keys@[idx],
                    self.spec_scope(),
                    fp,
                ) && final(fs).keys@[idx].target == old(fs).data@.len()
                &&& idx < 0 ==> final(fs).keys@.len() == old(fs).keys@.len() + 1
                    && final(fs).keys@.take(old(fs).keys@.len() as int) == old(fs).keys@
                    && key_matches(final(fs).keys@.last(), self.spec_scope(), fp)
                    && final(fs).keys@.last().target == old(fs).data@.len()
            }),
    {
        self.cache.store(fs, inv, ttl, now);
        (inv.clone_record(), 0)
    }

    /// One cleanup pass, as the background workers run it: a fresh lock
    /// held elsewhere or a recent pass leaves everything unchanged; a
    /// stale cleanup lock fails the pass and names the holding process
    /// (background hooks log this rather than fail the caller); otherwise
    /// the marker is reset, stale data files are deleted, and this scope's
    /// dangling key links are removed.
    pub fn cleanup_pass(&self, fs: &mut CacheFs, now: u64, pid: u64) -> (r: Result<(), u64>)
        requires
            old(fs).wf(),
        ensures
            final(fs).wf(),
            final(fs).locks.files@ == old(fs).locks.files@,
            ({
                let idx = lock_idx(old(fs).locks.files@, lock_name("cleanup"@));
                let limited = match old(fs).last_cleanup {
                    Some(t) => now < t || now - t < CLEANUP_RATE_LIMIT,
                    None => false,
                };
                &&& idx >= 0 ==> {
                    let held = old(fs).locks.files@[idx];
                    &&& final(fs).data@ == old(fs).data@
                    &&& final(fs).keys@ == old(fs).keys@
                    &&& final(fs).last_cleanup == old(fs).last_cleanup
                    &&& if now >= held.mtime && now - held.mtime > CLEANUP_LOCK_STALE {
                        r matches Err(p) && p == held.pid
                    } else {
                        r is Ok
                    }
                }
                &&& idx < 0 && limited ==> r is Ok && final(fs).data@ == old(fs).data@
                    && final(fs).keys@ == old(fs).keys@ && final(fs).last_cleanup == old(
                    fs,
                ).last_cleanup
                &&& idx < 0 && !limited ==> {
                    &&& r is Ok
                    &&& final(fs).last_cleanup == Some(now)
                    &&& final(fs).data@ == old(fs).data@.map_values(
                        |d: Option<StoredData>| swept(d, now),
                    )
                    &&& final(fs).keys@ == sweep_keys(
                        old(fs).keys@,
                        old(fs).data@.map_values(|d: Option<StoredData>| swept(d, now)),
                        self.spec_scope(),
                    )
                }
            }),
    {
        self.cache.cleanup(fs, now, pid)
    }

    /// The exit status of a finished child: its own code when it has one,
    /// the default otherwise.
    pub fn exit_status_or_default(code: Option<i32>) -> (r: i32)
        ensures
            r == match code {
                Some(c) => c,
                None => DEFAULT_EXIT_STATUS,
            },
    {
        match code {
            Some(c) => c,
            None => DEFAULT_EXIT_STATUS,
        }
    }

    /// Assembles the record of one finished subprocess from what the
    /// embedder captured.
    pub fn capture_invocation(
        command: &CommandDesc,
        stdout: Vec<u8>,
        stderr: Vec<u8>,
        code: Option<i32>,
        runtime: u64,
    ) -> (r: Invocation)
        ensures
            r@.command == command@,
            r@.stdout == stdout@,
            r@.stderr == stderr@,
            r@.status == match code {
                Some(c) => c,
                None => DEFAULT_EXIT_STATUS,
            },
            r@.runtime == runtime,
    {
        Invocation::new(
            command.clone_desc(),
            stdout,
            stderr,
            Bkt::exit_status_or_default(code),
            runtime,
        )
    }
}

} // verus!
