use vstd::prelude::*;
use vstd::string::StringExecFns;
use rand::Rng;
use crate::desc::{clone_opt_string, CommandDesc};
use crate::fingerprint::spec_fingerprint;
use crate::lock::{lock_idx, lock_name, FileLock, LockDir, LockFile};
use crate::record::Invocation;
use crate::NANOS_PER_SEC;

verus! {

/// One data file under `data/<ttl_seconds>/`: the TTL class it was stored
/// under, the record it holds, and its creation time (nanoseconds since the
/// epoch), which is the authoritative age of the entry.
#[verifier::ext_equal]
pub struct StoredData {
    pub ttl_secs: u64,
    pub record: Invocation,
    pub mtime: u64,
}

/// One key file under `keys/[<scope>/]<fingerprint>`: a symbolic link to a
/// data file, here by index. The target may be gone (a dangling link).
#[verifier::ext_equal]
pub struct KeyLink {
    pub scope: Option<String>,
    pub fingerprint: String,
    pub target: usize,
}

/// The on-disk state of one cache root: the data files (deleted ones leave
/// a `None` behind, so indices stay stable), the key links, the mtime of
/// the `last_cleanup` marker, and the lock files under the root.
#[verifier::ext_equal]
pub struct CacheFs {
    pub data: Vec<Option<StoredData>>,
    pub keys: Vec<KeyLink>,
    pub last_cleanup: Option<u64>,
    pub locks: LockDir,
}

/// The scope of a key, as a sequence.
pub open spec fn scope_view(s: Option<String>) -> Option<Seq<char>> {
    match s {
        Some(x) => Some(x@),
        None => None,
    }
}

/// The key link addresses this scope and fingerprint.
pub open spec fn key_matches(k: KeyLink, scope: Option<Seq<char>>, fp: Seq<char>) -> bool {
    scope_view(k.scope) == scope && k.fingerprint@ == fp
}

/// The position of the key for (scope, fingerprint), or -1 when absent.
pub open spec fn key_idx(keys: Seq<KeyLink>, scope: Option<Seq<char>>, fp: Seq<char>) -> int
    decreases keys.len(),
{
    if keys.len() == 0 {
        -1
    } else if key_matches(keys[0], scope, fp) {
        0
    } else {
        let r = key_idx(keys.skip(1), scope, fp);
        if r < 0 {
            -1
        } else {
            r + 1
        }
    }
}

pub proof fn lemma_key_idx(keys: Seq<KeyLink>, scope: Option<Seq<char>>, fp: Seq<char>)
    ensures
        -1 <= key_idx(keys, scope, fp) < keys.len(),
        key_idx(keys, scope, fp) >= 0 ==> key_matches(keys[key_idx(keys, scope, fp)], scope, fp),
        forall|j: int|
            0 <= j < key_idx(keys, scope, fp) ==> !key_matches(#[trigger] keys[j], scope, fp),
        key_idx(keys, scope, fp) == -1 ==> (forall|j: int|
            0 <= j < keys.len() ==> !key_matches(#[trigger] keys[j], scope, fp)),
    decreases keys.len(),
{
    if keys.len() > 0 && !key_matches(keys[0], scope, fp) {
        lemma_key_idx(keys.skip(1), scope, fp);
        assert forall|j: int| 0 <= j < keys.len() implies keys.skip(1).len() > j - 1 && (j >= 1
            ==> keys[j] == keys.skip(1)[j - 1]) by {}
    }
}

/// Publication is visible: in a key sequence where no two links address
/// the same scope and fingerprint, the search finds exactly the link that
/// a store has just written. With `lookup`'s contract this gives the
/// ordering guarantee that a store immediately followed by a lookup on
/// the same descriptor observes the store while the TTL window holds.
pub proof fn lemma_key_found(keys: Seq<KeyLink>, i: int, scope: Option<Seq<char>>, fp: Seq<char>)
    requires
        0 <= i < keys.len(),
        key_matches(keys[i], scope, fp),
        forall|a: int, b: int|
            0 <= a < b < keys.len() ==> !(scope_view(#[trigger] keys[a].scope) == scope_view(
                #[trigger] keys[b].scope,
            ) && keys[a].fingerprint@ == keys[b].fingerprint@),
    ensures
        key_idx(keys, scope, fp) == i,
{
    lemma_key_idx(keys, scope, fp);
    let idx = key_idx(keys, scope, fp);
    if idx < i {
        assert(key_matches(keys[idx], scope, fp));
    } else if idx > i {
        assert(!key_matches(keys[i], scope, fp));
    }
}

/// Scope isolation, first half: adding a key link under one scope never
/// changes which key a lookup under a different scope finds.
pub proof fn lemma_scope_isolation_push(
    keys: Seq<KeyLink>,
    k: KeyLink,
    scope: Option<Seq<char>>,
    fp: Seq<char>,
)
    requires
        scope_view(k.scope) != scope,
    ensures
        key_idx(keys.push(k), scope, fp) == key_idx(keys, scope, fp),
    decreases keys.len(),
{
    if keys.len() == 0 {
        assert(keys.push(k)[0] == k);
        assert(!key_matches(keys.push(k)[0], scope, fp));
        assert(keys.push(k).skip(1) =~= Seq::<KeyLink>::empty());
        assert(key_idx(keys.push(k).skip(1), scope, fp) == -1);
        assert(key_idx(keys.push(k), scope, fp) == -1);
    } else {
        assert(keys.push(k)[0] == keys[0]);
        assert(keys.push(k).skip(1) =~= keys.skip(1).push(k));
        lemma_scope_isolation_push(keys.skip(1), k, scope, fp);
        assert(key_idx(keys.push(k).skip(1), scope, fp) == key_idx(keys.skip(1), scope, fp));
    }
}

/// Scope isolation, second half: replacing the key link at a position held
/// by another scope with a link that is again under another scope never
/// changes which key a lookup under this scope finds.
pub proof fn lemma_scope_isolation_update(
    keys: Seq<KeyLink>,
    i: int,
    k: KeyLink,
    scope: Option<Seq<char>>,
    fp: Seq<char>,
)
    requires
        0 <= i < keys.len(),
        scope_view(keys[i].scope) != scope,
        scope_view(k.scope) != scope,
    ensures
        key_idx(keys.update(i, k), scope, fp) == key_idx(keys, scope, fp),
    decreases keys.len(),
{
    let u = keys.update(i, k);
    if i == 0 {
        assert(u[0] == k);
        assert(!key_matches(u[0], scope, fp) && !key_matches(keys[0], scope, fp));
        assert(u.skip(1) =~= keys.skip(1));
    } else {
        assert(u[0] == keys[0]);
        assert(u.skip(1) =~= keys.skip(1).update(i - 1, k));
        assert(keys.skip(1)[i - 1] == keys[i]);
        lemma_scope_isolation_update(keys.skip(1), i - 1, k, scope, fp);
    }
}

impl CacheFs {
    /// Invariants of the on-disk layout: every key link points below the
    /// data array's length, no two keys address the same scope and
    /// fingerprint, and lock file names are unique.
    pub open spec fn wf(&self) -> bool {
        &&& forall|i: int|
            0 <= i < self.keys@.len() ==> (#[trigger] self.keys@[i]).target < self.data@.len()
        &&& forall|i: int, j: int|
            0 <= i < j < self.keys@.len() ==> !(scope_view(#[trigger] self.keys@[i].scope)
                == scope_view(#[trigger] self.keys@[j].scope) && self.keys@[i].fingerprint@
                == self.keys@[j].fingerprint@)
        &&& self.locks.wf()
    }

    /// An empty cache root.
    pub fn empty() -> (r: CacheFs)
        ensures
            r.wf(),
            r.data@ == Seq::<Option<StoredData>>::empty(),
            r.keys@ == Seq::<KeyLink>::empty(),
            r.last_cleanup is None,
            r.locks.files@ == Seq::<LockFile>::empty(),
    {
        let r = CacheFs {
            data: Vec::new(),
            keys: Vec::new(),
            last_cleanup: None,
            locks: LockDir { files: Vec::new() },
        };
        proof {
            assert(r.data@ =~= Seq::<Option<StoredData>>::empty());
            assert(r.keys@ =~= Seq::<KeyLink>::empty());
            assert(r.locks.files@ =~= Seq::<LockFile>::empty());
        }
        r
    }
}

/// A scope is one path element: non-empty and without separators.
pub open spec fn valid_scope(s: Seq<char>) -> bool {
    s.len() > 0 && (forall|i: int| 0 <= i < s.len() ==> (#[trigger] s[i]) != '/')
}

/// A letter or digit of ASCII.
pub open spec fn is_alnum(c: char) -> bool {
    (97 <= c as u32 && c as u32 <= 122) || (65 <= c as u32 && c as u32 <= 90) || (48 <= c as u32
        && c as u32 <= 57)
}

/// What data file `d` leaves behind when swept at time `now`: deleted when
/// older than its own TTL class, kept otherwise (future mtimes are kept;
/// the clock may have moved).
pub open spec fn swept(d: Option<StoredData>, now: u64) -> Option<StoredData> {
    match d {
        None => None,
        Some(sd) => if now >= sd.mtime && now - sd.mtime > sd.ttl_secs * NANOS_PER_SEC {
            None
        } else {
            Some(sd)
        },
    }
}

/// The key links that survive dangling-link removal over scope `scope`:
/// a link is dropped exactly when it lies in the scope and its target is
/// gone in `data`.
pub open spec fn sweep_keys(
    keys: Seq<KeyLink>,
    data: Seq<Option<StoredData>>,
    scope: Option<Seq<char>>,
) -> Seq<KeyLink>
    decreases keys.len(),
{
    if keys.len() == 0 {
        Seq::empty()
    } else {
        let rest = sweep_keys(keys.drop_last(), data, scope);
        let k = keys.last();
        if scope_view(k.scope) == scope && data[k.target as int] is None {
            rest
        } else {
            rest.push(k)
        }
    }
}

/// Every surviving key link stood in the original key sequence.
pub proof fn lemma_sweep_keys_contains(
    keys: Seq<KeyLink>,
    data: Seq<Option<StoredData>>,
    scope: Option<Seq<char>>,
)
    ensures
        forall|m: int|
            0 <= m < sweep_keys(keys, data, scope).len() ==> keys.contains(
                #[trigger] sweep_keys(keys, data, scope)[m],
            ),
    decreases keys.len(),
{
    if keys.len() > 0 {
        let d = keys.drop_last();
        lemma_sweep_keys_contains(d, data, scope);
        let sw = sweep_keys(keys, data, scope);
        let swd = sweep_keys(d, data, scope);
        assert forall|m: int| 0 <= m < sw.len() implies keys.contains(#[trigger] sw[m]) by {
            if m < swd.len() {
                assert(sw[m] == swd[m]);
                assert(d.contains(swd[m]));
                let j = choose|j: int| 0 <= j < d.len() && d[j] == swd[m];
                assert(keys[j] == d[j]);
            } else {
                assert(sw[m] == keys.last());
                assert(keys[keys.len() - 1] == keys.last());
            }
        }
    }
}

/// Dangling-link removal keeps the layout invariants: targets stay in
/// range and no two surviving keys address the same scope and fingerprint.
pub proof fn lemma_sweep_keys_wf(
    keys: Seq<KeyLink>,
    data: Seq<Option<StoredData>>,
    scope: Option<Seq<char>>,
)
    requires
        forall|i: int| 0 <= i < keys.len() ==> (#[trigger] keys[i]).target < data.len(),
        forall|i: int, j: int|
            0 <= i < j < keys.len() ==> !(scope_view(#[trigger] keys[i].scope) == scope_view(
                #[trigger] keys[j].scope,
            ) && keys[i].fingerprint@ == keys[j].fingerprint@),
    ensures
        forall|i: int|
            0 <= i < sweep_keys(keys, data, scope).len() ==> (#[trigger] sweep_keys(
                keys,
                data,
                scope,
            )[i]).target < data.len(),
        forall|i: int, j: int|
            0 <= i < j < sweep_keys(keys, data, scope).len() ==> !(scope_view(
                #[trigger] sweep_keys(keys, data, scope)[i].scope,
            ) == scope_view(#[trigger] sweep_keys(keys, data, scope)[j].scope) && sweep_keys(
                keys,
                data,
                scope,
            )[i].fingerprint@ == sweep_keys(keys, data, scope)[j].fingerprint@),
    decreases keys.len(),
{
    if keys.len() > 0 {
        let d = keys.drop_last();
        assert forall|i: int| 0 <= i < d.len() implies (#[trigger] d[i]).target < data.len() by {
            assert(d[i] == keys[i]);
        }
        assert forall|i: int, j: int| 0 <= i < j < d.len() implies !(scope_view(
            #[trigger] d[i].scope,
        ) == scope_view(#[trigger] d[j].scope) && d[i].fingerprint@ == d[j].fingerprint@) by {
            assert(d[i] == keys[i] && d[j] == keys[j]);
        }
        lemma_sweep_keys_wf(d, data, scope);
        lemma_sweep_keys_contains(d, data, scope);
        let sw = sweep_keys(keys, data, scope);
        let swd = sweep_keys(d, data, scope);
        let k = keys.last();
        if !(scope_view(k.scope) == scope && data[k.target as int] is None) {
            assert(sw == swd.push(k));
            assert forall|i: int, j: int| 0 <= i < j < sw.len() implies !(scope_view(
                #[trigger] sw[i].scope,
            ) == scope_view(#[trigger] sw[j].scope) && sw[i].fingerprint@ == sw[j].fingerprint@) by {
                if j == sw.len() - 1 {
                    assert(sw[i] == swd[i]);
                    assert(sw[j] == k);
                    assert(d.contains(swd[i]));
                    let w = choose|w: int| 0 <= w < d.len() && d[w] == swd[i];
                    assert(keys[w] == d[w]);
                    assert(!(scope_view(keys[w].scope) == scope_view(
                        keys[keys.len() - 1].scope,
                    ) && keys[w].fingerprint@ == keys[keys.len() - 1].fingerprint@));
                } else {
                    assert(sw[i] == swd[i] && sw[j] == swd[j]);
                }
            }
            assert forall|i: int| 0 <= i < sw.len() implies (#[trigger] sw[i]).target
                < data.len() by {
                if i < swd.len() {
                    assert(sw[i] == swd[i]);
                } else {
                    assert(sw[i] == k);
                    assert(k == keys[keys.len() - 1]);
                }
            }
        }
    }
}

/// Relies on rand's thread_rng with the Alphanumeric distribution: sixteen
/// characters are drawn, each an ASCII letter or digit; nothing else is
/// assumed of a random value.
#[verifier::external_body]
fn random_alnum_suffix() -> (r: String)
    ensures
        r@.len() == 16,
        forall|i: int| 0 <= i < 16 ==> is_alnum(#[trigger] r@[i]),
{
    rand::thread_rng().sample_iter(&rand::distributions::Alphanumeric).take(16).map(
        char::from,
    ).collect()
}

/// Two-level on-disk store: a handle naming the cache root and the key
/// scope. Clones of the handle share the same state; the backing state is
/// the `CacheFs` each call operates on.
pub struct Cache {
    cache_dir: String,
    scope: Option<String>,
}

impl Cache {
    /// The cache root directory this handle addresses.
    pub closed spec fn spec_dir(&self) -> Seq<char> {
        self.cache_dir@
    }

    /// The scope this handle reads and writes keys under.
    pub closed spec fn spec_scope(&self) -> Option<Seq<char>> {
        scope_view(self.scope)
    }

    /// Builds a handle on a cache root, optionally scoped; a scope must be
    /// a single path element.
    pub fn new(cache_dir: String, scope: Option<String>) -> (r: Cache)
        requires
            match scope {
                Some(s) => valid_scope(s@),
                None => true,
            },
        ensures
            r.spec_dir() == cache_dir@,
            r.spec_scope() == scope_view(scope),
    {
        Cache { cache_dir, scope }
    }

    /// A second handle on the same root and scope.
    pub fn clone_cache(&self) -> (r: Cache)
        ensures
            r.spec_dir() == self.spec_dir(),
            r.spec_scope() == self.spec_scope(),
    {
        Cache { cache_dir: self.cache_dir.clone(), scope: clone_opt_string(&self.scope) }
    }

    /// The directory the key links live in: `keys/` under the root, plus
    /// the scope element if one is set.
    pub fn key_dir(&self) -> (r: String)
        ensures
            r@ == match self.spec_scope() {
                None => self.spec_dir() + "/keys"@,
                Some(s) => self.spec_dir() + "/keys"@ + "/"@ + s,
            },
    {
        let base = self.cache_dir.clone().concat("/keys");
        match &self.scope {
            None => base,
            Some(s) => base.concat("/").concat(s.as_str()),
        }
    }

    /// The directory the data files live in: `data/` under the root.
    pub fn data_dir(&self) -> (r: String)
        ensures
            r@ == self.spec_dir() + "/data"@,
    {
        self.cache_dir.clone().concat("/data")
    }

    /// Smallest whole number of seconds covering the duration; this names
    /// the TTL class directory an entry is stored under.
    pub fn seconds_ceiling(ttl: u64) -> (r: u64)
        ensures
            r == crate::spec_seconds_ceiling(ttl),
    {
        ttl / NANOS_PER_SEC + if ttl % NANOS_PER_SEC != 0 {
            1
        } else {
            0
        }
    }

    /// A fresh file path under `dir`: the label, a dot, and sixteen random
    /// alphanumeric characters.
    pub fn filename(dir: &str, label: &str) -> (r: String)
        ensures
            r@.len() == dir@.len() + label@.len() + 18,
            r@.subrange(0, dir@.len() + label@.len() + 2 as int) == dir@ + "/"@ + label@ + "."@,
            forall|i: int|
                dir@.len() + label@.len() + 2 <= i < r@.len() ==> is_alnum(#[trigger] r@[i]),
    {
        let sfx = random_alnum_suffix();
        let r = dir.to_owned().concat("/").concat(label).concat(".").concat(sfx.as_str());
        proof {
            reveal_strlit("/");
            reveal_strlit(".");
            assert(r@ == dir@ + "/"@ + label@ + "."@ + sfx@);
            assert(r@.subrange(0, dir@.len() + label@.len() + 2 as int) =~= dir@ + "/"@ + label@
                + "."@);
            assert forall|i: int| dir@.len() + label@.len() + 2 <= i < r@.len() implies is_alnum(
                #[trigger] r@[i],
            ) by {
                assert(r@[i] == sfx@[i - (dir@.len() + label@.len() + 2)]);
            }
        }
        r
    }

    /// Looks the descriptor up. Returns the stored record and its creation
    /// time; nothing when there is no key, when the target is gone, when
    /// the entry is older than `max_age` or from the future (then the key
    /// is deleted on the spot), or when a fingerprint collision stored a
    /// different descriptor (then the entry stays: the other key owns it).
    #[verifier::loop_isolation(false)]
    pub fn lookup(&self, fs: &mut CacheFs, command: &CommandDesc, max_age: u64, now: u64) -> (r:
        Option<(Invocation, u64)>)
        requires
            old(fs).wf(),
        ensures
            final(fs).wf(),
            final(fs).data@ == old(fs).data@,
            final(fs).last_cleanup == old(fs).last_cleanup,
            final(fs).locks.files@ == old(fs).locks.files@,
            ({
                let fp = spec_fingerprint(command@);
                let idx = key_idx(old(fs).keys@, self.spec_scope(), fp);
                &&& idx < 0 ==> r is None && final(fs).keys@ == old(fs).keys@
                &&& idx >= 0 ==> {
                    let tgt = old(fs).keys@[idx].target as int;
                    match old(fs).data@[tgt] {
                        None => r is None && final(fs).keys@ == old(fs).keys@,
                        Some(sd) => {
                            &&& (now < sd.mtime || now - sd.mtime > max_age) ==> r is None
                                && final(fs).keys@ == old(fs).keys@.remove(idx)
                            &&& !(now < sd.mtime || now - sd.mtime > max_age) && sd.record@.command
                                != command@ ==> r is None && final(fs).keys@ == old(fs).keys@
                            &&& !(now < sd.mtime || now - sd.mtime > max_age) && sd.record@.command
                                == command@ ==> (r matches Some(p) && p.0@ == sd.record@ && p.1
                                == sd.mtime && final(fs).keys@ == old(fs).keys@)
                        },
                    }
                }
            }),
    {
        let fp = command.cache_key();
        proof {
            lemma_key_idx(fs.keys@, self.spec_scope(), spec_fingerprint(command@));
        }
        let ghost gidx = key_idx(fs.keys@, self.spec_scope(), spec_fingerprint(command@));
        let mut i: usize = 0;
        loop
            invariant
                i <= fs.keys@.len(),
                *fs == *old(fs),
                forall|j: int|
                    0 <= j < i ==> !key_matches(
                        #[trigger] fs.keys@[j],
                        self.spec_scope(),
                        spec_fingerprint(command@),
                    ),
            decreases fs.keys@.len() - i,
        {
            if i >= fs.keys.len() {
                break ;
            }
            if scope_eq(&self.scope, &fs.keys[i].scope) && fs.keys[i].fingerprint == fp {
                proof {
                    assert(key_matches(fs.keys@[i as int], self.spec_scope(), spec_fingerprint(
                        command@,
                    )));
                    assert(!(gidx < i) && !(i < gidx));
                }
                let tgt = fs.keys[i].target;
                match &fs.data[tgt] {
                    None => {
                        return None;
                    },
                    Some(sd) => {
                        let m = sd.mtime;
                        if Cache::entry_expired(now, m, max_age) {
                            fs.keys.remove(i);
                            proof {
                                let nk = fs.keys@;
                                let ok = old(fs).keys@;
                                assert forall|a: int| 0 <= a < nk.len() implies (
                                #[trigger] nk[a]).target < fs.data@.len() by {
                                    if a < i {
                                        assert(nk[a] == ok[a]);
                                    } else {
                                        assert(nk[a] == ok[a + 1]);
                                    }
                                }
                                assert forall|a: int, b: int| 0 <= a < b < nk.len() implies !(
                                scope_view(#[trigger] nk[a].scope) == scope_view(
                                    #[trigger] nk[b].scope,
                                ) && nk[a].fingerprint@ == nk[b].fingerprint@) by {
                                    let aa = if a < i {
                                        a
                                    } else {
                                        a + 1
                                    };
                                    let bb = if b < i {
                                        b
                                    } else {
                                        b + 1
                                    };
                                    assert(nk[a] == ok[aa] && nk[b] == ok[bb]);
                                }
                            }
                            return None;
                        }
                        if !command.eq_desc(&sd.record.command) {
                            return None;
                        }
                        return Some((sd.record.clone_record(), m));
                    },
                }
            }
            i = i + 1;
        }
        proof {
            assert(gidx == -1);
        }
        None
    }

    /// Publishes a new entry: a fresh data file in the TTL class of `ttl`,
    /// then the key link for the record's descriptor is replaced (or
    /// created) to point at it. Readers of the key observe the previous
    /// target or the new one, never an absence.
    #[verifier::loop_isolation(false)]
    pub fn store(&self, fs: &mut CacheFs, inv: &Invocation, ttl: u64, now: u64)
        requires
            old(fs).wf(),
            ttl > 0,
        ensures
            final(fs).wf(),
            final(fs).last_cleanup == old(fs).last_cleanup,
            final(fs).locks.files@ == old(fs).locks.files@,
            final(fs).data@.len() == old(fs).data@.len() + 1,
            final(fs).data@.take(old(fs).data@.len() as int) == old(fs).data@,
            final(fs).data@.last() matches Some(sd) && sd.ttl_secs == crate::spec_seconds_ceiling(
                ttl,
            ) && sd.record@ == inv@ && sd.mtime == now,
            ({
                let fp = spec_fingerprint(inv@.command);
                let idx = key_idx(old(fs).keys@, self.spec_scope(), fp);
                &&& idx >= 0 ==> final(fs).keys@.len() == old(fs).keys@.len() && (forall|j: int|
                    0 <= j < old(fs).keys@.len() && j != idx ==> #[trigger] final(fs).keys@[j]
                        == old(fs).keys@[j]) && key_matches(
                    final(fs).keys@[idx],
                    self.spec_scope(),
                    fp,
                ) && final(fs).keys@[idx].target == old(fs).data@.len()
                &&& idx < 0 ==> final(fs).keys@.len() == old(fs).keys@.len() + 1
                    && final(fs).keys@.take(old(fs).keys@.len() as int) == old(fs).keys@
                    && key_matches(
                    final(fs).keys@.last(),
                    self.spec_scope(),
                    fp,
                ) && final(fs).keys@.last().target == old(fs).data@.len()
            }),
    {
        let fp = inv.command.cache_key();
        let ghost gfp = spec_fingerprint(inv@.command);
        fs.data.push(
            Some(
                StoredData {
                    ttl_secs: Cache::seconds_ceiling(ttl),
                    record: inv.clone_record(),
                    mtime: now,
                },
            ),
        );
        proof {
            assert(fs.data@.take(old(fs).data@.len() as int) =~= old(fs).data@);
            lemma_key_idx(fs.keys@, self.spec_scope(), gfp);
        }
        let ghost gidx = key_idx(fs.keys@, self.spec_scope(), gfp);
        let ghost data1 = fs.data@;
        let target = fs.data.len() - 1;
        let mut i: usize = 0;
        loop
            invariant
                i <= fs.keys@.len(),
                fs.keys@ == old(fs).keys@,
                fs.data@ == data1,
                fs.last_cleanup == old(fs).last_cleanup,
                fs.locks == old(fs).locks,
                fs.data@.len() == old(fs).data@.len() + 1,
                target == old(fs).data@.len(),
                forall|j: int|
                    0 <= j < i ==> !key_matches(#[trigger] fs.keys@[j], self.spec_scope(), gfp),
            decreases fs.keys@.len() - i,
        {
            if i >= fs.keys.len() {
                break ;
            }
            if scope_eq(&self.scope, &fs.keys[i].scope) && fs.keys[i].fingerprint == fp {
                proof {
                    assert(key_matches(fs.keys@[i as int], self.spec_scope(), gfp));
                    assert(!(gidx < i) && !(i < gidx));
                }
                let link = KeyLink {
                    scope: clone_opt_string(&self.scope),
                    fingerprint: fp,
                    target,
                };
                fs.keys.set(i, link);
                proof {
                    let nk = fs.keys@;
                    let ok = old(fs).keys@;
                    assert(key_matches(nk[i as int], self.spec_scope(), gfp));
                    assert forall|a: int| 0 <= a < nk.len() implies (#[trigger] nk[a]).target
                        < fs.data@.len() by {
                        if a != i {
                            assert(nk[a] == ok[a]);
                        }
                    }
                    assert forall|a: int, b: int| 0 <= a < b < nk.len() implies !(scope_view(
                        #[trigger] nk[a].scope,
                    ) == scope_view(#[trigger] nk[b].scope) && nk[a].fingerprint@
                        == nk[b].fingerprint@) by {
                        if a != i && b != i {
                            assert(nk[a] == ok[a] && nk[b] == ok[b]);
                        } else if a == i {
                            assert(nk[b] == ok[b]);
                            assert(key_matches(ok[i as int], self.spec_scope(), gfp));
                        } else {
                            assert(nk[a] == ok[a]);
                            assert(key_matches(ok[i as int], self.spec_scope(), gfp));
                        }
                    }
                }
                return ;
            }
            i = i + 1;
        }
        proof {
            assert(gidx == -1);
        }
        let link = KeyLink { scope: clone_opt_string(&self.scope), fingerprint: fp, target };
        fs.keys.push(link);
        proof {
            let nk = fs.keys@;
            let ok = old(fs).keys@;
            assert(nk.take(ok.len() as int) =~= ok);
            assert(key_matches(nk.last(), self.spec_scope(), gfp));
            assert forall|a: int| 0 <= a < nk.len() implies (#[trigger] nk[a]).target
                < fs.data@.len() by {
                if a < ok.len() {
                    assert(nk[a] == ok[a]);
                }
            }
            assert forall|a: int, b: int| 0 <= a < b < nk.len() implies !(scope_view(
                #[trigger] nk[a].scope,
            ) == scope_view(#[trigger] nk[b].scope) && nk[a].fingerprint@ == nk[b].fingerprint@) by {
                if b == nk.len() - 1 {
                    assert(nk[a] == ok[a]);
                    assert(!key_matches(ok[a], self.spec_scope(), gfp));
                } else {
                    assert(nk[a] == ok[a] && nk[b] == ok[b]);
                }
            }
        }
    }
}

/// A cleanup lock file older than ten minutes is considered stale.
pub const CLEANUP_LOCK_STALE: u64 = 600_000_000_000;

/// Cleanup passes less than thirty seconds apart are skipped.
pub const CLEANUP_RATE_LIMIT: u64 = 30_000_000_000;

/// Pushing a lock file whose name was absent and then removing that name
/// restores the original directory.
proof fn lemma_push_remove_id(files: Seq<LockFile>, l: LockFile)
    requires
        lock_idx(files, l.name@) == -1,
    ensures
        lock_idx(files.push(l), l.name@) == files.len(),
        files.push(l).remove(files.len() as int) == files,
{
    crate::lock::lemma_lock_idx(files, l.name@);
    crate::lock::lemma_lock_idx(files.push(l), l.name@);
    let idx = lock_idx(files.push(l), l.name@);
    assert(files.push(l)[files.len() as int].name@ == l.name@);
    if 0 <= idx < files.len() {
        assert(files.push(l)[idx] == files[idx]);
    }
    assert(files.push(l).remove(files.len() as int) =~= files);
}

impl Cache {
    /// The lookup eviction rule: an entry created at `mtime` is discarded
    /// at `now` when it is older than `max_age`, or lies in the future
    /// (the system clock moved).
    pub fn entry_expired(now: u64, mtime: u64, max_age: u64) -> (r: bool)
        ensures
            r == (now < mtime || now - mtime > max_age),
    {
        now < mtime || now - mtime > max_age
    }

    /// The sweep rule of cleanup's first phase: a data file of TTL class
    /// `ttl_secs` created at `mtime` is deleted at `now` exactly when
    /// `swept` says so.
    pub fn data_file_expired(now: u64, mtime: u64, ttl_secs: u64) -> (r: bool)
        ensures
            r == (now >= mtime && now - mtime > ttl_secs * NANOS_PER_SEC),
            r == (swept(Some(StoredData { ttl_secs, record: arbitrary(), mtime }), now) is None),
    {
        now >= mtime && ((now - mtime) as u128) > (ttl_secs as u128) * (NANOS_PER_SEC as u128)
    }

    /// The rate-limit rule: a cleanup pass runs only when no pass has run
    /// in the last thirty seconds.
    pub fn cleanup_due(last_cleanup: Option<u64>, now: u64) -> (r: bool)
        ensures
            r == !(match last_cleanup {
                Some(t) => now < t || now - t < CLEANUP_RATE_LIMIT,
                None => false,
            }),
    {
        match last_cleanup {
            None => true,
            Some(t) => !(now < t || now - t < CLEANUP_RATE_LIMIT),
        }
    }

    /// One best-effort, idempotent cleanup pass over the cache root.
    ///
    /// When another worker holds a fresh cleanup lock, or a pass ran less
    /// than thirty seconds ago, nothing changes; a stale cleanup lock
    /// fails the call and names the holding process, for an operator to
    /// resolve by hand. Otherwise the `last_cleanup` marker is reset and
    /// two phases run: first every data file older than its own TTL class
    /// is deleted; then every key link of this handle's scope whose target
    /// is gone is deleted. Other scopes' dangling keys are left for those
    /// scopes' own passes. The lock is released on every path.
    #[verifier::loop_isolation(false)]
    pub fn cleanup(&self, fs: &mut CacheFs, now: u64, pid: u64) -> (r: Result<(), u64>)
        requires
            old(fs).wf(),
        ensures
            final(fs).wf(),
            final(fs).locks.files@ == old(fs).locks.files@,
            ({
                let idx = lock_idx(old(fs).locks.files@, lock_name("cleanup"@));
                let limited = match old(fs).last_cleanup {
                    Some(t) => now < t || now - t < CLEANUP_RATE_LIMIT,
                    None => false,
                };
                &&& idx >= 0 ==> {
                    let held = old(fs).locks.files@[idx];
                    &&& final(fs).data@ == old(fs).data@
                    &&& final(fs).keys@ == old(fs).keys@
                    &&& final(fs).last_cleanup == old(fs).last_cleanup
                    &&& if now >= held.mtime && now - held.mtime > CLEANUP_LOCK_STALE {
                        r matches Err(p) && p == held.pid
                    } else {
                        r is Ok
                    }
                }
                &&& idx < 0 && limited ==> r is Ok && final(fs).data@ == old(fs).data@
                    && final(fs).keys@ == old(fs).keys@ && final(fs).last_cleanup == old(
                    fs,
                ).last_cleanup
                &&& idx < 0 && !limited ==> {
                    &&& r is Ok
                    &&& final(fs).last_cleanup == Some(now)
                    &&& final(fs).data@ == old(fs).data@.map_values(
                        |d: Option<StoredData>| swept(d, now),
                    )
                    &&& final(fs).keys@ == sweep_keys(
                        old(fs).keys@,
                        old(fs).data@.map_values(|d: Option<StoredData>| swept(d, now)),
                        self.spec_scope(),
                    )
                }
            }),
    {
        proof {
            crate::lock::lemma_lock_idx(fs.locks.files@, lock_name("cleanup"@));
        }
        let lock = match FileLock::try_acquire(
            &mut fs.locks,
            "cleanup",
            CLEANUP_LOCK_STALE,
            now,
            pid,
        ) {
            Err(p) => {
                return Err(p);
            },
            Ok(None) => {
                return Ok(());
            },
            Ok(Some(l)) => l,
        };
        let ghost locks0 = old(fs).locks.files@;
        let ghost locks1 = fs.locks.files@;
        proof {
            assert(locks1.len() == locks0.len() + 1);
            assert(locks1.take(locks0.len() as int) == locks0);
            assert(locks1 =~= locks0.push(locks1.last()));
            lemma_push_remove_id(locks0, locks1.last());
        }
        if !Cache::cleanup_due(fs.last_cleanup, now) {
            lock.release(&mut fs.locks);
            proof {
                assert(fs.locks.files@ == locks0);
            }
            return Ok(());
        }
        fs.last_cleanup = Some(now);
        let n = fs.data.len();
        let mut i: usize = 0;
        while i < n
            invariant
                i <= n,
                n == fs.data@.len(),
                fs.data@.len() == old(fs).data@.len(),
                fs.keys@ == old(fs).keys@,
                fs.last_cleanup == Some(now),
                fs.locks.files@ == locks1,
                fs.locks.wf(),
                forall|j: int| 0 <= j < i ==> fs.data@[j] == swept(old(fs).data@[j], now),
                forall|j: int| i <= j < n ==> fs.data@[j] == old(fs).data@[j],
            decreases n - i,
        {
            let stale = match &fs.data[i] {
                None => false,
                Some(sd) => Cache::data_file_expired(now, sd.mtime, sd.ttl_secs),
            };
            if stale {
                fs.data.set(i, None);
            }
            i = i + 1;
        }
        proof {
            assert(fs.data@ =~= old(fs).data@.map_values(|d: Option<StoredData>| swept(d, now)));
        }
        let ghost data2 = fs.data@;
        let mut kept: Vec<KeyLink> = Vec::new();
        let mut k: usize = 0;
        let nk = fs.keys.len();
        proof {
            assert(kept@ =~= sweep_keys(fs.keys@.take(0), data2, self.spec_scope()));
        }
        while k < nk
            invariant
                k <= nk,
                nk == fs.keys@.len(),
                fs.keys@ == old(fs).keys@,
                fs.data@ == data2,
                fs.data@.len() == old(fs).data@.len(),
                fs.last_cleanup == Some(now),
                fs.locks.files@ == locks1,
                fs.locks.wf(),
                kept@ == sweep_keys(fs.keys@.take(k as int), data2, self.spec_scope()),
            decreases nk - k,
        {
            let tgt = fs.keys[k].target;
            proof {
                assert(old(fs).keys@[k as int].target < old(fs).data@.len());
            }
            let dangling = fs.data[tgt].is_none();
            let scoped = scope_eq(&self.scope, &fs.keys[k].scope);
            proof {
                assert(fs.keys@.take(k as int + 1).drop_last() =~= fs.keys@.take(k as int));
                assert(fs.keys@.take(k as int + 1).last() == fs.keys@[k as int]);
            }
            if !(scoped && dangling) {
                let link = KeyLink {
                    scope: clone_opt_string(&fs.keys[k].scope),
                    fingerprint: fs.keys[k].fingerprint.clone(),
                    target: tgt,
                };
                proof {
                    assert(link =~= fs.keys@[k as int]);
                }
                kept.push(link);
            }
            k = k + 1;
        }
        proof {
            assert(fs.keys@.take(nk as int) =~= fs.keys@);
        }
        fs.keys = kept;
        proof {
            lemma_sweep_keys_wf(old(fs).keys@, data2, self.spec_scope());
        }
        lock.release(&mut fs.locks);
        proof {
            assert(fs.locks.files@ == locks0);
        }
        Ok(())
    }
}

/// Compares two optional scopes by value.
fn scope_eq(a: &Option<String>, b: &Option<String>) -> (r: bool)
    ensures
        r == (scope_view(*a) == scope_view(*b)),
{
    match (a, b) {
        (None, None) => true,
        (Some(x), Some(y)) => *x == *y,
        _ => false,
    }
}

} // verus!
