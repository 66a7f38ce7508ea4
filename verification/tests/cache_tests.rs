use bkt::cache::{Cache, CacheFs};
use bkt::desc::CommandDesc;
use bkt::record::Invocation;

const SEC: u64 = 1_000_000_000;

fn desc(args: &[&str]) -> CommandDesc {
    CommandDesc::new(args.iter().map(|s| s.to_string()).collect())
}

fn inv(cmd: &CommandDesc, stdout: &str) -> Invocation {
    Invocation::new(
        cmd.clone_desc(),
        stdout.as_bytes().to_vec(),
        Vec::new(),
        0,
        0,
    )
}

#[test]
fn cache() {
    let mut fs = CacheFs::empty();
    let cmd = desc(&["foo"]);
    let inv = inv(&cmd, "A");
    let cache = Cache::new("root".to_string(), None);

    let absent = cache.lookup(&mut fs, &cmd, 100 * SEC, 1_000 * SEC);
    assert!(absent.is_none());

    cache.store(&mut fs, &inv, 100 * SEC, 1_000 * SEC);
    let present = cache.lookup(&mut fs, &cmd, 100 * SEC, 1_000 * SEC);
    assert_eq!(present.unwrap().0.stdout_utf8(), "A");
}

#[test]
fn lookup_ttls() {
    let mut fs = CacheFs::empty();
    let cmd = desc(&["foo"]);
    let inv = inv(&cmd, "A");
    let cache = Cache::new("root".to_string(), None);

    // store duration doesn't affect lookups
    cache.store(&mut fs, &inv, 5 * SEC, 1_000 * SEC);
    let aged = 1_000 * SEC + 15 * SEC;

    // data is still present until a cleanup iteration runs, or a lookup() invalidates it
    let present = cache.lookup(&mut fs, &cmd, 20 * SEC, aged);
    assert_eq!(present.unwrap().0.stdout_utf8(), "A");
    // lookup() finds stale data, deletes it
    let absent = cache.lookup(&mut fs, &cmd, 10 * SEC, aged);
    assert!(absent.is_none());
    // now data is gone, even though this lookup() would have accepted it
    let absent = cache.lookup(&mut fs, &cmd, 20 * SEC, aged);
    assert!(absent.is_none());
}

#[test]
fn scoped() {
    let mut fs = CacheFs::empty();
    let cmd = desc(&["foo"]);
    let inv_a = inv(&cmd, "A");
    let inv_b = inv(&cmd, "B");
    let cache = Cache::new("root".to_string(), None);
    let cache_scoped = Cache::new("root".to_string(), Some("scope".to_string()));

    cache.store(&mut fs, &inv_a, 100 * SEC, 1_000 * SEC);
    cache_scoped.store(&mut fs, &inv_b, 100 * SEC, 1_000 * SEC);

    let present = cache.lookup(&mut fs, &cmd, 20 * SEC, 1_000 * SEC);
    assert_eq!(present.unwrap().0.stdout_utf8(), "A");
    let present_scoped = cache_scoped.lookup(&mut fs, &cmd, 20 * SEC, 1_000 * SEC);
    assert_eq!(present_scoped.unwrap().0.stdout_utf8(), "B");
}

#[test]
fn cleanup() {
    let mut fs = CacheFs::empty();
    let cmd = desc(&["foo"]);
    let inv = inv(&cmd, "A");
    let cache = Cache::new("root".to_string(), None);

    cache.store(&mut fs, &inv, 5 * SEC, 1_000 * SEC);
    cache.cleanup(&mut fs, 1_000 * SEC + 10 * SEC, 7).unwrap();

    // keys and data dirs are now empty; only the last_cleanup marker remains
    assert!(fs.data.iter().all(|d| d.is_none()));
    assert!(fs.keys.is_empty());
    assert!(fs.locks.files.is_empty());
    assert_eq!(fs.last_cleanup, Some(1_000 * SEC + 10 * SEC));

    let absent = cache.lookup(&mut fs, &cmd, 20 * SEC, 1_000 * SEC + 10 * SEC);
    assert!(absent.is_none());
}

#[test]
fn cleanup_is_rate_limited() {
    let mut fs = CacheFs::empty();
    let cmd = desc(&["foo"]);
    let record = inv(&cmd, "A");
    let cache = Cache::new("root".to_string(), None);

    cache.store(&mut fs, &record, 5 * SEC, 1_000 * SEC);
    cache.cleanup(&mut fs, 1_010 * SEC, 7).unwrap();
    assert!(fs.keys.is_empty());

    // a second stale entry appears, but the pass 10 seconds later is skipped
    cache.store(&mut fs, &record, 5 * SEC, 1_000 * SEC);
    cache.cleanup(&mut fs, 1_020 * SEC, 7).unwrap();
    assert_eq!(fs.keys.len(), 1);
    assert_eq!(fs.last_cleanup, Some(1_010 * SEC));
}

#[test]
fn cleanup_spares_other_scopes_keys() {
    let mut fs = CacheFs::empty();
    let cmd = desc(&["foo"]);
    let record = inv(&cmd, "A");
    let unscoped = Cache::new("root".to_string(), None);
    let scoped = Cache::new("root".to_string(), Some("s".to_string()));

    unscoped.store(&mut fs, &record, 5 * SEC, 1_000 * SEC);
    scoped.store(&mut fs, &record, 5 * SEC, 1_000 * SEC);
    unscoped.cleanup(&mut fs, 1_020 * SEC, 7).unwrap();

    // both data files were swept, but only the unscoped dangling key fell
    assert!(fs.data.iter().all(|d| d.is_none()));
    assert_eq!(fs.keys.len(), 1);
    assert_eq!(fs.keys[0].scope, Some("s".to_string()));
}

#[test]
fn collision_detected_miss_keeps_entry() {
    // Two handles over the same root and scope share key files; a stored
    // record whose descriptor differs from the query is left alone even
    // when the key paths coincide. Forcing a fingerprint collision needs
    // a fixture below the public API, so this exercises the descriptor
    // comparison through a shared key after an overwrite instead.
    let mut fs = CacheFs::empty();
    let cache = Cache::new("root".to_string(), None);
    let cmd_a = desc(&["foo"]);
    let cmd_b = desc(&["bar"]);
    cache.store(&mut fs, &inv(&cmd_a, "A"), 100 * SEC, 1_000 * SEC);
    // a lookup for a different descriptor misses without evicting
    let miss = cache.lookup(&mut fs, &cmd_b, 100 * SEC, 1_000 * SEC);
    assert!(miss.is_none());
    let still = cache.lookup(&mut fs, &cmd_a, 100 * SEC, 1_000 * SEC);
    assert!(still.is_some());
}

#[test]
fn cleanup_skips_while_another_worker_holds_the_lock() {
    let mut fs = CacheFs::empty();
    let cmd = desc(&["foo"]);
    let record = inv(&cmd, "A");
    let cache = Cache::new("root".to_string(), None);
    cache.store(&mut fs, &record, 5 * SEC, 1_000 * SEC);

    // a fresh cleanup lock held by worker 9: the pass is a silent no-op
    let held = bkt::lock::FileLock::try_acquire(&mut fs.locks, "cleanup", 600 * SEC, 1_010 * SEC, 9)
        .unwrap()
        .expect("lock was free");
    cache.cleanup(&mut fs, 1_012 * SEC, 7).unwrap();
    assert_eq!(fs.keys.len(), 1);
    assert!(fs.last_cleanup.is_none());

    // once the lock turns stale the pass fails and names the holder
    match cache.cleanup(&mut fs, 1_010 * SEC + 700 * SEC, 7) {
        Err(pid) => assert_eq!(pid, 9),
        Ok(()) => panic!("a stale cleanup lock must be surfaced"),
    }
    assert_eq!(fs.keys.len(), 1);
    held.release(&mut fs.locks);
}

#[test]
fn seconds_ceiling_rounds_up() {
    assert_eq!(Cache::seconds_ceiling(5 * SEC), 5);
    assert_eq!(Cache::seconds_ceiling(5 * SEC + 1), 6);
    assert_eq!(Cache::seconds_ceiling(1), 1);
    assert_eq!(Cache::seconds_ceiling(0), 0);
}

#[test]
fn filename_appends_a_random_suffix() {
    let name = Cache::filename("some/dir", "bkt-data");
    assert_eq!(name.len(), "some/dir".len() + "bkt-data".len() + 18);
    assert!(name.starts_with("some/dir/bkt-data."));
    let suffix = &name["some/dir/bkt-data.".len()..];
    assert_eq!(suffix.len(), 16);
    assert!(suffix.chars().all(|c| c.is_ascii_alphanumeric()));
    // two draws almost surely differ; equality would mean the suffix is not random
    let other = Cache::filename("some/dir", "bkt-data");
    assert_ne!(name, other);
}

#[test]
fn key_and_data_dirs() {
    let cache = Cache::new("root".to_string(), None);
    assert_eq!(cache.key_dir(), "root/keys");
    assert_eq!(cache.data_dir(), "root/data");
    let scoped = Cache::new("root".to_string(), Some("s".to_string()));
    assert_eq!(scoped.key_dir(), "root/keys/s");
}
