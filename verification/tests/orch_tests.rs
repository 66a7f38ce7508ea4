use bkt::cache::CacheFs;
use bkt::desc::CommandDesc;
use bkt::orch::Bkt;

const SEC: u64 = 1_000_000_000;

fn desc(args: &[&str]) -> CommandDesc {
    CommandDesc::new(args.iter().map(|s| s.to_string()).collect())
}

#[test]
fn execute_twice_preserves_runtime() {
    let mut fs = CacheFs::empty();
    let bkt = Bkt::new();
    let cmd = desc(&["echo", "hello"]);

    // first call: miss, the subprocess runs and its result is recorded
    let t0 = 1_000 * SEC;
    assert!(bkt.execute_cached(&mut fs, &cmd, 60 * SEC, t0).is_none());
    let captured = Bkt::capture_invocation(&cmd, b"hello\n".to_vec(), Vec::new(), Some(0), 5_000_000);
    let (first, age) = bkt.record_result(&mut fs, &captured, 60 * SEC, t0);
    assert_eq!(age, 0);
    assert_eq!(first.runtime, 5_000_000);

    // second call: hit, age below the TTL, runtime preserved from the first run
    let t1 = t0 + 2 * SEC;
    let (second, age) = bkt.execute_cached(&mut fs, &cmd, 60 * SEC, t1).expect("cached");
    assert_eq!(age, 2 * SEC);
    assert_eq!(second.runtime, 5_000_000);
    assert_eq!(second.stdout, b"hello\n".to_vec());
}

#[test]
fn refresh_replaces_the_entry() {
    let mut fs = CacheFs::empty();
    let bkt = Bkt::new();
    let cmd = desc(&["date"]);
    let t0 = 1_000 * SEC;

    let old = Bkt::capture_invocation(&cmd, b"monday\n".to_vec(), Vec::new(), Some(0), 1);
    bkt.record_result(&mut fs, &old, 60 * SEC, t0);

    // refresh ignores the existing entry: it stores anew unconditionally
    let fresh = Bkt::capture_invocation(&cmd, b"tuesday\n".to_vec(), Vec::new(), Some(0), 2);
    let (returned, _) = bkt.record_result(&mut fs, &fresh, 60 * SEC, t0 + SEC);

    let (hit, age) = bkt.execute_cached(&mut fs, &cmd, 60 * SEC, t0 + SEC).expect("cached");
    assert_eq!(hit.stdout, returned.stdout);
    assert_eq!(hit.stdout, b"tuesday\n".to_vec());
    assert_eq!(age, 0);
}

#[test]
fn exit_status_defaults_to_126() {
    assert_eq!(Bkt::exit_status_or_default(Some(0)), 0);
    assert_eq!(Bkt::exit_status_or_default(Some(-9)), -9);
    assert_eq!(Bkt::exit_status_or_default(None), 126);
}

#[test]
fn cleanup_pass_sweeps_stale_entries() {
    let mut fs = CacheFs::empty();
    let bkt = Bkt::new();
    let cmd = desc(&["slow"]);
    let captured = Bkt::capture_invocation(&cmd, Vec::new(), Vec::new(), None, 1);
    assert_eq!(captured.status, 126);
    bkt.record_result(&mut fs, &captured, 5 * SEC, 1_000 * SEC);
    bkt.cleanup_pass(&mut fs, 1_100 * SEC, 9).unwrap();
    assert!(fs.keys.is_empty());
    assert!(bkt.execute_cached(&mut fs, &cmd, 500 * SEC, 1_100 * SEC).is_none());
}

#[test]
fn default_and_scoped_roots() {
    let bkt = Bkt::new();
    assert_eq!(bkt.cache().data_dir(), "bkt-0.1-cache/data");
    let scoped = Bkt::scoped("user1");
    assert_eq!(scoped.cache().key_dir(), "bkt-0.1-cache/keys/user1");
    let rooted = Bkt::create(Some("/var/cache".to_string()), None);
    assert_eq!(rooted.cache().key_dir(), "/var/cache/bkt-0.1-cache/keys");
}
