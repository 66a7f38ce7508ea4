use bkt::lock::{FileLock, LockDir};

const SEC: u64 = 1_000_000_000;

fn empty_dir() -> LockDir {
    LockDir { files: Vec::new() }
}

fn has_file(dir: &LockDir, name: &str) -> bool {
    dir.files.iter().any(|f| f.name == name)
}

#[test]
fn locks() {
    let mut dir = empty_dir();
    let lock = FileLock::try_acquire(&mut dir, "test", 100 * SEC, 1_000 * SEC, 7).unwrap();
    let lock = lock.expect("Could not take lock");
    assert!(has_file(&dir, "test.lock"));
    lock.release(&mut dir);
    assert!(!has_file(&dir, "test.lock"));
}

#[test]
fn already_locked() {
    let mut dir = empty_dir();
    let lock = FileLock::try_acquire(&mut dir, "test", 100 * SEC, 1_000 * SEC, 7).unwrap();
    let lock = lock.expect("Could not take lock");

    let attempt = FileLock::try_acquire(&mut dir, "test", 100 * SEC, 1_001 * SEC, 8).unwrap();
    assert!(attempt.is_none());

    lock.release(&mut dir);
    let attempt = FileLock::try_acquire(&mut dir, "test", 100 * SEC, 1_002 * SEC, 8).unwrap();
    assert!(attempt.is_some());
}

#[test]
fn stale_lock_is_reported_with_pid() {
    let mut dir = empty_dir();
    let lock = FileLock::try_acquire(&mut dir, "test", 100 * SEC, 1_000 * SEC, 42).unwrap();
    let _lock = lock.expect("Could not take lock");

    let attempt = FileLock::try_acquire(&mut dir, "test", 100 * SEC, 2_000 * SEC, 8);
    match attempt {
        Err(pid) => assert_eq!(pid, 42),
        Ok(_) => panic!("a stale lock must be reported"),
    }
}

#[test]
fn distinct_names_do_not_contend() {
    let mut dir = empty_dir();
    let a = FileLock::try_acquire(&mut dir, "alpha", 100 * SEC, 0, 1).unwrap();
    assert!(a.is_some());
    let b = FileLock::try_acquire(&mut dir, "beta", 100 * SEC, 0, 1).unwrap();
    assert!(b.is_some());
}
