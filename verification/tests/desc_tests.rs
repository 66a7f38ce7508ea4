use bkt::desc::CommandDesc;

fn d(args: &[&str]) -> CommandDesc {
    CommandDesc::new(args.iter().map(|s| s.to_string()).collect())
}

// Sanity-checking that CommandDesc::cache_key isn't changing over time. This test may need
// to be updated if the implementation changes in the future.
#[test]
fn stable_hash() {
    assert_eq!(d(&["foo", "bar"]).cache_key(), "BCC38BF523072C30");
}

#[test]
fn collisions() {
    let commands = vec![
        d(&["foo"]),
        d(&["foo", "bar"]),
        d(&["foo", "b", "ar"]),
        d(&["foo", "b ar"]),
        d(&["foo"]).with_working_dir("/bar".to_string()),
        d(&["foo"]).with_working_dir("/bar/baz".to_string()),
        d(&["foo"]).with_env_value("a".to_string(), "b".to_string()),
        d(&["foo"])
            .with_working_dir("/bar".to_string())
            .with_env_value("a".to_string(), "b".to_string()),
    ];

    let mut iter = commands.iter();
    for a in commands.iter() {
        iter.next();
        for b in iter.clone() {
            assert_ne!(
                a.cache_key(),
                b.cache_key(),
                "{:?} and {:?} have equivalent hashes",
                a,
                b
            );
        }
    }
}

#[test]
fn env_insertion_order_is_irrelevant() {
    let one = d(&["foo"])
        .with_env_value("x".to_string(), "1".to_string())
        .with_env_value("a".to_string(), "2".to_string());
    let two = d(&["foo"])
        .with_env_value("a".to_string(), "2".to_string())
        .with_env_value("x".to_string(), "1".to_string());
    assert_eq!(one, two);
    assert_eq!(one.cache_key(), two.cache_key());
    assert!(one.eq_desc(&two));
}

#[test]
fn env_value_replaces() {
    let one = d(&["foo"])
        .with_env_value("a".to_string(), "old".to_string())
        .with_env_value("a".to_string(), "new".to_string());
    let two = d(&["foo"]).with_env_value("a".to_string(), "new".to_string());
    assert_eq!(one, two);
}

#[test]
fn with_envs_inserts_each() {
    let one = d(&["foo"]).with_envs(vec![
        ("b".to_string(), "2".to_string()),
        ("a".to_string(), "1".to_string()),
    ]);
    let two = d(&["foo"])
        .with_env_value("a".to_string(), "1".to_string())
        .with_env_value("b".to_string(), "2".to_string());
    assert_eq!(one, two);
}

#[test]
fn eq_desc_detects_differences() {
    let base = d(&["foo"]);
    assert!(!base.eq_desc(&d(&["foo", "bar"])));
    assert!(!base.eq_desc(&base.with_working_dir("/w".to_string())));
    assert!(base.eq_desc(&base.clone_desc()));
}

#[test]
fn cache_key_is_sixteen_hex_digits() {
    let key = d(&["anything", "at", "all"]).cache_key();
    assert_eq!(key.len(), 16);
    assert!(key.chars().all(|c| c.is_ascii_hexdigit() && !c.is_ascii_lowercase()));
}
