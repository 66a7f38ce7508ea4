use bkt::codec::{deserialize, serialize};
use bkt::desc::CommandDesc;
use bkt::record::Invocation;

fn desc(args: &[&str]) -> CommandDesc {
    CommandDesc::new(args.iter().map(|s| s.to_string()).collect())
}

#[test]
fn round_trip_plain() {
    let cmd = desc(&["echo", "hello"]);
    let record = Invocation::new(
        cmd,
        b"hello\n".to_vec(),
        b"warning\n".to_vec(),
        0,
        1_234_567,
    );
    let bytes = serialize(&record);
    let back = deserialize(&bytes).expect("decoding the encoder's output");
    assert_eq!(back, record);
}

#[test]
fn round_trip_full_descriptor() {
    let cmd = desc(&["grep", "naïve pattern", "ファイル"])
        .with_working_dir("/tmp/süß".to_string())
        .with_env_value("LANG".to_string(), "C.UTF-8".to_string())
        .with_env_value("A".to_string(), "".to_string());
    let record = Invocation::new(cmd, vec![0, 159, 146, 150], Vec::new(), -17, u64::MAX);
    let bytes = serialize(&record);
    let back = deserialize(&bytes).expect("decoding the encoder's output");
    assert_eq!(back, record);
}

#[test]
fn round_trip_signal_status() {
    let cmd = desc(&["false"]);
    let record = Invocation::new(cmd, Vec::new(), Vec::new(), 126, 0);
    let bytes = serialize(&record);
    assert_eq!(deserialize(&bytes).unwrap(), record);
}

#[test]
fn deserialize_rejects_garbage() {
    assert!(deserialize(&Vec::new()).is_none());
    assert!(deserialize(&vec![0u8; 8]).is_none());
    let cmd = desc(&["echo"]);
    let record = Invocation::new(cmd, b"x".to_vec(), Vec::new(), 0, 1);
    let mut bytes = serialize(&record);
    bytes.push(0);
    // trailing bytes are refused
    assert!(deserialize(&bytes).is_none());
    bytes.pop();
    bytes.pop();
    // truncated input is refused
    assert!(deserialize(&bytes).is_none());
}

#[test]
fn serialization_is_deterministic() {
    let one = Invocation::new(
        desc(&["a", "b"]).with_env_value("k".to_string(), "v".to_string()),
        b"out".to_vec(),
        b"err".to_vec(),
        3,
        99,
    );
    let two = Invocation::new(
        desc(&["a", "b"]).with_env_value("k".to_string(), "v".to_string()),
        b"out".to_vec(),
        b"err".to_vec(),
        3,
        99,
    );
    assert_eq!(serialize(&one), serialize(&two));
}

#[test]
fn utf8_accessors() {
    let record = Invocation::new(desc(&["echo"]), b"A".to_vec(), vec![0xff, 0xfe], 0, 0);
    assert_eq!(record.stdout_utf8(), "A");
    assert_eq!(record.try_stdout_utf8().as_deref(), Some("A"));
    // invalid UTF-8 on stderr is a caller error for stderr_utf8; the
    // fallible accessor reports it instead
    assert!(record.try_stderr_utf8().is_none());
}
