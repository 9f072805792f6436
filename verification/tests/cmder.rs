use rskvs::cmder::{Cmd, Cmder};

#[test]
fn cmder_new() {
    let cmder = Cmder::new("get key").unwrap();
    assert_eq!(cmder.cmd, Cmd::Get);
    assert_eq!(cmder.args, vec!["key".to_string()]);

    let cmder = Cmder::new("set key val").unwrap();
    assert_eq!(cmder.cmd, Cmd::Put);
    assert_eq!(cmder.args, vec!["key".to_string(), "val".to_string()]);

    let cmder = Cmder::new(" get    key  ").unwrap();
    assert_eq!(cmder.cmd, Cmd::Get);
    assert_eq!(cmder.args, vec!["key".to_string()]);

    let cmder = Cmder::new(" set key    val    ").unwrap();
    assert_eq!(cmder.cmd, Cmd::Put);
    assert_eq!(cmder.args, vec!["key".to_string(), "val".to_string()]);

    let cmder = Cmder::new("set key val    ");
    assert!(cmder.is_none());
}

#[test]
fn cmder_del_and_unknown() {
    let cmder = Cmder::new("del key").unwrap();
    assert_eq!(cmder.cmd, Cmd::Del);
    assert_eq!(cmder.args, vec!["key".to_string()]);

    assert!(Cmder::new("").is_none());
    assert!(Cmder::new("flush all").is_none());
}
