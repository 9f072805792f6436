use rskvs::cmd::{Cmd, Del, Get, Ping, SetCmd};
use rskvs::engine::{Engine, Store};
use rskvs::parser::Parser;
use rskvs::resp::Resp;
use rskvs::server::Server;

#[test]
fn parser_walks_an_array() {
    let mut p = Parser::new(Resp::Array(vec![
        Resp::BulkString("set".to_string()),
        Resp::SimpleString("key".to_string()),
        Resp::Integer(7),
    ]))
    .unwrap();
    assert_eq!(p.next_string().unwrap(), "set");
    assert_eq!(p.next_string().unwrap(), "key");
    assert_eq!(p.next_integer().unwrap(), 7);
    assert!(p.check_finish().is_ok());
}

#[test]
fn parser_rejects_non_array() {
    assert!(Parser::new(Resp::Null).is_err());
}

#[test]
fn from_resp_dispatches_case_folded() {
    // the command name is case folded before dispatch
    let cmd = Cmd::from_resp(Resp::Array(vec![
        Resp::BulkString("GET".to_string()),
        Resp::BulkString("k".to_string()),
    ]))
    .unwrap();
    match cmd {
        Cmd::Get(g) => assert_eq!(g.key(), "k"),
        _ => panic!("expected a get command"),
    }

    let cmd = Cmd::from_resp(Resp::Array(vec![
        Resp::BulkString("Set".to_string()),
        Resp::BulkString("k".to_string()),
        Resp::BulkString("v".to_string()),
    ]))
    .unwrap();
    match cmd {
        Cmd::Put(c) => {
            assert_eq!(c.key(), "k");
            assert_eq!(c.val(), "v");
        },
        _ => panic!("expected a set command"),
    }

    // trailing arguments are refused
    assert!(Cmd::from_resp(Resp::Array(vec![
        Resp::BulkString("ping".to_string()),
        Resp::BulkString("extra".to_string()),
    ]))
    .is_err());
    assert!(Cmd::from_resp(Resp::Null).is_err());
}

#[test]
fn store_engine_round_trip() {
    let mut store = Store::new();
    let k = "k".to_string();
    let v1 = "1".to_string();
    let v2 = "2".to_string();
    store.set(&k, &v1).unwrap();
    assert_eq!(store.get(&k).unwrap(), Some("1".to_string()));
    store.set(&k, &v2).unwrap();
    assert_eq!(store.get(&k).unwrap(), Some("2".to_string()));
    store.del(&k).unwrap();
    assert_eq!(store.get(&k).unwrap(), None);
    // deleting an absent key is no error for this engine
    store.del(&k).unwrap();

    let server = Server::new(store);
    let mut store = server.into_engine();
    assert_eq!(store.get(&k).unwrap(), None);
    store.set(&k, &v1).unwrap();
    assert_eq!(store.get(&k).unwrap(), Some("1".to_string()));
}

#[test]
fn from_resp_inverts_into_resp() {
    match Cmd::from_resp(Get::new("k".to_string()).into_resp()).unwrap() {
        Cmd::Get(g) => assert_eq!(g.key(), "k"),
        _ => panic!("expected a get command"),
    }
    match Cmd::from_resp(SetCmd::new("k".to_string(), "v".to_string()).into_resp()).unwrap() {
        Cmd::Put(c) => {
            assert_eq!(c.key(), "k");
            assert_eq!(c.val(), "v");
        },
        _ => panic!("expected a set command"),
    }
    match Cmd::from_resp(Del::new("k".to_string()).into_resp()).unwrap() {
        Cmd::Del(d) => assert_eq!(d.key(), "k"),
        _ => panic!("expected a del command"),
    }
    assert!(matches!(
        Cmd::from_resp(Ping::new().into_resp()).unwrap(),
        Cmd::Ping(_)
    ));
}
