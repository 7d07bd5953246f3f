use bytes::Bytes;
use my_redis::cmd::select::{Client, Select};
use my_redis::cmd::Command;
use my_redis::connection::Connection;
use my_redis::db::{AllDbs, Db, Delivery, KeyAndValue, NUM_DBS};
use my_redis::error::{Error, ParseError};
use my_redis::frame::Frame;
use my_redis::request::Request;
use my_redis::server::Routing;
use my_redis::shard::{awaited, Outcome, Reply};
use my_redis::timeout::Timeout;
use my_redis::DEFAULT_PORT;

fn bulk(text: &str) -> Frame {
    Frame::Bulk(Bytes::from(text.to_string()))
}

fn request(parts: &[&str]) -> Frame {
    Frame::Array(parts.iter().map(|part| bulk(part)).collect())
}

fn command(parts: &[&str]) -> Command {
    Command::from_frame(request(parts)).ok().unwrap()
}

fn now(frame: Frame) -> Outcome {
    Outcome { reply: Reply::Now(frame), deliveries: vec![] }
}

fn run(db: &mut Db, parts: &[&str]) -> Outcome {
    db.execute(&command(parts), 0)
}

const WRONG_TYPE: &str = "WRONGTYPE Operation against a key holding the wrong kind of value";

#[test]
fn ping_echoes_or_answers_pong() {
    let mut db = Db::new();
    assert_eq!(run(&mut db, &["PING"]), now(bulk("PONG")));
    assert_eq!(run(&mut db, &["PING", "hello"]), now(bulk("hello")));
}

#[test]
fn set_then_get_over_commands() {
    let mut db = Db::new();
    assert_eq!(run(&mut db, &["GET", "k"]), now(Frame::Null));
    assert_eq!(run(&mut db, &["SET", "k", "v"]), now(Frame::Simple("OK".to_string())));
    assert_eq!(run(&mut db, &["GET", "k"]), now(bulk("v")));
}

#[test]
fn get_on_a_list_answers_wrong_type() {
    let mut db = Db::new();
    assert_eq!(run(&mut db, &["RPUSH", "k", "a"]), now(Frame::Integer(1)));
    assert_eq!(run(&mut db, &["GET", "k"]), now(Frame::Error(WRONG_TYPE.to_string())));
}

#[test]
fn exists_answers_with_the_count() {
    let mut db = Db::new();
    run(&mut db, &["SET", "a", "1"]);
    run(&mut db, &["LPUSH", "b", "x"]);
    assert_eq!(run(&mut db, &["EXISTS", "a", "b", "c"]), now(Frame::Integer(2)));
    assert_eq!(db.execute(&Command::Exists(my_redis::cmd::existence::Exists::new("a")), 0), now(Frame::Integer(0)));
}

#[test]
fn lpush_answers_with_the_length_and_orders_the_list() {
    let mut db = Db::new();
    assert_eq!(run(&mut db, &["LPUSH", "k", "v1", "v2"]), now(Frame::Integer(2)));
    assert_eq!(run(&mut db, &["LPUSH", "k", "v3"]), now(Frame::Integer(3)));
    for expected in ["v3", "v2", "v1"] {
        assert_eq!(run(&mut db, &["BLPOP", "k", "0"]), now(Frame::Array(vec![bulk("k"), bulk(expected)])));
    }
    assert_eq!(run(&mut db, &["EXISTS", "k"]), now(Frame::Integer(0)));
}

#[test]
fn rpush_answers_with_the_length_and_orders_the_list() {
    let mut db = Db::new();
    assert_eq!(run(&mut db, &["RPUSH", "k", "v1", "v2"]), now(Frame::Integer(2)));
    assert_eq!(run(&mut db, &["RPUSH", "k", "v3"]), now(Frame::Integer(3)));
    for expected in ["v1", "v2", "v3"] {
        assert_eq!(run(&mut db, &["BLPOP", "k", "0"]), now(Frame::Array(vec![bulk("k"), bulk(expected)])));
    }
}

#[test]
fn push_on_a_byte_string_answers_wrong_type() {
    let mut db = Db::new();
    run(&mut db, &["SET", "k", "v"]);
    assert_eq!(run(&mut db, &["LPUSH", "k", "a"]), now(Frame::Error(WRONG_TYPE.to_string())));
    assert_eq!(run(&mut db, &["RPUSH", "k", "a"]), now(Frame::Error(WRONG_TYPE.to_string())));
}

#[test]
fn blpop_with_data_answers_at_once() {
    let mut db = Db::new();
    run(&mut db, &["RPUSH", "k", "a", "b"]);
    assert_eq!(run(&mut db, &["BLPOP", "k", "0"]), now(Frame::Array(vec![bulk("k"), bulk("a")])));
    assert_eq!(run(&mut db, &["BRPOP", "k", "0"]), now(Frame::Array(vec![bulk("k"), bulk("b")])));
    assert_eq!(run(&mut db, &["EXISTS", "k"]), now(Frame::Integer(0)));
}

#[test]
fn blpop_without_data_waits_for_its_timeout() {
    let mut db = Db::new();
    assert_eq!(
        run(&mut db, &["BLPOP", "k", "0.2"]),
        Outcome { reply: Reply::Wait(Timeout { secs: 0, nanos: 200_000_000 }), deliveries: vec![] }
    );
    assert_eq!(
        run(&mut db, &["BRPOP", "k", "0"]),
        Outcome { reply: Reply::Wait(Timeout { secs: 0, nanos: 0 }), deliveries: vec![] }
    );
    assert_eq!(awaited(None), Frame::Null);
}

#[test]
fn blocked_consumer_is_served_by_a_later_push() {
    let mut db = Db::new();
    assert_eq!(
        db.execute(&command(&["BLPOP", "k", "5"]), 11),
        Outcome { reply: Reply::Wait(Timeout { secs: 5, nanos: 0 }), deliveries: vec![] }
    );
    let package = KeyAndValue { key: "k".to_string(), value: Bytes::from("x") };
    assert_eq!(
        db.execute(&command(&["RPUSH", "k", "x", "y"]), 12),
        Outcome {
            reply: Reply::Now(Frame::Integer(2)),
            deliveries: vec![Delivery { waiter: 11, package: KeyAndValue { key: "k".to_string(), value: Bytes::from("x") } }],
        }
    );
    assert_eq!(awaited(Some(package)), Frame::Array(vec![bulk("k"), bulk("x")]));
    assert_eq!(run(&mut db, &["GET", "k"]), now(Frame::Error(WRONG_TYPE.to_string())));
    assert_eq!(run(&mut db, &["BLPOP", "k", "0"]), now(Frame::Array(vec![bulk("k"), bulk("y")])));
    assert_eq!(run(&mut db, &["EXISTS", "k"]), now(Frame::Integer(0)));
}

#[test]
fn package_becomes_a_pair_of_bulk_strings() {
    let package = KeyAndValue { key: "list".to_string(), value: Bytes::from(vec![1u8, 2, 3]) };
    assert_eq!(package.into_frame(), Frame::Array(vec![bulk("list"), Frame::Bulk(Bytes::from(vec![1u8, 2, 3]))]));
}

#[test]
fn select_and_unknown_are_errors_for_a_shard() {
    let mut db = Db::new();
    assert_eq!(run(&mut db, &["SELECT", "1"]), now(Frame::Error("ERR protocol error".to_string())));
    assert_eq!(run(&mut db, &["FLUSHALL"]), now(Frame::Error("ERR unknown command".to_string())));
}

#[test]
fn every_error_has_its_text() {
    assert_eq!(Error::Protocol.message(), "ERR protocol error");
    assert_eq!(Error::Parse(ParseError::MissingArgument).message(), "ERR missing argument");
    assert_eq!(Error::Parse(ParseError::TrailingArgument).message(), "ERR trailing argument");
    assert_eq!(Error::Parse(ParseError::InvalidNumber).message(), "ERR value is not a number");
    assert_eq!(Error::Parse(ParseError::InvalidRange).message(), "ERR value is out of range");
    assert_eq!(Error::WrongType.message(), WRONG_TYPE);
    assert_eq!(Error::Delivery.message(), "ERR delivery failed");
    assert_eq!(Error::Delivery.to_frame(), Frame::Error("ERR delivery failed".to_string()));
}

#[test]
fn shards_are_sixteen_and_apart() {
    assert_eq!(NUM_DBS, 16);
    let mut all = AllDbs::new();
    for index in 0..NUM_DBS {
        assert!(all.get_instance(index).is_some());
        assert_eq!(all.get_instance(index).unwrap().get(&"k".to_string()), Ok(None));
    }
    assert!(all.get_instance(NUM_DBS).is_none());
    assert!(all.get_instance(usize::MAX).is_none());
    assert_eq!(all.execute(3, &command(&["SET", "k", "three"]), 0), Some(now(Frame::Simple("OK".to_string()))));
    assert_eq!(all.execute(4, &command(&["SET", "k", "four"]), 0), Some(now(Frame::Simple("OK".to_string()))));
    assert_eq!(all.execute(3, &command(&["GET", "k"]), 0), Some(now(bulk("three"))));
    assert_eq!(all.execute(4, &command(&["GET", "k"]), 0), Some(now(bulk("four"))));
    assert_eq!(all.execute(5, &command(&["GET", "k"]), 0), Some(now(Frame::Null)));
    assert_eq!(all.execute(16, &command(&["GET", "k"]), 0), None);
    assert_eq!(all.get_instance(3).unwrap().get(&"k".to_string()), Ok(Some(Bytes::from("three"))));
}

#[test]
fn connection_starts_at_shard_zero_and_forwards() {
    let mut client = Client::new();
    assert_eq!(client.index(), 0);
    assert_eq!(
        client.route(request(&["GET", "k"])),
        Routing::Forward { index: 0, cmd: command(&["GET", "k"]) }
    );
    assert_eq!(client.index(), 0);
}

#[test]
fn select_changes_the_active_shard() {
    let mut client = Client::new();
    assert_eq!(client.route(request(&["SELECT", "7"])), Routing::Reply(Frame::Simple("OK".to_string())));
    assert_eq!(client.index(), 7);
    assert_eq!(
        client.route(request(&["SET", "k", "v"])),
        Routing::Forward { index: 7, cmd: command(&["SET", "k", "v"]) }
    );
    assert_eq!(client.route(request(&["select", "0"])), Routing::Reply(Frame::Simple("OK".to_string())));
    assert_eq!(client.index(), 0);
}

#[test]
fn select_out_of_range_fails_and_changes_nothing() {
    let mut client = Client::new();
    client.route(request(&["SELECT", "3"]));
    for index in ["16", "17", "255", "1000", "-1", "18446744073709551616"] {
        assert_eq!(
            client.route(request(&["SELECT", index])),
            Routing::Reply(Frame::Error("ERR value is out of range".to_string())),
            "{}",
            index
        );
        assert_eq!(client.index(), 3);
    }
    assert_eq!(
        client.route(request(&["SELECT", "x"])),
        Routing::Reply(Frame::Error("ERR value is not a number".to_string()))
    );
    assert_eq!(
        client.route(request(&["SELECT", "1", "2"])),
        Routing::Reply(Frame::Error("ERR trailing argument".to_string()))
    );
    assert_eq!(client.index(), 3);
}

#[test]
fn select_built_out_of_range_is_refused_when_applied() {
    let mut client = Client::new();
    assert_eq!(Select::new(5).apply(&mut client), Frame::Simple("OK".to_string()));
    assert_eq!(client.index(), 5);
    assert_eq!(Select::new(16).apply(&mut client), Frame::Error("ERR value is out of range".to_string()));
    assert_eq!(client.index(), 5);
}

#[test]
fn invalid_request_is_answered_and_the_connection_goes_on() {
    let mut client = Client::new();
    assert_eq!(client.route(Frame::Null), Routing::Reply(Frame::Error("ERR protocol error".to_string())));
    assert_eq!(client.route(request(&["GET"])), Routing::Reply(Frame::Error("ERR missing argument".to_string())));
    assert_eq!(
        client.route(request(&["PING"])),
        Routing::Forward { index: 0, cmd: command(&["PING"]) }
    );
}

#[test]
fn frames_come_out_as_their_bytes_arrive() {
    let mut connection = Connection::new();
    assert_eq!(connection.parse_frame(), Ok(None));
    assert_eq!(connection.close(), Ok(()));
    connection.feed(b"*2\r\n$3\r\nGE");
    assert_eq!(connection.parse_frame(), Ok(None));
    assert_eq!(connection.close(), Err(Error::Protocol));
    connection.feed(b"T\r\n$1\r\nk\r\n+O");
    assert_eq!(connection.parse_frame(), Ok(Some(request(&["GET", "k"]))));
    assert_eq!(connection.parse_frame(), Ok(None));
    connection.feed(b"K\r\n:5\r\n");
    assert_eq!(connection.parse_frame(), Ok(Some(Frame::Simple("OK".to_string()))));
    assert_eq!(connection.parse_frame(), Ok(Some(Frame::Integer(5))));
    assert_eq!(connection.parse_frame(), Ok(None));
    assert_eq!(connection.close(), Ok(()));
}

#[test]
fn broken_bytes_stay_broken() {
    let mut connection = Connection::new();
    connection.feed(b"hello\r\n");
    assert_eq!(connection.parse_frame(), Err(Error::Protocol));
    assert_eq!(connection.parse_frame(), Err(Error::Protocol));
    assert_eq!(connection.close(), Err(Error::Protocol));
}

#[test]
fn request_carries_its_command_and_a_fresh_channel() {
    let (mut request, mut receiver) = Request::new(command(&["GET", "k"]));
    assert_eq!(request.cmd, command(&["GET", "k"]));
    request.set_command(command(&["PING"]));
    assert_eq!(request.cmd, command(&["PING"]));
    assert!(receiver.try_recv().is_err());
    assert!(request.sender.send(Frame::Null).is_ok());
    assert_eq!(receiver.try_recv().ok(), Some(Frame::Null));
}

#[test]
fn default_port_is_the_usual_one() {
    assert_eq!(DEFAULT_PORT, 6379);
}

#[test]
fn every_answer_can_be_sent() {
    let mut db = Db::new();
    let requests: Vec<Vec<&str>> = vec![
        vec!["PING"],
        vec!["PING", "a\r\nb"],
        vec!["SET", "k", "v\r\n"],
        vec!["GET", "k"],
        vec!["GET", "none"],
        vec!["LPUSH", "k", "x"],
        vec!["RPUSH", "l\r\n", "x\r\n", "y"],
        vec!["EXISTS", "k", "l\r\n"],
        vec!["BLPOP", "l\r\n", "0"],
        vec!["BRPOP", "l\r\n", "0"],
        vec!["SELECT", "1"],
        vec!["NO\r\nSUCH"],
    ];
    for parts in requests {
        match run(&mut db, &parts).reply {
            Reply::Now(frame) => {
                assert!(frame.is_sendable(), "{:?}", frame);
                let bytes = frame.encode();
                let len = bytes.len();
                assert_eq!(Frame::decode(&bytes), Ok(Some((frame, len))));
            }
            Reply::Wait(_) => panic!("{:?}", parts),
        }
    }
    let mut client = Client::new();
    for frame in [Frame::Null, request(&["GET"]), request(&["SELECT", "x"]), request(&["SELECT", "2"])] {
        match client.route(frame) {
            Routing::Reply(answer) => assert!(answer.is_sendable(), "{:?}", answer),
            other => panic!("{:?}", other),
        }
    }
}
