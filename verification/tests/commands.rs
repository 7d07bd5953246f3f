use bytes::Bytes;
use my_redis::cmd::blpop::Blpop;
use my_redis::cmd::brpop::Brpop;
use my_redis::cmd::existence::Exists;
use my_redis::cmd::get::Get;
use my_redis::cmd::lpush::Lpush;
use my_redis::cmd::ping::Ping;
use my_redis::cmd::rpush::Rpush;
use my_redis::cmd::select::{parse_index, Select};
use my_redis::cmd::store::Store;
use my_redis::cmd::unknown::Unknown;
use my_redis::cmd::Command;
use my_redis::error::{Error, ParseError};
use my_redis::frame::Frame;
use my_redis::parse::Parse;
use my_redis::timeout::Timeout;

fn request(parts: &[&str]) -> Frame {
    Frame::Array(parts.iter().map(|part| Frame::Bulk(Bytes::from(part.to_string()))).collect())
}

fn parse(parts: &[&str]) -> Result<Command, Error> {
    Command::from_frame(request(parts))
}

fn strings(items: &[&str]) -> Vec<String> {
    items.iter().map(|item| item.to_string()).collect()
}

const MISSING: Error = Error::Parse(ParseError::MissingArgument);
const TRAILING: Error = Error::Parse(ParseError::TrailingArgument);
const NOT_A_NUMBER: Error = Error::Parse(ParseError::InvalidNumber);
const OUT_OF_RANGE: Error = Error::Parse(ParseError::InvalidRange);

#[test]
fn ping_takes_no_message_or_one() {
    match parse(&["PING"]) {
        Ok(Command::Ping(ping)) => assert_eq!(ping.key(), &None),
        other => panic!("{:?}", other),
    }
    match parse(&["PING", "hello"]) {
        Ok(Command::Ping(ping)) => assert_eq!(ping.key(), &Some(Bytes::from("hello"))),
        other => panic!("{:?}", other),
    }
    assert_eq!(parse(&["PING", "a", "b"]), Err(TRAILING));
}

#[test]
fn ping_new_carries_its_message() {
    assert_eq!(Ping::new("hi".to_string()).key(), &Some(Bytes::from("hi")));
}

#[test]
fn get_takes_one_key() {
    match parse(&["GET", "k"]) {
        Ok(Command::Get(get)) => assert_eq!(get.key(), "k"),
        other => panic!("{:?}", other),
    }
    assert_eq!(parse(&["GET"]), Err(MISSING));
    assert_eq!(parse(&["GET", "a", "b"]), Err(TRAILING));
    assert_eq!(Get::new("k".to_string()).key(), "k");
}

#[test]
fn set_takes_a_key_and_a_value() {
    match parse(&["SET", "k", "v"]) {
        Ok(Command::Store(set)) => {
            assert_eq!(set.key(), "k");
            assert_eq!(set.value(), &Bytes::from("v"));
        }
        other => panic!("{:?}", other),
    }
    assert_eq!(parse(&["SET"]), Err(MISSING));
    assert_eq!(parse(&["SET", "k"]), Err(MISSING));
    assert_eq!(parse(&["SET", "k", "v", "x"]), Err(TRAILING));
    let set = Store::new("k".to_string(), Bytes::from("v"));
    assert_eq!((set.key(), set.value()), ("k", &Bytes::from("v")));
}

#[test]
fn set_takes_a_value_that_is_no_text() {
    let frame = Frame::Array(vec![
        Frame::Bulk(Bytes::from("set")),
        Frame::Bulk(Bytes::from("k")),
        Frame::Bulk(Bytes::from(vec![0xffu8, 0x00])),
    ]);
    match Command::from_frame(frame) {
        Ok(Command::Store(set)) => assert_eq!(set.value(), &Bytes::from(vec![0xffu8, 0x00])),
        other => panic!("{:?}", other),
    }
}

#[test]
fn exists_takes_one_key_or_more() {
    match parse(&["EXISTS", "a"]) {
        Ok(Command::Exists(exists)) => assert_eq!(exists.get_lists(), &strings(&["a"])),
        other => panic!("{:?}", other),
    }
    match parse(&["exists", "a", "b", "a"]) {
        Ok(Command::Exists(exists)) => assert_eq!(exists.get_lists(), &strings(&["a", "b", "a"])),
        other => panic!("{:?}", other),
    }
    assert_eq!(parse(&["EXISTS"]), Err(MISSING));
}

#[test]
fn exists_new_has_no_keys() {
    assert_eq!(Exists::new("k").get_lists(), &strings(&[]));
}

#[test]
fn lpush_takes_a_key_and_values() {
    match parse(&["LPUSH", "k", "v1", "v2"]) {
        Ok(Command::Lpush(lpush)) => {
            assert_eq!(lpush.key(), "k");
            assert_eq!(lpush.get_lists().iter().cloned().collect::<Vec<_>>(), strings(&["v1", "v2"]));
        }
        other => panic!("{:?}", other),
    }
    assert_eq!(parse(&["LPUSH"]), Err(MISSING));
    assert_eq!(parse(&["LPUSH", "k"]), Err(MISSING));
}

#[test]
fn rpush_takes_a_key_and_values() {
    match parse(&["RPUSH", "k", "v1", "v2", "v3"]) {
        Ok(Command::Rpush(rpush)) => {
            assert_eq!(rpush.key(), "k");
            assert_eq!(rpush.get_lists(), &strings(&["v1", "v2", "v3"]));
        }
        other => panic!("{:?}", other),
    }
    assert_eq!(parse(&["RPUSH"]), Err(MISSING));
    assert_eq!(parse(&["RPUSH", "k"]), Err(MISSING));
}

#[test]
fn push_new_has_a_key_and_no_values() {
    let lpush = Lpush::new("k");
    assert_eq!((lpush.key(), lpush.get_lists().len()), ("k", 0));
    let rpush = Rpush::new("k");
    assert_eq!((rpush.key(), rpush.get_lists().len()), ("k", 0));
}

#[test]
fn blpop_takes_keys_and_then_the_timeout() {
    match parse(&["BLPOP", "a", "b", "0.2"]) {
        Ok(Command::Blpop(blpop)) => {
            assert_eq!(blpop.get_lists(), &strings(&["a", "b"]));
            assert_eq!(blpop.get_timeout(), &Timeout { secs: 0, nanos: 200_000_000 });
        }
        other => panic!("{:?}", other),
    }
    match parse(&["blpop", "k", "0"]) {
        Ok(Command::Blpop(blpop)) => {
            assert_eq!(blpop.get_lists(), &strings(&["k"]));
            assert!(blpop.get_timeout().is_zero());
        }
        other => panic!("{:?}", other),
    }
    assert_eq!(parse(&["BLPOP"]), Err(MISSING));
    assert_eq!(parse(&["BLPOP", "5"]), Err(MISSING));
    assert_eq!(parse(&["BLPOP", "k", "soon"]), Err(NOT_A_NUMBER));
    assert_eq!(parse(&["BLPOP", "k", "-1"]), Err(OUT_OF_RANGE));
    assert_eq!(parse(&["BLPOP", "k", "nan"]), Err(NOT_A_NUMBER));
    match parse(&["BLPOP", "k", "2e-1"]) {
        Ok(Command::Blpop(blpop)) => assert_eq!(blpop.get_timeout(), &Timeout { secs: 0, nanos: 200_000_000 }),
        other => panic!("{:?}", other),
    }
    assert_eq!(parse(&["BLPOP", "k", "99999999999999999999"]), Err(OUT_OF_RANGE));
    match parse(&["BLPOP", "k", "0.0000000001"]) {
        Ok(Command::Blpop(blpop)) => {
            assert_eq!(blpop.get_timeout(), &Timeout { secs: 0, nanos: 1 });
            assert!(!blpop.get_timeout().is_zero());
        }
        other => panic!("{:?}", other),
    }
}

#[test]
fn brpop_takes_keys_and_then_the_timeout() {
    match parse(&["BRPOP", "a", "5"]) {
        Ok(Command::Brpop(brpop)) => {
            assert_eq!(brpop.get_lists(), &strings(&["a"]));
            assert_eq!(brpop.get_timeout(), &Timeout { secs: 5, nanos: 0 });
        }
        other => panic!("{:?}", other),
    }
    assert_eq!(parse(&["BRPOP"]), Err(MISSING));
    assert_eq!(parse(&["BRPOP", "5"]), Err(MISSING));
    assert_eq!(parse(&["BRPOP", "k", "1.x"]), Err(NOT_A_NUMBER));
    match parse(&["BRPOP", "k", "0.0000000001"]) {
        Ok(Command::Brpop(brpop)) => assert!(!brpop.get_timeout().is_zero()),
        other => panic!("{:?}", other),
    }
}

#[test]
fn blocking_pop_new_has_a_timeout_and_no_keys() {
    let timeout = Timeout { secs: 1, nanos: 5 };
    let blpop = Blpop::new("k", timeout);
    assert_eq!((blpop.get_lists().len(), *blpop.get_timeout()), (0, timeout));
    let brpop = Brpop::new("k", timeout);
    assert_eq!((brpop.get_lists().len(), *brpop.get_timeout()), (0, timeout));
}

#[test]
fn select_takes_one_index_in_range() {
    for index in 0..16usize {
        match parse(&["SELECT", &index.to_string()]) {
            Ok(Command::Select(select)) => assert_eq!(select.db_index(), &index),
            other => panic!("{:?}", other),
        }
    }
    assert_eq!(parse(&["SELECT"]), Err(MISSING));
    assert_eq!(parse(&["SELECT", "1", "2"]), Err(TRAILING));
    assert_eq!(parse(&["SELECT", "16"]), Err(OUT_OF_RANGE));
    assert_eq!(parse(&["SELECT", "255"]), Err(OUT_OF_RANGE));
    assert_eq!(parse(&["SELECT", "256"]), Err(OUT_OF_RANGE));
    assert_eq!(parse(&["SELECT", "-1"]), Err(OUT_OF_RANGE));
    assert_eq!(parse(&["SELECT", "99999999999999999999999999"]), Err(OUT_OF_RANGE));
    assert_eq!(parse(&["SELECT", "one"]), Err(NOT_A_NUMBER));
    assert_eq!(parse(&["SELECT", ""]), Err(NOT_A_NUMBER));
    assert_eq!(parse(&["SELECT", "1.0"]), Err(NOT_A_NUMBER));
    assert_eq!(parse(&["SELECT", "16", "x"]), Err(OUT_OF_RANGE));
    assert_eq!(Select::new(3).db_index(), &3);
}

#[test]
fn index_may_carry_a_sign() {
    assert_eq!(parse_index(b"0"), Ok(0));
    assert_eq!(parse_index(b"+7"), Ok(7));
    assert_eq!(parse_index(b"-0"), Ok(0));
    assert_eq!(parse_index(b"015"), Ok(15));
    assert_eq!(parse_index(b"-3"), Err(ParseError::InvalidRange));
    assert_eq!(parse_index(b"+16"), Err(ParseError::InvalidRange));
    assert_eq!(parse_index(b"+"), Err(ParseError::InvalidNumber));
    assert_eq!(parse_index(b"-"), Err(ParseError::InvalidNumber));
    assert_eq!(parse_index(b"--1"), Err(ParseError::InvalidNumber));
    assert_eq!(parse_index(b" 1"), Err(ParseError::InvalidNumber));
}

#[test]
fn names_are_read_in_any_case() {
    assert!(matches!(parse(&["get", "k"]), Ok(Command::Get(_))));
    assert!(matches!(parse(&["GeT", "k"]), Ok(Command::Get(_))));
    assert!(matches!(parse(&["sElEcT", "1"]), Ok(Command::Select(_))));
    assert!(matches!(parse(&["Lpush", "k", "v"]), Ok(Command::Lpush(_))));
    assert!(matches!(parse(&["ping"]), Ok(Command::Ping(_))));
}

#[test]
fn other_names_are_unknown() {
    match parse(&["FLUSHALL", "now"]) {
        Ok(Command::Unknown(unknown)) => assert_eq!(unknown.get_name(), "FLUSHALL"),
        other => panic!("{:?}", other),
    }
    assert!(matches!(parse(&["gets", "k"]), Ok(Command::Unknown(_))));
    assert!(matches!(parse(&["ge", "k"]), Ok(Command::Unknown(_))));
    assert!(matches!(parse(&["g\u{212a}t"]), Ok(Command::Unknown(_))));
    assert!(matches!(parse(&[""]), Ok(Command::Unknown(_))));
    assert_eq!(Unknown::new("x".to_string()).get_name(), "x");
}

#[test]
fn a_request_has_to_be_an_array_of_strings() {
    assert_eq!(Command::from_frame(Frame::Simple("GET".to_string())), Err(Error::Protocol));
    assert_eq!(Command::from_frame(Frame::Null), Err(Error::Protocol));
    assert_eq!(Command::from_frame(Frame::Integer(1)), Err(Error::Protocol));
    assert_eq!(Command::from_frame(Frame::Array(vec![])), Err(MISSING));
    assert_eq!(Command::from_frame(Frame::Array(vec![Frame::Integer(1)])), Err(Error::Protocol));
    assert_eq!(
        Command::from_frame(Frame::Array(vec![Frame::Bulk(Bytes::from("GET")), Frame::Integer(1)])),
        Err(Error::Protocol)
    );
    assert_eq!(
        Command::from_frame(Frame::Array(vec![
            Frame::Bulk(Bytes::from("EXISTS")),
            Frame::Bulk(Bytes::from("a")),
            Frame::Null
        ])),
        Err(Error::Protocol)
    );
    assert_eq!(
        Command::from_frame(Frame::Array(vec![
            Frame::Bulk(Bytes::from("GET")),
            Frame::Bulk(Bytes::from(vec![0xffu8]))
        ])),
        Err(Error::Protocol)
    );
}

#[test]
fn simple_strings_are_operands_too() {
    let frame = Frame::Array(vec![Frame::Simple("GET".to_string()), Frame::Simple("k".to_string())]);
    match Command::from_frame(frame) {
        Ok(Command::Get(get)) => assert_eq!(get.key(), "k"),
        other => panic!("{:?}", other),
    }
}

#[test]
fn cursor_walks_the_parts_in_order() {
    let mut cursor = Parse::new(request(&["a", "b"])).ok().unwrap();
    assert_eq!(cursor.next_string(), Ok("a".to_string()));
    assert_eq!(cursor.finish(), Err(TRAILING));
    assert_eq!(cursor.next_bytes(), Ok(Bytes::from("b")));
    assert_eq!(cursor.finish(), Ok(()));
    assert_eq!(cursor.next_string(), Err(MISSING));
    assert_eq!(cursor.next_bytes(), Err(MISSING));
    assert_eq!(cursor.next(), None);
    assert!(Parse::new(Frame::Null).is_err());
}

#[test]
fn cursor_hands_out_the_rest() {
    let mut cursor = Parse::new(request(&["a", "b", "c"])).ok().unwrap();
    assert_eq!(cursor.next(), Some(Frame::Bulk(Bytes::from("a"))));
    assert_eq!(cursor.rest(), Ok(strings(&["b", "c"])));
    assert_eq!(cursor.rest(), Ok(strings(&[])));
}

#[test]
fn parse_frames_reads_operands_only() {
    let mut cursor = Parse::new(request(&["a", "b"])).ok().unwrap();
    assert_eq!(Exists::parse_frames(&mut cursor).map(|e| e.get_lists().clone()), Ok(strings(&["a", "b"])));
    let mut cursor = Parse::new(request(&["k", "v"])).ok().unwrap();
    assert_eq!(Lpush::parse_frames(&mut cursor).map(|c| c.key().to_string()), Ok("k".to_string()));
    let mut cursor = Parse::new(request(&["k", "v"])).ok().unwrap();
    assert_eq!(Rpush::parse_frames(&mut cursor).map(|c| c.get_lists().clone()), Ok(strings(&["v"])));
    let mut cursor = Parse::new(request(&["7"])).ok().unwrap();
    assert_eq!(Select::parse_frames(&mut cursor).map(|c| *c.db_index()), Ok(7));
    let mut cursor = Parse::new(request(&["k", "1.5"])).ok().unwrap();
    assert_eq!(
        Blpop::parse_frames(&mut cursor).map(|c| *c.get_timeout()),
        Ok(Timeout { secs: 1, nanos: 500_000_000 })
    );
    let mut cursor = Parse::new(request(&["k", "2"])).ok().unwrap();
    assert_eq!(Brpop::parse_frames(&mut cursor).map(|c| c.get_lists().clone()), Ok(strings(&["k"])));
    let mut cursor = Parse::new(request(&[])).ok().unwrap();
    assert_eq!(Ping::parse_frames(&mut cursor).map(|c| c.key().clone()), Ok(None));
    let mut cursor = Parse::new(request(&["k"])).ok().unwrap();
    assert_eq!(Get::parse_frames(&mut cursor).map(|c| c.key().to_string()), Ok("k".to_string()));
    let mut cursor = Parse::new(request(&["k", "v"])).ok().unwrap();
    assert_eq!(Store::parse_frames(&mut cursor).map(|c| c.value().clone()), Ok(Bytes::from("v")));
}

#[test]
fn simple_string_as_a_value_gives_its_bytes() {
    let frame = Frame::Array(vec![
        Frame::Simple("SET".to_string()),
        Frame::Simple("k".to_string()),
        Frame::Simple("gr\u{fc}n".to_string()),
    ]);
    match Command::from_frame(frame) {
        Ok(Command::Store(set)) => assert_eq!(set.value(), &Bytes::from(vec![0x67u8, 0x72, 0xc3, 0xbc, 0x6e])),
        other => panic!("{:?}", other),
    }
}

#[test]
fn ping_becomes_its_request_and_back() {
    assert_eq!(Ping::new("hi".to_string()).into_frame(), request(&["ping", "hi"]));
    match Command::from_frame(Ping::new("hi".to_string()).into_frame()) {
        Ok(Command::Ping(ping)) => assert_eq!(ping.key(), &Some(Bytes::from("hi"))),
        other => panic!("{:?}", other),
    }
    let mut cursor = Parse::new(request(&[])).ok().unwrap();
    let bare = Ping::parse_frames(&mut cursor).ok().unwrap();
    assert_eq!(bare.into_frame(), request(&["ping"]));
}
