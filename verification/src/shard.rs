//! What a shard does with each command.

use bytes::Bytes;
use std::collections::VecDeque;
use vstd::prelude::*;
use vstd::utf8::encode_utf8;

use crate::buf::{contents, from_string};
use crate::cmd::{Command, CommandView};
use crate::db::{
    get_answer, parcels, payloads, pop_ready, present, push_effect, register, set_state, Db,
    Delivery, KeyAndValue, Keyspace, Parcel, Side, Waiter,
};
use crate::error::Error;
use crate::frame::{lemma_array_view, views, Frame, FrameView};
use crate::timeout::Timeout;

verus! {

/// How a command is answered.
#[derive(Debug, PartialEq)]
pub enum Reply {
    /// With this frame, at once.
    Now(Frame),
    /// Later: the consumer was queued and is answered when it is notified, or
    /// with the null when this time is up; a time of zero never is.
    Wait(Timeout),
}

/// The model of an answer.
pub ghost enum ReplyView {
    Now(FrameView),
    Wait(Timeout),
}

impl View for Reply {
    type V = ReplyView;

    open spec fn view(&self) -> ReplyView {
        match self {
            Reply::Now(frame) => ReplyView::Now(frame@),
            Reply::Wait(timeout) => ReplyView::Wait(*timeout),
        }
    }
}

/// What a shard hands back for a command: the answer, and the consumers that
/// the command has served.
#[derive(Debug, PartialEq)]
pub struct Outcome {
    pub reply: Reply,
    pub deliveries: Vec<Delivery>,
}

/// What a command does to a shard.
pub ghost struct Effect {
    pub state: Keyspace,
    pub reply: ReplyView,
    pub deliveries: Seq<Parcel>,
}

/// The UTF-8 encodings of `texts`, in order.
pub open spec fn encoded(texts: Seq<Seq<char>>) -> Seq<Seq<u8>> {
    Seq::new(texts.len(), |i: int| encode_utf8(texts[i]))
}

/// The frame that tells a consumer what it popped: the key, then the value.
pub open spec fn popped_frame(key: Seq<char>, value: Seq<u8>) -> FrameView {
    FrameView::Array(seq![FrameView::Bulk(encode_utf8(key)), FrameView::Bulk(value)])
}

/// The answer to a push.
pub open spec fn push_reply(reply: Result<nat, Error>) -> ReplyView {
    match reply {
        Ok(count) => ReplyView::Now(FrameView::Integer(count as u64)),
        Err(e) => ReplyView::Now(FrameView::Error(e.text())),
    }
}

/// The effect of LPUSH and RPUSH.
pub open spec fn push_command(
    m: Keyspace,
    key: Seq<char>,
    values: Seq<Seq<char>>,
    side: Side,
) -> Effect {
    let pushed = push_effect(m, key, encoded(values), side);
    Effect { state: pushed.state, reply: push_reply(pushed.reply), deliveries: pushed.deliveries }
}

/// The effect of BLPOP and BRPOP, asked by the consumer `waiter`.
pub open spec fn pop_command(
    m: Keyspace,
    keys: Seq<Seq<char>>,
    timeout: Timeout,
    side: Side,
    waiter: u64,
) -> Effect {
    match pop_ready(m, keys, side) {
        Some(popped) => Effect {
            state: popped.state,
            reply: ReplyView::Now(popped_frame(popped.key, popped.value)),
            deliveries: Seq::empty(),
        },
        None => Effect {
            state: register(m, keys, Waiter { id: waiter, side }),
            reply: ReplyView::Wait(timeout),
            deliveries: Seq::empty(),
        },
    }
}

/// The effect of the command `cmd`, sent by the consumer `waiter`, on a shard
/// in state `m`.
///
/// PING echoes its message as a bulk string, or `PONG` if it has none. GET
/// answers with the byte string as a bulk string, with the null for an absent
/// key, and with the `WrongType` error otherwise. SET answers `OK`. EXISTS
/// answers with its count. A push answers with its number or its error. A
/// blocking pop answers with the key and the value if a list has data, and
/// makes its consumer wait if none has. SELECT is a matter of the connection
/// and an unknown name is no command: both are answered with an error and
/// change nothing.
pub open spec fn effect(m: Keyspace, cmd: CommandView, waiter: u64) -> Effect {
    match cmd {
        CommandView::Ping(message) => Effect {
            state: m,
            reply: ReplyView::Now(
                FrameView::Bulk(
                    match message {
                        Some(data) => data,
                        None => encode_utf8("PONG"@),
                    },
                ),
            ),
            deliveries: Seq::empty(),
        },
        CommandView::Get(key) => Effect {
            state: m,
            reply: ReplyView::Now(
                match get_answer(m, key) {
                    Ok(Some(value)) => FrameView::Bulk(value),
                    Ok(None) => FrameView::Null,
                    Err(e) => FrameView::Error(e.text()),
                },
            ),
            deliveries: Seq::empty(),
        },
        CommandView::Store(key, value) => Effect {
            state: set_state(m, key, value),
            reply: ReplyView::Now(FrameView::Simple("OK"@)),
            deliveries: Seq::empty(),
        },
        CommandView::Exists(keys) => Effect {
            state: m,
            reply: ReplyView::Now(FrameView::Integer(present(m, keys) as u64)),
            deliveries: Seq::empty(),
        },
        CommandView::Lpush(key, values) => push_command(m, key, values, Side::Front),
        CommandView::Rpush(key, values) => push_command(m, key, values, Side::Back),
        CommandView::Blpop(keys, timeout) => pop_command(m, keys, timeout, Side::Front, waiter),
        CommandView::Brpop(keys, timeout) => pop_command(m, keys, timeout, Side::Back, waiter),
        CommandView::Select(_) => Effect {
            state: m,
            reply: ReplyView::Now(FrameView::Error(Error::Protocol.text())),
            deliveries: Seq::empty(),
        },
        CommandView::Unknown(_) => Effect {
            state: m,
            reply: ReplyView::Now(FrameView::Error("ERR unknown command"@)),
            deliveries: Seq::empty(),
        },
    }
}

impl KeyAndValue {
    /// The frame that tells a consumer what it popped.
    pub fn into_frame(self) -> (frame: Frame)
        ensures
            frame@ == popped_frame(self.key@, contents(self.value)),
    {
        let mut items: Vec<Frame> = Vec::new();
        items.push(Frame::Bulk(from_string(self.key)));
        items.push(Frame::Bulk(self.value));
        proof {
            lemma_array_view(items);
            assert(views(items@) =~= seq![
                FrameView::Bulk(encode_utf8(self.key@)),
                FrameView::Bulk(contents(self.value)),
            ]);
        }
        Frame::Array(items)
    }
}

/// The answer for a consumer that has waited: what it was notified with, or
/// the null if its time was up before.
pub fn awaited(package: Option<KeyAndValue>) -> (frame: Frame)
    ensures
        frame@ == match package {
            Some(p) => popped_frame(p.key@, contents(p.value)),
            None => FrameView::Null,
        },
{
    match package {
        Some(p) => p.into_frame(),
        None => Frame::Null,
    }
}

/// The values of a push as byte strings.
fn to_bytes(values: &Vec<String>) -> (list: VecDeque<Bytes>)
    ensures
        payloads(list@) == encoded(values.deep_view()),
{
    let mut list: VecDeque<Bytes> = VecDeque::new();
    let mut i: usize = 0;
    assert(payloads(list@) =~= encoded(values.deep_view().take(0)));
    while i < values.len()
        invariant
            i <= values.len(),
            payloads(list@) == encoded(values.deep_view().take(i as int)),
        decreases values.len() - i,
    {
        let ghost before = payloads(list@);
        let value = from_string(values[i].clone());
        list.push_back(value);
        proof {
            assert(payloads(list@) =~= before.push(contents(value)));
            assert(encoded(values.deep_view().take(i + 1)) =~= encoded(
                values.deep_view().take(i as int),
            ).push(encode_utf8(values@[i as int]@)));
        }
        i += 1;
    }
    assert(values.deep_view().take(values.len() as int) =~= values.deep_view());
    list
}

/// The values of a deque, in order, in a vector.
fn to_vec(values: &VecDeque<String>) -> (list: Vec<String>)
    ensures
        list.deep_view() == values.deep_view(),
{
    let mut list: Vec<String> = Vec::new();
    let mut i: usize = 0;
    while i < values.len()
        invariant
            i <= values.len(),
            list@.len() == i,
            forall|j: int| 0 <= j < i ==> (#[trigger] list@[j])@ == values@[j]@,
        decreases values.len() - i,
    {
        list.push(values[i].clone());
        i += 1;
    }
    assert(list.deep_view() =~= values.deep_view());
    list
}

impl Db {
    /// Pushes for LPUSH and RPUSH and puts the answer together.
    fn run_push(&mut self, key: &str, values: VecDeque<Bytes>, side: Side) -> (outcome: Outcome)
        ensures
            final(self)@ == push_effect(old(self)@, key@, payloads(values@), side).state,
            outcome.reply@ == push_reply(
                push_effect(old(self)@, key@, payloads(values@), side).reply,
            ),
            parcels(outcome.deliveries@) == push_effect(
                old(self)@,
                key@,
                payloads(values@),
                side,
            ).deliveries,
    {
        match self.push(key.to_owned(), values, side) {
            Ok(done) => Outcome {
                reply: Reply::Now(Frame::Integer(done.count)),
                deliveries: done.deliveries,
            },
            Err(e) => {
                let deliveries: Vec<Delivery> = Vec::new();
                assert(parcels(deliveries@) =~= Seq::<Parcel>::empty());
                Outcome { reply: Reply::Now(e.to_frame()), deliveries }
            },
        }
    }

    /// Pops for BLPOP and BRPOP and puts the answer together.
    fn run_pop(
        &mut self,
        keys: &Vec<String>,
        timeout: Timeout,
        side: Side,
        waiter: u64,
    ) -> (outcome: Outcome)
        ensures
            final(self)@ == pop_command(
                old(self)@,
                keys.deep_view(),
                timeout,
                side,
                waiter,
            ).state,
            outcome.reply@ == pop_command(
                old(self)@,
                keys.deep_view(),
                timeout,
                side,
                waiter,
            ).reply,
            parcels(outcome.deliveries@) == Seq::<Parcel>::empty(),
    {
        let deliveries: Vec<Delivery> = Vec::new();
        assert(parcels(deliveries@) =~= Seq::<Parcel>::empty());
        match self.pop(keys, side, waiter) {
            Some(package) => Outcome { reply: Reply::Now(package.into_frame()), deliveries },
            None => Outcome { reply: Reply::Wait(timeout), deliveries },
        }
    }

    /// Carries out `cmd` for the consumer `waiter`: changes the keyspace,
    /// answers, and names the consumers to notify.
    pub fn execute(&mut self, cmd: &Command, waiter: u64) -> (outcome: Outcome)
        ensures
            final(self)@ == effect(old(self)@, cmd@, waiter).state,
            outcome.reply@ == effect(old(self)@, cmd@, waiter).reply,
            parcels(outcome.deliveries@) == effect(old(self)@, cmd@, waiter).deliveries,
    {
        let none: Vec<Delivery> = Vec::new();
        assert(parcels(none@) =~= Seq::<Parcel>::empty());
        match cmd {
            Command::Ping(ping) => {
                let data = match ping.key() {
                    Some(data) => data.clone(),
                    None => from_string("PONG".to_owned()),
                };
                Outcome { reply: Reply::Now(Frame::Bulk(data)), deliveries: none }
            },
            Command::Get(get) => {
                let frame = match self.get(&get.key().to_owned()) {
                    Ok(Some(value)) => Frame::Bulk(value),
                    Ok(None) => Frame::Null,
                    Err(e) => e.to_frame(),
                };
                Outcome { reply: Reply::Now(frame), deliveries: none }
            },
            Command::Store(store) => {
                self.set(store.key().to_owned(), store.value().clone());
                Outcome { reply: Reply::Now(Frame::Simple("OK".to_owned())), deliveries: none }
            },
            Command::Exists(exists) => {
                let count = self.count_present(exists.get_lists());
                Outcome { reply: Reply::Now(Frame::Integer(count)), deliveries: none }
            },
            Command::Lpush(lpush) => {
                self.run_push(lpush.key(), to_bytes(&to_vec(lpush.get_lists())), Side::Front)
            },
            Command::Rpush(rpush) => {
                self.run_push(rpush.key(), to_bytes(rpush.get_lists()), Side::Back)
            },
            Command::Blpop(blpop) => {
                self.run_pop(blpop.get_lists(), *blpop.get_timeout(), Side::Front, waiter)
            },
            Command::Brpop(brpop) => {
                self.run_pop(brpop.get_lists(), *brpop.get_timeout(), Side::Back, waiter)
            },
            Command::Select(_) => Outcome {
                reply: Reply::Now(Error::Protocol.to_frame()),
                deliveries: none,
            },
            Command::Unknown(_) => Outcome {
                reply: Reply::Now(Frame::Error("ERR unknown command".to_owned())),
                deliveries: none,
            },
        }
    }
}

} // verus!
