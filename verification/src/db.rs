//! The keyspace of one shard and the operations on it.

use bytes::Bytes;
use std::collections::VecDeque;
use vstd::prelude::*;

use crate::buf::contents;
use crate::cmd::Command;
use crate::error::Error;
use crate::shard::{effect, Outcome};

verus! {

/// Number of shards a server holds.
pub const NUM_DBS: usize = 16;

/// The end of a list that an element is pushed to or popped from.
#[derive(Clone, Copy, Debug, PartialEq, Eq, Structural)]
pub enum Side {
    Front,
    Back,
}

/// A blocked consumer: `id` names the channel on which it is notified,
/// `side` is the end of the list it pops from.
#[derive(Clone, Copy, Debug, PartialEq, Eq, Structural)]
pub struct Waiter {
    pub id: u64,
    pub side: Side,
}

/// The value stored at one key.
#[derive(Debug, PartialEq)]
pub enum DataTypes {
    /// A single byte string.
    Scalar(Bytes),
    /// A list of byte strings, front first.
    List(VecDeque<Bytes>),
    /// Consumers waiting for data at this key, oldest first.
    WaiterQueue(VecDeque<Waiter>),
}

/// The model of a stored value.
pub ghost enum EntryView {
    Scalar(Seq<u8>),
    List(Seq<Seq<u8>>),
    WaiterQueue(Seq<Waiter>),
}

/// A value on its way to a consumer, with the key it was pushed to.
#[derive(Debug, PartialEq)]
pub struct KeyAndValue {
    pub key: String,
    pub value: Bytes,
}

/// An order to notify the consumer `waiter` with `package`.
#[derive(Debug, PartialEq)]
pub struct Delivery {
    pub waiter: u64,
    pub package: KeyAndValue,
}

/// The model of a delivery.
pub ghost struct Parcel {
    pub waiter: u64,
    pub key: Seq<char>,
    pub value: Seq<u8>,
}

impl View for Delivery {
    type V = Parcel;

    open spec fn view(&self) -> Parcel {
        Parcel { waiter: self.waiter, key: self.package.key@, value: contents(self.package.value) }
    }
}

/// The models of a sequence of deliveries.
pub open spec fn parcels(deliveries: Seq<Delivery>) -> Seq<Parcel> {
    Seq::new(deliveries.len(), |i: int| deliveries[i]@)
}

/// What a successful push reports: the number for the reply and the
/// consumers to notify.
#[derive(Debug, PartialEq)]
pub struct Pushed {
    pub count: u64,
    pub deliveries: Vec<Delivery>,
}

/// The model of a keyspace.
pub type Keyspace = Map<Seq<char>, EntryView>;

/// The byte strings that a sequence of handles refers to.
pub open spec fn payloads(items: Seq<Bytes>) -> Seq<Seq<u8>> {
    Seq::new(items.len(), |i: int| contents(items[i]))
}

impl View for DataTypes {
    type V = EntryView;

    open spec fn view(&self) -> EntryView {
        match self {
            DataTypes::Scalar(b) => EntryView::Scalar(contents(*b)),
            DataTypes::List(items) => EntryView::List(payloads(items@)),
            DataTypes::WaiterQueue(waiters) => EntryView::WaiterQueue(waiters@),
        }
    }
}

/// The bytes behind the handle of a GET answer.
pub open spec fn bytes_of(answer: Result<Option<Bytes>, Error>) -> Result<Option<Seq<u8>>, Error> {
    match answer {
        Ok(Some(value)) => Ok(Some(contents(value))),
        Ok(None) => Ok(None),
        Err(e) => Err(e),
    }
}

/// What GET answers in keyspace `m`.
pub open spec fn get_answer(m: Keyspace, key: Seq<char>) -> Result<Option<Seq<u8>>, Error> {
    if !m.contains_key(key) {
        Ok(None)
    } else {
        match m[key] {
            EntryView::Scalar(value) => Ok(Some(value)),
            _ => Err(Error::WrongType),
        }
    }
}

/// The keyspace after SET.
pub open spec fn set_state(m: Keyspace, key: Seq<char>, value: Seq<u8>) -> Keyspace {
    m.insert(key, EntryView::Scalar(value))
}

/// How many of `keys`, counted with repetition, are present in `m`.
pub open spec fn present(m: Keyspace, keys: Seq<Seq<char>>) -> nat
    decreases keys.len(),
{
    if keys.len() == 0 {
        0
    } else {
        present(m, keys.drop_last()) + if m.contains_key(keys.last()) {
            1nat
        } else {
            0nat
        }
    }
}

/// A list after `values` were pushed one by one, in order, at `side`.
pub open spec fn pushed(list: Seq<Seq<u8>>, values: Seq<Seq<u8>>, side: Side) -> Seq<Seq<u8>> {
    match side {
        Side::Front => values.reverse() + list,
        Side::Back => list + values,
    }
}

/// How a batch of values is shared out among queued consumers.
pub ghost struct HandOff {
    /// Who gets what, in the order the consumers were queued.
    pub served: Seq<Parcel>,
    /// The consumers that are still waiting.
    pub waiting: Seq<Waiter>,
    /// The values that nobody took, in their order in the batch.
    pub unclaimed: Seq<Seq<u8>>,
}

/// Pairs queued consumers with the values of a batch pushed to `key`: the
/// oldest consumer is served first and takes the first value of what is left
/// of the batch if it pops from the front, the last if it pops from the back;
/// this goes on until the consumers or the values run out.
pub open spec fn hand_off(key: Seq<char>, waiters: Seq<Waiter>, values: Seq<Seq<u8>>) -> HandOff
    decreases waiters.len(),
{
    if waiters.len() == 0 || values.len() == 0 {
        HandOff { served: Seq::empty(), waiting: waiters, unclaimed: values }
    } else {
        let first = waiters[0];
        let value = match first.side {
            Side::Front => values.first(),
            Side::Back => values.last(),
        };
        let left = match first.side {
            Side::Front => values.drop_first(),
            Side::Back => values.drop_last(),
        };
        let later = hand_off(key, waiters.drop_first(), left);
        HandOff {
            served: seq![Parcel { waiter: first.id, key, value }] + later.served,
            waiting: later.waiting,
            unclaimed: later.unclaimed,
        }
    }
}

/// The keyspace with `list` at `key`; an empty list is not stored.
pub open spec fn store_list(m: Keyspace, key: Seq<char>, list: Seq<Seq<u8>>) -> Keyspace {
    if list.len() == 0 {
        m.remove(key)
    } else {
        m.insert(key, EntryView::List(list))
    }
}

/// What a push does: the keyspace afterwards, the number it reports or its
/// failure, and the consumers it serves.
pub ghost struct PushEffect {
    pub state: Keyspace,
    pub reply: Result<nat, Error>,
    pub deliveries: Seq<Parcel>,
}

/// LPUSH (`side` is `Front`) and RPUSH (`side` is `Back`) of `values` to `key`
/// in keyspace `m`.
///
/// At an absent key or a list, the values join the list and the reply is the
/// list's new length. At a waiter queue, the values are handed to the waiting
/// consumers as `hand_off` says, what is left of them becomes the list, and
/// the reply is the number of values pushed. At a byte string the push fails
/// and changes nothing.
pub open spec fn push_effect(
    m: Keyspace,
    key: Seq<char>,
    values: Seq<Seq<u8>>,
    side: Side,
) -> PushEffect {
    if !m.contains_key(key) {
        PushEffect {
            state: store_list(m, key, pushed(Seq::empty(), values, side)),
            reply: Ok(values.len()),
            deliveries: Seq::empty(),
        }
    } else {
        match m[key] {
            EntryView::Scalar(_) => PushEffect {
                state: m,
                reply: Err(Error::WrongType),
                deliveries: Seq::empty(),
            },
            EntryView::List(list) => PushEffect {
                state: store_list(m, key, pushed(list, values, side)),
                reply: Ok(pushed(list, values, side).len()),
                deliveries: Seq::empty(),
            },
            EntryView::WaiterQueue(waiters) => {
                let shared = hand_off(key, waiters, values);
                PushEffect {
                    state: if shared.waiting.len() > 0 {
                        m.insert(key, EntryView::WaiterQueue(shared.waiting))
                    } else {
                        store_list(m, key, pushed(Seq::empty(), shared.unclaimed, side))
                    },
                    reply: Ok(values.len()),
                    deliveries: shared.served,
                }
            },
        }
    }
}

/// Whether `key` holds a list that can give up an element.
pub open spec fn ready(m: Keyspace, key: Seq<char>) -> bool {
    m.contains_key(key) && m[key] is List && m[key]->List_0.len() > 0
}

/// An element popped at once: where it came from and the keyspace without it.
pub ghost struct Popped {
    pub state: Keyspace,
    pub key: Seq<char>,
    pub value: Seq<u8>,
}

/// Pops at `side` from the first of `keys`, in order, that is ready; a list
/// that gives up its last element leaves the keyspace. `None` when no key is
/// ready.
pub open spec fn pop_ready(m: Keyspace, keys: Seq<Seq<char>>, side: Side) -> Option<Popped>
    decreases keys.len(),
{
    if keys.len() == 0 {
        None
    } else if ready(m, keys.first()) {
        let list = m[keys.first()]->List_0;
        Some(
            Popped {
                state: store_list(
                    m,
                    keys.first(),
                    match side {
                        Side::Front => list.drop_first(),
                        Side::Back => list.drop_last(),
                    },
                ),
                key: keys.first(),
                value: match side {
                    Side::Front => list.first(),
                    Side::Back => list.last(),
                },
            },
        )
    } else {
        pop_ready(m, keys.drop_first(), side)
    }
}

/// The keyspace after `waiter` joined the queue at `key`: an absent key gets
/// a queue of its own, an existing queue grows at its end, and a key that
/// holds data is left as it is.
pub open spec fn enqueue(m: Keyspace, key: Seq<char>, waiter: Waiter) -> Keyspace {
    if !m.contains_key(key) {
        m.insert(key, EntryView::WaiterQueue(seq![waiter]))
    } else {
        match m[key] {
            EntryView::WaiterQueue(waiters) => m.insert(
                key,
                EntryView::WaiterQueue(waiters.push(waiter)),
            ),
            _ => m,
        }
    }
}

/// The keyspace after `waiter` joined the queue at each of `keys`, in order.
pub open spec fn register(m: Keyspace, keys: Seq<Seq<char>>, waiter: Waiter) -> Keyspace
    decreases keys.len(),
{
    if keys.len() == 0 {
        m
    } else {
        register(enqueue(m, keys.first(), waiter), keys.drop_first(), waiter)
    }
}

/// A key together with the value stored at it.
struct Slot {
    key: String,
    entry: DataTypes,
}

/// No key occurs in two slots.
spec fn distinct(slots: Seq<Slot>) -> bool {
    forall|i: int, j: int|
        0 <= i < j < slots.len() ==> (#[trigger] slots[i]).key@ != (#[trigger] slots[j]).key@
}

/// Whether a value is fit to be stored: a list or a waiter queue is only if it
/// is not empty.
pub open spec fn inhabited(entry: EntryView) -> bool {
    match entry {
        EntryView::Scalar(_) => true,
        EntryView::List(items) => items.len() > 0,
        EntryView::WaiterQueue(waiters) => waiters.len() > 0,
    }
}

spec fn sound(slots: Seq<Slot>) -> bool {
    &&& distinct(slots)
    &&& forall|i: int| 0 <= i < slots.len() ==> inhabited((#[trigger] slots[i]).entry@)
}

spec fn holds(slots: Seq<Slot>, key: Seq<char>) -> bool {
    exists|i: int| 0 <= i < slots.len() && (#[trigger] slots[i]).key@ == key
}

spec fn place(slots: Seq<Slot>, key: Seq<char>) -> int {
    choose|i: int| 0 <= i < slots.len() && (#[trigger] slots[i]).key@ == key
}

spec fn mapping(slots: Seq<Slot>) -> Keyspace {
    Map::new(|key: Seq<char>| holds(slots, key), |key: Seq<char>| slots[place(slots, key)].entry@)
}

proof fn lemma_mapping_at(slots: Seq<Slot>, i: int)
    requires
        distinct(slots),
        0 <= i < slots.len(),
    ensures
        mapping(slots).contains_key(slots[i].key@),
        mapping(slots)[slots[i].key@] == slots[i].entry@,
{
    let key = slots[i].key@;
    assert(holds(slots, key));
    let j = place(slots, key);
    assert(0 <= j < slots.len() && slots[j].key@ == key);
    assert(i == j);
}

proof fn lemma_mapping_push(slots: Seq<Slot>, slot: Slot)
    requires
        distinct(slots),
        !holds(slots, slot.key@),
    ensures
        distinct(slots.push(slot)),
        mapping(slots.push(slot)) == mapping(slots).insert(slot.key@, slot.entry@),
{
    let grown = slots.push(slot);
    assert forall|i: int, j: int| 0 <= i < j < grown.len() implies (#[trigger] grown[i]).key@ != (
    #[trigger] grown[j]).key@ by {
        if j == slots.len() {
            assert(slots[i].key@ != slot.key@);
        } else {
            assert(slots[i].key@ != slots[j].key@);
        }
    }
    assert forall|key: Seq<char>| #[trigger]
        mapping(grown).contains_key(key) == mapping(slots).insert(
            slot.key@,
            slot.entry@,
        ).contains_key(key) by {
        if holds(grown, key) {
            let i = place(grown, key);
            if i < slots.len() {
                assert(slots[i].key@ == key);
            }
        }
        if holds(slots, key) {
            let i = place(slots, key);
            assert(grown[i].key@ == key);
        }
        if key == slot.key@ {
            assert(grown[slots.len() as int].key@ == key);
        }
    }
    assert forall|key: Seq<char>| #[trigger] mapping(grown).contains_key(key) implies mapping(
        grown,
    )[key] == mapping(slots).insert(slot.key@, slot.entry@)[key] by {
        let i = place(grown, key);
        lemma_mapping_at(grown, i);
        if i < slots.len() {
            lemma_mapping_at(slots, i);
        }
    }
    assert(mapping(grown) =~= mapping(slots).insert(slot.key@, slot.entry@));
}

proof fn lemma_mapping_swap_remove(slots: Seq<Slot>, i: int)
    requires
        distinct(slots),
        0 <= i < slots.len(),
    ensures
        distinct(slots.update(i, slots.last()).drop_last()),
        !holds(slots.update(i, slots.last()).drop_last(), slots[i].key@),
        mapping(slots.update(i, slots.last()).drop_last()) == mapping(slots).remove(slots[i].key@),
{
    let rest = slots.update(i, slots.last()).drop_last();
    let last = slots.len() - 1;
    // Where each slot of `rest` came from.
    let origin = |j: int| if j == i { last } else { j };
    assert forall|a: int, b: int| 0 <= a < b < rest.len() implies (#[trigger] rest[a]).key@ != (
    #[trigger] rest[b]).key@ by {
        assert(rest[a] == slots[origin(a)]);
        assert(rest[b] == slots[origin(b)]);
        if origin(a) < origin(b) {
            assert(slots[origin(a)].key@ != slots[origin(b)].key@);
        } else {
            assert(slots[origin(b)].key@ != slots[origin(a)].key@);
        }
    }
    if holds(rest, slots[i].key@) {
        let j = place(rest, slots[i].key@);
        assert(rest[j] == slots[origin(j)]);
        if origin(j) < i {
            assert(slots[origin(j)].key@ != slots[i].key@);
        } else {
            assert(slots[i].key@ != slots[origin(j)].key@);
        }
    }
    assert forall|key: Seq<char>| #[trigger]
        mapping(rest).contains_key(key) == mapping(slots).remove(slots[i].key@).contains_key(
            key,
        ) by {
        if holds(rest, key) {
            let j = place(rest, key);
            assert(rest[j] == slots[origin(j)]);
            assert(slots[origin(j)].key@ == key);
        }
        if holds(slots, key) && key != slots[i].key@ {
            let j = place(slots, key);
            if j == last {
                assert(rest[i].key@ == key);
            } else {
                assert(rest[j].key@ == key);
            }
        }
    }
    assert forall|key: Seq<char>| #[trigger] mapping(rest).contains_key(key) implies mapping(
        rest,
    )[key] == mapping(slots).remove(slots[i].key@)[key] by {
        let j = place(rest, key);
        lemma_mapping_at(rest, j);
        assert(rest[j] == slots[origin(j)]);
        lemma_mapping_at(slots, origin(j));
    }
    assert(mapping(rest) =~= mapping(slots).remove(slots[i].key@));
}

/// The index of the slot that holds `key`, if there is one.
fn find(slots: &Vec<Slot>, key: &String) -> (found: Option<usize>)
    ensures
        match found {
            Some(i) => i < slots.len() && slots[i as int].key@ == key@,
            None => !holds(slots@, key@),
        },
{
    let mut i: usize = 0;
    while i < slots.len()
        invariant
            i <= slots.len(),
            forall|j: int| 0 <= j < i ==> (#[trigger] slots[j]).key@ != key@,
        decreases slots.len() - i,
    {
        if slots[i].key == *key {
            return Some(i);
        }
        i += 1;
    }
    None
}

/// Stores `entry` at `key`, in place of whatever was there.
fn put(slots: &mut Vec<Slot>, key: String, entry: DataTypes)
    requires
        sound(old(slots)@),
        inhabited(entry@),
    ensures
        sound(final(slots)@),
        mapping(final(slots)@) == mapping(old(slots)@).insert(key@, entry@),
{
    match find(slots, &key) {
        Some(i) => {
            proof {
                lemma_mapping_swap_remove(slots@, i as int);
            }
            slots.swap_remove(i);
        },
        None => {},
    }
    proof {
        lemma_mapping_push(slots@, Slot { key, entry });
        assert(mapping(old(slots)@).remove(key@).insert(key@, entry@) =~= mapping(
            old(slots)@,
        ).insert(key@, entry@));
        if !holds(old(slots)@, key@) {
            assert(mapping(old(slots)@).remove(key@) =~= mapping(old(slots)@));
        }
    }
    slots.push(Slot { key, entry });
}

/// Removes the value stored at `key` and hands it out.
fn take(slots: &mut Vec<Slot>, key: &String) -> (taken: Option<DataTypes>)
    requires
        sound(old(slots)@),
    ensures
        sound(final(slots)@),
        taken is Some == mapping(old(slots)@).contains_key(key@),
        mapping(final(slots)@) == mapping(old(slots)@).remove(key@),
        taken matches Some(entry) ==> entry@ == mapping(old(slots)@)[key@] && inhabited(entry@),
{
    match find(slots, key) {
        Some(i) => {
            proof {
                lemma_mapping_swap_remove(slots@, i as int);
                lemma_mapping_at(slots@, i as int);
            }
            let slot = slots.swap_remove(i);
            Some(slot.entry)
        },
        None => {
            assert(mapping(slots@).remove(key@) =~= mapping(slots@));
            None
        },
    }
}

/// Stores `list` at `key`, or nothing if the list is empty.
fn put_list(slots: &mut Vec<Slot>, key: String, list: VecDeque<Bytes>)
    requires
        sound(old(slots)@),
        !mapping(old(slots)@).contains_key(key@),
    ensures
        sound(final(slots)@),
        mapping(final(slots)@) == store_list(mapping(old(slots)@), key@, payloads(list@)),
{
    if list.len() > 0 {
        put(slots, key, DataTypes::List(list));
    } else {
        assert(mapping(slots@).remove(key@) =~= mapping(slots@));
    }
}

/// Pushes `values` one by one, in order, at `side` of `list`.
fn push_all(list: &mut VecDeque<Bytes>, values: VecDeque<Bytes>, side: Side)
    ensures
        payloads(final(list)@) == pushed(payloads(old(list)@), payloads(values@), side),
{
    let mut values = values;
    let ghost batch = values@;
    let ghost done: int = 0;
    assert(payloads(batch.take(0)) =~= Seq::<Seq<u8>>::empty());
    assert(pushed(payloads(old(list)@), Seq::empty(), side) =~= payloads(old(list)@));
    while values.len() > 0
        invariant
            0 <= done <= batch.len(),
            values@ == batch.skip(done),
            payloads(list@) == pushed(payloads(old(list)@), payloads(batch.take(done)), side),
        decreases values.len(),
    {
        let ghost before = payloads(list@);
        let value = values.pop_front().unwrap();
        match side {
            Side::Front => list.push_front(value),
            Side::Back => list.push_back(value),
        }
        proof {
            assert(value == batch[done]);
            let seen = payloads(batch.take(done));
            let grown = payloads(batch.take(done + 1));
            assert(grown =~= seen.push(contents(value)));
            assert(grown.reverse() =~= seq![contents(value)] + seen.reverse());
            match side {
                Side::Front => {
                    assert(payloads(list@) =~= seq![contents(value)] + before);
                },
                Side::Back => {
                    assert(payloads(list@) =~= before.push(contents(value)));
                },
            }
            assert(payloads(list@) =~= pushed(payloads(old(list)@), grown, side));
            assert(values@ =~= batch.skip(done + 1));
            done = done + 1;
        }
    }
    assert(batch.take(done) =~= batch);
}

/// Serves queued consumers from a batch pushed to `key` until one of the two
/// runs out.
fn serve(key: &String, waiters: &mut VecDeque<Waiter>, values: &mut VecDeque<Bytes>) -> (deliveries:
    Vec<Delivery>)
    ensures
        parcels(deliveries@) == hand_off(key@, old(waiters)@, payloads(old(values)@)).served,
        final(waiters)@ == hand_off(key@, old(waiters)@, payloads(old(values)@)).waiting,
        payloads(final(values)@) == hand_off(key@, old(waiters)@, payloads(old(values)@)).unclaimed,
        final(waiters)@.len() == 0 || final(values)@.len() == 0,
{
    let mut deliveries: Vec<Delivery> = Vec::new();
    let ghost whole = hand_off(key@, waiters@, payloads(values@));
    assert(parcels(deliveries@) =~= Seq::<Parcel>::empty());
    while waiters.len() > 0 && values.len() > 0
        invariant
            whole.served == parcels(deliveries@) + hand_off(
                key@,
                waiters@,
                payloads(values@),
            ).served,
            whole.waiting == hand_off(key@, waiters@, payloads(values@)).waiting,
            whole.unclaimed == hand_off(key@, waiters@, payloads(values@)).unclaimed,
        decreases waiters.len(),
    {
        let ghost queue = waiters@;
        let ghost batch = payloads(values@);
        let ghost sent = parcels(deliveries@);
        let first = waiters.pop_front().unwrap();
        let value = match first.side {
            Side::Front => values.pop_front().unwrap(),
            Side::Back => values.pop_back().unwrap(),
        };
        proof {
            assert(waiters@ =~= queue.drop_first());
            match first.side {
                Side::Front => {
                    assert(payloads(values@) =~= batch.drop_first());
                    assert(contents(value) == batch.first());
                },
                Side::Back => {
                    assert(payloads(values@) =~= batch.drop_last());
                    assert(contents(value) == batch.last());
                },
            }
        }
        let delivery = Delivery {
            waiter: first.id,
            package: KeyAndValue { key: key.clone(), value },
        };
        deliveries.push(delivery);
        proof {
            let later = hand_off(key@, waiters@, payloads(values@));
            assert(parcels(deliveries@) =~= sent.push(delivery@));
            assert(hand_off(key@, queue, batch).served == seq![delivery@] + later.served);
            assert(sent + (seq![delivery@] + later.served) =~= sent.push(delivery@)
                + later.served);
        }
    }
    deliveries
}

/// Removes the list stored at `key` and hands it out; a key that holds
/// anything else keeps it.
fn take_list(slots: &mut Vec<Slot>, key: &String) -> (taken: Option<VecDeque<Bytes>>)
    requires
        sound(old(slots)@),
    ensures
        sound(final(slots)@),
        match taken {
            Some(list) => {
                &&& ready(mapping(old(slots)@), key@)
                &&& payloads(list@) == mapping(old(slots)@)[key@]->List_0
                &&& mapping(final(slots)@) == mapping(old(slots)@).remove(key@)
            },
            None => {
                &&& !ready(mapping(old(slots)@), key@)
                &&& mapping(final(slots)@) == mapping(old(slots)@)
            },
        },
{
    let ghost before = mapping(slots@);
    match take(slots, key) {
        Some(DataTypes::List(list)) => Some(list),
        Some(entry) => {
            put(slots, key.clone(), entry);
            assert(mapping(slots@) =~= before);
            None
        },
        None => {
            assert(mapping(slots@) =~= before);
            None
        },
    }
}

/// Pops from the first of `keys` that holds a list.
fn pop_first(slots: &mut Vec<Slot>, keys: &Vec<String>, side: Side) -> (popped: Option<KeyAndValue>)
    requires
        sound(old(slots)@),
    ensures
        sound(final(slots)@),
        match pop_ready(mapping(old(slots)@), keys.deep_view(), side) {
            Some(p) => {
                &&& mapping(final(slots)@) == p.state
                &&& popped matches Some(package)
                &&& package.key@ == p.key
                &&& contents(package.value) == p.value
            },
            None => popped is None && mapping(final(slots)@) == mapping(old(slots)@),
        },
{
    let ghost names = keys.deep_view();
    let ghost before = mapping(slots@);
    let mut i: usize = 0;
    assert(names.skip(0) =~= names);
    while i < keys.len()
        invariant
            i <= keys.len(),
            names == keys.deep_view(),
            before == mapping(old(slots)@),
            before == mapping(slots@),
            sound(slots@),
            pop_ready(before, names, side) == pop_ready(before, names.skip(i as int), side),
        decreases keys.len() - i,
    {
        let key = &keys[i];
        proof {
            assert(names.skip(i as int).first() == key@);
            assert(names.skip(i as int).drop_first() =~= names.skip(i + 1));
        }
        match take_list(slots, key) {
            Some(list) => {
                let mut list = list;
                let ghost whole = payloads(list@);
                let value = match side {
                    Side::Front => list.pop_front().unwrap(),
                    Side::Back => list.pop_back().unwrap(),
                };
                proof {
                    match side {
                        Side::Front => {
                            assert(payloads(list@) =~= whole.drop_first());
                            assert(contents(value) == whole.first());
                        },
                        Side::Back => {
                            assert(payloads(list@) =~= whole.drop_last());
                            assert(contents(value) == whole.last());
                        },
                    }
                }
                put_list(slots, key.clone(), list);
                assert(mapping(slots@) =~= store_list(before, key@, payloads(list@)));
                return Some(KeyAndValue { key: key.clone(), value });
            },
            None => {},
        }
        i += 1;
    }
    None
}

/// Queues `waiter` at `key` unless the key holds data.
fn enqueue_at(slots: &mut Vec<Slot>, key: &String, waiter: Waiter)
    requires
        sound(old(slots)@),
    ensures
        sound(final(slots)@),
        mapping(final(slots)@) == enqueue(mapping(old(slots)@), key@, waiter),
{
    let ghost before = mapping(slots@);
    match take(slots, key) {
        None => {
            let mut waiters: VecDeque<Waiter> = VecDeque::new();
            waiters.push_back(waiter);
            assert(waiters@ =~= seq![waiter]);
            put(slots, key.clone(), DataTypes::WaiterQueue(waiters));
            assert(mapping(slots@) =~= before.insert(key@, EntryView::WaiterQueue(seq![waiter])));
        },
        Some(DataTypes::WaiterQueue(waiters)) => {
            let mut waiters = waiters;
            waiters.push_back(waiter);
            put(slots, key.clone(), DataTypes::WaiterQueue(waiters));
            assert(mapping(slots@) =~= before.insert(key@, EntryView::WaiterQueue(waiters@)));
        },
        Some(entry) => {
            put(slots, key.clone(), entry);
            assert(mapping(slots@) =~= before);
        },
    }
}

/// Queues `waiter` at each of `keys`, in order.
fn register_all(slots: &mut Vec<Slot>, keys: &Vec<String>, waiter: Waiter)
    requires
        sound(old(slots)@),
    ensures
        sound(final(slots)@),
        mapping(final(slots)@) == register(mapping(old(slots)@), keys.deep_view(), waiter),
{
    let ghost names = keys.deep_view();
    let ghost before = mapping(slots@);
    let mut i: usize = 0;
    assert(names.skip(0) =~= names);
    while i < keys.len()
        invariant
            i <= keys.len(),
            names == keys.deep_view(),
            sound(slots@),
            register(before, names, waiter) == register(
                mapping(slots@),
                names.skip(i as int),
                waiter,
            ),
        decreases keys.len() - i,
    {
        proof {
            assert(names.skip(i as int).first() == keys[i as int]@);
            assert(names.skip(i as int).drop_first() =~= names.skip(i + 1));
        }
        enqueue_at(slots, &keys[i], waiter);
        i += 1;
    }
}

/// One shard: a keyspace in which every key maps to exactly one value.
///
/// The keys are kept in a vector, each of them once, and no list or waiter
/// queue that is kept is empty.
pub struct Db {
    slots: Vec<Slot>,
}

impl View for Db {
    type V = Keyspace;

    closed spec fn view(&self) -> Keyspace {
        mapping(self.slots@)
    }
}

impl Db {
    #[verifier::type_invariant]
    spec fn well_formed(self) -> bool {
        sound(self.slots@)
    }

    /// A keyspace without keys.
    pub fn new() -> (db: Db)
        ensures
            db@ == Keyspace::empty(),
    {
        let db = Db { slots: Vec::new() };
        assert(db@ =~= Keyspace::empty());
        db
    }

    /// GET: the byte string at `key`, nothing where the key is absent, and
    /// `WrongType` where the key holds a list or a waiter queue.
    pub fn get(&self, key: &String) -> (answer: Result<Option<Bytes>, Error>)
        ensures
            bytes_of(answer) == get_answer(self@, key@),
    {
        proof {
            use_type_invariant(self);
        }
        match find(&self.slots, key) {
            Some(i) => {
                proof {
                    lemma_mapping_at(self.slots@, i as int);
                }
                match &self.slots[i].entry {
                    DataTypes::Scalar(value) => Ok(Some(value.clone())),
                    _ => Err(Error::WrongType),
                }
            },
            None => Ok(None),
        }
    }

    /// SET: `key` holds `value` afterwards, whatever it held before; waiters
    /// queued at the key are dropped without notice.
    pub fn set(&mut self, key: String, value: Bytes)
        ensures
            final(self)@ == set_state(old(self)@, key@, contents(value)),
    {
        proof {
            use_type_invariant(&*self);
        }
        let mut slots: Vec<Slot> = Vec::new();
        std::mem::swap(&mut slots, &mut self.slots);
        put(&mut slots, key, DataTypes::Scalar(value));
        self.slots = slots;
    }

    /// EXISTS: how many of `keys`, counted with repetition, hold a value of
    /// any kind.
    pub fn count_present(&self, keys: &Vec<String>) -> (count: u64)
        ensures
            count == present(self@, keys.deep_view()),
    {
        proof {
            use_type_invariant(self);
        }
        let mut count: usize = 0;
        let mut i: usize = 0;
        while i < keys.len()
            invariant
                i <= keys.len(),
                count <= i,
                sound(self.slots@),
                count == present(self@, keys.deep_view().take(i as int)),
            decreases keys.len() - i,
        {
            let found = find(&self.slots, &keys[i]);
            proof {
                let before = keys.deep_view().take(i as int);
                let after = keys.deep_view().take(i + 1);
                assert(after.drop_last() =~= before);
                assert(after.last() == keys[i as int]@);
                if found is Some {
                    lemma_mapping_at(self.slots@, found->0 as int);
                }
            }
            if found.is_some() {
                count += 1;
            }
            i += 1;
        }
        assert(keys.deep_view().take(keys.len() as int) =~= keys.deep_view());
        count as u64
    }

    /// LPUSH and RPUSH: pushes `values`, in order, at `side` of the list at
    /// `key`, or hands them to the consumers waiting there.
    pub fn push(&mut self, key: String, values: VecDeque<Bytes>, side: Side) -> (outcome: Result<
        Pushed,
        Error,
    >)
        ensures
            final(self)@ == push_effect(old(self)@, key@, payloads(values@), side).state,
            match outcome {
                Ok(done) => {
                    &&& push_effect(old(self)@, key@, payloads(values@), side).reply == Ok::<
                        nat,
                        Error,
                    >(done.count as nat)
                    &&& parcels(done.deliveries@) == push_effect(
                        old(self)@,
                        key@,
                        payloads(values@),
                        side,
                    ).deliveries
                },
                Err(e) => push_effect(old(self)@, key@, payloads(values@), side).reply == Err::<
                    nat,
                    Error,
                >(e),
            },
    {
        proof {
            use_type_invariant(&*self);
        }
        let mut slots: Vec<Slot> = Vec::new();
        std::mem::swap(&mut slots, &mut self.slots);
        let ghost before = mapping(slots@);
        let outcome = match take(&mut slots, &key) {
            None => {
                let mut list: VecDeque<Bytes> = VecDeque::new();
                assert(payloads(list@) =~= Seq::<Seq<u8>>::empty());
                push_all(&mut list, values, side);
                let count = list.len() as u64;
                put_list(&mut slots, key, list);
                assert(mapping(slots@) =~= store_list(
                    before,
                    key@,
                    pushed(Seq::empty(), payloads(values@), side),
                ));
                Ok(Pushed { count, deliveries: Vec::new() })
            },
            Some(DataTypes::Scalar(value)) => {
                put(&mut slots, key, DataTypes::Scalar(value));
                assert(mapping(slots@) =~= before);
                Err(Error::WrongType)
            },
            Some(DataTypes::List(list)) => {
                let mut list = list;
                push_all(&mut list, values, side);
                let count = list.len() as u64;
                put_list(&mut slots, key, list);
                assert(mapping(slots@) =~= store_list(
                    before,
                    key@,
                    pushed(before[key@]->List_0, payloads(values@), side),
                ));
                Ok(Pushed { count, deliveries: Vec::new() })
            },
            Some(DataTypes::WaiterQueue(waiters)) => {
                let mut waiters = waiters;
                let mut values = values;
                let count = values.len() as u64;
                let deliveries = serve(&key, &mut waiters, &mut values);
                if waiters.len() > 0 {
                    put(&mut slots, key, DataTypes::WaiterQueue(waiters));
                    assert(mapping(slots@) =~= before.insert(
                        key@,
                        EntryView::WaiterQueue(waiters@),
                    ));
                } else {
                    let mut list: VecDeque<Bytes> = VecDeque::new();
                    assert(payloads(list@) =~= Seq::<Seq<u8>>::empty());
                    let ghost unclaimed = payloads(values@);
                    push_all(&mut list, values, side);
                    put_list(&mut slots, key, list);
                    assert(mapping(slots@) =~= store_list(
                        before,
                        key@,
                        pushed(Seq::empty(), unclaimed, side),
                    ));
                }
                Ok(Pushed { count, deliveries })
            },
        };
        self.slots = slots;
        outcome
    }

    /// The shard's part of BLPOP (`side` is `Front`) and BRPOP (`side` is
    /// `Back`): pops from the first of `keys` that holds a list, or, if none
    /// does, queues the consumer `waiter` at every key that holds no data.
    pub fn pop(&mut self, keys: &Vec<String>, side: Side, waiter: u64) -> (popped: Option<
        KeyAndValue,
    >)
        ensures
            match pop_ready(old(self)@, keys.deep_view(), side) {
                Some(p) => {
                    &&& final(self)@ == p.state
                    &&& popped matches Some(package)
                    &&& package.key@ == p.key
                    &&& contents(package.value) == p.value
                },
                None => {
                    &&& popped is None
                    &&& final(self)@ == register(
                        old(self)@,
                        keys.deep_view(),
                        Waiter { id: waiter, side },
                    )
                },
            },
    {
        proof {
            use_type_invariant(&*self);
        }
        let mut slots: Vec<Slot> = Vec::new();
        std::mem::swap(&mut slots, &mut self.slots);
        let popped = pop_first(&mut slots, keys, side);
        if popped.is_none() {
            register_all(&mut slots, keys, Waiter { id: waiter, side });
        }
        self.slots = slots;
        popped
    }
}

/// The shards of a server, each with its own keyspace.
pub struct AllDbs {
    dbs: Vec<Db>,
}

impl View for AllDbs {
    type V = Seq<Keyspace>;

    /// The keyspaces of the shards, by index.
    closed spec fn view(&self) -> Seq<Keyspace> {
        Seq::new(self.dbs@.len(), |i: int| self.dbs@[i]@)
    }
}

impl AllDbs {
    #[verifier::type_invariant]
    spec fn complete(self) -> bool {
        self.dbs@.len() == NUM_DBS
    }

    /// As many shards as a server has, all of them empty.
    pub fn new() -> (all: AllDbs)
        ensures
            all@.len() == NUM_DBS,
            forall|i: int| 0 <= i < NUM_DBS ==> #[trigger] all@[i] == Keyspace::empty(),
    {
        let mut dbs: Vec<Db> = Vec::new();
        while dbs.len() < NUM_DBS
            invariant
                dbs@.len() <= NUM_DBS,
                forall|i: int| 0 <= i < dbs@.len() ==> (#[trigger] dbs@[i])@ == Keyspace::empty(),
            decreases NUM_DBS - dbs@.len(),
        {
            dbs.push(Db::new());
        }
        AllDbs { dbs }
    }

    /// The shard with the index `index`, if there is one.
    pub fn get_instance(&self, index: usize) -> (db: Option<&Db>)
        ensures
            self@.len() == NUM_DBS,
            match db {
                Some(shard) => index < NUM_DBS && shard@ == self@[index as int],
                None => index >= NUM_DBS,
            },
    {
        proof {
            use_type_invariant(self);
        }
        if index < NUM_DBS {
            Some(&self.dbs[index])
        } else {
            None
        }
    }

    /// Carries out `cmd` on the shard with the index `index` and leaves the
    /// other shards as they are; does nothing if there is no such shard.
    pub fn execute(&mut self, index: usize, cmd: &Command, waiter: u64) -> (outcome: Option<
        Outcome,
    >)
        ensures
            final(self)@.len() == old(self)@.len() == NUM_DBS,
            match outcome {
                Some(done) => {
                    &&& index < NUM_DBS
                    &&& final(self)@ == old(self)@.update(
                        index as int,
                        effect(old(self)@[index as int], cmd@, waiter).state,
                    )
                    &&& done.reply@ == effect(old(self)@[index as int], cmd@, waiter).reply
                    &&& parcels(done.deliveries@) == effect(
                        old(self)@[index as int],
                        cmd@,
                        waiter,
                    ).deliveries
                },
                None => index >= NUM_DBS && final(self)@ == old(self)@,
            },
    {
        proof {
            use_type_invariant(&*self);
        }
        if index >= NUM_DBS {
            return None;
        }
        let ghost before = self@;
        let mut shard = Db::new();
        std::mem::swap(&mut shard, &mut self.dbs[index]);
        let outcome = shard.execute(cmd, waiter);
        std::mem::swap(&mut shard, &mut self.dbs[index]);
        proof {
            assert(self@ =~= before.update(
                index as int,
                effect(before[index as int], cmd@, waiter).state,
            ));
        }
        Some(outcome)
    }
}

} // verus!
