//! What holds of the operations taken together.

use vstd::prelude::*;

use crate::cmd::select::Select;
use crate::cmd::{Command, CommandView};
use crate::db::{
    enqueue, get_answer, hand_off, inhabited, pop_ready, present, push_effect, pushed, ready,
    register, set_state, store_list, EntryView, Keyspace, Parcel, Popped, Side, Waiter, NUM_DBS,
};
use crate::error::Error;
use crate::frame::FrameView;
use crate::server::next_index;
use crate::shard::{effect, ReplyView};

verus! {

/// GET after SET of the same key gives the value that was set, whatever the
/// key held before; what GET gives for another key is as it was.
pub proof fn lemma_get_after_set(m: Keyspace, key: Seq<char>, value: Seq<u8>, other: Seq<char>)
    ensures
        get_answer(set_state(m, key, value), key) == Ok::<Option<Seq<u8>>, Error>(Some(value)),
        other != key ==> get_answer(set_state(m, key, value), other) == get_answer(m, other),
{
}

/// The command SET followed by the command GET of the same key, on one shard,
/// is answered with the value as a bulk string.
pub proof fn lemma_get_command_after_set(
    m: Keyspace,
    key: Seq<char>,
    value: Seq<u8>,
    first: u64,
    second: u64,
)
    ensures
        effect(
            effect(m, CommandView::Store(key, value), first).state,
            CommandView::Get(key),
            second,
        ).reply == ReplyView::Now(FrameView::Bulk(value)),
{
}

/// EXISTS counts no more keys than it is asked about, none for an empty list
/// of keys, and every key when each holds a value.
pub proof fn lemma_present_bounds(m: Keyspace, keys: Seq<Seq<char>>)
    ensures
        present(m, keys) <= keys.len(),
        keys.len() == 0 ==> present(m, keys) == 0,
        (forall|i: int| 0 <= i < keys.len() ==> m.contains_key(#[trigger] keys[i])) ==> present(
            m,
            keys,
        ) == keys.len(),
        (forall|i: int| 0 <= i < keys.len() ==> !m.contains_key(#[trigger] keys[i])) ==> present(
            m,
            keys,
        ) == 0,
    decreases keys.len(),
{
    if keys.len() > 0 {
        lemma_present_bounds(m, keys.drop_last());
        assert forall|i: int| 0 <= i < keys.len() - 1 implies keys.drop_last()[i] == keys[i] by {}
    }
}

/// EXISTS counts one more for a list of keys that is one key longer, if that
/// key holds a value.
pub proof fn lemma_present_push(m: Keyspace, keys: Seq<Seq<char>>, key: Seq<char>)
    ensures
        present(m, keys.push(key)) == present(m, keys) + if m.contains_key(key) {
            1nat
        } else {
            0nat
        },
{
    assert(keys.push(key).drop_last() =~= keys);
}

/// The length of the list at `key`; zero where the key holds no list.
pub open spec fn length_at(m: Keyspace, key: Seq<char>) -> nat {
    if m.contains_key(key) && m[key] is List {
        m[key]->List_0.len()
    } else {
        0
    }
}

/// Whether `key` is absent or holds a list: then a push adds to a list.
pub open spec fn listable(m: Keyspace, key: Seq<char>) -> bool {
    !m.contains_key(key) || m[key] is List
}

/// The keyspace after the pushes `batches` to `key`, one after the other.
pub open spec fn after_pushes(
    m: Keyspace,
    key: Seq<char>,
    batches: Seq<(Side, Seq<Seq<u8>>)>,
) -> Keyspace
    decreases batches.len(),
{
    if batches.len() == 0 {
        m
    } else {
        push_effect(
            after_pushes(m, key, batches.drop_last()),
            key,
            batches.last().1,
            batches.last().0,
        ).state
    }
}

/// The number of values in `batches`.
pub open spec fn pushed_count(batches: Seq<(Side, Seq<Seq<u8>>)>) -> nat
    decreases batches.len(),
{
    if batches.len() == 0 {
        0
    } else {
        pushed_count(batches.drop_last()) + batches.last().1.len()
    }
}

/// A push to an absent key or a list makes the list longer by the number of
/// values pushed, answers with the new length, serves nobody, and leaves the
/// other keys as they are.
pub proof fn lemma_push_adds(
    m: Keyspace,
    key: Seq<char>,
    values: Seq<Seq<u8>>,
    side: Side,
    other: Seq<char>,
)
    requires
        listable(m, key),
    ensures
        listable(push_effect(m, key, values, side).state, key),
        length_at(push_effect(m, key, values, side).state, key) == length_at(m, key)
            + values.len(),
        push_effect(m, key, values, side).reply == Ok::<nat, Error>(
            length_at(m, key) + values.len(),
        ),
        push_effect(m, key, values, side).deliveries.len() == 0,
        other != key ==> push_effect(m, key, values, side).state.contains_key(other)
            == m.contains_key(other),
        other != key && m.contains_key(other) ==> push_effect(m, key, values, side).state[other]
            == m[other],
{
}

/// However pushes at the front and at the back of one key follow each
/// other, starting from an absent key or a list, the list ends up longer by
/// the number of all the values pushed.
pub proof fn lemma_pushes_add_up(m: Keyspace, key: Seq<char>, batches: Seq<(Side, Seq<Seq<u8>>)>)
    requires
        listable(m, key),
    ensures
        listable(after_pushes(m, key, batches), key),
        length_at(after_pushes(m, key, batches), key) == length_at(m, key) + pushed_count(
            batches,
        ),
    decreases batches.len(),
{
    if batches.len() > 0 {
        lemma_pushes_add_up(m, key, batches.drop_last());
        lemma_push_adds(
            after_pushes(m, key, batches.drop_last()),
            key,
            batches.last().1,
            batches.last().0,
            key,
        );
    }
}

/// Two pushes at the front put the later values before the earlier ones, each
/// batch with its last value first; two pushes at the back keep the order in
/// which the values came.
pub proof fn lemma_push_order(list: Seq<Seq<u8>>, first: Seq<Seq<u8>>, second: Seq<Seq<u8>>)
    ensures
        pushed(pushed(list, first, Side::Front), second, Side::Front) == second.reverse()
            + first.reverse() + list,
        pushed(pushed(list, first, Side::Back), second, Side::Back) == list + first + second,
        pushed(list, first, Side::Front).len() == list.len() + first.len(),
        pushed(list, first, Side::Back).len() == list.len() + first.len(),
{
    assert(second.reverse() + (first.reverse() + list) =~= second.reverse() + first.reverse()
        + list);
    assert(list + first + second =~= (list + first) + second);
}

/// A batch pushed to waiting consumers serves as many of them as the smaller
/// of the two numbers, oldest first; the others keep their places, and no
/// value is lost or made up.
pub proof fn lemma_hand_off(key: Seq<char>, waiters: Seq<Waiter>, values: Seq<Seq<u8>>)
    ensures
        hand_off(key, waiters, values).served.len() == if waiters.len() <= values.len() {
            waiters.len()
        } else {
            values.len()
        },
        hand_off(key, waiters, values).waiting == waiters.skip(
            hand_off(key, waiters, values).served.len() as int,
        ),
        hand_off(key, waiters, values).unclaimed.len() + hand_off(
            key,
            waiters,
            values,
        ).served.len() == values.len(),
        hand_off(key, waiters, values).waiting.len() == 0 || hand_off(
            key,
            waiters,
            values,
        ).unclaimed.len() == 0,
        forall|i: int|
            0 <= i < hand_off(key, waiters, values).served.len() ==> {
                &&& (#[trigger] hand_off(key, waiters, values).served[i]).waiter == waiters[i].id
                &&& hand_off(key, waiters, values).served[i].key == key
                &&& values.contains(hand_off(key, waiters, values).served[i].value)
            },
        forall|i: int|
            0 <= i < hand_off(key, waiters, values).unclaimed.len() ==> values.contains(
                #[trigger] hand_off(key, waiters, values).unclaimed[i],
            ),
    decreases waiters.len(),
{
    if waiters.len() == 0 || values.len() == 0 {
        assert(waiters.skip(0) =~= waiters);
    } else {
        let first = waiters[0];
        let left = match first.side {
            Side::Front => values.drop_first(),
            Side::Back => values.drop_last(),
        };
        lemma_hand_off(key, waiters.drop_first(), left);
        let later = hand_off(key, waiters.drop_first(), left);
        let whole = hand_off(key, waiters, values);
        assert(waiters.drop_first().skip(later.served.len() as int) =~= waiters.skip(
            whole.served.len() as int,
        ));
        assert forall|v: Seq<u8>| left.contains(v) implies values.contains(v) by {
            let j = choose|j: int| 0 <= j < left.len() && left[j] == v;
            match first.side {
                Side::Front => {
                    assert(values[j + 1] == v);
                },
                Side::Back => {
                    assert(values[j] == v);
                },
            }
        }
        assert forall|i: int| 0 <= i < whole.served.len() implies {
            &&& (#[trigger] whole.served[i]).waiter == waiters[i].id
            &&& whole.served[i].key == key
            &&& values.contains(whole.served[i].value)
        } by {
            if i == 0 {
                match first.side {
                    Side::Front => {
                        assert(values[0] == whole.served[0].value);
                    },
                    Side::Back => {
                        assert(values[values.len() - 1] == whole.served[0].value);
                    },
                }
            } else {
                assert(whole.served[i] == later.served[i - 1]);
                assert(left.contains(later.served[i - 1].value));
            }
        }
        assert forall|i: int| 0 <= i < whole.unclaimed.len() implies values.contains(
            #[trigger] whole.unclaimed[i],
        ) by {
            assert(left.contains(later.unclaimed[i]));
        }
    }
}

/// Two pushes to a key that was absent leave the list that the two batches
/// make: at the front the later batch before the earlier, each with its last
/// value first; at the back the values as they came.
pub proof fn lemma_two_pushes(
    m: Keyspace,
    key: Seq<char>,
    first: Seq<Seq<u8>>,
    second: Seq<Seq<u8>>,
)
    requires
        !m.contains_key(key),
        first.len() > 0,
    ensures
        push_effect(
            push_effect(m, key, first, Side::Front).state,
            key,
            second,
            Side::Front,
        ).state[key] == EntryView::List(second.reverse() + first.reverse()),
        push_effect(
            push_effect(m, key, first, Side::Back).state,
            key,
            second,
            Side::Back,
        ).state[key] == EntryView::List(first + second),
{
    assert(first.reverse() + Seq::<Seq<u8>>::empty() =~= first.reverse());
    assert(Seq::<Seq<u8>>::empty() + first =~= first);
}

/// A blocking pop at a key whose list has data takes the element at its side
/// at once and leaves the rest of the list; the last element takes the key
/// with it.
pub proof fn lemma_pop_at_once(m: Keyspace, key: Seq<char>, side: Side)
    requires
        ready(m, key),
    ensures
        pop_ready(m, seq![key], side) == Some(
            Popped {
                state: store_list(
                    m,
                    key,
                    match side {
                        Side::Front => m[key]->List_0.drop_first(),
                        Side::Back => m[key]->List_0.drop_last(),
                    },
                ),
                key,
                value: match side {
                    Side::Front => m[key]->List_0.first(),
                    Side::Back => m[key]->List_0.last(),
                },
            },
        ),
{
}

/// A consumer that asked to pop at the front of an absent key, and has been
/// queued there, is served by the next push to the key with the first value
/// of the batch, whatever the side of the push; the values after it become
/// the list.
pub proof fn lemma_blocked_then_pushed(
    m: Keyspace,
    key: Seq<char>,
    waiter: u64,
    values: Seq<Seq<u8>>,
    side: Side,
)
    requires
        !m.contains_key(key),
        values.len() > 0,
    ensures
        pop_ready(m, seq![key], Side::Front) is None,
        push_effect(
            register(m, seq![key], Waiter { id: waiter, side: Side::Front }),
            key,
            values,
            side,
        ).deliveries == seq![Parcel { waiter, key, value: values.first() }],
        push_effect(
            register(m, seq![key], Waiter { id: waiter, side: Side::Front }),
            key,
            values,
            side,
        ).reply == Ok::<nat, Error>(values.len()),
        push_effect(
            register(m, seq![key], Waiter { id: waiter, side: Side::Front }),
            key,
            values,
            side,
        ).state == store_list(m, key, pushed(Seq::empty(), values.drop_first(), side)),
{
    let me = Waiter { id: waiter, side: Side::Front };
    let keys = seq![key];
    assert(keys.drop_first() =~= Seq::<Seq<char>>::empty());
    assert(pop_ready(m, keys.drop_first(), Side::Front) is None);
    let queued = register(m, keys, me);
    assert(register(enqueue(m, key, me), keys.drop_first(), me) == enqueue(m, key, me));
    assert(queued == m.insert(key, EntryView::WaiterQueue(seq![me])));
    let shared = hand_off(key, seq![me], values);
    assert(seq![me].drop_first() =~= Seq::<Waiter>::empty());
    let later = hand_off(key, seq![me].drop_first(), values.drop_first());
    assert(later.served =~= Seq::<Parcel>::empty());
    assert(shared.served =~= seq![Parcel { waiter, key, value: values.first() }]);
    assert(shared.waiting.len() == 0);
    assert(shared.unclaimed == values.drop_first());
    assert(push_effect(queued, key, values, side).state =~= store_list(
        m,
        key,
        pushed(Seq::empty(), values.drop_first(), side),
    ));
}

/// Whether every one of `waiters` pops at `side`.
pub open spec fn all_at(waiters: Seq<Waiter>, side: Side) -> bool {
    forall|i: int| 0 <= i < waiters.len() ==> (#[trigger] waiters[i]).side == side
}

/// Consumers that all pop at the front take the values of a batch in their
/// order, the oldest consumer the first value; what is left of the batch is
/// its end.
pub proof fn lemma_hand_off_front(key: Seq<char>, waiters: Seq<Waiter>, values: Seq<Seq<u8>>)
    requires
        all_at(waiters, Side::Front),
    ensures
        forall|i: int|
            0 <= i < hand_off(key, waiters, values).served.len() ==> (#[trigger] hand_off(
                key,
                waiters,
                values,
            ).served[i]).value == values[i],
        hand_off(key, waiters, values).unclaimed == values.skip(
            hand_off(key, waiters, values).served.len() as int,
        ),
    decreases waiters.len(),
{
    lemma_hand_off(key, waiters, values);
    if waiters.len() == 0 || values.len() == 0 {
        assert(values.skip(0) =~= values);
    } else {
        let later = hand_off(key, waiters.drop_first(), values.drop_first());
        let whole = hand_off(key, waiters, values);
        assert(all_at(waiters.drop_first(), Side::Front)) by {
            assert forall|i: int| 0 <= i < waiters.drop_first().len() implies (
            #[trigger] waiters.drop_first()[i]).side == Side::Front by {
                assert(waiters[i + 1].side == Side::Front);
            }
        }
        lemma_hand_off_front(key, waiters.drop_first(), values.drop_first());
        lemma_hand_off(key, waiters.drop_first(), values.drop_first());
        assert forall|i: int| 0 <= i < whole.served.len() implies (#[trigger] whole.served[i]).value
            == values[i] by {
            if i > 0 {
                assert(whole.served[i] == later.served[i - 1]);
                assert(values.drop_first()[i - 1] == values[i]);
            }
        }
        assert(values.drop_first().skip(later.served.len() as int) =~= values.skip(
            whole.served.len() as int,
        ));
    }
}

/// Consumers that all pop at the back take the values of a batch from its
/// end backwards, the oldest consumer the last value; what is left of the
/// batch is its beginning.
pub proof fn lemma_hand_off_back(key: Seq<char>, waiters: Seq<Waiter>, values: Seq<Seq<u8>>)
    requires
        all_at(waiters, Side::Back),
    ensures
        forall|i: int|
            0 <= i < hand_off(key, waiters, values).served.len() ==> (#[trigger] hand_off(
                key,
                waiters,
                values,
            ).served[i]).value == values[values.len() - 1 - i],
        hand_off(key, waiters, values).unclaimed == values.take(
            values.len() - hand_off(key, waiters, values).served.len(),
        ),
    decreases waiters.len(),
{
    lemma_hand_off(key, waiters, values);
    if waiters.len() == 0 || values.len() == 0 {
        assert(values.take(values.len() as int) =~= values);
    } else {
        let later = hand_off(key, waiters.drop_first(), values.drop_last());
        let whole = hand_off(key, waiters, values);
        assert(all_at(waiters.drop_first(), Side::Back)) by {
            assert forall|i: int| 0 <= i < waiters.drop_first().len() implies (
            #[trigger] waiters.drop_first()[i]).side == Side::Back by {
                assert(waiters[i + 1].side == Side::Back);
            }
        }
        lemma_hand_off_back(key, waiters.drop_first(), values.drop_last());
        lemma_hand_off(key, waiters.drop_first(), values.drop_last());
        assert forall|i: int| 0 <= i < whole.served.len() implies (#[trigger] whole.served[i]).value
            == values[values.len() - 1 - i] by {
            if i > 0 {
                assert(whole.served[i] == later.served[i - 1]);
                assert(values.drop_last()[values.len() - 1 - i] == values[values.len() - 1 - i]);
            }
        }
        assert(values.drop_last().take(values.len() - 1 - later.served.len()) =~= values.take(
            values.len() - whole.served.len(),
        ));
    }
}

/// Whether no key of `m` holds an empty list or an empty waiter queue.
pub open spec fn tidy(m: Keyspace) -> bool {
    forall|key: Seq<char>| m.contains_key(key) ==> inhabited(#[trigger] m[key])
}

/// Queueing a consumer at keys leaves no key with an empty list or queue.
pub proof fn lemma_register_keeps_tidy(m: Keyspace, keys: Seq<Seq<char>>, waiter: Waiter)
    requires
        tidy(m),
    ensures
        tidy(register(m, keys, waiter)),
    decreases keys.len(),
{
    if keys.len() > 0 {
        let next = enqueue(m, keys.first(), waiter);
        assert forall|key: Seq<char>| next.contains_key(key) implies inhabited(
            #[trigger] next[key],
        ) by {
            if key != keys.first() {
                assert(m.contains_key(key));
            }
        }
        lemma_register_keeps_tidy(next, keys.drop_first(), waiter);
    }
}

/// Popping from the first list with data leaves no key with an empty list or
/// queue: a list that gives up its last element leaves the keyspace.
pub proof fn lemma_pop_keeps_tidy(m: Keyspace, keys: Seq<Seq<char>>, side: Side)
    requires
        tidy(m),
    ensures
        pop_ready(m, keys, side) matches Some(popped) ==> tidy(popped.state),
    decreases keys.len(),
{
    if keys.len() > 0 {
        if ready(m, keys.first()) {
            let popped = pop_ready(m, keys, side)->0;
            assert forall|key: Seq<char>| popped.state.contains_key(key) implies inhabited(
                #[trigger] popped.state[key],
            ) by {
                if key != keys.first() {
                    assert(m.contains_key(key));
                }
            }
        } else {
            lemma_pop_keeps_tidy(m, keys.drop_first(), side);
        }
    }
}

/// No command leaves a key with an empty list or an empty waiter queue: a
/// key whose list or queue runs empty leaves the keyspace.
pub proof fn lemma_effect_keeps_tidy(m: Keyspace, cmd: CommandView, waiter: u64)
    requires
        tidy(m),
    ensures
        tidy(effect(m, cmd, waiter).state),
{
    let after = effect(m, cmd, waiter).state;
    match cmd {
        CommandView::Blpop(keys, _) => {
            lemma_pop_keeps_tidy(m, keys, Side::Front);
            lemma_register_keeps_tidy(m, keys, Waiter { id: waiter, side: Side::Front });
        },
        CommandView::Brpop(keys, _) => {
            lemma_pop_keeps_tidy(m, keys, Side::Back);
            lemma_register_keeps_tidy(m, keys, Waiter { id: waiter, side: Side::Back });
        },
        _ => {
            assert forall|key: Seq<char>| after.contains_key(key) implies inhabited(
                #[trigger] after[key],
            ) by {
                if m.contains_key(key) {
                    assert(inhabited(m[key]));
                }
            }
        },
    }
}

/// A request that is read as SELECT names a shard that exists: an index
/// outside the shards is never accepted, and never changed into another.
pub proof fn lemma_select_in_range(frame: FrameView)
    ensures
        Command::parsed(frame) matches Ok(CommandView::Select(index)) ==> index < NUM_DBS,
{
}

/// A request that fails to be read leaves the active shard of its connection
/// as it is; so does every command but SELECT.
pub proof fn lemma_index_kept(index: usize, frame: FrameView)
    ensures
        Command::parsed(frame) is Err ==> next_index(index, frame) == index,
        Command::parsed(frame) is Ok && !(Command::parsed(frame)->Ok_0 is Select) ==> next_index(
            index,
            frame,
        ) == index,
        index < NUM_DBS ==> next_index(index, frame) < NUM_DBS,
{
}

} // verus!
