use vstd::prelude::*;
use vstd::seq_lib::lemma_flatten_concat;
use crate::line::{frames, is_line};
use crate::handler::{
    connect_of, disconnect_of, fresh, quiet, step_ok, Action, EventModel, HandlerModel, Phase,
    ReactionModel,
};

verus! {

/// `states` and `reactions` are what a handler goes through, starting in
/// `start`, when it is handed `events` one after another.
pub open spec fn is_run(
    start: HandlerModel,
    events: Seq<EventModel>,
    states: Seq<HandlerModel>,
    reactions: Seq<ReactionModel>,
) -> bool {
    &&& states.len() == events.len() + 1
    &&& reactions.len() == events.len()
    &&& states[0] == start
    &&& forall|i: int|
        0 <= i < events.len() ==> step_ok(states[i], #[trigger] events[i], states[i + 1], reactions[i])
}

/// The lifecycle actions sent over a run, in order.
pub open spec fn actions_of(reactions: Seq<ReactionModel>) -> Seq<Action>
    decreases reactions.len(),
{
    if reactions.len() == 0 {
        Seq::empty()
    } else {
        actions_of(reactions.drop_last()) + match reactions.last().action {
            Some(a) => seq![a],
            None => Seq::empty(),
        }
    }
}

/// The bytes written back to the connection over a run, in order.
pub open spec fn echoed_of(reactions: Seq<ReactionModel>) -> Seq<u8>
    decreases reactions.len(),
{
    if reactions.len() == 0 {
        Seq::empty()
    } else {
        echoed_of(reactions.drop_last()) + reactions.last().echo.flatten()
    }
}

/// The bytes read from the connection, in order.
pub open spec fn received(events: Seq<EventModel>) -> Seq<u8>
    decreases events.len(),
{
    if events.len() == 0 {
        Seq::empty()
    } else {
        received(events.drop_last()) + match events.last() {
            EventModel::Data(d) => d,
            _ => Seq::empty(),
        }
    }
}

/// The actions that a handler in state `s` has sent since it was created.
pub open spec fn lifecycle_actions(s: HandlerModel) -> Seq<Action> {
    match s.phase {
        Phase::Starting => Seq::empty(),
        Phase::Connected => seq![connect_of(s.client)],
        Phase::Disconnected => seq![connect_of(s.client), disconnect_of(s.client)],
    }
}

/// An event on which a connected handler stops.
pub open spec fn is_terminal(e: EventModel) -> bool {
    match e {
        EventModel::Data(d) => d.len() == 0,
        EventModel::Start => false,
        _ => true,
    }
}

proof fn lemma_run_prefix(
    start: HandlerModel,
    events: Seq<EventModel>,
    states: Seq<HandlerModel>,
    reactions: Seq<ReactionModel>,
)
    requires
        is_run(start, events, states, reactions),
        events.len() > 0,
    ensures
        is_run(start, events.drop_last(), states.drop_last(), reactions.drop_last()),
        states.drop_last().last() == states[events.len() - 1],
{
    assert forall|i: int| 0 <= i < events.drop_last().len() implies step_ok(
        states.drop_last()[i],
        #[trigger] events.drop_last()[i],
        states.drop_last()[i + 1],
        reactions.drop_last()[i],
    ) by {
        assert(step_ok(states[i], events[i], states[i + 1], reactions[i]));
    }
}

/// A handler reports its connection's life and nothing else: from its
/// creation it has sent nothing before it starts, exactly one `ClientConnect`
/// while connected, and that action followed by exactly one
/// `ClientDisconnect` once disconnected, all naming its own connection.
pub proof fn lemma_lifecycle(
    client: u64,
    events: Seq<EventModel>,
    states: Seq<HandlerModel>,
    reactions: Seq<ReactionModel>,
)
    requires
        is_run(fresh(client), events, states, reactions),
    ensures
        states.last().client == client,
        actions_of(reactions) == lifecycle_actions(states.last()),
    decreases events.len(),
{
    if events.len() > 0 {
        let n = events.len() - 1;
        lemma_run_prefix(fresh(client), events, states, reactions);
        lemma_lifecycle(client, events.drop_last(), states.drop_last(), reactions.drop_last());
        assert(step_ok(states[n], events[n], states[n + 1], reactions[n]));
        assert(actions_of(reactions) =~= lifecycle_actions(states.last()));
    }
}

/// Once a handler has disconnected, every further event leaves it as it is
/// and gets no echo and no action: a connection that already ended is never
/// reported as disconnected a second time.
pub proof fn lemma_disconnected_is_final(
    start: HandlerModel,
    events: Seq<EventModel>,
    states: Seq<HandlerModel>,
    reactions: Seq<ReactionModel>,
    k: int,
)
    requires
        is_run(start, events, states, reactions),
        0 <= k < states.len(),
        states[k].phase == Phase::Disconnected,
    ensures
        forall|m: int| k <= m < events.len() ==> #[trigger] reactions[m] == quiet(),
        states.last() == states[k],
    decreases events.len() - k,
{
    if k < events.len() {
        assert(step_ok(states[k], events[k], states[k + 1], reactions[k]));
        lemma_disconnected_is_final(start, events, states, reactions, k + 1);
    }
}

proof fn lemma_started_stays_started(
    start: HandlerModel,
    events: Seq<EventModel>,
    states: Seq<HandlerModel>,
    reactions: Seq<ReactionModel>,
    k: int,
)
    requires
        is_run(start, events, states, reactions),
        0 <= k < states.len(),
        states[k].phase != Phase::Starting,
    ensures
        forall|m: int| k <= m < states.len() ==> #[trigger] states[m].phase != Phase::Starting,
    decreases states.len() - k,
{
    if k < events.len() {
        assert(step_ok(states[k], events[k], states[k + 1], reactions[k]));
        lemma_started_stays_started(start, events, states, reactions, k + 1);
    }
}

/// A handler that was started and then meets the end of its stream, or a
/// hard error, ends disconnected, having sent exactly one `ClientConnect`
/// and then exactly one `ClientDisconnect` for its connection, whatever else
/// it was handed before or after.
pub proof fn lemma_closed_connection_reported(
    client: u64,
    events: Seq<EventModel>,
    states: Seq<HandlerModel>,
    reactions: Seq<ReactionModel>,
    i: int,
    j: int,
)
    requires
        is_run(fresh(client), events, states, reactions),
        0 <= i < j < events.len(),
        events[i] == EventModel::Start,
        is_terminal(events[j]),
    ensures
        states.last().phase == Phase::Disconnected,
        actions_of(reactions) == seq![connect_of(client), disconnect_of(client)],
{
    assert(step_ok(states[i], events[i], states[i + 1], reactions[i]));
    lemma_started_stays_started(fresh(client), events, states, reactions, i + 1);
    assert(states[j].phase != Phase::Starting);
    assert(step_ok(states[j], events[j], states[j + 1], reactions[j]));
    lemma_disconnected_is_final(fresh(client), events, states, reactions, j + 1);
    lemma_lifecycle(client, events, states, reactions);
}

proof fn lemma_prefix_extend(a: Seq<u8>, b: Seq<u8>, d: Seq<u8>)
    requires
        a.is_prefix_of(b),
    ensures
        a.is_prefix_of(b + d),
{
    assert forall|i: int| 0 <= i < a.len() implies a[i] == (b + d)[i] by {
        assert(a[i] == b[i]);
    }
}

/// The bytes that a handler read from its own connection while it was
/// connected, in order: what it has to echo.
pub open spec fn accepted(events: Seq<EventModel>, states: Seq<HandlerModel>) -> Seq<u8>
    decreases events.len(),
{
    if events.len() == 0 {
        Seq::empty()
    } else {
        accepted(events.drop_last(), states) + match events.last() {
            EventModel::Data(d) => if states[events.len() - 1].phase == Phase::Connected {
                d
            } else {
                Seq::empty()
            },
            _ => Seq::empty(),
        }
    }
}

proof fn lemma_accepted_prefix(events: Seq<EventModel>, states: Seq<HandlerModel>, other: Seq<HandlerModel>)
    requires
        forall|i: int| 0 <= i < events.len() ==> #[trigger] states[i] == other[i],
    ensures
        accepted(events, states) == accepted(events, other),
    decreases events.len(),
{
    if events.len() > 0 {
        lemma_accepted_prefix(events.drop_last(), states, other);
    }
}

/// What a handler has written back is always a prefix of what it read from
/// its own connection while connected; while it is connected, what it wrote
/// back followed by the unfinished line it holds is exactly that input.
pub proof fn lemma_echo_is_own_input(
    client: u64,
    events: Seq<EventModel>,
    states: Seq<HandlerModel>,
    reactions: Seq<ReactionModel>,
)
    requires
        is_run(fresh(client), events, states, reactions),
    ensures
        echoed_of(reactions).is_prefix_of(accepted(events, states)),
        states.last().phase != Phase::Disconnected ==> echoed_of(reactions) + states.last().pending
            == accepted(events, states),
    decreases events.len(),
{
    if events.len() == 0 {
        assert(echoed_of(reactions) + states.last().pending =~= accepted(events, states));
    } else {
        let n = events.len() - 1;
        lemma_run_prefix(fresh(client), events, states, reactions);
        lemma_echo_is_own_input(client, events.drop_last(), states.drop_last(), reactions.drop_last());
        lemma_accepted_prefix(events.drop_last(), states.drop_last(), states);
        let s = states[n];
        let t = states[n + 1];
        let r = reactions[n];
        let e = events[n];
        assert(step_ok(s, e, t, r));
        let before = echoed_of(reactions.drop_last());
        let got = accepted(events.drop_last(), states);
        let d = match e {
            EventModel::Data(d) => if s.phase == Phase::Connected {
                d
            } else {
                Seq::empty()
            },
            _ => Seq::empty(),
        };
        assert(accepted(events, states) == got + d);
        assert(echoed_of(reactions) == before + r.echo.flatten());
        if r.echo.len() == 0 {
            assert(r.echo.flatten() =~= Seq::<u8>::empty());
        } else if r.echo.len() == 1 {
            r.echo.lemma_flatten_singleton();
        }
        if s.phase == Phase::Connected && e is Data && d.len() > 0 {
            let f = r.echo.flatten();
            assert(f + t.pending == s.pending + d);
            assert((before + f) + t.pending =~= before + (f + t.pending));
            assert(echoed_of(reactions) + t.pending =~= (before + s.pending) + d);
            assert(echoed_of(reactions).is_prefix_of(echoed_of(reactions) + t.pending));
        } else if s.phase == Phase::Connected && t.phase == Phase::Disconnected {
            assert(d.len() == 0);
            assert(got + d =~= got);
            if r.echo.len() == 1 {
                assert(echoed_of(reactions) =~= before + s.pending);
            } else {
                assert(echoed_of(reactions) =~= before);
                assert(before.is_prefix_of(before + s.pending));
            }
        } else if s.phase == Phase::Disconnected {
            assert(echoed_of(reactions) =~= before);
            lemma_prefix_extend(before, got, d);
        } else {
            assert(echoed_of(reactions) + t.pending =~= before + s.pending);
            assert(got + d =~= got);
            assert(echoed_of(reactions).is_prefix_of(echoed_of(reactions) + t.pending));
        }
    }
}

proof fn lemma_accepted_all(events: Seq<EventModel>, states: Seq<HandlerModel>)
    requires
        forall|i: int|
            0 <= i < events.len() && (#[trigger] events[i]) is Data ==> states[i].phase
                == Phase::Connected,
    ensures
        accepted(events, states) == received(events),
    decreases events.len(),
{
    if events.len() > 0 {
        lemma_accepted_all(events.drop_last(), states);
        assert(events.last() == events[events.len() - 1]);
    }
}

/// A whole session of one client: the handler starts, reads some non-empty
/// chunks of bytes, then meets the end of the stream.
pub open spec fn is_session(events: Seq<EventModel>) -> bool {
    &&& events.len() >= 2
    &&& events[0] == EventModel::Start
    &&& events.last() == EventModel::EndOfStream
    &&& forall|i: int|
        0 < i < events.len() - 1 ==> (#[trigger] events[i] matches EventModel::Data(d) && d.len()
            > 0)
}

/// Over a whole session the bytes echoed back are exactly the bytes the
/// client sent, in the same order, and the handler reports the connection
/// once and its end once.
pub proof fn lemma_round_trip(
    client: u64,
    events: Seq<EventModel>,
    states: Seq<HandlerModel>,
    reactions: Seq<ReactionModel>,
)
    requires
        is_run(fresh(client), events, states, reactions),
        is_session(events),
    ensures
        echoed_of(reactions) == received(events),
        actions_of(reactions) == seq![connect_of(client), disconnect_of(client)],
{
    let n = events.len() - 1;
    assert(step_ok(states[0], events[0], states[1], reactions[0]));
    assert forall|m: int| 1 <= m <= n implies #[trigger] states[m].phase == Phase::Connected by {
        lemma_stays_connected(events, states, reactions, m);
    }
    lemma_accepted_all(events, states);
    lemma_run_prefix(fresh(client), events, states, reactions);
    lemma_echo_is_own_input(client, events.drop_last(), states.drop_last(), reactions.drop_last());
    lemma_accepted_prefix(events.drop_last(), states.drop_last(), states);
    let s = states[n];
    let r = reactions[n];
    assert(step_ok(s, events[n], states[n + 1], r));
    assert(echoed_of(reactions) == echoed_of(reactions.drop_last()) + r.echo.flatten());
    if s.pending.len() > 0 {
        r.echo.lemma_flatten_singleton();
    } else {
        assert(r.echo.flatten() =~= Seq::<u8>::empty());
    }
    assert(echoed_of(reactions) =~= echoed_of(reactions.drop_last()) + s.pending);
    assert(received(events) =~= received(events.drop_last()));
    assert(accepted(events, states) =~= accepted(events.drop_last(), states));
    lemma_closed_connection_reported(client, events, states, reactions, 0, n);
}

proof fn lemma_stays_connected(
    events: Seq<EventModel>,
    states: Seq<HandlerModel>,
    reactions: Seq<ReactionModel>,
    m: int,
)
    requires
        states.len() == events.len() + 1,
        reactions.len() == events.len(),
        forall|i: int|
            0 <= i < events.len() ==> step_ok(states[i], #[trigger] events[i], states[i + 1], reactions[i]),
        is_session(events),
        states[1].phase == Phase::Connected,
        1 <= m < events.len(),
    ensures
        states[m].phase == Phase::Connected,
    decreases m,
{
    if m > 1 {
        lemma_stays_connected(events, states, reactions, m - 1);
        assert(step_ok(states[m - 1], events[m - 1], states[m], reactions[m - 1]));
    }
}

/// Two connections served side by side do not see each other: each
/// handler's actions name only its own connection, and what each writes back
/// comes only from what its own client sent.
pub proof fn lemma_clients_isolated(
    a: u64,
    events_a: Seq<EventModel>,
    states_a: Seq<HandlerModel>,
    reactions_a: Seq<ReactionModel>,
    b: u64,
    events_b: Seq<EventModel>,
    states_b: Seq<HandlerModel>,
    reactions_b: Seq<ReactionModel>,
)
    requires
        is_run(fresh(a), events_a, states_a, reactions_a),
        is_run(fresh(b), events_b, states_b, reactions_b),
    ensures
        forall|i: int|
            0 <= i < actions_of(reactions_a).len() ==> (#[trigger] actions_of(reactions_a)[i]).client
                == a,
        forall|i: int|
            0 <= i < actions_of(reactions_b).len() ==> (#[trigger] actions_of(reactions_b)[i]).client
                == b,
        echoed_of(reactions_a).is_prefix_of(accepted(events_a, states_a)),
        echoed_of(reactions_b).is_prefix_of(accepted(events_b, states_b)),
{
    lemma_lifecycle(a, events_a, states_a, reactions_a);
    lemma_lifecycle(b, events_b, states_b, reactions_b);
    lemma_echo_is_own_input(a, events_a, states_a, reactions_a);
    lemma_echo_is_own_input(b, events_b, states_b, reactions_b);
}

/// The lines written back to the connection over a run, in order.
pub open spec fn echo_lines_of(reactions: Seq<ReactionModel>) -> Seq<Seq<u8>>
    decreases reactions.len(),
{
    if reactions.len() == 0 {
        Seq::empty()
    } else {
        echo_lines_of(reactions.drop_last()) + reactions.last().echo
    }
}

proof fn lemma_frames_extend(
    input: Seq<u8>,
    lines: Seq<Seq<u8>>,
    rest: Seq<u8>,
    d: Seq<u8>,
    more: Seq<Seq<u8>>,
    rest2: Seq<u8>,
)
    requires
        frames(input, lines, rest),
        frames(rest + d, more, rest2),
    ensures
        frames(input + d, lines + more, rest2),
{
    lemma_flatten_concat(lines, more);
    assert((lines + more).flatten() + rest2 =~= lines.flatten() + (more.flatten() + rest2));
    assert(input + d =~= lines.flatten() + (rest + d));
    assert forall|i: int| 0 <= i < (lines + more).len() implies is_line(#[trigger] (lines + more)[i]) by {
        if i >= lines.len() {
            assert((lines + more)[i] == more[i - lines.len()]);
        }
    }
}

proof fn lemma_session_prefix(
    client: u64,
    events: Seq<EventModel>,
    states: Seq<HandlerModel>,
    reactions: Seq<ReactionModel>,
    k: int,
)
    requires
        is_run(fresh(client), events, states, reactions),
        is_session(events),
        forall|m: int| 1 <= m < events.len() ==> #[trigger] states[m].phase == Phase::Connected,
        1 <= k < events.len(),
    ensures
        frames(
            received(events.subrange(0, k)),
            echo_lines_of(reactions.subrange(0, k)),
            states[k].pending,
        ),
    decreases k,
{
    let e = events.subrange(0, k);
    let r = reactions.subrange(0, k);
    assert(e.drop_last() =~= events.subrange(0, k - 1));
    assert(r.drop_last() =~= reactions.subrange(0, k - 1));
    assert(step_ok(states[k - 1], events[k - 1], states[k], reactions[k - 1]));
    if k == 1 {
        assert(events.subrange(0, 0) =~= Seq::<EventModel>::empty());
        assert(reactions.subrange(0, 0) =~= Seq::<ReactionModel>::empty());
        assert(e.last() == events[0]);
        assert(r.last() == reactions[0]);
        assert(reactions[0].echo =~= Seq::<Seq<u8>>::empty());
        assert(received(e) == received(e.drop_last()) + Seq::<u8>::empty());
        assert(received(e) =~= Seq::<u8>::empty());
        assert(echo_lines_of(r) == echo_lines_of(r.drop_last()) + reactions[0].echo);
        assert(echo_lines_of(r) =~= Seq::<Seq<u8>>::empty());
        assert(echo_lines_of(r).flatten() =~= Seq::<u8>::empty());
        assert(echo_lines_of(r).flatten() + states[k].pending =~= received(e));
    } else {
        lemma_session_prefix(client, events, states, reactions, k - 1);
        let d = match events[k - 1] {
            EventModel::Data(d) => d,
            _ => Seq::empty(),
        };
        assert(received(e) == received(events.subrange(0, k - 1)) + d);
        assert(echo_lines_of(r) == echo_lines_of(reactions.subrange(0, k - 1)) + reactions[k
            - 1].echo);
        lemma_frames_extend(
            received(events.subrange(0, k - 1)),
            echo_lines_of(reactions.subrange(0, k - 1)),
            states[k - 1].pending,
            d,
            reactions[k - 1].echo,
            states[k].pending,
        );
    }
}

/// Over a whole session the lines written back are the client's bytes cut
/// after each line terminator, in order: each is a complete line, except a
/// last one that holds what the client sent after its last terminator.
pub proof fn lemma_session_lines(
    client: u64,
    events: Seq<EventModel>,
    states: Seq<HandlerModel>,
    reactions: Seq<ReactionModel>,
)
    requires
        is_run(fresh(client), events, states, reactions),
        is_session(events),
    ensures
        ({
            let lines = echo_lines_of(reactions);
            if lines.len() > 0 && !is_line(lines.last()) {
                lines.last().len() > 0 && frames(received(events), lines.drop_last(), lines.last())
            } else {
                frames(received(events), lines, Seq::empty())
            }
        }),
{
    let n = events.len() - 1;
    assert(step_ok(states[0], events[0], states[1], reactions[0]));
    assert forall|m: int| 1 <= m <= n implies #[trigger] states[m].phase == Phase::Connected by {
        lemma_stays_connected(events, states, reactions, m);
    }
    lemma_session_prefix(client, events, states, reactions, n);
    assert(events.subrange(0, n) =~= events.drop_last());
    assert(reactions.subrange(0, n) =~= reactions.drop_last());
    let before = echo_lines_of(reactions.drop_last());
    let s = states[n];
    let r = reactions[n];
    assert(step_ok(s, events[n], states[n + 1], r));
    assert(received(events) =~= received(events.drop_last()));
    let lines = echo_lines_of(reactions);
    assert(lines == before + r.echo);
    if s.pending.len() > 0 {
        assert(lines =~= before.push(s.pending));
        assert(lines.drop_last() =~= before);
        assert(!is_line(s.pending));
    } else {
        assert(lines =~= before);
        assert(s.pending =~= Seq::<u8>::empty());
        if lines.len() > 0 {
            assert(is_line(lines[lines.len() - 1]));
        }
    }
}

} // verus!
