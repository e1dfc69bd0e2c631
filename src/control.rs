use vstd::prelude::*;
use crate::handler::{fresh, Action, ActionType, EventModel, HandlerModel, Phase, ReactionModel};
use crate::runs::{actions_of, is_run, lemma_lifecycle};

verus! {

/// What one non-blocking poll of the listening socket found.
#[derive(Clone, Copy, Debug, PartialEq, Eq, Structural)]
pub enum AcceptOutcome {
    /// A new connection was accepted.
    Accepted,
    /// No connection is pending; the poll would have blocked.
    NoneReady,
    /// Accepting failed with an error other than "would block".
    Failed,
}

/// What the control loop does after a poll of the listening socket.
#[derive(Clone, Copy, Debug, PartialEq, Eq, Structural)]
pub enum PollDecision {
    /// Hand the new connection to a handler under this identity.
    Spawn(u64),
    /// Nothing to do; go on to drain events.
    Idle,
    /// Report the accept error and keep polling.
    ReportFailure,
    /// No identity is left for the new connection: close it and keep polling.
    Refuse,
}

/// The control loop's state: the identity the next connection gets, and the
/// connections that reported their start and not yet their end.
pub ghost struct LoopModel {
    pub next_client: u64,
    pub clients: Set<u64>,
}

/// The decision on one poll outcome, with the state it leaves.
pub open spec fn poll_step(s: LoopModel, outcome: AcceptOutcome) -> (LoopModel, PollDecision) {
    match outcome {
        AcceptOutcome::Accepted => if s.next_client < u64::MAX {
            (LoopModel { next_client: (s.next_client + 1) as u64, ..s }, PollDecision::Spawn(s.next_client))
        } else {
            (s, PollDecision::Refuse)
        },
        AcceptOutcome::NoneReady => (s, PollDecision::Idle),
        AcceptOutcome::Failed => (s, PollDecision::ReportFailure),
    }
}

/// The table of connected clients after observing `a`.
pub open spec fn observe(clients: Set<u64>, a: Action) -> Set<u64> {
    match a.action_type {
        ActionType::ClientConnect => clients.insert(a.client),
        ActionType::ClientDisconnect => clients.remove(a.client),
    }
}

/// `a` fits the lifecycle of its connection: a connection starts when it is
/// not connected, and ends when it is.
pub open spec fn fits(clients: Set<u64>, a: Action) -> bool {
    match a.action_type {
        ActionType::ClientConnect => !clients.contains(a.client),
        ActionType::ClientDisconnect => clients.contains(a.client),
    }
}

/// The table after observing `actions` in order.
pub open spec fn observe_all(clients: Set<u64>, actions: Seq<Action>) -> Set<u64>
    decreases actions.len(),
{
    if actions.len() == 0 {
        clients
    } else {
        observe(observe_all(clients, actions.drop_last()), actions.last())
    }
}

/// Every one of `actions`, in order, fits the lifecycle of its connection.
pub open spec fn all_fit(clients: Set<u64>, actions: Seq<Action>) -> bool
    decreases actions.len(),
{
    if actions.len() == 0 {
        true
    } else {
        all_fit(clients, actions.drop_last()) && fits(
            observe_all(clients, actions.drop_last()),
            actions.last(),
        )
    }
}

/// The top-level driver's decisions: it gives each accepted connection a
/// fresh identity and keeps the table of connected clients from the
/// lifecycle actions that the handlers send.
pub struct ControlLoop {
    next_client: u64,
    clients: Vec<u64>,
}

impl View for ControlLoop {
    type V = LoopModel;

    closed spec fn view(&self) -> LoopModel {
        LoopModel { next_client: self.next_client, clients: self.clients@.to_set() }
    }
}

impl ControlLoop {
    /// The table holds each client once.
    pub closed spec fn wf(&self) -> bool {
        self.clients@.no_duplicates()
    }

    /// A control loop that has accepted nothing yet.
    pub fn new() -> (r: ControlLoop)
        ensures
            r.wf(),
            r@ == (LoopModel { next_client: 0, clients: Set::empty() }),
    {
        let r = ControlLoop { next_client: 0, clients: Vec::new() };
        assert(r.clients@.to_set() =~= Set::<u64>::empty());
        r
    }

    /// The clients that are connected now, each once.
    pub fn connected(&self) -> (r: Vec<u64>)
        requires
            self.wf(),
        ensures
            r@.to_set() == self@.clients,
            r@.no_duplicates(),
    {
        let mut r: Vec<u64> = Vec::new();
        let mut i: usize = 0;
        while i < self.clients.len()
            invariant
                i <= self.clients.len(),
                r@ == self.clients@.subrange(0, i as int),
            decreases self.clients.len() - i,
        {
            r.push(self.clients[i]);
            i = i + 1;
            assert(r@ =~= self.clients@.subrange(0, i as int));
        }
        assert(r@ =~= self.clients@);
        r
    }

    /// Decides what to do with the outcome of one poll of the listener.
    pub fn on_poll(&mut self, outcome: AcceptOutcome) -> (r: PollDecision)
        requires
            old(self).wf(),
        ensures
            final(self).wf(),
            (final(self)@, r) == poll_step(old(self)@, outcome),
    {
        match outcome {
            AcceptOutcome::Accepted => {
                if self.next_client < u64::MAX {
                    let client = self.next_client;
                    self.next_client = self.next_client + 1;
                    PollDecision::Spawn(client)
                } else {
                    PollDecision::Refuse
                }
            },
            AcceptOutcome::NoneReady => PollDecision::Idle,
            AcceptOutcome::Failed => PollDecision::ReportFailure,
        }
    }

    fn position(&self, client: u64) -> (r: Option<usize>)
        ensures
            r matches Some(i) ==> i < self.clients@.len() && self.clients@[i as int] == client,
            r is None ==> !self.clients@.contains(client),
    {
        let mut i: usize = 0;
        while i < self.clients.len()
            invariant
                i <= self.clients.len(),
                forall|j: int| 0 <= j < i ==> self.clients@[j] != client,
            decreases self.clients.len() - i,
        {
            if self.clients[i] == client {
                return Some(i);
            }
            i = i + 1;
        }
        None
    }

    /// Observes one lifecycle action: the table gains a client that connects
    /// and loses one that disconnects. Returns whether the action fits the
    /// lifecycle of its connection.
    pub fn on_action(&mut self, action: Action) -> (r: bool)
        requires
            old(self).wf(),
        ensures
            final(self).wf(),
            final(self)@.next_client == old(self)@.next_client,
            final(self)@.clients == observe(old(self)@.clients, action),
            r == fits(old(self)@.clients, action),
    {
        let ghost before = self.clients@;
        match self.position(action.client) {
            Some(i) => match action.action_type {
                ActionType::ClientConnect => {
                    assert(before.to_set().contains(action.client));
                    assert(before.to_set().insert(action.client) =~= before.to_set());
                    false
                },
                ActionType::ClientDisconnect => {
                    self.clients.remove(i);
                    let ghost after = self.clients@;
                    assert(after == before.remove(i as int));
                    assert forall|c: u64| after.contains(c) implies c != action.client by {
                        let j = choose|j: int| 0 <= j < after.len() && after[j] == c;
                        if j < i {
                            assert(before[j] == c);
                        } else {
                            assert(before[j + 1] == c);
                        }
                    }
                    assert forall|c: u64| #[trigger]
                        before.contains(c) && c != action.client implies after.contains(c) by {
                        let j = choose|j: int| 0 <= j < before.len() && before[j] == c;
                        if j < i {
                            assert(after[j] == c);
                        } else {
                            assert(after[j - 1] == c);
                        }
                    }
                    assert forall|c: u64| after.contains(c) implies before.contains(c) by {
                        let j = choose|j: int| 0 <= j < after.len() && after[j] == c;
                        if j < i {
                            assert(before[j] == c);
                        } else {
                            assert(before[j + 1] == c);
                        }
                    }
                    assert(after.to_set() =~= before.to_set().remove(action.client));
                    assert(before.to_set().contains(action.client));
                    true
                },
            },
            None => match action.action_type {
                ActionType::ClientConnect => {
                    self.clients.push(action.client);
                    assert(self.clients@ == before.push(action.client));
                    proof {
                        before.lemma_push_to_set_commute(action.client);
                    }
                    assert(!before.to_set().contains(action.client));
                    true
                },
                ActionType::ClientDisconnect => {
                    assert(before.to_set().remove(action.client) =~= before.to_set());
                    false
                },
            },
        }
    }

    /// Observes a batch of actions drained from the event channel, in order.
    /// Returns whether each of them fit the lifecycle of its connection.
    pub fn drain(&mut self, actions: &Vec<Action>) -> (r: bool)
        requires
            old(self).wf(),
        ensures
            final(self).wf(),
            final(self)@.next_client == old(self)@.next_client,
            final(self)@.clients == observe_all(old(self)@.clients, actions@),
            r == all_fit(old(self)@.clients, actions@),
    {
        let ghost start = self@.clients;
        let mut ok = true;
        let mut i: usize = 0;
        assert(actions@.subrange(0, 0) =~= Seq::<Action>::empty());
        while i < actions.len()
            invariant
                self.wf(),
                i <= actions.len(),
                self@.next_client == old(self)@.next_client,
                start == old(self)@.clients,
                self@.clients == observe_all(start, actions@.subrange(0, i as int)),
                ok == all_fit(start, actions@.subrange(0, i as int)),
            decreases actions.len() - i,
        {
            let fit = self.on_action(actions[i]);
            ok = ok && fit;
            i = i + 1;
            assert(actions@.subrange(0, i as int).drop_last() =~= actions@.subrange(0, i - 1));
        }
        assert(actions@.subrange(0, i as int) =~= actions@);
        ok
    }
}

/// The kinds of the actions among `actions` that name `client`, in order.
pub open spec fn history(actions: Seq<Action>, client: u64) -> Seq<ActionType>
    decreases actions.len(),
{
    if actions.len() == 0 {
        Seq::empty()
    } else {
        history(actions.drop_last(), client) + if actions.last().client == client {
            seq![actions.last().action_type]
        } else {
            Seq::empty()
        }
    }
}

proof fn lemma_history_prefix(actions: Seq<Action>, client: u64, k: int)
    requires
        0 <= k <= actions.len(),
    ensures
        history(actions.subrange(0, k), client).is_prefix_of(history(actions, client)),
    decreases actions.len() - k,
{
    if k == actions.len() {
        assert(actions.subrange(0, k) =~= actions);
    } else {
        lemma_history_prefix(actions, client, k + 1);
        assert(actions.subrange(0, k + 1).drop_last() =~= actions.subrange(0, k));
    }
}

/// Each of the `clients` (distinct connections) sends exactly its
/// `ClientConnect` and then its `ClientDisconnect`, and nothing else arrives:
/// however the channel interleaves the clients' actions, the control loop
/// finds every action fitting, and its table ends empty.
pub proof fn lemma_every_connection_observed(clients: Set<u64>, actions: Seq<Action>)
    requires
        forall|c: u64|
            #[trigger] history(actions, c) == if clients.contains(c) {
                seq![ActionType::ClientConnect, ActionType::ClientDisconnect]
            } else {
                Seq::empty()
            },
    ensures
        all_fit(Set::empty(), actions),
        observe_all(Set::empty(), actions) == Set::<u64>::empty(),
{
    lemma_exact_follows_lifecycle(clients, actions);
    lemma_observed_prefix(actions, actions.len() as int);
    assert(actions.subrange(0, actions.len() as int) =~= actions);
    assert forall|c: u64| !observe_all(Set::empty(), actions).contains(c) by {
        if clients.contains(c) {
            assert(history(actions, c).len() == 2);
        } else {
            assert(history(actions, c).len() == 0);
        }
    }
    assert(observe_all(Set::empty(), actions) =~= Set::<u64>::empty());
}

proof fn lemma_observed_prefix(actions: Seq<Action>, k: int)
    requires
        follows_lifecycle(actions),
        0 <= k <= actions.len(),
    ensures
        all_fit(Set::empty(), actions.subrange(0, k)),
        forall|c: u64|
            #[trigger] observe_all(Set::empty(), actions.subrange(0, k)).contains(c) <==> history(
                actions.subrange(0, k),
                c,
            ) == seq![ActionType::ClientConnect],
    decreases k,
{
    let p = actions.subrange(0, k);
    if k == 0 {
        assert forall|c: u64| history(p, c) != seq![ActionType::ClientConnect] by {
            assert(history(p, c).len() == 0);
        }
    } else {
        lemma_observed_prefix(actions, k - 1);
        let q = actions.subrange(0, k - 1);
        let a = p.last();
        let c = a.client;
        lemma_history_step(actions, k);
        if history(q, c).len() == 0 {
            assert(history(q, c) != seq![ActionType::ClientConnect]);
            assert(history(p, c) =~= seq![ActionType::ClientConnect]);
        }
        assert(observe_all(Set::empty(), p) == observe(observe_all(Set::empty(), q), a));
        assert(all_fit(Set::empty(), p) == (all_fit(Set::empty(), q) && fits(
            observe_all(Set::empty(), q),
            a,
        )));
        assert forall|d: u64| #[trigger]
            observe_all(Set::empty(), p).contains(d) <==> history(p, d) == seq![
                ActionType::ClientConnect,
            ] by {
            if d != c {
                assert(history(p, d) == history(q, d));
            }
        }
    }
}

/// A connection's whole lifecycle: its connect, then its disconnect.
pub open spec fn full_lifecycle() -> Seq<ActionType> {
    seq![ActionType::ClientConnect, ActionType::ClientDisconnect]
}

/// Each connection's actions among `actions` are its connect and then its
/// disconnect, or the start of that.
pub open spec fn follows_lifecycle(actions: Seq<Action>) -> bool {
    forall|c: u64|
        (#[trigger] history(actions, c)).is_prefix_of(full_lifecycle())
}

/// The lifecycle of the connection named by action `k - 1`, just before it
/// and just after it.
proof fn lemma_history_step(actions: Seq<Action>, k: int)
    requires
        follows_lifecycle(actions),
        0 < k <= actions.len(),
    ensures
        ({
            let p = actions.subrange(0, k);
            let q = actions.subrange(0, k - 1);
            let a = actions[k - 1];
            &&& p.drop_last() == q
            &&& p.last() == a
            &&& history(actions, a.client).len() > 0
            &&& history(p, a.client) == history(q, a.client).push(a.action_type)
            &&& forall|d: u64| d != a.client ==> #[trigger] history(p, d) == history(q, d)
            &&& (history(q, a.client).len() == 0 && a.action_type == ActionType::ClientConnect) || (
            history(q, a.client) == seq![ActionType::ClientConnect] && a.action_type
                == ActionType::ClientDisconnect)
        }),
{
    let p = actions.subrange(0, k);
    let q = actions.subrange(0, k - 1);
    assert(p.drop_last() =~= q);
    let a = p.last();
    let c = a.client;
    lemma_history_prefix(actions, c, k);
    let full = history(actions, c);
    let cd = seq![ActionType::ClientConnect, ActionType::ClientDisconnect];
    assert(full.is_prefix_of(cd));
    let hq = history(q, c);
    let hp = history(p, c);
    assert(hp == hq.push(a.action_type));
    assert(forall|i: int| 0 <= i < hp.len() ==> hp[i] == full.subrange(0, hp.len() as int)[i]);
    assert(forall|i: int| 0 <= i < full.len() ==> full[i] == cd.subrange(0, full.len() as int)[i]);
    assert(hp[hq.len() as int] == a.action_type);
    if hq.len() == 1 {
        assert(hq[0] == hp[0]);
        assert(hq =~= seq![ActionType::ClientConnect]);
    }
}

/// How many of `actions` are of kind `t`.
pub open spec fn count_of(actions: Seq<Action>, t: ActionType) -> nat
    decreases actions.len(),
{
    if actions.len() == 0 {
        0
    } else {
        count_of(actions.drop_last(), t) + if actions.last().action_type == t {
            1nat
        } else {
            0nat
        }
    }
}

/// The clients among `clients` with at least `n` actions in `actions`.
pub open spec fn reached(clients: Set<u64>, actions: Seq<Action>, n: nat) -> Set<u64> {
    clients.filter(|c: u64| history(actions, c).len() >= n)
}

proof fn lemma_counts_prefix(clients: Set<u64>, actions: Seq<Action>, k: int)
    requires
        clients.finite(),
        forall|c: u64|
            #[trigger] history(actions, c) == if clients.contains(c) {
                seq![ActionType::ClientConnect, ActionType::ClientDisconnect]
            } else {
                Seq::empty()
            },
        0 <= k <= actions.len(),
    ensures
        reached(clients, actions.subrange(0, k), 1).finite(),
        reached(clients, actions.subrange(0, k), 2).finite(),
        count_of(actions.subrange(0, k), ActionType::ClientConnect) == reached(
            clients,
            actions.subrange(0, k),
            1,
        ).len(),
        count_of(actions.subrange(0, k), ActionType::ClientDisconnect) == reached(
            clients,
            actions.subrange(0, k),
            2,
        ).len(),
    decreases k,
{
    let p = actions.subrange(0, k);
    clients.lemma_len_filter(|c: u64| history(p, c).len() >= 1);
    clients.lemma_len_filter(|c: u64| history(p, c).len() >= 2);
    if k == 0 {
        assert(reached(clients, p, 1) =~= Set::<u64>::empty());
        assert(reached(clients, p, 2) =~= Set::<u64>::empty());
    } else {
        lemma_counts_prefix(clients, actions, k - 1);
        lemma_exact_follows_lifecycle(clients, actions);
        lemma_history_step(actions, k);
        let q = actions.subrange(0, k - 1);
        let a = actions[k - 1];
        let c = a.client;
        assert(clients.contains(c));
        if a.action_type == ActionType::ClientConnect {
            assert(reached(clients, p, 1) =~= reached(clients, q, 1).insert(c));
            assert(!reached(clients, q, 1).contains(c));
            assert(reached(clients, p, 2) =~= reached(clients, q, 2));
        } else {
            assert(reached(clients, p, 1) =~= reached(clients, q, 1));
            assert(reached(clients, p, 2) =~= reached(clients, q, 2).insert(c));
            assert(!reached(clients, q, 2).contains(c));
        }
    }
}

/// Where each of the finitely many `clients` sends exactly its
/// `ClientConnect` and then its `ClientDisconnect`, and nothing else arrives,
/// the control loop sees as many of each kind as there are clients.
pub proof fn lemma_connection_counts(clients: Set<u64>, actions: Seq<Action>)
    requires
        clients.finite(),
        forall|c: u64|
            #[trigger] history(actions, c) == if clients.contains(c) {
                seq![ActionType::ClientConnect, ActionType::ClientDisconnect]
            } else {
                Seq::empty()
            },
    ensures
        count_of(actions, ActionType::ClientConnect) == clients.len(),
        count_of(actions, ActionType::ClientDisconnect) == clients.len(),
{
    lemma_counts_prefix(clients, actions, actions.len() as int);
    assert(actions.subrange(0, actions.len() as int) =~= actions);
    assert(reached(clients, actions, 1) =~= clients);
    assert(reached(clients, actions, 2) =~= clients);
}

/// The actions among `actions` that name `client`, in order.
pub open spec fn delivered(actions: Seq<Action>, client: u64) -> Seq<Action>
    decreases actions.len(),
{
    if actions.len() == 0 {
        Seq::empty()
    } else {
        delivered(actions.drop_last(), client) + if actions.last().client == client {
            seq![actions.last()]
        } else {
            Seq::empty()
        }
    }
}

proof fn lemma_history_delivered(actions: Seq<Action>, client: u64)
    ensures
        history(actions, client) == delivered(actions, client).map_values(
            |a: Action| a.action_type,
        ),
    decreases actions.len(),
{
    if actions.len() > 0 {
        lemma_history_delivered(actions.drop_last(), client);
        let f = |a: Action| a.action_type;
        let d = delivered(actions.drop_last(), client);
        if actions.last().client == client {
            assert((d + seq![actions.last()]).map_values(f) =~= d.map_values(f) + seq![
                actions.last().action_type,
            ]);
        } else {
            assert((d + Seq::<Action>::empty()).map_values(f) =~= d.map_values(f));
        }
        assert(history(actions, client) =~= delivered(actions, client).map_values(f));
    }
}

/// `sent` is what a handler of `client` sent from its creation until it
/// disconnected.
pub open spec fn sent_by_closed_handler(client: u64, sent: Seq<Action>) -> bool {
    exists|events: Seq<EventModel>, states: Seq<HandlerModel>, reactions: Seq<ReactionModel>|
        #[trigger] is_run(fresh(client), events, states, reactions) && states.last().phase
            == Phase::Disconnected && sent == actions_of(reactions)
}

/// The handlers of finitely many distinct `clients` each ran until they
/// disconnected, and the channel delivered to the control loop what each of
/// them sent, in the order it was sent, however it interleaved them, and
/// nothing else. Then the control loop finds every action fitting, sees as
/// many `ClientConnect` and as many `ClientDisconnect` actions as there are
/// clients, and its table ends empty.
pub proof fn lemma_handlers_observed(clients: Set<u64>, actions: Seq<Action>)
    requires
        clients.finite(),
        forall|c: u64| #[trigger]
            clients.contains(c) ==> sent_by_closed_handler(c, delivered(actions, c)),
        forall|c: u64| !clients.contains(c) ==> #[trigger] delivered(actions, c).len() == 0,
    ensures
        all_fit(Set::empty(), actions),
        observe_all(Set::empty(), actions) == Set::<u64>::empty(),
        count_of(actions, ActionType::ClientConnect) == clients.len(),
        count_of(actions, ActionType::ClientDisconnect) == clients.len(),
{
    assert forall|c: u64|
        #[trigger] history(actions, c) == if clients.contains(c) {
            seq![ActionType::ClientConnect, ActionType::ClientDisconnect]
        } else {
            Seq::empty()
        } by {
        lemma_history_delivered(actions, c);
        let f = |a: Action| a.action_type;
        if clients.contains(c) {
            let (events, states, reactions) = choose|
                events: Seq<EventModel>,
                states: Seq<HandlerModel>,
                reactions: Seq<ReactionModel>,
            |
                #[trigger] is_run(fresh(c), events, states, reactions) && states.last().phase
                    == Phase::Disconnected && delivered(actions, c) == actions_of(reactions);
            lemma_lifecycle(c, events, states, reactions);
            assert(delivered(actions, c).map_values(f) =~= seq![
                ActionType::ClientConnect,
                ActionType::ClientDisconnect,
            ]);
        } else {
            assert(delivered(actions, c).map_values(f) =~= Seq::<ActionType>::empty());
        }
    }
    lemma_every_connection_observed(clients, actions);
    lemma_connection_counts(clients, actions);
}

/// The state after deciding on `outcomes` in order.
pub open spec fn poll_all(s: LoopModel, outcomes: Seq<AcceptOutcome>) -> LoopModel
    decreases outcomes.len(),
{
    if outcomes.len() == 0 {
        s
    } else {
        poll_step(poll_all(s, outcomes.drop_last()), outcomes.last()).0
    }
}

/// The decisions taken on `outcomes` in order.
pub open spec fn decisions(s: LoopModel, outcomes: Seq<AcceptOutcome>) -> Seq<PollDecision>
    decreases outcomes.len(),
{
    if outcomes.len() == 0 {
        Seq::empty()
    } else {
        decisions(s, outcomes.drop_last()).push(
            poll_step(poll_all(s, outcomes.drop_last()), outcomes.last()).1,
        )
    }
}

/// While no connection is pending, every poll is idle and changes nothing;
/// the first poll that finds a connection spawns a handler for it under the
/// next identity, where identities are not yet exhausted.
pub proof fn lemma_idle_until_accept(s: LoopModel, outcomes: Seq<AcceptOutcome>)
    requires
        forall|i: int| 0 <= i < outcomes.len() ==> #[trigger] outcomes[i] == AcceptOutcome::NoneReady,
    ensures
        poll_all(s, outcomes) == s,
        forall|i: int|
            0 <= i < outcomes.len() ==> #[trigger] decisions(s, outcomes)[i] == PollDecision::Idle,
        decisions(s, outcomes).len() == outcomes.len(),
        s.next_client < u64::MAX ==> decisions(s, outcomes.push(AcceptOutcome::Accepted)).last()
            == PollDecision::Spawn(s.next_client),
    decreases outcomes.len(),
{
    let accepted = outcomes.push(AcceptOutcome::Accepted);
    assert(accepted.drop_last() =~= outcomes);
    if outcomes.len() > 0 {
        lemma_idle_until_accept(s, outcomes.drop_last());
        assert(outcomes.last() == outcomes[outcomes.len() - 1]);
    }
}

/// Every connection that the control loop hands to a handler gets an
/// identity that no earlier one got, at or above the one it started from
/// and below the one it will give next.
pub proof fn lemma_spawned_distinct(s: LoopModel, outcomes: Seq<AcceptOutcome>)
    ensures
        decisions(s, outcomes).len() == outcomes.len(),
        poll_all(s, outcomes).next_client >= s.next_client,
        forall|i: int|
            0 <= i < outcomes.len() && (#[trigger] decisions(s, outcomes)[i]) is Spawn ==> s.next_client
                <= decisions(s, outcomes)[i]->Spawn_0 < poll_all(s, outcomes).next_client,
        forall|i: int, j: int|
            0 <= i < j < outcomes.len() && (#[trigger] decisions(s, outcomes)[i]) is Spawn && (
            #[trigger] decisions(s, outcomes)[j]) is Spawn ==> decisions(s, outcomes)[i]->Spawn_0
                < decisions(s, outcomes)[j]->Spawn_0,
    decreases outcomes.len(),
{
    if outcomes.len() > 0 {
        let o = outcomes.drop_last();
        lemma_spawned_distinct(s, o);
        let ds = decisions(s, outcomes);
        assert forall|i: int| 0 <= i < o.len() implies ds[i] == decisions(s, o)[i] by {}
    }
}

proof fn lemma_exact_follows_lifecycle(clients: Set<u64>, actions: Seq<Action>)
    requires
        forall|c: u64|
            #[trigger] history(actions, c) == if clients.contains(c) {
                seq![ActionType::ClientConnect, ActionType::ClientDisconnect]
            } else {
                Seq::empty()
            },
    ensures
        follows_lifecycle(actions),
{
    assert forall|c: u64|
        (#[trigger] history(actions, c)).is_prefix_of(full_lifecycle()) by {
        let cd = seq![ActionType::ClientConnect, ActionType::ClientDisconnect];
        if clients.contains(c) {
            assert(cd.subrange(0, 2) =~= cd);
        } else {
            assert(cd.subrange(0, 0) =~= Seq::<ActionType>::empty());
        }
    }
}

/// At any moment, where each connection's actions delivered so far are its
/// connect and then its disconnect, or the start of that, the control loop
/// has found every action fitting, and its table holds exactly the
/// connections whose connect, and not yet their disconnect, was delivered.
pub proof fn lemma_observed_so_far(actions: Seq<Action>)
    requires
        follows_lifecycle(actions),
    ensures
        all_fit(Set::empty(), actions),
        forall|c: u64|
            #[trigger] observe_all(Set::empty(), actions).contains(c) <==> history(actions, c)
                == seq![ActionType::ClientConnect],
{
    lemma_observed_prefix(actions, actions.len() as int);
    assert(actions.subrange(0, actions.len() as int) =~= actions);
}

/// `delivered` is, in order, the start of what a handler of `client` has
/// sent since its creation, whatever phase it is in now.
pub open spec fn sent_by_handler(client: u64, delivered: Seq<Action>) -> bool {
    exists|events: Seq<EventModel>, states: Seq<HandlerModel>, reactions: Seq<ReactionModel>|
        #[trigger] is_run(fresh(client), events, states, reactions) && delivered.is_prefix_of(
            actions_of(reactions),
        )
}

/// Where the channel has delivered, for each connection, the start of what
/// its handler sent, in order, however it interleaved the handlers, and
/// nothing else, the delivered actions follow each connection's lifecycle:
/// no connection is reported gone before it was reported, nor twice.
pub proof fn lemma_handlers_follow_lifecycle(actions: Seq<Action>)
    requires
        forall|c: u64| #[trigger] sent_by_handler(c, delivered(actions, c)),
    ensures
        follows_lifecycle(actions),
{
    assert forall|c: u64|
        (#[trigger] history(actions, c)).is_prefix_of(full_lifecycle()) by {
        assert(sent_by_handler(c, delivered(actions, c)));
        let (events, states, reactions) = choose|
            events: Seq<EventModel>,
            states: Seq<HandlerModel>,
            reactions: Seq<ReactionModel>,
        |
            #[trigger] is_run(fresh(c), events, states, reactions) && delivered(
                actions,
                c,
            ).is_prefix_of(actions_of(reactions));
        lemma_lifecycle(c, events, states, reactions);
        lemma_history_delivered(actions, c);
        let cd = seq![ActionType::ClientConnect, ActionType::ClientDisconnect];
        let d = delivered(actions, c);
        let l = actions_of(reactions);
        let h = history(actions, c);
        assert(d.len() <= l.len() && l.len() <= 2);
        assert forall|i: int| 0 <= i < h.len() implies h[i] == cd[i] by {
            assert(d[i] == l.subrange(0, d.len() as int)[i]);
        }
        assert(h =~= cd.subrange(0, h.len() as int));
    }
}

} // verus!
