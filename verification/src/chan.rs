use crate::address::SockAddr;
use core::marker::PhantomData;
use vstd::prelude::*;

verus! {

/// The error type of the standard library's I/O operations, carried through
/// unchanged.
#[verifier::external_type_specification]
#[verifier::external_body]
pub struct ExIoError(std::io::Error);

/// Why a channel could not be set up.
#[derive(Debug)]
pub enum ChannelError {
    /// Something went wrong when transferring data.
    Io(std::io::Error),
    /// None of the addresses we were given picked up.
    CouldntConnect,
}

/// Marker for a channel that carries one message each way.
#[derive(Debug)]
pub struct Once;

/// Marker for a channel that carries any number of messages.
#[derive(Debug)]
pub struct Many;

/// The kinds of channel: [`Once`] and [`Many`].
pub trait ChannelKind {}

impl ChannelKind for Once {}

impl ChannelKind for Many {}

/// A channel that sends `S` and receives `R`, of kind `K`. `addresses` are
/// the socket addresses on which the other end listens; `inner` is the
/// transport once the channel is established, and `()` while it is only
/// planned.
#[verifier::reject_recursive_types(K)]
#[verifier::reject_recursive_types(S)]
#[verifier::reject_recursive_types(R)]
#[derive(Debug)]
pub struct Channel<C, K, S, R> {
    pub addresses: Vec<SockAddr>,
    pub inner: C,
    _state: PhantomData<(K, S, R)>,
}

/// A channel that is only planned: it knows where the other end listens.
pub type PlannedChannel<K, S, R> = Channel<(), K, S, R>;

impl<C, K, S, R> Channel<C, K, S, R> {
    /// The addresses the other end listens on.
    pub closed spec fn addresses_view(self) -> Seq<SockAddr> {
        self.addresses@
    }

    /// What carries the messages: the transport, or `()` for a plan.
    pub closed spec fn carrier(self) -> C {
        self.inner
    }
}

impl<K: ChannelKind, S, R> Channel<(), K, S, R> {
    /// Plans a channel to the other end, which listens on `addresses`.
    pub fn new(addresses: Vec<SockAddr>) -> (planned: Self)
        ensures
            planned.addresses_view() == addresses@,
    {
        Channel { addresses, inner: (), _state: PhantomData }
    }

    /// Turns the plan into an established channel over `transport`, the
    /// connection made to one of the planned addresses. The addresses are
    /// kept.
    pub fn establish<C>(self, transport: C) -> (established: Channel<C, K, S, R>)
        ensures
            established.addresses_view() == self.addresses_view(),
            established.carrier() == transport,
    {
        Channel { addresses: self.addresses, inner: transport, _state: PhantomData }
    }

    /// One step of connecting the planned channel. Attempts to connect to
    /// all the planned addresses run side by side; `report` is what the
    /// next finished attempt gave: `Some(Some(t))` a connection `t`,
    /// `Some(None)` a failure (of the attempt or of its task), `None` that no
    /// attempt is left. The first connection establishes the channel; a
    /// failure leaves the plan as it was; when no attempt is left, connecting
    /// fails with [`ChannelError::CouldntConnect`].
    pub fn connect_step<C>(self, report: Option<Option<C>>) -> (step: ConnectStep<C, K, S, R>)
        ensures
            match report {
                None => step matches ConnectStep::Failed(ChannelError::CouldntConnect),
                Some(None) => step matches ConnectStep::Pending(plan) && plan.addresses_view()
                    == self.addresses_view(),
                Some(Some(t)) => step matches ConnectStep::Established(ch) && ch.addresses_view()
                    == self.addresses_view() && ch.carrier() == t,
            },
            forall|rest: Seq<Option<Option<C>>>|
                #[trigger] connect_run(seq![report] + rest) == match step {
                    ConnectStep::Established(ch) => ConnectRun::Established(ch.carrier()),
                    ConnectStep::Failed(_) => ConnectRun::CouldntConnect,
                    ConnectStep::Pending(_) => connect_run(rest),
                },
    {
        assert forall|rest: Seq<Option<Option<C>>>| #[trigger]
            (seq![report] + rest).drop_first() == rest && (seq![report] + rest)[0] == report by {
            assert((seq![report] + rest).drop_first() =~= rest);
        }
        match report {
            None => ConnectStep::Failed(ChannelError::CouldntConnect),
            Some(None) => ConnectStep::Pending(self),
            Some(Some(t)) => ConnectStep::Established(self.establish(t)),
        }
    }
}

/// Where connecting a planned channel stands after one report.
#[verifier::reject_recursive_types(K)]
#[verifier::reject_recursive_types(S)]
#[verifier::reject_recursive_types(R)]
pub enum ConnectStep<C, K, S, R> {
    /// Connected: the channel is established.
    Established(Channel<C, K, S, R>),
    /// Still waiting for another attempt; the plan is handed back.
    Pending(Channel<(), K, S, R>),
    /// Connecting failed.
    Failed(ChannelError),
}

/// Where a run of connect attempts stands.
pub enum ConnectRun<C> {
    /// A connection came: the channel is established over it.
    Established(C),
    /// The end came with no connection.
    CouldntConnect,
    /// Every report so far was a failed attempt.
    Waiting,
}

/// Where a run of connect attempts stands after `reports`, the reports of
/// the attempts in the order they finished (see [`Channel::connect_step`]):
/// the run ends at the first report that is not a failure.
pub open spec fn connect_run<C>(reports: Seq<Option<Option<C>>>) -> ConnectRun<C>
    decreases reports.len(),
{
    if reports.len() == 0 {
        ConnectRun::Waiting
    } else {
        match reports[0] {
            None => ConnectRun::CouldntConnect,
            Some(None) => connect_run(reports.drop_first()),
            Some(Some(t)) => ConnectRun::Established(t),
        }
    }
}

/// Whether some attempt among `attempts` connected.
pub open spec fn some_attempt_connected<C>(attempts: Seq<Option<Option<C>>>) -> bool {
    exists|i: int| 0 <= i < attempts.len() && (#[trigger] attempts[i] matches Some(Some(_)))
}

/// Whether every one of `reports` is the report of a finished attempt (and
/// none says that no attempt is left).
pub open spec fn all_attempts<C>(reports: Seq<Option<Option<C>>>) -> bool {
    forall|i: int| 0 <= i < reports.len() ==> (#[trigger] reports[i] is Some)
}

/// A run establishes the channel over `t` exactly when `t` is the
/// connection of the first report that is not a failure.
pub proof fn lemma_run_establishes_with_first_connection<C>(reports: Seq<Option<Option<C>>>, t: C)
    ensures
        connect_run(reports) == ConnectRun::Established(t) <==> exists|i: int|
            0 <= i < reports.len() && #[trigger] reports[i] == Some(Some(t)) && forall|j: int|
                0 <= j < i ==> #[trigger] reports[j] == Some(None::<C>),
    decreases reports.len(),
{
    if reports.len() > 0 {
        let rest = reports.drop_first();
        lemma_run_establishes_with_first_connection(rest, t);
        if connect_run(reports) == ConnectRun::Established(t) {
            if reports[0] == Some(None::<C>) {
                let i = choose|i: int|
                    0 <= i < rest.len() && #[trigger] rest[i] == Some(Some(t)) && forall|j: int|
                        0 <= j < i ==> #[trigger] rest[j] == Some(None::<C>);
                assert(reports[i + 1] == Some(Some(t)));
                assert forall|j: int| 0 <= j < i + 1 implies #[trigger] reports[j] == Some(
                    None::<C>,
                ) by {
                    if j > 0 {
                        assert(reports[j] == rest[j - 1]);
                    }
                }
            } else {
                assert(reports[0] == Some(Some(t)));
            }
        }
        if exists|i: int|
            0 <= i < reports.len() && #[trigger] reports[i] == Some(Some(t)) && forall|j: int|
                0 <= j < i ==> #[trigger] reports[j] == Some(None::<C>) {
            let i = choose|i: int|
                0 <= i < reports.len() && #[trigger] reports[i] == Some(Some(t)) && forall|j: int|
                    0 <= j < i ==> #[trigger] reports[j] == Some(None::<C>);
            if i > 0 {
                assert(reports[0] == Some(None::<C>));
                assert(rest[i - 1] == Some(Some(t)));
                assert forall|j: int| 0 <= j < i - 1 implies #[trigger] rest[j] == Some(
                    None::<C>,
                ) by {
                    assert(rest[j] == reports[j + 1]);
                }
            }
        }
    }
}

/// A run ends with [`ChannelError::CouldntConnect`] exactly when the report
/// that no attempt is left comes before any connection.
pub proof fn lemma_run_fails_exactly_without_connection<C>(reports: Seq<Option<Option<C>>>)
    ensures
        connect_run(reports) == ConnectRun::<C>::CouldntConnect <==> exists|i: int|
            0 <= i < reports.len() && #[trigger] reports[i] == None::<Option<C>> && forall|j: int|
                0 <= j < i ==> #[trigger] reports[j] == Some(None::<C>),
    decreases reports.len(),
{
    if reports.len() > 0 {
        let rest = reports.drop_first();
        lemma_run_fails_exactly_without_connection(rest);
        if connect_run(reports) == ConnectRun::<C>::CouldntConnect {
            if reports[0] == Some(None::<C>) {
                let i = choose|i: int|
                    0 <= i < rest.len() && #[trigger] rest[i] == None::<Option<C>> && forall|j: int|
                        0 <= j < i ==> #[trigger] rest[j] == Some(None::<C>);
                assert(reports[i + 1] == None::<Option<C>>);
                assert forall|j: int| 0 <= j < i + 1 implies #[trigger] reports[j] == Some(
                    None::<C>,
                ) by {
                    if j > 0 {
                        assert(reports[j] == rest[j - 1]);
                    }
                }
            } else {
                assert(reports[0] == None::<Option<C>>);
            }
        }
        if exists|i: int|
            0 <= i < reports.len() && #[trigger] reports[i] == None::<Option<C>> && forall|j: int|
                0 <= j < i ==> #[trigger] reports[j] == Some(None::<C>) {
            let i = choose|i: int|
                0 <= i < reports.len() && #[trigger] reports[i] == None::<Option<C>> && forall|
                    j: int,
                | 0 <= j < i ==> #[trigger] reports[j] == Some(None::<C>);
            if i > 0 {
                assert(reports[0] == Some(None::<C>));
                assert(rest[i - 1] == None::<Option<C>>);
                assert forall|j: int| 0 <= j < i - 1 implies #[trigger] rest[j] == Some(
                    None::<C>,
                ) by {
                    assert(rest[j] == reports[j + 1]);
                }
            }
        }
    }
}

/// Failed attempts that finish first change nothing: the run goes on as if
/// they had not been tried.
pub proof fn lemma_run_skips_failures<C>(
    failures: Seq<Option<Option<C>>>,
    rest: Seq<Option<Option<C>>>,
)
    requires
        forall|i: int| 0 <= i < failures.len() ==> #[trigger] failures[i] == Some(None::<C>),
    ensures
        connect_run(failures + rest) == connect_run(rest),
    decreases failures.len(),
{
    if failures.len() > 0 {
        assert((failures + rest).drop_first() =~= failures.drop_first() + rest);
        assert((failures + rest)[0] == failures[0]);
        lemma_run_skips_failures(failures.drop_first(), rest);
    } else {
        assert(failures + rest =~= rest);
    }
}

/// When every attempt has reported and then the end comes, the channel is
/// established if some attempt connected, and connecting fails otherwise.
pub proof fn lemma_run_over_all_attempts<C>(attempts: Seq<Option<Option<C>>>)
    requires
        all_attempts(attempts),
    ensures
        connect_run(attempts.push(None)) is Established <==> some_attempt_connected(attempts),
        connect_run(attempts.push(None)) is CouldntConnect <==> !some_attempt_connected(attempts),
    decreases attempts.len(),
{
    let reports = attempts.push(None);
    if attempts.len() == 0 {
        assert(reports[0] == None::<Option<C>>);
    } else {
        let rest = attempts.drop_first();
        assert(reports.drop_first() =~= rest.push(None));
        assert(reports[0] == attempts[0]);
        assert(all_attempts(rest)) by {
            assert forall|i: int| 0 <= i < rest.len() implies #[trigger] rest[i] is Some by {
                assert(rest[i] == attempts[i + 1]);
            }
        }
        lemma_run_over_all_attempts(rest);
        match attempts[0] {
            Some(Some(_)) => {},
            Some(None) => {
                if some_attempt_connected(attempts) {
                    let i = choose|i: int|
                        0 <= i < attempts.len() && (#[trigger] attempts[i] matches Some(Some(_)));
                    assert(rest[i - 1] == attempts[i]);
                }
                if some_attempt_connected(rest) {
                    let i = choose|i: int|
                        0 <= i < rest.len() && (#[trigger] rest[i] matches Some(Some(_)));
                    assert(attempts[i + 1] == rest[i]);
                }
            },
            None => {
                assert(attempts[0] is Some);
            },
        }
    }
}

/// Whether connecting succeeds does not depend on the order in which the
/// attempts finish: two runs over the same attempts, in any order, both
/// establish the channel or both fail.
pub proof fn lemma_run_success_ignores_order<C>(a: Seq<Option<Option<C>>>, b: Seq<Option<Option<C>>>)
    requires
        all_attempts(a),
        all_attempts(b),
        a.to_multiset() == b.to_multiset(),
    ensures
        connect_run(a.push(None)) is Established <==> connect_run(b.push(None)) is Established,
        connect_run(a.push(None)) is CouldntConnect <==> connect_run(b.push(None)) is CouldntConnect,
{
    broadcast use vstd::seq_lib::to_multiset_contains;

    lemma_run_over_all_attempts(a);
    lemma_run_over_all_attempts(b);
    if some_attempt_connected(a) {
        let i = choose|i: int| 0 <= i < a.len() && (#[trigger] a[i] matches Some(Some(_)));
        assert(a.contains(a[i]));
        assert(a.to_multiset().count(a[i]) > 0);
        assert(b.to_multiset().count(a[i]) > 0);
        assert(b.contains(a[i]));
        let k = choose|k: int| 0 <= k < b.len() && b[k] == a[i];
        assert(b[k] matches Some(Some(_)));
    }
    if some_attempt_connected(b) {
        let i = choose|i: int| 0 <= i < b.len() && (#[trigger] b[i] matches Some(Some(_)));
        assert(b.contains(b[i]));
        assert(b.to_multiset().count(b[i]) > 0);
        assert(a.to_multiset().count(b[i]) > 0);
        assert(a.contains(b[i]));
        let k = choose|k: int| 0 <= k < a.len() && a[k] == b[i];
        assert(a[k] matches Some(Some(_)));
    }
}

impl<C, K: ChannelKind, S, R> Channel<C, K, S, R> {
    /// A channel established over `transport` that was accepted rather than
    /// planned: it knows no addresses.
    pub fn from_transport(transport: C) -> (established: Self)
        ensures
            established.addresses_view() == Seq::<SockAddr>::empty(),
            established.carrier() == transport,
    {
        Channel { addresses: Vec::new(), inner: transport, _state: PhantomData }
    }
}

/// The values of the attempts that succeeded, in order.
pub open spec fn successes<L>(attempts: Seq<Option<L>>) -> Seq<L>
    decreases attempts.len(),
{
    if attempts.len() == 0 {
        Seq::empty()
    } else {
        let rest = successes(attempts.drop_first());
        match attempts[0] {
            Some(l) => seq![l] + rest,
            None => rest,
        }
    }
}

/// A listener is kept exactly when its attempt succeeded with it, and no
/// more listeners are kept than were attempted.
pub proof fn lemma_successes_are_the_bound_ones<L>(attempts: Seq<Option<L>>, l: L)
    ensures
        successes(attempts).contains(l) <==> exists|i: int|
            0 <= i < attempts.len() && #[trigger] attempts[i] == Some(l),
        successes(attempts).len() <= attempts.len(),
    decreases attempts.len(),
{
    if attempts.len() > 0 {
        let rest = attempts.drop_first();
        lemma_successes_are_the_bound_ones(rest, l);
        let s = successes(attempts);
        let r = successes(rest);
        if s.contains(l) {
            let k = choose|k: int| 0 <= k < s.len() && s[k] == l;
            match attempts[0] {
                Some(h) => {
                    if k == 0 {
                        assert(attempts[0] == Some(l));
                    } else {
                        assert(r[k - 1] == l);
                        let i = choose|i: int| 0 <= i < rest.len() && #[trigger] rest[i] == Some(l);
                        assert(attempts[i + 1] == Some(l));
                    }
                },
                None => {
                    assert(r[k] == l);
                    let i = choose|i: int| 0 <= i < rest.len() && #[trigger] rest[i] == Some(l);
                    assert(attempts[i + 1] == Some(l));
                },
            }
        }
        if exists|i: int| 0 <= i < attempts.len() && #[trigger] attempts[i] == Some(l) {
            let i = choose|i: int| 0 <= i < attempts.len() && #[trigger] attempts[i] == Some(l);
            if i == 0 {
                assert(s[0] == l);
            } else {
                assert(rest[i - 1] == Some(l));
                let k = choose|k: int| 0 <= k < r.len() && r[k] == l;
                match attempts[0] {
                    Some(h) => assert(s[k + 1] == l),
                    None => assert(s[k] == l),
                }
            }
        }
    }
}

/// Keeps the listeners that could be bound, in order, and drops the
/// attempts that failed.
pub fn keep_bound<L>(attempts: Vec<Option<L>>) -> (bound: Vec<L>)
    ensures
        bound@ == successes(attempts@),
{
    let mut attempts = attempts;
    let mut bound: Vec<L> = Vec::new();
    let ghost all = attempts@;
    let ghost mut done: int = 0;
    while attempts.len() > 0
        invariant
            0 <= done <= all.len(),
            attempts@ == all.skip(done),
            successes(all) == bound@ + successes(all.skip(done)),
        decreases attempts.len(),
    {
        let first = attempts.remove(0);
        proof {
            assert(all.skip(done).drop_first() == all.skip(done + 1));
            done = done + 1;
        }
        match first {
            Some(l) => {
                bound.push(l);
            },
            None => {},
        }
    }
    assert(all.skip(done).len() == 0);
    bound
}

/// What the loop that waits for an incoming connection does next.
#[verifier::reject_recursive_types(K)]
#[verifier::reject_recursive_types(S)]
#[verifier::reject_recursive_types(R)]
pub enum AcceptStep<C, K, S, R> {
    /// A connection came in: here is the channel over it.
    Accepted(Channel<C, K, S, R>),
    /// A listener failed to accept; keep waiting on the others.
    Retry,
    /// No listener is left, or its task failed: the wait is over without a
    /// connection.
    Stop,
}

/// One step of waiting for the other end to connect to one of the listeners.
/// `next` is what the next finished listener gave: `Some(Some(Ok(t)))` an
/// accepted transport `t`, `Some(Some(Err(e)))` an accept error,
/// `Some(None)` a failed task, `None` that no listener is left.
pub fn accept_step<C, E, K: ChannelKind, S, R>(next: Option<Option<Result<C, E>>>) -> (step:
    AcceptStep<C, K, S, R>)
    ensures
        match next {
            Some(Some(Ok(t))) => step matches AcceptStep::Accepted(ch) && ch.addresses_view()
                == Seq::<SockAddr>::empty() && ch.carrier() == t,
            Some(Some(Err(_))) => step is Retry,
            _ => step is Stop,
        },
{
    match next {
        Some(Some(Ok(t))) => AcceptStep::Accepted(Channel::from_transport(t)),
        Some(Some(Err(_))) => AcceptStep::Retry,
        _ => AcceptStep::Stop,
    }
}

} // verus!
