//! Leadership election by timeout.

use crate::commands::{Command, CommandView, Receiver};
use crate::replica::Replica;
use crate::window::DecisionSet;
use std::time::Instant;
use vstd::prelude::*;

verus! {

#[verifier::external_type_specification]
#[verifier::external_body]
pub struct ExInstant(Instant);

/// Calls `Instant::now`. Nothing is claimed of the instant: it is that of the call.
#[verifier::external_body]
fn start_clock() -> (origin: Instant) {
    Instant::now()
}

/// Calls `Instant::elapsed`: the nanoseconds that have passed since `origin`, which are never
/// less than zero: a `Duration` has no sign, and its whole seconds fit in 64 bits. Nothing more
/// is claimed of their number: it depends on the time of the call.
#[verifier::external_body]
fn nanos_since(origin: &Instant) -> (nanos: i128)
    ensures
        nanos >= 0,
{
    origin.elapsed().as_nanos() as i128
}

/// Nanoseconds without a protocol message after which a follower stands for leadership.
pub const LEADERSHIP_TIMEOUT: u64 = 2_000_000_000;

/// Adds liveness to a commander by taking leadership
/// when a timeout occurs
pub struct Liveness<R: Replica> {
    pub inner: R,
    pub leader_election: Timeout,
}

impl<R: Replica> Liveness<R> {
    pub fn new(inner: R) -> (live: Liveness<R>)
        ensures
            live.inner == inner,
            live.leader_election.latest_message is None,
            live.leader_election.timeout == LEADERSHIP_TIMEOUT,
            LEADERSHIP_TIMEOUT == 2 * 1_000_000_000,
    {
        Liveness { inner, leader_election: Timeout::new(LEADERSHIP_TIMEOUT) }
    }

    /// Whether `after` is what this becomes on a command that arrives at `now`: all commands but
    /// proposals and catchup requests bump the timeout.
    pub open spec fn received_at(
        &self,
        command: CommandView,
        now: i128,
        after: &Liveness<R>,
    ) -> bool {
        &&& self.inner.received(command, &after.inner)
        &&& after.leader_election == if command is Proposal || command is Catchup {
            self.leader_election
        } else {
            self.leader_election.bumped(now)
        }
    }

    /// Whether leadership is due at `now`. A leader renews it halfway through the timeout.
    pub open spec fn is_due(&self, now: i128) -> bool {
        if self.inner.leads() {
            self.leader_election.is_near(now)
        } else {
            self.leader_election.is_lapsed(now)
        }
    }

    /// Whether `after` is what this becomes by a periodic step at `now`: where leadership is due,
    /// it stands for leadership and clears the timeout first.
    pub open spec fn ticked_at(&self, now: i128, after: &Liveness<R>) -> bool {
        if self.is_due(now) {
            &&& after.leader_election == self.leader_election.cleared()
            &&& exists|standing: R|
                self.inner.elected(&standing) && standing.ticked(&after.inner)
        } else {
            &&& after.leader_election == self.leader_election
            &&& self.inner.ticked(&after.inner)
        }
    }

    /// Whether a periodic step can be made at `now`: where leadership is due, the replica has to be
    /// able to stand for it and to make its own step then.
    pub open spec fn can_tick_at(&self, now: i128) -> bool {
        &&& self.inner.tickable()
        &&& self.is_due(now) ==> {
            &&& self.inner.electable()
            &&& forall|standing: R| self.inner.elected(&standing) ==> standing.tickable()
        }
    }

    /// Receives a command that arrives at `now`, in nanoseconds of the clock of the timeout.
    pub fn receive_at(&mut self, cmd: Command, now: i128)
        requires
            old(self).inner.receivable(cmd@),
        ensures
            old(self).received_at(cmd@, now, final(self)),
    {
        // Bump leadership timeout if the command is not a catchup or proposal
        match &cmd {
            Command::Proposal(_) | Command::Catchup { .. } => {},
            _ => {
                self.leader_election.bump_at(now);
            },
        }
        self.inner.receive(cmd);
    }

    /// Makes a periodic step at `now`, in nanoseconds of the clock of the timeout.
    pub fn tick_at(&mut self, now: i128)
        requires
            old(self).can_tick_at(now),
        ensures
            old(self).ticked_at(now, final(self)),
    {
        let lapsed: bool = if self.inner.is_leader() {
            self.leader_election.near_at(now)
        } else {
            self.leader_election.lapsed_at(now)
        };
        if lapsed {
            self.inner.propose_leadership();
            self.leader_election.clear();
        }
        let ghost standing = self.inner;
        self.inner.tick();
        assert(lapsed ==> old(self).inner.elected(&standing) && standing.ticked(&self.inner));
    }
}

impl<R: Replica> Receiver for Liveness<R> {
    open spec fn receivable(&self, command: CommandView) -> bool {
        self.inner.receivable(command)
    }

    open spec fn received(&self, command: CommandView, after: &Self) -> bool {
        exists|now: i128| now >= 0 && #[trigger] self.received_at(command, now, after)
    }

    fn receive(&mut self, cmd: Command) {
        let now: i128 = self.leader_election.now();
        self.receive_at(cmd, now);
    }
}

impl<R: Replica> Replica for Liveness<R> {
    open spec fn sound(&self) -> bool {
        self.inner.sound()
    }

    open spec fn electable(&self) -> bool {
        self.inner.electable()
    }

    open spec fn elected(&self, after: &Self) -> bool {
        self.inner.elected(&after.inner) && after.leader_election == self.leader_election
    }

    /// A step can be made whatever the clock shows. Leadership falls due at some time only if
    /// there is a latest message.
    open spec fn tickable(&self) -> bool {
        forall|now: i128| now >= 0 ==> #[trigger] self.can_tick_at(now)
    }

    open spec fn ticked(&self, after: &Self) -> bool {
        exists|now: i128| now >= 0 && #[trigger] self.ticked_at(now, after)
    }

    open spec fn leads(&self) -> bool {
        self.inner.leads()
    }

    open spec fn has_decided(&self, decisions: &DecisionSet) -> bool {
        self.inner.has_decided(decisions)
    }

    fn tick(&mut self) {
        let now: i128 = self.leader_election.now();
        self.tick_at(now);
    }

    fn propose_leadership(&mut self) {
        self.inner.propose_leadership();
    }

    fn is_leader(&self) -> (leader: bool) {
        self.inner.is_leader()
    }

    fn decisions(&self) -> (decisions: DecisionSet) {
        self.inner.decisions()
    }
}

/// Timeout since the latest message. Its clock counts the nanoseconds since it was made.
pub struct Timeout {
    pub origin: Instant,
    pub latest_message: Option<i128>,
    pub timeout: u64,
}

/// Whether at `now` more than `nanos` have passed since `since`.
fn passed(since: i128, nanos: u64, now: i128) -> (passed: bool)
    ensures
        passed == (now > since + nanos),
{
    since <= i128::MAX - nanos as i128 && now > since + nanos as i128
}

impl Timeout {
    /// The timeout with its latest message at `now`.
    pub open spec fn bumped(self, now: i128) -> Timeout {
        Timeout { latest_message: Some(now), ..self }
    }

    /// The timeout without a latest message.
    pub open spec fn cleared(self) -> Timeout {
        Timeout { latest_message: None, ..self }
    }

    /// Whether at `now` more than the timeout has passed since the latest message.
    pub open spec fn is_lapsed(self, now: i128) -> bool {
        self.latest_message matches Some(latest) && now > latest + self.timeout
    }

    /// Whether at `now` more than half the timeout has passed since the latest message.
    pub open spec fn is_near(self, now: i128) -> bool {
        self.latest_message matches Some(latest) && now > latest + self.timeout / 2
    }

    pub fn new(timeout: u64) -> (made: Timeout)
        ensures
            made.latest_message is None,
            made.timeout == timeout,
    {
        Timeout { origin: start_clock(), latest_message: None, timeout }
    }

    pub fn clear(&mut self)
        ensures
            *final(self) == old(self).cleared(),
    {
        self.latest_message = None;
    }

    /// Present reading of the clock. It is never less than zero, so a message that is noted now
    /// can be set back by any number of nanoseconds.
    fn now(&self) -> (now: i128)
        ensures
            now >= 0,
    {
        nanos_since(&self.origin)
    }

    /// Notes a message that arrives at `now`.
    pub fn bump_at(&mut self, now: i128)
        ensures
            *final(self) == old(self).bumped(now),
    {
        self.latest_message = Some(now);
    }

    /// Notes a message that arrives now.
    pub fn bump(&mut self)
        ensures
            exists|now: i128| now >= 0 && *final(self) == #[trigger] old(self).bumped(now),
    {
        let now: i128 = self.now();
        self.bump_at(now);
    }

    /// Whether the timeout has lapsed at `now`.
    pub fn lapsed_at(&self, now: i128) -> (lapsed: bool)
        ensures
            lapsed == self.is_lapsed(now),
    {
        match self.latest_message {
            Some(latest) => passed(latest, self.timeout, now),
            None => false,
        }
    }

    /// Whether the timeout has lapsed.
    pub fn lapsed(&self) -> (lapsed: bool)
        ensures
            exists|now: i128| now >= 0 && lapsed == #[trigger] self.is_lapsed(now),
    {
        let now: i128 = self.now();
        self.lapsed_at(now)
    }

    /// Whether half the timeout has passed at `now`.
    pub fn near_at(&self, now: i128) -> (near: bool)
        ensures
            near == self.is_near(now),
    {
        match self.latest_message {
            Some(latest) => passed(latest, self.timeout / 2, now),
            None => false,
        }
    }

    /// Whether half the timeout has passed.
    pub fn near(&self) -> (near: bool)
        ensures
            exists|now: i128| now >= 0 && near == #[trigger] self.is_near(now),
    {
        let now: i128 = self.now();
        self.near_at(now)
    }

    /// Jumps ahead in time by setting the latest message back, by a little more than `nanos`.
    pub fn fast_forward(&mut self, nanos: u64)
        requires
            old(self).latest_message matches Some(latest) ==> latest - nanos - 10 >= i128::MIN,
        ensures
            *final(self) == (match old(self).latest_message {
                Some(latest) => old(self).bumped((latest - nanos - 10) as i128),
                None => *old(self),
            }),
    {
        if let Some(latest) = self.latest_message {
            self.latest_message = Some(latest - nanos as i128 - 10);
        }
    }
}

/// A command that is neither a proposal nor a catchup request sets the timeout back to its
/// beginning, whatever it was before: it is measured from the arrival of the command, and until it
/// has passed from then on leadership is not due to a follower, nor to a leader until half of it
/// has. Then it is due. The other commands leave the timeout as it is.
pub proof fn commands_set_the_timeout_back<R: Replica>(
    before: Liveness<R>,
    command: CommandView,
    now: i128,
    after: Liveness<R>,
    time: i128,
)
    requires
        before.received_at(command, now, &after),
    ensures
        before.inner.received(command, &after.inner),
        after.leader_election.timeout == before.leader_election.timeout,
        after.leader_election.origin == before.leader_election.origin,
        if command is Proposal || command is Catchup {
            after.leader_election.latest_message == before.leader_election.latest_message
        } else {
            let passed = time - now;
            &&& after.leader_election.latest_message == Some(now)
            &&& !after.inner.leads() ==> (after.is_due(time) <==> passed
                > after.leader_election.timeout)
            &&& after.inner.leads() ==> (after.is_due(time) <==> passed
                > after.leader_election.timeout / 2)
        },
{
}

/// In a step at a time at which leadership is due, the replica stands for leadership before its
/// own step, and the timeout does not run any more: leadership is not due again until another
/// command has arrived. In every other step it makes its own step alone.
pub proof fn steps_stand_when_leadership_is_due<R: Replica>(
    before: Liveness<R>,
    now: i128,
    after: Liveness<R>,
    time: i128,
)
    requires
        before.ticked_at(now, &after),
    ensures
        after.leader_election.timeout == before.leader_election.timeout,
        ({
            let limit: int = if before.inner.leads() {
                before.leader_election.timeout as int / 2
            } else {
                before.leader_election.timeout as int
            };
            if before.leader_election.latest_message is Some && now
                - before.leader_election.latest_message->Some_0 > limit {
                &&& after.leader_election.latest_message is None
                &&& !after.is_due(time)
                &&& exists|standing: R|
                    before.inner.elected(&standing) && standing.ticked(&after.inner)
            } else {
                &&& after.leader_election.latest_message == before.leader_election.latest_message
                &&& before.inner.ticked(&after.inner)
            }
        }),
{
}

/// What a replica says of itself it says through its timeout, too, and standing for leadership or
/// receiving a command by the clock is what it is at some reading of the clock.
pub proof fn timeouts_hide_nothing<R: Replica>(
    before: Liveness<R>,
    command: CommandView,
    after: Liveness<R>,
    decisions: DecisionSet,
)
    ensures
        before.leads() == before.inner.leads(),
        before.sound() == before.inner.sound(),
        before.electable() == before.inner.electable(),
        before.receivable(command) == before.inner.receivable(command),
        before.has_decided(&decisions) == before.inner.has_decided(&decisions),
        before.elected(&after) ==> before.inner.elected(&after.inner) && after.leader_election
            == before.leader_election,
        before.received(command, &after) ==> exists|now: i128|
            now >= 0 && #[trigger] before.received_at(command, now, &after),
        before.ticked(&after) ==> exists|now: i128|
            now >= 0 && #[trigger] before.ticked_at(now, &after),
{
}

/// A step can be made at a time if the replica can make its own step, and, if leadership is due
/// then, can stand for it and make its step afterwards. What holds of every time at which
/// leadership may fall due is asked of a step by the clock, and without a latest message that is
/// nothing but the step of the replica.
pub proof fn steps_ask_for_leadership_when_it_is_due<R: Replica>(live: Liveness<R>, now: i128)
    ensures
        live.can_tick_at(now) <==> live.inner.tickable() && (live.is_due(now)
            ==> live.inner.electable() && forall|standing: R|
            live.inner.elected(&standing) ==> standing.tickable()),
        live.tickable() <==> forall|time: i128| time >= 0 ==> #[trigger] live.can_tick_at(time),
        live.leader_election.latest_message is None && live.inner.tickable() ==> live.tickable(),
{
}

/// A timeout has lapsed once more time than it allows has passed since the latest message, and is
/// near once more than half of that has. Without a message it is neither.
pub proof fn timeouts_lapse_after_their_time(timeout: Timeout, now: i128)
    ensures
        timeout.is_lapsed(now) <==> timeout.latest_message is Some && now
            - timeout.latest_message->Some_0 > timeout.timeout,
        timeout.is_near(now) <==> timeout.latest_message is Some && now
            - timeout.latest_message->Some_0 > timeout.timeout / 2,
        timeout.bumped(now).latest_message == Some(now),
        timeout.bumped(now).timeout == timeout.timeout,
        timeout.bumped(now).origin == timeout.origin,
        timeout.cleared().latest_message is None,
        timeout.cleared().timeout == timeout.timeout,
        timeout.cleared().origin == timeout.origin,
{
}

} // verus!
