//! The control state of a session, and the admission rule of the pacing
//! contract.
//!
//! A session's executive outlives its connection; what the control panel
//! sets is held apart from it, so the driver can read it without taking the
//! executive's lock. The whole admission contract is one rule with two
//! bounds: lockstep is free-running with a buffer of one, and
//! [`Control::admission_open`] is where that rule lives.

use vstd::prelude::*;

verus! {

/// How the scene and the evaluator are paced against each other.
#[derive(Copy, Clone, Debug, PartialEq, Eq, Structural)]
pub enum Pacing {
    /// Admit a round of at most `cores` commits, then withhold admission of
    /// the next until the scene acknowledges that every animation in the
    /// round has finished.
    Lockstep,
    /// Admit without waiting. Rounds feed a bounded buffer that the scene
    /// drains; when it is full, admission pauses until an entry is drained,
    /// so the evaluator never runs further ahead of the scene than the bound.
    FreeRunning,
}

/// The name a pacing mode goes by on the wire.
pub open spec fn pacing_name(p: Pacing) -> Seq<char> {
    match p {
        Pacing::Lockstep => seq!['l', 'o', 'c', 'k', 's', 't', 'e', 'p'],
        Pacing::FreeRunning => seq!['f', 'r', 'e', 'e', '-', 'r', 'u', 'n', 'n', 'i', 'n', 'g'],
    }
}

impl Pacing {
    pub fn name(self) -> (s: &'static str)
        ensures
            s@ == pacing_name(self),
    {
        match self {
            Pacing::Lockstep => {
                proof {
                    reveal_strlit("lockstep");
                }
                "lockstep"
            },
            Pacing::FreeRunning => {
                proof {
                    reveal_strlit("free-running");
                }
                "free-running"
            },
        }
    }
}

/// What the control panel sets.
///
/// The throughput readout (a rate over wall-clock time) is kept beside this
/// by the program that runs the session; everything that decides admission
/// is here.
pub struct Control {
    pub pacing: Pacing,
    /// Rounds admitted but not yet acknowledged by the scene.
    pub in_flight: u64,
    /// The playback buffer bound, in rounds. Lockstep ignores it: its bound
    /// is one, by definition.
    pub buffer: u64,
    /// Whether the driver should be advancing at all — the panel's run/pause.
    pub running: bool,
    /// Rounds still owed after a `step`, for single-stepping in either mode.
    pub steps_owed: u64,
    /// Quotation depth the client can still draw; past it the tree elides.
    pub quote_depth: u32,
    /// Rounds admitted since the session began.
    pub round: u64,
}

/// `a - b`, or zero when `b` is larger.
pub open spec fn sat_sub(a: nat, b: nat) -> nat {
    if a >= b {
        (a - b) as nat
    } else {
        0
    }
}

pub open spec fn min_nat(a: nat, b: nat) -> nat {
    if a <= b {
        a
    } else {
        b
    }
}

impl Control {
    /// How many rounds may be in flight: one in lockstep, the buffer (at
    /// least one) when free-running.
    pub open spec fn bound_spec(self) -> nat {
        match self.pacing {
            Pacing::Lockstep => 1,
            Pacing::FreeRunning => if self.buffer >= 1 {
                self.buffer as nat
            } else {
                1
            },
        }
    }

    /// Whether the scheduler may admit another round.
    pub open spec fn admits(self) -> bool {
        (self.in_flight as nat) < self.bound_spec()
    }

    /// Whether the driver should admit a round now.
    pub open spec fn advancing(self) -> bool {
        (self.running || self.steps_owed > 0) && self.admits()
    }

    /// The control state after the scene acknowledges every round through
    /// `upto`: no more rounds are in flight than were admitted after it.
    pub open spec fn acked(self, upto: u64) -> Control {
        Control {
            in_flight: min_nat(self.in_flight as nat, sat_sub(self.round as nat, upto as nat)) as u64,
            ..self
        }
    }

    /// The control state after one round has been admitted. A quiescent
    /// executive has nothing left to advance, so the panel stops asking.
    pub open spec fn admitted(self, quiescent: bool) -> Control {
        Control {
            round: (self.round + 1) as u64,
            in_flight: (self.in_flight + 1) as u64,
            steps_owed: if quiescent {
                0
            } else {
                sat_sub(self.steps_owed as nat, 1) as u64
            },
            running: self.running && !quiescent,
            ..self
        }
    }

    /// The panel's pause: stop, and forget any step still owed.
    pub open spec fn paused(self) -> Control {
        Control { running: false, steps_owed: 0, ..self }
    }

    /// The panel's single step: one more round owed.
    pub open spec fn stepped(self) -> Control {
        Control {
            steps_owed: if self.steps_owed < u64::MAX {
                (self.steps_owed + 1) as u64
            } else {
                u64::MAX
            },
            ..self
        }
    }

    /// The state of a session whose world has been thrown away.
    pub open spec fn cleared(self) -> Control {
        Control { running: false, steps_owed: 0, in_flight: 0, round: 0, ..self }
    }

    /// A fresh session: lockstep, paused, a buffer of 128 rounds, four
    /// quotation levels.
    pub fn new() -> (c: Control)
        ensures
            c == (Control {
                pacing: Pacing::Lockstep,
                in_flight: 0,
                buffer: 128,
                running: false,
                steps_owed: 0,
                quote_depth: 4,
                round: 0,
            }),
    {
        Control {
            pacing: Pacing::Lockstep,
            in_flight: 0,
            buffer: 128,
            running: false,
            steps_owed: 0,
            quote_depth: 4,
            round: 0,
        }
    }

    /// The admission bound, as the panel reports it.
    pub fn bound(&self) -> (b: u64)
        ensures
            b as nat == self.bound_spec(),
    {
        match self.pacing {
            Pacing::Lockstep => 1,
            Pacing::FreeRunning => if self.buffer >= 1 {
                self.buffer
            } else {
                1
            },
        }
    }

    /// Whether the scheduler may admit another round. Lockstep is
    /// free-running with a bound of one; writing it that way rather than as
    /// two code paths is what keeps the two modes honestly comparable.
    pub fn admission_open(&self) -> (b: bool)
        ensures
            b == self.admits(),
    {
        self.in_flight < self.bound()
    }

    pub fn wants_to_advance(&self) -> (b: bool)
        ensures
            b == self.advancing(),
    {
        (self.running || self.steps_owed > 0) && self.admission_open()
    }

    /// Mark rounds acknowledged by the scene, releasing admission. An ack
    /// names the highest round the scene has finished animating, so a
    /// client that batches acks, or whose ack for an earlier round was lost
    /// in a reconnect, still frees the right number of slots.
    pub fn ack(&mut self, upto: u64)
        ensures
            *final(self) == old(self).acked(upto),
    {
        let outstanding = self.round.saturating_sub(upto);
        self.in_flight = if self.in_flight <= outstanding {
            self.in_flight
        } else {
            outstanding
        };
    }

    /// Record one admitted round.
    pub fn record_round(&mut self, quiescent: bool)
        requires
            old(self).round < u64::MAX,
            old(self).in_flight < u64::MAX,
        ensures
            *final(self) == old(self).admitted(quiescent),
    {
        self.round = self.round + 1;
        self.in_flight = self.in_flight + 1;
        if self.steps_owed > 0 {
            self.steps_owed = self.steps_owed - 1;
        }
        if quiescent {
            self.running = false;
            self.steps_owed = 0;
        }
    }

    /// The panel's run.
    pub fn play(&mut self)
        ensures
            *final(self) == (Control { running: true, ..*old(self) }),
    {
        self.running = true;
    }

    /// The panel's pause.
    pub fn pause(&mut self)
        ensures
            *final(self) == old(self).paused(),
    {
        self.running = false;
        self.steps_owed = 0;
    }

    /// Single-step admits exactly one round, in either mode.
    pub fn step(&mut self)
        ensures
            *final(self) == old(self).stepped(),
    {
        self.steps_owed = self.steps_owed.saturating_add(1);
    }

    /// Forget the world's progress: nothing running, owed, in flight or
    /// admitted. Pacing, buffer and quotation depth are the panel's and stay.
    pub fn clear(&mut self)
        ensures
            *final(self) == old(self).cleared(),
    {
        self.running = false;
        self.steps_owed = 0;
        self.in_flight = 0;
        self.round = 0;
    }
}

// ---------------------------------------------------------------------------
// Laws of the admission contract

/// Lockstep is free-running with a buffer of one: for any state, admission
/// in lockstep is decided exactly as it is when free-running over a buffer
/// of one round.
pub proof fn lemma_lockstep_is_free_running_with_buffer_one(c: Control)
    ensures
        (Control { pacing: Pacing::Lockstep, ..c }).admits() == (Control {
            pacing: Pacing::FreeRunning,
            buffer: 1,
            ..c
        }).admits(),
{
}

/// Admission is exactly "fewer rounds in flight than the bound": free-running
/// over a buffer of `n >= 1` admits while fewer than `n` rounds are in
/// flight, and never once `n` are.
pub proof fn lemma_free_running_admits_up_to_the_bound(c: Control)
    requires
        c.pacing == Pacing::FreeRunning,
        c.buffer >= 1,
    ensures
        c.admits() <==> c.in_flight < c.buffer,
{
}

/// The evaluator never runs further ahead of the scene than the bound: a
/// round admitted while admission is open leaves at most the bound in flight.
pub proof fn lemma_admission_respects_the_bound(c: Control, quiescent: bool)
    requires
        c.admits(),
    ensures
        c.admitted(quiescent).in_flight <= c.admitted(quiescent).bound_spec(),
{
}

/// An acknowledgment never puts a round back in flight, and leaves no more
/// in flight than were admitted after the round it names.
pub proof fn lemma_ack_releases(c: Control, upto: u64)
    ensures
        c.acked(upto).in_flight <= c.in_flight,
        c.acked(upto).in_flight <= sat_sub(c.round as nat, upto as nat),
        c.acked(upto).round == c.round,
{
}

/// Acknowledging through the latest admitted round empties the buffer.
pub proof fn lemma_ack_of_latest_round_drains(c: Control)
    ensures
        c.acked(c.round).in_flight == 0,
        c.acked(c.round).admits(),
{
}

/// Acks may be batched, repeated or reordered: acknowledging `a` and then
/// `b` is the same as acknowledging the later of the two once.
pub proof fn lemma_acks_compose(c: Control, a: u64, b: u64)
    ensures
        c.acked(a).acked(b) == c.acked(if a >= b { a } else { b }),
{
}

/// A duplicate acknowledgment changes nothing.
pub proof fn lemma_ack_idempotent(c: Control, upto: u64)
    ensures
        c.acked(upto).acked(upto) == c.acked(upto),
{
}

/// Rounds in flight are rounds admitted and not yet acknowledged, so there
/// are never more of them than rounds admitted: admitting, acknowledging,
/// pausing, stepping and clearing all keep it so.
pub proof fn lemma_in_flight_within_rounds(c: Control, quiescent: bool, upto: u64)
    requires
        c.in_flight <= c.round,
        c.round < u64::MAX,
    ensures
        c.admitted(quiescent).in_flight <= c.admitted(quiescent).round,
        c.acked(upto).in_flight <= c.acked(upto).round,
        c.paused().in_flight <= c.paused().round,
        c.stepped().in_flight <= c.stepped().round,
        c.cleared().in_flight <= c.cleared().round,
{
}

/// A paused session admits nothing, whatever its buffer holds.
pub proof fn lemma_paused_admits_nothing(c: Control)
    ensures
        !c.paused().advancing(),
{
}

/// A single step from a paused session admits exactly one round: it asks for
/// one while admission is open, and once that round is admitted it asks for
/// no more.
pub proof fn lemma_step_admits_exactly_one(c: Control, quiescent: bool)
    ensures
        c.paused().stepped().advancing() == c.admits(),
        !c.paused().stepped().admitted(quiescent).advancing(),
{
}

/// Once the executive is quiescent the driver stops asking for rounds.
pub proof fn lemma_quiescent_stops(c: Control)
    ensures
        !c.admitted(true).advancing(),
{
}

/// Clearing a session's world leaves admission open and nothing running.
pub proof fn lemma_cleared_is_idle(c: Control)
    ensures
        c.cleared().admits(),
        !c.cleared().advancing(),
{
}

} // verus!
