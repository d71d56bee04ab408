//! The driver's frames: what a session tells its client as rounds are
//! admitted.
//!
//! The executive decides *what* reduces; what was missing for a networked
//! client is *when* a decided commit is released to the scene. The decision
//! is [`crate::session::Control`]'s; the frames that release a round, report
//! the panel's readouts and push the scene are written here.

use vstd::prelude::*;

use crate::json::{bool_text, field_bool_text, field_num_text, field_raw_text, field_str_text, frame, frame_text, Buf};
use crate::session::{pacing_name, Control, Pacing};

verus! {

/// `,` then a field: how every field of a frame after its tag is written.
pub open spec fn then(f: Seq<char>) -> Seq<char> {
    seq![','] + f
}

/// The buffer a round reports: one in lockstep, the buffer setting as it
/// stands when free-running.
pub open spec fn round_buffer(pacing: Pacing, buffer: u64) -> nat {
    if pacing == Pacing::Lockstep {
        1
    } else {
        buffer as nat
    }
}

/// A released round: the commit log for it and the scene that results, so
/// the client animates the log and then has the world to apply.
pub open spec fn round_text(
    round: u64,
    cores: u32,
    pacing: Pacing,
    steps: Seq<char>,
    quiescent: bool,
    in_flight: u64,
    buffer: u64,
    scene: Seq<char>,
) -> Seq<char> {
    frame_text(
        "round"@,
        then(field_num_text("round"@, round as nat)) + then(field_num_text("cores"@, cores as nat))
            + then(field_str_text("pacing"@, pacing_name(pacing))) + then(
            field_raw_text("steps"@, steps),
        ) + then(field_bool_text("quiescent"@, quiescent)) + then(
            field_bool_text("ackRequired"@, true),
        ) + then(field_num_text("inFlight"@, in_flight as nat)) + then(
            field_num_text("buffer"@, round_buffer(pacing, buffer)),
        ) + then(field_raw_text("scene"@, scene)),
    )
}

/// Whether `t` occurs in `s`.
pub open spec fn contains_text(s: Seq<char>, t: Seq<char>) -> bool {
    exists|i: int| 0 <= i && i + t.len() <= s.len() && #[trigger] s.subrange(i, i + t.len()) == t
}

/// Every released round asks to be acknowledged, in lockstep and when
/// free-running alike: the frame carries `,"ackRequired":true` right after
/// its `quiescent` field.
#[verifier::spinoff_prover]
pub proof fn lemma_every_round_asks_for_an_ack(
    round: u64,
    cores: u32,
    pacing: Pacing,
    steps: Seq<char>,
    quiescent: bool,
    in_flight: u64,
    buffer: u64,
    scene: Seq<char>,
)
    ensures
        contains_text(
            round_text(round, cores, pacing, steps, quiescent, in_flight, buffer, scene),
            ",\"ackRequired\":true"@,
        ),
        contains_text(
            round_text(round, cores, pacing, steps, quiescent, in_flight, buffer, scene),
            ",\"quiescent\":"@ + bool_text(quiescent) + ",\"ackRequired\":true,\"inFlight\":"@,
        ),
{
    reveal_strlit(",\"ackRequired\":true");
    reveal_strlit(",\"ackRequired\":true,\"inFlight\":");
    reveal_strlit(",\"quiescent\":");
    reveal_strlit("ackRequired");
    reveal_strlit("quiescent");
    reveal_strlit("inFlight");
    let pre = seq!['{', '"', 't', '"', ':', '"'] + "round"@ + seq!['"'] + then(
        field_num_text("round"@, round as nat),
    ) + then(field_num_text("cores"@, cores as nat)) + then(field_str_text("pacing"@, pacing_name(pacing)))
        + then(field_raw_text("steps"@, steps));
    let q = then(field_bool_text("quiescent"@, quiescent));
    let ack = then(field_bool_text("ackRequired"@, true));
    let inf = then(field_num_text("inFlight"@, in_flight as nat));
    let post = then(field_num_text("buffer"@, round_buffer(pacing, buffer))) + then(
        field_raw_text("scene"@, scene),
    ) + seq!['}'];
    let text = round_text(round, cores, pacing, steps, quiescent, in_flight, buffer, scene);
    assert(text =~= pre + q + ack + inf + post);
    let t1 = ",\"ackRequired\":true"@;
    assert(ack =~= t1);
    let i = (pre + q).len() as int;
    assert(text.subrange(i, i + t1.len()) =~= t1);
    let t2 = ",\"quiescent\":"@ + bool_text(quiescent) + ",\"ackRequired\":true,\"inFlight\":"@;
    assert(q + ack + ",\"inFlight\":"@ =~= t2) by {
        reveal_strlit(",\"inFlight\":");
    }
    let j = pre.len() as int;
    assert(inf.len() >= ",\"inFlight\":"@.len()) by {
        reveal_strlit(",\"inFlight\":");
    }
    assert(text.subrange(j, j + t2.len()) =~= t2) by {
        reveal_strlit(",\"inFlight\":");
        assert(inf.take(12) =~= ",\"inFlight\":"@);
    }
}

/// The frame that hands one round to the scene.
pub fn round_frame(
    round: u64,
    cores: u32,
    pacing: Pacing,
    steps: &str,
    quiescent: bool,
    in_flight: u64,
    buffer: u64,
    scene: &str,
) -> (r: String)
    ensures
        r@ == round_text(round, cores, pacing, steps@, quiescent, in_flight, buffer, scene@),
{
    let mut b = Buf::new();
    b.comma();
    b.field_num("round", round);
    b.comma();
    b.field_num("cores", cores as u64);
    b.comma();
    b.field_str("pacing", pacing.name());
    b.comma();
    b.field_raw("steps", steps);
    b.comma();
    b.field_bool("quiescent", quiescent);
    b.comma();
    b.field_bool("ackRequired", true);
    b.comma();
    b.field_num("inFlight", in_flight);
    b.comma();
    b.field_num("buffer", if pacing == Pacing::Lockstep {
        1
    } else {
        buffer
    });
    b.comma();
    b.field_raw("scene", scene);
    let fields = b.into_string();
    assert(fields@ =~= then(field_num_text("round"@, round as nat)) + then(
        field_num_text("cores"@, cores as nat),
    ) + then(field_str_text("pacing"@, pacing_name(pacing))) + then(field_raw_text("steps"@, steps@))
        + then(field_bool_text("quiescent"@, quiescent)) + then(
        field_bool_text("ackRequired"@, true),
    ) + then(field_num_text("inFlight"@, in_flight as nat)) + then(
        field_num_text("buffer"@, round_buffer(pacing, buffer)),
    ) + then(field_raw_text("scene"@, scene@)));
    frame("round", fields.as_str())
}

/// The frame that says the executive has nothing left to do.
pub fn quiescent_frame(round: u64) -> (r: String)
    ensures
        r@ == frame_text("quiescent"@, then(field_num_text("round"@, round as nat))),
{
    let mut b = Buf::new();
    b.comma();
    b.field_num("round", round);
    let fields = b.into_string();
    assert(fields@ =~= then(field_num_text("round"@, round as nat)));
    frame("quiescent", fields.as_str())
}

/// The scene as it stands, pushed without advancing anything.
pub fn scene_frame(round: u64, scene: &str) -> (r: String)
    ensures
        r@ == frame_text(
            "scene"@,
            then(field_num_text("round"@, round as nat)) + then(field_raw_text("scene"@, scene@)),
        ),
{
    let mut b = Buf::new();
    b.comma();
    b.field_num("round", round);
    b.comma();
    b.field_raw("scene", scene);
    let fields = b.into_string();
    assert(fields@ =~= then(field_num_text("round"@, round as nat)) + then(
        field_raw_text("scene"@, scene@),
    ));
    frame("scene", fields.as_str())
}

/// What the executive reports for the panel's readouts.
pub struct Readouts {
    /// The width of an admitted round.
    pub cores: u32,
    /// The upper bound of the cores slider.
    pub cores_max: u32,
    pub tick: u64,
    pub comms: u64,
    pub steps: u64,
    pub queued: u64,
    pub data: u64,
    pub waiting: u64,
    pub deploys: u64,
    pub quiescent: bool,
    /// Commits per second, rounded.
    pub commits_per_sec: u64,
}

/// The panel's readouts: buffer fill, whether admission is open or paused
/// by back-pressure, and the executive's counters.
pub open spec fn stats_text(c: Control, r: Readouts) -> Seq<char> {
    frame_text(
        "stats"@,
        then(field_num_text("round"@, c.round as nat)) + then(field_num_text("tick"@, r.tick as nat))
            + then(field_str_text("pacing"@, pacing_name(c.pacing))) + then(
            field_bool_text("running"@, c.running),
        ) + then(field_num_text("cores"@, r.cores as nat)) + then(
            field_num_text("coresMax"@, r.cores_max as nat),
        ) + then(field_num_text("inFlight"@, c.in_flight as nat)) + then(
            field_num_text("buffer"@, c.bound_spec()),
        ) + then(field_bool_text("admissionOpen"@, c.admits())) + then(
            field_num_text("commitsPerSec"@, r.commits_per_sec as nat),
        ) + then(field_num_text("comms"@, r.comms as nat)) + then(
            field_num_text("steps"@, r.steps as nat),
        ) + then(field_num_text("queued"@, r.queued as nat)) + then(
            field_num_text("data"@, r.data as nat),
        ) + then(field_num_text("waiting"@, r.waiting as nat)) + then(
            field_num_text("deploys"@, r.deploys as nat),
        ) + then(field_bool_text("quiescent"@, r.quiescent)),
    )
}

/// The stats frame. `admissionOpen: false` is the evaluator waiting for the
/// scene, not a stall.
#[verifier::rlimit(60)]
pub fn stats_frame(c: &Control, r: &Readouts) -> (f: String)
    ensures
        f@ == stats_text(*c, *r),
{
    let mut b = Buf::new();
    b.comma();
    b.field_num("round", c.round);
    b.comma();
    b.field_num("tick", r.tick);
    b.comma();
    b.field_str("pacing", c.pacing.name());
    b.comma();
    b.field_bool("running", c.running);
    b.comma();
    b.field_num("cores", r.cores as u64);
    b.comma();
    b.field_num("coresMax", r.cores_max as u64);
    b.comma();
    b.field_num("inFlight", c.in_flight);
    b.comma();
    b.field_num("buffer", c.bound());
    b.comma();
    b.field_bool("admissionOpen", c.admission_open());
    b.comma();
    b.field_num("commitsPerSec", r.commits_per_sec);
    b.comma();
    b.field_num("comms", r.comms);
    b.comma();
    b.field_num("steps", r.steps);
    b.comma();
    b.field_num("queued", r.queued);
    b.comma();
    b.field_num("data", r.data);
    b.comma();
    b.field_num("waiting", r.waiting);
    b.comma();
    b.field_num("deploys", r.deploys);
    b.comma();
    b.field_bool("quiescent", r.quiescent);
    let fields = b.into_string();
    assert(fields@ =~= then(field_num_text("round"@, c.round as nat)) + then(
        field_num_text("tick"@, r.tick as nat),
    ) + then(field_str_text("pacing"@, pacing_name(c.pacing))) + then(
        field_bool_text("running"@, c.running),
    ) + then(field_num_text("cores"@, r.cores as nat)) + then(
        field_num_text("coresMax"@, r.cores_max as nat),
    ) + then(field_num_text("inFlight"@, c.in_flight as nat)) + then(
        field_num_text("buffer"@, c.bound_spec()),
    ) + then(field_bool_text("admissionOpen"@, c.admits())) + then(
        field_num_text("commitsPerSec"@, r.commits_per_sec as nat),
    ) + then(field_num_text("comms"@, r.comms as nat)) + then(
        field_num_text("steps"@, r.steps as nat),
    ) + then(field_num_text("queued"@, r.queued as nat)) + then(
        field_num_text("data"@, r.data as nat),
    ) + then(field_num_text("waiting"@, r.waiting as nat)) + then(
        field_num_text("deploys"@, r.deploys as nat),
    ) + then(field_bool_text("quiescent"@, r.quiescent)));
    frame("stats", fields.as_str())
}

/// The first frame a connection receives: the harness protocol version, the
/// session it is bound to, whether that session already existed, and the
/// cores slider's bound.
pub open spec fn ready_text(wire: u32, session: Seq<char>, resumed: bool, cores_max: u32) -> Seq<
    char,
> {
    frame_text(
        "ready"@,
        then(field_num_text("wire"@, wire as nat)) + then(field_str_text("session"@, session))
            + then(field_bool_text("resumed"@, resumed)) + then(
            field_num_text("coresMax"@, cores_max as nat),
        ),
    )
}

pub fn ready_frame(session: &str, resumed: bool, cores_max: u32) -> (r: String)
    ensures
        r@ == ready_text(crate::WIRE_VERSION, session@, resumed, cores_max),
{
    let mut b = Buf::new();
    b.comma();
    b.field_num("wire", crate::WIRE_VERSION as u64);
    b.comma();
    b.field_str("session", session);
    b.comma();
    b.field_bool("resumed", resumed);
    b.comma();
    b.field_num("coresMax", cores_max as u64);
    let fields = b.into_string();
    assert(fields@ =~= then(field_num_text("wire"@, crate::WIRE_VERSION as nat)) + then(
        field_str_text("session"@, session@),
    ) + then(field_bool_text("resumed"@, resumed)) + then(
        field_num_text("coresMax"@, cores_max as nat),
    ));
    frame("ready", fields.as_str())
}

// ---------------------------------------------------------------------------
// One pass of the driver

/// What a session's driver does on one pass of its loop.
#[derive(Copy, Clone, Debug, PartialEq, Eq, Structural)]
pub enum Step {
    /// The session is closing: the driver ends.
    Stop,
    /// Nothing to do this pass.
    Wait,
    /// Nothing to admit, but the panel's readouts are due.
    Readouts,
    /// Admit one round and release it to the scene.
    Admit,
}

/// The pass the driver takes, from what it sees after waiting for work:
/// whether the session is closing, the control state, whether the wait
/// timed out, whether a client is attached, and whether the readouts are
/// due. A round nobody can see would never be acknowledged, so a detached
/// session is never advanced.
pub open spec fn next_step_spec(closing: bool, c: Control, timed_out: bool, attached: bool, readouts_due: bool) -> Step {
    if closing {
        Step::Stop
    } else if !attached {
        Step::Wait
    } else if timed_out || !c.advancing() {
        if readouts_due {
            Step::Readouts
        } else {
            Step::Wait
        }
    } else {
        Step::Admit
    }
}

pub fn next_step(closing: bool, c: &Control, timed_out: bool, attached: bool, readouts_due: bool) -> (s: Step)
    ensures
        s == next_step_spec(closing, *c, timed_out, attached, readouts_due),
{
    if closing {
        Step::Stop
    } else if !attached {
        Step::Wait
    } else if timed_out || !c.wants_to_advance() {
        if readouts_due {
            Step::Readouts
        } else {
            Step::Wait
        }
    } else {
        Step::Admit
    }
}

/// The driver admits a round only for an attached session that is not
/// closing, that is running or owed a step, and whose admission is open.
pub proof fn lemma_admits_only_when_open(closing: bool, c: Control, timed_out: bool, attached: bool, readouts_due: bool)
    requires
        next_step_spec(closing, c, timed_out, attached, readouts_due) == Step::Admit,
    ensures
        !closing,
        attached,
        c.admits(),
        c.running || c.steps_owed > 0,
{
}

/// A detached session is not advanced, whatever its control state says.
pub proof fn lemma_detached_is_not_advanced(c: Control, timed_out: bool, readouts_due: bool)
    ensures
        next_step_spec(false, c, timed_out, false, readouts_due) == Step::Wait,
{
}

/// One pass that admits a round: it is taken only when the session is
/// attached and asks to advance with admission open, and it numbers rounds
/// one after another: the round count and the rounds in flight each grow by
/// one, one owed step is used, and a quiescent round stops the run.
pub proof fn lemma_admitted_round(closing: bool, c: Control, timed_out: bool, attached: bool, readouts_due: bool, quiescent: bool)
    requires
        next_step_spec(closing, c, timed_out, attached, readouts_due) == Step::Admit,
        c.round < u64::MAX,
        c.in_flight < u64::MAX,
    ensures
        attached && c.advancing(),
        c.admitted(quiescent).round == c.round + 1,
        c.admitted(quiescent).in_flight == c.in_flight + 1,
        !quiescent ==> c.admitted(quiescent).steps_owed == (if c.steps_owed > 0 {
            c.steps_owed - 1
        } else {
            0
        }),
        quiescent ==> !c.admitted(quiescent).running && c.admitted(quiescent).steps_owed == 0,
{
}

} // verus!
