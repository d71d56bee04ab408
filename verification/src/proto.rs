//! The request side.
//!
//! The executive already defines the vocabulary the headset speaks —
//! `deploy`, `tick`, `run`, `scene`, `trace`, `log`, `cores`, `mode`,
//! `status`, `show` — as a line protocol with JSON replies. None of it is
//! reimplemented here: anything this module does not recognise goes to the
//! executive verbatim. What is decided here is only what a socket needs and
//! a linked library does not: the correlation prefix, the session a request
//! belongs to, and the panel's pacing verbs, whose gate is an
//! acknowledgment rather than a semaphore.
//!
//! A request is one WebSocket text frame. It may begin with `#<n> ` to carry
//! a correlation number, which comes back on the reply.

use vstd::prelude::*;

use crate::json::{
    bool_text, dec, esc, esc_spec, field_bool_text, field_num_text, field_raw_text,
    field_str_text, frame, frame_text, Buf,
};
use crate::session::{pacing_name, Control, Pacing};
use crate::text::{find_char, parse_u64, parse_uint, str_eq, words};

verus! {

/// What the connection should do after a request.
pub enum After {
    Continue,
    /// The client said goodbye, or asked for the session to be destroyed.
    Close,
}

// ---------------------------------------------------------------------------
// Reply shapes

/// The executive's success shape, so a client has one reply path.
pub open spec fn ok_text(body: Seq<char>) -> Seq<char> {
    "{\"ok\":true,\"result\":"@ + body + "}"@
}

/// The executive's failure shape, likewise: one diagnostic, at no position.
pub open spec fn err_text(code: Seq<char>, message: Seq<char>) -> Seq<char> {
    "{\"ok\":false,\"diags\":[{\"lo\":0,\"hi\":0,\"code\":\""@ + esc_spec(code)
        + "\",\"message\":\""@ + esc_spec(message) + "\"}]}"@
}

/// The reply frame that carries a request's reply body, with the request's
/// correlation number or `null`.
pub open spec fn reply_text(seq: Option<u64>, body: Seq<char>) -> Seq<char> {
    frame_text(
        "reply"@,
        seq![','] + match seq {
            Some(n) => field_num_text("seq"@, n as nat),
            None => field_raw_text("seq"@, "null"@),
        } + seq![','] + field_raw_text("body"@, body),
    )
}

pub fn ok(body: &str) -> (r: String)
    ensures
        r@ == ok_text(body@),
{
    let mut b = Buf::new();
    b.raw("{\"ok\":true,\"result\":");
    b.raw(body);
    b.raw("}");
    b.into_string()
}

pub fn err(code: &str, message: &str) -> (r: String)
    ensures
        r@ == err_text(code@, message@),
{
    let mut b = Buf::new();
    b.raw("{\"ok\":false,\"diags\":[{\"lo\":0,\"hi\":0,\"code\":\"");
    let c = esc(code);
    b.raw(c.as_str());
    b.raw("\",\"message\":\"");
    let m = esc(message);
    b.raw(m.as_str());
    b.raw("\"}]}");
    b.into_string()
}

/// An unsolicited error, outside any reply.
pub fn push_error(code: &str, message: &str) -> (r: String)
    ensures
        r@ == frame_text(
            seq!['e', 'r', 'r', 'o', 'r'],
            seq![','] + field_str_text(seq!['c', 'o', 'd', 'e'], code@) + seq![',']
                + field_str_text(seq!['m', 'e', 's', 's', 'a', 'g', 'e'], message@),
        ),
{
    crate::json::error_frame(code, message)
}

/// Wrap a reply body in a reply frame, with its correlation number.
pub fn wrap(seq: Option<u64>, body: &str) -> (r: String)
    ensures
        r@ == reply_text(seq, body@),
{
    let mut b = Buf::new();
    b.comma();
    match seq {
        Some(n) => b.field_num("seq", n),
        None => b.field_raw("seq", "null"),
    }
    b.comma();
    b.field_raw("body", body);
    let fields = b.into_string();
    frame("reply", fields.as_str())
}

// ---------------------------------------------------------------------------
// The correlation prefix

/// `#12 cores 4` is `(Some(12), "cores 4")`: a `#`, a number that `parse`
/// accepts, and a space. Anything else carries no number and is the whole
/// request.
pub open spec fn split_seq_spec(req: Seq<char>) -> (Option<u64>, Seq<char>) {
    if req.len() > 0 && req[0] == '#' {
        let rest = req.drop_first();
        match crate::text::first_index(rest, ' ') {
            Some(i) => match parse_uint(rest.take(i), u64::MAX as nat) {
                Some(n) => (Some(n as u64), rest.skip(i + 1)),
                None => (None, req),
            },
            None => (None, req),
        }
    } else {
        (None, req)
    }
}

/// Strip a correlation number. The number runs to the first space; the
/// request may then contain newlines, as `deploy` does.
pub fn split_seq(req: &str) -> (r: (Option<u64>, &str))
    ensures
        (r.0, r.1@) == split_seq_spec(req@),
{
    let n = req.unicode_len();
    if n == 0 || req.get_char(0) != '#' {
        return (None, req);
    }
    let rest = req.substring_char(1, n);
    assert(rest@ =~= req@.drop_first());
    match find_char(rest, ' ') {
        Some(i) => {
            let num = rest.substring_char(0, i);
            assert(num@ =~= rest@.take(i as int));
            proof {
                let fi = crate::text::first_index(rest@, ' ');
                assert(rest@[i as int] == ' ');
                assert(fi == Some(i as int)) by {
                    let j = fi->0;
                    assert(0 <= j < rest@.len() && rest@[j] == ' ');
                    if j < i {
                    } else if j > i {
                        assert(rest@[i as int] != ' ');
                    }
                }
            }
            match parse_u64(num) {
                Some(v) => {
                    let tail = rest.substring_char(i + 1, n - 1);
                    assert(tail@ =~= rest@.skip(i + 1));
                    (Some(v), tail)
                },
                None => (None, req),
            }
        },
        None => {
            assert(crate::text::first_index(rest@, ' ') is None);
            (None, req)
        },
    }
}

/// The first line of a request: everything before the first newline.
pub open spec fn head_spec(req: Seq<char>) -> Seq<char> {
    match crate::text::first_index(req, '\n') {
        Some(i) => req.take(i),
        None => req,
    }
}

pub fn request_head(req: &str) -> (r: &str)
    ensures
        r@ == head_spec(req@),
{
    match find_char(req, '\n') {
        Some(i) => {
            proof {
                let fi = crate::text::first_index(req@, '\n');
                assert(req@[i as int] == '\n');
                assert(fi == Some(i as int)) by {
                    let j = fi->0;
                    if j > i {
                        assert(req@[i as int] != '\n');
                    }
                }
            }
            let h = req.substring_char(0, i);
            assert(h@ =~= req@.take(i as int));
            h
        },
        None => {
            assert(crate::text::first_index(req@, '\n') is None);
            req
        },
    }
}

// ---------------------------------------------------------------------------
// Verbs

/// What a request's first word asks for.
#[derive(Copy, Clone, Debug, PartialEq, Eq, Structural)]
pub enum Verb {
    Attach,
    Ping,
    Pacing,
    Buffer,
    Ack,
    Play,
    Pause,
    Step,
    TreeDepth,
    Resend,
    Reset,
    Bye,
    /// Anything else is the executive's own vocabulary.
    Executive,
}

pub open spec fn verb_spec(cmd: Seq<char>) -> Verb {
    if cmd == "attach"@ {
        Verb::Attach
    } else if cmd == "ping"@ {
        Verb::Ping
    } else if cmd == "pacing"@ {
        Verb::Pacing
    } else if cmd == "buffer"@ {
        Verb::Buffer
    } else if cmd == "ack"@ {
        Verb::Ack
    } else if cmd == "play"@ {
        Verb::Play
    } else if cmd == "pause"@ {
        Verb::Pause
    } else if cmd == "step"@ {
        Verb::Step
    } else if cmd == "treedepth"@ {
        Verb::TreeDepth
    } else if cmd == "resend"@ {
        Verb::Resend
    } else if cmd == "reset"@ {
        Verb::Reset
    } else if cmd == "bye"@ {
        Verb::Bye
    } else {
        Verb::Executive
    }
}

pub fn verb(cmd: &str) -> (v: Verb)
    ensures
        v == verb_spec(cmd@),
{
    if str_eq(cmd, "attach") {
        Verb::Attach
    } else if str_eq(cmd, "ping") {
        Verb::Ping
    } else if str_eq(cmd, "pacing") {
        Verb::Pacing
    } else if str_eq(cmd, "buffer") {
        Verb::Buffer
    } else if str_eq(cmd, "ack") {
        Verb::Ack
    } else if str_eq(cmd, "play") {
        Verb::Play
    } else if str_eq(cmd, "pause") {
        Verb::Pause
    } else if str_eq(cmd, "step") {
        Verb::Step
    } else if str_eq(cmd, "treedepth") {
        Verb::TreeDepth
    } else if str_eq(cmd, "resend") {
        Verb::Resend
    } else if str_eq(cmd, "reset") {
        Verb::Reset
    } else if str_eq(cmd, "bye") {
        Verb::Bye
    } else {
        Verb::Executive
    }
}

/// A request, read: its verb and the words after it on its first line.
pub struct Request {
    pub verb: Verb,
    pub cmd: String,
    pub args: Vec<String>,
}

/// Read the first line of a request into its command word and arguments.
pub fn parse_request(req: &str) -> (r: Request)
    ensures
        ({
            let w = words(head_spec(req@));
            &&& r.cmd@ == (if w.len() > 0 {
                w[0]
            } else {
                Seq::<char>::empty()
            })
            &&& r.verb == verb_spec(r.cmd@)
            &&& r.args@.len() == (if w.len() > 0 {
                w.len() - 1
            } else {
                0
            })
            &&& forall|i: int| 0 <= i < r.args@.len() ==> #[trigger] r.args@[i]@ == w[i + 1]
        }),
{
    let head = request_head(req);
    let mut ws = crate::text::split_words(head);
    let ghost w = words(head_spec(req@));
    if ws.len() == 0 {
        let cmd = String::new();
        let v = verb(cmd.as_str());
        return Request { verb: v, cmd, args: ws };
    }
    let cmd = ws.remove(0);
    let v = verb(cmd.as_str());
    proof {
        assert forall|i: int| 0 <= i < ws@.len() implies #[trigger] ws@[i]@ == w[i + 1] by {}
    }
    Request { verb: v, cmd, args: ws }
}

// ---------------------------------------------------------------------------
// The panel's verbs

/// The pacing state the panel shows after any of its verbs.
pub open spec fn pacing_state_text(c: Control) -> Seq<char> {
    seq!['{'] + field_str_text("pacing"@, pacing_name(c.pacing)) + seq![','] + field_bool_text(
        "running"@,
        c.running,
    ) + seq![','] + field_num_text("round"@, c.round as nat) + seq![','] + field_num_text(
        "inFlight"@,
        c.in_flight as nat,
    ) + seq![','] + field_num_text("buffer"@, c.bound_spec()) + seq![','] + field_bool_text(
        "admissionOpen"@,
        c.admits(),
    ) + seq![','] + field_num_text("quoteDepth"@, c.quote_depth as nat) + seq!['}']
}

pub fn pacing_state(c: &Control) -> (r: String)
    ensures
        r@ == pacing_state_text(*c),
{
    let mut b = Buf::new();
    b.raw("{");
    b.field_str("pacing", c.pacing.name());
    b.comma();
    b.field_bool("running", c.running);
    b.comma();
    b.field_num("round", c.round);
    b.comma();
    b.field_num("inFlight", c.in_flight);
    b.comma();
    b.field_num("buffer", c.bound());
    b.comma();
    b.field_bool("admissionOpen", c.admission_open());
    b.comma();
    b.field_num("quoteDepth", c.quote_depth as u64);
    b.raw("}");
    proof {
        reveal_strlit("{");
        reveal_strlit("}");
    }
    let r = b.into_string();
    assert(r@ =~= pacing_state_text(*c));
    r
}

/// The verbs that act on the panel's control state alone.
pub open spec fn is_panel(v: Verb) -> bool {
    match v {
        Verb::Pacing | Verb::Buffer | Verb::Ack | Verb::Play | Verb::Pause | Verb::Step
        | Verb::TreeDepth => true,
        _ => false,
    }
}

/// `pacing lockstep` or `pacing free` (or `free-running`).
pub open spec fn pacing_arg(arg: Option<Seq<char>>) -> Option<Pacing> {
    match arg {
        Some(a) => if a == "free"@ || a == "free-running"@ {
            Some(Pacing::FreeRunning)
        } else if a == "lockstep"@ {
            Some(Pacing::Lockstep)
        } else {
            None
        },
        None => None,
    }
}

/// A number argument as `parse` reads it, or nothing.
pub open spec fn num_arg(arg: Option<Seq<char>>, max: nat) -> Option<nat> {
    match arg {
        Some(a) => parse_uint(a, max),
        None => None,
    }
}

/// The buffer bound a `buffer` request sets: 1 to 1024 rounds.
pub open spec fn buffer_arg(arg: Option<Seq<char>>) -> Option<nat> {
    match num_arg(arg, u64::MAX as nat) {
        Some(n) => if 1 <= n && n <= 1024 {
            Some(n)
        } else {
            None
        },
        None => None,
    }
}

/// The quotation depth a `treedepth` request sets: its number, from 0 to
/// 16, or four when it names no number. A number past 16 is refused.
pub open spec fn depth_arg(arg: Option<Seq<char>>) -> Option<nat> {
    match num_arg(arg, u64::MAX as nat) {
        Some(d) => if d <= 16 {
            Some(d)
        } else {
            None
        },
        None => Some(4),
    }
}

/// The control state a panel verb leaves.
pub open spec fn panel_state(c: Control, v: Verb, arg: Option<Seq<char>>) -> Control {
    match v {
        Verb::Pacing => match pacing_arg(arg) {
            Some(p) => Control { pacing: p, ..c },
            None => c,
        },
        Verb::Buffer => match buffer_arg(arg) {
            Some(n) => Control { buffer: n as u64, ..c },
            None => c,
        },
        Verb::Ack => c.acked(
            match num_arg(arg, u64::MAX as nat) {
                Some(n) => n as u64,
                None => 0,
            },
        ),
        Verb::Play => Control { running: true, ..c },
        Verb::Pause => c.paused(),
        Verb::Step => c.stepped(),
        Verb::TreeDepth => match depth_arg(arg) {
            Some(d) => Control { quote_depth: d as u32, ..c },
            None => c,
        },
        _ => c,
    }
}

/// The reply to a panel verb: the new pacing state, or why the argument
/// was refused (in which case nothing changed).
pub open spec fn panel_reply(c: Control, v: Verb, arg: Option<Seq<char>>) -> Seq<char> {
    if v == Verb::Pacing && pacing_arg(arg) is None {
        err_text("bad-argument"@, "pacing takes `lockstep` or `free`"@)
    } else if v == Verb::Buffer && buffer_arg(arg) is None {
        err_text("bad-argument"@, "buffer takes 1..1024 rounds"@)
    } else if v == Verb::TreeDepth && depth_arg(arg) is None {
        err_text("bad-argument"@, "treedepth takes 0..16 quotation levels"@)
    } else {
        ok_text(pacing_state_text(panel_state(c, v, arg)))
    }
}

/// Apply one of the panel's verbs to the control state, and say what it now
/// is. Single-step admits exactly one round in either mode; `ack` names the
/// highest round the scene has finished animating; `treedepth` is how many
/// quotation levels the client can still draw. Out-of-range values are
/// refused rather than clamped silently, and then nothing changes.
pub fn panel(c: &mut Control, v: Verb, arg: Option<&str>) -> (reply: String)
    requires
        is_panel(v),
    ensures
        *final(c) == panel_state(*old(c), v, match arg {
            Some(a) => Some(a@),
            None => None,
        }),
        reply@ == panel_reply(*old(c), v, match arg {
            Some(a) => Some(a@),
            None => None,
        }),
{
    let ghost a = match arg {
        Some(a) => Some(a@),
        None => None,
    };
    match v {
        Verb::Pacing => {
            let p = match arg {
                Some(x) => if str_eq(x, "free") || str_eq(x, "free-running") {
                    Some(Pacing::FreeRunning)
                } else if str_eq(x, "lockstep") {
                    Some(Pacing::Lockstep)
                } else {
                    None
                },
                None => None,
            };
            match p {
                Some(p) => {
                    // Switching from free-running to lockstep pauses
                    // admission until the buffer drains: in_flight is already
                    // the fill, and lockstep's bound of one keeps admission
                    // closed until the acks bring it to zero.
                    c.pacing = p;
                },
                None => {
                    return err("bad-argument", "pacing takes `lockstep` or `free`");
                },
            }
        },
        Verb::Buffer => {
            let n = match arg {
                Some(x) => parse_u64(x),
                None => None,
            };
            match n {
                Some(n) => {
                    if 1 <= n && n <= 1024 {
                        c.buffer = n;
                    } else {
                        return err("bad-argument", "buffer takes 1..1024 rounds");
                    }
                },
                None => {
                    return err("bad-argument", "buffer takes 1..1024 rounds");
                },
            }
        },
        Verb::Ack => {
            let upto = match arg {
                Some(x) => match parse_u64(x) {
                    Some(n) => n,
                    None => 0,
                },
                None => 0,
            };
            c.ack(upto);
        },
        Verb::Play => {
            c.play();
        },
        Verb::Pause => {
            c.pause();
        },
        Verb::Step => {
            c.step();
        },
        _ => {
            let d = match arg {
                Some(x) => match parse_u64(x) {
                    Some(n) => n,
                    None => 4,
                },
                None => 4,
            };
            if d <= 16 {
                c.quote_depth = d as u32;
            } else {
                return err("bad-argument", "treedepth takes 0..16 quotation levels");
            }
        },
    }
    ok(pacing_state(c).as_str())
}

// ---------------------------------------------------------------------------
// The other harness verbs

/// The fixed replies of the verbs that carry no argument and touch no
/// control state: `ping`, `resend`, `reset` and `bye`.
pub open spec fn fixed_reply_text(v: Verb) -> Seq<char> {
    match v {
        Verb::Ping => ok_text("{\"pong\":true}"@),
        Verb::Resend => ok_text("{\"resent\":true}"@),
        Verb::Reset => ok_text("{\"reset\":true}"@),
        _ => ok_text("{\"bye\":true}"@),
    }
}

pub fn fixed_reply(v: Verb) -> (r: String)
    requires
        v == Verb::Ping || v == Verb::Resend || v == Verb::Reset || v == Verb::Bye,
    ensures
        r@ == fixed_reply_text(v),
{
    match v {
        Verb::Ping => ok("{\"pong\":true}"),
        Verb::Resend => ok("{\"resent\":true}"),
        Verb::Reset => ok("{\"reset\":true}"),
        _ => ok("{\"bye\":true}"),
    }
}

/// Only `bye` closes the connection.
pub fn after(v: Verb) -> (a: After)
    ensures
        a == (if v == Verb::Bye {
            After::Close
        } else {
            After::Continue
        }),
{
    if v == Verb::Bye {
        After::Close
    } else {
        After::Continue
    }
}

/// `attach` is the only request that may arrive before a session is bound.
pub fn needs_session(v: Verb) -> (b: bool)
    ensures
        b == (v != Verb::Attach),
{
    v != Verb::Attach
}

/// Where a request goes.
#[derive(Copy, Clone, Debug, PartialEq, Eq, Structural)]
pub enum Route {
    /// Bind the connection to a session.
    Attach,
    /// Refused: the connection has no session yet.
    NoSession,
    /// Answered at once.
    Ping,
    /// One of the panel's verbs, applied to the control state.
    Panel,
    /// Push the scene and the readouts again.
    Resend,
    /// Throw the world away and keep the session.
    Reset,
    /// Destroy the session and close.
    Bye,
    /// The executive's own vocabulary, passed on verbatim.
    Executive,
}

pub open spec fn route_spec(v: Verb, bound: bool) -> Route {
    if v == Verb::Attach {
        Route::Attach
    } else if !bound {
        Route::NoSession
    } else if is_panel(v) {
        Route::Panel
    } else {
        match v {
            Verb::Ping => Route::Ping,
            Verb::Resend => Route::Resend,
            Verb::Reset => Route::Reset,
            Verb::Bye => Route::Bye,
            _ => Route::Executive,
        }
    }
}

/// Route a request by its verb, and by whether the connection is bound to
/// a session: `attach` may come first, anything else needs a session.
pub fn route(v: Verb, bound: bool) -> (r: Route)
    ensures
        r == route_spec(v, bound),
{
    if !needs_session(v) {
        Route::Attach
    } else if !bound {
        Route::NoSession
    } else {
        match v {
            Verb::Pacing | Verb::Buffer | Verb::Ack | Verb::Play | Verb::Pause | Verb::Step
            | Verb::TreeDepth => Route::Panel,
            Verb::Ping => Route::Ping,
            Verb::Resend => Route::Resend,
            Verb::Reset => Route::Reset,
            Verb::Bye => Route::Bye,
            _ => Route::Executive,
        }
    }
}

/// Routing, verb by verb: `attach` always goes to attach; without a session
/// everything else is refused; with one, the seven panel verbs go to the
/// panel, `ping`, `resend`, `reset` and `bye` to their own handling, and
/// only a verb the harness does not know goes to the executive.
pub proof fn lemma_routes(v: Verb, bound: bool)
    ensures
        v == Verb::Attach ==> route_spec(v, bound) == Route::Attach,
        v != Verb::Attach && !bound ==> route_spec(v, bound) == Route::NoSession,
        bound && (v == Verb::Pacing || v == Verb::Buffer || v == Verb::Ack || v == Verb::Play || v
            == Verb::Pause || v == Verb::Step || v == Verb::TreeDepth) ==> route_spec(v, bound)
            == Route::Panel,
        bound && v == Verb::Ping ==> route_spec(v, bound) == Route::Ping,
        bound && v == Verb::Resend ==> route_spec(v, bound) == Route::Resend,
        bound && v == Verb::Reset ==> route_spec(v, bound) == Route::Reset,
        bound && v == Verb::Bye ==> route_spec(v, bound) == Route::Bye,
        bound ==> (route_spec(v, bound) == Route::Executive <==> v == Verb::Executive),
{
}

/// How an `attach` stands to the session a connection is bound to.
#[derive(Copy, Clone, Debug, PartialEq, Eq, Structural)]
pub enum AttachCase {
    /// It names the session the connection is bound to.
    Same,
    /// It names another: one connection serves one session.
    Other,
    /// The connection is not bound yet.
    Unbound,
}

pub fn attach_case(bound_to: Option<&str>, id: &str) -> (c: AttachCase)
    ensures
        c == (match bound_to {
            Some(b) => if b@ == id@ {
                AttachCase::Same
            } else {
                AttachCase::Other
            },
            None => AttachCase::Unbound,
        }),
{
    match bound_to {
        Some(b) => if str_eq(b, id) {
            AttachCase::Same
        } else {
            AttachCase::Other
        },
        None => AttachCase::Unbound,
    }
}

/// The refusal of anything but `attach` before a session is bound.
pub fn no_session_reply() -> (r: String)
    ensures
        r@ == err_text("no-session"@, "attach to a session before anything else"@),
{
    err("no-session", "attach to a session before anything else")
}

/// Two of the executive's own commands change what is drawn, so the scene
/// follows a successful `deploy`, `tick` or `run` without the client having
/// to ask.
pub open spec fn scene_follows_spec(cmd: Seq<char>, reply: Seq<char>) -> bool {
    (cmd == "deploy"@ || cmd == "tick"@ || cmd == "run"@) && reply.len() >= "{\"ok\":true"@.len()
        && reply.take("{\"ok\":true"@.len() as int) == "{\"ok\":true"@
}

pub fn scene_follows(cmd: &str, reply: &str) -> (b: bool)
    ensures
        b == scene_follows_spec(cmd@, reply@),
{
    if !(str_eq(cmd, "deploy") || str_eq(cmd, "tick") || str_eq(cmd, "run")) {
        return false;
    }
    let p = "{\"ok\":true";
    let n = p.unicode_len();
    if reply.unicode_len() < n {
        return false;
    }
    let head = reply.substring_char(0, n);
    str_eq(head, p)
}

/// A `cores` command changes the readouts, so the stats follow it.
pub fn stats_follows(cmd: &str) -> (b: bool)
    ensures
        b == (cmd@ == "cores"@),
{
    str_eq(cmd, "cores")
}

// ---------------------------------------------------------------------------
// Sessions by name

/// A character a session id may use: letters, digits, `-`, `_` and `.`.
pub open spec fn id_char(c: char) -> bool {
    ('a' <= c && c <= 'z') || ('A' <= c && c <= 'Z') || ('0' <= c && c <= '9') || c == '-' || c
        == '_' || c == '.'
}

pub open spec fn id_chars(s: Seq<char>) -> bool {
    forall|i: int| 0 <= i < s.len() ==> id_char(#[trigger] s[i])
}

/// The length of a text in bytes, as `str::len` counts it.
pub open spec fn byte_len(s: Seq<char>) -> nat {
    vstd::utf8::encode_utf8(s).len()
}

pub fn is_id_char(c: char) -> (b: bool)
    ensures
        b == id_char(c),
{
    ('a' <= c && c <= 'z') || ('A' <= c && c <= 'Z') || ('0' <= c && c <= '9') || c == '-' || c
        == '_' || c == '.'
}

/// Whether every character of `s` may stand in a session id.
pub fn all_id_chars(s: &str) -> (b: bool)
    ensures
        b == id_chars(s@),
{
    for c in it: s.chars()
        invariant
            it.seq() == s@,
            0 <= it.index() <= s@.len(),
            forall|j: int| 0 <= j < it.index() ==> id_char(#[trigger] s@[j]),
    {
        proof {
            assert(s@[it.index() as int] == c);
        }
        if !is_id_char(c) {
            return false;
        }
    }
    true
}

/// Why the argument of `attach` is refused, if it is: an id is 1 to 128
/// bytes of letters, digits, `-`, `_` and `.`.
pub open spec fn attach_arg_error(id: Option<Seq<char>>) -> Option<Seq<char>> {
    match id {
        Some(s) if s.len() > 0 && byte_len(s) <= 128 => if id_chars(s) {
            None
        } else {
            Some(err_text("bad-argument"@, "a session id may use letters, digits, '-', '_' and '.'"@))
        },
        _ => Some(err_text("bad-argument"@, "attach takes a session id of 1..128 characters"@)),
    }
}

pub fn check_attach_arg(id: Option<&str>) -> (r: Option<String>)
    ensures
        match r {
            Some(e) => attach_arg_error(match id {
                Some(s) => Some(s@),
                None => None,
            }) == Some(e@),
            None => attach_arg_error(match id {
                Some(s) => Some(s@),
                None => None,
            }) is None,
        },
{
    match id {
        Some(s) => {
            if s.is_empty() || s.as_bytes().len() > 128 {
                return Some(err("bad-argument", "attach takes a session id of 1..128 characters"));
            }
            if !all_id_chars(s) {
                return Some(
                    err("bad-argument", "a session id may use letters, digits, '-', '_' and '.'"),
                );
            }
            None
        },
        None => Some(err("bad-argument", "attach takes a session id of 1..128 characters")),
    }
}

/// The reply to `attach` naming the session this connection is already
/// bound to.
pub open spec fn attached_text(
    id: Seq<char>,
    cores_max: u32,
    round: u64,
    pacing: Pacing,
    closing: bool,
) -> Seq<char> {
    ok_text(
        seq!['{'] + field_str_text("session"@, id) + seq![','] + field_num_text(
            "coresMax"@,
            cores_max as nat,
        ) + seq![','] + field_num_text("round"@, round as nat) + seq![','] + field_str_text(
            "pacing"@,
            pacing_name(pacing),
        ) + seq![','] + field_bool_text("closing"@, closing) + seq!['}'],
    )
}

pub fn attached_reply(id: &str, cores_max: u32, round: u64, pacing: Pacing, closing: bool) -> (r:
    String)
    ensures
        r@ == attached_text(id@, cores_max, round, pacing, closing),
{
    let mut b = Buf::new();
    b.raw("{");
    b.field_str("session", id);
    b.comma();
    b.field_num("coresMax", cores_max as u64);
    b.comma();
    b.field_num("round", round);
    b.comma();
    b.field_str("pacing", pacing.name());
    b.comma();
    b.field_bool("closing", closing);
    b.raw("}");
    proof {
        reveal_strlit("{");
        reveal_strlit("}");
    }
    let body = b.into_string();
    assert(body@ =~= seq!['{'] + field_str_text("session"@, id@) + seq![','] + field_num_text(
        "coresMax"@,
        cores_max as nat,
    ) + seq![','] + field_num_text("round"@, round as nat) + seq![','] + field_str_text(
        "pacing"@,
        pacing_name(pacing),
    ) + seq![','] + field_bool_text("closing"@, closing) + seq!['}']);
    ok(body.as_str())
}

/// The reply to `attach` on a connection not yet bound: the session is made
/// or found, and the connection is bound to it.
pub fn newly_attached_reply() -> (r: String)
    ensures
        r@ == ok_text("{\"attached\":true}"@),
{
    ok("{\"attached\":true}")
}

/// The refusal of an `attach` that names a different session from the one
/// the connection is bound to: one connection serves one session.
pub fn already_attached_reply() -> (r: String)
    ensures
        r@ == err_text(
            "already-attached"@,
            "this connection is already attached to a different session; open a new connection"@,
        ),
{
    err(
        "already-attached",
        "this connection is already attached to a different session; open a new connection",
    )
}

// ---------------------------------------------------------------------------
// Laws of the panel verbs

/// A refused argument changes nothing.
pub proof fn lemma_refused_argument_changes_nothing(c: Control, v: Verb, arg: Option<Seq<char>>)
    requires
        (v == Verb::Pacing && pacing_arg(arg) is None) || (v == Verb::Buffer && buffer_arg(arg) is None)
            || (v == Verb::TreeDepth && depth_arg(arg) is None),
    ensures
        panel_state(c, v, arg) == c,
{
}

/// `pacing` sets the mode it names, from any state: `lockstep` gives
/// lockstep, and `free` or `free-running` give free-running; anything else
/// is refused and changes nothing.
pub proof fn lemma_pacing_sets_the_mode_named(c: Control, a: Seq<char>)
    ensures
        a == "lockstep"@ ==> panel_state(c, Verb::Pacing, Some(a)).pacing == Pacing::Lockstep,
        a == "free"@ ==> panel_state(c, Verb::Pacing, Some(a)).pacing == Pacing::FreeRunning,
        a == "free-running"@ ==> panel_state(c, Verb::Pacing, Some(a)).pacing == Pacing::FreeRunning,
        !(a == "lockstep"@ || a == "free"@ || a == "free-running"@) ==> panel_state(
            c,
            Verb::Pacing,
            Some(a),
        ) == c,
        panel_state(c, Verb::Pacing, Some(a)) == (Control {
            pacing: panel_state(c, Verb::Pacing, Some(a)).pacing,
            ..c
        }),
{
    reveal_strlit("lockstep");
    reveal_strlit("free");
    reveal_strlit("free-running");
    assert("lockstep"@ != "free"@) by {
        assert("lockstep"@[0] != "free"@[0]);
    }
    assert("lockstep"@ != "free-running"@) by {
        assert("lockstep"@[0] != "free-running"@[0]);
    }
}

/// `pause` then `step` asks for exactly one round: admitted while admission
/// is open, and after it nothing more until another verb.
pub proof fn lemma_pause_then_step_admits_one(c: Control, quiescent: bool)
    ensures
        panel_state(panel_state(c, Verb::Pause, None), Verb::Step, None).advancing() == c.admits(),
        !panel_state(panel_state(c, Verb::Pause, None), Verb::Step, None).admitted(
            quiescent,
        ).advancing(),
{
}

/// The quotation depth the panel sets is never more than sixteen: a
/// `treedepth` request sets a depth of at most 16 or leaves it as it was.
pub proof fn lemma_quote_depth_at_most_sixteen(c: Control, arg: Option<Seq<char>>)
    ensures
        panel_state(c, Verb::TreeDepth, arg).quote_depth == c.quote_depth || panel_state(
            c,
            Verb::TreeDepth,
            arg,
        ).quote_depth <= 16,
{
}

/// The buffer bound the panel sets is always between 1 and 1024, or the
/// bound it had.
pub proof fn lemma_buffer_in_range(c: Control, arg: Option<Seq<char>>)
    ensures
        panel_state(c, Verb::Buffer, arg).buffer == c.buffer || (1 <= panel_state(
            c,
            Verb::Buffer,
            arg,
        ).buffer <= 1024),
{
}

/// The decimal writing of a number is all digits, does not start with `+`,
/// and is worth the number.
proof fn lemma_dec_parses(n: nat)
    ensures
        dec(n).len() > 0,
        crate::text::all_digits(dec(n)),
        crate::text::digits_value(dec(n)) == n,
        dec(n)[0] != '+',
        forall|i: int| 0 <= i < dec(n).len() ==> #[trigger] dec(n)[i] != ' ',
    decreases n,
{
    let d = dec(n);
    assert(d.last() == crate::json::digit_char(n % 10));
    assert((crate::json::digit_char(n % 10) as u32) == n % 10 + 48);
    if n >= 10 {
        lemma_dec_parses(n / 10);
        assert(d.drop_last() =~= dec(n / 10));
        assert(crate::text::digits_value(d) == crate::text::digits_value(dec(n / 10)) * 10 + n % 10);
        assert((n / 10) * 10 + n % 10 == n) by (nonlinear_arith);
        assert(crate::text::digits_value(d) == n);
        assert forall|i: int| 0 <= i < d.len() implies crate::text::is_digit(#[trigger] d[i]) by {
            if i < d.len() - 1 {
                assert(d[i] == dec(n / 10)[i]);
            }
        }
    } else {
        assert(d.drop_last() =~= Seq::<char>::empty());
        assert(crate::text::digits_value(d.drop_last()) == 0);
        assert(crate::text::digits_value(d) == n);
    }
}

/// A correlation number written as `#<n> ` comes back as `n`, and the
/// request after it is left as it was.
pub proof fn lemma_seq_prefix_round_trip(n: u64, rest: Seq<char>)
    ensures
        split_seq_spec(seq!['#'] + dec(n as nat) + seq![' '] + rest) == (Some(n), rest),
{
    let d = dec(n as nat);
    lemma_dec_parses(n as nat);
    let req = seq!['#'] + d + seq![' '] + rest;
    let r = req.drop_first();
    assert(r =~= d + seq![' '] + rest);
    let k = d.len() as int;
    assert(r[k] == ' ');
    let fi = crate::text::first_index(r, ' ');
    assert(fi == Some(k)) by {
        assert(forall|j: int| 0 <= j < k ==> r[j] == d[j]);
        let j = fi->0;
        if j < k {
            assert(r[j] == d[j]);
        }
    }
    assert(r.take(k) =~= d);
    assert(r.skip(k + 1) =~= rest);
}

} // verus!
