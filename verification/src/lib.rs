//! `f1r3x-serve` — the communication harness between a rho executive and
//! the Rhobots client.
//!
//! A rho executive runs on a Mac; the Rhobots client runs on a Vision Pro;
//! this is the wire between them. It holds no parser, normaliser, store or
//! interpreter — all of that is the executive's. What is here is the
//! WebSocket codec, the line protocol, the session's control state and the
//! admission contract of the pacing rules (in process a semaphore, over a
//! socket an acknowledgment), and the structural tree and scene a renderer
//! draws from.

pub mod driver;
pub mod json;
pub mod net;
pub mod proto;
pub mod registry;
pub mod scene;
pub mod session;
pub mod text;
pub mod tree;
pub mod ws;

use vstd::prelude::*;

verus! {

/// Bumped when a client must notice a change to the harness protocol. The
/// executive's own protocol version is reported separately, by its `status`.
pub const WIRE_VERSION: u32 = 1;

/// How a server is set up.
pub struct Config {
    pub addr: String,
    /// Upper bound of the panel's cores slider: the parallelism visible to
    /// this process, which may be fewer than the machine's hardware cores.
    pub cores_max: u32,
    /// How long a detached session keeps its world.
    pub session_ttl: core::time::Duration,
    /// Log every request and frame.
    pub verbose: bool,
}

/// The session a connection's request target names: the last segment of the
/// path `/s/<id>`, or `default` when that segment is empty or is the `s`
/// itself.
pub open spec fn target_session_spec(target: Seq<char>) -> Seq<char> {
    let seg = last_segment(target);
    if seg.len() == 0 || seg == "s"@ {
        "default"@
    } else {
        seg
    }
}

/// What follows the last `/` of a text, or the whole text if it has none.
pub open spec fn last_segment(s: Seq<char>) -> Seq<char> {
    if exists|i: int| 0 <= i < s.len() && s[i] == '/' {
        let i = choose|i: int|
            0 <= i < s.len() && s[i] == '/' && forall|j: int| i < j < s.len() ==> s[j] != '/';
        s.skip(i + 1)
    } else {
        s
    }
}

/// Putting the session id in the URL rather than in a first message means
/// the socket is bound to a session before any request is read, so a resumed
/// session can be sent its scene at once and a client that only listens
/// never has to speak first.
pub fn target_session(target: &str) -> (id: String)
    ensures
        id@ == target_session_spec(target@),
{
    let n = target.unicode_len();
    let mut start: usize = 0;
    let mut i: usize = 0;
    let mut found = false;
    while i < n
        invariant
            n == target@.len(),
            i <= n,
            start <= i,
            found ==> 0 < start && target@[start - 1] == '/',
            found <==> exists|j: int| 0 <= j < i && target@[j] == '/',
            forall|j: int| start <= j < i ==> target@[j] != '/',
            !found ==> start == 0,
        decreases n - i,
    {
        if target.get_char(i) == '/' {
            start = i + 1;
            found = true;
        }
        i = i + 1;
    }
    let seg = target.substring_char(start, n);
    proof {
        if found {
            let k = choose|k: int|
                0 <= k < target@.len() && target@[k] == '/' && forall|j: int|
                    k < j < target@.len() ==> target@[j] != '/';
            assert(0 <= start - 1 < target@.len() && target@[start - 1] == '/' && forall|j: int|
                start - 1 < j < target@.len() ==> target@[j] != '/');
            assert(k == start - 1) by {
                if k < start - 1 {
                } else if k > start - 1 {
                }
            }
            assert(seg@ =~= last_segment(target@));
        } else {
            assert(seg@ =~= target@);
        }
    }
    if seg.unicode_len() == 0 || crate::text::str_eq(seg, "s") {
        String::from_str("default")
    } else {
        String::from_str(seg)
    }
}

/// Whether a session id taken from a path may name a session: letters,
/// digits, `-`, `_` and `.`, and at most 128 bytes.
pub fn acceptable_session_id(id: &str) -> (b: bool)
    ensures
        b == (crate::proto::id_chars(id@) && crate::proto::byte_len(id@) <= 128),
{
    crate::proto::all_id_chars(id) && id.as_bytes().len() <= 128
}

} // verus!
