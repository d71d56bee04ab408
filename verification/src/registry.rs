//! Sessions by name, and the one connection a session may have.
//!
//! A headset drops its socket whenever it is taken off, sleeps or roams, so
//! a session outlives its connection:
//!
//! ```text
//!   attach <id>        socket opens, session created or resumed
//!   … commands, rounds …
//!   socket closes      session detaches: the driver stops, state stays
//!   attach <id>        same session, same world, same tick count
//!   bye | TTL expires  session destroyed
//! ```
//!
//! Sessions are named by the client. An unknown id is not an error — it
//! creates the session — so a first run and a resume are the same call.
//! A session has at most one connection: a second socket that attaches
//! evicts the first, and the evicted reader's late detach changes nothing.

use vstd::prelude::*;
use crate::scene::bytes_lt;

verus! {

// ---------------------------------------------------------------------------
// The connection a session has

/// Which connection owns a session's socket, if any. Every attach is given a
/// fresh epoch; only the connection holding the current one may detach.
pub struct Link {
    /// The epoch of the latest attach.
    pub epoch: u64,
    /// The epoch of the connection that holds the socket, while attached.
    pub owner: Option<u64>,
}

impl Link {
    /// The owner, while there is one, holds the latest epoch.
    pub open spec fn wf(self) -> bool {
        match self.owner {
            Some(e) => e == self.epoch,
            None => true,
        }
    }

    /// The link after a new connection attaches.
    pub open spec fn attach_spec(self) -> Link {
        Link { epoch: (self.epoch + 1) as u64, owner: Some((self.epoch + 1) as u64) }
    }

    /// The link after the connection of `epoch` lets go: it is detached if
    /// that connection owned it, and unchanged otherwise.
    pub open spec fn detach_spec(self, epoch: u64) -> Link {
        if self.owner == Some(epoch) {
            Link { epoch: self.epoch, owner: None }
        } else {
            self
        }
    }

    /// A session starts detached: no connection has attached yet.
    pub fn new() -> (l: Link)
        ensures
            l.epoch == 0,
            l.owner is None,
            l.wf(),
    {
        Link { epoch: 0, owner: None }
    }

    pub fn attached(&self) -> (b: bool)
        ensures
            b == self.owner is Some,
    {
        self.owner.is_some()
    }

    /// Take the socket over for a new connection. Returns the connection's
    /// epoch, and whether a previous connection was evicted.
    pub fn attach(&mut self) -> (r: (u64, bool))
        requires
            old(self).epoch < u64::MAX,
        ensures
            *final(self) == old(self).attach_spec(),
            r.0 == final(self).epoch,
            r.1 == old(self).owner is Some,
            final(self).wf(),
    {
        let evicted = self.owner.is_some();
        self.epoch = self.epoch + 1;
        self.owner = Some(self.epoch);
        (self.epoch, evicted)
    }

    /// Give up the socket, if the connection of `epoch` still owns it.
    /// Returns whether it did.
    pub fn detach(&mut self, epoch: u64) -> (r: bool)
        ensures
            r == (old(self).owner == Some(epoch)),
            *final(self) == old(self).detach_spec(epoch),
    {
        let owns = match self.owner {
            Some(e) => e == epoch,
            None => false,
        };
        if owns {
            self.owner = None;
        }
        owns
    }
}

/// Whether the reader of the connection of `own_epoch` goes on reading: not
/// once a later connection has attached, which evicts it, and not once the
/// session is closing. An evicted reader must stop, or a headset no longer
/// shown the scene would go on acknowledging rounds.
pub fn keep_reading(link: &Link, own_epoch: u64, closing: bool) -> (b: bool)
    ensures
        b == (link.epoch == own_epoch && !closing),
{
    link.epoch == own_epoch && !closing
}

/// After another connection attaches, the reader of an earlier one stops.
pub proof fn lemma_evicted_reader_stops(l: Link, earlier: u64, closing: bool)
    requires
        l.epoch < u64::MAX,
        earlier <= l.epoch,
    ensures
        !(l.attach_spec().epoch == earlier && !closing),
{
}

/// A detach by a connection that no longer owns the socket changes nothing.
pub proof fn lemma_stale_detach_changes_nothing(l: Link, epoch: u64)
    requires
        l.owner != Some(epoch),
    ensures
        l.detach_spec(epoch) == l,
{
}

/// A session has at most one connection: once another connection attaches,
/// the detach of any earlier one changes nothing, and the newest one's
/// detach leaves the session detached with its epoch kept.
pub proof fn lemma_attach_evicts(l: Link, earlier: u64)
    requires
        l.wf(),
        l.epoch < u64::MAX,
        earlier <= l.epoch,
    ensures
        l.attach_spec().detach_spec(earlier) == l.attach_spec(),
        l.attach_spec().detach_spec(l.attach_spec().epoch).owner is None,
        l.attach_spec().detach_spec(l.attach_spec().epoch).epoch == l.epoch + 1,
        l.attach_spec().wf(),
{
}

/// Epochs only grow, so no two attaches share one.
pub proof fn lemma_epochs_grow(l: Link, epoch: u64)
    requires
        l.epoch < u64::MAX,
    ensures
        l.attach_spec().epoch > l.epoch,
        l.detach_spec(epoch).epoch == l.epoch,
{
}

// ---------------------------------------------------------------------------
// The order of session ids

/// Whether id `a` sorts before id `b`: by the bytes of their UTF-8, as
/// `str`'s own order does.
pub open spec fn key_lt(a: Seq<char>, b: Seq<char>) -> bool {
    bytes_lt(vstd::utf8::encode_utf8(a), vstd::utf8::encode_utf8(b))
}

/// Distinct ids are ordered one way or the other, and never both ways.
proof fn lemma_key_order(a: Seq<char>, b: Seq<char>)
    ensures
        a != b ==> key_lt(a, b) || key_lt(b, a),
        !(key_lt(a, b) && key_lt(b, a)),
        !key_lt(a, a),
{
    broadcast use vstd::utf8::encode_utf8_decode_utf8;

    let x = vstd::utf8::encode_utf8(a);
    let y = vstd::utf8::encode_utf8(b);
    if a != b {
        assert(vstd::utf8::decode_utf8(x) == a);
        assert(vstd::utf8::decode_utf8(y) == b);
        crate::scene::lemma_bytes_lt_total(x, y);
    }
    crate::scene::lemma_bytes_lt_irrefl(x);
    if bytes_lt(x, y) && bytes_lt(y, x) {
        crate::scene::lemma_bytes_lt_trans(x, y, x);
    }
}

proof fn lemma_key_trans(a: Seq<char>, b: Seq<char>, c: Seq<char>)
    requires
        key_lt(a, b),
        key_lt(b, c),
    ensures
        key_lt(a, c),
{
    crate::scene::lemma_bytes_lt_trans(
        vstd::utf8::encode_utf8(a),
        vstd::utf8::encode_utf8(b),
        vstd::utf8::encode_utf8(c),
    );
}

/// Entries in strictly ascending order of id, so no id occurs twice.
pub open spec fn ascending<S>(s: Seq<(Seq<char>, S)>) -> bool {
    forall|i: int, j: int| 0 <= i < j < s.len() ==> key_lt(#[trigger] s[i].0, #[trigger] s[j].0)
}

/// Whether a session of id `k` is among the entries.
pub open spec fn holds<S>(s: Seq<(Seq<char>, S)>, k: Seq<char>) -> bool {
    exists|i: int| 0 <= i < s.len() && #[trigger] s[i].0 == k
}

/// Whether a session detached for `idle` (none while attached) has outlived
/// a time to live of `ttl`.
pub open spec fn expired(idle: Option<u128>, ttl: u128) -> bool {
    match idle {
        Some(d) => d > ttl,
        None => false,
    }
}

/// The first `n` entries that have not expired, in order.
pub open spec fn kept<S>(s: Seq<(Seq<char>, S)>, idle: Seq<Option<u128>>, ttl: u128, n: nat) -> Seq<(Seq<char>, S)>
    decreases n,
{
    if n == 0 {
        Seq::empty()
    } else {
        let prev = kept(s, idle, ttl, (n - 1) as nat);
        if expired(idle[n - 1], ttl) {
            prev
        } else {
            prev.push(s[n - 1])
        }
    }
}

/// The ids of the first `n` entries that have expired, in order.
pub open spec fn dead<S>(s: Seq<(Seq<char>, S)>, idle: Seq<Option<u128>>, ttl: u128, n: nat) -> Seq<Seq<char>>
    decreases n,
{
    if n == 0 {
        Seq::empty()
    } else {
        let prev = dead(s, idle, ttl, (n - 1) as nat);
        if expired(idle[n - 1], ttl) {
            prev.push(s[n - 1].0)
        } else {
            prev
        }
    }
}

/// What opening `id` does: a session already there is found, and the
/// entries stay as they are; otherwise `fresh` is put in at the place its
/// id sorts to.
pub open spec fn opened<S>(before: Seq<(Seq<char>, S)>, id: Seq<char>, after: Seq<(Seq<char>, S)>, existed: bool, fresh: S) -> bool {
    &&& existed == holds(before, id)
    &&& existed ==> after == before
    &&& !existed ==> exists|p: int|
        0 <= p <= before.len() && after == before.insert(p, (id, fresh))
}

// ---------------------------------------------------------------------------
// The registry

/// Every live session, by id, in order of id.
pub struct Registry<S> {
    entries: Vec<(String, S)>,
    cores_max: u32,
    ttl_nanos: u128,
}

impl<S> View for Registry<S> {
    type V = Seq<(Seq<char>, S)>;

    closed spec fn view(&self) -> Seq<(Seq<char>, S)> {
        self.entries@.map_values(|e: (String, S)| (e.0@, e.1))
    }
}

impl<S> Registry<S> {
    /// The registry's invariant: its entries ascend by id.
    pub open spec fn wf(&self) -> bool {
        ascending(self@)
    }

    pub closed spec fn cores_max_spec(&self) -> u32 {
        self.cores_max
    }

    pub closed spec fn ttl_spec(&self) -> u128 {
        self.ttl_nanos
    }

    /// An empty registry whose sessions get `cores_max` cores and keep their
    /// world for `ttl_nanos` nanoseconds after they detach.
    pub fn new(cores_max: u32, ttl_nanos: u128) -> (r: Registry<S>)
        ensures
            r@ == Seq::<(Seq<char>, S)>::empty(),
            r.wf(),
            r.cores_max_spec() == cores_max,
            r.ttl_spec() == ttl_nanos,
    {
        let r = Registry { entries: Vec::new(), cores_max, ttl_nanos };
        assert(r@ =~= Seq::<(Seq<char>, S)>::empty());
        r
    }

    /// The width of a round that new sessions are given.
    pub fn cores_max(&self) -> (n: u32)
        ensures
            n == self.cores_max_spec(),
    {
        self.cores_max
    }

    /// How long, in nanoseconds, a detached session keeps its world.
    pub fn ttl_nanos(&self) -> (n: u128)
        ensures
            n == self.ttl_spec(),
    {
        self.ttl_nanos
    }

    pub fn len(&self) -> (n: usize)
        ensures
            n == self@.len(),
    {
        self.entries.len()
    }

    pub fn is_empty(&self) -> (b: bool)
        ensures
            b == (self@.len() == 0),
    {
        self.entries.len() == 0
    }

    /// The ids of every live session, in ascending order.
    pub fn ids(&self) -> (r: Vec<String>)
        requires
            self.wf(),
        ensures
            r@.len() == self@.len(),
            forall|i: int| 0 <= i < r@.len() ==> #[trigger] r@[i]@ == self@[i].0,
            forall|i: int, j: int| 0 <= i < j < r@.len() ==> key_lt(#[trigger] r@[i]@, #[trigger] r@[j]@),
    {
        let mut out: Vec<String> = Vec::new();
        let mut i: usize = 0;
        while i < self.entries.len()
            invariant
                i <= self.entries@.len(),
                out@.len() == i,
                forall|j: int| 0 <= j < i ==> #[trigger] out@[j]@ == self@[j].0,
            decreases self.entries@.len() - i,
        {
            out.push(self.entries[i].0.clone());
            i = i + 1;
        }
        proof {
            assert forall|a: int, b: int| 0 <= a < b < out@.len() implies key_lt(
                #[trigger] out@[a]@,
                #[trigger] out@[b]@,
            ) by {
                assert(out@[a]@ == self@[a].0);
                assert(out@[b]@ == self@[b].0);
            }
        }
        out
    }

    /// The session of id `id`, if there is one.
    pub fn get(&self, id: &str) -> (r: Option<&S>)
        requires
            self.wf(),
        ensures
            match r {
                Some(v) => exists|i: int| 0 <= i < self@.len() && #[trigger] self@[i] == (id@, *v),
                None => !holds(self@, id@),
            },
    {
        match self.find(id) {
            Some(i) => Some(&self.entries[i].1),
            None => None,
        }
    }

    /// Find the session of id `id`, or make one with `make`. Returns whether
    /// it already existed, so the client can be told it resumed rather than
    /// started.
    pub fn open<F: FnOnce() -> S>(&mut self, id: &str, make: F) -> (existed: bool)
        requires
            old(self).wf(),
            make.requires(()),
        ensures
            final(self).wf(),
            holds(final(self)@, id@),
            final(self).cores_max_spec() == old(self).cores_max_spec(),
            final(self).ttl_spec() == old(self).ttl_spec(),
            exists|fresh: S|
                opened(old(self)@, id@, final(self)@, existed, fresh) && (!existed ==> make.ensures(
                    (),
                    fresh,
                )),
    {
        let ghost before = self@;
        let n = self.entries.len();
        let mut i: usize = 0;
        while i < n
            invariant
                n == self.entries@.len(),
                self@ == before,
                ascending(before),
                i <= n,
                forall|j: int| 0 <= j < i ==> key_lt(#[trigger] before[j].0, id@),
            ensures
                i == n || (i < n && key_lt(id@, before[i as int].0)),
            decreases n - i,
        {
            let here = self.entries[i].0.as_str();
            if crate::text::str_eq(here, id) {
                proof {
                    assert(before[i as int].0 == id@);
                    assert(opened(before, id@, self@, true, before[0].1));
                }
                return true;
            }
            if crate::scene::str_lt(id, here) {
                break;
            }
            proof {
                lemma_key_order(before[i as int].0, id@);
            }
            i = i + 1;
        }
        proof {
            assert forall|j: int| 0 <= j < before.len() implies #[trigger] before[j].0 != id@ by {
                lemma_key_order(before[j].0, id@);
                if j >= i {
                    if j > i {
                        lemma_key_trans(id@, before[i as int].0, before[j].0);
                    }
                }
            }
        }
        let v = make();
        self.entries.insert(i, (String::from_str(id), v));
        proof {
            let after = self@;
            assert(after =~= before.insert(i as int, (id@, v)));
            assert(after[i as int].0 == id@);
            assert forall|a: int, b: int| 0 <= a < b < after.len() implies key_lt(
                #[trigger] after[a].0,
                #[trigger] after[b].0,
            ) by {
                if b < i {
                } else if a < i && b == i {
                } else if a < i {
                    assert(after[b] == before[b - 1]);
                    if b > i + 1 {
                        lemma_key_trans(id@, before[i as int].0, before[b - 1].0);
                    }
                    lemma_key_trans(after[a].0, id@, after[b].0);
                } else if a == i {
                    if b > i + 1 {
                        lemma_key_trans(id@, before[i as int].0, before[b - 1].0);
                    }
                } else {
                }
            }
            assert(opened(before, id@, after, false, v));
        }
        false
    }

    /// Take the session of id `id` out, if there is one.
    pub fn remove(&mut self, id: &str) -> (r: Option<S>)
        requires
            old(self).wf(),
        ensures
            final(self).wf(),
            final(self).cores_max_spec() == old(self).cores_max_spec(),
            final(self).ttl_spec() == old(self).ttl_spec(),
            !holds(final(self)@, id@),
            match r {
                Some(v) => exists|i: int|
                    0 <= i < old(self)@.len() && #[trigger] old(self)@[i] == (id@, v) && final(self)@
                        == old(self)@.remove(i),
                None => !holds(old(self)@, id@) && final(self)@ == old(self)@,
            },
    {
        let ghost before = self@;
        match self.find(id) {
            Some(i) => {
                let e = self.entries.remove(i);
                proof {
                    let after = self@;
                    assert(after =~= before.remove(i as int));
                    assert(before[i as int] == (id@, e.1));
                    assert forall|a: int, b: int| 0 <= a < b < after.len() implies key_lt(
                        #[trigger] after[a].0,
                        #[trigger] after[b].0,
                    ) by {
                        if a >= i {
                            assert(after[a] == before[a + 1]);
                        }
                        if b >= i {
                            assert(after[b] == before[b + 1]);
                        }
                    }
                    assert forall|j: int| 0 <= j < after.len() implies #[trigger] after[j].0 != id@ by {
                        if j < i {
                            assert(key_lt(before[j].0, before[i as int].0));
                        } else {
                            assert(after[j] == before[j + 1]);
                            assert(key_lt(before[i as int].0, before[j + 1].0));
                        }
                        lemma_key_order(after[j].0, id@);
                    }
                }
                Some(e.1)
            },
            None => None,
        }
    }

    /// Drop the sessions whose time detached has passed the time to live.
    /// `idle[i]` is how long the `i`-th session (in order of id) has been
    /// detached, or none while it is attached. Returns the ids dropped, in
    /// order.
    pub fn reap(&mut self, idle: &Vec<Option<u128>>) -> (r: Vec<String>)
        requires
            old(self).wf(),
            idle@.len() == old(self)@.len(),
        ensures
            final(self).wf(),
            final(self).cores_max_spec() == old(self).cores_max_spec(),
            final(self).ttl_spec() == old(self).ttl_spec(),
            final(self)@ == kept(old(self)@, idle@, old(self).ttl_spec(), old(self)@.len()),
            r@.len() == dead(old(self)@, idle@, old(self).ttl_spec(), old(self)@.len()).len(),
            forall|i: int|
                0 <= i < r@.len() ==> #[trigger] r@[i]@ == dead(
                    old(self)@,
                    idle@,
                    old(self).ttl_spec(),
                    old(self)@.len(),
                )[i],
    {
        let ghost before = self@;
        let ttl = self.ttl_nanos;
        let ghost cm = self.cores_max;
        let mut rest: Vec<(String, S)> = Vec::new();
        std::mem::swap(&mut rest, &mut self.entries);
        let n = rest.len();
        let mut out: Vec<String> = Vec::new();
        let mut i: usize = 0;
        while i < n
            invariant
                n == before.len(),
                idle@.len() == n,
                i <= n,
                ttl == self.ttl_nanos,
                cm == self.cores_max,
                ascending(before),
                rest@.len() == n - i,
                forall|j: int| 0 <= j < n - i ==> (#[trigger] rest@[j]).0@ == before[i + j].0 && rest@[j].1
                    == before[i + j].1,
                self@ == kept(before, idle@, ttl, i as nat),
                out@.len() == dead(before, idle@, ttl, i as nat).len(),
                forall|j: int| 0 <= j < out@.len() ==> #[trigger] out@[j]@ == dead(before, idle@, ttl, i as nat)[j],
                forall|j: int| 0 <= j < self@.len() ==> exists|k: int| 0 <= k < i && #[trigger] self@[j].0 == before[k].0,
                ascending(self@),
            decreases n - i,
        {
            let e = rest.remove(0);
            let ghost prev = self@;
            proof {
                assert(e.0@ == before[i as int].0);
                assert forall|j: int| 0 <= j < n - i - 1 implies (#[trigger] rest@[j]).0@ == before[i + 1 + j].0
                    && rest@[j].1 == before[i + 1 + j].1 by {
                }
            }
            let gone = match idle[i] {
                Some(d) => d > ttl,
                None => false,
            };
            if gone {
                out.push(e.0);
                proof {
                    assert(out@.last()@ == before[i as int].0);
                }
            } else {
                self.entries.push(e);
                proof {
                    assert(self@ =~= prev.push(before[i as int]));
                    assert forall|a: int, b: int| 0 <= a < b < self@.len() implies key_lt(
                        #[trigger] self@[a].0,
                        #[trigger] self@[b].0,
                    ) by {
                        if b == self@.len() - 1 {
                            let k = choose|k: int| 0 <= k < i && #[trigger] prev[a].0 == before[k].0;
                            assert(self@[a] == prev[a]);
                            assert(key_lt(before[k].0, before[i as int].0));
                        } else {
                            assert(self@[a] == prev[a]);
                            assert(self@[b] == prev[b]);
                        }
                    }
                    assert forall|j: int| 0 <= j < self@.len() implies exists|k: int|
                        0 <= k < i + 1 && #[trigger] self@[j].0 == before[k].0 by {
                        if j == self@.len() - 1 {
                            assert(self@[j].0 == before[i as int].0);
                        } else {
                            assert(self@[j] == prev[j]);
                            let k = choose|k: int| 0 <= k < i && #[trigger] prev[j].0 == before[k].0;
                            assert(self@[j].0 == before[k].0);
                        }
                    }
                }
            }
            i = i + 1;
            proof {
                assert(kept(before, idle@, ttl, i as nat) == (if expired(idle@[i - 1], ttl) {
                    kept(before, idle@, ttl, (i - 1) as nat)
                } else {
                    kept(before, idle@, ttl, (i - 1) as nat).push(before[i - 1])
                }));
            }
        }
        out
    }

    /// Where the session of id `id` stands, if there is one.
    fn find(&self, id: &str) -> (r: Option<usize>)
        ensures
            match r {
                Some(i) => i < self@.len() && self@[i as int].0 == id@,
                None => !holds(self@, id@),
            },
    {
        let mut i: usize = 0;
        while i < self.entries.len()
            invariant
                i <= self.entries@.len(),
                forall|j: int| 0 <= j < i ==> #[trigger] self@[j].0 != id@,
            decreases self.entries@.len() - i,
        {
            if crate::text::str_eq(self.entries[i].0.as_str(), id) {
                return Some(i);
            }
            i = i + 1;
        }
        None
    }
}

/// A first run and a resume are the same call: after `id` is opened its
/// session is there, and opening it again finds that same session and
/// changes nothing.
pub proof fn lemma_open_then_resume<S>(
    s0: Seq<(Seq<char>, S)>,
    id: Seq<char>,
    s1: Seq<(Seq<char>, S)>,
    e1: bool,
    f1: S,
    s2: Seq<(Seq<char>, S)>,
    e2: bool,
    f2: S,
)
    requires
        opened(s0, id, s1, e1, f1),
        opened(s1, id, s2, e2, f2),
    ensures
        holds(s1, id),
        e2,
        s2 == s1,
{
    if !e1 {
        let p = choose|p: int| 0 <= p <= s0.len() && s1 == s0.insert(p, (id, f1));
        assert(s1[p].0 == id);
    }
}

/// Reaping splits the sessions in two: every session that has not expired
/// is kept, in order, and every one that has is dropped; an attached
/// session is never dropped.
pub proof fn lemma_reap_partitions<S>(s: Seq<(Seq<char>, S)>, idle: Seq<Option<u128>>, ttl: u128, n: nat)
    requires
        n <= s.len(),
        n <= idle.len(),
    ensures
        kept(s, idle, ttl, n).len() + dead(s, idle, ttl, n).len() == n,
        forall|i: int|
            0 <= i < n && !expired(#[trigger] idle[i], ttl) ==> kept(s, idle, ttl, n).contains(s[i]),
        forall|i: int|
            0 <= i < n && expired(#[trigger] idle[i], ttl) ==> dead(s, idle, ttl, n).contains(s[i].0),
        forall|i: int| 0 <= i < n && idle[i] is None ==> kept(s, idle, ttl, n).contains(#[trigger] s[i]),
    decreases n,
{
    if n > 0 {
        lemma_reap_partitions(s, idle, ttl, (n - 1) as nat);
        let k = kept(s, idle, ttl, (n - 1) as nat);
        let d = dead(s, idle, ttl, (n - 1) as nat);
        assert forall|i: int| 0 <= i < n && !expired(#[trigger] idle[i], ttl) implies kept(
            s,
            idle,
            ttl,
            n,
        ).contains(s[i]) by {
            if i < n - 1 {
                let j = choose|j: int| 0 <= j < k.len() && k[j] == s[i];
                if !expired(idle[n - 1], ttl) {
                    assert(k.push(s[n - 1])[j] == s[i]);
                }
            } else {
                assert(k.push(s[n - 1])[k.len() as int] == s[i]);
            }
        }
        assert forall|i: int| 0 <= i < n && expired(#[trigger] idle[i], ttl) implies dead(
            s,
            idle,
            ttl,
            n,
        ).contains(s[i].0) by {
            if i < n - 1 {
                let j = choose|j: int| 0 <= j < d.len() && d[j] == s[i].0;
                if expired(idle[n - 1], ttl) {
                    assert(d.push(s[n - 1].0)[j] == s[i].0);
                }
            } else {
                assert(d.push(s[n - 1].0)[d.len() as int] == s[i].0);
            }
        }
        assert forall|i: int| 0 <= i < n && idle[i] is None implies kept(s, idle, ttl, n).contains(
            #[trigger] s[i],
        ) by {
            assert(!expired(idle[i], ttl));
        }
    }
}

/// A session outlives its connection: one detached for no longer than the
/// time to live (or still attached) is kept by a reap, and a client that
/// attaches to its id again resumes that very session, unchanged.
pub proof fn lemma_reconnect_resumes<S>(
    s: Seq<(Seq<char>, S)>,
    idle: Seq<Option<u128>>,
    ttl: u128,
    i: int,
    after: Seq<(Seq<char>, S)>,
    existed: bool,
    fresh: S,
)
    requires
        0 <= i < s.len(),
        idle.len() == s.len(),
        !expired(idle[i], ttl),
        opened(kept(s, idle, ttl, s.len()), s[i].0, after, existed, fresh),
    ensures
        kept(s, idle, ttl, s.len()).contains(s[i]),
        existed,
        after == kept(s, idle, ttl, s.len()),
{
    lemma_reap_partitions(s, idle, ttl, s.len());
    let k = kept(s, idle, ttl, s.len());
    let j = choose|j: int| 0 <= j < k.len() && k[j] == s[i];
    assert(k[j].0 == s[i].0);
    assert(holds(k, s[i].0));
}

} // verus!
