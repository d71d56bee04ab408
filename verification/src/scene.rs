//! The scene frame the headset draws from.
//!
//! A scene is the executive's three populations — rhobots (components
//! waiting to run: the things that move), tuples (data at rest on a
//! channel: the things that sit) and listeners (continuations at rest over
//! a group: the things that wait) — with the same identifiers the
//! executive's own scene gives them, and with one thing added to each: the
//! structural tree of [`crate::tree`]. Keeping a card's id and its tree in
//! one record is what guarantees they describe the same object.
//!
//! What the executive's machine holds is read out by the program around
//! this library into plain values; the identifiers, labels, ordering and
//! the frame itself are decided here.

use vstd::prelude::*;

use crate::json::{
    bool_text, dec, field_bool_text, field_num_text, field_raw_text, field_str_text, key_text,
    quoted, Buf,
};
use crate::tree::{tree_text, Budget, Term};

verus! {

// ---------------------------------------------------------------------------
// The populations, as plain values

/// A channel a card sits on: its label as the executive's printer writes
/// it, and the content hash (hex) the store keys it by.
pub struct Chan {
    pub label: String,
    pub fp: String,
}

/// One drawable object.
pub struct Card {
    pub id: String,
    pub label: String,
    pub term: Term,
    pub chan: Option<Chan>,
    /// For a listener on a join: the labels of every channel of the group.
    pub group: Vec<String>,
}

/// What the machine holds at one tick.
pub struct Snapshot {
    pub tick: u64,
    pub quiescent: bool,
    pub queued: u64,
    pub data: u64,
    pub waiting: u64,
    pub comms: u64,
    pub rhobots: Vec<Card>,
    pub tuples: Vec<Card>,
    pub listeners: Vec<Card>,
}

// ---------------------------------------------------------------------------
// Identifiers and labels

/// How many bytes the UTF-8 encoding of a text takes.
pub open spec fn utf8_len(s: Seq<char>) -> nat {
    vstd::utf8::encode_utf8(s).len()
}

/// Whether the first `n` bytes of `s` end on a character boundary.
pub open spec fn byte_boundary(s: Seq<char>, n: nat) -> bool {
    exists|i: int| 0 <= i <= s.len() && utf8_len(#[trigger] s.take(i)) == n
}

/// The characters the first `n` bytes of `s` encode, when they end on a
/// character boundary.
pub open spec fn byte_prefix(s: Seq<char>, n: nat) -> Seq<char> {
    s.take(choose|i: int| 0 <= i <= s.len() && utf8_len(#[trigger] s.take(i)) == n)
}

proof fn lemma_encode_concat(a: Seq<char>, b: Seq<char>)
    ensures
        vstd::utf8::encode_utf8(a + b) == vstd::utf8::encode_utf8(a) + vstd::utf8::encode_utf8(b),
    decreases a.len(),
{
    if a.len() == 0 {
        assert(a + b =~= b);
        assert(vstd::utf8::encode_utf8(a) + vstd::utf8::encode_utf8(b) =~= vstd::utf8::encode_utf8(b));
    } else {
        assert((a + b).drop_first() =~= a.drop_first() + b);
        assert((a + b)[0] == a[0]);
        lemma_encode_concat(a.drop_first(), b);
        assert(vstd::utf8::encode_utf8(a + b) =~= vstd::utf8::encode_utf8(a) + vstd::utf8::encode_utf8(b));
    }
}

/// One more character adds its own encoding, at least one byte.
proof fn lemma_utf8_len_step(s: Seq<char>, i: int)
    requires
        0 <= i < s.len(),
    ensures
        utf8_len(s.take(i + 1)) == utf8_len(s.take(i)) + vstd::utf8::encode_scalar(s[i] as u32).len(),
        vstd::utf8::encode_scalar(s[i] as u32).len() >= 1,
{
    let one = seq![s[i]];
    assert(s.take(i + 1) =~= s.take(i) + one);
    lemma_encode_concat(s.take(i), one);
    assert(one.drop_first() =~= Seq::<char>::empty());
    assert(one[0] == s[i]);
    assert(vstd::utf8::encode_utf8(Seq::<char>::empty()) =~= Seq::<u8>::empty());
    assert(vstd::utf8::encode_utf8(one) =~= vstd::utf8::encode_scalar(s[i] as u32));
}

/// Longer prefixes take more bytes.
proof fn lemma_utf8_len_grows(s: Seq<char>, i: int, j: int)
    requires
        0 <= i < j <= s.len(),
    ensures
        utf8_len(s.take(i)) < utf8_len(s.take(j)),
    decreases j - i,
{
    lemma_utf8_len_step(s, j - 1);
    if i < j - 1 {
        lemma_utf8_len_grows(s, i, j - 1);
    }
}

/// How many bytes a character takes in UTF-8.
fn utf8_width(c: char) -> (w: usize)
    ensures
        w == vstd::utf8::encode_scalar(c as u32).len(),
{
    broadcast use vstd::utf8::char_is_scalar;

    let v = c as u32;
    if v <= 0x7F {
        1
    } else if v <= 0x7FF {
        2
    } else if v <= 0xFFFF {
        3
    } else {
        4
    }
}

/// The id of a datum or a continuation at rest: its content hash, the first
/// eight bytes of its channel's, and its row on that channel. The store keys
/// a datum by its content alone, so the same tuple on two channels has one
/// hash; a card must be one drawable object, so its id carries the channel
/// and the row too.
pub open spec fn card_id_text(content: Seq<char>, chan: Seq<char>, at: u64) -> Seq<char> {
    content + seq!['@'] + byte_prefix(chan, 8) + seq!['#'] + dec(at as nat)
}

pub fn card_id(content: &str, chan: &str, at: u64) -> (id: String)
    requires
        byte_boundary(chan@, 8),
    ensures
        id@ == card_id_text(content@, chan@, at),
{
    let n = chan.unicode_len();
    let mut i: usize = 0;
    let mut bytes: usize = 0;
    proof {
        assert(chan@.take(0) =~= Seq::<char>::empty());
    }
    while i < n && bytes < 8
        invariant
            n == chan@.len(),
            i <= n,
            bytes == utf8_len(chan@.take(i as int)),
            i > 0 ==> utf8_len(chan@.take(i - 1)) < 8,
        decreases n - i,
    {
        let w = utf8_width(chan.get_char(i));
        proof {
            lemma_utf8_len_step(chan@, i as int);
        }
        bytes = bytes + w;
        i = i + 1;
    }
    proof {
        let i0 = choose|k: int| 0 <= k <= chan@.len() && utf8_len(#[trigger] chan@.take(k)) == 8;
        if (i as int) < i0 {
            lemma_utf8_len_grows(chan@, i as int, i0);
        } else if (i as int) > i0 {
            if i - 1 > i0 {
                lemma_utf8_len_grows(chan@, i0, i - 1);
            }
        }
        assert(i as int == i0);
    }
    let mut b = Buf::new();
    b.raw(content);
    b.raw("@");
    b.raw(chan.substring_char(0, i));
    b.raw("#");
    b.num(at);
    proof {
        reveal_strlit("@");
        reveal_strlit("#");
    }
    let id = b.into_string();
    assert(id@ =~= card_id_text(content@, chan@, at));
    id
}

/// Whether a group a channel belongs to is listed with that channel: a
/// join is listed once, at its first member; the channel's own group of
/// one is listed apart.
pub fn join_listed_here(first_is_this: bool, members: usize) -> (b: bool)
    ensures
        b == (first_is_this && members > 1),
{
    first_is_this && members > 1
}

/// One channel of a listener's group: its patterns' labels, the arrow of
/// the receive, and the channel's label.
pub struct GroupPart {
    pub pats: Vec<String>,
    pub arrow: String,
    pub chan: String,
}

/// Texts joined by a separator.
pub open spec fn join(items: Seq<Seq<char>>, sep: Seq<char>) -> Seq<char>
    decreases items.len(),
{
    if items.len() == 0 {
        Seq::empty()
    } else if items.len() == 1 {
        items[0]
    } else {
        join(items.drop_last(), sep) + sep + items.last()
    }
}

/// `a, b -> chan`: one channel of a `for`.
pub open spec fn part_text(p: GroupPart) -> Seq<char> {
    join(p.pats@.map_values(|s: String| s@), ", "@) + seq![' '] + p.arrow@ + seq![' '] + p.chan@
}

/// A listener's label: its group as one `for`, with the body standing where
/// the patterns bind, and a note when it persists.
pub open spec fn listener_label_text(parts: Seq<GroupPart>, body: Seq<char>, persistent: bool) -> Seq<
    char,
> {
    "for("@ + join(parts.map_values(|p: GroupPart| part_text(p)), " & "@) + "){ "@ + body + " }"@
        + if persistent {
        "  // persistent"@
    } else {
        Seq::empty()
    }
}

/// Join strings with a separator.
fn join_strings(items: &Vec<String>, sep: &str) -> (r: String)
    ensures
        r@ == join(items@.map_values(|s: String| s@), sep@),
{
    let ghost all = items@.map_values(|s: String| s@);
    let mut b = Buf::new();
    let n = items.len();
    let mut i: usize = 0;
    while i < n
        invariant
            n == items@.len(),
            i <= n,
            all == items@.map_values(|s: String| s@),
            b@ == join(all.take(i as int), sep@),
        decreases n - i,
    {
        if i > 0 {
            b.raw(sep);
        }
        b.raw(items[i].as_str());
        proof {
            let t = all.take(i + 1);
            assert(t.drop_last() =~= all.take(i as int));
            assert(t.last() == items@[i as int]@);
            if i == 0 {
                assert(all.take(0) =~= Seq::<Seq<char>>::empty());
                assert(b@ =~= t[0]);
            } else {
                assert(b@ =~= join(t.drop_last(), sep@) + sep@ + t.last());
            }
        }
        i = i + 1;
    }
    assert(all.take(n as int) =~= all);
    b.into_string()
}

fn part_string(p: &GroupPart) -> (r: String)
    ensures
        r@ == part_text(*p),
{
    let mut b = Buf::new();
    let pats = join_strings(&p.pats, ", ");
    b.raw(pats.as_str());
    b.raw(" ");
    b.raw(p.arrow.as_str());
    b.raw(" ");
    b.raw(p.chan.as_str());
    proof {
        reveal_strlit(" ");
    }
    let r = b.into_string();
    assert(r@ =~= part_text(*p));
    r
}

/// The label of a listener.
pub fn listener_label(parts: &Vec<GroupPart>, body: &str, persistent: bool) -> (r: String)
    ensures
        r@ == listener_label_text(parts@, body@, persistent),
{
    let ghost all = parts@.map_values(|p: GroupPart| part_text(p));
    let mut joined = Buf::new();
    let n = parts.len();
    let mut i: usize = 0;
    while i < n
        invariant
            n == parts@.len(),
            i <= n,
            all == parts@.map_values(|p: GroupPart| part_text(p)),
            joined@ == join(all.take(i as int), " & "@),
        decreases n - i,
    {
        if i > 0 {
            joined.raw(" & ");
        }
        let one = part_string(&parts[i]);
        joined.raw(one.as_str());
        proof {
            let t = all.take(i + 1);
            assert(t.drop_last() =~= all.take(i as int));
            assert(t.last() == part_text(parts@[i as int]));
            if i == 0 {
                assert(all.take(0) =~= Seq::<Seq<char>>::empty());
                assert(joined@ =~= t[0]);
            } else {
                assert(joined@ =~= join(t.drop_last(), " & "@) + " & "@ + t.last());
            }
        }
        i = i + 1;
    }
    assert(all.take(n as int) =~= all);
    let mut b = Buf::new();
    b.raw("for(");
    b.raw(joined.as_str());
    b.raw("){ ");
    b.raw(body);
    b.raw(" }");
    if persistent {
        b.raw("  // persistent");
    }
    let r = b.into_string();
    assert(r@ =~= listener_label_text(parts@, body@, persistent));
    r
}

// ---------------------------------------------------------------------------
// Ordering

/// The order of `str`: byte-wise, lexicographic.
pub open spec fn bytes_lt(a: Seq<u8>, b: Seq<u8>) -> bool
    decreases a.len(),
{
    if a.len() == 0 {
        b.len() > 0
    } else if b.len() == 0 {
        false
    } else if a[0] != b[0] {
        a[0] < b[0]
    } else {
        bytes_lt(a.drop_first(), b.drop_first())
    }
}

/// The key a card is ordered by: the bytes of its id.
pub open spec fn id_key(c: Card) -> Seq<u8> {
    vstd::utf8::encode_utf8(c.id@)
}

pub(crate) proof fn lemma_bytes_lt_trans(a: Seq<u8>, b: Seq<u8>, c: Seq<u8>)
    requires
        bytes_lt(a, b),
        bytes_lt(b, c),
    ensures
        bytes_lt(a, c),
    decreases a.len(),
{
    if a.len() > 0 && b.len() > 0 && c.len() > 0 && a[0] == b[0] && b[0] == c[0] {
        lemma_bytes_lt_trans(a.drop_first(), b.drop_first(), c.drop_first());
    }
}

pub(crate) proof fn lemma_bytes_lt_irrefl(a: Seq<u8>)
    ensures
        !bytes_lt(a, a),
    decreases a.len(),
{
    if a.len() > 0 {
        lemma_bytes_lt_irrefl(a.drop_first());
    }
}

/// Two different byte strings are ordered one way or the other.
pub(crate) proof fn lemma_bytes_lt_total(a: Seq<u8>, b: Seq<u8>)
    requires
        a != b,
    ensures
        bytes_lt(a, b) || bytes_lt(b, a),
    decreases a.len(),
{
    if a.len() > 0 && b.len() > 0 && a[0] == b[0] {
        if a.drop_first() == b.drop_first() {
            assert(a =~= seq![a[0]] + a.drop_first());
            assert(b =~= seq![b[0]] + b.drop_first());
        }
        lemma_bytes_lt_total(a.drop_first(), b.drop_first());
    } else if a.len() == 0 && b.len() == 0 {
        assert(a =~= b);
    }
}

/// Whether `a` sorts before `b`.
pub(crate) fn str_lt(a: &str, b: &str) -> (r: bool)
    ensures
        r == bytes_lt(vstd::utf8::encode_utf8(a@), vstd::utf8::encode_utf8(b@)),
{
    let x = a.as_bytes();
    let y = b.as_bytes();
    let n = x.len();
    let m = y.len();
    let mut i: usize = 0;
    assert(x@.skip(0) =~= x@);
    assert(y@.skip(0) =~= y@);
    while i < n && i < m
        invariant
            x@ == vstd::utf8::encode_utf8(a@),
            y@ == vstd::utf8::encode_utf8(b@),
            n == x@.len(),
            m == y@.len(),
            i <= n,
            i <= m,
            bytes_lt(x@, y@) == bytes_lt(x@.skip(i as int), y@.skip(i as int)),
        decreases n - i,
    {
        if x[i] != y[i] {
            proof {
                assert(x@.skip(i as int)[0] == x@[i as int]);
                assert(y@.skip(i as int)[0] == y@[i as int]);
            }
            return x[i] < y[i];
        }
        proof {
            assert(x@.skip(i as int).drop_first() =~= x@.skip(i + 1));
            assert(y@.skip(i as int).drop_first() =~= y@.skip(i + 1));
        }
        i = i + 1;
    }
    i < m
}

/// Whether `s` is in order of id: no card sorts before one ahead of it.
pub open spec fn sorted_by_id(s: Seq<Card>) -> bool {
    forall|i: int, j: int| 0 <= i < j < s.len() ==> !bytes_lt(id_key(s[j]), id_key(s[i]))
}

/// `p` names every index below `n` once.
pub open spec fn is_permutation(p: Seq<int>, n: nat) -> bool {
    &&& p.len() == n
    &&& forall|i: int| 0 <= i < n ==> 0 <= #[trigger] p[i] < n
    &&& forall|i: int, j: int| 0 <= i < j < n ==> #[trigger] p[i] != #[trigger] p[j]
}

/// `out` is `orig` reordered by `p`, with cards of equal id in the order
/// they had.
pub open spec fn stable_reorder(out: Seq<Card>, orig: Seq<Card>, p: Seq<int>) -> bool {
    &&& is_permutation(p, orig.len())
    &&& out.len() == orig.len()
    &&& forall|i: int| 0 <= i < out.len() ==> #[trigger] out[i] == orig[p[i]]
    &&& forall|i: int, j: int|
        0 <= i < j < out.len() && id_key(#[trigger] out[i]) == id_key(#[trigger] out[j]) ==> p[i] < p[j]
}

/// Put cards in order of id, keeping the order of cards whose ids are equal.
#[verifier::spinoff_prover]
#[verifier::rlimit(40)]
pub fn sort_cards(cards: &mut Vec<Card>)
    ensures
        sorted_by_id(final(cards)@),
        exists|p: Seq<int>| stable_reorder(final(cards)@, old(cards)@, p),
        final(cards)@.to_multiset() == old(cards)@.to_multiset(),
{
    broadcast use vstd::seq_lib::group_to_multiset_ensures, vstd::multiset::group_multiset_axioms, vstd::multiset::lemma_multiset_empty_len;

    let mut rem: Vec<Card> = Vec::new();
    std::mem::swap(&mut rem, cards);
    let ghost orig = rem@;
    let ghost n = orig.len();
    // Where each card still to place, and each card placed, stood at first.
    let ghost mut rem_at: Seq<int> = Seq::new(n, |i: int| i);
    let ghost mut out_at: Seq<int> = Seq::empty();
    let mut out: Vec<Card> = Vec::new();
    proof {
        assert(out@.to_multiset().len() == 0);
        assert(out@.to_multiset().add(rem@.to_multiset()) =~= rem@.to_multiset());
    }
    while rem.len() > 0
        invariant
            n == orig.len(),
            out@.to_multiset().add(rem@.to_multiset()) == orig.to_multiset(),
            sorted_by_id(out@),
            forall|i: int, j: int|
                0 <= i < out@.len() && 0 <= j < rem@.len() ==> !bytes_lt(
                    id_key(rem@[j]),
                    id_key(out@[i]),
                ),
            rem_at.len() == rem@.len(),
            out_at.len() == out@.len(),
            out@.len() + rem@.len() == n,
            forall|t: int| 0 <= t < rem@.len() ==> 0 <= #[trigger] rem_at[t] < n && rem@[t] == orig[rem_at[t]],
            forall|a: int| 0 <= a < out@.len() ==> 0 <= #[trigger] out_at[a] < n && out@[a] == orig[out_at[a]],
            forall|t: int, u: int| 0 <= t < u < rem@.len() ==> #[trigger] rem_at[t] < #[trigger] rem_at[u],
            forall|a: int, b: int| 0 <= a < b < out@.len() ==> #[trigger] out_at[a] != #[trigger] out_at[b],
            forall|a: int, t: int|
                0 <= a < out@.len() && 0 <= t < rem@.len() ==> #[trigger] out_at[a] != #[trigger] rem_at[t],
            forall|a: int, b: int|
                0 <= a < b < out@.len() && id_key(#[trigger] out@[a]) == id_key(#[trigger] out@[b])
                    ==> out_at[a] < out_at[b],
            forall|a: int, t: int|
                0 <= a < out@.len() && 0 <= t < rem@.len() && id_key(#[trigger] out@[a]) == id_key(
                    #[trigger] rem@[t],
                ) ==> out_at[a] < rem_at[t],
        decreases rem@.len(),
    {
        // the first card of least id
        let n_rem = rem.len();
        let mut k: usize = 0;
        let mut i: usize = 1;
        proof {
            lemma_bytes_lt_irrefl(id_key(rem@[0]));
        }
        while i < n_rem
            invariant
                n_rem == rem@.len(),
                n_rem > 0,
                k < i <= n_rem,
                forall|j: int| 0 <= j < i ==> !bytes_lt(id_key(rem@[j]), id_key(rem@[k as int])),
                forall|j: int| 0 <= j < k ==> bytes_lt(id_key(rem@[k as int]), id_key(#[trigger] rem@[j])),
            decreases n_rem - i,
        {
            if str_lt(rem[i].id.as_str(), rem[k].id.as_str()) {
                proof {
                    let ki = id_key(rem@[i as int]);
                    let kk = id_key(rem@[k as int]);
                    assert forall|j: int| 0 <= j < i + 1 implies !bytes_lt(
                        id_key(rem@[j]),
                        ki,
                    ) by {
                        lemma_bytes_lt_irrefl(id_key(rem@[j]));
                        if bytes_lt(id_key(rem@[j]), ki) {
                            lemma_bytes_lt_trans(id_key(rem@[j]), ki, kk);
                        }
                    }
                    assert forall|j: int| 0 <= j < i implies bytes_lt(ki, id_key(#[trigger] rem@[j])) by {
                        let kj = id_key(rem@[j]);
                        if j < k {
                            lemma_bytes_lt_trans(ki, kk, kj);
                        } else if j == k {
                        } else {
                            // `kj` is not below `kk`, so it is `kk` or above it.
                            if kj != kk {
                                lemma_bytes_lt_total(kj, kk);
                                lemma_bytes_lt_trans(ki, kk, kj);
                            }
                        }
                    }
                }
                k = i;
            }
            i = i + 1;
        }
        let ghost before_rem = rem@;
        let ghost before_out = out@;
        let ghost before_rem_at = rem_at;
        let ghost before_out_at = out_at;
        let c = rem.remove(k);
        proof {
            assert(rem@ == before_rem.remove(k as int));
            vstd::seq_lib::to_multiset_remove(before_rem, k as int);
            rem_at = before_rem_at.remove(k as int);
            out_at = before_out_at.push(before_rem_at[k as int]);
        }
        out.push(c);
        proof {
            assert(out@ == before_out.push(c));
            vstd::seq_lib::to_multiset_build(before_out, c);
            assert(out@.to_multiset() == before_out.to_multiset().insert(c));
            assert(before_rem.to_multiset().count(c) > 0) by {
                assert(before_rem[k as int] == c);
                assert(before_rem.contains(c));
                vstd::seq_lib::to_multiset_contains(before_rem, c);
            }
            assert(out@.to_multiset().add(rem@.to_multiset()) =~= before_out.to_multiset().add(
                before_rem.to_multiset(),
            ));
            let last = out@.len() - 1;
            assert forall|i: int, j: int| 0 <= i < j < out@.len() implies !bytes_lt(
                id_key(out@[j]),
                id_key(out@[i]),
            ) by {
                if j < last {
                    assert(out@[i] == before_out[i] && out@[j] == before_out[j]);
                } else {
                    assert(out@[i] == before_out[i]);
                    assert(out@[j] == before_rem[k as int]);
                }
            }
            assert forall|i: int, j: int|
                0 <= i < out@.len() && 0 <= j < rem@.len() implies !bytes_lt(
                id_key(rem@[j]),
                id_key(out@[i]),
            ) by {
                let jj = if j < k {
                    j
                } else {
                    j + 1
                };
                assert(rem@[j] == before_rem[jj]);
                if i < last {
                    assert(out@[i] == before_out[i]);
                } else {
                    assert(out@[i] == before_rem[k as int]);
                }
            }
            assert forall|t: int| 0 <= t < rem@.len() implies 0 <= #[trigger] rem_at[t] < n && rem@[t]
                == orig[rem_at[t]] by {
                let tt = if t < k {
                    t
                } else {
                    t + 1
                };
                assert(rem_at[t] == before_rem_at[tt]);
                assert(rem@[t] == before_rem[tt]);
            }
            assert forall|a: int| 0 <= a < out@.len() implies 0 <= #[trigger] out_at[a] < n && out@[a]
                == orig[out_at[a]] by {
                if a < last {
                    assert(out_at[a] == before_out_at[a]);
                    assert(out@[a] == before_out[a]);
                }
            }
            assert forall|t: int, u: int| 0 <= t < u < rem@.len() implies #[trigger] rem_at[t]
                < #[trigger] rem_at[u] by {
                let tt = if t < k {
                    t
                } else {
                    t + 1
                };
                let uu = if u < k {
                    u
                } else {
                    u + 1
                };
                assert(rem_at[t] == before_rem_at[tt]);
                assert(rem_at[u] == before_rem_at[uu]);
            }
            assert forall|a: int, b: int| 0 <= a < b < out@.len() implies #[trigger] out_at[a]
                != #[trigger] out_at[b] by {
                if b < last {
                    assert(out_at[a] == before_out_at[a] && out_at[b] == before_out_at[b]);
                } else {
                    assert(out_at[a] == before_out_at[a]);
                    assert(out_at[b] == before_rem_at[k as int]);
                }
            }
            assert forall|a: int, t: int| 0 <= a < out@.len() && 0 <= t < rem@.len() implies #[trigger] out_at[a]
                != #[trigger] rem_at[t] by {
                let tt = if t < k {
                    t
                } else {
                    t + 1
                };
                assert(rem_at[t] == before_rem_at[tt]);
                if a < last {
                    assert(out_at[a] == before_out_at[a]);
                } else {
                    assert(out_at[a] == before_rem_at[k as int]);
                }
            }
            assert forall|a: int, b: int|
                0 <= a < b < out@.len() && id_key(#[trigger] out@[a]) == id_key(#[trigger] out@[b]) implies out_at[a]
                < out_at[b] by {
                assert(out@[a] == before_out[a]);
                assert(out_at[a] == before_out_at[a]);
                if b < last {
                    assert(out@[b] == before_out[b]);
                    assert(out_at[b] == before_out_at[b]);
                } else {
                    assert(out@[b] == before_rem[k as int]);
                    assert(out_at[b] == before_rem_at[k as int]);
                }
            }
            assert forall|a: int, t: int|
                0 <= a < out@.len() && 0 <= t < rem@.len() && id_key(#[trigger] out@[a]) == id_key(
                    #[trigger] rem@[t],
                ) implies out_at[a] < rem_at[t] by {
                let tt = if t < k {
                    t
                } else {
                    t + 1
                };
                assert(rem_at[t] == before_rem_at[tt]);
                assert(rem@[t] == before_rem[tt]);
                if a < last {
                    assert(out@[a] == before_out[a]);
                    assert(out_at[a] == before_out_at[a]);
                } else {
                    assert(out@[a] == before_rem[k as int]);
                    assert(out_at[a] == before_rem_at[k as int]);
                    if tt < k {
                        assert(bytes_lt(id_key(before_rem[k as int]), id_key(before_rem[tt])));
                        lemma_bytes_lt_irrefl(id_key(before_rem[tt]));
                    }
                }
            }
        }
    }
    proof {
        assert(rem@.to_multiset().len() == 0);
        assert(out@.to_multiset().add(vstd::multiset::Multiset::<Card>::empty()) =~= out@.to_multiset());
        assert(stable_reorder(out@, orig, out_at));
    }
    *cards = out;
}


// ---------------------------------------------------------------------------
// The frame

/// Quoted strings joined by commas.
pub open spec fn strs_text(items: Seq<String>) -> Seq<char>
    decreases items.len(),
{
    if items.len() == 0 {
        Seq::empty()
    } else if items.len() == 1 {
        quoted(items[0]@)
    } else {
        strs_text(items.drop_last()) + seq![','] + quoted(items.last()@)
    }
}

/// A card's opening: what it is, its label and its metrics.
pub open spec fn card_head_text(c: Card, kind: Seq<char>) -> Seq<char> {
    seq!['{'] + field_str_text("id"@, c.id@) + seq![','] + field_str_text("kind"@, kind) + seq![',']
        + field_str_text("label"@, c.label@) + seq![','] + field_num_text(
        "size"@,
        c.term.size as nat,
    ) + seq![','] + field_num_text("depth"@, c.term.depth as nat) + seq![',']
}

/// The channel a card sits on, or `null` for both fields.
pub open spec fn chan_text(chan: Option<Chan>) -> Seq<char> {
    match chan {
        Some(ch) => field_str_text("chan"@, ch.label@) + seq![','] + field_str_text(
            "chanFp"@,
            ch.fp@,
        ),
        None => field_raw_text("chan"@, "null"@) + seq![','] + field_raw_text("chanFp"@, "null"@),
    }
}

/// The group of a listener on a join; nothing for a single channel.
pub open spec fn group_text(group: Seq<String>) -> Seq<char> {
    if group.len() == 0 {
        Seq::empty()
    } else {
        seq![','] + key_text("group"@) + seq!['['] + strs_text(group) + seq![']']
    }
}

/// One card: what it is, its label and metrics, the channel it sits on,
/// the group of a join, and its tree.
pub open spec fn card_text(c: Card, kind: Seq<char>, budget: Budget) -> Seq<char> {
    card_head_text(c, kind) + chan_text(c.chan) + group_text(c.group@) + seq![','] + key_text(
        "tree"@,
    ) + tree_text(c.term, budget) + seq!['}']
}

/// Cards joined by commas.
pub open spec fn cards_text(cs: Seq<Card>, kind: Seq<char>, budget: Budget) -> Seq<char>
    decreases cs.len(),
{
    if cs.len() == 0 {
        Seq::empty()
    } else if cs.len() == 1 {
        card_text(cs[0], kind, budget)
    } else {
        cards_text(cs.drop_last(), kind, budget) + seq![','] + card_text(cs.last(), kind, budget)
    }
}

/// The machine's counters, opening the scene.
pub open spec fn counters_text(s: Snapshot) -> Seq<char> {
    seq!['{'] + field_num_text("tick"@, s.tick as nat) + seq![','] + field_bool_text(
        "quiescent"@,
        s.quiescent,
    ) + seq![','] + field_num_text("queued"@, s.queued as nat) + seq![','] + field_num_text(
        "data"@,
        s.data as nat,
    ) + seq![','] + field_num_text("waiting"@, s.waiting as nat) + seq![','] + field_num_text(
        "comms"@,
        s.comms as nat,
    )
}

/// One population: `,"<name>":[<cards>]`.
pub open spec fn population_text(name: Seq<char>, kind: Seq<char>, cs: Seq<Card>, budget: Budget) -> Seq<
    char,
> {
    seq![','] + key_text(name) + seq!['['] + cards_text(cs, kind, budget) + seq![']']
}

/// The scene: the machine's counters, then the three populations.
pub open spec fn scene_text(s: Snapshot, budget: Budget) -> Seq<char> {
    counters_text(s) + population_text("rhobots"@, "rhobot"@, s.rhobots@, budget) + population_text(
        "tuples"@,
        "tuple"@,
        s.tuples@,
        budget,
    ) + population_text("listeners"@, "listener"@, s.listeners@, budget) + seq!['}']
}

fn card_head(out: &mut Buf, kind: &str, c: &Card)
    ensures
        final(out)@ == old(out)@ + card_head_text(*c, kind@),
{
    proof {
        reveal_strlit("{");
    }
    out.raw("{");
    out.field_str("id", c.id.as_str());
    out.comma();
    out.field_str("kind", kind);
    out.comma();
    out.field_str("label", c.label.as_str());
    out.comma();
    out.field_num("size", c.term.size);
    out.comma();
    out.field_num("depth", c.term.depth);
    out.comma();
    assert(out@ =~= old(out)@ + card_head_text(*c, kind@));
}

fn card_chan(out: &mut Buf, chan: &Option<Chan>)
    ensures
        final(out)@ == old(out)@ + chan_text(*chan),
{
    match chan {
        Some(ch) => {
            out.field_str("chan", ch.label.as_str());
            out.comma();
            // The bytes the store keys this channel by. Two glyphs that
            // agree here are the witness that a communication is possible.
            out.field_str("chanFp", ch.fp.as_str());
        },
        None => {
            out.field_raw("chan", "null");
            out.comma();
            out.field_raw("chanFp", "null");
        },
    }
    assert(out@ =~= old(out)@ + chan_text(*chan));
}

fn card_group(out: &mut Buf, group: &Vec<String>)
    ensures
        final(out)@ == old(out)@ + group_text(group@),
{
    proof {
        reveal_strlit("[");
        reveal_strlit("]");
    }
    let n = group.len();
    if n == 0 {
        assert(out@ =~= old(out)@ + group_text(group@));
        return;
    }
    out.comma();
    out.key("group");
    out.raw("[");
    let ghost o3 = out@;
    let mut i: usize = 0;
    while i < n
        invariant
            n == group@.len(),
            i <= n,
            out@ == o3 + strs_text(group@.take(i as int)),
        decreases n - i,
    {
        if i > 0 {
            out.comma();
        }
        out.str(group[i].as_str());
        proof {
            let t = group@.take(i + 1);
            assert(t.drop_last() =~= group@.take(i as int));
            assert(t.last() == group@[i as int]);
            if i == 0 {
                assert(group@.take(0) =~= Seq::<String>::empty());
            }
            assert(out@ =~= o3 + strs_text(t));
        }
        i = i + 1;
    }
    assert(group@.take(n as int) =~= group@);
    out.raw("]");
    assert(out@ =~= old(out)@ + group_text(group@));
}

/// Write one card.
pub fn card(out: &mut Buf, kind: &str, c: &Card, budget: Budget)
    ensures
        final(out)@ == old(out)@ + card_text(*c, kind@, budget),
{
    proof {
        reveal_strlit("}");
    }
    card_head(out, kind, c);
    card_chan(out, &c.chan);
    card_group(out, &c.group);
    out.comma();
    out.key("tree");
    crate::tree::write(out, &c.term, budget);
    out.raw("}");
    assert(out@ =~= old(out)@ + card_text(*c, kind@, budget));
}

/// Write cards, with commas between.
#[verifier::spinoff_prover]
#[verifier::rlimit(30)]
fn cards(out: &mut Buf, kind: &str, cs: &Vec<Card>, budget: Budget)
    ensures
        final(out)@ == old(out)@ + cards_text(cs@, kind@, budget),
{
    let ghost o0 = old(out)@;
    let n = cs.len();
    let mut i: usize = 0;
    while i < n
        invariant
            n == cs@.len(),
            i <= n,
            out@ == o0 + cards_text(cs@.take(i as int), kind@, budget),
        decreases n - i,
    {
        if i > 0 {
            out.comma();
        }
        card(out, kind, &cs[i], budget);
        proof {
            let t = cs@.take(i + 1);
            assert(t.drop_last() =~= cs@.take(i as int));
            assert(t.last() == cs@[i as int]);
            if i == 0 {
                assert(cs@.take(0) =~= Seq::<Card>::empty());
            }
            assert(out@ =~= o0 + cards_text(t, kind@, budget));
        }
        i = i + 1;
    }
    assert(cs@.take(n as int) =~= cs@);
}

fn counters(out: &mut Buf, s: &Snapshot)
    ensures
        final(out)@ == old(out)@ + counters_text(*s),
{
    proof {
        reveal_strlit("{");
    }
    out.raw("{");
    out.field_num("tick", s.tick);
    out.comma();
    out.field_bool("quiescent", s.quiescent);
    out.comma();
    out.field_num("queued", s.queued);
    out.comma();
    out.field_num("data", s.data);
    out.comma();
    out.field_num("waiting", s.waiting);
    out.comma();
    out.field_num("comms", s.comms);
    assert(out@ =~= old(out)@ + counters_text(*s));
}

/// Write one population: `,"<name>":[<cards>]`.
fn population(out: &mut Buf, name: &str, kind: &str, cs: &Vec<Card>, budget: Budget)
    ensures
        final(out)@ == old(out)@ + population_text(name@, kind@, cs@, budget),
{
    proof {
        reveal_strlit("[");
        reveal_strlit("]");
    }
    out.comma();
    out.key(name);
    out.raw("[");
    cards(out, kind, cs, budget);
    out.raw("]");
    assert(out@ =~= old(out)@ + population_text(name@, kind@, cs@, budget));
}

/// Each population is written from its own field, under its own name and
/// with its own kind: after the counters come the rhobots as `rhobot` cards,
/// then the tuples as `tuple` cards, then the listeners as `listener` cards.
#[verifier::spinoff_prover]
#[verifier::rlimit(60)]
pub proof fn lemma_populations_in_their_places(s: Snapshot, budget: Budget)
    ensures
        scene_text(s, budget) == counters_text(s) + (",\"rhobots\":["@ + cards_text(
            s.rhobots@,
            "rhobot"@,
            budget,
        ) + "]"@) + (",\"tuples\":["@ + cards_text(s.tuples@, "tuple"@, budget) + "]"@) + (
        ",\"listeners\":["@ + cards_text(s.listeners@, "listener"@, budget) + "]"@) + "}"@,
{
    lemma_openings();
    lemma_population_named(",\"rhobots\":["@, "rhobots"@, "rhobot"@, s.rhobots@, budget);
    lemma_population_named(",\"tuples\":["@, "tuples"@, "tuple"@, s.tuples@, budget);
    lemma_population_named(",\"listeners\":["@, "listeners"@, "listener"@, s.listeners@, budget);
}

/// The openings of the three populations, as text.
proof fn lemma_openings()
    ensures
        ",\"rhobots\":["@ == seq![','] + key_text("rhobots"@) + seq!['['],
        ",\"tuples\":["@ == seq![','] + key_text("tuples"@) + seq!['['],
        ",\"listeners\":["@ == seq![','] + key_text("listeners"@) + seq!['['],
        "}"@ == seq!['}'],
{
    reveal_strlit(",\"rhobots\":[");
    reveal_strlit("rhobots");
    reveal_strlit(",\"tuples\":[");
    reveal_strlit("tuples");
    reveal_strlit(",\"listeners\":[");
    reveal_strlit("listeners");
    reveal_strlit("}");
    assert(",\"rhobots\":["@ =~= seq![','] + key_text("rhobots"@) + seq!['[']);
    assert(",\"tuples\":["@ =~= seq![','] + key_text("tuples"@) + seq!['[']);
    assert(",\"listeners\":["@ =~= seq![','] + key_text("listeners"@) + seq!['[']);
    assert("}"@ =~= seq!['}']);
}

proof fn lemma_population_named(
    opening: Seq<char>,
    name: Seq<char>,
    kind: Seq<char>,
    cs: Seq<Card>,
    budget: Budget,
)
    requires
        opening == seq![','] + key_text(name) + seq!['['],
    ensures
        population_text(name, kind, cs, budget) == opening + cards_text(cs, kind, budget) + "]"@,
{
    reveal_strlit("]");
    assert(population_text(name, kind, cs, budget) =~= opening + cards_text(cs, kind, budget) + "]"@);
}

/// A card opens with its own id and the kind of its population.
#[verifier::spinoff_prover]
pub proof fn lemma_card_opens_with_id_and_kind(c: Card, kind: Seq<char>, budget: Budget)
    ensures
        ({
            let pre = "{\"id\":"@ + quoted(c.id@) + ",\"kind\":"@ + quoted(kind);
            &&& card_text(c, kind, budget).len() >= pre.len()
            &&& card_text(c, kind, budget).take(pre.len() as int) == pre
        }),
{
    lemma_card_keys();
    let pre = "{\"id\":"@ + quoted(c.id@) + ",\"kind\":"@ + quoted(kind);
    let head = card_head_text(c, kind);
    let t = card_text(c, kind, budget);
    let rest_head = seq![','] + field_str_text("label"@, c.label@) + seq![','] + field_num_text(
        "size"@,
        c.term.size as nat,
    ) + seq![','] + field_num_text("depth"@, c.term.depth as nat) + seq![','];
    assert(head =~= pre + rest_head);
    let rest = rest_head + chan_text(c.chan) + group_text(c.group@) + seq![','] + key_text("tree"@)
        + tree_text(c.term, budget) + seq!['}'];
    assert(t =~= pre + rest);
    assert(t.take(pre.len() as int) =~= pre);
}

/// The keys that open a card, as text.
proof fn lemma_card_keys()
    ensures
        "{\"id\":"@ == seq!['{'] + key_text("id"@),
        ",\"kind\":"@ == seq![','] + key_text("kind"@),
{
    reveal_strlit("{\"id\":");
    reveal_strlit(",\"kind\":");
    reveal_strlit("id");
    reveal_strlit("kind");
    assert("{\"id\":"@ =~= seq!['{'] + key_text("id"@));
    assert(",\"kind\":"@ =~= seq![','] + key_text("kind"@));
}

/// Write the scene as a JSON object: the machine's counters, the rhobots in
/// queue order, then the tuples and the listeners in order of id. The
/// snapshot's tuples and listeners are put in that order first; nothing
/// else of it changes.
pub fn write(out: &mut Buf, s: &mut Snapshot, budget: Budget)
    ensures
        sorted_by_id(final(s).tuples@),
        exists|p: Seq<int>| stable_reorder(final(s).tuples@, old(s).tuples@, p),
        sorted_by_id(final(s).listeners@),
        exists|p: Seq<int>| stable_reorder(final(s).listeners@, old(s).listeners@, p),
        *final(s) == (Snapshot { tuples: final(s).tuples, listeners: final(s).listeners, ..*old(s) }),
        final(out)@ == old(out)@ + scene_text(*final(s), budget),
{
    sort_cards(&mut s.tuples);
    sort_cards(&mut s.listeners);
    write_sorted(out, s, budget);
}

/// Write a scene whose tuples and listeners are already in order of id.
#[verifier::spinoff_prover]
#[verifier::rlimit(40)]
fn write_sorted(out: &mut Buf, s: &Snapshot, budget: Budget)
    requires
        sorted_by_id(s.tuples@),
        sorted_by_id(s.listeners@),
    ensures
        final(out)@ == old(out)@ + scene_text(*s, budget),
{
    proof {
        reveal_strlit("}");
    }
    let ghost a = counters_text(*s);
    let ghost b = population_text("rhobots"@, "rhobot"@, s.rhobots@, budget);
    let ghost c = population_text("tuples"@, "tuple"@, s.tuples@, budget);
    let ghost d = population_text("listeners"@, "listener"@, s.listeners@, budget);
    let ghost o0 = out@;
    counters(out, s);
    let ghost o1 = out@;
    population(out, "rhobots", "rhobot", &s.rhobots, budget);
    let ghost o2 = out@;
    population(out, "tuples", "tuple", &s.tuples, budget);
    let ghost o3 = out@;
    population(out, "listeners", "listener", &s.listeners, budget);
    let ghost o4 = out@;
    out.raw("}");
    proof {
        assert(o1 == o0 + a);
        assert(o2 == o1 + b);
        assert(o3 == o2 + c);
        assert(o4 == o3 + d);
        assert(out@ == o4 + seq!['}']);
        assert(out@ =~= o0 + (a + b + c + d + seq!['}']));
    }
}

} // verus!
