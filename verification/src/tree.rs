//! The structural form of a term, for the renderer.
//!
//! The executive's scene gives each drawable thing a label: source-shaped
//! text, right for a list and useless for a hand. Rhobots draws a robot per
//! constructor, so the client needs the shape of the term. This module
//! writes a normalised term out in the vocabulary of the rhobots, so that
//! the layout can be evaluated on the device.
//!
//! Three properties are carried deliberately.
//!
//! **Every node carries its fingerprint.** `fp` is the content hash of the
//! subterm, hex, the same bytes the store keys by, so two glyphs that agree
//! are the visual witness that a communication is possible.
//!
//! **Elision happens here, not on the device.** The client says how deep it
//! can still draw; anything past that comes back `elided`, with its
//! fingerprint intact, so an elided name stays comparable.
//!
//! **The walk does not recurse.** Recursion on term structure is forbidden
//! throughout the executive, on the grounds that a gesture interface nests
//! quotes by accident. This walks an explicit stack: each node builds its
//! output in reading order and pushes it reversed, so the text is written
//! left to right by a loop that never nests.
//!
//! The term is held here as plain values: its shape, and for every node the
//! fingerprint, size and depth the normaliser computed for it.

use vstd::prelude::*;

use crate::json::{bool_text, dec, Buf};

verus! {

// ---------------------------------------------------------------------------
// The term

/// The three kinds of receive.
#[derive(Copy, Clone, Debug, PartialEq, Eq, Structural)]
pub enum BindKind {
    Linear,
    Persistent,
    Peek,
}

/// A normalised process, with what the normaliser knows of it.
pub struct Term {
    /// The content hash, hex.
    pub fp: String,
    pub size: u64,
    pub depth: u64,
    pub node: Node,
}

pub enum Node {
    Nil,
    Par(Vec<Term>),
    Send { chan: Name, persistent: bool, args: Vec<Term> },
    Receive { binds: Vec<Bind>, body: Box<Term> },
    New { count: u64, body: Box<Term> },
    Eval(Name),
    BoundVar(u64),
    FreeVar(u64),
    Wild,
}

/// One pattern group of a receive: its kind, how many names it binds, the
/// channel it listens on and the patterns it matches.
pub struct Bind {
    pub kind: BindKind,
    pub binders: u64,
    pub chan: Name,
    pub pats: Vec<Name>,
}

/// A name, with its content hash (hex).
pub struct Name {
    pub fp: String,
    pub form: NameForm,
}

pub enum NameForm {
    Quote(Box<Term>),
    Bound(u32),
    Free(u32),
    /// The first four bytes of the unforgeable name, which are what its
    /// printed label shows.
    Unforgeable([u8; 4]),
}

// ---------------------------------------------------------------------------
// Sizes, for the termination of the walk

pub open spec fn tsize(t: Term) -> nat
    decreases t,
{
    match t.node {
        Node::Par(v) => 1 + tsizes(v@),
        Node::Send { chan, args, .. } => 1 + nsize(chan) + tsizes(args@),
        Node::Receive { binds, body } => 1 + bsizes(binds@) + tsize(*body),
        Node::New { body, .. } => 1 + tsize(*body),
        Node::Eval(n) => 1 + nsize(n),
        _ => 1,
    }
}

pub open spec fn nsize(n: Name) -> nat
    decreases n,
{
    match n.form {
        NameForm::Quote(p) => 1 + tsize(*p),
        _ => 1,
    }
}

pub open spec fn tsizes(s: Seq<Term>) -> nat
    decreases s,
{
    if s.len() == 0 {
        0
    } else {
        tsize(s[0]) + tsizes(s.drop_first())
    }
}

pub open spec fn nsizes(s: Seq<Name>) -> nat
    decreases s,
{
    if s.len() == 0 {
        0
    } else {
        nsize(s[0]) + nsizes(s.drop_first())
    }
}

pub open spec fn bsize(b: Bind) -> nat
    decreases b,
{
    nsize(b.chan) + nsizes(b.pats@)
}

pub open spec fn bsizes(s: Seq<Bind>) -> nat
    decreases s,
{
    if s.len() == 0 {
        0
    } else {
        bsize(s[0]) + bsizes(s.drop_first())
    }
}


// ---------------------------------------------------------------------------
// The walk, as the contracts see it

/// One item of work: a process or a name at a quotation depth, or text.
pub enum Piece {
    Proc(Term, u32),
    Name(Name, u32),
    Text(Seq<char>),
}

/// How much a piece has left to write, for the termination of the walk.
pub open spec fn measure(t: Piece) -> nat {
    match t {
        Piece::Proc(p, _) => tsize(p),
        Piece::Name(n, _) => nsize(n),
        Piece::Text(_) => 0,
    }
}

pub open spec fn mseq(ts: Seq<Piece>) -> nat
    decreases ts.len(),
{
    if ts.len() == 0 {
        0
    } else {
        measure(ts[0]) + mseq(ts.drop_first())
    }
}

/// Lists: items with a comma between each two and none after.
pub open spec fn commas(items: Seq<Seq<Piece>>) -> Seq<Piece>
    decreases items.len(),
{
    if items.len() == 0 {
        Seq::empty()
    } else if items.len() == 1 {
        items[0]
    } else {
        items[0] + seq![Piece::Text(seq![','])] + commas(items.drop_first())
    }
}

pub open spec fn msum(items: Seq<Seq<Piece>>) -> nat
    decreases items.len(),
{
    if items.len() == 0 {
        0
    } else {
        mseq(items[0]) + msum(items.drop_first())
    }
}

/// Processes, each a list item at depth `q`.
pub open spec fn proc_items(v: Seq<Term>, q: u32) -> Seq<Seq<Piece>> {
    Seq::new(v.len(), |i: int| seq![Piece::Proc(v[i], q)])
}

/// Names, each a list item at depth `q`.
pub open spec fn name_items(v: Seq<Name>, q: u32) -> Seq<Seq<Piece>> {
    Seq::new(v.len(), |i: int| seq![Piece::Name(v[i], q)])
}

pub open spec fn kind_name(k: BindKind) -> Seq<char> {
    match k {
        BindKind::Linear => "linear"@,
        BindKind::Persistent => "persistent"@,
        BindKind::Peek => "peek"@,
    }
}

/// The arrow a kind of receive is written with.
pub open spec fn kind_arrow(k: BindKind) -> Seq<char> {
    match k {
        BindKind::Linear => "<-"@,
        BindKind::Persistent => "<="@,
        BindKind::Peek => "<<-"@,
    }
}

/// One pattern group: its kind and arrow, its binder count, its channel and
/// its patterns.
pub open spec fn bind_pieces(b: Bind, q: u32) -> Seq<Piece> {
    seq![
        Piece::Text(
            "{\"kind\":\""@ + kind_name(b.kind) + "\",\"arrow\":\""@ + kind_arrow(b.kind)
                + "\",\"binders\":"@ + dec(b.binders as nat) + ",\"chan\":"@,
        ),
        Piece::Name(b.chan, q),
        Piece::Text(",\"pats\":["@),
    ] + commas(name_items(b.pats@, q)) + seq![Piece::Text("]}"@)]
}

pub open spec fn bind_items(v: Seq<Bind>, q: u32) -> Seq<Seq<Piece>> {
    Seq::new(v.len(), |i: int| bind_pieces(v[i], q))
}

/// The head every process node shares: what it is, its fingerprint, and
/// the metrics the client sizes it by.
pub open spec fn head_text(p: Term, form: Seq<char>) -> Seq<char> {
    "{\"f\":\""@ + form + "\",\"fp\":\""@ + p.fp@ + "\",\"size\":"@ + dec(p.size as nat)
        + ",\"depth\":"@ + dec(p.depth as nat)
}

/// A glyph slot: a small platform labelled by its binder.
pub open spec fn slot_text(fp: Seq<char>, bound: bool, index: u32) -> Seq<char> {
    "{\"g\":\"slot\",\"bound\":"@ + bool_text(bound) + ",\"index\":"@ + dec(index as nat)
        + ",\"fp\":\""@ + fp + "\",\"label\":\""@ + (if bound {
        "n"@
    } else {
        "f"@
    }) + dec(index as nat) + "\"}"@
}

/// Two lower-case hex digits.
pub open spec fn hex2(b: u8) -> Seq<char> {
    seq![crate::json::hex_char(b as nat / 16), crate::json::hex_char(b as nat % 16)]
}

/// Whether an item must be replaced by an elision glyph: the node budget is
/// spent, or it sits deeper in quotation than the client can draw.
pub open spec fn spent(left: nat, q: u32, max_q: u32) -> bool {
    left == 0 || q > max_q
}

/// What a piece writes before its parts, the parts, and the node budget
/// left after it.
pub open spec fn expand(t: Piece, left: nat, max_q: u32) -> (Seq<char>, Seq<Piece>, nat) {
    match t {
        Piece::Text(s) => (s, Seq::empty(), left),
        Piece::Proc(p, q) => if spent(left, q, max_q) {
            (head_text(p, "elided"@) + "}"@, Seq::empty(), left)
        } else {
            let l = (left - 1) as nat;
            match p.node {
                Node::Nil => (head_text(p, "nil"@) + "}"@, Seq::empty(), l),
                Node::Par(v) => (
                    head_text(p, "par"@) + ",\"parts\":["@,
                    commas(proc_items(v@, q)) + seq![Piece::Text("]}"@)],
                    l,
                ),
                Node::Send { chan, persistent, args } => (
                    head_text(p, "send"@) + ",\"persistent\":"@ + bool_text(persistent)
                        + ",\"chan\":"@,
                    seq![Piece::Name(chan, q), Piece::Text(",\"args\":["@)] + commas(
                        proc_items(args@, (q + 1) as u32),
                    ) + seq![Piece::Text("]}"@)],
                    l,
                ),
                Node::Receive { binds, body } => (
                    head_text(p, "receive"@) + ",\"binds\":["@,
                    commas(bind_items(binds@, q)) + seq![
                        Piece::Text("],\"body\":"@),
                        Piece::Proc(*body, q),
                        Piece::Text("}"@),
                    ],
                    l,
                ),
                Node::New { count, body } => (
                    head_text(p, "new"@) + ",\"count\":"@ + dec(count as nat) + ",\"body\":"@,
                    seq![Piece::Proc(*body, q), Piece::Text("}"@)],
                    l,
                ),
                Node::Eval(n) => (
                    head_text(p, "drop"@) + ",\"name\":"@,
                    seq![Piece::Name(n, q), Piece::Text("}"@)],
                    l,
                ),
                Node::BoundVar(i) => (
                    head_text(p, "var"@) + ",\"bound\":true,\"index\":"@ + dec(i as nat) + "}"@,
                    Seq::empty(),
                    l,
                ),
                Node::FreeVar(i) => (
                    head_text(p, "var"@) + ",\"bound\":false,\"index\":"@ + dec(i as nat) + "}"@,
                    Seq::empty(),
                    l,
                ),
                Node::Wild => (head_text(p, "wild"@) + "}"@, Seq::empty(), l),
            }
        },
        Piece::Name(n, q) => match n.form {
            NameForm::Quote(p) => if spent(left, q, max_q) {
                (
                    "{\"g\":\"quote\",\"elided\":true,\"fp\":\""@ + n.fp@ + "\",\"size\":"@ + dec(
                        p.size as nat,
                    ) + ",\"depth\":"@ + dec(p.depth as nat) + "}"@,
                    Seq::empty(),
                    left,
                )
            } else {
                (
                    "{\"g\":\"quote\",\"elided\":false,\"fp\":\""@ + n.fp@ + "\",\"proc\":"@,
                    seq![Piece::Proc(*p, (q + 1) as u32), Piece::Text("}"@)],
                    (left - 1) as nat,
                )
            },
            NameForm::Bound(i) => (slot_text(n.fp@, true, i), Seq::empty(), left),
            NameForm::Free(i) => (slot_text(n.fp@, false, i), Seq::empty(), left),
            NameForm::Unforgeable(b) => (
                "{\"g\":\"unforgeable\",\"fp\":\""@ + n.fp@ + "\",\"label\":\"u_"@ + hex2(b[0])
                    + hex2(b[1]) + hex2(b[2]) + hex2(b[3]) + "\"}"@,
                Seq::empty(),
                left,
            ),
        },
    }
}

proof fn lemma_mseq_concat(a: Seq<Piece>, b: Seq<Piece>)
    ensures
        mseq(a + b) == mseq(a) + mseq(b),
    decreases a.len(),
{
    if a.len() > 0 {
        assert((a + b).drop_first() =~= a.drop_first() + b);
        lemma_mseq_concat(a.drop_first(), b);
    } else {
        assert(a + b =~= b);
    }
}

proof fn lemma_commas_measure(items: Seq<Seq<Piece>>)
    ensures
        mseq(commas(items)) == msum(items),
    decreases items.len(),
{
    reveal_with_fuel(msum, 2);
    reveal_with_fuel(mseq, 2);
    if items.len() == 1 {
        assert(items.drop_first() =~= Seq::<Seq<Piece>>::empty());
    } else if items.len() > 1 {
        lemma_commas_measure(items.drop_first());
        let c = seq![Piece::Text(seq![','])];
        lemma_mseq_concat(items[0], c);
        lemma_mseq_concat(items[0] + c, commas(items.drop_first()));
        assert(mseq(c) == 0) by {
            assert(c.drop_first() =~= Seq::<Piece>::empty());
        }
    }
}

proof fn lemma_proc_items_measure(v: Seq<Term>, q: u32)
    ensures
        msum(proc_items(v, q)) == tsizes(v),
    decreases v.len(),
{
    if v.len() > 0 {
        assert(proc_items(v, q).drop_first() =~= proc_items(v.drop_first(), q));
        lemma_proc_items_measure(v.drop_first(), q);
        reveal_with_fuel(mseq, 2);
        let one = seq![Piece::Proc(v[0], q)];
        assert(one.drop_first() =~= Seq::<Piece>::empty());
        assert(mseq(one) == tsize(v[0]));
    }
}

proof fn lemma_name_items_measure(v: Seq<Name>, q: u32)
    ensures
        msum(name_items(v, q)) == nsizes(v),
    decreases v.len(),
{
    if v.len() > 0 {
        assert(name_items(v, q).drop_first() =~= name_items(v.drop_first(), q));
        lemma_name_items_measure(v.drop_first(), q);
        reveal_with_fuel(mseq, 2);
        let one = seq![Piece::Name(v[0], q)];
        assert(one.drop_first() =~= Seq::<Piece>::empty());
        assert(mseq(one) == nsize(v[0]));
    }
}

/// The parts of a pattern group weigh what the group does.
proof fn lemma_bind_measure(b: Bind, q: u32)
    ensures
        mseq(bind_pieces(b, q)) == bsize(b),
{
    let first = seq![
        Piece::Text(
            "{\"kind\":\""@ + kind_name(b.kind) + "\",\"arrow\":\""@ + kind_arrow(b.kind)
                + "\",\"binders\":"@ + dec(b.binders as nat) + ",\"chan\":"@,
        ),
        Piece::Name(b.chan, q),
        Piece::Text(",\"pats\":["@),
    ];
    let last = seq![Piece::Text("]}"@)];
    let mid = commas(name_items(b.pats@, q));
    lemma_mseq_concat(first, mid);
    lemma_mseq_concat(first + mid, last);
    lemma_commas_measure(name_items(b.pats@, q));
    lemma_name_items_measure(b.pats@, q);
    reveal_with_fuel(mseq, 4);
    assert(first.drop_first().drop_first().drop_first() =~= Seq::<Piece>::empty());
    assert(last.drop_first() =~= Seq::<Piece>::empty());
}

proof fn lemma_bind_items_measure(v: Seq<Bind>, q: u32)
    ensures
        msum(bind_items(v, q)) == bsizes(v),
    decreases v.len(),
{
    if v.len() > 0 {
        assert(bind_items(v, q).drop_first() =~= bind_items(v.drop_first(), q));
        lemma_bind_items_measure(v.drop_first(), q);
        lemma_bind_measure(v[0], q);
    }
}

/// Expanding a process or a name leaves strictly less to write.
pub proof fn lemma_expand_measure(t: Piece, left: nat, max_q: u32)
    ensures
        t !is Text ==> mseq(expand(t, left, max_q).1) < measure(t),
{
    reveal_with_fuel(mseq, 4);
    match t {
        Piece::Proc(p, q) => {
            if !spent(left, q, max_q) {
                match p.node {
                    Node::Par(v) => {
                        let last = seq![Piece::Text("]}"@)];
                        lemma_mseq_concat(commas(proc_items(v@, q)), last);
                        lemma_commas_measure(proc_items(v@, q));
                        lemma_proc_items_measure(v@, q);
                    },
                    Node::Send { chan, persistent, args } => {
                        let first = seq![Piece::Name(chan, q), Piece::Text(",\"args\":["@)];
                        let mid = commas(proc_items(args@, (q + 1) as u32));
                        let last = seq![Piece::Text("]}"@)];
                        lemma_mseq_concat(first, mid);
                        lemma_mseq_concat(first + mid, last);
                        lemma_commas_measure(proc_items(args@, (q + 1) as u32));
                        lemma_proc_items_measure(args@, (q + 1) as u32);
                    },
                    Node::Receive { binds, body } => {
                        let mid = commas(bind_items(binds@, q));
                        let last = seq![
                            Piece::Text("],\"body\":"@),
                            Piece::Proc(*body, q),
                            Piece::Text("}"@),
                        ];
                        lemma_mseq_concat(mid, last);
                        lemma_commas_measure(bind_items(binds@, q));
                        lemma_bind_items_measure(binds@, q);
                    },
                    _ => {},
                }
            }
        },
        _ => {},
    }
}

/// What a piece writes, and the node budget left after it.
pub open spec fn piece_out(t: Piece, left: nat, max_q: u32) -> (Seq<char>, nat)
    decreases measure(t), 1nat,
{
    match t {
        Piece::Text(s) => (s, left),
        _ => {
            let e = expand(t, left, max_q);
            proof {
                lemma_expand_measure(t, left, max_q);
            }
            let r = run_pieces(e.1, e.2, max_q);
            (e.0 + r.0, r.1)
        },
    }
}

/// What a sequence of pieces writes, in order, threading the node budget.
pub open spec fn run_pieces(ts: Seq<Piece>, left: nat, max_q: u32) -> (Seq<char>, nat)
    decreases mseq(ts), ts.len() + 1,
{
    if ts.len() == 0 {
        (Seq::empty(), left)
    } else {
        let a = piece_out(ts[0], left, max_q);
        let b = run_pieces(ts.drop_first(), a.1, max_q);
        (a.0 + b.0, b.1)
    }
}


/// The whole tree of a term under a budget.
pub open spec fn tree_text(t: Term, budget: Budget) -> Seq<char> {
    piece_out(Piece::Proc(t, 0), budget.nodes as nat, budget.quote_depth).0
}

// ---------------------------------------------------------------------------
// What the walk promises

/// Writing a piece spends node budget and never returns any: a term written
/// under a budget of `left` nodes writes at most `left` nodes out in full,
/// however wide it is.
pub proof fn lemma_piece_spends_budget(t: Piece, left: nat, max_q: u32)
    ensures
        piece_out(t, left, max_q).1 <= left,
    decreases measure(t), 1nat,
{
    match t {
        Piece::Text(_) => {},
        _ => {
            lemma_expand_measure(t, left, max_q);
            let e = expand(t, left, max_q);
            lemma_run_spends_budget(e.1, e.2, max_q);
        },
    }
}

/// The same, for pieces written one after another.
pub proof fn lemma_run_spends_budget(ts: Seq<Piece>, left: nat, max_q: u32)
    ensures
        run_pieces(ts, left, max_q).1 <= left,
    decreases mseq(ts), ts.len() + 1,
{
    if ts.len() > 0 {
        lemma_piece_spends_budget(ts[0], left, max_q);
        let a = piece_out(ts[0], left, max_q);
        lemma_run_spends_budget(ts.drop_first(), a.1, max_q);
    }
}

/// Every tree is a process node, and opens with its head: its form tag,
/// then its fingerprint, size and depth.
pub proof fn lemma_tree_opens_with_its_head(t: Term, budget: Budget)
    ensures
        tree_text(t, budget).take(6) == "{\"f\":\""@,
        exists|form: Seq<char>|
            tree_text(t, budget).len() >= head_text(t, form).len() && tree_text(t, budget).take(
                head_text(t, form).len() as int,
            ) == #[trigger] head_text(t, form),
{
    reveal_strlit("{\"f\":\"");
    let e = expand(Piece::Proc(t, 0), budget.nodes as nat, budget.quote_depth);
    lemma_expand_measure(Piece::Proc(t, 0), budget.nodes as nat, budget.quote_depth);
    let r = run_pieces(e.1, e.2, budget.quote_depth);
    let form = if spent(budget.nodes as nat, 0, budget.quote_depth) {
        "elided"@
    } else {
        match t.node {
            Node::Nil => "nil"@,
            Node::Par(_) => "par"@,
            Node::Send { .. } => "send"@,
            Node::Receive { .. } => "receive"@,
            Node::New { .. } => "new"@,
            Node::Eval(_) => "drop"@,
            Node::BoundVar(_) => "var"@,
            Node::FreeVar(_) => "var"@,
            Node::Wild => "wild"@,
        }
    };
    let hd = head_text(t, form);
    assert(e.0.take(hd.len() as int) =~= hd);
    assert((e.0 + r.0).take(hd.len() as int) =~= hd);
    assert(hd.take(6) =~= "{\"f\":\""@);
    assert((e.0 + r.0).take(6) =~= hd.take(6));
}

/// A send written out in full carries its own persistence: after its head
/// comes `,"persistent":true` for a persistent send (`!!`) and
/// `,"persistent":false` for an ordinary one, then its channel.
#[verifier::spinoff_prover]
pub proof fn lemma_send_carries_its_persistence(t: Term, budget: Budget)
    requires
        t.node is Send,
        budget.nodes > 0,
    ensures
        ({
            let lit = if t.node->persistent {
                ",\"persistent\":true,\"chan\":"@
            } else {
                ",\"persistent\":false,\"chan\":"@
            };
            let pre = head_text(t, "send"@) + lit;
            &&& tree_text(t, budget).len() >= pre.len()
            &&& tree_text(t, budget).take(pre.len() as int) == pre
        }),
{
    reveal_strlit(",\"persistent\":true,\"chan\":");
    reveal_strlit(",\"persistent\":false,\"chan\":");
    reveal_strlit(",\"persistent\":");
    reveal_strlit(",\"chan\":");
    let e = expand(Piece::Proc(t, 0), budget.nodes as nat, budget.quote_depth);
    lemma_expand_measure(Piece::Proc(t, 0), budget.nodes as nat, budget.quote_depth);
    let r = run_pieces(e.1, e.2, budget.quote_depth);
    let lit = if t.node->persistent {
        ",\"persistent\":true,\"chan\":"@
    } else {
        ",\"persistent\":false,\"chan\":"@
    };
    let pre = head_text(t, "send"@) + lit;
    assert(e.0 =~= pre);
    assert((e.0 + r.0).take(pre.len() as int) =~= pre);
}

/// With the node budget spent, a term comes back as a single elision glyph
/// that still carries its fingerprint, size and depth, so an elided name
/// stays comparable.
pub proof fn lemma_spent_budget_elides(t: Term, quote_depth: u32)
    ensures
        tree_text(t, Budget { quote_depth, nodes: 0 }) == head_text(t, "elided"@) + "}"@,
{
    let e = expand(Piece::Proc(t, 0), 0, quote_depth);
    assert(e.1 =~= Seq::<Piece>::empty());
    assert(run_pieces(e.1, e.2, quote_depth).0 =~= Seq::<char>::empty());
    assert(e.0 + run_pieces(e.1, e.2, quote_depth).0 =~= e.0);
}

/// A process deeper in quotation than the client can draw is elided, with
/// its fingerprint, and spends no node budget.
pub proof fn lemma_too_deep_elides(t: Term, q: u32, left: nat, max_q: u32)
    requires
        q > max_q,
    ensures
        piece_out(Piece::Proc(t, q), left, max_q) == (head_text(t, "elided"@) + "}"@, left),
{
    let e = expand(Piece::Proc(t, q), left, max_q);
    assert(e.1 =~= Seq::<Piece>::empty());
    assert(run_pieces(e.1, e.2, max_q).0 =~= Seq::<char>::empty());
    assert(e.0 + run_pieces(e.1, e.2, max_q).0 =~= e.0);
}

// ---------------------------------------------------------------------------
// Quotation depths stay within the node budget

/// The quotation depth a piece sits at; text has none.
pub open spec fn depth_of(t: Piece) -> nat {
    match t {
        Piece::Proc(_, q) => q as nat,
        Piece::Name(_, q) => q as nat,
        Piece::Text(_) => 0,
    }
}

/// Every piece sits at a quotation depth of at most `d`.
pub open spec fn all_within(ts: Seq<Piece>, d: int) -> bool {
    forall|i: int| 0 <= i < ts.len() ==> depth_of(#[trigger] ts[i]) <= d
}

proof fn lemma_within_concat(a: Seq<Piece>, b: Seq<Piece>, d: int)
    requires
        all_within(a, d),
        all_within(b, d),
    ensures
        all_within(a + b, d),
{
    assert forall|i: int| 0 <= i < (a + b).len() implies depth_of(#[trigger] (a + b)[i]) <= d by {
        if i < a.len() {
            assert((a + b)[i] == a[i]);
        } else {
            assert((a + b)[i] == b[i - a.len()]);
        }
    }
}

proof fn lemma_commas_within(items: Seq<Seq<Piece>>, d: int)
    requires
        d >= 0,
        forall|j: int| 0 <= j < items.len() ==> all_within(#[trigger] items[j], d),
    ensures
        all_within(commas(items), d),
    decreases items.len(),
{
    if items.len() == 1 {
        assert(all_within(items[0], d));
    } else if items.len() > 1 {
        let c = seq![Piece::Text(seq![','])];
        assert(all_within(items[0], d));
        assert forall|j: int| 0 <= j < items.drop_first().len() implies all_within(
            #[trigger] items.drop_first()[j],
            d,
        ) by {
            assert(items.drop_first()[j] == items[j + 1]);
        }
        lemma_commas_within(items.drop_first(), d);
        assert(all_within(c, d));
        lemma_within_concat(items[0], c, d);
        lemma_within_concat(items[0] + c, commas(items.drop_first()), d);
    }
}

proof fn lemma_proc_items_within(v: Seq<Term>, q: u32, d: int)
    requires
        q <= d,
    ensures
        all_within(commas(proc_items(v, q)), d),
{
    assert forall|j: int| 0 <= j < proc_items(v, q).len() implies all_within(
        #[trigger] proc_items(v, q)[j],
        d,
    ) by {}
    lemma_commas_within(proc_items(v, q), d);
}

proof fn lemma_name_items_within(v: Seq<Name>, q: u32, d: int)
    requires
        q <= d,
    ensures
        all_within(commas(name_items(v, q)), d),
{
    assert forall|j: int| 0 <= j < name_items(v, q).len() implies all_within(
        #[trigger] name_items(v, q)[j],
        d,
    ) by {}
    lemma_commas_within(name_items(v, q), d);
}

proof fn lemma_bind_items_within(v: Seq<Bind>, q: u32, d: int)
    requires
        q <= d,
    ensures
        all_within(commas(bind_items(v, q)), d),
{
    assert forall|j: int| 0 <= j < bind_items(v, q).len() implies all_within(
        #[trigger] bind_items(v, q)[j],
        d,
    ) by {
        let b = v[j];
        let first = seq![
            Piece::Text(
                "{\"kind\":\""@ + kind_name(b.kind) + "\",\"arrow\":\""@ + kind_arrow(b.kind)
                    + "\",\"binders\":"@ + dec(b.binders as nat) + ",\"chan\":"@,
            ),
            Piece::Name(b.chan, q),
            Piece::Text(",\"pats\":["@),
        ];
        let last = seq![Piece::Text("]}"@)];
        assert(all_within(first, d));
        assert(all_within(last, d));
        lemma_name_items_within(b.pats@, q, d);
        lemma_within_concat(first, commas(name_items(b.pats@, q)), d);
        lemma_within_concat(first + commas(name_items(b.pats@, q)), last, d);
        assert(bind_items(v, q)[j] == first + commas(name_items(b.pats@, q)) + last);
    }
    lemma_commas_within(bind_items(v, q), d);
}

/// A piece's parts sit no deeper than the node budget it leaves allows: a
/// part goes one quotation level in only where a node of budget was spent.
pub proof fn lemma_expand_within(t: Piece, left: nat, max_q: u32)
    requires
        depth_of(t) + left <= u32::MAX,
    ensures
        all_within(expand(t, left, max_q).1, u32::MAX - expand(t, left, max_q).2),
        expand(t, left, max_q).2 <= left,
{
    let e = expand(t, left, max_q);
    let d = u32::MAX - e.2;
    match t {
        Piece::Proc(p, q) => {
            if !spent(left, q, max_q) {
                match p.node {
                    Node::Par(v) => {
                        lemma_proc_items_within(v@, q, d);
                        lemma_within_concat(commas(proc_items(v@, q)), seq![Piece::Text("]}"@)], d);
                    },
                    Node::Send { chan, persistent, args } => {
                        let first = seq![Piece::Name(chan, q), Piece::Text(",\"args\":["@)];
                        lemma_proc_items_within(args@, (q + 1) as u32, d);
                        assert(all_within(first, d));
                        lemma_within_concat(first, commas(proc_items(args@, (q + 1) as u32)), d);
                        lemma_within_concat(
                            first + commas(proc_items(args@, (q + 1) as u32)),
                            seq![Piece::Text("]}"@)],
                            d,
                        );
                    },
                    Node::Receive { binds, body } => {
                        let last = seq![
                            Piece::Text("],\"body\":"@),
                            Piece::Proc(*body, q),
                            Piece::Text("}"@),
                        ];
                        lemma_bind_items_within(binds@, q, d);
                        assert(all_within(last, d));
                        lemma_within_concat(commas(bind_items(binds@, q)), last, d);
                    },
                    _ => {},
                }
            }
        },
        _ => {},
    }
}

// ---------------------------------------------------------------------------
// Facts about the walk

proof fn lemma_run_concat(a: Seq<Piece>, b: Seq<Piece>, left: nat, max_q: u32)
    ensures
        run_pieces(a + b, left, max_q) == ({
            let ra = run_pieces(a, left, max_q);
            let rb = run_pieces(b, ra.1, max_q);
            (ra.0 + rb.0, rb.1)
        }),
    decreases a.len(),
{
    if a.len() == 0 {
        assert(a + b =~= b);
        assert(run_pieces(a, left, max_q).0 =~= Seq::<char>::empty());
        assert(run_pieces(b, left, max_q).0 =~= Seq::<char>::empty() + run_pieces(b, left, max_q).0);
    } else {
        let x = piece_out(a[0], left, max_q);
        assert((a + b).drop_first() =~= a.drop_first() + b);
        assert((a + b)[0] == a[0]);
        lemma_run_concat(a.drop_first(), b, x.1, max_q);
        let ra1 = run_pieces(a.drop_first(), x.1, max_q);
        let rb = run_pieces(b, ra1.1, max_q);
        assert(run_pieces(a + b, left, max_q).0 =~= x.0 + (ra1.0 + rb.0));
        assert(run_pieces(a, left, max_q).0 + rb.0 =~= (x.0 + ra1.0) + rb.0);
    }
}

proof fn lemma_commas_snoc(items: Seq<Seq<Piece>>)
    requires
        items.len() >= 2,
    ensures
        commas(items) == commas(items.drop_last()) + seq![Piece::Text(seq![','])] + items.last(),
    decreases items.len(),
{
    let c = seq![Piece::Text(seq![','])];
    if items.len() == 2 {
        assert(items.drop_first().len() == 1);
        assert(items.drop_last().len() == 1);
        assert(commas(items.drop_last()) == items[0]);
        assert(commas(items.drop_first()) == items[1]);
    } else {
        lemma_commas_snoc(items.drop_first());
        assert(items.drop_first().drop_last() =~= items.drop_last().drop_first());
        assert(items.drop_last()[0] == items[0]);
        assert(commas(items) =~= commas(items.drop_last()) + c + items.last());
    }
}

/// The pieces of an item list built so far, one more item on.
proof fn lemma_commas_take(items: Seq<Seq<Piece>>, i: int)
    requires
        0 <= i < items.len(),
    ensures
        commas(items.take(i + 1)) == if i == 0 {
            items[0]
        } else {
            commas(items.take(i)) + seq![Piece::Text(seq![','])] + items[i]
        },
{
    if i == 0 {
        assert(items.take(1).len() == 1);
    } else {
        lemma_commas_snoc(items.take(i + 1));
        assert(items.take(i + 1).drop_last() =~= items.take(i));
    }
}

// ---------------------------------------------------------------------------
// The walk, run

/// How much of a term is written out before it becomes an elision glyph.
#[derive(Copy, Clone, Debug)]
pub struct Budget {
    /// Quotation levels drawn: the exponent of the scale, not parallel
    /// nesting, so it corresponds directly to the panel's legibility
    /// threshold.
    pub quote_depth: u32,
    /// Nodes written for one term, whatever the depth: a backstop against a
    /// wide term rather than a deep one.
    pub nodes: u32,
}

impl Default for Budget {
    /// Four quotation levels, 4096 nodes: far more than a person can have
    /// arranged by hand.
    fn default() -> (b: Budget)
        ensures
            b.quote_depth == 4 && b.nodes == 4096,
    {
        Budget { quote_depth: 4, nodes: 4096 }
    }
}

impl Budget {
    /// The default node budget, with a quotation depth of at most 16.
    pub fn with_quote_depth(d: u32) -> (b: Budget)
        ensures
            b.quote_depth == (if d <= 16 {
                d
            } else {
                16
            }),
            b.nodes == 4096,
    {
        Budget { quote_depth: if d <= 16 {
            d
        } else {
            16
        }, nodes: 4096 }
    }
}

/// One item of work on the stack.
enum Task<'a> {
    Proc(&'a Term, u32),
    Name(&'a Name, u32),
    Lit(&'static str),
    Owned(String),
}

spec fn task_piece(t: Task) -> Piece {
    match t {
        Task::Proc(p, q) => Piece::Proc(*p, q),
        Task::Name(n, q) => Piece::Name(*n, q),
        Task::Lit(s) => Piece::Text(s@),
        Task::Owned(s) => Piece::Text(s@),
    }
}

spec fn pieces(s: Seq<Task>) -> Seq<Piece> {
    s.map_values(|t: Task| task_piece(t))
}

/// What remains to be written, in order: the stack read from its top.
spec fn pending(s: Seq<Task>) -> Seq<Piece> {
    Seq::new(s.len(), |i: int| task_piece(s[s.len() - 1 - i]))
}

/// Push a sequence written in reading order so that it pops in that order.
fn schedule<'a>(stack: &mut Vec<Task<'a>>, seq: Vec<Task<'a>>)
    ensures
        pending(final(stack)@) == pieces(seq@) + pending(old(stack)@),
{
    let mut seq = seq;
    let ghost whole = pieces(seq@);
    while seq.len() > 0
        invariant
            pending(stack@) == whole.skip(seq@.len() as int) + pending(old(stack)@),
            pieces(seq@) == whole.take(seq@.len() as int),
            seq@.len() <= whole.len(),
        decreases seq@.len(),
    {
        let ghost k = seq@.len() as int;
        let x = seq.pop().unwrap();
        proof {
            assert(whole[k - 1] == task_piece(x)) by {
                assert(whole.take(k)[k - 1] == pieces(seq@.push(x))[k - 1]);
            }
            assert(pieces(seq@) =~= whole.take(k - 1)) by {
                assert forall|i: int| 0 <= i < k - 1 implies pieces(seq@)[i] == whole.take(k - 1)[i] by {
                    assert(whole.take(k)[i] == pieces(seq@.push(x))[i]);
                }
            }
        }
        let ghost before = stack@;
        stack.push(x);
        proof {
            assert(pending(stack@) =~= seq![task_piece(x)] + pending(before));
            assert(whole.skip(k - 1) =~= seq![whole[k - 1]] + whole.skip(k));
        }
    }
    assert(whole.skip(0) =~= whole);
}

/// Write the head every process node shares.
fn head(out: &mut Buf, p: &Term, form: &str)
    ensures
        final(out)@ == old(out)@ + head_text(*p, form@),
{
    out.raw("{\"f\":\"");
    out.raw(form);
    out.raw("\",\"fp\":\"");
    out.raw(p.fp.as_str());
    out.raw("\",\"size\":");
    out.num(p.size);
    out.raw(",\"depth\":");
    out.num(p.depth);
    assert(out@ =~= old(out)@ + head_text(*p, form@));
}

/// Processes as list items at depth `q`, with commas between.
fn proc_list<'a>(seq: &mut Vec<Task<'a>>, v: &'a Vec<Term>, q: u32)
    ensures
        pieces(final(seq)@) == pieces(old(seq)@) + commas(proc_items(v@, q)),
{
    let ghost start = pieces(seq@);
    let n = v.len();
    let mut i: usize = 0;
    while i < n
        invariant
            n == v@.len(),
            i <= n,
            pieces(seq@) == start + commas(proc_items(v@, q).take(i as int)),
        decreases n - i,
    {
        let ghost before = pieces(seq@);
        proof {
            lemma_commas_take(proc_items(v@, q), i as int);
            reveal_strlit(",");
            assert(","@ =~= seq![',']);
        }
        if i > 0 {
            seq.push(Task::Lit(","));
        }
        seq.push(Task::Proc(&v[i], q));
        proof {
            if i > 0 {
                assert(pieces(seq@) =~= before + seq![Piece::Text(seq![','])] + seq![Piece::Proc(v@[i as int], q)]);
            } else {
                assert(pieces(seq@) =~= before + seq![Piece::Proc(v@[i as int], q)]);
                assert(proc_items(v@, q).take(0) =~= Seq::<Seq<Piece>>::empty());
            }
            assert(proc_items(v@, q)[i as int] == seq![Piece::Proc(v@[i as int], q)]);
        }
        i = i + 1;
    }
    assert(proc_items(v@, q).take(n as int) =~= proc_items(v@, q));
}

/// Names as list items at depth `q`, with commas between.
fn name_list<'a>(seq: &mut Vec<Task<'a>>, v: &'a Vec<Name>, q: u32)
    ensures
        pieces(final(seq)@) == pieces(old(seq)@) + commas(name_items(v@, q)),
{
    let ghost start = pieces(seq@);
    let n = v.len();
    let mut i: usize = 0;
    while i < n
        invariant
            n == v@.len(),
            i <= n,
            pieces(seq@) == start + commas(name_items(v@, q).take(i as int)),
        decreases n - i,
    {
        let ghost before = pieces(seq@);
        proof {
            lemma_commas_take(name_items(v@, q), i as int);
            reveal_strlit(",");
            assert(","@ =~= seq![',']);
        }
        if i > 0 {
            seq.push(Task::Lit(","));
        }
        seq.push(Task::Name(&v[i], q));
        proof {
            if i > 0 {
                assert(pieces(seq@) =~= before + seq![Piece::Text(seq![','])] + seq![Piece::Name(v@[i as int], q)]);
            } else {
                assert(pieces(seq@) =~= before + seq![Piece::Name(v@[i as int], q)]);
                assert(name_items(v@, q).take(0) =~= Seq::<Seq<Piece>>::empty());
            }
            assert(name_items(v@, q)[i as int] == seq![Piece::Name(v@[i as int], q)]);
        }
        i = i + 1;
    }
    assert(name_items(v@, q).take(n as int) =~= name_items(v@, q));
}

fn kind_name_exec(k: BindKind) -> (s: &'static str)
    ensures
        s@ == kind_name(k),
{
    match k {
        BindKind::Linear => "linear",
        BindKind::Persistent => "persistent",
        BindKind::Peek => "peek",
    }
}

fn kind_arrow_exec(k: BindKind) -> (s: &'static str)
    ensures
        s@ == kind_arrow(k),
{
    match k {
        BindKind::Linear => "<-",
        BindKind::Persistent => "<=",
        BindKind::Peek => "<<-",
    }
}

/// One pattern group's pieces.
fn bind_tasks<'a>(seq: &mut Vec<Task<'a>>, b: &'a Bind, q: u32)
    ensures
        pieces(final(seq)@) == pieces(old(seq)@) + bind_pieces(*b, q),
{
    let ghost start = pieces(seq@);
    let mut t = Buf::new();
    t.raw("{\"kind\":\"");
    t.raw(kind_name_exec(b.kind));
    t.raw("\",\"arrow\":\"");
    t.raw(kind_arrow_exec(b.kind));
    t.raw("\",\"binders\":");
    t.num(b.binders);
    t.raw(",\"chan\":");
    let text = t.into_string();
    assert(text@ =~= "{\"kind\":\""@ + kind_name(b.kind) + "\",\"arrow\":\""@ + kind_arrow(b.kind)
        + "\",\"binders\":"@ + dec(b.binders as nat) + ",\"chan\":"@);
    seq.push(Task::Owned(text));
    seq.push(Task::Name(&b.chan, q));
    seq.push(Task::Lit(",\"pats\":["));
    let ghost mid = pieces(seq@);
    name_list(seq, &b.pats, q);
    let ghost after = pieces(seq@);
    seq.push(Task::Lit("]}"));
    proof {
        assert(pieces(seq@) =~= after + seq![Piece::Text("]}"@)]);
        let first = seq![
            Piece::Text(
                "{\"kind\":\""@ + kind_name(b.kind) + "\",\"arrow\":\""@ + kind_arrow(b.kind)
                    + "\",\"binders\":"@ + dec(b.binders as nat) + ",\"chan\":"@,
            ),
            Piece::Name(b.chan, q),
            Piece::Text(",\"pats\":["@),
        ];
        assert(mid =~= start + first);
        assert(pieces(seq@) =~= start + bind_pieces(*b, q));
    }
}

/// Pattern groups as list items, with commas between.
fn bind_list<'a>(seq: &mut Vec<Task<'a>>, v: &'a Vec<Bind>, q: u32)
    ensures
        pieces(final(seq)@) == pieces(old(seq)@) + commas(bind_items(v@, q)),
{
    let ghost start = pieces(seq@);
    let n = v.len();
    let mut i: usize = 0;
    while i < n
        invariant
            n == v@.len(),
            i <= n,
            pieces(seq@) == start + commas(bind_items(v@, q).take(i as int)),
        decreases n - i,
    {
        let ghost before = pieces(seq@);
        proof {
            lemma_commas_take(bind_items(v@, q), i as int);
            reveal_strlit(",");
            assert(","@ =~= seq![',']);
        }
        if i > 0 {
            seq.push(Task::Lit(","));
        }
        let ghost mid = pieces(seq@);
        bind_tasks(seq, &v[i], q);
        proof {
            if i > 0 {
                assert(mid =~= before + seq![Piece::Text(seq![','])]);
            } else {
                assert(bind_items(v@, q).take(0) =~= Seq::<Seq<Piece>>::empty());
            }
            assert(bind_items(v@, q)[i as int] == bind_pieces(v@[i as int], q));
            assert(pieces(seq@) =~= start + commas(bind_items(v@, q).take(i + 1)));
        }
        i = i + 1;
    }
    assert(bind_items(v@, q).take(n as int) =~= bind_items(v@, q));
}


/// Write one process node's own text, and schedule its parts.
fn write_proc<'a>(
    out: &mut Buf,
    p: &'a Term,
    q: u32,
    left: &mut u32,
    max_q: u32,
    stack: &mut Vec<Task<'a>>,
)
    requires
        q + *old(left) <= u32::MAX,
    ensures
        ({
            let e = expand(Piece::Proc(*p, q), *old(left) as nat, max_q);
            &&& final(out)@ == old(out)@ + e.0
            &&& *final(left) as nat == e.2
            &&& pending(final(stack)@) == e.1 + pending(old(stack)@)
        }),
{
    let ghost e = expand(Piece::Proc(*p, q), *old(left) as nat, max_q);
    if *left == 0 || q > max_q {
        head(out, p, "elided");
        out.raw("}");
        assert(pending(stack@) =~= e.1 + pending(stack@));
        return;
    }
    *left = *left - 1;
    match &p.node {
        Node::Nil => {
            head(out, p, "nil");
            out.raw("}");
            assert(pending(stack@) =~= e.1 + pending(stack@));
        },
        Node::Par(parts) => {
            head(out, p, "par");
            out.raw(",\"parts\":[");
            let mut seq: Vec<Task<'a>> = Vec::new();
            proc_list(&mut seq, parts, q);
            let ghost mid = pieces(seq@);
            seq.push(Task::Lit("]}"));
            assert(pieces(seq@) =~= e.1);
            schedule(stack, seq);
        },
        Node::Send { chan, persistent, args } => {
            head(out, p, "send");
            out.raw(",\"persistent\":");
            out.bool(*persistent);
            out.raw(",\"chan\":");
            let mut seq: Vec<Task<'a>> = Vec::new();
            seq.push(Task::Name(chan, q));
            seq.push(Task::Lit(",\"args\":["));
            let ghost first = pieces(seq@);
            proc_list(&mut seq, args, q + 1);
            let ghost mid = pieces(seq@);
            seq.push(Task::Lit("]}"));
            proof {
                assert(first =~= seq![Piece::Name(*chan, q), Piece::Text(",\"args\":["@)]);
                assert(pieces(seq@) =~= mid + seq![Piece::Text("]}"@)]);
                assert(pieces(seq@) =~= e.1);
            }
            schedule(stack, seq);
        },
        Node::Receive { binds, body } => {
            head(out, p, "receive");
            out.raw(",\"binds\":[");
            let mut seq: Vec<Task<'a>> = Vec::new();
            bind_list(&mut seq, binds, q);
            let ghost mid = pieces(seq@);
            seq.push(Task::Lit("],\"body\":"));
            seq.push(Task::Proc(&**body, q));
            seq.push(Task::Lit("}"));
            proof {
                assert(pieces(seq@) =~= mid + seq![
                    Piece::Text("],\"body\":"@),
                    Piece::Proc(**body, q),
                    Piece::Text("}"@),
                ]);
                assert(pieces(seq@) =~= e.1);
            }
            schedule(stack, seq);
        },
        Node::New { count, body } => {
            head(out, p, "new");
            out.raw(",\"count\":");
            out.num(*count);
            out.raw(",\"body\":");
            let mut seq: Vec<Task<'a>> = Vec::new();
            seq.push(Task::Proc(&**body, q));
            seq.push(Task::Lit("}"));
            assert(pieces(seq@) =~= e.1);
            schedule(stack, seq);
        },
        Node::Eval(n) => {
            head(out, p, "drop");
            out.raw(",\"name\":");
            let mut seq: Vec<Task<'a>> = Vec::new();
            seq.push(Task::Name(n, q));
            seq.push(Task::Lit("}"));
            assert(pieces(seq@) =~= e.1);
            schedule(stack, seq);
        },
        Node::BoundVar(i) => {
            head(out, p, "var");
            out.raw(",\"bound\":true,\"index\":");
            out.num(*i);
            out.raw("}");
            assert(pending(stack@) =~= e.1 + pending(stack@));
        },
        Node::FreeVar(i) => {
            head(out, p, "var");
            out.raw(",\"bound\":false,\"index\":");
            out.num(*i);
            out.raw("}");
            assert(pending(stack@) =~= e.1 + pending(stack@));
        },
        Node::Wild => {
            head(out, p, "wild");
            out.raw("}");
            assert(pending(stack@) =~= e.1 + pending(stack@));
        },
    }
    assert(out@ =~= old(out)@ + e.0);
}

/// Two lower-case hex digits of a byte.
fn hex2_exec(b: u8) -> (s: String)
    ensures
        s@ == hex2(b),
{
    let mut s = String::new();
    crate::json::push_char(&mut s, crate::json::hex_digit(b / 16));
    crate::json::push_char(&mut s, crate::json::hex_digit(b % 16));
    assert(s@ =~= hex2(b));
    s
}

/// A glyph slot.
fn slot(out: &mut Buf, fp: &str, bound: bool, index: u32)
    ensures
        final(out)@ == old(out)@ + slot_text(fp@, bound, index),
{
    out.raw("{\"g\":\"slot\",\"bound\":");
    out.bool(bound);
    out.raw(",\"index\":");
    out.num(index as u64);
    out.raw(",\"fp\":\"");
    out.raw(fp);
    out.raw("\",\"label\":\"");
    out.raw(if bound {
        "n"
    } else {
        "f"
    });
    out.num(index as u64);
    out.raw("\"}");
    assert(out@ =~= old(out)@ + slot_text(fp@, bound, index));
}

/// Write one name's own text, and schedule its parts.
fn write_name<'a>(
    out: &mut Buf,
    n: &'a Name,
    q: u32,
    left: &mut u32,
    max_q: u32,
    stack: &mut Vec<Task<'a>>,
)
    requires
        q + *old(left) <= u32::MAX,
    ensures
        ({
            let e = expand(Piece::Name(*n, q), *old(left) as nat, max_q);
            &&& final(out)@ == old(out)@ + e.0
            &&& *final(left) as nat == e.2
            &&& pending(final(stack)@) == e.1 + pending(old(stack)@)
        }),
{
    let ghost e = expand(Piece::Name(*n, q), *old(left) as nat, max_q);
    match &n.form {
        NameForm::Quote(p) => {
            // A capsule. Quotation is what scale carries, so its contents go
            // one level in; past the budget it is the elision glyph, which
            // keeps the fingerprint so the name stays comparable.
            if *left == 0 || q > max_q {
                out.raw("{\"g\":\"quote\",\"elided\":true,\"fp\":\"");
                out.raw(n.fp.as_str());
                out.raw("\",\"size\":");
                out.num(p.size);
                out.raw(",\"depth\":");
                out.num(p.depth);
                out.raw("}");
                assert(pending(stack@) =~= e.1 + pending(stack@));
            } else {
                *left = *left - 1;
                out.raw("{\"g\":\"quote\",\"elided\":false,\"fp\":\"");
                out.raw(n.fp.as_str());
                out.raw("\",\"proc\":");
                let mut seq: Vec<Task<'a>> = Vec::new();
                seq.push(Task::Proc(&**p, q + 1));
                seq.push(Task::Lit("}"));
                assert(pieces(seq@) =~= e.1);
                schedule(stack, seq);
            }
        },
        NameForm::Bound(i) => {
            slot(out, n.fp.as_str(), true, *i);
            assert(pending(stack@) =~= e.1 + pending(stack@));
        },
        NameForm::Free(l) => {
            slot(out, n.fp.as_str(), false, *l);
            assert(pending(stack@) =~= e.1 + pending(stack@));
        },
        NameForm::Unforgeable(b) => {
            // Named as the executive's printer names it, so a channel that
            // reads `u_3375c662` in a card's label reads the same here.
            out.raw("{\"g\":\"unforgeable\",\"fp\":\"");
            out.raw(n.fp.as_str());
            out.raw("\",\"label\":\"u_");
            let h0 = hex2_exec(b[0]);
            out.raw(h0.as_str());
            let h1 = hex2_exec(b[1]);
            out.raw(h1.as_str());
            let h2 = hex2_exec(b[2]);
            out.raw(h2.as_str());
            let h3 = hex2_exec(b[3]);
            out.raw(h3.as_str());
            out.raw("\"}");
            assert(pending(stack@) =~= e.1 + pending(stack@));
        },
    }
    assert(out@ =~= old(out)@ + e.0);
}

proof fn lemma_pending_push(s: Seq<Task>, t: Task)
    ensures
        pending(s.push(t)) == seq![task_piece(t)] + pending(s),
{
    assert(pending(s.push(t)) =~= seq![task_piece(t)] + pending(s));
}

/// Write `t` as a JSON tree in the rhobot vocabulary.
pub fn write(out: &mut Buf, t: &Term, budget: Budget)
    ensures
        final(out)@ == old(out)@ + tree_text(*t, budget),
{
    let max_q = budget.quote_depth;
    let mut left = budget.nodes;
    let mut stack: Vec<Task> = Vec::new();
    stack.push(Task::Proc(t, 0));
    let ghost target = old(out)@ + tree_text(*t, budget);
    proof {
        let ps = pending(stack@);
        assert(ps =~= seq![Piece::Proc(*t, 0)]);
        assert(ps.drop_first() =~= Seq::<Piece>::empty());
        let a = piece_out(Piece::Proc(*t, 0), left as nat, max_q);
        assert(run_pieces(ps, left as nat, max_q).0 == a.0 + run_pieces(ps.drop_first(), a.1, max_q).0);
        assert(run_pieces(ps, left as nat, max_q).0 =~= a.0);
    }
    while stack.len() > 0
        invariant
            all_within(pending(stack@), u32::MAX - left),
            out@ + run_pieces(pending(stack@), left as nat, max_q).0 == target,
        decreases mseq(pending(stack@)), stack@.len(),
    {
        let ghost before = stack@;
        let task = stack.pop().unwrap();
        let ghost rest = pending(stack@);
        let ghost l0 = left as nat;
        let ghost o0 = out@;
        let ghost tp = task_piece(task);
        let ghost ts = seq![tp] + rest;
        proof {
            assert(before =~= stack@.push(task));
            lemma_pending_push(stack@, task);
            assert(pending(before) == ts);
            assert(ts[0] == tp);
            assert(ts.drop_first() =~= rest);
            assert(run_pieces(ts, l0, max_q) == ({
                let a = piece_out(tp, l0, max_q);
                let b = run_pieces(rest, a.1, max_q);
                (a.0 + b.0, b.1)
            }));
            assert(mseq(ts) == measure(tp) + mseq(rest));
            lemma_expand_measure(tp, l0, max_q);
            assert(depth_of(ts[0]) <= u32::MAX - l0);
            lemma_expand_within(tp, l0, max_q);
            assert(all_within(rest, u32::MAX - l0)) by {
                assert forall|i: int| 0 <= i < rest.len() implies depth_of(#[trigger] rest[i]) <= u32::MAX - l0 by {
                    assert(rest[i] == ts[i + 1]);
                }
            }
        }
        match task {
            Task::Lit(s) => {
                out.raw(s);
                assert(piece_out(tp, l0, max_q) == (s@, l0));
                assert(out@ + run_pieces(rest, l0, max_q).0 =~= o0 + run_pieces(ts, l0, max_q).0);
            },
            Task::Owned(s) => {
                out.raw(s.as_str());
                assert(piece_out(tp, l0, max_q) == (s@, l0));
                assert(out@ + run_pieces(rest, l0, max_q).0 =~= o0 + run_pieces(ts, l0, max_q).0);
            },
            Task::Proc(p, q) => {
                write_proc(out, p, q, &mut left, max_q, &mut stack);
                proof {
                    let e = expand(tp, l0, max_q);
                    let r = run_pieces(e.1, e.2, max_q);
                    assert(piece_out(tp, l0, max_q) == (e.0 + r.0, r.1));
                    lemma_run_concat(e.1, rest, e.2, max_q);
                    lemma_mseq_concat(e.1, rest);
                    lemma_within_concat(e.1, rest, u32::MAX - e.2);
                    assert(out@ + run_pieces(pending(stack@), left as nat, max_q).0 =~= o0 + run_pieces(ts, l0, max_q).0);
                }
            },
            Task::Name(n, q) => {
                write_name(out, n, q, &mut left, max_q, &mut stack);
                proof {
                    let e = expand(tp, l0, max_q);
                    let r = run_pieces(e.1, e.2, max_q);
                    assert(piece_out(tp, l0, max_q) == (e.0 + r.0, r.1));
                    lemma_run_concat(e.1, rest, e.2, max_q);
                    lemma_mseq_concat(e.1, rest);
                    lemma_within_concat(e.1, rest, u32::MAX - e.2);
                    assert(out@ + run_pieces(pending(stack@), left as nat, max_q).0 =~= o0 + run_pieces(ts, l0, max_q).0);
                }
            },
        }
    }
}

/// The tree of a single term.
pub fn to_string(t: &Term, budget: Budget) -> (s: String)
    ensures
        s@ == tree_text(*t, budget),
{
    let mut b = Buf::new();
    write(&mut b, t, budget);
    assert(b@ =~= tree_text(*t, budget));
    b.into_string()
}

} // verus!
