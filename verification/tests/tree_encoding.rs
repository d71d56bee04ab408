use f1r3x_serve::tree::{self, Bind, BindKind, Budget, Name, NameForm, Node, Term};

// Terms are written out by hand here, in the shape the normaliser gives
// them: every node with its fingerprint, size and depth.

fn fp(c: char) -> String {
    std::iter::repeat(c).take(64).collect()
}

fn term(tag: char, size: u64, depth: u64, node: Node) -> Term {
    Term { fp: fp(tag), size, depth, node }
}

fn nil() -> Term {
    term('0', 1, 0, Node::Nil)
}

fn quote(p: Term) -> Name {
    Name { fp: fp('q'), form: NameForm::Quote(Box::new(p)) }
}

fn bound(i: u32) -> Name {
    Name { fp: fp('b'), form: NameForm::Bound(i) }
}

/// `chan!(args)`
fn send(chan: Name, args: Vec<Term>) -> Term {
    term('s', 2, 1, Node::Send { chan, persistent: false, args })
}

fn bind(kind: BindKind, chan: Name) -> Bind {
    Bind { kind, binders: 1, chan, pats: vec![bound(0)] }
}

/// `for(y <arrow> chan){ body }`
fn receive(kind: BindKind, chan: Name, body: Term) -> Term {
    term('r', 3, 1, Node::Receive { binds: vec![bind(kind, chan)], body: Box::new(body) })
}

/// `*y`
fn eval(n: Name) -> Term {
    term('d', 1, 0, Node::Eval(n))
}

fn par(parts: Vec<Term>) -> Term {
    term('p', 4, 1, Node::Par(parts))
}

/// `@{Nil}`
fn at_nil() -> Name {
    quote(nil())
}

/// Balanced braces and brackets is a cheap total check that the
/// explicit-stack walk pushes its closers in the right order.
fn balanced(s: &str) -> bool {
    let mut stack = Vec::new();
    let mut in_str = false;
    let mut esc = false;
    for c in s.chars() {
        if in_str {
            if esc {
                esc = false;
            } else if c == '\\' {
                esc = true;
            } else if c == '"' {
                in_str = false;
            }
            continue;
        }
        match c {
            '"' => in_str = true,
            '{' | '[' => stack.push(c),
            '}' => {
                if stack.pop() != Some('{') {
                    return false;
                }
            }
            ']' => {
                if stack.pop() != Some('[') {
                    return false;
                }
            }
            _ => {}
        }
    }
    stack.is_empty() && !in_str
}

fn forms() -> Vec<(&'static str, Term)> {
    vec![
        ("Nil", nil()),
        ("@{Nil}!(Nil)", send(at_nil(), vec![nil()])),
        ("for(y <- @{Nil}){ *y }", receive(BindKind::Linear, at_nil(), eval(bound(0)))),
        (
            "for(y <- @{Nil}){ *y } | @{Nil}!(Nil)",
            par(vec![
                receive(BindKind::Linear, at_nil(), eval(bound(0))),
                send(at_nil(), vec![nil()]),
            ]),
        ),
        ("@{Nil}!(@{Nil}!(Nil))", send(at_nil(), vec![send(at_nil(), vec![nil()])])),
        (
            "new x in { x!(Nil) }",
            term('n', 3, 1, Node::New { count: 1, body: Box::new(send(bound(0), vec![nil()])) }),
        ),
        ("for(y <= @{Nil}){ Nil }", receive(BindKind::Persistent, at_nil(), nil())),
        ("for(y <<- @{Nil}){ Nil }", receive(BindKind::Peek, at_nil(), nil())),
        (
            "for(a <- @{Nil} & b <- @{@{Nil}!(Nil)}){ *a | *b }",
            term(
                'j',
                6,
                2,
                Node::Receive {
                    binds: vec![
                        bind(BindKind::Linear, at_nil()),
                        bind(BindKind::Linear, quote(send(at_nil(), vec![nil()]))),
                    ],
                    body: Box::new(par(vec![eval(bound(1)), eval(bound(0))])),
                },
            ),
        ),
        (
            "for(y <- @{Nil}){ for(z <- y){ *z } } | @{Nil}!(@{Nil}!(Nil))",
            par(vec![
                receive(
                    BindKind::Linear,
                    at_nil(),
                    receive(BindKind::Linear, bound(0), eval(bound(0))),
                ),
                send(at_nil(), vec![send(at_nil(), vec![nil()])]),
            ]),
        ),
    ]
}

#[test]
fn every_form_encodes_to_balanced_json() {
    for (src, t) in forms() {
        let j = tree::to_string(&t, Budget::default());
        assert!(balanced(&j), "unbalanced tree for `{src}`:\n{j}");
        assert!(j.starts_with("{\"f\":\""), "no form tag for `{src}`: {j}");
    }
}

#[test]
fn a_send_carries_its_channel_and_its_capsule() {
    let j = tree::to_string(&send(at_nil(), vec![nil()]), Budget::default());
    assert!(j.contains("\"f\":\"send\""), "{j}");
    assert!(j.contains("\"chan\":{\"g\":\"quote\""), "{j}");
    assert!(j.contains("\"args\":["), "{j}");
}

#[test]
fn a_receive_carries_its_binds_and_its_continuation() {
    let t = receive(BindKind::Linear, at_nil(), eval(bound(0)));
    let j = tree::to_string(&t, Budget::default());
    assert!(j.contains("\"f\":\"receive\""), "{j}");
    assert!(j.contains("\"kind\":\"linear\""), "{j}");
    assert!(j.contains("\"arrow\":\"<-\""), "{j}");
    assert!(j.contains("\"body\":"), "{j}");
    // `*y` is the platform with the unshrink icon, not a bare variable.
    assert!(j.contains("\"f\":\"drop\""), "{j}");
}

#[test]
fn the_three_bind_kinds_are_distinguished() {
    for (src, k, kind, arrow) in [
        ("for(y <- @{Nil}){ Nil }", BindKind::Linear, "linear", "<-"),
        ("for(y <= @{Nil}){ Nil }", BindKind::Persistent, "persistent", "<="),
        ("for(y <<- @{Nil}){ Nil }", BindKind::Peek, "peek", "<<-"),
    ] {
        let j = tree::to_string(&receive(k, at_nil(), nil()), Budget::default());
        assert!(j.contains(&format!("\"kind\":\"{kind}\"")), "{src}: {j}");
        assert!(j.contains(&format!("\"arrow\":\"{arrow}\"")), "{src}: {j}");
    }
}

#[test]
fn a_quotation_budget_elides_and_keeps_the_fingerprint() {
    // @{Nil}!(@{Nil}!(@{Nil}!(@{Nil}!(Nil))))
    let t = send(
        at_nil(),
        vec![send(at_nil(), vec![send(at_nil(), vec![send(at_nil(), vec![nil()])])])],
    );
    let deep = tree::to_string(&t, Budget::with_quote_depth(10));
    let shallow = tree::to_string(&t, Budget::with_quote_depth(1));
    assert!(!deep.contains("\"elided\":true"), "nothing should elide deep");
    assert!(shallow.contains("\"elided\""), "should elide at depth 1");
    assert!(shallow.len() < deep.len());
    assert!(balanced(&shallow), "{shallow}");
    // The point of the elision glyph: the name stays comparable.
    assert!(
        shallow.matches("\"fp\":\"").count() > 0,
        "an elided node must still carry a fingerprint"
    );
}

#[test]
fn a_node_budget_bounds_a_wide_term() {
    // @{Nil}!(Nil) | @{@{Nil}!(Nil)}!(Nil) | @{Nil}!(@{Nil}!(Nil)) | for(y <- @{Nil}){ *y }
    let wide = par(vec![
        send(at_nil(), vec![nil()]),
        send(quote(send(at_nil(), vec![nil()])), vec![nil()]),
        send(at_nil(), vec![send(at_nil(), vec![nil()])]),
        receive(BindKind::Linear, at_nil(), eval(bound(0))),
    ]);
    let j = tree::to_string(&wide, Budget { quote_depth: 8, nodes: 3 });
    assert!(balanced(&j), "{j}");
    assert!(j.contains("\"f\":\"elided\""), "{j}");
}

#[test]
fn nil_is_written_exactly() {
    let j = tree::to_string(&nil(), Budget::default());
    assert_eq!(j, format!("{{\"f\":\"nil\",\"fp\":\"{}\",\"size\":1,\"depth\":0}}", fp('0')));
}

#[test]
fn a_spent_node_budget_leaves_one_elision_glyph() {
    let t = send(at_nil(), vec![nil()]);
    let j = tree::to_string(&t, Budget { quote_depth: 4, nodes: 0 });
    assert_eq!(j, format!("{{\"f\":\"elided\",\"fp\":\"{}\",\"size\":2,\"depth\":1}}", fp('s')));
}

#[test]
fn a_process_too_deep_in_quotation_is_elided() {
    // At quotation depth 0 the capsule of a send is already one level too
    // deep, and its channel's quoted process too.
    let t = send(at_nil(), vec![nil()]);
    let j = tree::to_string(&t, Budget { quote_depth: 0, nodes: 100 });
    assert!(j.starts_with("{\"f\":\"send\""), "{j}");
    assert!(j.contains("\"g\":\"quote\",\"elided\":false"), "{j}");
    assert!(j.contains("\"args\":[{\"f\":\"elided\""), "{j}");
}

#[test]
fn slots_and_unforgeables_are_labelled() {
    let free = Name { fp: fp('f'), form: NameForm::Free(3) };
    let un = Name { fp: fp('u'), form: NameForm::Unforgeable([0xab, 0x01, 0x00, 0xff]) };
    let t = par(vec![send(free, vec![]), send(un, vec![]), send(bound(2), vec![])]);
    let j = tree::to_string(&t, Budget::default());
    assert!(j.contains("\"g\":\"slot\",\"bound\":false,\"index\":3"), "{j}");
    assert!(j.contains("\"label\":\"f3\""), "{j}");
    assert!(j.contains("\"label\":\"n2\""), "{j}");
    assert!(j.contains("\"label\":\"u_ab0100ff\""), "{j}");
    assert!(j.contains("\"args\":[]"), "{j}");
    assert!(balanced(&j), "{j}");
}

#[test]
fn variables_and_wildcards_are_written() {
    let t = par(vec![
        term('v', 1, 0, Node::BoundVar(7)),
        term('w', 1, 0, Node::FreeVar(2)),
        term('x', 1, 0, Node::Wild),
    ]);
    let j = tree::to_string(&t, Budget::default());
    assert!(j.contains("\"f\":\"var\",\"fp\":"), "{j}");
    assert!(j.contains("\"bound\":true,\"index\":7}"), "{j}");
    assert!(j.contains("\"bound\":false,\"index\":2}"), "{j}");
    assert!(j.contains("\"f\":\"wild\""), "{j}");
    assert!(j.contains("\"f\":\"par\""), "{j}");
    assert!(j.contains("\"parts\":["), "{j}");
}

#[test]
fn a_quotation_depth_past_sixteen_is_clamped() {
    assert_eq!(Budget::with_quote_depth(99).quote_depth, 16);
    assert_eq!(Budget::with_quote_depth(3).quote_depth, 3);
    assert_eq!(Budget::with_quote_depth(3).nodes, 4096);
    let d = Budget::default();
    assert_eq!((d.quote_depth, d.nodes), (4, 4096));
}

#[test]
fn write_appends_to_what_is_already_there() {
    let mut b = f1r3x_serve::json::Buf::new();
    b.raw("[");
    tree::write(&mut b, &nil(), Budget::default());
    b.raw("]");
    let s = b.into_string();
    assert_eq!(s, format!("[{}]", tree::to_string(&nil(), Budget::default())));
}

#[test]
fn an_unlimited_quotation_depth_draws_everything() {
    let t = send(at_nil(), vec![send(at_nil(), vec![nil()])]);
    let j = tree::to_string(&t, Budget { quote_depth: u32::MAX, nodes: u32::MAX });
    assert!(!j.contains("elided\":true"), "{j}");
    assert!(!j.contains("\"f\":\"elided\""), "{j}");
    assert_eq!(j, tree::to_string(&t, Budget { quote_depth: 16, nodes: 4096 }));
}
