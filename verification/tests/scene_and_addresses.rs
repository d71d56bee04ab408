use f1r3x_serve::scene::join_listed_here;
use f1r3x_serve::json::Buf;
use f1r3x_serve::net::{inet_addresses, normalise_addr};
use f1r3x_serve::scene::{self, card_id, listener_label, sort_cards, Card, Chan, GroupPart, Snapshot};
use f1r3x_serve::tree::{Budget, Node, Term};
use f1r3x_serve::{acceptable_session_id, target_session, WIRE_VERSION};

fn nil(tag: char) -> Term {
    Term { fp: std::iter::repeat(tag).take(64).collect(), size: 1, depth: 0, node: Node::Nil }
}

fn card(id: &str, chan: Option<Chan>, group: Vec<String>) -> Card {
    Card { id: id.to_string(), label: format!("label {id}"), term: nil('0'), chan, group }
}

#[test]
fn a_scene_lists_its_three_populations_in_order() {
    let mut s = Snapshot {
        tick: 3,
        quiescent: false,
        queued: 1,
        data: 1,
        waiting: 1,
        comms: 2,
        rhobots: vec![card("r1", None, vec![])],
        tuples: vec![card(
            "t1",
            Some(Chan { label: "@{Nil}".to_string(), fp: "ab".repeat(32) }),
            vec![],
        )],
        listeners: vec![card("l1", None, vec!["@{Nil}".to_string(), "@{x}".to_string()])],
    };
    let mut b = Buf::new();
    scene::write(&mut b, &mut s, Budget::default());
    let j = b.into_string();
    assert!(j.starts_with(
        "{\"tick\":3,\"quiescent\":false,\"queued\":1,\"data\":1,\"waiting\":1,\"comms\":2,\"rhobots\":[{\"id\":\"r1\",\"kind\":\"rhobot\""
    ), "{j}");
    for key in ["\"rhobots\":[", "\"tuples\":[", "\"listeners\":[", "\"tick\":"] {
        assert!(j.contains(key), "scene missing {key}");
    }
    assert!(j.contains("\"chan\":null,\"chanFp\":null"), "{j}");
    assert!(j.contains("\"chan\":\"@{Nil}\",\"chanFp\":\"abab"), "{j}");
    assert!(j.contains("\"group\":[\"@{Nil}\",\"@{x}\"]"), "{j}");
    // Every card carries a tree, which is the whole reason this frame exists.
    assert_eq!(j.matches("\"tree\":").count(), j.matches("\"id\":").count());
    assert!(j.ends_with("]}"), "{j}");
}

#[test]
fn an_empty_scene_is_well_formed() {
    let mut s = Snapshot {
        tick: 0,
        quiescent: true,
        queued: 0,
        data: 0,
        waiting: 0,
        comms: 0,
        rhobots: vec![],
        tuples: vec![],
        listeners: vec![],
    };
    let mut b = Buf::new();
    scene::write(&mut b, &mut s, Budget::default());
    assert_eq!(
        b.into_string(),
        "{\"tick\":0,\"quiescent\":true,\"queued\":0,\"data\":0,\"waiting\":0,\"comms\":0,\"rhobots\":[],\"tuples\":[],\"listeners\":[]}"
    );
}

#[test]
fn a_card_id_names_content_channel_and_row() {
    assert_eq!(card_id("c0ffee", "0123456789abcdef", 2), "c0ffee@01234567#2");
    assert_eq!(card_id("x", "01234567", 0), "x@01234567#0");
    // Eight bytes, not eight characters.
    assert_eq!(card_id("x", "\u{e9}\u{e9}\u{e9}\u{e9}ab", 10), "x@\u{e9}\u{e9}\u{e9}\u{e9}#10");
}

#[test]
fn a_join_is_labelled_as_one_for() {
    let parts = vec![
        GroupPart { pats: vec!["a".to_string(), "b".to_string()], arrow: "<-".to_string(), chan: "@{Nil}".to_string() },
        GroupPart { pats: vec!["c".to_string()], arrow: "<=".to_string(), chan: "x".to_string() },
    ];
    assert_eq!(
        listener_label(&parts, "*a | *c", true),
        "for(a, b <- @{Nil} & c <= x){ *a | *c }  // persistent"
    );
    let one = vec![GroupPart {
        pats: vec!["a".to_string(), "b".to_string()],
        arrow: "<-".to_string(),
        chan: "@{Nil}".to_string(),
    }];
    assert_eq!(listener_label(&one, "Nil", false), "for(a, b <- @{Nil}){ Nil }");
}

#[test]
fn cards_are_sorted_by_id_and_none_is_lost() {
    let mut cs = vec![
        card("b", None, vec![]),
        card("a2", None, vec![]),
        card("B", None, vec![]),
        card("a", None, vec![]),
        card("a2", None, vec!["second".to_string()]),
    ];
    sort_cards(&mut cs);
    let ids: Vec<&str> = cs.iter().map(|c| c.id.as_str()).collect();
    assert_eq!(ids, vec!["B", "a", "a2", "a2", "b"]);
    // Equal ids keep their order.
    assert!(cs[2].group.is_empty());
    assert_eq!(cs[3].group, vec!["second".to_string()]);
}

#[test]
fn a_listen_address_is_normalised() {
    assert_eq!(normalise_addr("9099"), "0.0.0.0:9099");
    assert_eq!(normalise_addr(":9099"), "0.0.0.0:9099");
    assert_eq!(normalise_addr("0.0.0.0:9099"), "0.0.0.0:9099");
    assert_eq!(normalise_addr("localhost:9099"), "localhost:9099");
    assert_eq!(normalise_addr("+80"), "0.0.0.0:80");
    assert_eq!(normalise_addr("009099"), "0.0.0.0:9099");
    assert_eq!(normalise_addr("70000"), "70000");
    assert_eq!(normalise_addr(":"), "0.0.0.0:");
    assert_eq!(normalise_addr(""), "");
}

#[test]
fn reachable_addresses_are_read_from_an_interface_listing() {
    let listing = "lo0: flags=8049<UP,LOOPBACK,RUNNING,MULTICAST> mtu 16384\n\
        \tinet 127.0.0.1 netmask 0xff000000\n\
        \tinet6 ::1 prefixlen 128\n\
        en0: flags=8863<UP,BROADCAST,SMART,RUNNING,SIMPLEX,MULTICAST> mtu 1500\n\
        \tinet6 fe80::1%en0 prefixlen 64 secured scopeid 0x4\n\
        \tinet 192.168.1.20 netmask 0xffffff00 broadcast 192.168.1.255\r\n\
        \tinet fe80::2 prefixlen 64\n\
        utun0: flags=8051<UP,POINTOPOINT,RUNNING,MULTICAST> mtu 1380\n\
        \tinet 10.8.0.2 --> 10.8.0.1 netmask 0xffffff00\n\
        inet \n";
    assert_eq!(inet_addresses(listing), vec!["192.168.1.20", "10.8.0.2"]);
    assert!(inet_addresses("").is_empty());
}

#[test]
fn a_path_names_its_session() {
    assert_eq!(target_session("/s/headset-1"), "headset-1");
    assert_eq!(target_session("/s/"), "default");
    assert_eq!(target_session("/s"), "default");
    assert_eq!(target_session("/"), "default");
    assert_eq!(target_session("plain"), "plain");
    assert_eq!(target_session("/a/b/c"), "c");
    assert!(acceptable_session_id("headset-1.a_b"));
    assert!(!acceptable_session_id("a b"));
    assert!(!acceptable_session_id(&"x".repeat(129)));
    assert_eq!(WIRE_VERSION, 1);
}

#[test]
fn a_join_is_listed_once_at_its_first_member() {
    assert!(join_listed_here(true, 2));
    assert!(!join_listed_here(false, 2));
    assert!(!join_listed_here(true, 1));
}

#[test]
fn a_scene_puts_tuples_and_listeners_in_order_of_id() {
    let mut s = Snapshot {
        tick: 1,
        quiescent: false,
        queued: 0,
        data: 2,
        waiting: 2,
        comms: 0,
        rhobots: vec![card("z", None, vec![]), card("a", None, vec![])],
        tuples: vec![card("t2", None, vec![]), card("t1", None, vec![])],
        listeners: vec![card("l9", None, vec![]), card("l0", None, vec![])],
    };
    let mut b = Buf::new();
    scene::write(&mut b, &mut s, Budget::default());
    let j = b.into_string();
    let at = |k: &str| j.find(&format!("\"id\":\"{k}\"")).unwrap();
    // Rhobots keep queue order; tuples and listeners go in order of id.
    assert!(at("z") < at("a"));
    assert!(at("t1") < at("t2"));
    assert!(at("l0") < at("l9"));
    assert_eq!(s.tuples[0].id, "t1");
    assert_eq!(s.listeners[0].id, "l0");
    assert_eq!(s.rhobots[0].id, "z");
}
