use f1r3x_serve::proto::{attach_case, route, AttachCase, Route};
use f1r3x_serve::json::{error_frame, esc, frame, Buf};
use f1r3x_serve::proto::{
    after, attached_reply, check_attach_arg, fixed_reply, needs_session, no_session_reply, ok,
    pacing_state, panel, parse_request, push_error, scene_follows, split_seq, stats_follows, verb,
    wrap, After, Verb,
};
use f1r3x_serve::session::{Control, Pacing};

/// What the connection does with a panel request: strip the correlation
/// number, read the verb and its first argument, and apply it.
fn handle(c: &mut Control, req: &str) -> String {
    let (seq, rest) = split_seq(req);
    let r = parse_request(rest);
    let body = panel(c, r.verb, r.args.first().map(|s| s.as_str()));
    wrap(seq, &body)
}

#[test]
fn commands_need_a_session_first() {
    let r = parse_request("status");
    assert_eq!(r.verb, Verb::Executive);
    assert!(needs_session(r.verb));
    assert!(!needs_session(verb("attach")));
    let reply = wrap(None, &no_session_reply());
    assert!(reply.contains("no-session"), "{reply}");
}

#[test]
fn a_correlation_number_comes_back_on_the_reply() {
    let (seq, rest) = split_seq("#42 status");
    assert_eq!((seq, rest), (Some(42), "status"));
    let reply = wrap(seq, "{\"ok\":true,\"result\":{}}");
    assert!(reply.contains("\"seq\":42"), "{reply}");
    let (seq, rest) = split_seq("status");
    assert_eq!((seq, rest), (None, "status"));
    let reply = wrap(seq, "{\"ok\":true,\"result\":{}}");
    assert!(reply.contains("\"seq\":null"), "{reply}");
}

#[test]
fn the_panel_verbs_move_the_control_state() {
    let mut c = Control::new();
    handle(&mut c, "pacing free");
    assert_eq!(c.pacing, Pacing::FreeRunning);
    handle(&mut c, "buffer 32");
    assert_eq!(c.buffer, 32);
    handle(&mut c, "play");
    assert!(c.running);
    handle(&mut c, "pause");
    assert!(!c.running);
    handle(&mut c, "step");
    assert_eq!(c.steps_owed, 1);
    handle(&mut c, "treedepth 2");
    assert_eq!(c.quote_depth, 2);
    // Out-of-range values are refused rather than clamped silently.
    let reply = handle(&mut c, "buffer 0");
    assert!(reply.contains("bad-argument"), "{reply}");
    assert_eq!(c.buffer, 32);
}

#[test]
fn a_deploy_payload_survives_the_seq_prefix() {
    let (seq, rest) = split_seq("#7 deploy\n@{Nil}!(Nil)");
    assert_eq!(seq, Some(7));
    assert_eq!(rest, "deploy\n@{Nil}!(Nil)");
    let r = parse_request(rest);
    assert_eq!(r.cmd, "deploy");
    assert!(r.args.is_empty());
    assert_eq!(r.verb, Verb::Executive);
}

#[test]
fn a_malformed_prefix_is_part_of_the_request() {
    assert_eq!(split_seq("#x status"), (None, "#x status"));
    assert_eq!(split_seq("#12"), (None, "#12"));
    assert_eq!(split_seq("#+5 ping"), (Some(5), "ping"));
    assert_eq!(split_seq("#18446744073709551616 ping"), (None, "#18446744073709551616 ping"));
    assert_eq!(split_seq("# ping"), (None, "# ping"));
    assert_eq!(split_seq(""), (None, ""));
}

#[test]
fn requests_are_read_word_by_word() {
    let r = parse_request("  cores   4  8 \nrest of the body");
    assert_eq!(r.cmd, "cores");
    assert_eq!(r.args, vec!["4", "8"]);
    let r = parse_request("");
    assert_eq!(r.cmd, "");
    assert_eq!(r.verb, Verb::Executive);
    for (w, v) in [
        ("attach", Verb::Attach),
        ("ping", Verb::Ping),
        ("pacing", Verb::Pacing),
        ("buffer", Verb::Buffer),
        ("ack", Verb::Ack),
        ("play", Verb::Play),
        ("pause", Verb::Pause),
        ("step", Verb::Step),
        ("treedepth", Verb::TreeDepth),
        ("resend", Verb::Resend),
        ("reset", Verb::Reset),
        ("bye", Verb::Bye),
        ("Bye", Verb::Executive),
        ("wobble", Verb::Executive),
    ] {
        assert_eq!(verb(w), v, "{w}");
    }
    assert!(matches!(after(Verb::Ping), After::Continue));
}

#[test]
fn the_pacing_state_is_reported_exactly() {
    let c = Control::new();
    assert_eq!(
        pacing_state(&c),
        "{\"pacing\":\"lockstep\",\"running\":false,\"round\":0,\"inFlight\":0,\"buffer\":1,\"admissionOpen\":true,\"quoteDepth\":4}"
    );
    let mut c = Control::new();
    let reply = panel(&mut c, Verb::Pacing, Some("free-running"));
    assert_eq!(
        reply,
        "{\"ok\":true,\"result\":{\"pacing\":\"free-running\",\"running\":false,\"round\":0,\"inFlight\":0,\"buffer\":128,\"admissionOpen\":true,\"quoteDepth\":4}}"
    );
}

#[test]
fn refused_arguments_change_nothing() {
    let mut c = Control::new();
    let reply = panel(&mut c, Verb::Pacing, Some("sideways"));
    assert_eq!(
        reply,
        "{\"ok\":false,\"diags\":[{\"lo\":0,\"hi\":0,\"code\":\"bad-argument\",\"message\":\"pacing takes `lockstep` or `free`\"}]}"
    );
    assert_eq!(c.pacing, Pacing::Lockstep);
    let reply = panel(&mut c, Verb::Buffer, Some("1025"));
    assert!(reply.contains("buffer takes 1..1024 rounds"), "{reply}");
    let reply = panel(&mut c, Verb::Buffer, None);
    assert!(reply.contains("bad-argument"), "{reply}");
    assert_eq!(c.buffer, 128);
    panel(&mut c, Verb::Buffer, Some("1024"));
    assert_eq!(c.buffer, 1024);
}

#[test]
fn treedepth_refuses_past_sixteen_and_defaults_to_four() {
    let mut c = Control::new();
    panel(&mut c, Verb::TreeDepth, Some("16"));
    assert_eq!(c.quote_depth, 16);
    let reply = panel(&mut c, Verb::TreeDepth, Some("99"));
    assert_eq!(
        reply,
        "{\"ok\":false,\"diags\":[{\"lo\":0,\"hi\":0,\"code\":\"bad-argument\",\"message\":\"treedepth takes 0..16 quotation levels\"}]}"
    );
    assert_eq!(c.quote_depth, 16);
    panel(&mut c, Verb::TreeDepth, Some("nope"));
    assert_eq!(c.quote_depth, 4);
    panel(&mut c, Verb::TreeDepth, Some("0"));
    assert_eq!(c.quote_depth, 0);
    let reply = panel(&mut c, Verb::TreeDepth, Some("17"));
    assert!(reply.contains("bad-argument"), "{reply}");
    assert_eq!(c.quote_depth, 0);
}

#[test]
fn an_ack_through_the_panel_releases_rounds() {
    let mut c = Control::new();
    c.round = 4;
    c.in_flight = 3;
    panel(&mut c, Verb::Ack, Some("2"));
    assert_eq!(c.in_flight, 2);
    // An ack without a number names round zero, which releases nothing.
    panel(&mut c, Verb::Ack, None);
    assert_eq!(c.in_flight, 2);
    panel(&mut c, Verb::Ack, Some("99"));
    assert_eq!(c.in_flight, 0);
}

#[test]
fn steps_accumulate_and_pause_forgets_them() {
    let mut c = Control::new();
    panel(&mut c, Verb::Step, None);
    panel(&mut c, Verb::Step, None);
    assert_eq!(c.steps_owed, 2);
    assert!(c.wants_to_advance());
    panel(&mut c, Verb::Pause, None);
    assert_eq!(c.steps_owed, 0);
    assert!(!c.wants_to_advance());
}

#[test]
fn fixed_replies_are_exact() {
    assert_eq!(fixed_reply(Verb::Ping), "{\"ok\":true,\"result\":{\"pong\":true}}");
    assert_eq!(fixed_reply(Verb::Resend), "{\"ok\":true,\"result\":{\"resent\":true}}");
    assert_eq!(fixed_reply(Verb::Reset), "{\"ok\":true,\"result\":{\"reset\":true}}");
    assert_eq!(fixed_reply(Verb::Bye), "{\"ok\":true,\"result\":{\"bye\":true}}");
    assert_eq!(ok("1"), "{\"ok\":true,\"result\":1}");
}

#[test]
fn attach_arguments_are_checked() {
    assert!(check_attach_arg(Some("headset-1.a_b")).is_none());
    let e = check_attach_arg(None).unwrap();
    assert!(e.contains("attach takes a session id of 1..128 characters"), "{e}");
    let e = check_attach_arg(Some("")).unwrap();
    assert!(e.contains("1..128"), "{e}");
    let long = "x".repeat(129);
    assert!(check_attach_arg(Some(&long)).unwrap().contains("1..128"));
    assert!(check_attach_arg(Some(&"x".repeat(128))).is_none());
    let e = check_attach_arg(Some("a/b")).unwrap();
    assert!(e.contains("a session id may use letters, digits"), "{e}");
    assert_eq!(
        attached_reply("t", 8, 3, Pacing::FreeRunning, false),
        "{\"ok\":true,\"result\":{\"session\":\"t\",\"coresMax\":8,\"round\":3,\"pacing\":\"free-running\",\"closing\":false}}"
    );
}

#[test]
fn the_scene_follows_a_successful_change() {
    assert!(scene_follows("deploy", "{\"ok\":true,\"result\":1}"));
    assert!(scene_follows("tick", "{\"ok\":true"));
    assert!(!scene_follows("run", "{\"ok\":false}"));
    assert!(!scene_follows("status", "{\"ok\":true}"));
    assert!(stats_follows("cores"));
    assert!(!stats_follows("core"));
}

#[test]
fn json_strings_are_escaped() {
    assert_eq!(esc("a\"b\\c\nd\re\tf\u{1}g\u{1f}é"), "a\\\"b\\\\c\\nd\\re\\tf\\u0001g\\u001fé");
    let mut b = Buf::new();
    b.raw("{");
    b.field_str("k", "v\"");
    b.comma();
    b.field_num("n", 18446744073709551615);
    b.comma();
    b.field_bool("b", false);
    b.comma();
    b.field_raw("r", "null");
    b.raw("}");
    assert_eq!(b.len(), b.as_str().len());
    assert!(!b.is_empty());
    assert_eq!(
        b.into_string(),
        "{\"k\":\"v\\\"\",\"n\":18446744073709551615,\"b\":false,\"r\":null}"
    );
    assert!(Buf::new().is_empty());
}

#[test]
fn frames_carry_their_tag() {
    assert_eq!(frame("ping", ""), "{\"t\":\"ping\"}");
    assert_eq!(frame("x", ",\"a\":1"), "{\"t\":\"x\",\"a\":1}");
    assert_eq!(
        error_frame("evicted", "one \"client\""),
        "{\"t\":\"error\",\"code\":\"evicted\",\"message\":\"one \\\"client\\\"\"}"
    );
    assert_eq!(push_error("c", "m"), error_frame("c", "m"));
}

#[test]
fn requests_are_routed_by_verb_and_session() {
    assert_eq!(route(Verb::Attach, false), Route::Attach);
    assert_eq!(route(Verb::Attach, true), Route::Attach);
    assert_eq!(route(Verb::Bye, false), Route::NoSession);
    assert_eq!(route(Verb::Executive, false), Route::NoSession);
    assert_eq!(route(Verb::Bye, true), Route::Bye);
    assert_eq!(route(Verb::TreeDepth, true), Route::Panel);
    assert_eq!(route(Verb::Ping, true), Route::Ping);
    assert_eq!(route(Verb::Resend, true), Route::Resend);
    assert_eq!(route(Verb::Reset, true), Route::Reset);
    assert_eq!(route(Verb::Executive, true), Route::Executive);
    assert_eq!(attach_case(Some("t"), "t"), AttachCase::Same);
    assert_eq!(attach_case(Some("t"), "u"), AttachCase::Other);
    assert_eq!(attach_case(None, "t"), AttachCase::Unbound);
}
