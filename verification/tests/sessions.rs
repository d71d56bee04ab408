use f1r3x_serve::registry::keep_reading;
use std::sync::{Arc, Mutex};
use std::time::{Duration, Instant};

use f1r3x_serve::driver::{next_step, Step};
use f1r3x_serve::proto::{after, verb, After, Verb};
use f1r3x_serve::registry::{Link, Registry};
use f1r3x_serve::session::Control;

type Shared = Arc<Mutex<Control>>;

fn fresh() -> Shared {
    Arc::new(Mutex::new(Control::new()))
}

fn registry(ttl: Duration) -> Registry<Shared> {
    Registry::new(4, ttl.as_nanos())
}

#[test]
fn a_detached_session_is_not_advanced() {
    // A round nobody can see would never be acknowledged, so the driver must
    // not admit one. This is what makes a resume pick up where it stopped.
    let mut reg = registry(Duration::from_secs(60));
    reg.open("t", fresh);
    let s = reg.get("t").unwrap().clone();
    s.lock().unwrap().running = true;
    let link = Link::new();
    assert!(!link.attached());
    let c = s.lock().unwrap();
    assert_eq!(next_step(false, &c, false, link.attached(), false), Step::Wait);
}

#[test]
fn a_session_is_resumed_by_name_not_reissued() {
    let mut reg = registry(Duration::from_secs(60));
    let existed = reg.open("headset-1", fresh);
    assert!(!existed);
    let a = reg.get("headset-1").unwrap().clone();
    a.lock().unwrap().round = 17;
    let existed = reg.open("headset-1", fresh);
    assert!(existed);
    let b = reg.get("headset-1").unwrap().clone();
    assert_eq!(b.lock().unwrap().round, 17);
    assert!(Arc::ptr_eq(&a, &b));
}

#[test]
fn a_detached_session_expires() {
    let mut reg = registry(Duration::from_millis(1));
    reg.open("gone", fresh);
    let detached_at = Instant::now();
    while detached_at.elapsed() < Duration::from_millis(20) {}
    let idle = vec![Some(detached_at.elapsed().as_nanos())];
    assert_eq!(reg.reap(&idle), vec!["gone".to_string()]);
    assert!(reg.is_empty());
}

#[test]
fn bye_destroys_the_session() {
    let mut reg = registry(Duration::from_secs(60));
    reg.open("t", fresh);
    let v = verb("bye");
    assert_eq!(v, Verb::Bye);
    assert!(matches!(after(v), After::Close));
    assert!(reg.remove("t").is_some());
    assert!(reg.get("t").is_none());
}

#[test]
fn ids_come_out_in_order_of_their_bytes() {
    let mut reg = registry(Duration::from_secs(60));
    for id in ["zeta", "alpha", "Beta", "alpha2", "a"] {
        assert!(!reg.open(id, fresh));
    }
    assert_eq!(reg.len(), 5);
    assert_eq!(reg.ids(), vec!["Beta", "a", "alpha", "alpha2", "zeta"]);
    assert!(reg.open("alpha", fresh));
    assert_eq!(reg.len(), 5);
}

#[test]
fn removing_an_unknown_session_changes_nothing() {
    let mut reg = registry(Duration::from_secs(60));
    reg.open("one", fresh);
    assert!(reg.remove("two").is_none());
    assert_eq!(reg.ids(), vec!["one"]);
    assert!(reg.remove("one").is_some());
    assert!(reg.is_empty());
    assert!(reg.remove("one").is_none());
}

#[test]
fn reaping_drops_only_sessions_detached_past_the_ttl() {
    let mut reg = registry(Duration::from_secs(60));
    for id in ["a", "b", "c", "d"] {
        reg.open(id, fresh);
    }
    let ttl = Duration::from_secs(60).as_nanos();
    // a: attached; b: detached exactly the ttl; c: past it; d: briefly.
    let idle = vec![None, Some(ttl), Some(ttl + 1), Some(5)];
    assert_eq!(reg.reap(&idle), vec!["c".to_string()]);
    assert_eq!(reg.ids(), vec!["a", "b", "d"]);
    assert_eq!(reg.ttl_nanos(), ttl);
    assert_eq!(reg.cores_max(), 4);
}

#[test]
fn a_second_connection_evicts_the_first() {
    let mut l = Link::new();
    let (first, evicted) = l.attach();
    assert_eq!((first, evicted), (1, false));
    assert!(l.attached());
    let (second, evicted) = l.attach();
    assert_eq!((second, evicted), (2, true));
    // The evicted reader's late detach changes nothing.
    assert!(!l.detach(first));
    assert!(l.attached());
    assert_eq!(l.owner, Some(second));
    // The owner's own detach lets go, and keeps the epoch.
    assert!(l.detach(second));
    assert!(!l.attached());
    assert_eq!(l.epoch, 2);
    assert!(!l.detach(second));
}

#[test]
fn an_evicted_reader_stops() {
    let mut l = Link::new();
    let (first, _) = l.attach();
    assert!(keep_reading(&l, first, false));
    assert!(!keep_reading(&l, first, true));
    let (second, _) = l.attach();
    assert!(!keep_reading(&l, first, false));
    assert!(keep_reading(&l, second, false));
}

#[test]
fn a_reconnect_within_the_ttl_resumes_the_same_session() {
    let mut reg = registry(Duration::from_secs(60));
    reg.open("e2e-resume", fresh);
    let before = reg.get("e2e-resume").unwrap().clone();
    before.lock().unwrap().round = 1;
    // Detached for 150 ms, well within the time to live.
    let idle = vec![Some(Duration::from_millis(150).as_nanos())];
    assert!(reg.reap(&idle).is_empty());
    assert!(reg.open("e2e-resume", fresh));
    let after = reg.get("e2e-resume").unwrap().clone();
    assert!(Arc::ptr_eq(&before, &after));
    assert_eq!(after.lock().unwrap().round, 1);
}
