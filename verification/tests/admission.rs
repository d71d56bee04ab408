use f1r3x_serve::session::{Control, Pacing};

fn admission(pacing: Pacing, buffer: u64, in_flight: u64) -> bool {
    let mut c = Control::new();
    c.pacing = pacing;
    c.buffer = buffer;
    c.in_flight = in_flight;
    c.admission_open()
}

#[test]
fn lockstep_is_free_running_with_a_buffer_of_one() {
    assert!(admission(Pacing::Lockstep, 128, 0));
    assert!(!admission(Pacing::Lockstep, 128, 1));
    assert!(admission(Pacing::FreeRunning, 1, 0));
    assert!(!admission(Pacing::FreeRunning, 1, 1));
}

#[test]
fn free_running_admits_up_to_the_buffer_bound_and_no_further() {
    assert!(admission(Pacing::FreeRunning, 4, 3));
    assert!(!admission(Pacing::FreeRunning, 4, 4));
    assert!(!admission(Pacing::FreeRunning, 4, 9));
}

#[test]
fn an_ack_frees_exactly_the_rounds_it_names() {
    let mut c = Control::new();
    c.pacing = Pacing::FreeRunning;
    c.buffer = 8;
    c.round = 5;
    c.in_flight = 5;
    // "I have finished animating everything through round 3."
    c.ack(3);
    assert_eq!(c.in_flight, 2);
    c.ack(5);
    assert_eq!(c.in_flight, 0);
    // A duplicate ack after a reconnect cannot push it below zero.
    c.ack(3);
    assert_eq!(c.in_flight, 0);
}
