use harmonium::relay::SampleRelay;
use harmonium::relay::SensorMsg;
use harmonium::relay::SensorSample;

fn sample(bits: u32, t: u64) -> SensorSample {
    SensorSample {
        theta_deg_bits: bits,
        source: "hinge".to_string(),
        t_micros: t,
    }
}

#[test]
fn drain_keeps_the_latest_of_each_kind() {
    let mut relay = SampleRelay::new();
    relay.drain(vec![
        SensorMsg::Status("A".to_string()),
        SensorMsg::Status("B".to_string()),
        SensorMsg::Sample(sample(17, 5)),
    ]);
    assert_eq!(relay.latest_status().map(String::as_str), Some("B"));
    assert!(relay.latest_error().is_none());
    let s = relay.latest_sample().unwrap();
    assert_eq!(s.theta_deg_bits, 17);
    assert_eq!(s.t_micros, 5);
    assert_eq!(s.source, "hinge");
}

#[test]
fn slots_update_independently() {
    let mut relay = SampleRelay::new();
    relay.absorb(SensorMsg::Error("device lost".to_string()));
    relay.absorb(SensorMsg::Sample(sample(1, 1)));
    // The sample did not clear the error.
    assert_eq!(
        relay.latest_error().map(String::as_str),
        Some("device lost")
    );
    relay.absorb(SensorMsg::Status("reconnected".to_string()));
    // The status did not remove the last known sample or the error text.
    assert_eq!(relay.latest_sample().unwrap().theta_deg_bits, 1);
    assert_eq!(
        relay.latest_error().map(String::as_str),
        Some("device lost")
    );
    assert_eq!(relay.latest_status().map(String::as_str), Some("reconnected"));
}

#[test]
fn a_newer_sample_supersedes_an_older_one() {
    let mut relay = SampleRelay::new();
    relay.drain(vec![
        SensorMsg::Sample(sample(1, 1)),
        SensorMsg::Sample(sample(2, 2)),
        SensorMsg::Sample(sample(3, 3)),
    ]);
    assert_eq!(relay.latest_sample().unwrap().theta_deg_bits, 3);
}

#[test]
fn an_empty_drain_is_a_no_op() {
    let mut relay = SampleRelay::new();
    relay.absorb(SensorMsg::Status("up".to_string()));
    relay.drain(Vec::new());
    assert_eq!(relay.latest_status().map(String::as_str), Some("up"));
    assert!(relay.latest_error().is_none());
    assert!(relay.latest_sample().is_none());
}

#[test]
fn a_fresh_relay_has_empty_slots() {
    let relay = SampleRelay::new();
    assert!(relay.latest_status().is_none());
    assert!(relay.latest_error().is_none());
    assert!(relay.latest_sample().is_none());
}

#[test]
fn later_batches_supersede_earlier_ones() {
    let mut relay = SampleRelay::new();
    relay.drain(vec![
        SensorMsg::Status("connecting".to_string()),
        SensorMsg::Error("timeout".to_string()),
    ]);
    relay.drain(vec![SensorMsg::Status("connected".to_string())]);
    assert_eq!(relay.latest_status().map(String::as_str), Some("connected"));
    // The earlier error stays until an error message replaces it.
    assert_eq!(relay.latest_error().map(String::as_str), Some("timeout"));
}
