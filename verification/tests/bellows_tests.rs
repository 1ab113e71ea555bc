use harmonium::bellows::BellowsAction;
use harmonium::bellows::BellowsCore;

#[test]
fn first_update_holds_and_keeps_zero_memory() {
    let mut core = BellowsCore::new();
    let theta = 12.5f32.to_bits();
    assert_eq!(core.begin_update(theta, 1_000), BellowsAction::Hold);
    // A brand-new engine reports amplitude zero, preserved, not recomputed.
    assert_eq!(core.a_bits(), 0);
    assert_eq!(core.speed_smooth_bits(), 0);
}

#[test]
fn second_sample_asks_for_a_step_over_the_elapsed_time() {
    let mut core = BellowsCore::new();
    let theta0 = 10.0f32.to_bits();
    let theta1 = 11.0f32.to_bits();
    assert_eq!(core.begin_update(theta0, 1_000), BellowsAction::Hold);
    assert_eq!(
        core.begin_update(theta1, 17_000),
        BellowsAction::Step {
            prev_theta_bits: theta0,
            dt_micros: 16_000,
        }
    );
}

#[test]
fn tiny_dt_holds_and_does_not_advance_the_previous_sample() {
    let mut core = BellowsCore::new();
    let theta0 = 10.0f32.to_bits();
    let theta1 = 20.0f32.to_bits();
    let theta2 = 30.0f32.to_bits();
    assert_eq!(core.begin_update(theta0, 1_000), BellowsAction::Hold);
    // Same timestamp, and one microsecond later: both skipped.
    assert_eq!(core.begin_update(theta1, 1_000), BellowsAction::Hold);
    assert_eq!(core.begin_update(theta1, 1_001), BellowsAction::Hold);
    // The next valid step still measures from the first sample.
    assert_eq!(
        core.begin_update(theta2, 2_000),
        BellowsAction::Step {
            prev_theta_bits: theta0,
            dt_micros: 1_000,
        }
    );
}

#[test]
fn commit_stores_the_memory_and_advances_the_sample() {
    let mut core = BellowsCore::new();
    let theta0 = 10.0f32.to_bits();
    let theta1 = 11.0f32.to_bits();
    core.begin_update(theta0, 0);
    let a = 0.25f32.to_bits();
    let speed = 31.4f32.to_bits();
    core.commit_step(theta1, 16_000, speed, a);
    assert_eq!(core.a_bits(), a);
    assert_eq!(core.speed_smooth_bits(), speed);
    assert_eq!(
        core.begin_update(theta0, 32_000),
        BellowsAction::Step {
            prev_theta_bits: theta1,
            dt_micros: 16_000,
        }
    );
    // A tiny-dt hold preserves the committed amplitude rather than zeroing
    // it: a hold frame reports the last known amplitude.
    assert_eq!(core.begin_update(theta0, 16_001), BellowsAction::Hold);
    assert_eq!(core.a_bits(), a);
}

#[test]
fn reset_behaves_like_a_fresh_engine() {
    let mut used = BellowsCore::new();
    used.begin_update(10.0f32.to_bits(), 1_000);
    used.commit_step(11.0f32.to_bits(), 17_000, 31.4f32.to_bits(), 0.25f32.to_bits());
    used.reset();

    let mut fresh = BellowsCore::new();

    // The same input sequence now produces the same actions and memory.
    let theta = 5.0f32.to_bits();
    assert_eq!(
        used.begin_update(theta, 500),
        fresh.begin_update(theta, 500)
    );
    assert_eq!(used.a_bits(), fresh.a_bits());
    assert_eq!(used.speed_smooth_bits(), fresh.speed_smooth_bits());
    let theta2 = 6.0f32.to_bits();
    assert_eq!(
        used.begin_update(theta2, 10_500),
        fresh.begin_update(theta2, 10_500)
    );
}
