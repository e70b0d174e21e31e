use video_effects_processor::spring::{
    apply_physics_filter, integrate_axis_step, substeps_for, SpringParams,
};
use video_effects_processor::types::{CPoint, PathPoint};

const PX: i64 = 65536;

fn pt(x: f64, y: f64, ms: f64) -> CPoint {
    CPoint {
        x: (x * 65536.0).round() as i64,
        y: (y * 65536.0).round() as i64,
        timestamp_us: (ms * 1000.0).round() as i64,
    }
}

#[test]
fn perceptual_parameters_map_to_the_spring() {
    assert_eq!(
        SpringParams::from_perceptual(0, 0),
        SpringParams {
            settling_us: 400_000,
            damping_milli: 700,
            omega: 936_228
        }
    );
    assert_eq!(
        SpringParams::from_perceptual(65536, 65536),
        SpringParams {
            settling_us: 60_000,
            damping_milli: 1500,
            omega: 2_912_711
        }
    );
    assert_eq!(
        SpringParams::from_perceptual(32768, 45875),
        SpringParams {
            settling_us: 230_000,
            damping_milli: 1259,
            omega: 905_287
        }
    );
}

#[test]
fn perceptual_parameters_are_clamped_to_one() {
    assert_eq!(
        SpringParams::from_perceptual(70_000, 99_999),
        SpringParams::from_perceptual(65536, 65536)
    );
    assert_eq!(
        SpringParams::from_perceptual(u32::MAX, 0),
        SpringParams::from_perceptual(65536, 0)
    );
}

#[test]
fn settling_time_falls_with_responsiveness() {
    let mut last = SpringParams::from_perceptual(0, 0).settling_us;
    let mut r = 4096;
    while r <= 65536 {
        let now = SpringParams::from_perceptual(r, 0).settling_us;
        assert!(now < last);
        assert!(60_000 <= now && now <= 400_000);
        last = now;
        r += 4096;
    }
}

#[test]
fn one_step_updates_the_velocity_first() {
    let params = SpringParams::from_perceptual(32768, 45875);
    let first = integrate_axis_step(&params, 0, 0, 100 * PX, 16_666, 13);
    assert_eq!(first, (2055, 1_603_174));
    let second = integrate_axis_step(&params, first.0, first.1, 100 * PX, 16_666, 13);
    assert_eq!(second, (6073, 3_134_357));
}

#[test]
fn a_step_without_time_changes_nothing() {
    let params = SpringParams::from_perceptual(32768, 45875);
    assert_eq!(integrate_axis_step(&params, 5, 7, 100 * PX, 0, 1), (5, 7));
}

#[test]
fn a_step_saturates() {
    let params = SpringParams::from_perceptual(65536, 0);
    let limit: i64 = 1 << 36;
    let velocity_limit: i64 = 1 << 40;
    // The damping of an hour-long step throws the velocity to its limit,
    // and the position with it.
    assert_eq!(
        integrate_axis_step(&params, limit, velocity_limit, limit, 1 << 52, 1),
        (-limit, -velocity_limit)
    );
    assert_eq!(
        integrate_axis_step(&params, -limit, -velocity_limit, limit, 1 << 53, 1),
        (limit, velocity_limit)
    );
}

#[test]
fn substeps_follow_the_frame_rate_and_the_frequency() {
    let params = SpringParams::from_perceptual(32768, 45875);
    assert_eq!(substeps_for(&params, 0, 60), 1);
    assert_eq!(substeps_for(&params, 16_666, 60), 2);
    assert_eq!(substeps_for(&params, 5_000_000, 60), 553);
    // At a high frame rate the frames ask for more steps than the spring.
    assert_eq!(substeps_for(&params, 1_000_000, 3000), 1500);
    assert_eq!(substeps_for(&params, 1_000_000, -3), 111);
    let snappy = SpringParams::from_perceptual(65536, 0);
    assert_eq!(substeps_for(&snappy, 16_667, 60), 13);
}

#[test]
fn substeps_keep_frequency_times_step_below_an_eighth() {
    let params = SpringParams::from_perceptual(32768, 45875);
    let dt: i64 = 5_000_000;
    let n = substeps_for(&params, dt, 60) as i128;
    // omega * h <= 1/8, with omega in 1/65536 rad/s and h = dt / n in microseconds.
    assert!((params.omega as i128) * (dt as i128) * 8 <= n * 65536 * 1_000_000);
}

#[test]
fn follower_emits_one_point_for_each_target() {
    let targets = vec![pt(0.0, 0.0, 0.0), pt(100.0, 0.0, 100.0), pt(100.0, 50.0, 200.0)];
    let path = apply_physics_filter(&targets, 32768, 45875, 60);
    assert_eq!(
        path,
        vec![
            PathPoint::with_velocity(0, 0, 0, 0, 0),
            PathPoint::with_velocity(2_497_731, 0, 100_000, 25_835_717, 0),
            PathPoint::with_velocity(4_422_565, 1_248_863, 200_000, 14_261_323, 12_917_866),
        ]
    );
}

#[test]
fn follower_keeps_length_and_timestamps() {
    let mut targets = Vec::new();
    for i in 0..200i64 {
        targets.push(CPoint {
            x: (i * 7 % 300) * PX,
            y: (i * 13 % 200) * PX,
            timestamp_us: i * 16_667,
        });
    }
    let path = apply_physics_filter(&targets, 40_000, 20_000, 60);
    assert_eq!(path.len(), targets.len());
    for (p, t) in path.iter().zip(targets.iter()) {
        assert_eq!(p.timestamp_us, t.timestamp_us);
    }
    assert!(apply_physics_filter(&[], 0, 0, 60).is_empty());
    let single = apply_physics_filter(&targets[3..4], 0, 0, 60);
    assert_eq!(single, vec![PathPoint::from(targets[3])]);
}

#[test]
fn follower_at_rest_on_its_target_does_not_drift() {
    let mut targets = Vec::new();
    for i in 0..50i64 {
        targets.push(CPoint {
            x: 100 * PX,
            y: 100 * PX,
            timestamp_us: i * 20_000,
        });
    }
    for point in apply_physics_filter(&targets, 32768, 45875, 60) {
        assert_eq!((point.x, point.y, point.vx, point.vy), (100 * PX, 100 * PX, 0, 0));
    }
}

#[test]
fn follower_settles_on_a_target_that_stops() {
    let mut targets = vec![pt(0.0, 0.0, 0.0)];
    for i in 1..240i64 {
        targets.push(CPoint {
            x: 100 * PX,
            y: -40 * PX,
            timestamp_us: i * 16_667,
        });
    }
    let path = apply_physics_filter(&targets, 65536, 65536, 60);
    let last = path[path.len() - 1];
    assert!((last.x - 100 * PX).abs() < PX / 10);
    assert!((last.y + 40 * PX).abs() < PX / 10);
    assert!(last.vx.abs() < PX && last.vy.abs() < PX);
}

#[test]
fn follower_crosses_a_gap_of_five_seconds() {
    let targets = vec![pt(0.0, 0.0, 0.0), pt(1000.0, 500.0, 5000.0)];
    let path = apply_physics_filter(&targets, 32768, 45875, 60);
    assert_eq!(path.len(), 2);
    let last = path[1];
    // After more than twenty settling times the follower has arrived.
    assert!((last.x - 1000 * PX).abs() < PX);
    assert!((last.y - 500 * PX).abs() < PX);
    assert!(last.vx.abs() < PX && last.vy.abs() < PX);
}

#[test]
fn follower_ignores_time_that_goes_back() {
    let targets = vec![pt(0.0, 0.0, 100.0), pt(50.0, 50.0, 40.0)];
    let path = apply_physics_filter(&targets, 32768, 45875, 60);
    assert_eq!(path[1], PathPoint::with_velocity(0, 0, 40_000, 0, 0));
}

#[test]
fn substeps_can_reach_an_eighth_exactly() {
    // Eight times the frequency times five seconds is a whole number here.
    let params = SpringParams::from_perceptual(64_880, 0);
    assert_eq!(params.omega, 5_906_432);
    let dt: i64 = 5_000_000;
    let n = substeps_for(&params, dt, 60);
    assert_eq!(n, 3605);
    assert_eq!((params.omega as i128) * (dt as i128) * 8, (n as i128) * 65536 * 1_000_000);
}
