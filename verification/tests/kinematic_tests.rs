use video_effects_processor::arc_length::ArcLengthTable;
use video_effects_processor::kinematic::{
    distance_along_profile, generate_kinematic_targets, solve_peak_velocity, solve_ramp_time,
};
use video_effects_processor::spline::smooth_cursor_path_internal;
use video_effects_processor::types::CPoint;

const PX: i64 = 65536;

fn pt(x: f64, y: f64, ms: f64) -> CPoint {
    CPoint {
        x: (x * 65536.0).round() as i64,
        y: (y * 65536.0).round() as i64,
        timestamp_us: (ms * 1000.0).round() as i64,
    }
}

fn raw(x: i64, y: i64, timestamp_us: i64) -> CPoint {
    CPoint { x, y, timestamp_us }
}

fn targets_for(anchors: &[CPoint], frame_rate: i32) -> Vec<CPoint> {
    let spline = smooth_cursor_path_internal(anchors, frame_rate, 32768);
    let table = ArcLengthTable::build(&spline);
    generate_kinematic_targets(&spline, &table, anchors, frame_rate)
}

#[test]
fn peak_velocity_without_a_root_is_half_the_ramp_speed() {
    // 500 px in half a second: (a dt)^2 < 4 a ds, so v = a dt / 2 = 1000 px/s.
    assert_eq!(solve_peak_velocity(500 * PX, 500_000), 1000 * PX);
    assert_eq!(solve_ramp_time(500 * PX, 500_000), 250_000);
}

#[test]
fn peak_velocity_is_the_smaller_root() {
    // 100 px in two seconds: (8000 - sqrt(64e6 - 1.6e6)) / 2 = 50.3 px/s.
    assert_eq!(solve_peak_velocity(100 * PX, 2_000_000), 3297540);
    assert_eq!(solve_ramp_time(100 * PX, 2_000_000), 12579);
    assert_eq!(solve_peak_velocity(5000 * PX, 5_000_000), 69188196);
    assert_eq!(solve_ramp_time(5000 * PX, 5_000_000), 263932);
}

#[test]
fn peak_velocity_is_capped() {
    // 20000 px in ten seconds would take 2111 px/s.
    assert_eq!(solve_peak_velocity(20000 * PX, 10_000_000), 1800 * PX);
    assert_eq!(solve_ramp_time(20000 * PX, 10_000_000), 450_000);
}

#[test]
fn peak_velocity_of_degenerate_segments() {
    assert_eq!(solve_peak_velocity(0, 500_000), 0);
    assert_eq!(solve_ramp_time(0, 500_000), 0);
    assert_eq!(solve_peak_velocity(100 * PX, 0), 0);
    assert_eq!(solve_peak_velocity(PX, 1), 131);
    assert_eq!(solve_ramp_time(PX, 1), 0);
}

#[test]
fn profile_covers_the_way_exactly() {
    let ds = 500 * PX;
    let dt = 500_000;
    let t_acc = solve_ramp_time(ds, dt);
    assert_eq!(distance_along_profile(ds, dt, t_acc, 0), 0);
    assert_eq!(distance_along_profile(ds, dt, t_acc, 16_666), 72811);
    assert_eq!(distance_along_profile(ds, dt, t_acc, 125_000), 4_096_000);
    assert_eq!(distance_along_profile(ds, dt, t_acc, 250_000), 16_384_000);
    assert_eq!(distance_along_profile(ds, dt, t_acc, 483_333), 32_695_179);
    assert_eq!(distance_along_profile(ds, dt, t_acc, dt), ds);
}

#[test]
fn profile_with_a_cruise_has_three_phases() {
    let ds = 5000 * PX;
    let dt = 5_000_000;
    let t_acc = solve_ramp_time(ds, dt);
    assert_eq!(distance_along_profile(ds, dt, t_acc, 0), 0);
    assert_eq!(distance_along_profile(ds, dt, t_acc, dt / 4), 77_354_755);
    assert_eq!(distance_along_profile(ds, dt, t_acc, dt / 2), 163_840_000);
    assert_eq!(distance_along_profile(ds, dt, t_acc, dt), ds);
    let mut last = 0;
    let mut t = 0;
    while t <= dt {
        let s = distance_along_profile(ds, dt, t_acc, t);
        assert!(last <= s && s <= ds);
        last = s;
        t += 10_007;
    }
}

#[test]
fn profile_without_ramps_is_linear() {
    assert_eq!(distance_along_profile(1000, 10, 0, 3), 300);
    assert_eq!(distance_along_profile(1000, 10, 0, 10), 1000);
    assert_eq!(distance_along_profile(1000, 0, 0, 0), 0);
}

#[test]
fn targets_on_a_straight_line() {
    let anchors = vec![
        pt(0.0, 0.0, 0.0),
        pt(500.0, 0.0, 500.0),
        pt(1000.0, 0.0, 1000.0),
        pt(1500.0, 0.0, 1500.0),
    ];
    let targets = targets_for(&anchors, 60);
    assert_eq!(targets.len(), 1 + 3 * 30);
    assert_eq!(targets[0], anchors[0]);
    assert_eq!(targets[1], raw(72811, 0, 16_666));
    assert_eq!(targets[15], raw(16_384_000, 0, 250_000));
    assert_eq!(targets[30], anchors[1]);
    assert_eq!(targets[31], raw(32_840_811, 0, 516_666));
    assert_eq!(targets[60], anchors[2]);
    assert_eq!(targets[90], anchors[3]);
}

#[test]
fn targets_never_go_back_in_time() {
    let anchors = vec![
        pt(0.0, 0.0, 0.0),
        pt(100.0, 0.0, 100.0),
        pt(200.0, 0.0, 200.0),
        pt(200.0, 100.0, 400.0),
        pt(200.0, 200.0, 600.0),
    ];
    let targets = targets_for(&anchors, 60);
    for pair in targets.windows(2) {
        assert!(pair[0].timestamp_us <= pair[1].timestamp_us);
    }
}

#[test]
fn targets_hold_every_anchor() {
    let anchors = vec![
        pt(0.0, 0.0, 0.0),
        pt(100.0, 0.0, 100.0),
        pt(200.0, 0.0, 200.0),
        pt(200.0, 100.0, 400.0),
        pt(200.0, 200.0, 600.0),
    ];
    let targets = targets_for(&anchors, 60);
    // 5, 5, 11 and 11 frames inside the four segments.
    assert_eq!(targets.len(), 1 + 6 + 6 + 12 + 12);
    assert_eq!(targets[0], anchors[0]);
    assert_eq!(targets[6], anchors[1]);
    assert_eq!(targets[12], anchors[2]);
    assert_eq!(targets[24], anchors[3]);
    assert_eq!(targets[36], anchors[4]);
}

#[test]
fn targets_of_a_resting_cursor_stay_on_the_spot() {
    let anchors = vec![
        pt(100.0, 100.0, 0.0),
        pt(100.0, 100.0, 500.0),
        pt(100.0, 100.0, 1000.0),
        pt(200.0, 200.0, 1500.0),
    ];
    let targets = targets_for(&anchors, 60);
    assert_eq!(targets.len(), 91);
    for target in &targets {
        if target.timestamp_us <= 1_000_000 {
            assert_eq!((target.x, target.y), (100 * PX, 100 * PX));
        } else {
            assert!(target.x > 100 * PX && target.y > 100 * PX);
        }
    }
    assert_eq!(targets[90], anchors[3]);
}

#[test]
fn segment_without_duration_collapses_to_its_end() {
    let spline = vec![pt(0.0, 0.0, 0.0), pt(10.0, 0.0, 100.0)];
    let table = ArcLengthTable::build(&spline);
    let anchors = vec![pt(0.0, 0.0, 50.0), pt(10.0, 0.0, 50.0), pt(10.0, 0.0, 40.0)];
    let targets = generate_kinematic_targets(&spline, &table, &anchors, 60);
    assert_eq!(targets, anchors);
}

#[test]
fn no_frame_rate_leaves_the_anchors() {
    let spline = vec![pt(0.0, 0.0, 0.0), pt(10.0, 0.0, 100.0)];
    let table = ArcLengthTable::build(&spline);
    let anchors = vec![pt(0.0, 0.0, 0.0), pt(10.0, 0.0, 1000.0)];
    assert_eq!(generate_kinematic_targets(&spline, &table, &anchors, 0), anchors);
    assert_eq!(generate_kinematic_targets(&spline, &table, &anchors, -5), anchors);
}

#[test]
fn too_few_anchors_or_samples_give_the_curve_back() {
    let spline = vec![pt(0.0, 0.0, 0.0), pt(10.0, 0.0, 100.0), pt(20.0, 5.0, 200.0)];
    let table = ArcLengthTable::build(&spline);
    let one = vec![pt(3.0, 3.0, 50.0)];
    assert_eq!(generate_kinematic_targets(&spline, &table, &one, 60), spline);
    assert_eq!(generate_kinematic_targets(&spline, &table, &[], 60), spline);
    let short = vec![pt(1.0, 1.0, 0.0)];
    let short_table = ArcLengthTable::build(&short);
    let anchors = vec![pt(0.0, 0.0, 0.0), pt(10.0, 0.0, 1000.0)];
    assert_eq!(generate_kinematic_targets(&short, &short_table, &anchors, 60), short);
}

#[test]
fn anchors_that_go_back_along_the_curve_dwell() {
    // The second anchor projects behind the first: the segment covers no
    // way and its frames stay where the first anchor projects.
    let spline = vec![pt(0.0, 0.0, 0.0), pt(10.0, 0.0, 100.0), pt(20.0, 0.0, 200.0)];
    let table = ArcLengthTable::build(&spline);
    let anchors = vec![pt(20.0, 0.0, 0.0), pt(0.0, 0.0, 50.0)];
    let targets = generate_kinematic_targets(&spline, &table, &anchors, 60);
    assert_eq!(
        targets,
        vec![
            anchors[0],
            raw(20 * PX, 0, 16_666),
            raw(20 * PX, 0, 33_333),
            anchors[1],
        ]
    );
}
