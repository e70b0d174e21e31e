use video_effects_processor::aligner::AlignmentState;
use video_effects_processor::pipeline::{
    check_entry, effective_frame_rate, estimate_frames, expected_frames, frame_step, frame_time_from_index,
    normalize_to_relative_ms, path_is_usable, plan_overlays, points_in_range, points_sorted,
    progress_during_encode, render_frame, smooth_cursor_path_dual_pass, smooth_samples,
    smoothing_stage, status_code, FrameDecision, ProcessError, SmoothingError, PROGRESS_DONE,
    PROGRESS_SMOOTHED, PROGRESS_START,
};
use video_effects_processor::renderer::CursorSprite;
use video_effects_processor::types::{CPoint, PathPoint, VideoProcessingConfig};

const PX: i64 = 65536;

fn pt(x: f64, y: f64, ms: f64) -> CPoint {
    CPoint {
        x: (x * 65536.0).round() as i64,
        y: (y * 65536.0).round() as i64,
        timestamp_us: (ms * 1000.0).round() as i64,
    }
}

fn straight_line() -> Vec<CPoint> {
    vec![
        pt(0.0, 0.0, 0.0),
        pt(500.0, 0.0, 500.0),
        pt(1000.0, 0.0, 1000.0),
        pt(1500.0, 0.0, 1500.0),
    ]
}

fn smooth(raw: &[CPoint]) -> Vec<PathPoint> {
    match smooth_samples(raw, 60, 32768, 45875, 32768) {
        Ok(path) => path,
        Err(e) => panic!("refused: {:?}", e),
    }
}

#[test]
fn status_codes() {
    assert_eq!(status_code(Ok(())), 0);
    assert_eq!(status_code(Err(ProcessError::MissingInput)), -1);
    assert_eq!(status_code(Err(ProcessError::InvalidPath)), -2);
    assert_eq!(status_code(Err(ProcessError::Smoothing)), -3);
    assert_eq!(status_code(Err(ProcessError::MediaIo)), -4);
}

#[test]
fn three_samples_are_too_few() {
    let raw = vec![pt(0.0, 0.0, 0.0), pt(1.0, 0.0, 100.0), pt(2.0, 0.0, 200.0)];
    assert_eq!(
        smooth_cursor_path_dual_pass(&raw, 60, 32768, 45875, 32768),
        Err(SmoothingError::InsufficientInput)
    );
    assert_eq!(
        smooth_cursor_path_dual_pass(&[], 60, 32768, 45875, 32768),
        Err(SmoothingError::InsufficientInput)
    );
    assert_eq!(
        smooth_samples(&raw, 60, 32768, 45875, 32768),
        Err(SmoothingError::InsufficientInput)
    );
    assert_eq!(
        smooth_samples(&[], 60, 32768, 45875, 32768),
        Err(SmoothingError::InsufficientInput)
    );
    let config = VideoProcessingConfig::default();
    match smoothing_stage(&raw, &config) {
        Ok(_) => panic!("three samples were accepted"),
        Err(e) => {
            assert_eq!(e, ProcessError::Smoothing);
            assert_eq!(status_code(Err(e)), -3);
        }
    }
}

#[test]
fn four_samples_are_enough() {
    let config = VideoProcessingConfig::default();
    match smoothing_stage(&straight_line(), &config) {
        Ok(path) => assert_eq!(path, smooth(&straight_line())),
        Err(e) => panic!("refused: {:?}", e),
    }
}

#[test]
fn straight_line_at_uniform_cadence() {
    let path = smooth(&straight_line());
    assert_eq!(path.len(), 91);
    assert_eq!(path[0], PathPoint::new(0, 0, 0));
    assert_eq!(path[1], PathPoint::with_velocity(2601, 0, 16_666, 196_458, 0));
    assert_eq!(
        path[30],
        PathPoint::with_velocity(23_777_649, 0, 500_000, 58_110_056, 0)
    );
    assert_eq!(
        path[90],
        PathPoint::with_velocity(88_954_796, 0, 1_500_000, 60_518_973, 0)
    );
    for pair in path.windows(2) {
        assert!(pair[0].timestamp_us < pair[1].timestamp_us);
        assert!(pair[0].x <= pair[1].x);
    }
    for point in &path {
        assert_eq!((point.y, point.vy), (0, 0));
        assert!(0 <= point.x && point.x <= 1500 * PX);
    }
    assert!(path_is_usable(&path));
}

#[test]
fn corner_stays_within_two_pixels_of_the_box() {
    let raw = vec![
        pt(0.0, 0.0, 0.0),
        pt(100.0, 0.0, 100.0),
        pt(200.0, 0.0, 200.0),
        pt(200.0, 100.0, 400.0),
        pt(200.0, 200.0, 600.0),
    ];
    let path = smooth(&raw);
    assert_eq!(path.len(), 37);
    for point in &path {
        assert!(point.y >= -2 * PX && point.y <= 202 * PX);
    }
    assert!(path_is_usable(&path));
}

#[test]
fn resting_cursor_does_not_move_before_the_last_click() {
    let raw = vec![
        pt(100.0, 100.0, 0.0),
        pt(100.0, 100.0, 500.0),
        pt(100.0, 100.0, 1000.0),
        pt(200.0, 200.0, 1500.0),
    ];
    let path = smooth(&raw);
    assert_eq!(path.len(), 91);
    for point in &path {
        if point.timestamp_us <= 1_000_000 {
            assert_eq!(
                (point.x, point.y, point.vx, point.vy),
                (100 * PX, 100 * PX, 0, 0)
            );
        } else {
            assert!(point.x > 100 * PX && point.y > 100 * PX);
            assert!(point.x < 200 * PX && point.y < 200 * PX);
        }
    }
}

#[test]
fn resting_stream_is_reproduced() {
    // Samples taken from a path at rest give that path back.
    let rendered: Vec<PathPoint> = (0..8i64)
        .map(|i| PathPoint::new(320 * PX, 240 * PX, i * 250_000))
        .collect();
    let raw: Vec<CPoint> = rendered.iter().map(|p| p.to_cpoint()).collect();
    let path = smooth(&raw);
    for original in &rendered {
        let found = path
            .iter()
            .find(|p| p.timestamp_us == original.timestamp_us)
            .unwrap();
        assert!((found.x - original.x).abs() <= PX);
        assert!((found.y - original.y).abs() <= PX);
    }
}

#[test]
fn same_input_gives_the_same_positions() {
    let raw = vec![
        pt(12.5, 700.25, 1000.0),
        pt(310.0, 420.0, 1130.0),
        pt(330.0, 100.0, 1410.0),
        pt(905.75, 90.0, 1800.0),
        pt(900.0, 95.0, 2600.0),
    ];
    let first = smooth(&raw);
    let second = smooth(&raw);
    assert_eq!(first, second);
    let mut a = AlignmentState::new();
    let mut b = AlignmentState::new();
    for frame in 0..120i64 {
        let frame_us = 5_000_000 + frame * 16_667;
        assert_eq!(frame_step(&mut a, &first, frame_us), frame_step(&mut b, &second, frame_us));
    }
}

#[test]
fn range_and_order_checks() {
    let good = straight_line();
    assert!(points_in_range(&good));
    assert!(points_sorted(&good));
    assert!(points_in_range(&[]));
    assert!(points_sorted(&[]));
    let mut far = good.clone();
    far[2].x = (1 << 36) + 1;
    assert!(!points_in_range(&far));
    far[2].x = 1 << 36;
    assert!(points_in_range(&far));
    far[1].y = -(1 << 36) - 1;
    assert!(!points_in_range(&far));
    let mut late = good.clone();
    late[3].timestamp_us = (1 << 52) + 1;
    assert!(!points_in_range(&late));
    let mut back = good.clone();
    back[2].timestamp_us = 499_999;
    assert!(!points_sorted(&back));
    back[2].timestamp_us = 500_000;
    assert!(points_sorted(&back));
}

#[test]
fn usable_paths_are_in_range_and_in_order() {
    let good = vec![
        PathPoint::with_velocity(0, 0, 0, 1 << 40, -(1 << 40)),
        PathPoint::new(5, 5, 0),
        PathPoint::new(9, 9, 10),
    ];
    assert!(path_is_usable(&good));
    assert!(path_is_usable(&[]));
    let mut fast = good.clone();
    fast[0].vx = (1 << 40) + 1;
    assert!(!path_is_usable(&fast));
    let mut back = good.clone();
    back[2].timestamp_us = -1;
    assert!(!path_is_usable(&back));
    let mut far = good.clone();
    far[1].y = (1 << 36) + 1;
    assert!(!path_is_usable(&far));
}

#[test]
fn frame_time_from_the_index() {
    assert_eq!(frame_time_from_index(0, 60, 1), 0);
    assert_eq!(frame_time_from_index(1, 60, 1), 16_666);
    assert_eq!(frame_time_from_index(90, 60, 1), 1_500_000);
    assert_eq!(frame_time_from_index(30, 30_000, 1001), 1_001_000);
    // Without a usable rate the frames count sixty to the second.
    assert_eq!(frame_time_from_index(60, 0, 1), 1_000_000);
    assert_eq!(frame_time_from_index(60, 25, 0), 1_000_000);
    assert_eq!(frame_time_from_index(60, -25, 1), 1_000_000);
    assert_eq!(frame_time_from_index(u64::MAX, 1, i32::MAX), 1 << 52);
}

#[test]
fn frames_are_estimated_from_the_span_of_the_path() {
    let path = vec![PathPoint::new(0, 0, 250_000), PathPoint::new(0, 0, 1_750_000)];
    assert_eq!(estimate_frames(&path, 60), 90);
    assert_eq!(estimate_frames(&path, 7), 10);
    assert_eq!(estimate_frames(&path, 0), 0);
    assert_eq!(estimate_frames(&path, -60), 0);
    assert_eq!(estimate_frames(&path[0..1], 60), 0);
    assert_eq!(estimate_frames(&[], 60), 0);
}

#[test]
fn progress_runs_from_a_tenth_to_ninety_five_hundredths() {
    assert_eq!(PROGRESS_START, 0);
    assert_eq!(PROGRESS_DONE, 65536);
    assert_eq!(progress_during_encode(0, 100), Some(PROGRESS_SMOOTHED));
    assert_eq!(progress_during_encode(50, 100), Some(6554 + 27853));
    assert_eq!(progress_during_encode(100, 100), Some(6554 + 55706));
    assert_eq!(progress_during_encode(250, 100), Some(6554 + 55706));
    assert_eq!(progress_during_encode(1, 3), Some(6554 + 18568));
    assert_eq!(progress_during_encode(5, 0), None);
    let mut last = 0;
    for emitted in 0..400u64 {
        let now = progress_during_encode(emitted, 333).unwrap();
        assert!(last <= now && now <= PROGRESS_DONE);
        last = now;
    }
}

#[test]
fn frame_step_aligns_and_asks_the_path() {
    let path = vec![
        PathPoint::with_velocity(0, 0, 40_000, 0, 0),
        PathPoint::with_velocity(100 * PX, 50 * PX, 140_000, 1000 * PX, 0),
        PathPoint::with_velocity(200 * PX, 50 * PX, 240_000, 0, 0),
    ];
    let mut aligner = AlignmentState::with_limits(1, 500_000);
    // The first frame fixes the offset: the path starts with it.
    let first = frame_step(&mut aligner, &path, 9_000_000);
    assert!(aligner.is_ready());
    assert_eq!(aligner.get_offset(), 40_000 - 9_000_000);
    assert_eq!(
        first,
        FrameDecision {
            aligned_us: 40_000,
            position: Some(CPoint { x: 0, y: 0, timestamp_us: 40_000 }),
            clamped: false,
        }
    );
    assert_eq!(first.overlay_position(), first.position);
    let later = frame_step(&mut aligner, &path, 9_050_000);
    assert_eq!(later.aligned_us, 90_000);
    assert_eq!(
        later.position,
        Some(CPoint { x: 2_457_600, y: 1_638_400, timestamp_us: 90_000 })
    );
    assert!(!later.clamped);
    let beyond = frame_step(&mut aligner, &path, 9_200_001);
    assert_eq!(beyond.aligned_us, 240_001);
    assert_eq!(
        beyond.position,
        Some(CPoint { x: 200 * PX, y: 50 * PX, timestamp_us: 240_000 })
    );
    assert!(beyond.clamped);
    assert_eq!(beyond.overlay_position(), None);
}

#[test]
fn frame_step_without_a_path_draws_nothing() {
    let mut aligner = AlignmentState::new();
    let decision = frame_step(&mut aligner, &[], 123_456);
    assert_eq!(
        decision,
        FrameDecision {
            aligned_us: 0,
            position: None,
            clamped: false,
        }
    );
    assert_eq!(decision.overlay_position(), None);
}

#[test]
fn render_frame_draws_the_sprite_at_the_position() {
    let sprite = CursorSprite {
        data: vec![255, 0, 0, 255],
        width: 1,
        height: 1,
    };
    let path = vec![PathPoint::new(PX, 0, 0), PathPoint::new(PX, PX, 100_000)];
    let mut aligner = AlignmentState::with_limits(1, 500_000);
    // A frame of two by two pixels.
    let mut frame = vec![0u8; 16];
    let decision = render_frame(&mut frame, 2, 2, 8, &sprite, &mut aligner, &path, 7_000);
    assert_eq!(decision.aligned_us, 0);
    assert_eq!(decision.overlay_position(), Some(CPoint { x: PX, y: 0, timestamp_us: 0 }));
    assert_eq!(frame, vec![0, 0, 0, 0, 255, 0, 0, 0, 0, 0, 0, 0, 0, 0, 0, 0]);
    let mut second = vec![0u8; 16];
    let decision = render_frame(&mut second, 2, 2, 8, &sprite, &mut aligner, &path, 107_000);
    assert_eq!(
        decision.overlay_position(),
        Some(CPoint { x: PX, y: PX, timestamp_us: 100_000 })
    );
    assert_eq!(second, vec![0, 0, 0, 0, 0, 0, 0, 0, 0, 0, 0, 0, 255, 0, 0, 0]);
    // Beyond the end of the path nothing is drawn.
    let mut third = vec![0u8; 16];
    let decision = render_frame(&mut third, 2, 2, 8, &sprite, &mut aligner, &path, 107_001);
    assert!(decision.clamped);
    assert_eq!(third, vec![0u8; 16]);
}

#[test]
fn frame_rate_of_the_source_is_rounded() {
    assert_eq!(effective_frame_rate(60, 1, 30), 60);
    assert_eq!(effective_frame_rate(30_000, 1001, 60), 30);
    assert_eq!(effective_frame_rate(24_000, 1001, 60), 24);
    assert_eq!(effective_frame_rate(5, 2, 60), 3);
    assert_eq!(effective_frame_rate(1, 3, 60), 1);
    assert_eq!(effective_frame_rate(1, i32::MAX, 60), 1);
    assert_eq!(effective_frame_rate(i32::MAX, 1, 60), i32::MAX);
    // Without a rate of the source the configuration decides.
    assert_eq!(effective_frame_rate(0, 1, 25), 25);
    assert_eq!(effective_frame_rate(30, 0, 25), 25);
    assert_eq!(effective_frame_rate(-30, 1, 25), 25);
    assert_eq!(effective_frame_rate(0, 0, -7), -7);
}

#[test]
fn frames_stated_by_the_source_come_first() {
    let path = vec![PathPoint::new(0, 0, 0), PathPoint::new(0, 0, 2_000_000)];
    assert_eq!(expected_frames(481, &path, 60), 481);
    assert_eq!(expected_frames(0, &path, 60), 120);
    assert_eq!(expected_frames(-1, &path, 60), 120);
    assert_eq!(expected_frames(0, &[], 60), 0);
}

#[test]
fn timeline_starts_at_zero() {
    let points = vec![
        CPoint { x: 1, y: 2, timestamp_us: 1_700_000_000_000_000 },
        CPoint { x: 3, y: 4, timestamp_us: 1_700_000_000_500_000 },
        CPoint { x: 5, y: 6, timestamp_us: 1_700_000_002_000_000 },
    ];
    assert_eq!(
        normalize_to_relative_ms(&points),
        vec![
            CPoint { x: 1, y: 2, timestamp_us: 0 },
            CPoint { x: 3, y: 4, timestamp_us: 500_000 },
            CPoint { x: 5, y: 6, timestamp_us: 2_000_000 },
        ]
    );
    assert!(normalize_to_relative_ms(&[]).is_empty());
}

#[test]
fn timeline_shorter_than_a_second_counts_seconds() {
    // Twelve and a half "milliseconds" are twelve and a half seconds.
    let points = vec![
        CPoint { x: 0, y: 0, timestamp_us: 100 },
        CPoint { x: 0, y: 0, timestamp_us: 6_100 },
        CPoint { x: 0, y: 0, timestamp_us: 12_600 },
    ];
    assert_eq!(
        normalize_to_relative_ms(&points),
        vec![
            CPoint { x: 0, y: 0, timestamp_us: 0 },
            CPoint { x: 0, y: 0, timestamp_us: 6_000_000 },
            CPoint { x: 0, y: 0, timestamp_us: 12_500_000 },
        ]
    );
    let just_a_second = vec![
        CPoint { x: 0, y: 0, timestamp_us: 5 },
        CPoint { x: 0, y: 0, timestamp_us: 1_000_005 },
    ];
    assert_eq!(normalize_to_relative_ms(&just_a_second)[1].timestamp_us, 1_000_000);
    let almost = vec![
        CPoint { x: 0, y: 0, timestamp_us: 5 },
        CPoint { x: 0, y: 0, timestamp_us: 1_000_004 },
    ];
    assert_eq!(normalize_to_relative_ms(&almost)[1].timestamp_us, 999_999_000);
    let single = vec![CPoint { x: 9, y: 9, timestamp_us: 77 }];
    assert_eq!(
        normalize_to_relative_ms(&single),
        vec![CPoint { x: 9, y: 9, timestamp_us: 0 }]
    );
}

#[test]
fn timeline_is_kept_within_the_range() {
    let points = vec![
        CPoint { x: 0, y: 0, timestamp_us: i64::MIN },
        CPoint { x: 0, y: 0, timestamp_us: i64::MAX },
        CPoint { x: 0, y: 0, timestamp_us: i64::MIN + 10 },
    ];
    let normalized = normalize_to_relative_ms(&points);
    assert_eq!(normalized[0].timestamp_us, 0);
    assert_eq!(normalized[1].timestamp_us, 1 << 52);
    assert_eq!(normalized[2].timestamp_us, 10_000);
}

#[test]
fn plan_is_the_sequence_of_frame_steps() {
    let path = smooth(&straight_line());
    let frames: Vec<i64> = (0..100).map(|i| 3_000_000 + i * 16_667).collect();
    let plan = plan_overlays(&path, &frames);
    assert_eq!(plan.len(), frames.len());
    let mut aligner = AlignmentState::new();
    for (i, frame) in frames.iter().enumerate() {
        assert_eq!(plan[i], frame_step(&mut aligner, &path, *frame));
    }
    // The offset is fixed at the tenth frame, at the mean of the offsets
    // of the fifth and the sixth frame, rounded down.
    assert_eq!(plan[9].aligned_us, 9 * 16_667 - 75_002);
    assert_eq!(plan[50].aligned_us, 50 * 16_667 - 75_002);
    assert!(plan_overlays(&path, &[]).is_empty());
}

#[test]
fn oracle_passes_through_the_path() {
    let path = smooth(&straight_line());
    let mut aligner = AlignmentState::with_limits(1, 0);
    frame_step(&mut aligner, &path, 0);
    for point in &path {
        let decision = frame_step(&mut aligner, &path, point.timestamp_us);
        assert_eq!(decision.position, Some(point.to_cpoint()));
        assert!(!decision.clamped);
    }
}

#[test]
fn dual_pass_starts_the_timeline_at_zero() {
    let shifted: Vec<CPoint> = straight_line()
        .iter()
        .map(|p| CPoint {
            x: p.x,
            y: p.y,
            timestamp_us: p.timestamp_us + 1_700_000_000_000_000,
        })
        .collect();
    assert_eq!(
        smooth_cursor_path_dual_pass(&shifted, 60, 32768, 45875, 32768),
        Ok(smooth(&straight_line()))
    );
    assert_eq!(
        smooth_cursor_path_dual_pass(&straight_line(), 60, 32768, 45875, 32768),
        Ok(smooth(&straight_line()))
    );
}

#[test]
fn dual_pass_takes_a_short_timeline_for_seconds() {
    // Samples over 1.5 "milliseconds" are samples over a second and a half.
    let short = vec![
        pt(0.0, 0.0, 7.0),
        pt(500.0, 0.0, 7.5),
        pt(1000.0, 0.0, 8.0),
        pt(1500.0, 0.0, 8.5),
    ];
    assert_eq!(
        smooth_cursor_path_dual_pass(&short, 60, 32768, 45875, 32768),
        Ok(smooth(&straight_line()))
    );
    // The stage of a run leaves the timestamps as they are: no frame fits
    // between these samples, and the path is its first point.
    let config = VideoProcessingConfig::default();
    match smoothing_stage(&short, &config) {
        Ok(path) => assert_eq!(path, vec![PathPoint::new(0, 0, 7_000)]),
        Err(e) => panic!("refused: {:?}", e),
    }
}

#[test]
fn entry_checks_presence_before_text() {
    assert_eq!(check_entry(false, false), Err(ProcessError::MissingInput));
    assert_eq!(check_entry(false, true), Err(ProcessError::MissingInput));
    assert_eq!(check_entry(true, false), Err(ProcessError::InvalidPath));
    assert_eq!(check_entry(true, true), Ok(()));
    assert_eq!(status_code(check_entry(false, true)), -1);
    assert_eq!(status_code(check_entry(true, false)), -2);
    assert_eq!(status_code(check_entry(true, true)), 0);
}
