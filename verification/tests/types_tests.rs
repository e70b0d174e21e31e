use video_effects_processor::types::{CPoint, PathPoint, Verbosity, VideoProcessingConfig};

#[test]
fn path_point_new_is_at_rest() {
    let p = PathPoint::new(10, 20, 30);
    assert_eq!(
        p,
        PathPoint {
            x: 10,
            y: 20,
            timestamp_us: 30,
            vx: 0,
            vy: 0
        }
    );
}

#[test]
fn path_point_with_velocity_keeps_every_field() {
    let p = PathPoint::with_velocity(1, 2, 3, 4, 5);
    assert_eq!((p.x, p.y, p.timestamp_us, p.vx, p.vy), (1, 2, 3, 4, 5));
}

#[test]
fn to_cpoint_drops_the_velocity() {
    let p = PathPoint::with_velocity(1, 2, 3, 4, 5);
    assert_eq!(
        p.to_cpoint(),
        CPoint {
            x: 1,
            y: 2,
            timestamp_us: 3
        }
    );
}

#[test]
fn path_point_from_cpoint_is_at_rest() {
    let c = CPoint {
        x: 7,
        y: 8,
        timestamp_us: 9,
    };
    assert_eq!(PathPoint::from(c), PathPoint::new(7, 8, 9));
}

#[test]
fn default_config_is_centripetal_at_sixty_frames() {
    let c = VideoProcessingConfig::default();
    assert_eq!(c.smoothing_alpha, 32768);
    assert_eq!(c.responsiveness, 32768);
    assert_eq!(c.smoothness, 45875);
    assert_eq!(c.frame_rate, 60);
    assert_eq!(c.log_level, 3);
}

#[test]
fn config_is_valid_with_a_frame_rate_and_a_known_log_level() {
    let mut c = VideoProcessingConfig::default();
    assert!(c.validate());
    c.frame_rate = 0;
    assert!(!c.validate());
    c.frame_rate = 1;
    assert!(c.validate());
    c.log_level = 6;
    assert!(!c.validate());
    c.log_level = 5;
    assert!(c.validate());
    c.log_level = -1;
    assert!(!c.validate());
    c.log_level = 0;
    assert!(c.validate());
}

#[test]
fn log_levels_map_to_verbosities() {
    assert_eq!(Verbosity::from_level(0), Some(Verbosity::Off));
    assert_eq!(Verbosity::from_level(1), Some(Verbosity::Error));
    assert_eq!(Verbosity::from_level(2), Some(Verbosity::Warn));
    assert_eq!(Verbosity::from_level(3), Some(Verbosity::Info));
    assert_eq!(Verbosity::from_level(4), Some(Verbosity::Debug));
    assert_eq!(Verbosity::from_level(5), Some(Verbosity::Trace));
    assert_eq!(Verbosity::from_level(6), None);
    assert_eq!(Verbosity::from_level(-1), None);
    assert!(Verbosity::Trace.writes_debug_tables());
    assert!(!Verbosity::Debug.writes_debug_tables());
    assert!(!Verbosity::Off.writes_debug_tables());
}
