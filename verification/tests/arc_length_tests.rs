use video_effects_processor::arc_length::{
    distance, nearest_sample, position_at_distance, ArcLengthTable,
};
use video_effects_processor::types::CPoint;

const PX: i64 = 65536;

fn at(x: i64, y: i64) -> CPoint {
    CPoint {
        x: x * PX,
        y: y * PX,
        timestamp_us: 0,
    }
}

#[test]
fn distance_is_the_rounded_down_length() {
    assert_eq!(distance(&at(0, 0), &at(3, 4)), 5 * PX);
    assert_eq!(distance(&at(3, 4), &at(0, 0)), 5 * PX);
    assert_eq!(distance(&at(7, 7), &at(7, 7)), 0);
    let a = CPoint { x: 0, y: 0, timestamp_us: 0 };
    let b = CPoint { x: 1, y: 1, timestamp_us: 0 };
    assert_eq!(distance(&a, &b), 1);
    let far = CPoint { x: 1 << 36, y: 1 << 36, timestamp_us: 0 };
    let near = CPoint { x: -(1 << 36), y: -(1 << 36), timestamp_us: 0 };
    assert_eq!(distance(&near, &far), 194368031998);
}

#[test]
fn table_holds_cumulative_lengths() {
    let points = vec![at(0, 0), at(3, 4), at(3, 4), at(6, 8), at(6, 0)];
    let table = ArcLengthTable::build(&points);
    assert_eq!(table.len(), 5);
    assert_eq!(table.length_at(0), 0);
    assert_eq!(table.length_at(1), 5 * PX);
    assert_eq!(table.length_at(2), 5 * PX);
    assert_eq!(table.length_at(3), 10 * PX);
    assert_eq!(table.length_at(4), 18 * PX);
    assert_eq!(table.total_length(), 18 * PX);
}

#[test]
fn table_never_decreases() {
    let points = vec![at(0, 0), at(10, 0), at(-20, 5), at(-20, 5), at(0, 0), at(1, 1)];
    let table = ArcLengthTable::build(&points);
    assert_eq!(table.length_at(0), 0);
    for i in 1..table.len() {
        assert!(table.length_at(i - 1) <= table.length_at(i));
    }
}

#[test]
fn table_of_nothing_is_empty() {
    let table = ArcLengthTable::build(&[]);
    assert_eq!(table.len(), 0);
    assert_eq!(table.total_length(), 0);
    assert_eq!(position_at_distance(&[], &table, 5), None);
}

#[test]
fn position_lies_in_proportion_between_two_samples() {
    let points = vec![at(0, 0), at(3, 4), at(3, 4), at(6, 8)];
    let table = ArcLengthTable::build(&points);
    assert_eq!(position_at_distance(&points, &table, 0), Some((0, 0)));
    assert_eq!(
        position_at_distance(&points, &table, 5 * PX / 2),
        Some((3 * PX / 2, 2 * PX))
    );
    assert_eq!(position_at_distance(&points, &table, 5 * PX), Some((3 * PX, 4 * PX)));
    assert_eq!(
        position_at_distance(&points, &table, 15 * PX / 2),
        Some((9 * PX / 2, 6 * PX))
    );
    assert_eq!(position_at_distance(&points, &table, 10 * PX), Some((6 * PX, 8 * PX)));
}

#[test]
fn position_clamps_the_distance_to_the_curve() {
    let points = vec![at(1, 1), at(4, 5)];
    let table = ArcLengthTable::build(&points);
    assert_eq!(position_at_distance(&points, &table, -7), Some((PX, PX)));
    assert_eq!(position_at_distance(&points, &table, i64::MIN), Some((PX, PX)));
    assert_eq!(position_at_distance(&points, &table, 5 * PX + 1), Some((4 * PX, 5 * PX)));
    assert_eq!(position_at_distance(&points, &table, i64::MAX), Some((4 * PX, 5 * PX)));
}

#[test]
fn position_on_a_curve_of_one_point() {
    let points = vec![at(9, 9)];
    let table = ArcLengthTable::build(&points);
    assert_eq!(position_at_distance(&points, &table, 3), Some((9 * PX, 9 * PX)));
}

#[test]
fn position_rounds_down() {
    let points = vec![
        CPoint { x: 0, y: 0, timestamp_us: 0 },
        CPoint { x: 10, y: 0, timestamp_us: 0 },
        CPoint { x: 10, y: -3, timestamp_us: 0 },
    ];
    let table = ArcLengthTable::build(&points);
    assert_eq!(position_at_distance(&points, &table, 11), Some((10, -1)));
    assert_eq!(position_at_distance(&points, &table, 12), Some((10, -2)));
}

#[test]
fn nearest_sample_is_the_earliest_of_the_nearest() {
    let points = vec![at(0, 0), at(10, 0), at(20, 0), at(10, 0)];
    assert_eq!(nearest_sample(&points, &at(11, 1)), 1);
    assert_eq!(nearest_sample(&points, &at(100, 0)), 2);
    assert_eq!(nearest_sample(&points, &at(5, 0)), 0);
    assert_eq!(nearest_sample(&points, &at(-3, 9)), 0);
    assert_eq!(nearest_sample(&[], &at(0, 0)), 0);
}
