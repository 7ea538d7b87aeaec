use num_bigint::BigInt;
use piet_tools::color::{Color, Hue, Lightness};
use piet_tools::grid::{CodelRegion, PietCode};
use piet_tools::pointer::{CodelChoice, Direction, InstructionPointer};

const RED: Color = Color::Color(Hue::Red, Lightness::Normal);
const BLUE: Color = Color::Color(Hue::Blue, Lightness::Normal);

fn grid(rows: &[&str]) -> PietCode {
    let height = rows.len();
    let width = rows[0].len();
    let mut code = Vec::new();
    for row in rows {
        assert_eq!(row.len(), width);
        for c in row.chars() {
            code.push(match c {
                'R' => RED,
                'B' => BLUE,
                '.' => Color::White,
                '#' => Color::Black,
                _ => Color::Other,
            });
        }
    }
    PietCode::from_codels(width, height, code).unwrap()
}

fn cross() -> CodelRegion {
    CodelRegion::new(vec![(2, 1), (2, 2), (2, 3), (3, 2)], RED)
}

#[test]
fn exit_right_left_of_the_example() {
    let ip = InstructionPointer(Direction::Right, CodelChoice::Left);
    assert_eq!(cross().exit_to(ip), (4, 2));
}

#[test]
fn exits_for_each_pointer() {
    // a region whose farthest edge has two codels in every direction
    let region = CodelRegion::new(
        vec![(1, 1), (2, 1), (3, 1), (1, 2), (3, 2), (1, 3), (2, 3), (3, 3), (2, 2)],
        RED,
    );
    let cases = [
        (Direction::Right, CodelChoice::Left, (4, 1)),
        (Direction::Right, CodelChoice::Right, (4, 3)),
        (Direction::Down, CodelChoice::Left, (3, 4)),
        (Direction::Down, CodelChoice::Right, (1, 4)),
        (Direction::Left, CodelChoice::Left, (0, 3)),
        (Direction::Left, CodelChoice::Right, (0, 1)),
        (Direction::Up, CodelChoice::Left, (1, 0)),
        (Direction::Up, CodelChoice::Right, (3, 0)),
    ];
    for (dp, cc, want) in cases {
        assert_eq!(region.exit_to(InstructionPointer(dp, cc)), want);
    }
}

#[test]
fn exit_off_the_low_edge_wraps() {
    let region = CodelRegion::new(vec![(0, 0)], RED);
    assert_eq!(
        region.exit_to(InstructionPointer(Direction::Left, CodelChoice::Left)),
        (usize::MAX, 0)
    );
    assert_eq!(
        region.exit_to(InstructionPointer(Direction::Up, CodelChoice::Right)),
        (0, usize::MAX)
    );
}

#[test]
fn exit_does_not_depend_on_the_order_of_the_codels() {
    let a = CodelRegion::new(vec![(2, 1), (2, 2), (2, 3), (3, 2)], RED);
    let b = CodelRegion::new(vec![(3, 2), (2, 3), (2, 3), (2, 1), (2, 2)], RED);
    for dp in [Direction::Right, Direction::Down, Direction::Left, Direction::Up] {
        for cc in [CodelChoice::Left, CodelChoice::Right] {
            let ip = InstructionPointer(dp, cc);
            assert_eq!(a.exit_to(ip), b.exit_to(ip));
        }
    }
}

#[test]
fn a_region_counts_each_codel_once() {
    let region = CodelRegion::new(vec![(1, 1), (1, 1), (2, 1)], BLUE);
    assert_eq!(region.value(), BigInt::from(2));
    assert_eq!(region.color(), BLUE);
    assert!(region.contains(2, 1));
    assert!(!region.contains(2, 2));
}

#[test]
fn colors_are_found_on_the_grid_only() {
    let code = grid(&["R.", "#B"]);
    assert_eq!(code.width(), 2);
    assert_eq!(code.height(), 2);
    assert_eq!(code.size(), 4);
    assert_eq!(code.at(0, 0), Some(RED));
    assert_eq!(code.at(1, 0), Some(Color::White));
    assert_eq!(code.at(0, 1), Some(Color::Black));
    assert_eq!(code.at(1, 1), Some(BLUE));
    assert_eq!(code.at(2, 0), None);
    assert_eq!(code.at(0, 2), None);
    assert_eq!(code.at(usize::MAX, 0), None);
}

#[test]
fn codels_come_row_by_row() {
    let code = grid(&["R.", "#B"]);
    assert_eq!(
        code.codels(),
        vec![(0, 0, RED), (1, 0, Color::White), (0, 1, Color::Black), (1, 1, BLUE)]
    );
}

#[test]
fn grids_need_a_codel_for_each_coordinate() {
    assert!(PietCode::from_codels(2, 2, vec![RED; 3]).is_none());
    assert!(PietCode::from_codels(2, 2, vec![RED; 4]).is_some());
    assert!(PietCode::from_codels(0, 5, Vec::new()).is_some());
    assert!(PietCode::from_codels(usize::MAX, 2, Vec::new()).is_none());
}

#[test]
fn a_region_is_what_can_be_reached() {
    let code = grid(&[
        "RRB.", //
        "BRBR", //
        "RRBR", //
        "BBBR",
    ]);
    let region = code.region_at(0, 0).unwrap();
    assert_eq!(region.color(), RED);
    assert_eq!(region.value(), BigInt::from(5));
    for (x, y) in [(0, 0), (1, 0), (1, 1), (0, 2), (1, 2)] {
        assert!(region.contains(x, y));
    }
    assert!(!region.contains(3, 1));
    assert!(!region.contains(0, 1));
    let other = code.region_at(3, 3).unwrap();
    assert_eq!(other.value(), BigInt::from(3));
    let blue = code.region_at(2, 0).unwrap();
    assert_eq!(blue.value(), BigInt::from(6));
    assert!(blue.contains(0, 3));
    assert!(!blue.contains(0, 1));
    assert!(code.region_at(4, 0).is_none());
    assert!(code.region_at(0, 4).is_none());
}

#[test]
fn regions_do_not_join_at_corners() {
    let code = grid(&["RB", "BR"]);
    assert_eq!(code.region_at(0, 0).unwrap().value(), BigInt::from(1));
    assert_eq!(code.region_at(1, 1).unwrap().value(), BigInt::from(1));
}
