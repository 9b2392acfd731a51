use lizstate::geom::shapes::dot;
use lizstate::geom::shapes::Ball;
use lizstate::geom::shapes::Sector;
use lizstate::positional::RelativePosition;

#[test]
fn dot_is_dot() {
    assert_eq!(
        dot(RelativePosition::new(0, 0), RelativePosition::new(123, 456)),
        0
    );
    assert_eq!(
        dot(RelativePosition::new(1, 0), RelativePosition::new(123, 456)),
        123
    );
    assert_eq!(
        dot(RelativePosition::new(0, 1), RelativePosition::new(123, 456)),
        456
    );
    assert_eq!(
        dot(RelativePosition::new(1, 1), RelativePosition::new(123, 456)),
        579
    );
}

#[test]
fn circle_is_circle() {
    let dingus = Ball::<1>.list_relative();

    for dy in -1..=1 {
        for dx in -1..=1 {
            if dx == 0 && dy == 0 {
                continue;
            }

            assert!(
                dingus.contains(&RelativePosition::new(dx, dy)),
                "{dx}, {dy}"
            );
        }
    }
}

#[test]
fn ball_of_two_has_no_origin() {
    let ball = Ball::<2>.list_relative();
    assert_eq!(ball.len(), 24);
    assert!(!ball.contains(&RelativePosition::new(0, 0)));
    assert!(ball.contains(&RelativePosition::new(-2, 1)));
    assert!(Ball::<2>.contains_relative(RelativePosition::new(0, 0)));
    assert!(!Ball::<2>.contains_relative(RelativePosition::new(3, 0)));
}

#[test]
fn sector_is_sector() {
    let dingus = Sector::<1> {
        ray: RelativePosition::new(1, 0),
        top_n: 3,
    }
    .list_relative();

    assert_eq!(dingus.len(), 3);
    assert!(dingus.contains(&RelativePosition::new(1, -1)));
    assert!(dingus.contains(&RelativePosition::new(1, 0)));
    assert!(dingus.contains(&RelativePosition::new(1, 1)));
}

#[test]
fn sector_includes_when_equal() {
    let dingus = Sector::<1> {
        ray: RelativePosition::new(1, 0),
        top_n: 2,
    }
    .list_relative();

    // Even though we asked for 2, the 2nd closest is equally close as the 3rd.
    // The 4th is not included of course.
    assert_eq!(dingus.len(), 3);
    assert!(dingus.contains(&RelativePosition::new(1, -1)));
    assert!(dingus.contains(&RelativePosition::new(1, 0)));
    assert!(dingus.contains(&RelativePosition::new(1, 1)));
}

#[test]
fn sector_of_one_is_the_ray() {
    let sector = Sector::<2> {
        ray: RelativePosition::new(0, 1),
        top_n: 1,
    };
    let tiles = sector.list_relative();
    assert_eq!(tiles.len(), 2);
    assert!(tiles.contains(&RelativePosition::new(0, 1)));
    assert!(tiles.contains(&RelativePosition::new(0, 2)));
    assert!(sector.contains_relative(RelativePosition::new(0, 2)));
    assert!(!sector.contains_relative(RelativePosition::new(1, 2)));
}
