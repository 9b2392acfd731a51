use lizstate::pathfinding::PathfindingContext;
use lizstate::positional::AbsolutePosition;

#[test]
fn permissive_diagonal() {
    let mut context = PathfindingContext::new(|_: AbsolutePosition| false, AbsolutePosition::distance);

    let start = AbsolutePosition::new(0, 0);
    let destination = AbsolutePosition::new(5, 5);
    assert!(context.find_path(start, destination));

    assert_eq!(context.known_distance(start, destination), Some(5));
    assert_eq!(
        context.get_step(start, destination),
        Some(AbsolutePosition::new(1, 1))
    );
}

#[test]
fn permissive_minimize_diagonals() {
    let mut context = PathfindingContext::new(|_: AbsolutePosition| false, AbsolutePosition::distance);

    let start = AbsolutePosition::new(0, 0);
    let destination = AbsolutePosition::new(5, 0);
    assert!(context.find_path(start, destination));

    assert_eq!(context.known_distance(start, destination), Some(5));
    assert_eq!(
        context.get_step(start, destination),
        Some(AbsolutePosition::new(1, 0))
    );
}

#[test]
fn permissive_bad_heuristic() {
    let mut context = PathfindingContext::new(
        |_: AbsolutePosition| false,
        // consistently underesimates true distance.
        // devolves into dijkstra's
        |_: AbsolutePosition, _: AbsolutePosition| 0,
    );

    let start = AbsolutePosition::new(0, 0);
    let destination = AbsolutePosition::new(3, 3);
    assert!(context.find_path(start, destination));

    assert_eq!(context.known_distance(start, destination), Some(3));
    assert_eq!(
        context.get_step(start, destination),
        Some(AbsolutePosition::new(1, 1))
    );
}

#[test]
fn no_path() {
    let mut context = PathfindingContext::new(|_: AbsolutePosition| true, AbsolutePosition::distance);

    assert!(!context.find_path(AbsolutePosition::new(0, 0), AbsolutePosition::new(5, 0)));
}

#[test]
fn no_path_infinite_frontier() {
    let mut context = PathfindingContext::new(
        |pos: AbsolutePosition| pos.x == 1 && pos.y == 1,
        AbsolutePosition::distance,
    );

    assert!(!context.find_path(AbsolutePosition::new(0, 0), AbsolutePosition::new(1, 1)));
}

#[test]
fn resume_run() {
    let mut context = PathfindingContext::new(|_: AbsolutePosition| false, AbsolutePosition::distance);

    let start = AbsolutePosition::new(0, 0);
    {
        let destination = AbsolutePosition::new(3, 3);
        assert!(context.find_path(start, destination));

        assert_eq!(context.known_distance(start, destination), Some(3));
        assert_eq!(
            context.get_step(start, destination),
            Some(AbsolutePosition::new(1, 1))
        );
    }

    {
        let destination = AbsolutePosition::new(5, 5);
        assert!(context.find_path(start, destination));

        assert_eq!(context.known_distance(start, destination), Some(5));
        assert_eq!(
            context.get_step(start, destination),
            Some(AbsolutePosition::new(1, 1))
        );
    }
}

#[test]
fn resume_run_from_middle() {
    let mut context = PathfindingContext::new(|_: AbsolutePosition| false, AbsolutePosition::distance);

    let destination = AbsolutePosition::new(3, 3);
    {
        let start: AbsolutePosition = AbsolutePosition::new(0, 0);
        assert!(context.find_path(start, destination));

        assert_eq!(context.known_distance(start, destination), Some(3));
        assert_eq!(
            context.get_step(start, destination),
            Some(AbsolutePosition::new(1, 1))
        );
    }

    {
        let start: AbsolutePosition = AbsolutePosition::new(1, 1);
        assert!(context.find_path(start, destination));

        assert_eq!(context.known_distance(start, destination), Some(2));
        assert_eq!(
            context.get_step(start, destination),
            Some(AbsolutePosition::new(2, 2))
        );
    }
}

#[test]
fn resume_run_unrelated_destination() {
    let mut context = PathfindingContext::new(|_: AbsolutePosition| false, AbsolutePosition::distance);

    let start: AbsolutePosition = AbsolutePosition::new(0, 0);
    {
        let destination = AbsolutePosition::new(3, 3);
        assert!(context.find_path(start, destination));

        assert_eq!(context.known_distance(start, destination), Some(3));
        assert_eq!(
            context.get_step(start, destination),
            Some(AbsolutePosition::new(1, 1))
        );
    }

    {
        let destination = AbsolutePosition::new(-3, -3);
        assert!(context.find_path(start, destination));

        assert_eq!(context.known_distance(start, destination), Some(3));
        assert_eq!(
            context.get_step(start, destination),
            Some(AbsolutePosition::new(-1, -1))
        );
    }
}

#[test]
fn resume_run_backwards() {
    let mut context = PathfindingContext::new(|_: AbsolutePosition| false, AbsolutePosition::distance);

    {
        let start = AbsolutePosition::new(0, 0);
        let destination = AbsolutePosition::new(3, 3);
        assert!(context.find_path(start, destination));

        assert_eq!(context.known_distance(start, destination), Some(3));
        assert_eq!(
            context.get_step(start, destination),
            Some(AbsolutePosition::new(1, 1))
        );
    }

    {
        let start = AbsolutePosition::new(5, 5);
        let destination = AbsolutePosition::new(-2, -2);
        assert!(context.find_path(start, destination));

        assert_eq!(context.known_distance(start, destination), Some(7));
        assert_eq!(
            context.get_step(start, destination),
            Some(AbsolutePosition::new(4, 4))
        );
    }
}

#[test]
fn solve_maze() {
    // tbh this maze can be solved pretty greedily.
    let maze = "
        @#######
        #.##..##
        #.#.##.#
        #.#.##.#
        #.#....#
        #.#.##.#
        ##.###.#
        ########
    "
    .split_ascii_whitespace()
    .enumerate()
    .flat_map(|(y, line)| {
        line.chars()
            .enumerate()
            .filter(|(_, c)| *c == '#')
            .map(move |(x, _)| AbsolutePosition::new(x.try_into().unwrap(), y.try_into().unwrap()))
    })
    .collect::<std::collections::HashSet<AbsolutePosition>>();

    let mut context = PathfindingContext::new(
        move |pos: AbsolutePosition| maze.contains(&pos),
        AbsolutePosition::distance,
    );

    let start = AbsolutePosition::new(0, 0);
    let destination = AbsolutePosition::new(6, 6);
    assert!(context.find_path(start, destination));

    assert_eq!(context.known_distance(start, destination), Some(11));
    assert_eq!(
        context.get_step(start, destination),
        Some(AbsolutePosition::new(1, 1))
    );
}

#[test]
fn same_tile_step() {
    let mut context = PathfindingContext::new(|_: AbsolutePosition| false, AbsolutePosition::distance);
    let here = AbsolutePosition::new(2, -3);
    assert!(context.find_path(here, here));
    assert_eq!(context.known_distance(here, here), Some(0));
    assert_eq!(context.get_step(here, here), Some(here));
}
