use maze_exit::maze::{CellStatus, Maze, WallsIterator};
use maze_exit::maze_builder::MazeBuilder;
use maze_exit::position::Pos;

#[test]
fn maze_test_creation() {
    let maze = Maze::new(3, 4, Pos::new(0, 0), Pos::new(2, 3));
    assert_eq!(maze.width(), 3);
    assert_eq!(maze.height(), 4);
    assert_eq!(maze.start(), Pos::new(0, 0));
    assert_eq!(maze.goal(), Pos::new(2, 3));
    assert_eq!(maze.walls().len(), 0);
}

#[test]
fn maze_queries() {
    let maze = MazeBuilder::new()
        .width(4)
        .height(3)
        .start(Pos::new(0, 0))
        .goal(Pos::new(3, 2))
        .add_wall(Pos::new(1, 1))
        .build()
        .unwrap();

    assert!(maze.valid(Pos::new(3, 2)));
    assert!(maze.contains(Pos::new(0, 2)));
    assert!(!maze.valid(Pos::new(4, 0)));
    assert!(!maze.valid(Pos::new(-1, 0)));

    assert!(maze.is_wall(Pos::new(1, 1)));
    assert!(!maze.is_free(Pos::new(1, 1)));
    assert!(maze.is_free(Pos::new(2, 2)));
    // Outside the rectangle a cell is neither free nor a wall.
    assert!(!maze.is_free(Pos::new(9, 9)));
    assert!(!maze.is_wall(Pos::new(9, 9)));

    assert!(matches!(maze.get(Pos::new(1, 1)), Some(CellStatus::Wall)));
    assert!(matches!(maze.get(Pos::new(0, 1)), Some(CellStatus::Empty)));
    assert!(maze.get(Pos::new(7, 7)).is_none());
}

#[test]
fn maze_set_and_clear() {
    let mut maze = Maze::new(5, 5, Pos::new(0, 0), Pos::new(4, 4));
    assert!(maze.set(Pos::new(2, 2), true).is_ok());
    assert!(maze.is_wall(Pos::new(2, 2)));
    assert!(maze.set(Pos::new(2, 2), false).is_ok());
    assert!(!maze.is_wall(Pos::new(2, 2)));

    // Out of bounds, and walling an endpoint, are rejected.
    assert!(maze.set(Pos::new(9, 0), true).is_err());
    assert!(maze.set(Pos::new(0, 0), true).is_err());
    assert!(maze.set(Pos::new(4, 4), true).is_err());
}

#[test]
fn walls_iterator_yields_every_wall() {
    let maze = MazeBuilder::new()
        .width(4)
        .height(4)
        .start(Pos::new(0, 0))
        .goal(Pos::new(3, 3))
        .add_wall(Pos::new(1, 2))
        .add_wall(Pos::new(2, 1))
        .build()
        .unwrap();
    let mut it = WallsIterator::new(&maze);
    let mut seen = Vec::new();
    while let Some(p) = it.next() {
        seen.push(p);
    }
    assert_eq!(seen.len(), 2);
    assert!(seen.contains(&Pos::new(1, 2)));
    assert!(seen.contains(&Pos::new(2, 1)));
}

#[test]
fn builder_rejects_missing_fields() {
    let r = MazeBuilder::new().width(3).build();
    let es = r.err().unwrap();
    assert!(es.contains(&"height not set".to_string()));
    assert!(es.contains(&"start not set".to_string()));
    assert!(es.contains(&"goal not set".to_string()));
}

#[test]
fn builder_rejects_duplicate_setters() {
    let r = MazeBuilder::new()
        .width(3)
        .width(4)
        .height(3)
        .start(Pos::new(0, 0))
        .goal(Pos::new(2, 2))
        .build();
    let es = r.err().unwrap();
    assert!(es.contains(&"width already set".to_string()));
}

#[test]
fn builder_rejects_bad_geometry() {
    let r = MazeBuilder::new()
        .width(0)
        .height(3)
        .start(Pos::new(0, 0))
        .goal(Pos::new(1, 1))
        .build();
    assert!(r.err().unwrap().contains(&"width out of range".to_string()));

    let r = MazeBuilder::new()
        .width(3)
        .height(3)
        .start(Pos::new(5, 0))
        .goal(Pos::new(1, 1))
        .build();
    assert!(r.err().unwrap().contains(&"start out of bounds".to_string()));

    let r = MazeBuilder::new()
        .width(3)
        .height(3)
        .start(Pos::new(1, 1))
        .goal(Pos::new(1, 1))
        .build();
    assert!(r.err().unwrap().contains(&"start and goal coincide".to_string()));

    let r = MazeBuilder::new()
        .width(3)
        .height(3)
        .start(Pos::new(0, 0))
        .goal(Pos::new(2, 2))
        .add_wall(Pos::new(7, 0))
        .build();
    assert!(r.err().unwrap().contains(&"wall out of bounds".to_string()));

    let r = MazeBuilder::new()
        .width(3)
        .height(3)
        .start(Pos::new(0, 0))
        .goal(Pos::new(2, 2))
        .add_wall(Pos::new(0, 0))
        .build();
    assert!(r.err().unwrap().contains(&"start is a wall".to_string()));

    let r = MazeBuilder::new()
        .width(3)
        .height(3)
        .start(Pos::new(0, 0))
        .goal(Pos::new(2, 2))
        .add_wall(Pos::new(2, 2))
        .build();
    assert!(r.err().unwrap().contains(&"goal is a wall".to_string()));
}

#[test]
fn builder_collapses_duplicate_walls() {
    let maze = MazeBuilder::new()
        .width(3)
        .height(3)
        .start(Pos::new(0, 0))
        .goal(Pos::new(2, 2))
        .add_wall(Pos::new(1, 1))
        .add_wall(Pos::new(1, 1))
        .build()
        .unwrap();
    assert_eq!(maze.walls().len(), 1);
}

#[test]
fn builder_reports_every_violation_in_order() {
    let es = MazeBuilder::new().build().err().unwrap();
    assert_eq!(
        es,
        vec![
            "width not set".to_string(),
            "height not set".to_string(),
            "start not set".to_string(),
            "goal not set".to_string(),
        ]
    );

    let es = MazeBuilder::new()
        .width(3)
        .width(4)
        .height(3)
        .start(Pos::new(1, 1))
        .goal(Pos::new(1, 1))
        .add_wall(Pos::new(1, 1))
        .build()
        .err()
        .unwrap();
    assert_eq!(
        es,
        vec![
            "width already set".to_string(),
            "start and goal coincide".to_string(),
            "start is a wall".to_string(),
            "goal is a wall".to_string(),
        ]
    );
}
