use maze_exit::algorithm::{a_star, find_path, Child, Message};
use maze_exit::channel::{channel, noop_sender, sync_channel, ChannelSender};
use maze_exit::cost::Cost;
use maze_exit::generator::{ChildrenGenerator, JpsGenerator};
use maze_exit::heuristics::{DiagonalHeuristic, MazeHeuristic};
use maze_exit::maze::Maze;
use maze_exit::maze_builder::MazeBuilder;
use maze_exit::position::Pos;

fn open_maze(w: u32, h: u32, start: Pos, goal: Pos) -> Maze {
    MazeBuilder::new()
        .width(w)
        .height(h)
        .start(start)
        .goal(goal)
        .build()
        .unwrap()
}

fn contains_child(children: &[Child], pos: Pos, weight: Cost) -> bool {
    children.iter().any(|c| c.node == pos && c.weight == weight)
}

#[test]
fn test_find_path() {
    let start = Pos::new(0, 0);
    let goal = Pos::new(9, 9);
    let maze = open_maze(10, 10, start, goal);

    let heuristic = DiagonalHeuristic::new(&maze);
    let gen = JpsGenerator::new(&maze);

    let info = a_star(start, goal, &heuristic, &gen, &noop_sender());
    let path = info.path;

    assert!(path.is_some());
    let path = path.unwrap();

    // The dense diagonal walk: ten cells, nine diagonal steps.
    assert_eq!(path.path.len(), 10);
    assert_eq!(path.path[0], start);
    assert_eq!(path.path[9], goal);
    assert_eq!(path.cost, Cost::diagonal(9));

    assert!(info.max_length > 0);
    assert!(info.nodes > 0);
}

#[test]
fn test_generate_no_parent_walls() {
    let maze = open_maze(10, 10, Pos::new(0, 0), Pos::new(9, 9));
    let gen = JpsGenerator::new(&maze);

    let children = gen.generate_children(maze.start(), None);
    assert_eq!(children.len(), 3);

    assert!(contains_child(&children, Pos::new(1, 0), Cost::straight(1)));
    assert!(contains_child(&children, Pos::new(0, 1), Cost::straight(1)));
    assert!(contains_child(&children, Pos::new(1, 1), Cost::diagonal(1)));
}

#[test]
fn test_generate_no_parent() {
    let maze = open_maze(10, 10, Pos::new(0, 0), Pos::new(9, 9));
    let gen = JpsGenerator::new(&maze);

    let children = gen.generate_children(Pos::new(1, 1), None);
    assert_eq!(children.len(), 8);

    assert!(contains_child(&children, Pos::new(1, 0), Cost::straight(1)));
    assert!(contains_child(&children, Pos::new(0, 1), Cost::straight(1)));
    assert!(contains_child(&children, Pos::new(1, 2), Cost::straight(1)));
    assert!(contains_child(&children, Pos::new(2, 1), Cost::straight(1)));
    assert!(contains_child(&children, Pos::new(0, 0), Cost::diagonal(1)));
    assert!(contains_child(&children, Pos::new(2, 0), Cost::diagonal(1)));
    assert!(contains_child(&children, Pos::new(2, 2), Cost::diagonal(1)));
    assert!(contains_child(&children, Pos::new(0, 2), Cost::diagonal(1)));
}

#[test]
fn small_grid_exact_path() {
    let start = Pos::new(0, 0);
    let goal = Pos::new(2, 3);
    let maze = open_maze(3, 4, start, goal);
    let heuristic = DiagonalHeuristic::new(&maze);
    let gen = JpsGenerator::new(&maze);

    let info = a_star(start, goal, &heuristic, &gen, &noop_sender());
    let path = info.path.unwrap();
    assert_eq!(path.path.len(), 4);
    assert_eq!(
        path.path,
        vec![Pos::new(0, 0), Pos::new(1, 1), Pos::new(2, 2), Pos::new(2, 3)]
    );
    // Two diagonal steps and one straight step.
    let expected = Cost::straight(1).checked_add(&Cost::diagonal(2)).unwrap();
    assert_eq!(path.cost, expected);
}

#[test]
fn wall_column_detour() {
    // A wall column at x=2 except at y=4 forces the route through (2,4).
    let mut builder = MazeBuilder::new()
        .width(5)
        .height(5)
        .start(Pos::new(0, 2))
        .goal(Pos::new(4, 2));
    for y in 0..4 {
        builder = builder.add_wall(Pos::new(2, y));
    }
    let maze = builder.build().unwrap();
    let heuristic = DiagonalHeuristic::new(&maze);
    let gen = JpsGenerator::new(&maze);

    let info = a_star(maze.start(), maze.goal(), &heuristic, &gen, &noop_sender());
    let path = info.path.unwrap();
    assert!(path.path.contains(&Pos::new(2, 4)));
    assert_eq!(path.path[0], Pos::new(0, 2));
    assert_eq!(path.path[path.path.len() - 1], Pos::new(4, 2));
    // Optimal detour: two diagonals down to (2,4), two diagonals back up.
    assert_eq!(path.cost, Cost::diagonal(4));
}

#[test]
fn no_path_when_walled_off() {
    let mut builder = MazeBuilder::new()
        .width(5)
        .height(5)
        .start(Pos::new(0, 2))
        .goal(Pos::new(4, 2));
    for y in 0..5 {
        builder = builder.add_wall(Pos::new(2, y));
    }
    let maze = builder.build().unwrap();
    let heuristic = DiagonalHeuristic::new(&maze);
    let gen = JpsGenerator::new(&maze);
    let info = a_star(maze.start(), maze.goal(), &heuristic, &gen, &noop_sender());
    assert!(info.path.is_none());
    assert!(info.nodes > 0);
}

#[test]
fn closed_channel_aborts_search() {
    // A bounded channel whose receiver is gone: the first send reports the
    // closure and the search returns as if no path existed.
    let start = Pos::new(0, 0);
    let goal = Pos::new(199, 199);
    let maze = open_maze(200, 200, start, goal);
    let heuristic = DiagonalHeuristic::new(&maze);
    let gen = JpsGenerator::new(&maze);

    let (tx, rx) = sync_channel::<Message>(1);
    drop(rx);
    let info = a_star(start, goal, &heuristic, &gen, &tx);
    assert!(info.path.is_none());
}

#[test]
fn streamed_events_end_with_summary() {
    let maze = open_maze(6, 6, Pos::new(0, 0), Pos::new(5, 5));
    let heuristic = DiagonalHeuristic::new(&maze);

    let (tx, rx) = channel::<Message>();
    let info = find_path(&maze, &heuristic, &tx);
    assert!(info.path.is_some());
    drop(tx);

    let mut enqueued = 0;
    let mut ends = 0;
    let mut end_last = false;
    while let Ok(msg) = rx.recv() {
        match msg {
            Message::Enqueued(_, _) => {
                enqueued += 1;
                end_last = false;
            }
            Message::End(end_info) => {
                ends += 1;
                end_last = true;
                assert!(end_info.path.is_some());
            }
        }
    }
    assert!(enqueued > 0);
    assert_eq!(ends, 1);
    assert!(end_last);
}

#[test]
fn noop_sender_accepts_everything() {
    let s = noop_sender();
    assert!(ChannelSender::<Message>::send(&s, Message::Enqueued(Pos::new(0, 0), Cost::zero())).is_ok());
    let s2 = ChannelSender::<Message>::duplicate(&s);
    assert!(ChannelSender::<Message>::send(&s2, Message::Enqueued(Pos::new(1, 1), Cost::zero())).is_ok());
}

#[test]
fn heuristic_exact_values() {
    let maze = open_maze(10, 10, Pos::new(0, 0), Pos::new(9, 9));
    let h = DiagonalHeuristic::new(&maze);
    // From the start: dx = dy = 9, so 9 diagonal steps weighted by 1.001.
    let v = h.compute_heuristic(Pos::new(0, 0));
    assert_eq!(v.straight_millis, 0);
    assert_eq!(v.diag_millis, 9 * 1001);
    // From (9, 0): dx = 0, dy = 9: straight only.
    let v = h.compute_heuristic(Pos::new(9, 0));
    assert_eq!(v.straight_millis, 9 * 1001);
    assert_eq!(v.diag_millis, 0);
    // At the goal the estimate vanishes.
    let v = h.compute_heuristic(Pos::new(9, 9));
    assert_eq!(v, Cost::zero());
}

#[test]
fn reconstruct_path_expands_segments() {
    let maze = open_maze(8, 8, Pos::new(0, 0), Pos::new(7, 7));
    let gen = JpsGenerator::new(&maze);
    let compressed = vec![Pos::new(0, 0), Pos::new(3, 3), Pos::new(3, 6)];
    let info = gen.reconstruct_path(&compressed);
    assert_eq!(
        info.path,
        vec![
            Pos::new(0, 0),
            Pos::new(1, 1),
            Pos::new(2, 2),
            Pos::new(3, 3),
            Pos::new(3, 4),
            Pos::new(3, 5),
            Pos::new(3, 6),
        ]
    );
    let expected = Cost::straight(3).checked_add(&Cost::diagonal(3)).unwrap();
    assert_eq!(info.cost, expected);

    let empty = gen.reconstruct_path(&Vec::new());
    assert_eq!(empty.path.len(), 0);
    assert_eq!(empty.cost, Cost::zero());
}

#[test]
fn serpentine_maze_streams_every_relaxation() {
    let mut builder = MazeBuilder::new()
        .width(9)
        .height(9)
        .start(Pos::new(0, 0))
        .goal(Pos::new(8, 8));
    for y in [2u32, 6].iter() {
        for x in 0..8 {
            builder = builder.add_wall(Pos::new(x as i16, *y as i16));
        }
    }
    for y in [4u32].iter() {
        for x in 1..9 {
            builder = builder.add_wall(Pos::new(x as i16, *y as i16));
        }
    }
    let maze = builder.build().unwrap();
    let heuristic = DiagonalHeuristic::new(&maze);
    let (tx, rx) = channel::<Message>();
    let info = find_path(&maze, &heuristic, &tx);
    drop(tx);
    let mut enqueued = 0;
    while let Ok(msg) = rx.recv() {
        if let Message::Enqueued(_, _) = msg {
            enqueued += 1;
        }
    }
    assert!(info.path.is_some());
    // The search is deterministic: the snaking route relaxes exactly twelve
    // successors.
    assert_eq!(enqueued, 12);
    let path = info.path.unwrap();
    assert_eq!(path.path[0], Pos::new(0, 0));
    assert_eq!(path.path[path.path.len() - 1], Pos::new(8, 8));
    // The snake must pass the three gaps.
    assert!(path.path.contains(&Pos::new(8, 2)));
    assert!(path.path.contains(&Pos::new(0, 4)));
    assert!(path.path.contains(&Pos::new(8, 6)));
}
