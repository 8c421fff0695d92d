use maze_exit::binary_maze::{BinaryMazeError, BinaryMazeWriter, Cell, MazeBinaryReader, read_cell};
use maze_exit::context::{create_context, Context, UIType};
use maze_exit::image_maze::{is_goal, is_start, is_wall, maze_from_pixels};
use maze_exit::maze::Maze;
use maze_exit::maze_builder::MazeBuilder;
use maze_exit::position::Pos;

fn sample_maze() -> Maze {
    MazeBuilder::new()
        .width(7)
        .height(5)
        .start(Pos::new(0, 0))
        .goal(Pos::new(6, 4))
        .add_wall(Pos::new(1, 1))
        .add_wall(Pos::new(1, 2))
        .add_wall(Pos::new(5, 3))
        .build()
        .unwrap()
}

fn same_wall_set(a: &Maze, b: &Maze) {
    let wa = a.walls();
    let wb = b.walls();
    assert_eq!(wa.len(), wb.len());
    for w in &wa {
        assert!(wb.contains(w));
    }
}

#[test]
fn binary_round_trip() {
    let maze = sample_maze();
    let bytes = BinaryMazeWriter.write_maze(&maze).unwrap();
    assert!(MazeBinaryReader.check(&bytes));
    let back = MazeBinaryReader.read_maze(&bytes).unwrap();
    assert_eq!(back.width(), maze.width());
    assert_eq!(back.height(), maze.height());
    assert_eq!(back.start(), maze.start());
    assert_eq!(back.goal(), maze.goal());
    same_wall_set(&maze, &back);
}

#[test]
fn binary_reader_rejects_bad_header() {
    let bytes = vec![1u8, 2, 3, 4, 5];
    assert!(!MazeBinaryReader.check(&bytes));
    assert!(matches!(
        MazeBinaryReader.read_maze(&bytes),
        Err(BinaryMazeError::BadHeader)
    ));
    let short = vec![77u8, 65];
    assert!(matches!(
        MazeBinaryReader.read_maze(&short),
        Err(BinaryMazeError::BadHeader)
    ));
}

#[test]
fn binary_reader_rejects_corrupt_stream() {
    let mut bytes = vec![77u8, 65, 90, 69];
    bytes.extend_from_slice(&[0, 1, 2, 3, 4, 5, 6, 7]);
    assert!(matches!(
        MazeBinaryReader.read_maze(&bytes),
        Err(BinaryMazeError::Corrupt(_))
    ));
}

fn framed(payload: &[u8]) -> Vec<u8> {
    let mut bytes = vec![77u8, 65, 90, 69];
    bytes.extend_from_slice(&zstd::stream::encode_all(payload, 0).unwrap());
    bytes
}

#[test]
fn binary_reader_rejects_malformed_payloads() {
    // Too short for the two size words.
    assert!(matches!(
        MazeBinaryReader.read_maze(&framed(&[0, 0, 0, 1])),
        Err(BinaryMazeError::Malformed(_))
    ));
    // Sides out of range.
    assert!(matches!(
        MazeBinaryReader.read_maze(&framed(&[0, 0, 0, 0, 0, 0, 0, 1, 0])),
        Err(BinaryMazeError::Malformed(_))
    ));
    // Cell bytes missing.
    assert!(matches!(
        MazeBinaryReader.read_maze(&framed(&[0, 0, 0, 9, 0, 0, 0, 9])),
        Err(BinaryMazeError::Malformed(_))
    ));
    // Two starts: codes 01 01 in the single cell byte of a 2x1 grid.
    assert!(matches!(
        MazeBinaryReader.read_maze(&framed(&[0, 0, 0, 2, 0, 0, 0, 1, 0b0101_0000])),
        Err(BinaryMazeError::Malformed(_))
    ));
    // No goal on a 2x1 grid with one start.
    assert!(matches!(
        MazeBinaryReader.read_maze(&framed(&[0, 0, 0, 2, 0, 0, 0, 1, 0b0100_0000])),
        Err(BinaryMazeError::Malformed(_))
    ));
}

#[test]
fn binary_reader_accepts_minimal_grid() {
    // 2x1: start then goal.
    let maze = MazeBinaryReader
        .read_maze(&framed(&[0, 0, 0, 2, 0, 0, 0, 1, 0b0110_0000]))
        .unwrap();
    assert_eq!(maze.width(), 2);
    assert_eq!(maze.height(), 1);
    assert_eq!(maze.start(), Pos::new(0, 0));
    assert_eq!(maze.goal(), Pos::new(1, 0));
    assert_eq!(maze.walls().len(), 0);
}

#[test]
fn cell_codes_round_trip() {
    assert_eq!(Cell::try_from(0).unwrap(), Cell::Empty);
    assert_eq!(Cell::try_from(1).unwrap(), Cell::Start);
    assert_eq!(Cell::try_from(2).unwrap(), Cell::Goal);
    assert_eq!(Cell::try_from(3).unwrap(), Cell::Wall);
    assert!(Cell::try_from(4).is_err());
    assert_eq!(Cell::Wall.code(), 3);

    let cells = read_cell(0b0110_0011);
    assert_eq!(cells[0], Cell::Start);
    assert_eq!(cells[1], Cell::Goal);
    assert_eq!(cells[2], Cell::Empty);
    assert_eq!(cells[3], Cell::Wall);
}

#[test]
fn image_reader_detect_red() {
    assert!(is_start([237, 28, 36]));
    assert!(!is_start([10, 28, 36]));
}

#[test]
fn image_reader_detect_green() {
    assert!(is_goal([34, 177, 76]));
}

#[test]
fn pixel_classification() {
    assert!(is_wall([0, 0, 0]));
    assert!(!is_wall([237, 28, 36]));
    assert!(!is_goal([237, 28, 36]));
    assert!(!is_wall([255, 255, 255]));
    assert!(!is_start([255, 255, 255]));
    assert!(!is_goal([255, 255, 255]));
}

#[test]
fn maze_from_pixels_classifies_cells() {
    // 2x2: red start, green goal, black wall, white free.
    let rgb = vec![
        255u8, 0, 0, // (0,0) start
        0, 255, 0, // (1,0) goal
        0, 0, 0, // (0,1) wall
        255, 255, 255, // (1,1) free
    ];
    let maze = maze_from_pixels(2, 2, &rgb).unwrap();
    assert_eq!(maze.start(), Pos::new(0, 0));
    assert_eq!(maze.goal(), Pos::new(1, 0));
    assert_eq!(maze.walls(), vec![Pos::new(0, 1)]);

    // A raster of the wrong length is rejected.
    assert!(maze_from_pixels(2, 2, &vec![0u8; 9]).is_err());
    // A raster without a start is rejected.
    let rgb = vec![255u8; 12];
    assert!(maze_from_pixels(2, 2, &rgb).is_err());
}

#[test]
fn image_round_trip() {
    let maze = sample_maze();
    let png = maze_exit::image_maze::ImageMazeWriter.write_maze(&maze).unwrap();
    let back = maze_exit::image_maze::MazeImageReader.read_maze(&png).unwrap();
    assert_eq!(back.width(), maze.width());
    assert_eq!(back.height(), maze.height());
    assert_eq!(back.start(), maze.start());
    assert_eq!(back.goal(), maze.goal());
    same_wall_set(&maze, &back);
}

#[test]
fn test_create_context_gui() {
    let context = create_context(UIType::Gui).unwrap();
    assert_eq!(context, Context::ShowImage);
    let res = context.run(|| Ok(()));
    assert!(res.is_ok());
}

#[test]
fn test_create_context_plain() {
    assert_eq!(create_context(UIType::Terminal).unwrap(), Context::Plain);
    assert_eq!(create_context(UIType::No).unwrap(), Context::Plain);
    let res = create_context(UIType::No).unwrap().run(|| Ok(()));
    assert!(res.is_ok());
}

#[test]
fn test_run_context_gui_err() {
    let context = create_context(UIType::Gui).unwrap();
    let res = context.run(|| {
        let err = "Error".to_string();
        Err(err)
    });
    assert!(res.is_err());
    assert_eq!(res.err().unwrap(), "Error");
}
