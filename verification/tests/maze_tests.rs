use maze_generator::coordinate::Coordinate;
use maze_generator::maze::Maze;

#[test]
fn constructor() {
    let maze = Maze::new(6, 3);
    assert_eq!(3, maze.height);
    assert_eq!(5, maze.width);
}

#[test]
fn inside() {
    let maze = Maze::new(3, 5);
    assert!(maze.is_inside(2, 0));
    assert!(!maze.is_inside(2, 5));
    assert!(maze.is_inside(2, 4));
}

#[test]
fn connect() {
    let mut maze = Maze::new(3, 3);
    maze.grid = vec![vec![1, 0, 1], vec![0, 0, 0], vec![1, 0, 1]];
    maze.connect(Coordinate::new(0, 0), Coordinate::new(0, 0));
    assert_eq!(0, maze.grid[1][0]);
    assert_eq!(0, maze.grid[0][1]);
    maze.connect(Coordinate::new(0, 0), Coordinate::new(2, 0));
    assert_eq!(1, maze.grid[1][0]);
    assert_eq!(0, maze.grid[0][1]);
    maze.connect(Coordinate::new(0, 0), Coordinate::new(0, 2));
    assert_eq!(1, maze.grid[0][1]);
    assert_eq!(0, maze.grid[1][2]);
}

#[test]
fn visited() {
    let mut maze = Maze::new(3, 3);
    maze.grid = vec![vec![1, 0, 1], vec![1, 0, 0], vec![1, 1, 1]];

    assert_eq!(true, maze.is_visited(Coordinate::new(0, 0)));
    assert_eq!(true, maze.is_visited(Coordinate::new(2, 0)));
    assert_eq!(false, maze.is_visited(Coordinate::new(0, 2)));
}

#[test]
fn constructor_defaults_and_degenerate() {
    let maze = Maze::new(5, 5);
    assert_eq!(5, maze.width);
    assert_eq!(5, maze.height);
    assert_eq!(Coordinate::new(0, 0), maze.start);
    assert_eq!(Coordinate::new(4, 4), maze.end);
    for x in 0..5 {
        for y in 0..5 {
            assert_eq!(0, maze.grid[x][y]);
        }
    }

    let tiny = Maze::new(0, 1);
    assert_eq!(1, tiny.width);
    assert_eq!(1, tiny.height);
}

#[test]
fn init_opens_exactly_the_junctions() {
    let mut maze = Maze::new(5, 5);
    maze.init();
    for x in 0..5 {
        for y in 0..5 {
            if x % 2 == 0 && y % 2 == 0 {
                assert_eq!(1, maze.grid[x][y]);
            } else {
                assert_eq!(0, maze.grid[x][y]);
            }
        }
    }
}

#[test]
fn start_and_end_snap_to_even() {
    let mut maze = Maze::new(7, 7);
    maze.set_start(Coordinate::new(3, 1));
    assert_eq!(Coordinate::new(2, 0), maze.start);
    maze.set_start(Coordinate::new(4, 6));
    assert_eq!(Coordinate::new(4, 6), maze.start);
    maze.set_end(Coordinate::new(5, 5));
    assert_eq!(Coordinate::new(4, 4), maze.end);
}

#[test]
fn image_colors_per_cell() {
    let mut maze = Maze::new(3, 3);
    maze.grid = vec![vec![1, 0, 1], vec![0, 0, 0], vec![1, 0, 1]];
    let image = maze.as_image();
    assert_eq!(27, image.len());
    // Row 0: start, wall, path.
    assert_eq!(&[255, 0, 0, 0, 0, 0, 255, 255, 255], &image[0..9]);
    // Row 1: three walls.
    assert_eq!(&[0, 0, 0, 0, 0, 0, 0, 0, 0], &image[9..18]);
    // Row 2: path, wall, end.
    assert_eq!(&[255, 255, 255, 0, 0, 0, 0, 0, 255], &image[18..27]);
}
