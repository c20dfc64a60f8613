use maze_generator::coordinate::Coordinate;
use maze_generator::depthfirstsearch::{
    depth_first, depth_first_seeded, get_unvisited_neighbor, is_dead,
};
use maze_generator::maze::Maze;
use rand::SeedableRng;

#[test]
fn unvisited_neighbor() {
    let mut maze = Maze::new(3, 3);
    maze.grid = vec![vec![1, 0, 1], vec![1, 0, 0], vec![1, 1, 1]];
    let mut rng = rand::rngs::StdRng::seed_from_u64(0);

    assert_eq!(
        Some(Coordinate::new(0, 2)),
        get_unvisited_neighbor(&maze, &mut rng, Coordinate::new(0, 0))
    );
    assert_eq!(
        Some(Coordinate::new(0, 2)),
        get_unvisited_neighbor(&maze, &mut rng, Coordinate::new(2, 2))
    );
    assert_eq!(None, get_unvisited_neighbor(&maze, &mut rng, Coordinate::new(2, 0)));
    assert_eq!(None, get_unvisited_neighbor(&maze, &mut rng, Coordinate::new(0, 2)));
}

#[test]
fn dead_ends() {
    let mut maze = Maze::new(3, 3);
    maze.grid = vec![vec![1, 0, 1], vec![1, 0, 0], vec![1, 1, 1]];
    assert!(!is_dead(&maze, Coordinate::new(0, 0)));
    assert!(is_dead(&maze, Coordinate::new(2, 0)));
    assert!(is_dead(&maze, Coordinate::new(0, 2)));
}

/// Junctions reachable from the start through opened wall cells.
fn reachable_junctions(maze: &Maze) -> usize {
    let mut seen = vec![vec![false; maze.height]; maze.width];
    let mut stack = vec![(maze.start.x, maze.start.y)];
    seen[maze.start.x][maze.start.y] = true;
    let mut count = 0;
    while let Some((x, y)) = stack.pop() {
        count += 1;
        let steps: [(isize, isize); 4] = [(-2, 0), (2, 0), (0, -2), (0, 2)];
        for (dx, dy) in steps {
            let nx = x as isize + dx;
            let ny = y as isize + dy;
            if nx < 0 || ny < 0 || nx >= maze.width as isize || ny >= maze.height as isize {
                continue;
            }
            let (nx, ny) = (nx as usize, ny as usize);
            let wx = (x + nx) / 2;
            let wy = (y + ny) / 2;
            if maze.grid[wx][wy] == 1 && !seen[nx][ny] {
                seen[nx][ny] = true;
                stack.push((nx, ny));
            }
        }
    }
    count
}

#[test]
fn five_by_five_scenario() {
    let maze = depth_first(Maze::new(5, 5));
    for x in [0usize, 2, 4] {
        for y in [0usize, 2, 4] {
            assert_eq!(1, maze.grid[x][y]);
            assert!(maze.is_visited(Coordinate::new(x, y)));
        }
    }
    let image = maze.as_image();
    assert_eq!(75, image.len());
    let mut red = 0;
    let mut blue = 0;
    for i in 0..25 {
        let triple = (image[3 * i], image[3 * i + 1], image[3 * i + 2]);
        if triple == (255, 0, 0) {
            red += 1;
        }
        if triple == (0, 0, 255) {
            blue += 1;
        }
    }
    assert_eq!(1, red);
    assert_eq!(1, blue);
    // Start (0,0) is the first triple, end (4,4) the last.
    assert_eq!(&[255, 0, 0], &image[0..3]);
    assert_eq!(&[0, 0, 255], &image[72..75]);
}

#[test]
fn carve_yields_spanning_tree_on_five_by_five() {
    for seed in 0..20u64 {
        let maze = depth_first_seeded(Maze::new(5, 5), seed);
        let mut open_walls = 0;
        for x in 0..5 {
            for y in 0..5 {
                if x % 2 == 1 && y % 2 == 1 {
                    // Cells between four junctions never open.
                    assert_eq!(0, maze.grid[x][y]);
                } else if (x % 2 == 0) != (y % 2 == 0) {
                    if maze.grid[x][y] == 1 {
                        open_walls += 1;
                    }
                } else {
                    assert_eq!(1, maze.grid[x][y]);
                }
            }
        }
        // A connected graph on 9 junctions with 8 edges is a tree.
        assert_eq!(9, reachable_junctions(&maze));
        assert_eq!(8, open_walls);
    }
}

#[test]
fn equal_seeds_carve_equal_mazes() {
    let a = depth_first_seeded(Maze::new(7, 7), 42);
    let b = depth_first_seeded(Maze::new(7, 7), 42);
    assert_eq!(a.grid, b.grid);
}

#[test]
fn degenerate_single_cell_terminates() {
    let maze = depth_first_seeded(Maze::new(1, 1), 7);
    assert_eq!(1, maze.width);
    assert_eq!(1, maze.height);
    assert_eq!(1, maze.grid[0][0]);
}
