use maze_solver::color::{Color, Gradient};
use maze_solver::maze::{Maze, MazeError};
use maze_solver::mazecell::MazeCell;
use maze_solver::raster::Raster;

fn black() -> Color {
    Color { r: 0, g: 0, b: 0 }
}

fn white() -> Color {
    Color { r: 255, g: 255, b: 255 }
}

fn red() -> Color {
    Color { r: 255, g: 0, b: 0 }
}

fn green() -> Color {
    Color { r: 0, g: 255, b: 0 }
}

fn blue() -> Color {
    Color { r: 0, g: 0, b: 255 }
}

/// Build a raster from rows of palette letters: W wall, P path, S start,
/// E end.
fn raster_of(rows: &[&str]) -> Raster {
    let h = rows.len() as u32;
    let w = rows[0].len() as u32;
    let mut img = Raster::new(w, h);
    for (y, row) in rows.iter().enumerate() {
        assert_eq!(row.len() as u32, w);
        for (x, ch) in row.chars().enumerate() {
            let color = match ch {
                'W' => black(),
                'P' => white(),
                'S' => red(),
                'E' => green(),
                _ => panic!("unknown cell letter"),
            };
            img.put_pixel(x as u32, y as u32, color);
        }
    }
    img
}

#[test]
fn classify_encode_round_trip() {
    let kinds = [MazeCell::Wall, MazeCell::Path, MazeCell::Start, MazeCell::End];
    for k in kinds {
        assert_eq!(MazeCell::classify(k.encode()), Ok(k));
    }
    // TraversedPath has no decode color: its encoding (blue) is rejected
    assert_eq!(
        MazeCell::classify(MazeCell::TraversedPath.encode()),
        Err(MazeError::InvalidPixelColor)
    );
}

#[test]
fn classify_rejects_off_palette_colors() {
    assert_eq!(
        MazeCell::classify(Color { r: 1, g: 2, b: 3 }),
        Err(MazeError::InvalidPixelColor)
    );
    assert_eq!(
        MazeCell::classify(Color { r: 254, g: 255, b: 255 }),
        Err(MazeError::InvalidPixelColor)
    );
}

#[test]
fn cell_predicates() {
    assert!(MazeCell::Wall.is_wall());
    assert!(MazeCell::Path.is_path());
    assert!(MazeCell::Start.is_start());
    assert!(MazeCell::End.is_end());
    assert!(!MazeCell::TraversedPath.is_path());
    assert_eq!(MazeCell::default(), MazeCell::Wall);
}

#[test]
fn decode_rejects_zero_dimensions() {
    let img = Raster::new(0, 5);
    assert!(matches!(Maze::try_from(&img), Err(MazeError::IncompatibleDimensons)));
}

#[test]
fn decode_rejects_invalid_pixel() {
    let mut img = raster_of(&["WWW", "SPE", "WWW"]);
    img.put_pixel(1, 0, Color { r: 7, g: 7, b: 7 });
    assert!(matches!(Maze::try_from(&img), Err(MazeError::InvalidPixelColor)));
}

#[test]
fn decode_rejects_missing_endpoints() {
    let img = raster_of(&["WWW", "WPW", "WWW"]);
    assert!(matches!(Maze::try_from(&img), Err(MazeError::MissingEndpoints)));
    let img = raster_of(&["WWW", "SPW", "WWW"]);
    assert!(matches!(Maze::try_from(&img), Err(MazeError::MissingEndpoints)));
    let img = raster_of(&["WWW", "WPE", "WWW"]);
    assert!(matches!(Maze::try_from(&img), Err(MazeError::MissingEndpoints)));
}

#[test]
fn decode_rejects_too_many_endpoints() {
    let img = raster_of(&["SWS", "WPW", "WWE"]);
    assert!(matches!(Maze::try_from(&img), Err(MazeError::TooManyEndpoints)));
    let img = raster_of(&["SWE", "WPW", "WWE"]);
    assert!(matches!(Maze::try_from(&img), Err(MazeError::TooManyEndpoints)));
}

#[test]
fn decode_seeds_path_with_start() {
    let img = raster_of(&["WWW", "SPE", "WWW"]);
    let maze = Maze::try_from(&img).unwrap();
    assert_eq!(maze.width(), 3);
    assert_eq!(maze.height(), 3);
    assert_eq!(maze.path(), vec![(0, 1)]);
    assert!(!maze.is_solved());
    assert!(maze.is_ready());
}

#[test]
fn three_by_three_scenario() {
    // row 0 walls, row 1 start-path-end, row 2 walls: decoding succeeds
    // and the solver reaches (2, 1); the path runs from the cell beside
    // the start through the end
    let mut img = raster_of(&["WWW", "SPE", "WWW"]);
    let mut maze = Maze::try_from(&img).unwrap();
    maze.solve();
    assert!(maze.is_solved());
    assert_eq!(maze.path(), vec![(1, 1), (2, 1)]);

    // rendering a red-to-green gradient paints the first path cell
    // exactly red (t = 0) and the second with the midpoint blend
    let gradient = Gradient::Linear { from: red(), to: green() };
    maze.print_over_image(&mut img, &gradient);
    assert_eq!(img.get_pixel(1, 1), red());
    assert_eq!(img.get_pixel(2, 1), Color { r: 128, g: 128, b: 0 });
    // pixels off the path keep their colors
    assert_eq!(img.get_pixel(0, 0), black());
    assert_eq!(img.get_pixel(0, 1), red());
    assert_eq!(img.get_pixel(1, 0), black());
}

#[test]
fn solved_maze_is_no_longer_ready() {
    let img = raster_of(&["WWW", "SPE", "WWW"]);
    let mut maze = Maze::try_from(&img).unwrap();
    assert!(maze.is_ready());
    maze.solve();
    assert!(!maze.is_ready());
}

#[test]
fn unreachable_end_is_reported_unsolved() {
    // the end cell is walled off: the search terminates with no solution
    // and leaves the maze exactly as decoded
    let img = raster_of(&["WWW", "SWE", "WWW"]);
    let mut maze = Maze::try_from(&img).unwrap();
    maze.solve();
    assert!(!maze.is_solved());
    assert_eq!(maze.path(), vec![(0, 1)]);
}

#[test]
fn unreachable_end_in_larger_grid() {
    let img = raster_of(&["SPPW", "WWPW", "WWWW", "WEPP"]);
    let mut maze = Maze::try_from(&img).unwrap();
    maze.solve();
    assert!(!maze.is_solved());
    assert_eq!(maze.path(), vec![(0, 0)]);
}

#[test]
fn tie_break_prefers_left_then_right_then_up_then_down() {
    // two equally short routes around a central wall; from the start the
    // neighbor order is left, right, up, down, so the route through the
    // upper row must win
    let img = raster_of(&["PPP", "SWE", "PPP"]);
    let mut maze = Maze::try_from(&img).unwrap();
    maze.solve();
    assert!(maze.is_solved());
    assert_eq!(maze.path(), vec![(0, 0), (1, 0), (2, 0), (2, 1)]);
}

#[test]
fn snake_maze_is_solved() {
    let img = raster_of(&["SWPPP", "PWPWP", "PWPWP", "PPPWE"]);
    let mut maze = Maze::try_from(&img).unwrap();
    maze.solve();
    assert!(maze.is_solved());
    assert_eq!(
        maze.path(),
        vec![
            (0, 1),
            (0, 2),
            (0, 3),
            (1, 3),
            (2, 3),
            (2, 2),
            (2, 1),
            (2, 0),
            (3, 0),
            (4, 0),
            (4, 1),
            (4, 2),
            (4, 3)
        ]
    );
}

#[test]
fn solver_marks_winning_cells_for_rendering() {
    // after a solve, the path cells are painted by the alternating
    // gradient in strict parity order
    let mut img = raster_of(&["WWW", "SPE", "WWW"]);
    let mut maze = Maze::try_from(&img).unwrap();
    maze.solve();
    let cyan = Color { r: 0, g: 255, b: 255 };
    let gradient = Gradient::Alternating { first: blue(), second: cyan };
    maze.print_over_image(&mut img, &gradient);
    assert_eq!(img.get_pixel(1, 1), blue());
    assert_eq!(img.get_pixel(2, 1), cyan);
}

#[test]
fn raster_round_trips_pixels() {
    // a freshly made raster is black; writing a pixel is readable back
    let mut img = Raster::new(2, 2);
    assert_eq!(img.width(), 2);
    assert_eq!(img.height(), 2);
    assert_eq!(img.get_pixel(0, 0), black());
    img.put_pixel(1, 0, green());
    assert_eq!(img.get_pixel(1, 0), green());
    assert_eq!(img.get_pixel(0, 1), black());
}
