use maze_game::array2d::Array2D;
use maze_game::maze::Maze;
use maze_game::maze::Symbol;
use maze_game::maze::SymbolConsts;
use maze_game::maze::symbol_for_click;

#[test]
fn test_save_load_maze() {
    let mut maze = Maze::new_empty(10, 5);
    for x in 1..4 {
        maze.set((x, 3), Symbol::BLOCKED);
    }

    for y in 0..3 {
        maze.set((0, y), Symbol::ENEMY_SPAWN);
    }
    maze.set((9, 4), Symbol::PLAYER_SPAWN);

    // write out the text form and read it back
    let saved = maze.grid.to_string();
    let loaded_maze = Maze { grid: Array2D::from(saved) };

    // assert equal
    assert_eq!(maze, loaded_maze);
}

#[test]
fn test_player_spawn_coord() {
    let mut maze = Maze::new_empty(4, 3);
    assert_eq!(maze.player_spawn_coord(), None);
    maze.set((2, 1), Symbol::PLAYER_SPAWN);
    assert_eq!(maze.player_spawn_coord(), Some((2, 1)));
    // the scan returns the first spawn in row order
    maze.set((3, 0), Symbol::PLAYER_SPAWN);
    assert_eq!(maze.player_spawn_coord(), Some((3, 0)));
}

#[test]
fn test_blocked_coords() {
    let mut maze = Maze::new_empty(3, 3);
    assert_eq!(maze.blocked_coords(), vec![]);
    maze.set((2, 0), Symbol::BLOCKED);
    maze.set((0, 2), Symbol::BLOCKED);
    maze.set((1, 1), Symbol::BLOCKED);
    // row by row, left to right
    assert_eq!(maze.blocked_coords(), vec![(2, 0), (1, 1), (0, 2)]);
}

#[test]
fn test_new_empty_is_all_free() {
    let maze = Maze::new_empty(2, 2);
    for y in 0..2 {
        for x in 0..2 {
            assert_eq!(*maze.get((x, y)), Symbol::FREE);
        }
    }
    assert_eq!(maze.width(), 2);
    assert_eq!(maze.height(), 2);
}

#[test]
fn test_symbol_for_click() {
    assert_eq!(symbol_for_click(true, false), Symbol::PLAYER_SPAWN);
    assert_eq!(symbol_for_click(true, true), Symbol::PLAYER_SPAWN);
    assert_eq!(symbol_for_click(false, true), Symbol::ENEMY_SPAWN);
    assert_eq!(symbol_for_click(false, false), Symbol::BLOCKED);
}

#[test]
fn test_display_string() {
    let mut maze = Maze::new_empty(3, 2);
    maze.set((1, 0), Symbol::BLOCKED);
    assert_eq!(
        maze.display_string(),
        "Maze: dimensions(3, 2),\nmaze: \n.#.\n...\n"
    );
}

#[test]
fn test_maze_text_round_trip_with_spawns() {
    let mut maze = Maze::new_empty(5, 4);
    maze.set((0, 0), Symbol::PLAYER_SPAWN);
    maze.set((4, 3), Symbol::ENEMY_SPAWN);
    maze.set((2, 2), Symbol::BLOCKED);
    let text = maze.grid.to_string();
    assert_eq!(text, "P....\n.....\n..#..\n....E\n");
    let loaded = Maze { grid: Array2D::from(text) };
    assert_eq!(maze, loaded);
    assert_eq!(loaded.player_spawn_coord(), Some((0, 0)));
    assert_eq!(loaded.blocked_coords(), vec![(2, 2)]);
}
