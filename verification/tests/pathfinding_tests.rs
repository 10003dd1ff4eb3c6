use core::cmp::Ordering;
use maze_game::grid_coord::GridCoord;
use maze_game::pathfinding::Node;
use maze_game::pathfinding::path_find;

#[test]
fn test_init_start_costs() {
    let start = GridCoord::new(1, 2);
    let end = GridCoord::new(3, 4);
    let node = Node::init_start(start, end);
    assert_eq!(node.coord, start);
    assert_eq!(node.parent_node, GridCoord::new(0, 0));
    assert_eq!(node.g_cost, 0);
    // 3*3 + 4*4 + 1*1 + 2*2
    assert_eq!(node.h_cost, 30);
    assert_eq!(node.f_cost(), 30);
}

#[test]
fn test_h_cost_formula() {
    let from = GridCoord::new(0, 0);
    let end = GridCoord::new(5, 0);
    assert_eq!(Node::h_cost(&from, &end), 25);
}

#[test]
fn test_node_ordering_by_f_cost() {
    let cheap = Node {
        parent_node: GridCoord::new(0, 0),
        coord: GridCoord::new(1, 1),
        g_cost: 1,
        h_cost: 2,
    };
    let costly = Node {
        parent_node: GridCoord::new(0, 0),
        coord: GridCoord::new(2, 2),
        g_cost: 4,
        h_cost: 4,
    };
    assert_eq!(cheap.partial_cmp(&costly), Some(Ordering::Less));
    assert_eq!(costly.partial_cmp(&cheap), Some(Ordering::Greater));
    let same_cost = Node {
        parent_node: GridCoord::new(9, 9),
        coord: GridCoord::new(0, 3),
        g_cost: 0,
        h_cost: 3,
    };
    // nodes compare by combined cost alone, wherever they sit
    assert_eq!(cheap.partial_cmp(&same_cost), Some(Ordering::Equal));
    assert!(cheap == same_cost);
    assert!(cheap != costly);
}

#[test]
fn test_path_find_visits_only_the_start() {
    let from = GridCoord::new(2, 3);
    let to = GridCoord::new(7, 1);
    let visited = path_find(from, to);
    assert_eq!(visited, vec![from]);
}
