use gridist::distance::Distance;
use gridist::grid::{Measure, Point, Tile};
use gridist::parser::grid_from_str;
use gridist::search::{astar, Node, OpenList};

#[test]
fn solve_with_astar() {
    let mut grid = grid_from_str(
        "type octile
height 4
width 4
map
....
.TT.
.TT.
....",
    )
    .unwrap();

    let path = astar(
        &mut grid,
        &Point::new(0, 0),
        &Point::new(0, 0),
        Distance::octile_heuristic,
        Tile::passable,
    )
    .unwrap()
    .path;

    assert_eq!(path.len(), 0);

    let path = astar(
        &mut grid,
        &Point::new(0, 0),
        &Point::new(3, 3),
        Distance::octile_heuristic,
        Tile::passable,
    )
    .unwrap()
    .path;

    assert_eq!(path.len(), 5);
}

#[test]
fn astar_on_open_ground() {
    let mut grid = grid_from_str("type octile\nheight 4\nwidth 4\nmap\n....\n....\n....\n....").unwrap();
    let data = astar(
        &mut grid,
        &Point::new(0, 0),
        &Point::new(3, 3),
        Distance::octile_heuristic,
        Tile::passable,
    )
    .unwrap();
    // three diagonal steps, listed from the target back
    assert_eq!(data.path, vec![Point::new(3, 3), Point::new(2, 2), Point::new(1, 1)]);
    assert_eq!(data.expansions, 4);
    assert_eq!(grid.get(&Point::new(3, 3)).unwrap().g(), Distance::new(0, 3));
}

#[test]
fn astar_finds_no_way_through_water() {
    let mut grid = grid_from_str("type octile\nheight 3\nwidth 3\nmap\n.W.\n.W.\n.W.").unwrap();
    let found = astar(
        &mut grid,
        &Point::new(0, 0),
        &Point::new(2, 2),
        Distance::octile_heuristic,
        Tile::passable,
    );
    assert!(found.is_none());
    // by belief nothing is known to be in the way
    let found = astar(
        &mut grid,
        &Point::new(0, 0),
        &Point::new(2, 2),
        Distance::octile_heuristic,
        Tile::freespace,
    );
    assert_eq!(found.unwrap().path.len(), 2);
}

#[test]
fn astar_leaves_a_tree_of_parents() {
    let mut grid = grid_from_str("type octile\nheight 4\nwidth 4\nmap\n....\n.TT.\n.TT.\n....").unwrap();
    let source = Point::new(0, 0);
    let data = astar(&mut grid, &source, &Point::new(3, 3), Distance::octile_heuristic, Tile::passable).unwrap();
    let episode = grid.next_episode() - 1;
    let mut marked = 0;
    for y in 0..4 {
        for x in 0..4 {
            let p = Point::new(y, x);
            let tile = grid.get(&p).unwrap();
            if tile.visited(episode) {
                marked += 1;
                match tile.parent() {
                    None => assert_eq!(p, source),
                    Some(q) => {
                        assert!(grid.get(&q).unwrap().visited(episode));
                        assert!(p.neighbors().contains(&Some(q)));
                    }
                }
            }
        }
    }
    assert!(marked >= data.path.len() + 1);
    // the path follows the parents
    let mut at = Point::new(3, 3);
    for step in data.path.iter() {
        assert_eq!(*step, at);
        at = grid.get(&at).unwrap().parent().unwrap();
    }
    assert_eq!(at, source);
}

fn node(y: usize, f: (u64, u64), g: (u64, u64)) -> Node {
    Node { point: Point::new(y, 0), f: Distance::new(f.0, f.1), g: Distance::new(g.0, g.1) }
}

#[test]
fn open_list_gives_least_f_then_least_g() {
    let mut open = OpenList::new();
    assert!(open.pop().is_none());
    open.push(node(0, (3, 0), (1, 0)));
    open.push(node(1, (0, 2), (0, 0)));
    open.push(node(2, (0, 2), (0, 1)));
    open.push(node(3, (5, 5), (0, 0)));
    open.push(node(4, (1, 1), (1, 1)));
    open.push(node(5, (1, 1), (1, 0)));
    assert_eq!(open.len(), 6);
    let mut order = Vec::new();
    while let Some(n) = open.pop() {
        order.push(n.point().y());
    }
    // 1 + sqrt(2) = 2.41 (g 1, then g 1 + sqrt(2)), 2 sqrt(2) = 2.83 (g 0, then g sqrt(2)), 3, 5 + 5 sqrt(2)
    assert_eq!(order, vec![5, 4, 1, 2, 0, 3]);
    assert_eq!(open.len(), 0);
}

#[test]
fn open_list_breaks_ties_by_point() {
    let mut open = OpenList::new();
    let f = Distance::new(2, 1);
    let g = Distance::new(1, 0);
    for &(y, x) in [(2usize, 0usize), (0, 3), (1, 1), (0, 1), (2, 2), (1, 0)].iter() {
        open.push(Node { point: Point::new(y, x), f: f, g: g });
    }
    let mut order = Vec::new();
    while let Some(n) = open.pop() {
        order.push((n.point().y(), n.point().x()));
    }
    assert_eq!(order, vec![(0, 1), (0, 3), (1, 0), (1, 1), (2, 0), (2, 2)]);
}

#[test]
fn open_list_sorts_many_nodes() {
    let mut open = OpenList::new();
    let mut seed: u64 = 12345;
    let mut keys = Vec::new();
    for i in 0..200usize {
        seed = seed.wrapping_mul(6364136223846793005).wrapping_add(1442695040888963407);
        let a = (seed >> 33) % 7;
        let b = (seed >> 40) % 5;
        let c = (seed >> 50) % 3;
        open.push(Node { point: Point::new(i, 0), f: Distance::new(a, b), g: Distance::new(c, 0) });
        keys.push((a, b, c, i));
    }
    let mut last: Option<Node> = None;
    let mut count = 0;
    while let Some(n) = open.pop() {
        if let Some(previous) = last {
            assert!(previous.comes_before(&n));
            assert!(!n.comes_before(&previous));
        }
        last = Some(n);
        count += 1;
    }
    assert_eq!(count, 200);
}

#[test]
fn node_order() {
    let a = node(0, (1, 1), (1, 0));
    let b = node(1, (1, 1), (1, 1));
    let c = node(2, (3, 0), (0, 0));
    assert!(a.comes_before(&b));
    assert!(!b.comes_before(&a));
    assert!(b.comes_before(&c));
    assert!(!c.comes_before(&a));
    assert!(a.comes_before(&a));
    // equal f and g: the point decides, row by row
    let d = node(1, (1, 1), (1, 0));
    assert!(a.comes_before(&d));
    assert!(!d.comes_before(&a));
    let left = Node { point: Point::new(1, 0), f: d.f, g: d.g };
    let right = Node { point: Point::new(1, 4), f: d.f, g: d.g };
    assert!(left.comes_before(&right));
    assert!(!right.comes_before(&left));
}
