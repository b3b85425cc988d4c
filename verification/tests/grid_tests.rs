use starlight::grid::{Direction, Grid};

fn sample() -> Grid<usize> {
    Grid::new((3, 2), |(i, j)| i + 10 * j).unwrap()
}

#[test]
fn grid_new_and_get() {
    assert!(Grid::new((0, 2), |_| 0u8).is_none());
    assert!(Grid::new((2, 0), |_| 0u8).is_none());
    let g = sample();
    assert_eq!(g.len(), (3, 2));
    assert_eq!(g.nzlen(), (3, 2));
    assert_eq!(g.get((2, 1)), Some(&12));
    assert_eq!(g.get((0, 0)), Some(&0));
    assert_eq!(g.get((3, 0)), None);
    assert_eq!(g.get((0, 2)), None);
    assert_eq!(g.get_flat1(), &[0, 1, 2, 10, 11, 12]);
}

#[test]
fn grid_mutation() {
    let mut g = sample();
    *g.get_mut((1, 1)).unwrap() = 99;
    assert_eq!(g.get((1, 1)), Some(&99));
    assert!(g.get_mut((5, 5)).is_none());
    assert_eq!(g.get2((0, 0), (2, 1)), Some((&0, &12)));
    assert!(g.get2((0, 0), (0, 0)).is_none());
    {
        let (a, b) = g.get2_mut((0, 0), (2, 1)).unwrap();
        std::mem::swap(a, b);
    }
    assert_eq!(g.get((0, 0)), Some(&12));
    assert_eq!(g.get((2, 1)), Some(&0));
    g.for_each_mut(|x, (i, j)| x + i + j);
    assert_eq!(g.get((1, 1)), Some(&101));
    g.get_mut_flat1()[5] = 7;
    assert_eq!(g.get((2, 1)), Some(&7));
}

#[test]
fn grid_iteration_orders() {
    let g = sample();
    assert_eq!(g.for_each(), vec![(0, 0), (1, 0), (2, 0), (0, 1), (1, 1), (2, 1)]);
    let small = Grid::new((2, 2), |_| ()).unwrap();
    assert_eq!(small.for_each_edge(), vec![
        ((0, 0), Direction::Neg0),
        ((0, 1), Direction::Neg0),
        ((1, 0), Direction::Pos0),
        ((1, 1), Direction::Pos0),
        ((0, 0), Direction::Neg1),
        ((1, 0), Direction::Neg1),
        ((0, 1), Direction::Pos1),
        ((1, 1), Direction::Pos1),
    ]);
    assert_eq!(small.for_each_orthogonal_pair(), vec![
        ((0, 0), (1, 0), false),
        ((0, 0), (0, 1), true),
        ((0, 1), (1, 1), false),
        ((1, 0), (1, 1), true),
    ]);
}
