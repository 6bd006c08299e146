use samegame::color::Color;
use samegame::grid::Grid;

#[test]
fn test_remove() {
    let shapes = vec![vec![
        Some(Color::Orange),
        Some(Color::Orange),
        Some(Color::Orange),
    ]];

    let mut grid = Grid::new(shapes);
    grid.remove(0, 0);

    let expected = vec![vec![None, None, None]];

    assert_eq!(grid.colors, expected);
}

#[test]
fn test_gravity() {
    let shapes = vec![
        vec![Some(Color::Orange)],
        vec![Some(Color::Orange)],
        vec![Some(Color::Blue)],
    ];

    let mut grid = Grid::new(shapes);
    grid.remove(2, 0);

    let expected = vec![
        vec![None],
        vec![Some(Color::Orange)],
        vec![Some(Color::Orange)],
    ];

    assert_eq!(grid.colors, expected);
}

#[test]
fn remove_on_empty_cell_changes_no_contents() {
    let shapes = vec![vec![Some(Color::Orange), None]];
    let mut grid = Grid::new(shapes.clone());
    grid.remove(0, 1);
    assert_eq!(grid.colors, shapes);
    assert_eq!(grid.moves, vec![(0, 1)]);
}

#[test]
fn isolated_cell_removed_alone() {
    // the Blue center touches only Pink, Orange and Green cells
    let grid0 = Grid::try_from("OPG\nPBO\nGOP").unwrap();
    let before = grid0.empty_tiles();
    let mut grid = grid0.clone();
    grid.remove(1, 1);
    assert_eq!(grid.empty_tiles(), before + 1);
    let expected = vec![
        vec![Some(Color::Orange), None, Some(Color::Green)],
        vec![Some(Color::Pink), Some(Color::Pink), Some(Color::Orange)],
        vec![Some(Color::Green), Some(Color::Orange), Some(Color::Pink)],
    ];
    assert_eq!(grid.colors, expected);
}

#[test]
fn flood_clears_whole_row_from_any_cell() {
    for start in 0..3 {
        let shapes = vec![vec![
            Some(Color::Blue),
            Some(Color::Blue),
            Some(Color::Blue),
        ]];
        let mut grid = Grid::new(shapes);
        grid.remove(0, start);
        assert!(grid.is_empty());
        assert!(grid.is_solved());
    }
}

#[test]
fn cluster_queries_match_enumeration() {
    // columns of Orange and Pink, and three lone cells
    let grid = Grid::try_from("OPG\nOPB\nOPG").unwrap();
    // regions: Orange column (3), Pink column (3), G, B, G (1 each)
    assert_eq!(grid.largest_cluster(), 3);
    assert_eq!(grid.cluster_count(), 5);
    // the region sizes partition the colored cells: 3 + 3 + 1 + 1 + 1
    assert_eq!(grid.empty_tiles(), 0);
    assert_eq!(grid.valid_moves().len(), 9);
}

#[test]
fn valid_moves_row_major_and_exact() {
    let grid = Grid::new(vec![
        vec![Some(Color::Orange), None],
        vec![None, Some(Color::Pink)],
    ]);
    assert_eq!(grid.valid_moves(), vec![(0, 0), (1, 1)]);
    assert_eq!(grid.empty_tiles(), 2);
    assert!(!grid.is_empty());
}

#[test]
fn empty_board_queries() {
    let grid = Grid::new(vec![vec![None, None]]);
    assert!(grid.is_empty());
    assert_eq!(grid.empty_tiles(), 2);
    assert_eq!(grid.largest_cluster(), 0);
    assert_eq!(grid.cluster_count(), 0);
    assert!(grid.valid_moves().is_empty());
}

#[test]
fn duplicate_is_independent() {
    let grid = Grid::try_from("OO\nPP").unwrap();
    let mut copy = grid.duplicate();
    copy.remove(0, 0);
    assert_eq!(grid.colors, Grid::try_from("OO\nPP").unwrap().colors);
    assert!(copy.colors[0][0].is_none());
    assert!(copy.colors[0][1].is_none());
}

#[test]
fn color_characters_round_trip() {
    assert_eq!(Color::Green.to_char(), 'G');
    assert_eq!(Color::Pink.to_char(), 'P');
    assert_eq!(Color::Blue.to_char(), 'B');
    assert_eq!(Color::Orange.to_char(), 'O');
    for c in [Color::Green, Color::Pink, Color::Blue, Color::Orange] {
        assert_eq!(Color::from_char(c.to_char()), Some(c));
    }
    assert_eq!(Color::from_char('X'), None);
}

#[test]
fn render_frames_the_board() {
    let grid = Grid::new(vec![
        vec![Some(Color::Orange), None],
        vec![Some(Color::Blue), Some(Color::Green)],
    ]);
    assert_eq!(grid.render(), "+--+\n|O |\n|BG|\n+--+\n");
}

#[test]
fn cluster_sizes_reconstruct_colored_count() {
    // one row, so gravity never merges regions: removing representatives
    // one by one partitions the colored cells among the original regions
    let grid0 = Grid::try_from("OOPPGO").unwrap();
    assert_eq!(grid0.largest_cluster(), 2);
    assert_eq!(grid0.cluster_count(), 4);
    let colored = 6 - grid0.empty_tiles();
    let mut grid = grid0.clone();
    let mut rounds = 0;
    let mut sum = 0;
    while let Some(&(row, col)) = grid.valid_moves().first() {
        let before = grid.empty_tiles();
        grid.remove(row, col);
        sum += grid.empty_tiles() - before;
        rounds += 1;
    }
    assert_eq!(sum, colored);
    assert_eq!(rounds, grid0.cluster_count());
    assert!(grid.is_solved());
}
