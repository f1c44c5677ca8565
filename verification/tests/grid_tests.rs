use std::collections::HashSet;

use minesweeper::{Cell, CellsIterValue, Grid};

fn generate_cells() -> Vec<Vec<Cell>> {
    let cells = vec![
        vec![Cell::Unknown, Cell::Unknown, Cell::Flag],
        vec![Cell::Unknown, Cell::Bomb, Cell::Unknown],
        vec![Cell::Number(0), Cell::Unknown, Cell::Number(5)],
    ];

    cells
}

fn generate_grid() -> Grid<Cell> {
    Grid::from(generate_cells(), 3, 3).unwrap()
}

#[test]
fn grid_new() {
    let grid: Grid<Cell> = Grid::new(10, 10, Cell::Unknown);

    assert_eq!(grid.cells.len(), grid.height.into());

    for y in 0..grid.height {
        assert_eq!(grid.cells[y as usize].len(), grid.width.into());

        for x in 0..grid.width {
            assert_eq!(grid.cells[y as usize][x as usize], Cell::Unknown);
        }
    }
}

#[test]
fn grid_cells_iter_1() {
    let grid = generate_grid();

    let out: Vec<_> = grid.get_iter().collect();

    assert_eq!(
        out,
        vec![
            CellsIterValue {
                pos: (0, 0),
                val: Cell::Number(0)
            },
            CellsIterValue {
                pos: (1, 0),
                val: Cell::Unknown
            },
            CellsIterValue {
                pos: (2, 0),
                val: Cell::Number(5)
            },
            CellsIterValue {
                pos: (0, 1),
                val: Cell::Unknown
            },
            CellsIterValue {
                pos: (1, 1),
                val: Cell::Bomb
            },
            CellsIterValue {
                pos: (2, 1),
                val: Cell::Unknown
            },
            CellsIterValue {
                pos: (0, 2),
                val: Cell::Unknown
            },
            CellsIterValue {
                pos: (1, 2),
                val: Cell::Unknown
            },
            CellsIterValue {
                pos: (2, 2),
                val: Cell::Flag
            },
        ]
    );
}

#[test]
fn grid_from_1() {
    let cells = generate_cells();
    let mut grid = Grid::new(3, 3, Cell::Unknown);
    grid.set_cell(0, 0, Cell::Number(0)).unwrap();
    grid.set_cell(2, 0, Cell::Number(5)).unwrap();
    grid.set_cell(1, 1, Cell::Bomb).unwrap();
    grid.set_cell(2, 2, Cell::Flag).unwrap();

    let from_grid = Grid::from(cells, grid.width, grid.height);
    assert!(from_grid.is_ok());

    let from_grid = from_grid.unwrap();

    println!("grid:\n{}\nfrom_grid:\n{}", grid.to_string(), from_grid.to_string());
    assert_eq!(grid, from_grid);
}

#[test]
fn grid_from_2() {
    let cells = generate_cells();
    let grid = Grid::new(3, 3, Cell::Unknown);

    let from_grid = Grid::from(cells, grid.width, grid.height);
    assert!(from_grid.is_ok());

    let from_grid = from_grid.unwrap();

    println!("grid:\n{}\nfrom_grid:\n{}", grid.to_string(), from_grid.to_string());
    assert_ne!(grid, from_grid);
}

#[test]
fn grid_from_3() {
    let cells = generate_cells();

    let from_grid = Grid::from(cells, 2, 2);
    assert!(from_grid.is_err());
}

#[test]
fn from_str_1() {
    let cells = generate_cells();
    let grid = Grid::from(cells, 3, 3).unwrap();

    let grid_from_str = Grid::from_str(
        "?  ?  F
?  B  ?
0  ?  5",
    )
    .unwrap();

    println!("{} {}", grid.to_string(), grid_from_str.to_string());

    assert_eq!(grid, grid_from_str)
}

#[test]
fn grid_get_cell_1() {
    let grid = generate_grid();

    let cell = grid.get_cell(0, 0);
    assert!(cell.is_some());

    let cell = cell.unwrap();
    println!("{}", grid.to_string());
    assert_eq!(cell, Cell::Number(0))
}

#[test]
fn grid_get_cell_2() {
    let grid = generate_grid();

    let cell = grid.get_cell(2, 2);
    assert!(cell.is_some());

    let cell = cell.unwrap();
    println!("{}", grid.to_string());
    assert_eq!(cell, Cell::Flag)
}

#[test]
fn grid_get_cell_3() {
    let grid = generate_grid();

    let cell = grid.get_cell(4, 2);
    println!("{}", grid.to_string());
    assert!(cell.is_none());
}

#[test]
fn grid_set_cell_1() {
    let mut grid = generate_grid();

    println!("before:\n{}", grid.to_string());
    let res = grid.set_cell(0, 0, Cell::Bomb);
    assert!(res.is_ok());

    println!("after:\n{}", grid.to_string());
    assert_eq!(grid.get_cell(0, 0).unwrap(), Cell::Bomb);
}

#[test]
fn grid_set_cell_2() {
    let mut grid = generate_grid();

    let res = grid.set_cell(4, 0, Cell::Bomb);
    assert!(res.is_err());
}

#[test]
fn grid_adj_cells_1() {
    let grid = generate_grid();
    println!("{}", grid.to_string());
    let adj_cells = grid.adj_cells(1, 1, None).unwrap();
    let adj_cells: HashSet<&(u8, u8)> = HashSet::from_iter(adj_cells.iter());

    let expected_adj_cells: HashSet<&(u8, u8)> = HashSet::from_iter(
        [
            (0, 0),
            (1, 0),
            (2, 0),
            (0, 1),
            (2, 1),
            (0, 2),
            (1, 2),
            (2, 2),
        ]
        .iter(),
    );

    assert_eq!(adj_cells, expected_adj_cells);
}

#[test]
fn grid_adj_cells_2() {
    let grid = generate_grid();
    println!("{}", grid.to_string());
    let adj_cells = grid
        .adj_cells(1, 1, Some(vec![Cell::Unknown]))
        .unwrap();
    let adj_cells: HashSet<&(u8, u8)> = HashSet::from_iter(adj_cells.iter());

    let expected_adj_cells: HashSet<&(u8, u8)> =
        HashSet::from_iter([(1, 0), (0, 1), (2, 1), (0, 2), (1, 2)].iter());

    assert_eq!(adj_cells, expected_adj_cells);
}

#[test]
fn grid_adj_cells_3() {
    let grid = generate_grid();
    println!("{}", grid.to_string());
    let adj_cells = grid.adj_number(1, 1).unwrap();
    let adj_cells: HashSet<&(u8, u8)> = HashSet::from_iter(adj_cells.iter());

    let expected_adj_cells: HashSet<&(u8, u8)> = HashSet::from_iter([(2, 0)].iter());

    assert_eq!(adj_cells, expected_adj_cells);
}

#[test]
fn grid_adj_cells_4() {
    let grid = generate_grid();
    println!("{}", grid.to_string());
    let adj_cells = grid.adj_flags(1, 1).unwrap();
    let adj_cells: HashSet<&(u8, u8)> = HashSet::from_iter(adj_cells.iter());

    let expected_adj_cells: HashSet<&(u8, u8)> = HashSet::from_iter([(2, 2)].iter());

    assert_eq!(adj_cells, expected_adj_cells);
}

#[test]
fn grid_adj_cells_5() {
    let grid = generate_grid();
    println!("{}", grid.to_string());
    let adj_cells = grid.adj_flags(0, 1).unwrap();
    let adj_cells: HashSet<&(u8, u8)> = HashSet::from_iter(adj_cells.iter());

    let expected_adj_cells: HashSet<&(u8, u8)> = HashSet::from_iter([].iter());

    assert_eq!(adj_cells, expected_adj_cells);
}

#[test]
fn grid_adj_cells_6() {
    let grid = generate_grid();
    println!("{}", grid.to_string());
    let adj_cells = grid.adj_bombs(0, 2).unwrap();
    let adj_cells: HashSet<&(u8, u8)> = HashSet::from_iter(adj_cells.iter());

    let expected_adj_cells: HashSet<&(u8, u8)> = HashSet::from_iter([(1, 1)].iter());

    assert_eq!(adj_cells, expected_adj_cells);
}

#[test]
fn unflatten_1() {
    let flat = vec![
        0, 0, 0, 0, 0, 0, 0, 0, 0, 0, 0, 0, 0, 0, 0, 0, 0, 0, 0, 0, 0, 0, 0, 0, 0,
    ];

    let grid = vec![
        vec![0, 0, 0, 0, 0],
        vec![0, 0, 0, 0, 0],
        vec![0, 0, 0, 0, 0],
        vec![0, 0, 0, 0, 0],
        vec![0, 0, 0, 0, 0],
    ];

    assert_eq!(minesweeper::unflatten(flat, 5, 5).unwrap(), grid);
}

#[test]
fn unflatten_2() {
    let flat = vec![
        0, 0, 4, 0, 0, 0, 1, 0, 0, 0, 3, 0, 7, 6, 0, 0, 2, 0, -2, 5, 0, 0, 5, 0, 0,
    ];

    let grid = vec![
        vec![0, 0, 4, 0, 0],
        vec![0, 1, 0, 0, 0],
        vec![3, 0, 7, 6, 0],
        vec![0, 2, 0, -2, 5],
        vec![0, 0, 5, 0, 0],
    ];

    assert_eq!(minesweeper::unflatten(flat, 5, 5).unwrap(), grid);
}

#[test]
fn unflatten_3() {
    let flat = vec![
        0, 0, 4, 0, 0, 0, 1, 0, 0, 0, 3, 0, 7, 6, 0, 0, 2, 0, -2, 5, 0, 0, 5, 0, 0,
    ];

    assert!(minesweeper::unflatten(flat, 5, 6).is_err());
}
