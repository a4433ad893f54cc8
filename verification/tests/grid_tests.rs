use flood_it::colour::Colour;
use flood_it::grid::Grid;

#[test]
pub fn generates_grid_of_correct_size() {
    let size = 3;

    let grid = Grid::generate(size, 4);

    assert_eq!(grid.number_of_rows, size);
    assert_eq!(grid.number_of_columns, size);
    assert_eq!(grid.cells.len(), size * size);
}

#[test]
fn generate_draws_only_from_the_allowed_palette() {
    let grid = Grid::generate(5, 3);

    for cell in &grid.cells {
        assert!(matches!(cell, Colour::Red | Colour::Yellow | Colour::Green));
    }
}

#[test]
fn grids_compare_by_shape_and_cells() {
    let a = Grid {
        number_of_rows: 1,
        number_of_columns: 2,
        cells: vec![Colour::Red, Colour::Blue],
    };
    let b = Grid {
        number_of_rows: 1,
        number_of_columns: 2,
        cells: vec![Colour::Red, Colour::Blue],
    };
    let c = Grid {
        number_of_rows: 1,
        number_of_columns: 2,
        cells: vec![Colour::Red, Colour::Cyan],
    };
    assert_eq!(a, b);
    assert_ne!(a, c);
}
