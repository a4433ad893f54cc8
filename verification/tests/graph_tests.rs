use flood_it::colour::Colour;
use flood_it::graph::{Graph, Position};
use flood_it::grid::Grid;

#[test]
fn should_return_same_grid_as_input() {
    let size = 4;
    let number_of_colours = 8;
    let grid = Grid::generate(size, number_of_colours);

    let graph = Graph::create(&grid);
    let reconstituted_grid = graph.to_grid(size, size);

    assert_eq!(reconstituted_grid, grid);
}

#[test]
fn should_have_one_component() {
    let grid = Grid {
        number_of_columns: 2,
        number_of_rows: 2,
        cells: vec![Colour::Red; 4],
    };

    let graph = Graph::create(&grid);

    assert_eq!(graph.neighbours.len(), 1);
}

#[test]
fn should_have_four_component() {
    let grid = Grid {
        number_of_columns: 2,
        number_of_rows: 2,
        cells: vec![Colour::Red, Colour::Yellow, Colour::Yellow, Colour::Red],
    };

    let graph = Graph::create(&grid);

    assert_eq!(graph.neighbours.len(), 4);
}

#[test]
fn should_have_two_component() {
    let grid = Grid {
        number_of_columns: 2,
        number_of_rows: 2,
        cells: vec![Colour::Red, Colour::Red, Colour::Yellow, Colour::Yellow],
    };

    let graph = Graph::create(&grid);

    assert_eq!(graph.neighbours.len(), 2);
}

#[test]
fn should_have_same_keys_for_components_and_neighbours_maps() {
    let size = 4;
    let number_of_colours = 8;
    let grid = Grid::generate(size, number_of_colours);

    let graph = Graph::create(&grid);

    assert_eq!(graph.components.len(), graph.neighbours.len());
    for i in 0..graph.components.len() {
        assert_eq!(graph.components[i].is_some(), graph.neighbours[i].is_some());
    }
}

#[test]
fn should_contain_exactly_the_component_ids_as_keys() {
    let size = 4;
    let number_of_colours = 8;
    let grid = Grid::generate(size, number_of_colours);

    let graph = Graph::create(&grid);

    for (id, component) in graph.components.iter().enumerate() {
        match component {
            Some(c) => assert_eq!(id, c.id),
            None => panic!("a freshly built graph holds every id"),
        }
    }
}

#[test]
fn should_contain_only_component_ids_as_values_in_neighbours_map() {
    let size = 4;
    let number_of_colours = 8;
    let grid = Grid::generate(size, number_of_colours);

    let graph = Graph::create(&grid);

    for neighbours in graph.neighbours.iter() {
        let ids = neighbours.as_ref().expect("a fresh graph has every entry");
        for id in ids {
            assert!(graph.components[*id].is_some());
        }
    }
}

#[test]
fn single_colour_grid_has_empty_neighbour_set() {
    let grid = Grid {
        number_of_columns: 3,
        number_of_rows: 3,
        cells: vec![Colour::Blue; 9],
    };

    let graph = Graph::create(&grid);

    assert_eq!(graph.neighbours.len(), 1);
    assert_eq!(graph.neighbours[0].as_ref().unwrap().len(), 0);
    assert_eq!(graph.components[0].as_ref().unwrap().cells.len(), 9);
}

#[test]
fn find_component_returns_the_owner() {
    let grid = Grid {
        number_of_columns: 2,
        number_of_rows: 2,
        cells: vec![Colour::Red, Colour::Yellow, Colour::Yellow, Colour::Red],
    };

    let graph = Graph::create(&grid);

    let c = graph.find_component(&Position { row: 0, column: 1 });
    assert_eq!(c.colour, Colour::Yellow);
    assert_eq!(c.cells.len(), 1);
    let c2 = graph.find_component(&Position { row: 1, column: 1 });
    assert_eq!(c2.colour, Colour::Red);
}

#[test]
fn merge_absorbs_matching_neighbours() {
    let grid = Grid {
        number_of_columns: 2,
        number_of_rows: 2,
        cells: vec![Colour::Red, Colour::Red, Colour::Yellow, Colour::Yellow],
    };

    let mut graph = Graph::create(&grid);
    assert_eq!(graph.component_count(), 2);

    graph.change_colour_of_component_at(&Position { row: 0, column: 0 }, Colour::Yellow);

    assert_eq!(graph.component_count(), 1);
    let survivor = graph
        .find_component(&Position { row: 0, column: 0 });
    assert_eq!(survivor.colour, Colour::Yellow);
    assert_eq!(survivor.cells.len(), 4);
}

#[test]
fn merge_without_matching_neighbour_only_recolours() {
    let grid = Grid {
        number_of_columns: 2,
        number_of_rows: 2,
        cells: vec![Colour::Red, Colour::Red, Colour::Yellow, Colour::Yellow],
    };

    let mut graph = Graph::create(&grid);
    graph.change_colour_of_component_at(&Position { row: 0, column: 0 }, Colour::Green);

    assert_eq!(graph.component_count(), 2);
    let anchor = graph.find_component(&Position { row: 0, column: 0 });
    assert_eq!(anchor.colour, Colour::Green);
    assert_eq!(anchor.cells.len(), 2);
}

#[test]
fn cells_are_conserved_across_merges() {
    let grid = Grid {
        number_of_columns: 3,
        number_of_rows: 3,
        cells: vec![
            Colour::Red,
            Colour::Yellow,
            Colour::Green,
            Colour::Yellow,
            Colour::Green,
            Colour::Red,
            Colour::Green,
            Colour::Red,
            Colour::Yellow,
        ],
    };

    let mut graph = Graph::create(&grid);
    let anchor = Position { row: 0, column: 0 };
    graph.change_colour_of_component_at(&anchor, Colour::Yellow);
    graph.change_colour_of_component_at(&anchor, Colour::Green);
    graph.change_colour_of_component_at(&anchor, Colour::Red);

    let total: usize = graph
        .components
        .iter()
        .filter_map(|c| c.as_ref().map(|cc| cc.cells.len()))
        .sum();
    assert_eq!(total, 9);
}

#[test]
fn repeated_frontier_merges_solve_the_puzzle() {
    let grid = Grid {
        number_of_columns: 3,
        number_of_rows: 3,
        cells: vec![
            Colour::Red,
            Colour::Yellow,
            Colour::Green,
            Colour::Yellow,
            Colour::Green,
            Colour::Red,
            Colour::Green,
            Colour::Red,
            Colour::Yellow,
        ],
    };

    let mut graph = Graph::create(&grid);
    let anchor = Position { row: 0, column: 0 };
    let mut guard = 0;
    loop {
        if graph.component_count() == 1 {
            break;
        }
        // pick the colour of some current neighbour of the anchor component
        let anchor_id = graph.find_component(&anchor).id;
        let neighbour_id = graph.neighbours[anchor_id].as_ref().unwrap()[0];
        let colour = graph.components[neighbour_id].as_ref().unwrap().colour;
        graph.change_colour_of_component_at(&anchor, colour);
        guard += 1;
        assert!(guard <= 9, "merging must terminate");
    }
    let survivor = graph.find_component(&anchor);
    assert_eq!(survivor.cells.len(), 9);
}

#[test]
fn two_components_are_mutually_adjacent() {
    let grid = Grid {
        number_of_columns: 2,
        number_of_rows: 2,
        cells: vec![Colour::Red, Colour::Red, Colour::Yellow, Colour::Yellow],
    };

    let graph = Graph::create(&grid);

    let n0 = graph.neighbours[0].as_ref().unwrap();
    let n1 = graph.neighbours[1].as_ref().unwrap();
    assert!(n0.contains(&1));
    assert!(n1.contains(&0));
    assert!(!n0.contains(&0));
    assert!(!n1.contains(&1));
}

#[test]
fn to_grid_reflects_a_merge() {
    let grid = Grid {
        number_of_columns: 2,
        number_of_rows: 2,
        cells: vec![Colour::Red, Colour::Red, Colour::Yellow, Colour::Yellow],
    };

    let mut graph = Graph::create(&grid);
    graph.change_colour_of_component_at(&Position { row: 0, column: 0 }, Colour::Yellow);
    let repainted = graph.to_grid(2, 2);

    assert_eq!(repainted.cells, vec![Colour::Yellow; 4]);
}
