use flood_it::colour::Colour;
use flood_it::game::{Game, GameState};

#[test]
fn create_starts_solving_with_no_clicks() {
    let game = Game::create(5, 6);

    assert!(matches!(game.state, GameState::Solving));
    assert_eq!(game.number_of_clicks, 0);
    assert_eq!(game.allowed_clicks, 25 * 2 * 5 * 6 / (2 * 14 * 6));
}

#[test]
fn filling_counts_the_click() {
    let mut game = Game::create(4, 3);
    let colour = game
        .graph
        .find_component(&flood_it::graph::Position { row: 1, column: 1 })
        .colour;

    game.fill_component_of_top_left_cell_with(colour);

    assert_eq!(game.number_of_clicks, 1);
    let total: usize = game
        .graph
        .components
        .iter()
        .filter_map(|c| c.as_ref().map(|cc| cc.cells.len()))
        .sum();
    assert_eq!(total, 16);
}

#[test]
fn create_uses_only_the_requested_colours() {
    let game = Game::create(6, 3);

    for component in game.graph.components.iter().flatten() {
        assert!(matches!(
            component.colour,
            Colour::Red | Colour::Yellow | Colour::Green
        ));
    }
}
