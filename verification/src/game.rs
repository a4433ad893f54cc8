use vstd::prelude::*;

use crate::colour::{colour_index, Colour};
use crate::graph::{connect_order, lemma_index_bound, pos_adjacent, pos_in_bounds, Graph, Position};
use crate::grid::Grid;
use crate::merge::merge_spec;

verus! {

/// Whether the puzzle is still being solved or already down to a single
/// component.
#[derive(Clone, Copy, Debug, Eq, PartialEq, Structural)]
pub enum GameState {
    Solving,
    Solved,
}

/// One puzzle instance: the component graph of a freshly generated grid,
/// together with the click budget the player has to beat.
pub struct Game {
    pub state: GameState,
    pub graph: Graph,
    pub number_of_clicks: u32,
    pub allowed_clicks: u32,
}

impl Game {
    /// Starts a puzzle: generates a random size x size grid over the first
    /// `number_of_colours` palette colours and builds its component graph.
    pub fn create(size: u32, number_of_colours: u32) -> (game: Game)
        requires
            2 <= size,
            3 <= number_of_colours <= 8,
            size * size <= usize::MAX,
            25 * 2 * size * number_of_colours <= u32::MAX,
        ensures
            game.state == GameState::Solving,
            game.graph.wf(),
            game.graph.rows@ == size as int,
            game.graph.cols@ == size as int,
            game.number_of_clicks == 0,
            game.allowed_clicks == (25 * 2 * size * number_of_colours) as int / ((2 * 14 * 6) as int),
            forall|i: int| #[trigger]
                game.graph.live(i) ==> colour_index(game.graph.comp(i).colour)
                    < number_of_colours,
            forall|i: int| 0 <= i < game.graph.components@.len() ==> game.graph.live(i),
            forall|i: int, j: int|
                game.graph.live(i) && game.graph.live(j) && #[trigger] game.graph.nbr_mem(i, j)
                    ==> game.graph.comp(i).colour != game.graph.comp(j).colour,
            forall|i: int| #[trigger] game.graph.live(i) ==> connect_order(
                game.graph.comp(i).cells@,
            ),
            forall|p: Position, q: Position|
                pos_in_bounds(p, game.graph.rows@, game.graph.cols@) && pos_in_bounds(
                    q,
                    game.graph.rows@,
                    game.graph.cols@,
                ) && #[trigger] pos_adjacent(p, q) && game.graph.colour_of_pos(p)
                    == game.graph.colour_of_pos(q) ==> game.graph.owner@[p]
                    == game.graph.owner@[q],
    {
        let grid = Grid::generate(size as usize, number_of_colours);
        let graph = Graph::create(&grid);

        proof {
            // touching cells that the graph paints alike share a component:
            // the graph's colouring is the generated grid's
            assert forall|p: Position, q: Position|
                pos_in_bounds(p, graph.rows@, graph.cols@) && pos_in_bounds(
                    q,
                    graph.rows@,
                    graph.cols@,
                ) && #[trigger] pos_adjacent(p, q) && graph.colour_of_pos(p)
                == graph.colour_of_pos(q) implies graph.owner@[p] == graph.owner@[q] by {
                assert(graph.colour_of_pos(p) == grid.colour_at(p));
                assert(graph.colour_of_pos(q) == grid.colour_at(q));
            }
            // every component wears the grid colour of one of its cells,
            // and the grid draws only from the first colours of the palette
            assert forall|i: int| #[trigger] graph.live(i) implies colour_index(
                graph.comp(i).colour,
            ) < number_of_colours by {
                let p = graph.comp(i).cells@[0];
                assert(pos_in_bounds(p, graph.rows@, graph.cols@));
                assert(graph.owner@[p] == i);
                assert(graph.owner@.contains_key(p));
                assert(graph.colour_of_pos(p) == grid.colour_at(p));
                lemma_index_bound(p.row as int, p.column as int, graph.rows@, graph.cols@);
                assert(colour_index(grid.cells@[crate::graph::pos_index(
                    p,
                    graph.cols@,
                )]) < number_of_colours);
            }
        }
        proof {
            let s = size as int;
            let c = number_of_colours as int;
            assert(25 * 2 * s <= 25 * 2 * s * c)
                by (nonlinear_arith)
                requires
                    1 <= c,
                    0 <= s,
            ;
        }
        let allowed_clicks = 25 * 2 * size * number_of_colours / (2 * 14 * 6);

        Game { state: GameState::Solving, graph, number_of_clicks: 0, allowed_clicks }
    }

    /// One player move: recolours the component of the top-left anchor
    /// cell, absorbing every neighbouring component that already has the
    /// chosen colour, and counts the click.
    pub fn fill_component_of_top_left_cell_with(&mut self, colour: Colour)
        requires
            old(self).graph.wf(),
            old(self).number_of_clicks < u32::MAX,
        ensures
            final(self).graph.wf(),
            final(self).number_of_clicks == old(self).number_of_clicks + 1,
            final(self).allowed_clicks == old(self).allowed_clicks,
            final(self).state == old(self).state,
            merge_spec(
                old(self).graph,
                final(self).graph,
                (Position { row: 0, column: 0 }),
                colour,
            ),
    {
        self.number_of_clicks += 1;
        let top_left = Position { row: 0, column: 0 };
        proof {
            assert(pos_in_bounds(top_left, self.graph.rows@, self.graph.cols@));
        }
        self.graph.change_colour_of_component_at(&top_left, colour);
    }
}

} // verus!
