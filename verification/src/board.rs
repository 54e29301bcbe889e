//! The state of a board at one point in time.

use vstd::prelude::*;

use crate::bitboard::Bitboard;
use crate::geometry::{
    border, build_geometry, interior, is_position, lemma_border_cell, lemma_border_len,
    lemma_interior_cell, lemma_interior_len, lemma_partition, position, position_count, positions,
};

verus! {

/// One of the two players.
pub type Player = bool;

/// The player who moves first.
pub const BLACK: Player = false;

/// The player who moves second.
pub const WHITE: Player = true;

/// A position of the padded grid.
pub type Intersection = usize;

/// A board of nine by nine playable intersections.
pub type Board9x9 = Board<9>;

/// The index of a player's stones in `occupied_intersections`.
pub open spec fn player_index(player: Player) -> int {
    if player {
        1
    } else {
        0
    }
}

/// A board of `S` by `S` playable intersections on a padded grid of side
/// `S + 2`.
pub struct Board<const S: usize> {
    /// The number of playable intersections along one side.
    pub size: usize,
    /// The positions that hold a stone, one region per player.
    pub occupied_intersections: [Bitboard; 2],
    /// The playable intersections that hold no stone.
    pub empty_intersections: Bitboard,
    /// The ring of positions around the playable intersections.
    pub out_of_bound_intersections: Bitboard,
    /// The player whose turn it is.
    pub to_move: Player,
    /// The intersection that may not be retaken this turn, if any.
    pub ko: Option<Intersection>,
}

impl<const S: usize> Board<S> {
    /// The positions that hold a stone of `player`.
    pub open spec fn stones(&self, player: Player) -> Set<int> {
        self.occupied_intersections[player_index(player)]@
    }

    /// The positions that are empty or hold a stone.
    pub open spec fn in_play(&self) -> Set<int> {
        self.empty_intersections@.union(self.stones(BLACK)).union(self.stones(WHITE))
    }

    /// What holds of a board at every point of a game: all regions span the
    /// padded grid; each playable intersection is empty or holds a stone of
    /// exactly one player; no border position is empty or holds a stone; the
    /// out-of-bound region is the complement of the positions in play; a ko
    /// point is a position of the grid.
    pub open spec fn wf(&self) -> bool {
        &&& self.size == S
        &&& self.occupied_intersections[0].capacity() == position_count(S as nat)
        &&& self.occupied_intersections[1].capacity() == position_count(S as nat)
        &&& self.empty_intersections.capacity() == position_count(S as nat)
        &&& self.out_of_bound_intersections.capacity() == position_count(S as nat)
        &&& self.stones(BLACK).disjoint(self.stones(WHITE))
        &&& self.empty_intersections@.disjoint(self.stones(BLACK))
        &&& self.empty_intersections@.disjoint(self.stones(WHITE))
        &&& self.in_play() == interior(S as nat)
        &&& self.out_of_bound_intersections@ == positions(S as nat).difference(self.in_play())
        &&& self.ko matches Some(p) ==> is_position(S as nat, p as int)
    }

    /// The state before the first move: no stones, every playable
    /// intersection empty, black to move, no ko.
    pub open spec fn is_initial(&self) -> bool {
        &&& self.wf()
        &&& self.stones(BLACK) == Set::<int>::empty()
        &&& self.stones(WHITE) == Set::<int>::empty()
        &&& self.empty_intersections@ == interior(S as nat)
        &&& self.to_move == BLACK
        &&& self.ko is None
    }

    /// An empty board with black to move.
    pub fn new() -> (board: Self)
        requires
            1 <= S,
            (S + 2) * (S + 2) <= usize::MAX,
        ensures
            board.is_initial(),
            board.size == S,
            board.empty_intersections@ == interior(S as nat),
            board.out_of_bound_intersections@ == border(S as nat),
            board.empty_intersections@.len() == S * S,
            board.out_of_bound_intersections@.len() == (S + 2) * (S + 2) - S * S,
            board.empty_intersections@.disjoint(board.out_of_bound_intersections@),
            board.empty_intersections@.union(board.out_of_bound_intersections@) == positions(
                S as nat,
            ),
            forall|row: int, col: int|
                1 <= row <= S && 1 <= col <= S ==> {
                    &&& board.empty_intersections@.contains(#[trigger] position(S as nat, row, col))
                    &&& !board.out_of_bound_intersections@.contains(position(S as nat, row, col))
                },
            forall|row: int, col: int|
                0 <= row <= S + 1 && 0 <= col <= S + 1 && (row == 0 || row == S + 1 || col == 0 || col
                    == S + 1) ==> {
                    &&& board.out_of_bound_intersections@.contains(
                        #[trigger] position(S as nat, row, col),
                    )
                    &&& !board.empty_intersections@.contains(position(S as nat, row, col))
                },
            board.occupied_intersections[0]@ == Set::<int>::empty(),
            board.occupied_intersections[1]@ == Set::<int>::empty(),
            board.to_move == BLACK,
            board.ko is None,
    {
        let (empty_intersections, out_of_bound_intersections) = build_geometry(S);
        proof {
            assert(S + 2 <= (S + 2) * (S + 2)) by (nonlinear_arith);
        }
        let capacity: usize = (S + 2) * (S + 2);
        let board = Board {
            size: S,
            occupied_intersections: [Bitboard::new(capacity), Bitboard::new(capacity)],
            empty_intersections,
            out_of_bound_intersections,
            to_move: BLACK,
            ko: None,
        };
        proof {
            lemma_partition(S as nat);
            lemma_interior_len(S as nat);
            lemma_border_len(S as nat);
            assert(board.in_play() =~= interior(S as nat));
            assert forall|row: int, col: int| 1 <= row <= S && 1 <= col <= S implies {
                &&& board.empty_intersections@.contains(#[trigger] position(S as nat, row, col))
                &&& !board.out_of_bound_intersections@.contains(position(S as nat, row, col))
            } by {
                lemma_interior_cell(S as nat, row, col);
            }
            assert forall|row: int, col: int|
                0 <= row <= S + 1 && 0 <= col <= S + 1 && (row == 0 || row == S + 1 || col == 0 || col
                    == S + 1) implies {
                &&& board.out_of_bound_intersections@.contains(
                    #[trigger] position(S as nat, row, col),
                )
                &&& !board.empty_intersections@.contains(position(S as nat, row, col))
            } by {
                lemma_border_cell(S as nat, row, col);
            }
        }
        board
    }
}

/// On a well-formed board the out-of-bound region is the border of the
/// padded grid, whatever stones have been placed, and no stone and no empty
/// intersection lies on it.
pub proof fn lemma_out_of_bound_is_border<const S: usize>(board: Board<S>)
    requires
        board.wf(),
    ensures
        board.out_of_bound_intersections@ == border(S as nat),
        board.out_of_bound_intersections@.disjoint(board.in_play()),
        board.out_of_bound_intersections@.union(board.in_play()) == positions(S as nat),
{
    lemma_partition(S as nat);
}

/// Construction is deterministic: any two boards that `new` returns hold
/// the same regions, position for position, and the same turn and ko state.
pub proof fn lemma_new_is_deterministic<const S: usize>(first: Board<S>, second: Board<S>)
    requires
        call_ensures(Board::<S>::new, (), first),
        call_ensures(Board::<S>::new, (), second),
    ensures
        first.empty_intersections@ == second.empty_intersections@,
        first.out_of_bound_intersections@ == second.out_of_bound_intersections@,
        first.empty_intersections.capacity() == second.empty_intersections.capacity(),
        first.out_of_bound_intersections.capacity() == second.out_of_bound_intersections.capacity(),
        first.stones(BLACK) == second.stones(BLACK),
        first.stones(WHITE) == second.stones(WHITE),
        first.to_move == second.to_move,
        first.ko == second.ko,
        first.size == second.size,
{
}

} // verus!
