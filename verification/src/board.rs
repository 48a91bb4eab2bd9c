//! A rectangular board of tiles for the checkers collaborator. Tiles and
//! pieces form closed variant types: the set of kinds is fixed, so no
//! dynamic dispatch is needed.

use vstd::prelude::*;

verus! {

/// A square of the board, by row and column.
#[derive(Debug, Clone, Copy, PartialEq, Eq, Structural, Hash)]
pub struct BoardPosition {
    pub row: usize,
    pub column: usize,
}

impl BoardPosition {
    pub fn new(row: usize, column: usize) -> (p: BoardPosition)
        ensures
            p.row == row,
            p.column == column,
    {
        BoardPosition { row, column }
    }
}

/// The two kinds of checkers piece.
#[derive(Debug, Clone, Copy, PartialEq, Eq, Structural)]
pub enum PieceType {
    Man,
    King,
}

/// An ordinary piece, owned by a player.
#[derive(Debug, Clone, Copy, PartialEq, Eq, Structural)]
pub struct ManPiece {
    pub player_id: u32,
}

impl ManPiece {
    pub fn new(player_id: u32) -> (p: ManPiece)
        ensures
            p.player_id == player_id,
    {
        ManPiece { player_id }
    }
}

/// A crowned piece, owned by a player.
#[derive(Debug, Clone, Copy, PartialEq, Eq, Structural)]
pub struct KingPiece {
    pub player_id: u32,
}

impl KingPiece {
    pub fn new(player_id: u32) -> (p: KingPiece)
        ensures
            p.player_id == player_id,
    {
        KingPiece { player_id }
    }
}

/// A piece on the board: a man or a king.
#[derive(Debug, Clone, Copy, PartialEq, Eq, Structural)]
pub enum Piece {
    Man(ManPiece),
    King(KingPiece),
}

impl Piece {
    /// The seat that owns the piece.
    pub open spec fn spec_player_id(self) -> u32 {
        match self {
            Piece::Man(m) => m.player_id,
            Piece::King(k) => k.player_id,
        }
    }

    pub fn get_player_id(&self) -> (id: u32)
        ensures
            id == self.spec_player_id(),
    {
        match self {
            Piece::Man(m) => m.player_id,
            Piece::King(k) => k.player_id,
        }
    }

    pub fn get_type(&self) -> (t: PieceType)
        ensures
            t == (match self {
                Piece::Man(_) => PieceType::Man,
                Piece::King(_) => PieceType::King,
            }),
    {
        match self {
            Piece::Man(_) => PieceType::Man,
            Piece::King(_) => PieceType::King,
        }
    }
}

/// A tile without a piece.
#[derive(Debug, Clone, Copy, PartialEq, Eq, Structural)]
pub struct EmptyTile;

/// A tile holding a piece.
#[derive(Debug, Clone, Copy, PartialEq, Eq, Structural)]
pub struct OccupiedTile {
    pub piece: Piece,
}

impl OccupiedTile {
    pub fn new(piece: Piece) -> (t: OccupiedTile)
        ensures
            t.piece == piece,
    {
        OccupiedTile { piece }
    }
}

/// A square's state: empty, or occupied by a piece.
#[derive(Debug, Clone, Copy, PartialEq, Eq, Structural)]
pub enum Tile {
    Empty(EmptyTile),
    Occupied(OccupiedTile),
}

impl Tile {
    /// The piece on the tile, when there is one.
    pub fn get_piece(&self) -> (p: Option<&Piece>)
        ensures
            match self {
                Tile::Empty(_) => p is None,
                Tile::Occupied(t) => p matches Option::Some(q) && *q == t.piece,
            },
    {
        match self {
            Tile::Empty(_) => Option::None,
            Tile::Occupied(t) => Option::Some(&t.piece),
        }
    }
}

/// A rectangular grid of tiles, row by row.
#[derive(Debug)]
pub struct Board {
    pub number_rows: usize,
    pub number_columns: usize,
    pub tiles: Vec<Tile>,
}

impl Board {
    /// The grid holds one tile per square.
    pub open spec fn wf(self) -> bool {
        self.tiles@.len() == self.number_rows * self.number_columns
    }

    /// The tiles, row by row.
    pub open spec fn spec_tiles(self) -> Seq<Tile> {
        self.tiles@
    }

    pub open spec fn spec_rows(self) -> usize {
        self.number_rows
    }

    pub open spec fn spec_columns(self) -> usize {
        self.number_columns
    }

    /// The position of a square in the row-by-row tile list.
    pub open spec fn spec_index(self, row: int, column: int) -> int {
        self.number_columns * row + column
    }

    /// An all-empty board of the given dimensions.
    #[verifier::loop_isolation(false)]
    pub fn new(number_rows: usize, number_columns: usize) -> (b: Board)
        requires
            number_rows * number_columns <= usize::MAX,
        ensures
            b.wf(),
            b.spec_rows() == number_rows,
            b.spec_columns() == number_columns,
            forall|i: int| 0 <= i < b.spec_tiles().len() ==> #[trigger] b.spec_tiles()[i]
                == Tile::Empty(EmptyTile),
    {
        let number_tiles = number_rows * number_columns;
        let mut tiles: Vec<Tile> = Vec::new();
        let mut i: usize = 0;
        while i < number_tiles
            invariant
                0 <= i <= number_tiles,
                tiles@.len() == i,
                forall|m: int| 0 <= m < i ==> #[trigger] tiles@[m] == Tile::Empty(EmptyTile),
            decreases number_tiles - i,
        {
            tiles.push(Tile::Empty(EmptyTile));
            i = i + 1;
        }
        Board { number_rows, number_columns, tiles }
    }

    /// Replace the whole grid; the new tiles must fill it exactly.
    pub fn set_tiles(&mut self, tiles: Vec<Tile>)
        requires
            tiles@.len() == old(self).number_rows * old(self).number_columns,
        ensures
            final(self).wf(),
            final(self).spec_tiles() == tiles@,
            final(self).spec_rows() == old(self).spec_rows(),
            final(self).spec_columns() == old(self).spec_columns(),
    {
        self.tiles = tiles;
    }

    pub fn number_rows(&self) -> (n: usize)
        ensures
            n == self.spec_rows(),
    {
        self.number_rows
    }

    pub fn number_columns(&self) -> (n: usize)
        ensures
            n == self.spec_columns(),
    {
        self.number_columns
    }

    /// The position of a square in the row-by-row tile list.
    pub fn indices_to_index(&self, row: usize, column: usize) -> (idx: usize)
        requires
            row < self.spec_rows(),
            column < self.spec_columns(),
            self.wf(),
        ensures
            idx == self.spec_index(row as int, column as int),
            idx < self.spec_tiles().len(),
    {
        let capacity = self.tiles.len();
        proof {
            lemma_grid_index(
                self.number_rows as int,
                self.number_columns as int,
                row as int,
                column as int,
            );
            assert(self.number_rows * self.number_columns == capacity);
        }
        self.number_columns * row + column
    }

    /// The tile on a square.
    pub fn get_tile(&self, row: usize, column: usize) -> (t: &Tile)
        requires
            row < self.spec_rows(),
            column < self.spec_columns(),
            self.wf(),
        ensures
            *t == self.spec_tiles()[self.spec_index(row as int, column as int)],
    {
        let idx = self.indices_to_index(row, column);
        &self.tiles[idx]
    }

    /// Put a tile on a square.
    pub fn set_tile(&mut self, row: usize, column: usize, tile: Tile)
        requires
            row < old(self).spec_rows(),
            column < old(self).spec_columns(),
            old(self).wf(),
        ensures
            final(self).wf(),
            final(self).spec_rows() == old(self).spec_rows(),
            final(self).spec_columns() == old(self).spec_columns(),
            final(self).spec_tiles() == old(self).spec_tiles().update(
                old(self).spec_index(row as int, column as int),
                tile,
            ),
    {
        let idx = self.indices_to_index(row, column);
        self.tiles[idx] = tile;
    }

    /// Empty a square.
    pub fn clear_tile(&mut self, row: usize, column: usize)
        requires
            row < old(self).spec_rows(),
            column < old(self).spec_columns(),
            old(self).wf(),
        ensures
            final(self).wf(),
            final(self).spec_rows() == old(self).spec_rows(),
            final(self).spec_columns() == old(self).spec_columns(),
            final(self).spec_tiles() == old(self).spec_tiles().update(
                old(self).spec_index(row as int, column as int),
                Tile::Empty(EmptyTile),
            ),
    {
        self.set_tile(row, column, Tile::Empty(EmptyTile));
    }

    /// Exchange the tiles on two squares.
    pub fn swap_tiles(&mut self, row1: usize, column1: usize, row2: usize, column2: usize)
        requires
            row1 < old(self).spec_rows(),
            column1 < old(self).spec_columns(),
            row2 < old(self).spec_rows(),
            column2 < old(self).spec_columns(),
            old(self).wf(),
        ensures
            final(self).wf(),
            final(self).spec_rows() == old(self).spec_rows(),
            final(self).spec_columns() == old(self).spec_columns(),
            final(self).spec_tiles() == old(self).spec_tiles().update(
                old(self).spec_index(row1 as int, column1 as int),
                old(self).spec_tiles()[old(self).spec_index(row2 as int, column2 as int)],
            ).update(
                old(self).spec_index(row2 as int, column2 as int),
                old(self).spec_tiles()[old(self).spec_index(row1 as int, column1 as int)],
            ),
    {
        let idx1 = self.indices_to_index(row1, column1);
        let idx2 = self.indices_to_index(row2, column2);
        let t1 = self.tiles[idx1];
        let t2 = self.tiles[idx2];
        self.tiles[idx1] = t2;
        self.tiles[idx2] = t1;
        proof {
            if idx1 == idx2 {
                assert(final(self).spec_tiles() =~= old(self).spec_tiles().update(
                    idx1 as int,
                    old(self).spec_tiles()[idx2 as int],
                ).update(idx2 as int, old(self).spec_tiles()[idx1 as int]));
            }
        }
    }

    /// Append one full row of empty tiles.
    pub fn fill_empty_row(board: &mut Board)
        requires
            old(board).tiles@.len() + old(board).spec_columns() <= usize::MAX,
        ensures
            final(board).spec_rows() == old(board).spec_rows(),
            final(board).spec_columns() == old(board).spec_columns(),
            final(board).spec_tiles().len() == old(board).spec_tiles().len() + old(
                board,
            ).spec_columns(),
            forall|i: int| 0 <= i < old(board).spec_tiles().len()
                ==> final(board).spec_tiles()[i] == old(board).spec_tiles()[i],
            forall|i: int| old(board).spec_tiles().len() <= i < final(board).spec_tiles().len()
                ==> final(board).spec_tiles()[i] == Tile::Empty(EmptyTile),
    {
        let ghost t0 = board.tiles@;
        let cols = board.number_columns;
        let mut t: usize = 0;
        while t < cols
            invariant
                0 <= t <= cols,
                board.number_rows == old(board).number_rows,
                board.number_columns == old(board).number_columns,
                cols == old(board).number_columns,
                board.tiles@.len() == t0.len() + t,
                forall|i: int| 0 <= i < t0.len() ==> #[trigger] board.tiles@[i] == t0[i],
                forall|i: int| t0.len() <= i < board.tiles@.len() ==> #[trigger] board.tiles@[i]
                    == Tile::Empty(EmptyTile),
            decreases cols - t,
        {
            board.tiles.push(Tile::Empty(EmptyTile));
            t = t + 1;
        }
    }
}

proof fn lemma_grid_index(rows: int, columns: int, row: int, column: int)
    requires
        0 <= row < rows,
        0 <= column < columns,
    ensures
        columns * row + column < rows * columns,
        columns * row + column >= 0,
{
    assert(columns * row + column < rows * columns) by (nonlinear_arith)
        requires
            0 <= row < rows,
            0 <= column < columns,
    ;
    assert(columns * row >= 0) by (nonlinear_arith)
        requires
            row >= 0,
            columns > 0,
    ;
}

} // verus!
