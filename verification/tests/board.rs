use zarena::board::{Board, BoardPosition, EmptyTile, ManPiece, OccupiedTile, Piece, PieceType, Tile};

#[test]
fn new_board_is_empty() {
    let b = Board::new(8, 8);
    assert_eq!(b.number_rows(), 8);
    assert_eq!(b.number_columns(), 8);
    for r in 0..8 {
        for c in 0..8 {
            assert!(b.get_tile(r, c).get_piece().is_none());
        }
    }
}

#[test]
fn set_and_clear_tile() {
    let mut b = Board::new(3, 4);
    let piece = Piece::Man(ManPiece::new(7));
    b.set_tile(1, 2, Tile::Occupied(OccupiedTile::new(piece)));
    let p = b.get_tile(1, 2).get_piece().expect("tile should be occupied");
    assert_eq!(p.get_player_id(), 7);
    assert!(matches!(p.get_type(), PieceType::Man));
    b.clear_tile(1, 2);
    assert!(b.get_tile(1, 2).get_piece().is_none());
}

#[test]
fn swap_tiles_exchanges_squares() {
    let mut b = Board::new(2, 2);
    let piece = Piece::King(zarena::board::KingPiece::new(3));
    b.set_tile(0, 0, Tile::Occupied(OccupiedTile::new(piece)));
    b.swap_tiles(0, 0, 1, 1);
    assert!(b.get_tile(0, 0).get_piece().is_none());
    let p = b.get_tile(1, 1).get_piece().expect("piece should have moved");
    assert_eq!(p.get_player_id(), 3);
    assert!(matches!(p.get_type(), PieceType::King));
}

#[test]
fn set_tiles_replaces_the_grid() {
    let mut b = Board::new(1, 2);
    let tiles = vec![
        Tile::Occupied(OccupiedTile::new(Piece::Man(ManPiece::new(1)))),
        Tile::Empty(EmptyTile),
    ];
    b.set_tiles(tiles);
    assert!(b.get_tile(0, 0).get_piece().is_some());
    assert!(b.get_tile(0, 1).get_piece().is_none());
}

#[test]
fn board_positions_hold_coordinates() {
    let p = BoardPosition::new(4, 6);
    assert_eq!(p.row, 4);
    assert_eq!(p.column, 6);
    assert_eq!(p, BoardPosition::new(4, 6));
}

#[test]
fn fill_empty_row_appends_a_row() {
    let mut b = Board::new(2, 3);
    Board::fill_empty_row(&mut b);
    assert_eq!(b.tiles.len(), 9);
}
