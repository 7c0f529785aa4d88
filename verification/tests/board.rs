use goban::logic::{Board, InvalidMove, Move, Position, Stone};
use goban::networking::ServerMessage;

#[test]
fn one_cell_one_board_count_liberties() {
    let mut board = Board::new(1, 1);
    board.stones[0][0] = Some(Stone::White);

    assert_eq!(0, board.count_liberties(Position(0, 0), Stone::White));
}

#[test]
fn one_cell_count_liberties() {
    let mut board = Board::new(9, 9);
    board.stones[2][1] = Some(Stone::White);

    assert_eq!(4, board.count_liberties(Position(1, 2), Stone::White))
}

#[test]
fn two_stones_count_liberties() {
    let mut board = Board::new(9, 9);
    board.stones[2][1] = Some(Stone::White);
    board.stones[3][1] = Some(Stone::White);

    assert_eq!(6, board.count_liberties(Position(1, 2), Stone::White))
}

#[test]
fn three_stones_count_liberties() {
    let mut board = Board::new(9, 9);
    board.stones[3][3] = Some(Stone::White);
    board.stones[3][4] = Some(Stone::White);
    board.stones[3][5] = Some(Stone::White);

    assert_eq!(8, board.count_liberties(Position(4, 3), Stone::White))
}

#[test]
fn play_in_eye() {
    let mut board = Board::new(9, 9);
    board.stones[3][3] = Some(Stone::Black);
    board.stones[2][3] = Some(Stone::White);
    board.stones[2][4] = Some(Stone::White);
    board.stones[4][3] = Some(Stone::White);
    board.stones[4][4] = Some(Stone::White);
    board.stones[3][2] = Some(Stone::White);
    board.stones[3][5] = Some(Stone::White);

    assert_eq!(InvalidMove::Suicide, board.play(false, Position(4, 3), Stone::Black).unwrap_err());
}

#[test]
fn ko_rule() {
    let mut board = Board::new(9, 9);
    board.stones[3][3] = Some(Stone::Black);
    board.stones[4][2] = Some(Stone::Black);
    board.stones[4][4] = Some(Stone::Black);
    board.stones[5][3] = Some(Stone::Black);
    board.stones[5][2] = Some(Stone::White);
    board.stones[5][4] = Some(Stone::White);
    board.stones[6][3] = Some(Stone::White);

    board.play(false, Position(3, 4), Stone::White).unwrap();
    assert_eq!(InvalidMove::KoRule, board.play(false, Position(3, 5), Stone::Black).unwrap_err());
}

#[test]
fn new_board_is_empty() {
    let board = Board::new(5, 7);
    assert_eq!(7, board.stones.len());
    assert_eq!(7, board.prev_stones.len());
    for y in 0..7 {
        assert_eq!(5, board.stones[y].len());
        assert_eq!(5, board.prev_stones[y].len());
        for x in 0..5 {
            assert_eq!(None, board.stones[y][x]);
            assert_eq!(None, board.prev_stones[y][x]);
        }
    }
}

#[test]
fn occupied_cell_rejected_and_board_unchanged() {
    let mut board = Board::new(9, 9);
    board.stones[2][2] = Some(Stone::White);
    let live_before = board.stones.clone();
    let prev_before = board.prev_stones.clone();

    let first = board.play(false, Position(2, 2), Stone::Black).unwrap_err();
    assert_eq!(InvalidMove::PieceAlreadyPresent, first);
    assert_eq!(live_before, board.stones);
    assert_eq!(prev_before, board.prev_stones);

    // rejecting is idempotent: the same move is rejected the same way again,
    // and the grids are still untouched
    let second = board.play(false, Position(2, 2), Stone::Black).unwrap_err();
    assert_eq!(InvalidMove::PieceAlreadyPresent, second);
    assert_eq!(live_before, board.stones);
    assert_eq!(prev_before, board.prev_stones);
}

#[test]
fn capture_removes_stones_and_reports_placement_first() {
    let mut board = Board::new(9, 9);
    // a white stone at (1, 1) with three black neighbors; black plays the
    // fourth liberty at (1, 2) and captures it
    board.stones[1][1] = Some(Stone::White);
    board.stones[0][1] = Some(Stone::Black);
    board.stones[1][0] = Some(Stone::Black);
    board.stones[1][2] = Some(Stone::Black);
    let live_before = board.stones.clone();

    let delta = board.play(true, Position(1, 2), Stone::Black).unwrap().unwrap();
    assert_eq!(2, delta.len());
    match &delta[0] {
        ServerMessage::PlaceResponse(Ok(Move(Some((p, Some(s))), None))) => {
            assert_eq!(1u8, p.0);
            assert_eq!(2u8, p.1);
            assert_eq!(Stone::Black, *s);
        },
        _ => panic!("expected the placement first"),
    }
    match &delta[1] {
        ServerMessage::PlaceResponse(Ok(Move(Some((p, None)), None))) => {
            assert_eq!(1u8, p.0);
            assert_eq!(1u8, p.1);
        },
        _ => panic!("expected one removal after the placement"),
    }
    // the captured stone is gone and the played stone is on the board
    assert_eq!(None, board.stones[1][1]);
    assert_eq!(Some(Stone::Black), board.stones[2][1]);
    // `previous` now holds the grid exactly as it stood before this move
    assert_eq!(live_before, board.prev_stones);
}

#[test]
fn rejected_move_leaves_previous_untouched() {
    let mut board = Board::new(9, 9);
    board.play(false, Position(4, 4), Stone::Black).unwrap();
    let prev_after_accept = board.prev_stones.clone();

    // a rejected move must not move `previous` forward
    board.play(false, Position(4, 4), Stone::White).unwrap_err();
    assert_eq!(prev_after_accept, board.prev_stones);
}

#[test]
fn accepted_move_without_delta_request_returns_none() {
    let mut board = Board::new(3, 3);
    let result = board.play(false, Position(0, 0), Stone::White).unwrap();
    assert!(result.is_none());
    assert_eq!(Some(Stone::White), board.stones[0][0]);
}

#[test]
fn other_cell_swaps_colors() {
    assert_eq!(Stone::Black, goban::logic::other_cell(Stone::White));
    assert_eq!(Stone::White, goban::logic::other_cell(Stone::Black));
    assert_eq!(3, Position(3usize, 5usize).x());
    assert_eq!(5, Position(3usize, 5usize).y());
}
