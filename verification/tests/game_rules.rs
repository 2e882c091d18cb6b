use huginn::{
    defenders_cannot_escape, is_exit_fort, Board, BoardCoordinate, BoardSnapshot, Game,
    GameOutcome, Move, MoveError, OutcomeReason, Piece, Position, Ruleset, Side, Square, Timeline,
    BOARD_EDGE, BOARD_SIZE,
};

fn sq(x: u8, y: u8) -> Square {
    Square::new(x, y).expect("test square is valid")
}

fn pos(time: i32, timeline: i32, x: u8, y: u8) -> Position {
    Position::new(BoardCoordinate::new(time, timeline), sq(x, y))
}

fn snapshot(
    time: i32,
    timeline: i32,
    board: Board,
    parent: Option<BoardCoordinate>,
) -> BoardSnapshot {
    BoardSnapshot {
        coordinate: BoardCoordinate::new(time, timeline),
        board,
        parent,
        created_by: None,
    }
}

fn timeline(row: i32, owner: Option<Side>, snapshots: Vec<BoardSnapshot>) -> Timeline {
    let mut boards = snapshots;
    boards.sort_by_key(|snapshot| snapshot.coordinate.time);
    Timeline { row, owner, boards }
}

fn game_with(ruleset: Ruleset, turn: Side, timelines: Vec<Timeline>) -> Game {
    let mut timelines = timelines;
    timelines.sort_by_key(|timeline| timeline.row);
    Game::from_timelines(ruleset, timelines, turn).expect("test position is well formed")
}

fn board_from_rows(rows: [&str; BOARD_SIZE]) -> Board {
    let mut board = Board::empty();
    for (row_index, row) in rows.into_iter().enumerate() {
        let symbols: Vec<char> = row.split_whitespace().flat_map(str::chars).collect();
        assert_eq!(symbols.len(), BOARD_SIZE);
        for (x, symbol) in symbols.into_iter().enumerate() {
            let piece = match symbol {
                'A' => Some(Piece::Attacker),
                'D' => Some(Piece::Defender),
                'K' => Some(Piece::King),
                '.' | '#' => None,
                _ => panic!("unknown diagram symbol: {symbol}"),
            };
            if piece.is_some() {
                board.set(
                    sq(
                        u8::try_from(x).expect("diagram x fits"),
                        BOARD_EDGE - u8::try_from(row_index).expect("diagram y fits"),
                    ),
                    piece,
                );
            }
        }
    }
    board
}

#[test]
fn copenhagen_setup_has_expected_armies() {
    let game = Game::new(Ruleset::Classic);
    let board = &game
        .board(BoardCoordinate::new(0, 0))
        .expect("origin")
        .board;
    assert_eq!(board.count(Piece::Attacker), 24);
    assert_eq!(board.count(Piece::Defender), 12);
    assert_eq!(board.count(Piece::King), 1);
    assert_eq!(game.turn(), Side::Attacker);
}

#[test]
fn classic_move_creates_successor_and_changes_turn() {
    let mut game = Game::new(Ruleset::Classic);
    game.apply_move(Move::new(pos(0, 0, 3, 0), pos(0, 0, 2, 0)))
        .expect("D1-C1 is legal");
    assert_eq!(game.turn(), Side::Defender);
    assert_eq!(game.latest_coordinate(0), Some(BoardCoordinate::new(1, 0)));
    let board = &game
        .board(BoardCoordinate::new(1, 0))
        .expect("successor")
        .board;
    assert_eq!(board.get(sq(2, 0)), Some(Piece::Attacker));
    assert_eq!(board.get(sq(3, 0)), None);
}

#[test]
fn soldiers_cannot_stop_on_restricted_squares_but_can_cross_empty_throne() {
    let mut board = Board::empty();
    board.set(sq(5, 3), Some(Piece::Attacker));
    board.set(sq(9, 9), Some(Piece::King));
    let game = Game::from_board(Ruleset::Classic, board, Side::Attacker);
    assert_eq!(
        game.validate_move(Move::new(pos(0, 0, 5, 3), pos(0, 0, 5, 5))),
        Err(MoveError::RestrictedDestination)
    );
    game.validate_move(Move::new(pos(0, 0, 5, 3), pos(0, 0, 5, 7)))
        .expect("an empty throne may be crossed");
}

#[test]
fn aggressor_move_closes_a_spatial_capture() {
    let mut board = Board::empty();
    board.set(sq(2, 3), Some(Piece::Attacker));
    board.set(sq(3, 3), Some(Piece::Defender));
    board.set(sq(4, 0), Some(Piece::Attacker));
    board.set(sq(8, 8), Some(Piece::King));
    let mut game = Game::from_board(Ruleset::Classic, board, Side::Attacker);
    game.apply_move(Move::new(pos(0, 0, 4, 0), pos(0, 0, 4, 3)))
        .expect("capture move");
    let board = &game
        .board(BoardCoordinate::new(1, 0))
        .expect("result")
        .board;
    assert_eq!(board.get(sq(3, 3)), None);
}

#[test]
fn occupied_throne_is_not_hostile_to_its_defender_neighbor() {
    let mut board = Board::empty();
    board.set(sq(5, 5), Some(Piece::King));
    board.set(sq(5, 4), Some(Piece::Defender));
    board.set(sq(0, 3), Some(Piece::Attacker));
    let mut game = Game::from_board(Ruleset::Classic, board, Side::Attacker);

    game.apply_move(Move::new(pos(0, 0, 0, 3), pos(0, 0, 5, 3)))
        .expect("move beside the defender");

    assert_eq!(
        game.board(BoardCoordinate::new(1, 0))
            .expect("result")
            .board
            .get(sq(5, 4)),
        Some(Piece::Defender)
    );
}

#[test]
fn empty_throne_is_hostile_to_a_defender() {
    let mut board = Board::empty();
    board.set(sq(5, 4), Some(Piece::Defender));
    board.set(sq(0, 3), Some(Piece::Attacker));
    board.set(sq(8, 8), Some(Piece::King));
    let mut game = Game::from_board(Ruleset::Classic, board, Side::Attacker);

    game.apply_move(Move::new(pos(0, 0, 0, 3), pos(0, 0, 5, 3)))
        .expect("capture against the empty throne");

    assert_eq!(
        game.board(BoardCoordinate::new(1, 0))
            .expect("result")
            .board
            .get(sq(5, 4)),
        None
    );
}

#[test]
fn moving_between_enemies_does_not_self_capture() {
    let mut board = Board::empty();
    board.set(sq(2, 3), Some(Piece::Attacker));
    board.set(sq(4, 3), Some(Piece::Attacker));
    board.set(sq(3, 0), Some(Piece::Defender));
    board.set(sq(8, 8), Some(Piece::King));
    let coordinate = BoardCoordinate::new(1, 0);
    let mut game = game_with(
        Ruleset::Classic,
        Side::Defender,
        vec![timeline(0, None, vec![snapshot(1, 0, board, None)])],
    );
    game.apply_move(Move::new(
        Position::new(coordinate, sq(3, 0)),
        Position::new(coordinate, sq(3, 3)),
    ))
    .expect("defender may enter the sandwich");
    assert_eq!(
        game.board(BoardCoordinate::new(2, 0))
            .expect("result")
            .board
            .get(sq(3, 3)),
        Some(Piece::Defender)
    );
}

#[test]
fn king_requires_two_complete_spatial_axes_in_classic_play() {
    let mut board = Board::empty();
    board.set(sq(5, 5), Some(Piece::King));
    board.set(sq(5, 4), Some(Piece::Attacker));
    board.set(sq(5, 6), Some(Piece::Attacker));
    board.set(sq(4, 5), Some(Piece::Attacker));
    board.set(sq(10, 5), Some(Piece::Attacker));
    let mut game = Game::from_board(Ruleset::Classic, board, Side::Attacker);
    game.apply_move(Move::new(pos(0, 0, 10, 5), pos(0, 0, 6, 5)))
        .expect("closing move");
    assert_eq!(
        game.outcome(),
        Some(GameOutcome {
            winner: Side::Attacker,
            reason: OutcomeReason::KingCaptured,
        })
    );
}

#[test]
fn king_is_not_captured_spatially_on_board_edge() {
    let mut board = Board::empty();
    board.set(sq(4, 0), Some(Piece::King));
    board.set(sq(3, 0), Some(Piece::Attacker));
    board.set(sq(5, 0), Some(Piece::Attacker));
    board.set(sq(4, 2), Some(Piece::Attacker));
    let mut game = Game::from_board(Ruleset::Classic, board, Side::Attacker);
    game.apply_move(Move::new(pos(0, 0, 4, 2), pos(0, 0, 4, 1)))
        .expect("closing three-sided surround");
    assert_ne!(
        game.outcome().map(|outcome| outcome.reason),
        Some(OutcomeReason::KingCaptured)
    );
}

#[test]
fn shield_wall_can_be_closed_by_front_pressure() {
    let mut board = Board::empty();
    for x in 3..=5 {
        board.set(sq(x, 0), Some(Piece::Attacker));
        board.set(sq(x, 1), Some(Piece::Defender));
    }
    board.set(sq(3, 1), None);
    board.set(sq(3, 2), Some(Piece::Defender));
    board.set(sq(2, 0), Some(Piece::Defender));
    board.set(sq(6, 0), Some(Piece::Defender));
    board.set(sq(8, 8), Some(Piece::King));
    let mut game = game_with(
        Ruleset::Classic,
        Side::Defender,
        vec![timeline(0, None, vec![snapshot(1, 0, board, None)])],
    );
    game.apply_move(Move::new(pos(1, 0, 3, 2), pos(1, 0, 3, 1)))
        .expect("shield wall move");
    let board = &game
        .board(BoardCoordinate::new(2, 0))
        .expect("result")
        .board;
    for x in 3..=5 {
        assert_eq!(board.get(sq(x, 0)), None);
    }
}

#[test]
fn king_escape_to_corner_wins() {
    let mut board = Board::empty();
    board.set(sq(0, 2), Some(Piece::King));
    board.set(sq(5, 5), Some(Piece::Defender));
    let mut game = game_with(
        Ruleset::Classic,
        Side::Defender,
        vec![timeline(0, None, vec![snapshot(1, 0, board, None)])],
    );
    game.apply_move(Move::new(pos(1, 0, 0, 2), pos(1, 0, 0, 0)))
        .expect("corner escape");
    assert_eq!(
        game.outcome().map(|outcome| outcome.reason),
        Some(OutcomeReason::KingEscaped)
    );
}

#[test]
fn documented_edge_fort_shape_is_recognized() {
    let mut board = Board::empty();
    board.set(sq(4, 0), Some(Piece::King));
    for square in [sq(3, 0), sq(6, 0), sq(4, 1), sq(5, 1)] {
        board.set(square, Some(Piece::Defender));
    }
    assert!(is_exit_fort(&board));
    board.set(sq(4, 1), None);
    assert!(!is_exit_fort(&board));
}

#[test]
fn documented_two_space_edge_block_is_a_no_escape_loss() {
    let board = board_from_rows([
        "# . . . . A D D A . #",
        ". . . . A . . . . A .",
        ". . . A . . . . . . A",
        ". . A . . . . . D D D",
        ". . A . . . . . D . K",
        ". . A . . # . . D D A",
        ". . A . . . . . . . A",
        ". . A . . . . . . . A",
        ". . . A . . . . . . A",
        ". . . . A . . . . A .",
        "# . . . . A . . A . #",
    ]);

    assert!(defenders_cannot_escape(&board));
}

#[test]
fn documented_low_material_block_is_a_no_escape_loss() {
    let board = board_from_rows([
        "# . A . . . . . A . #",
        ". A . . . . . . . A .",
        "A . . . . . . . . . A",
        ". . . . . . . . . . .",
        ". . . . . . . . . . D",
        "A . . . . # . . . . K",
        ". . . . . . . . . D .",
        ". . . . . . . . . . D",
        "A . . . . . . . . . A",
        ". A . . . . . . . A .",
        "# . A . . . . . A . #",
    ]);

    assert!(defenders_cannot_escape(&board));
}

#[test]
fn disconnected_edge_block_is_not_a_no_escape_loss() {
    let board = board_from_rows([
        "# . A A A A D D A . #",
        ". A . . . . . . . A .",
        "A . . . . . . . . . A",
        ". . . . . . . . D D D",
        "A . . . . . . . D . K",
        "A . . . . # . . D D A",
        "A . . . . . . . . . A",
        ". . . . . . . . . . A",
        "A . . . . . . . . . A",
        ". A . . . . . . . A .",
        "# . A A A A . . A . #",
    ]);

    assert!(!defenders_cannot_escape(&board));
}

#[test]
fn multiverse_turn_is_staged_until_present_changes_side() {
    let mut game = Game::new(Ruleset::Multiverse);
    game.apply_move(Move::new(pos(0, 0, 3, 0), pos(0, 0, 2, 0)))
        .expect("opening move");
    assert_eq!(game.turn(), Side::Attacker);
    assert!(game.has_staged_moves());
    assert!(game.can_submit());
    game.submit_turn().expect("turn is complete");
    assert_eq!(game.turn(), Side::Defender);
    assert!(!game.has_staged_moves());
}

#[test]
fn temporal_move_advances_source_and_branches_destination() {
    let empty = Board::empty();
    let mut latest = Board::empty();
    latest.set(sq(2, 2), Some(Piece::Attacker));
    latest.set(sq(8, 8), Some(Piece::King));
    let boards = vec![
        snapshot(0, 0, empty.clone(), None),
        snapshot(1, 0, empty.clone(), Some(BoardCoordinate::new(0, 0))),
        snapshot(2, 0, latest, Some(BoardCoordinate::new(1, 0))),
    ];
    let mut game = game_with(
        Ruleset::Multiverse,
        Side::Attacker,
        vec![timeline(0, None, boards)],
    );
    game.apply_move(Move::new(pos(2, 0, 2, 2), pos(0, 0, 2, 2)))
        .expect("temporal move");
    assert_eq!(
        game.board(BoardCoordinate::new(3, 0))
            .expect("source successor")
            .board
            .get(sq(2, 2)),
        None
    );
    assert_eq!(
        game.board(BoardCoordinate::new(1, 1))
            .expect("branch successor")
            .board
            .get(sq(2, 2)),
        Some(Piece::Attacker)
    );
    assert_eq!(
        game.board(BoardCoordinate::new(0, 0))
            .expect("history remains")
            .board
            .get(sq(2, 2)),
        None
    );
}

#[test]
fn temporal_path_checks_intervening_same_parity_boards() {
    let empty = Board::empty();
    let mut middle = Board::empty();
    middle.set(sq(2, 2), Some(Piece::Defender));
    let mut latest = Board::empty();
    latest.set(sq(2, 2), Some(Piece::Attacker));
    latest.set(sq(8, 8), Some(Piece::King));
    let boards = vec![
        snapshot(0, 0, empty.clone(), None),
        snapshot(1, 0, empty.clone(), Some(BoardCoordinate::new(0, 0))),
        snapshot(2, 0, middle, Some(BoardCoordinate::new(1, 0))),
        snapshot(3, 0, empty, Some(BoardCoordinate::new(2, 0))),
        snapshot(4, 0, latest, Some(BoardCoordinate::new(3, 0))),
    ];
    let game = game_with(
        Ruleset::Multiverse,
        Side::Attacker,
        vec![timeline(0, None, boards)],
    );
    assert_eq!(
        game.validate_move(Move::new(pos(4, 0, 2, 2), pos(0, 0, 2, 2))),
        Err(MoveError::BlockedPath)
    );
}

#[test]
fn next_free_outward_timeline_is_used_and_excess_is_inactive() {
    let empty = Board::empty();
    let mut source = Board::empty();
    source.set(sq(2, 2), Some(Piece::Attacker));
    source.set(sq(8, 8), Some(Piece::King));
    let origin = timeline(
        0,
        None,
        vec![
            snapshot(0, 0, empty.clone(), None),
            snapshot(1, 0, empty.clone(), Some(BoardCoordinate::new(0, 0))),
            snapshot(2, 0, empty.clone(), Some(BoardCoordinate::new(1, 0))),
            snapshot(3, 0, empty.clone(), Some(BoardCoordinate::new(2, 0))),
            snapshot(4, 0, source, Some(BoardCoordinate::new(3, 0))),
        ],
    );
    let existing = timeline(
        1,
        Some(Side::Attacker),
        vec![snapshot(5, 1, empty, Some(BoardCoordinate::new(0, 0)))],
    );
    let mut game = game_with(Ruleset::Multiverse, Side::Attacker, vec![origin, existing]);
    game.apply_move(Move::new(pos(4, 0, 2, 2), pos(0, 0, 2, 2)))
        .expect("branch skips occupied L1");
    assert!(game.timeline(2).is_some());
    assert!(!game.is_active_timeline(2));
}

#[test]
fn timeline_balance_activates_only_nearest_owned_rows() {
    let board = Board::empty();
    let game = game_with(
        Ruleset::Multiverse,
        Side::Attacker,
        vec![
            timeline(0, None, vec![snapshot(4, 0, board.clone(), None)]),
            timeline(
                1,
                Some(Side::Attacker),
                vec![snapshot(4, 1, board.clone(), None)],
            ),
            timeline(
                2,
                Some(Side::Attacker),
                vec![snapshot(4, 2, board.clone(), None)],
            ),
            timeline(-1, Some(Side::Defender), vec![snapshot(4, -1, board, None)]),
        ],
    );
    assert!(game.is_active_timeline(0));
    assert!(game.is_active_timeline(1));
    assert!(game.is_active_timeline(2));
    assert!(game.is_active_timeline(-1));
}

#[test]
fn temporal_capture_creates_causal_successor_without_rewriting_history() {
    let mut boards = Vec::new();
    for time in 0..=4 {
        let mut board = Board::empty();
        if time == 1 {
            board.set(sq(6, 5), Some(Piece::Attacker));
        }
        if time == 3 {
            board.set(sq(6, 5), Some(Piece::Defender));
        }
        if time == 4 {
            board.set(sq(6, 1), Some(Piece::Attacker));
            board.set(sq(8, 8), Some(Piece::King));
        }
        boards.push(snapshot(
            time,
            0,
            board,
            (time > 0).then_some(BoardCoordinate::new(time - 1, 0)),
        ));
    }
    let mut game = game_with(
        Ruleset::Multiverse,
        Side::Attacker,
        vec![timeline(0, None, boards)],
    );
    game.apply_move(Move::new(pos(4, 0, 6, 1), pos(4, 0, 6, 5)))
        .expect("move closes temporal sandwich");
    assert_eq!(
        game.board(BoardCoordinate::new(3, 0))
            .expect("history")
            .board
            .get(sq(6, 5)),
        Some(Piece::Defender)
    );
    assert_eq!(
        game.board(BoardCoordinate::new(4, 1))
            .expect("capture branch")
            .board
            .get(sq(6, 5)),
        None
    );
}

#[test]
fn timeline_axis_capture_advances_victim_board() {
    let target = sq(6, 5);
    let mut source_board = Board::empty();
    source_board.set(sq(6, 1), Some(Piece::Attacker));
    source_board.set(sq(8, 8), Some(Piece::King));
    let mut victim_board = Board::empty();
    victim_board.set(target, Some(Piece::Defender));
    let mut support_board = Board::empty();
    support_board.set(target, Some(Piece::Attacker));
    let game_board = Board::empty();
    let mut game = game_with(
        Ruleset::Multiverse,
        Side::Attacker,
        vec![
            timeline(
                1,
                Some(Side::Attacker),
                vec![snapshot(4, 1, source_board, None)],
            ),
            timeline(0, None, vec![snapshot(5, 0, victim_board, None)]),
            timeline(
                -1,
                Some(Side::Defender),
                vec![snapshot(5, -1, support_board, None)],
            ),
            timeline(
                -2,
                Some(Side::Defender),
                vec![snapshot(5, -2, game_board, None)],
            ),
        ],
    );
    game.apply_move(Move::new(pos(4, 1, 6, 1), pos(4, 1, 6, 5)))
        .expect("move closes timeline sandwich");
    assert_eq!(
        game.board(BoardCoordinate::new(6, 0))
            .expect("victim successor")
            .board
            .get(target),
        None
    );
    assert_eq!(
        game.board(BoardCoordinate::new(5, 0))
            .expect("victim history")
            .board
            .get(target),
        Some(Piece::Defender)
    );
}

#[test]
fn two_temporal_axes_can_capture_edge_king() {
    let target = sq(5, 0);
    let mut origin_boards = Vec::new();
    for time in 0..=4 {
        let mut board = Board::empty();
        if time == 1 {
            board.set(target, Some(Piece::Attacker));
        }
        if time == 3 {
            board.set(target, Some(Piece::King));
        }
        if time == 4 {
            board.set(sq(5, 4), Some(Piece::Attacker));
        }
        origin_boards.push(snapshot(
            time,
            0,
            board,
            (time > 0).then_some(BoardCoordinate::new(time - 1, 0)),
        ));
    }
    let mut plus_t3 = Board::empty();
    plus_t3.set(target, Some(Piece::Attacker));
    let mut minus_t3 = Board::empty();
    minus_t3.set(target, Some(Piece::Attacker));
    let plus = timeline(
        1,
        Some(Side::Attacker),
        vec![
            snapshot(3, 1, plus_t3, None),
            snapshot(4, 1, Board::empty(), Some(BoardCoordinate::new(3, 1))),
        ],
    );
    let minus = timeline(
        -1,
        Some(Side::Defender),
        vec![
            snapshot(3, -1, minus_t3, None),
            snapshot(4, -1, Board::empty(), Some(BoardCoordinate::new(3, -1))),
        ],
    );
    let mut game = game_with(
        Ruleset::Multiverse,
        Side::Attacker,
        vec![timeline(0, None, origin_boards), plus, minus],
    );
    game.apply_move(Move::new(pos(4, 0, 5, 4), pos(4, 0, 5, 0)))
        .expect("move completes T and L axes");
    assert_eq!(
        game.outcome().map(|outcome| outcome.reason),
        Some(OutcomeReason::KingCaptured)
    );
}

#[test]
fn defender_cannot_repeat_a_causal_ancestor() {
    let mut at_a = Board::empty();
    at_a.set(sq(1, 1), Some(Piece::Defender));
    at_a.set(sq(8, 8), Some(Piece::King));
    let mut at_b = Board::empty();
    at_b.set(sq(1, 2), Some(Piece::Defender));
    at_b.set(sq(8, 8), Some(Piece::King));
    let boards = vec![
        snapshot(1, 0, at_a, None),
        snapshot(2, 0, at_b.clone(), Some(BoardCoordinate::new(1, 0))),
        snapshot(3, 0, at_b, Some(BoardCoordinate::new(2, 0))),
    ];
    let mut game = game_with(
        Ruleset::Multiverse,
        Side::Defender,
        vec![timeline(0, None, boards)],
    );
    let repetition = Move::new(pos(3, 0, 1, 2), pos(3, 0, 1, 1));
    assert_eq!(
        game.validate_move(repetition),
        Err(MoveError::DefenderRepetition)
    );
    assert!(!game.legal_moves().contains(&repetition));
    assert_eq!(
        game.apply_move(repetition),
        Err(MoveError::DefenderRepetition)
    );
    assert_eq!(game.latest_coordinate(0), Some(BoardCoordinate::new(3, 0)));
}

#[test]
fn undo_restores_entire_staged_multiverse_transaction() {
    let mut game = Game::new(Ruleset::Multiverse);
    let before = game
        .board(BoardCoordinate::new(0, 0))
        .expect("origin")
        .board
        .clone();
    game.apply_move(Move::new(pos(0, 0, 3, 0), pos(0, 0, 2, 0)))
        .expect("opening move");
    game.undo_staged_move().expect("undo");
    assert_eq!(game.latest_coordinate(0), Some(BoardCoordinate::new(0, 0)));
    assert_eq!(
        &game
            .board(BoardCoordinate::new(0, 0))
            .expect("origin")
            .board,
        &before
    );
}

#[test]
fn multiverse_player_loses_when_no_sequence_clears_every_present_board() {
    let mut trapped = Board::empty();
    trapped.set(sq(5, 5), Some(Piece::Attacker));
    trapped.set(sq(5, 4), Some(Piece::Defender));
    trapped.set(sq(5, 6), Some(Piece::Defender));
    trapped.set(sq(4, 5), Some(Piece::Defender));
    trapped.set(sq(6, 5), Some(Piece::Defender));

    let mut movable = Board::empty();
    movable.set(sq(1, 1), Some(Piece::Attacker));

    let mut game = game_with(
        Ruleset::Multiverse,
        Side::Attacker,
        vec![
            timeline(0, None, vec![snapshot(0, 0, trapped, None)]),
            timeline(1, Some(Side::Attacker), vec![snapshot(0, 1, movable, None)]),
        ],
    );
    assert!(game.has_any_legal_move());

    game.finish_turn_status();

    assert_eq!(
        game.outcome(),
        Some(GameOutcome {
            winner: Side::Defender,
            reason: OutcomeReason::NoLegalTurn,
        })
    );
}
