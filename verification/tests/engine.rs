use huginn::{
    AiPlayer, Board, BoardCoordinate, BoardSnapshot, Game, GameOutcome, GameView, Move, MoveError,
    OutcomeReason, Piece, PlayerAction, Position, RavenBot, Ruleset, Side, Square, Timeline,
};

fn sq(x: u8, y: u8) -> Square {
    Square::new(x, y).expect("valid square")
}

fn pos(time: i32, timeline: i32, x: u8, y: u8) -> Position {
    Position::new(BoardCoordinate::new(time, timeline), sq(x, y))
}

fn mv(from: Position, to: Position) -> Move {
    Move::new(from, to)
}

fn snapshot(time: i32, timeline: i32, board: Board, parent: Option<BoardCoordinate>) -> BoardSnapshot {
    BoardSnapshot {
        coordinate: BoardCoordinate::new(time, timeline),
        board,
        parent,
        created_by: None,
    }
}

fn lone_attacker_game() -> Game {
    let mut board = Board::empty();
    board.set(sq(1, 1), Some(Piece::Attacker));
    board.set(sq(8, 8), Some(Piece::King));
    Game::from_board(Ruleset::Classic, board, Side::Attacker)
}

fn two_present_boards() -> Game {
    let mut first = Board::empty();
    first.set(sq(1, 1), Some(Piece::Attacker));
    first.set(sq(8, 8), Some(Piece::King));
    let mut second = Board::empty();
    second.set(sq(2, 2), Some(Piece::Attacker));
    Game::from_timelines(
        Ruleset::Multiverse,
        vec![
            Timeline { row: 0, owner: None, boards: vec![snapshot(0, 0, first, None)] },
            Timeline {
                row: 1,
                owner: Some(Side::Attacker),
                boards: vec![snapshot(0, 1, second, None)],
            },
        ],
        Side::Attacker,
    )
    .expect("well formed")
}

#[test]
fn new_game_names_the_side_to_move() {
    let game = Game::new(Ruleset::Classic);
    assert_eq!(game.message(), "Attackers to move.");
    assert_eq!(game.ruleset(), Ruleset::Classic);
    assert_eq!(game.outcome(), None);
    assert_eq!(game.present_time(), Some(0));
    assert_eq!(game.playable_boards(), vec![BoardCoordinate::new(0, 0)]);
    assert!(game.has_room());
    assert!(!game.has_staged_moves());
    assert!(!game.can_submit());
    assert_eq!(game.timelines().len(), 1);
}

#[test]
fn defenders_start_on_the_first_odd_board() {
    let game = Game::from_board(Ruleset::Multiverse, Board::copenhagen(), Side::Defender);
    assert_eq!(game.latest_coordinate(0), Some(BoardCoordinate::new(1, 0)));
    assert_eq!(game.message(), "Defenders to move.");
}

#[test]
fn classic_move_reports_the_next_side() {
    let mut game = Game::new(Ruleset::Classic);
    game.apply_move(mv(pos(0, 0, 3, 0), pos(0, 0, 2, 0))).expect("legal");
    assert_eq!(game.message(), "Defenders to move.");
    assert!(!game.has_staged_moves());
    let successor = game.board(BoardCoordinate::new(1, 0)).expect("successor");
    assert_eq!(successor.parent, Some(BoardCoordinate::new(0, 0)));
    assert_eq!(successor.created_by, Some(Side::Attacker));
    assert_eq!(successor.side_to_move(), Side::Defender);
}

#[test]
fn multiverse_move_reports_the_move_until_submitted() {
    let mut game = Game::new(Ruleset::Multiverse);
    game.apply_move(mv(pos(0, 0, 3, 0), pos(0, 0, 2, 0))).expect("legal");
    assert_eq!(game.message(), "Attackers moved T0L0:D1 to T0L0:C1.");
    game.submit_turn().expect("complete turn");
    assert_eq!(game.message(), "Defenders to move.");
}

#[test]
fn undo_of_the_only_staged_move_names_the_side_to_move() {
    let mut game = Game::new(Ruleset::Multiverse);
    game.apply_move(mv(pos(0, 0, 3, 0), pos(0, 0, 2, 0))).expect("legal");
    game.undo_staged_move().expect("undo");
    assert_eq!(game.message(), "Attackers to move.");
    assert!(!game.has_staged_moves());
    assert_eq!(game.latest_coordinate(0), Some(BoardCoordinate::new(0, 0)));
}

#[test]
fn undo_with_earlier_staged_moves_says_so() {
    let mut game = two_present_boards();
    game.apply_move(mv(pos(0, 0, 1, 1), pos(0, 0, 1, 2))).expect("first board");
    game.apply_move(mv(pos(0, 1, 2, 2), pos(0, 1, 2, 3))).expect("second board");
    game.undo_staged_move().expect("undo");
    assert_eq!(game.message(), "Undid staged move.");
    assert!(game.has_staged_moves());
    assert_eq!(game.latest_coordinate(1), Some(BoardCoordinate::new(0, 1)));
    assert_eq!(game.latest_coordinate(0), Some(BoardCoordinate::new(1, 0)));
}

#[test]
fn winning_move_reports_the_winner() {
    let mut board = Board::empty();
    board.set(sq(0, 2), Some(Piece::King));
    board.set(sq(5, 5), Some(Piece::Defender));
    let mut game = Game::from_board(Ruleset::Classic, board, Side::Defender);
    game.apply_move(mv(pos(1, 0, 0, 2), pos(1, 0, 0, 0))).expect("escape");
    assert_eq!(game.message(), "Defenders win: KingEscaped.");
    assert_eq!(
        game.apply_move(mv(pos(2, 0, 5, 5), pos(2, 0, 5, 6))),
        Err(MoveError::GameOver)
    );
}

#[test]
fn side_without_moves_loses_in_classic_play() {
    let mut board = Board::empty();
    board.set(sq(5, 5), Some(Piece::Attacker));
    board.set(sq(5, 4), Some(Piece::Defender));
    board.set(sq(5, 6), Some(Piece::Defender));
    board.set(sq(4, 5), Some(Piece::Defender));
    board.set(sq(6, 5), Some(Piece::Defender));
    board.set(sq(9, 9), Some(Piece::King));
    board.set(sq(0, 9), Some(Piece::Defender));
    let mut game = Game::from_board(Ruleset::Classic, board, Side::Defender);
    game.apply_move(mv(pos(1, 0, 0, 9), pos(1, 0, 1, 9))).expect("quiet move");
    assert_eq!(
        game.outcome(),
        Some(GameOutcome { winner: Side::Defender, reason: OutcomeReason::NoLegalTurn })
    );
    assert_eq!(game.message(), "Attackers have no legal move.");
}

#[test]
fn crossing_the_empty_throne_counts_as_a_legal_move() {
    let mut board = Board::empty();
    board.set(sq(4, 5), Some(Piece::Attacker));
    board.set(sq(3, 5), Some(Piece::Defender));
    board.set(sq(4, 4), Some(Piece::Defender));
    board.set(sq(4, 6), Some(Piece::Defender));
    board.set(sq(9, 9), Some(Piece::King));
    board.set(sq(0, 9), Some(Piece::Defender));
    let mut game = Game::from_board(Ruleset::Classic, board, Side::Defender);
    game.apply_move(mv(pos(1, 0, 0, 9), pos(1, 0, 1, 9))).expect("quiet move");
    assert_eq!(game.outcome(), None);
    assert_eq!(game.message(), "Attackers to move.");
    assert!(game.has_any_legal_move());
    assert!(game.legal_moves().contains(&mv(pos(2, 0, 4, 5), pos(2, 0, 6, 5))));
}

#[test]
fn every_refusal_is_named() {
    let game = Game::new(Ruleset::Classic);
    assert_eq!(
        game.validate_move(mv(pos(5, 0, 3, 0), pos(5, 0, 2, 0))),
        Err(MoveError::MissingBoard)
    );
    assert_eq!(
        game.validate_move(mv(pos(0, 0, 0, 1), pos(0, 0, 0, 2))),
        Err(MoveError::EmptySource)
    );
    assert_eq!(
        game.validate_move(mv(pos(0, 0, 5, 3), pos(0, 0, 3, 3))),
        Err(MoveError::WrongSide)
    );
    assert_eq!(
        game.validate_move(mv(pos(0, 0, 3, 0), pos(0, 0, 4, 0))),
        Err(MoveError::OccupiedDestination)
    );
    assert_eq!(
        game.validate_move(mv(pos(0, 0, 3, 0), pos(0, 0, 2, 1))),
        Err(MoveError::InvalidGeometry)
    );
    assert_eq!(
        game.validate_move(mv(pos(0, 0, 3, 0), pos(0, 0, 3, 6))),
        Err(MoveError::BlockedPath)
    );
    let mut played = Game::new(Ruleset::Classic);
    played.apply_move(mv(pos(0, 0, 3, 0), pos(0, 0, 2, 0))).expect("legal");
    assert_eq!(
        played.validate_move(mv(pos(0, 0, 4, 0), pos(0, 0, 4, 1))),
        Err(MoveError::SourceNotPlayable)
    );
    let mut classic = Game::new(Ruleset::Classic);
    assert_eq!(classic.submit_turn(), Err(MoveError::NothingToSubmit));
    assert_eq!(classic.undo_staged_move(), Err(MoveError::NothingToUndo));
}

#[test]
fn time_travel_must_cover_an_even_distance() {
    let empty = Board::empty();
    let mut latest = Board::empty();
    latest.set(sq(2, 2), Some(Piece::Attacker));
    latest.set(sq(8, 8), Some(Piece::King));
    let game = Game::from_timelines(
        Ruleset::Multiverse,
        vec![Timeline {
            row: 0,
            owner: None,
            boards: vec![
                snapshot(0, 0, empty, None),
                snapshot(1, 0, empty, Some(BoardCoordinate::new(0, 0))),
                snapshot(2, 0, latest, Some(BoardCoordinate::new(1, 0))),
            ],
        }],
        Side::Attacker,
    )
    .expect("well formed");
    assert_eq!(
        game.validate_move(mv(pos(2, 0, 2, 2), pos(1, 0, 2, 2))),
        Err(MoveError::InvalidTimeTravel)
    );
    assert_eq!(
        game.legal_moves_from(pos(2, 0, 2, 2)).last(),
        Some(&mv(pos(2, 0, 2, 2), pos(0, 0, 2, 2)))
    );
}

#[test]
fn classic_play_has_no_time_travel() {
    let empty = Board::empty();
    let mut latest = Board::empty();
    latest.set(sq(2, 2), Some(Piece::Attacker));
    latest.set(sq(8, 8), Some(Piece::King));
    let game = Game::from_timelines(
        Ruleset::Classic,
        vec![Timeline {
            row: 0,
            owner: None,
            boards: vec![
                snapshot(0, 0, empty, None),
                snapshot(1, 0, empty, Some(BoardCoordinate::new(0, 0))),
                snapshot(2, 0, latest, Some(BoardCoordinate::new(1, 0))),
            ],
        }],
        Side::Attacker,
    )
    .expect("well formed");
    assert_eq!(
        game.validate_move(mv(pos(2, 0, 2, 2), pos(0, 0, 2, 2))),
        Err(MoveError::InvalidGeometry)
    );
}

#[test]
fn submission_waits_for_every_present_board() {
    let mut game = two_present_boards();
    assert_eq!(game.submit_turn(), Err(MoveError::NothingToSubmit));
    game.apply_move(mv(pos(0, 1, 2, 2), pos(0, 1, 2, 3))).expect("second board");
    assert!(!game.can_submit());
    assert_eq!(game.submit_turn(), Err(MoveError::PendingPresentBoards));
    game.apply_move(mv(pos(0, 0, 1, 1), pos(0, 0, 1, 2))).expect("first board");
    assert!(game.can_submit());
    game.submit_turn().expect("complete turn");
    assert_eq!(game.turn(), Side::Defender);
}

#[test]
fn legal_moves_run_right_left_up_down() {
    let game = lone_attacker_game();
    let moves = game.legal_moves_from(pos(0, 0, 1, 1));
    assert_eq!(moves.len(), 20);
    assert_eq!(moves[0], mv(pos(0, 0, 1, 1), pos(0, 0, 2, 1)));
    assert_eq!(moves[8], mv(pos(0, 0, 1, 1), pos(0, 0, 10, 1)));
    assert_eq!(moves[9], mv(pos(0, 0, 1, 1), pos(0, 0, 0, 1)));
    assert_eq!(moves[10], mv(pos(0, 0, 1, 1), pos(0, 0, 1, 2)));
    assert_eq!(moves[19], mv(pos(0, 0, 1, 1), pos(0, 0, 1, 0)));
    assert_eq!(game.legal_moves(), moves);
    assert!(game.legal_moves_from(pos(0, 0, 8, 8)).is_empty());
}

#[test]
fn every_listed_move_is_accepted() {
    let game = Game::new(Ruleset::Multiverse);
    let moves = game.legal_moves();
    assert!(!moves.is_empty());
    for movement in moves {
        assert_eq!(game.validate_move(movement), Ok(()));
        let mut copy = Game::new(Ruleset::Multiverse);
        assert_eq!(copy.apply_move(movement), Ok(()));
    }
}

#[test]
fn every_accepted_move_is_listed() {
    let game = Game::new(Ruleset::Classic);
    let moves = game.legal_moves();
    let mut accepted = 0;
    for fx in 0..11u8 {
        for fy in 0..11u8 {
            for tx in 0..11u8 {
                for ty in 0..11u8 {
                    let movement = mv(pos(0, 0, fx, fy), pos(0, 0, tx, ty));
                    if game.validate_move(movement).is_ok() {
                        accepted += 1;
                        assert!(moves.contains(&movement));
                    }
                }
            }
        }
    }
    assert_eq!(accepted, moves.len());
}

#[test]
fn actions_play_moves_and_submit_turns() {
    let mut game = Game::new(Ruleset::Multiverse);
    let movement = mv(pos(0, 0, 3, 0), pos(0, 0, 2, 0));
    assert_eq!(game.apply_action(PlayerAction::Move { movement }), Ok(()));
    assert!(game.can_submit());
    assert_eq!(game.apply_action(PlayerAction::SubmitTurn), Ok(()));
    assert_eq!(game.turn(), Side::Defender);
    assert!(!game.has_staged_moves());
    assert_eq!(
        game.apply_action(PlayerAction::SubmitTurn),
        Err(MoveError::NothingToSubmit)
    );
}

#[test]
fn raven_acts_only_while_it_holds_the_turn() {
    let mut game = Game::new(Ruleset::Multiverse);
    let mut bot = RavenBot::new(7);
    assert_eq!(bot.advance(&mut game, Some(Side::Defender)), Ok(()));
    assert_eq!(game.latest_coordinate(0), Some(BoardCoordinate::new(0, 0)));
    assert_eq!(bot.advance(&mut game, Some(Side::Attacker)), Ok(()));
    assert_eq!(game.turn(), Side::Defender);
    assert_eq!(game.latest_coordinate(0), Some(BoardCoordinate::new(1, 0)));
    assert!(!game.has_staged_moves());
}

#[test]
fn latest_board_has_the_greatest_time() {
    let timeline = Timeline {
        row: 0,
        owner: None,
        boards: vec![
            snapshot(2, 0, Board::empty(), None),
            snapshot(1, 0, Board::empty(), None),
        ],
    };
    assert_eq!(
        timeline.latest().map(|board| board.coordinate),
        Some(BoardCoordinate::new(2, 0))
    );
}

#[test]
fn early_refusals_come_before_squares_are_read() {
    let game = Game::new(Ruleset::Classic);
    let off = Square { x: 20, y: 0 };
    let far = Position::new(BoardCoordinate::new(5, 0), off);
    let here = Position::new(BoardCoordinate::new(0, 0), sq(3, 0));
    assert_eq!(game.validate_move(mv(far, here)), Err(MoveError::MissingBoard));
    assert!(game.legal_moves_from(far).is_empty());
    let two = two_present_boards();
    let empty = Position::new(BoardCoordinate::new(0, 0), sq(5, 5));
    assert_eq!(
        two.validate_move(mv(empty, Position::new(BoardCoordinate::new(0, 0), off))),
        Err(MoveError::EmptySource)
    );
}

#[test]
fn history_is_kept_after_every_move() {
    let mut game = Game::new(Ruleset::Classic);
    let before = game.board(BoardCoordinate::new(0, 0)).expect("origin").clone();
    game.apply_move(mv(pos(0, 0, 3, 0), pos(0, 0, 2, 0))).expect("legal");
    game.apply_move(mv(pos(1, 0, 5, 3), pos(1, 0, 3, 3))).expect("legal");
    assert_eq!(game.board(BoardCoordinate::new(0, 0)), Some(&before));
    assert_eq!(game.latest_coordinate(0), Some(BoardCoordinate::new(2, 0)));
}

#[test]
fn refused_move_leaves_the_game_unchanged() {
    let mut game = Game::new(Ruleset::Multiverse);
    assert_eq!(
        game.apply_move(mv(pos(0, 0, 3, 0), pos(0, 0, 4, 0))),
        Err(MoveError::OccupiedDestination)
    );
    assert!(!game.has_staged_moves());
    assert_eq!(game.latest_coordinate(0), Some(BoardCoordinate::new(0, 0)));
    assert_eq!(game.message(), "Attackers to move.");
}

#[test]
fn ill_formed_positions_are_refused() {
    let board = Board::empty();
    let unsorted = vec![
        Timeline { row: 1, owner: Some(Side::Attacker), boards: vec![snapshot(0, 1, board, None)] },
        Timeline { row: 0, owner: None, boards: vec![snapshot(0, 0, board, None)] },
    ];
    assert!(Game::from_timelines(Ruleset::Multiverse, unsorted, Side::Attacker).is_none());
    let wrong_row = vec![Timeline { row: 0, owner: None, boards: vec![snapshot(0, 3, board, None)] }];
    assert!(Game::from_timelines(Ruleset::Multiverse, wrong_row, Side::Attacker).is_none());
    let late_parent = vec![Timeline {
        row: 0,
        owner: None,
        boards: vec![snapshot(0, 0, board, Some(BoardCoordinate::new(4, 0)))],
    }];
    assert!(Game::from_timelines(Ruleset::Multiverse, late_parent, Side::Attacker).is_none());
    let far = vec![Timeline { row: 0, owner: None, boards: vec![snapshot(600_000_000, 0, board, None)] }];
    assert!(Game::from_timelines(Ruleset::Multiverse, far, Side::Attacker).is_none());
}

#[test]
fn game_view_shows_the_position() {
    let game = Game::new(Ruleset::Multiverse);
    let view = GameView::from_game(&game);
    assert_eq!(view.turn, Side::Attacker);
    assert_eq!(view.ruleset, Ruleset::Multiverse);
    assert_eq!(view.timelines.len(), 1);
    assert_eq!(view.legal_moves, game.legal_moves());
    assert_eq!(view.active_timelines, vec![0]);
    assert_eq!(view.playable_boards, vec![BoardCoordinate::new(0, 0)]);
    assert_eq!(view.present_time, Some(0));
    assert_eq!(view.message, "Attackers to move.");
    assert!(!view.can_submit);
    assert!(!view.has_staged_moves);
}

#[test]
fn raven_picks_by_its_generator_and_submits_when_it_can() {
    let game = lone_attacker_game();
    let mut bot = RavenBot::default();
    assert_eq!(bot.profile().username, "bot-raven");
    assert_eq!(bot.profile().display_name, "Raven (baseline)");
    let action = bot.choose_action(&GameView::from_game(&game)).expect("move");
    assert_eq!(
        action,
        PlayerAction::Move { movement: mv(pos(0, 0, 1, 1), pos(0, 0, 1, 2)) }
    );
    let mut staged = Game::new(Ruleset::Multiverse);
    staged.apply_move(mv(pos(0, 0, 3, 0), pos(0, 0, 2, 0))).expect("legal");
    let mut other = RavenBot::new(7);
    assert_eq!(
        other.choose_action(&GameView::from_game(&staged)),
        Ok(PlayerAction::SubmitTurn)
    );
}

#[test]
fn raven_without_moves_explains_itself() {
    let mut board = Board::empty();
    board.set(sq(8, 8), Some(Piece::King));
    let game = Game::from_board(Ruleset::Classic, board, Side::Attacker);
    let mut bot = RavenBot::new(1);
    assert_eq!(
        bot.choose_action(&GameView::from_game(&game)),
        Err("no legal action is available".to_owned())
    );
}

#[test]
fn refusals_explain_themselves() {
    assert_eq!(MoveError::GameOver.description(), "the game is already over");
    assert_eq!(
        MoveError::PendingPresentBoards.description(),
        "more Present boards must be played before submitting"
    );
    assert_eq!(
        MoveError::DefenderRepetition.description(),
        "the defender may not repeat an ancestral board position"
    );
}

#[test]
fn coordinates_are_labelled() {
    assert_eq!(sq(3, 0).notation(), "D1");
    assert_eq!(sq(10, 10).notation(), "K11");
    assert_eq!(BoardCoordinate::new(-3, -2).label(), "T-3L-2");
    assert_eq!(pos(4, 1, 0, 9).label(), "T4L1:A10");
    assert_eq!(Ruleset::Multiverse.title(), "5D Copenhagen");
    assert_eq!(Side::Defender.name(), "Defenders");
    assert_eq!(OutcomeReason::NoEscape.name(), "NoEscape");
    assert_eq!(Piece::King.glyph(), 'K');
}

#[test]
fn squares_and_sides_follow_the_board_geometry() {
    assert!(Square::new(11, 0).is_none());
    assert!(sq(0, 10).is_corner());
    assert!(sq(5, 5).is_throne());
    assert!(sq(5, 5).is_restricted());
    assert!(!sq(4, 5).is_restricted());
    assert!(sq(0, 4).is_edge());
    assert_eq!(Side::for_time(-1), Side::Defender);
    assert_eq!(Side::for_time(6), Side::Attacker);
    assert_eq!(Side::Attacker.opponent(), Side::Defender);
    assert_eq!(Side::Defender.timeline_direction(), -1);
    assert_eq!(Piece::King.side(), Side::Defender);
}

#[test]
fn kings_on_inactive_timelines_do_not_decide_the_game() {
    let mut origin = Board::empty();
    origin.set(sq(1, 1), Some(Piece::Attacker));
    origin.set(sq(6, 6), Some(Piece::King));
    let mut escaped = Board::empty();
    escaped.set(sq(0, 0), Some(Piece::King));
    let mut game = Game::from_timelines(
        Ruleset::Multiverse,
        vec![
            Timeline { row: 0, owner: None, boards: vec![snapshot(0, 0, origin, None)] },
            Timeline {
                row: 1,
                owner: Some(Side::Attacker),
                boards: vec![snapshot(0, 1, Board::empty(), None)],
            },
            Timeline {
                row: 2,
                owner: Some(Side::Attacker),
                boards: vec![snapshot(0, 2, escaped, None)],
            },
        ],
        Side::Attacker,
    )
    .expect("well formed");
    assert!(!game.is_active_timeline(2));
    game.apply_move(mv(pos(0, 0, 1, 1), pos(0, 0, 1, 2))).expect("quiet move");
    assert_eq!(game.outcome(), None);
}
