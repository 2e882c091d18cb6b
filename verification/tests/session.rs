use huginn::session::{Key, Phase, Session, SquareMark};
use huginn::{BoardCoordinate, Position, Ruleset, Side, Square};

fn press(session: &mut Session, keys: &[Key]) {
    for key in keys {
        session.handle_key(*key);
    }
}

#[test]
fn menu_chooses_the_ruleset() {
    let mut session = Session::new(None);
    assert_eq!(session.phase, Phase::Menu);
    press(&mut session, &[Key::Down, Key::Enter]);
    assert_eq!(session.phase, Phase::Playing);
    assert_eq!(session.game.ruleset(), Ruleset::Multiverse);
    press(&mut session, &[Key::Char('n'), Key::Char('k'), Key::Enter]);
    assert_eq!(session.game.ruleset(), Ruleset::Classic);
}

#[test]
fn selecting_and_moving_a_piece() {
    let mut session = Session::new(Some(Ruleset::Classic));
    press(
        &mut session,
        &[Key::Left, Key::Char('h'), Key::Down, Key::Down, Key::Down, Key::Down, Key::Char('j')],
    );
    assert_eq!(session.cursor, Square::new(3, 0).unwrap());
    press(&mut session, &[Key::Down, Key::Enter]);
    assert_eq!(session.cursor, Square::new(3, 0).unwrap());
    assert_eq!(
        session.selected,
        Some(Position::new(BoardCoordinate::new(0, 0), Square::new(3, 0).unwrap()))
    );
    assert_eq!(session.legal_moves.len(), 6);
    assert_eq!(session.notice, "Selected T0L0:D1; 6 destinations.");
    press(&mut session, &[Key::Left, Key::Enter]);
    assert_eq!(session.notice, "Moved T0L0:D1 to T0L0:C1.");
    assert_eq!(session.game.turn(), Side::Defender);
    assert_eq!(session.focus, BoardCoordinate::new(1, 0));
    assert!(session.selected.is_none());
    assert!(session.legal_moves.is_empty());
}

#[test]
fn stepping_through_time_and_keys_that_refuse() {
    let mut session = Session::new(Some(Ruleset::Classic));
    press(&mut session, &[Key::Char('u')]);
    assert_eq!(session.notice, "there is no staged move to undo");
    press(&mut session, &[Key::Char('s')]);
    assert_eq!(session.notice, "make at least one move before submitting");
    press(&mut session, &[Key::Enter]);
    assert_eq!(session.notice, "That square has no legal move from this board.");
    press(&mut session, &[Key::Left, Key::Left, Key::Down, Key::Down, Key::Down, Key::Down, Key::Down]);
    press(&mut session, &[Key::Enter, Key::Left, Key::Enter]);
    assert_eq!(session.focus, BoardCoordinate::new(1, 0));
    press(&mut session, &[Key::Char('[')]);
    assert_eq!(session.focus, BoardCoordinate::new(0, 0));
    press(&mut session, &[Key::Char('['), Key::Char(']'), Key::Char(']')]);
    assert_eq!(session.focus, BoardCoordinate::new(1, 0));
    press(&mut session, &[Key::Char('J')]);
    assert_eq!(session.focus, BoardCoordinate::new(1, 0));
    press(&mut session, &[Key::Esc]);
    assert_eq!(session.notice, "Selection cleared.");
}

#[test]
fn help_and_quit() {
    let mut session = Session::new(Some(Ruleset::Multiverse));
    press(&mut session, &[Key::Char('?')]);
    assert!(session.help);
    press(&mut session, &[Key::Char('h')]);
    assert_eq!(session.cursor, Square::new(5, 5).unwrap());
    press(&mut session, &[Key::Esc]);
    assert!(!session.help);
    press(&mut session, &[Key::ControlQ]);
    assert!(session.quit);
}

#[test]
fn staged_moves_can_be_undone_and_submitted() {
    let mut session = Session::new(Some(Ruleset::Multiverse));
    press(&mut session, &[Key::Left, Key::Left, Key::Down, Key::Down, Key::Down, Key::Down, Key::Down]);
    press(&mut session, &[Key::Enter, Key::Left, Key::Enter]);
    assert_eq!(session.focus, BoardCoordinate::new(1, 0));
    press(&mut session, &[Key::Char('u')]);
    assert_eq!(session.notice, "Undid staged move.");
    assert_eq!(session.focus, BoardCoordinate::new(0, 0));
    press(&mut session, &[Key::Right, Key::Enter, Key::Left, Key::Enter, Key::Char('s')]);
    assert_eq!(session.notice, "Turn submitted.");
    assert_eq!(session.game.turn(), Side::Defender);
}

#[test]
fn squares_show_pieces_and_marks() {
    let mut session = Session::new(Some(Ruleset::Classic));
    let at = |x, y| Square::new(x, y).unwrap();
    assert_eq!(session.square_symbol(at(5, 5)), Some('K'));
    assert_eq!(session.square_symbol(at(5, 4)), Some('D'));
    assert_eq!(session.square_symbol(at(3, 0)), Some('A'));
    assert_eq!(session.square_symbol(at(0, 0)), Some('#'));
    assert_eq!(session.square_symbol(at(1, 1)), Some('\u{b7}'));
    assert_eq!(session.square_mark(at(5, 5)), SquareMark::Cursor);
    press(
        &mut session,
        &[Key::Left, Key::Left, Key::Down, Key::Down, Key::Down, Key::Down, Key::Down, Key::Enter],
    );
    assert_eq!(session.cursor, at(3, 0));
    assert_eq!(session.square_mark(at(3, 0)), SquareMark::Cursor);
    assert_eq!(session.square_mark(at(2, 0)), SquareMark::Destination);
    assert_eq!(session.square_mark(at(1, 1)), SquareMark::Plain);
    press(&mut session, &[Key::Right]);
    assert_eq!(session.square_mark(at(3, 0)), SquareMark::Selected);
    assert_eq!(session.square_mark(at(4, 0)), SquareMark::Cursor);
}
