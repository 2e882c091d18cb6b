//! The interactive session behind the terminal interface: a new-game menu,
//! a cursor over the focused board, piece selection, and the keys that
//! move, undo and submit.

use vstd::prelude::*;
use crate::game::{applied, origin, copenhagen_cells, submitted, undone, Game, GameModel};
use crate::legal::moves_from;
use crate::model::{
    digits, position_text, push_digits, push_str, BoardCoordinate, Move, Piece, Position, Ruleset,
    Side, Square,
};
use crate::rules::{error_text, MoveError};

verus! {

/// Whether the menu or a game is on screen.
#[derive(Clone, Copy, Debug, PartialEq, Eq, Structural)]
pub enum Phase {
    Menu,
    Playing,
}

/// A key press the session understands.
#[derive(Clone, Copy, Debug, PartialEq, Eq, Structural)]
pub enum Key {
    Char(char),
    Left,
    Right,
    Up,
    Down,
    Enter,
    Esc,
    /// `q` with the control modifier: quit from anywhere.
    ControlQ,
}

/// The interface state: menu or game, focused board, cursor, selection.
pub struct Session {
    pub phase: Phase,
    pub menu_choice: Ruleset,
    pub game: Game,
    pub focus: BoardCoordinate,
    pub cursor: Square,
    pub selected: Option<Position>,
    pub legal_moves: Vec<Move>,
    pub notice: String,
    pub help: bool,
    pub quit: bool,
}

/// The mathematical content of a [`Session`].
pub struct SessionModel {
    pub phase: Phase,
    pub menu_choice: Ruleset,
    pub game: GameModel,
    pub focus: BoardCoordinate,
    pub cursor: Square,
    pub selected: Option<Position>,
    pub legal_moves: Seq<Move>,
    pub notice: Seq<char>,
    pub help: bool,
    pub quit: bool,
}

impl View for Session {
    type V = SessionModel;

    open spec fn view(&self) -> SessionModel {
        SessionModel {
            phase: self.phase,
            menu_choice: self.menu_choice,
            game: self.game@,
            focus: self.focus,
            cursor: self.cursor,
            selected: self.selected,
            legal_moves: self.legal_moves@,
            notice: self.notice@,
            help: self.help,
            quit: self.quit,
        }
    }
}

pub open spec fn origin_coordinate() -> BoardCoordinate {
    BoardCoordinate { time: 0, timeline: 0 }
}

pub open spec fn center() -> Square {
    Square { x: 5, y: 5 }
}

/// A session on a new game of `ruleset` with nothing selected.
pub open spec fn started(m: SessionModel, ruleset: Ruleset) -> SessionModel {
    SessionModel {
        game: origin(ruleset, copenhagen_cells(), Side::Attacker),
        focus: origin_coordinate(),
        cursor: center(),
        selected: None,
        legal_moves: Seq::empty(),
        notice: Seq::empty(),
        help: false,
        phase: Phase::Playing,
        ..m
    }
}

/// `v` held within `[0, 10]`.
pub open spec fn clamp_edge(v: int) -> int {
    if v < 0 {
        0
    } else if v > 10 {
        10
    } else {
        v
    }
}

/// `v` held within `[0, hi]`, or 0 when `hi` is negative.
pub open spec fn clamp_index(v: int, hi: int) -> int {
    if v > hi {
        if hi < 0 {
            0
        } else {
            hi
        }
    } else if v < 0 {
        0
    } else {
        v
    }
}

/// Index of the first board of `boards` at `time`.
pub open spec fn time_position(times: Seq<i32>, time: i32) -> Option<int>
    decreases times.len(),
{
    if times.len() == 0 {
        None
    } else {
        match time_position(times.drop_last(), time) {
            Some(i) => Some(i),
            None => if times.last() == time {
                Some(times.len() - 1)
            } else {
                None
            },
        }
    }
}

/// The first listed move that ends at `here`.
pub open spec fn move_to(moves: Seq<Move>, here: Position) -> Option<Move>
    decreases moves.len(),
{
    if moves.len() == 0 {
        None
    } else {
        match move_to(moves.drop_last(), here) {
            Some(m) => Some(m),
            None => if moves.last().to == here {
                Some(moves.last())
            } else {
                None
            },
        }
    }
}

/// The cursor moved by `(dx, dy)`, stopping at the board's edges.
pub open spec fn cursor_moved(cursor: Square, dx: int, dy: int) -> Square {
    Square { x: clamp_edge(cursor.x + dx) as u8, y: clamp_edge(cursor.y + dy) as u8 }
}

/// The focus moved `direction` boards along its timeline, stopping at its
/// first and last boards.
pub open spec fn time_stepped(m: SessionModel, direction: int) -> BoardCoordinate {
    match m.game.state.timeline_at(m.focus.timeline as int) {
        None => m.focus,
        Some(t) => {
            let times = t.boards.map_values(|b: crate::model::SnapshotView| b.coordinate.time);
            match time_position(times, m.focus.time) {
                None => m.focus,
                Some(i) => BoardCoordinate {
                    time: times[clamp_index(i + direction, times.len() - 1)],
                    ..m.focus
                },
            }
        },
    }
}

/// The focus moved to the latest board of the timeline `direction` rows
/// away in row order, stopping at the first and last timelines.
pub open spec fn timeline_stepped(m: SessionModel, direction: int) -> BoardCoordinate {
    let rows = m.game.state.timelines.map_values(|t: crate::model::TimelineView| t.row);
    match time_position(rows, m.focus.timeline) {
        None => m.focus,
        Some(i) => {
            let row = rows[clamp_index(i + direction, rows.len() - 1)];
            match m.game.state.latest_coordinate(row as int) {
                Some(c) => c,
                None => m.focus,
            }
        },
    }
}

/// Nothing selected, and the focus back on a board that exists: the latest
/// of its timeline, else the latest of L0, else T0L0.
pub open spec fn synced(m: SessionModel) -> SessionModel {
    let s = m.game.state;
    let focus = if s.board_at(m.focus) is None {
        match s.latest_coordinate(m.focus.timeline as int) {
            Some(c) => c,
            None => match s.latest_coordinate(0) {
                Some(c) => c,
                None => origin_coordinate(),
            },
        }
    } else {
        match s.latest_coordinate(m.focus.timeline as int) {
            Some(c) => c,
            None => m.focus,
        }
    };
    SessionModel { selected: None, legal_moves: Seq::empty(), focus, ..m }
}

pub open spec fn moved_notice(mv: Move) -> Seq<char> {
    "Moved "@ + position_text(mv.from) + " to "@ + position_text(mv.to) + "."@
}

pub open spec fn selected_notice(here: Position, count: nat) -> Seq<char> {
    "Selected "@ + position_text(here) + "; "@ + digits(count) + " destinations."@
}

/// Enter on the cursor: play the highlighted move that ends there, or
/// select the piece there with its legal moves.
pub open spec fn activated(m: SessionModel) -> SessionModel {
    let here = Position { board: m.focus, square: m.cursor };
    if m.game.state.outcome is Some {
        SessionModel { notice: "The game is over; press n for a new game."@, ..m }
    } else {
        match move_to(m.legal_moves, here) {
            Some(mv) => match applied(m.game, mv) {
                Ok(g) => synced(SessionModel { game: g, notice: moved_notice(mv), ..m }),
                Err(e) => SessionModel { notice: error_text(e), ..m },
            },
            None => {
                let moves = moves_from(m.game.state, here);
                if moves.len() == 0 {
                    SessionModel {
                        selected: None,
                        legal_moves: Seq::empty(),
                        notice: "That square has no legal move from this board."@,
                        ..m
                    }
                } else {
                    SessionModel {
                        selected: Some(here),
                        legal_moves: moves,
                        notice: selected_notice(here, moves.len()),
                        ..m
                    }
                }
            },
        }
    }
}

/// The session after a key in the new-game menu.
pub open spec fn after_menu_key(m: SessionModel, key: Key) -> SessionModel {
    match key {
        Key::Up | Key::Down | Key::Char('j') | Key::Char('k') => SessionModel {
            menu_choice: if m.menu_choice == Ruleset::Classic {
                Ruleset::Multiverse
            } else {
                Ruleset::Classic
            },
            ..m
        },
        Key::Enter => started(m, m.menu_choice),
        Key::Char('q') | Key::Esc => SessionModel { quit: true, ..m },
        _ => m,
    }
}

/// The session after a key during a game.
pub open spec fn after_game_key(m: SessionModel, key: Key) -> SessionModel {
    match key {
        Key::Char('q') => SessionModel { quit: true, ..m },
        Key::Char('?') => SessionModel { help: true, ..m },
        Key::Char('n') => SessionModel {
            menu_choice: m.game.state.ruleset,
            phase: Phase::Menu,
            selected: None,
            legal_moves: Seq::empty(),
            ..m
        },
        Key::Left | Key::Char('h') => SessionModel { cursor: cursor_moved(m.cursor, -1, 0), ..m },
        Key::Right | Key::Char('l') => SessionModel { cursor: cursor_moved(m.cursor, 1, 0), ..m },
        Key::Up | Key::Char('k') => SessionModel { cursor: cursor_moved(m.cursor, 0, 1), ..m },
        Key::Down | Key::Char('j') => SessionModel { cursor: cursor_moved(m.cursor, 0, -1), ..m },
        Key::Char('[') => SessionModel { focus: time_stepped(m, -1), ..m },
        Key::Char(']') => SessionModel { focus: time_stepped(m, 1), ..m },
        Key::Char('J') => SessionModel { focus: timeline_stepped(m, -1), ..m },
        Key::Char('K') => SessionModel { focus: timeline_stepped(m, 1), ..m },
        Key::Enter | Key::Char(' ') => activated(m),
        Key::Esc => SessionModel {
            selected: None,
            legal_moves: Seq::empty(),
            notice: "Selection cleared."@,
            ..m
        },
        Key::Char('u') => match undone(m.game) {
            Ok(g) => synced(SessionModel { game: g, notice: "Undid staged move."@, ..m }),
            Err(e) => SessionModel { notice: error_text(e), ..m },
        },
        Key::Char('s') => match submitted(m.game) {
            Ok(g) => synced(SessionModel { game: g, notice: "Turn submitted."@, ..m }),
            Err(e) => SessionModel { notice: error_text(e), ..m },
        },
        _ => m,
    }
}

/// The session after a key: control-q quits from anywhere; the menu and
/// the help screen take their own keys.
pub open spec fn after_key(m: SessionModel, key: Key) -> SessionModel {
    if key == Key::ControlQ {
        SessionModel { quit: true, ..m }
    } else if m.phase == Phase::Menu {
        after_menu_key(m, key)
    } else if m.help {
        if key == Key::Esc || key == Key::Char('?') || key == Key::Char('q') {
            SessionModel { help: false, ..m }
        } else {
            m
        }
    } else {
        after_game_key(m, key)
    }
}

fn moved_notice_text(mv: Move) -> (r: String)
    requires
        mv.on_board(),
    ensures
        r@ == moved_notice(mv),
{
    let mut text = String::new();
    push_str(&mut text, "Moved ");
    let a = mv.from.label();
    push_str(&mut text, a.as_str());
    push_str(&mut text, " to ");
    let b = mv.to.label();
    push_str(&mut text, b.as_str());
    push_str(&mut text, ".");
    text
}

fn selected_notice_text(here: Position, count: usize) -> (r: String)
    requires
        here.square.valid(),
    ensures
        r@ == selected_notice(here, count as nat),
{
    let mut text = String::new();
    push_str(&mut text, "Selected ");
    let a = here.label();
    push_str(&mut text, a.as_str());
    push_str(&mut text, "; ");
    push_digits(&mut text, count as u64);
    push_str(&mut text, " destinations.");
    text
}

fn clamp_coordinate(v: i32) -> (r: u8)
    requires
        -20 <= v <= 20,
    ensures
        r == clamp_edge(v as int),
{
    if v < 0 {
        0
    } else if v > 10 {
        10
    } else {
        v as u8
    }
}

/// Index of the first element equal to `x`.
fn position_of(items: &Vec<i32>, x: i32) -> (r: Option<usize>)
    ensures
        match r {
            Some(i) => time_position(items@, x) == Some(i as int) && i < items@.len(),
            None => time_position(items@, x) is None,
        },
{
    let mut i: usize = 0;
    while i < items.len()
        invariant
            i <= items@.len(),
            time_position(items@.subrange(0, i as int), x) is None,
        decreases items@.len() - i,
    {
        if items[i] == x {
            proof {
                lemma_position_prefix(items@, x, i as int);
            }
            return Some(i);
        }
        proof {
            let p = items@.subrange(0, i as int + 1);
            assert(p.drop_last() =~= items@.subrange(0, i as int));
        }
        i = i + 1;
    }
    assert(items@.subrange(0, i as int) =~= items@);
    None
}

/// Finding `x` first at `i` in a prefix finds it there in the whole list.
proof fn lemma_position_prefix(s: Seq<i32>, x: i32, i: int)
    requires
        0 <= i < s.len(),
        s[i] == x,
        time_position(s.subrange(0, i), x) is None,
    ensures
        time_position(s, x) == Some(i),
    decreases s.len(),
{
    if i < s.len() - 1 {
        assert(s.drop_last().subrange(0, i) =~= s.subrange(0, i));
        lemma_position_prefix(s.drop_last(), x, i);
    } else {
        assert(s.drop_last() =~= s.subrange(0, i));
    }
}

/// The first listed move ending at `here`.
fn find_move_to(moves: &Vec<Move>, here: Position) -> (r: Option<Move>)
    ensures
        r == move_to(moves@, here),
{
    let mut i: usize = 0;
    while i < moves.len()
        invariant
            i <= moves@.len(),
            move_to(moves@.subrange(0, i as int), here) is None,
        decreases moves@.len() - i,
    {
        if moves[i].to == here {
            proof {
                lemma_move_prefix(moves@, here, i as int);
            }
            return Some(moves[i]);
        }
        proof {
            let p = moves@.subrange(0, i as int + 1);
            assert(p.drop_last() =~= moves@.subrange(0, i as int));
        }
        i = i + 1;
    }
    assert(moves@.subrange(0, i as int) =~= moves@);
    None
}

proof fn lemma_move_prefix(s: Seq<Move>, here: Position, i: int)
    requires
        0 <= i < s.len(),
        s[i].to == here,
        move_to(s.subrange(0, i), here) is None,
    ensures
        move_to(s, here) == Some(s[i]),
    decreases s.len(),
{
    if i < s.len() - 1 {
        assert(s.drop_last().subrange(0, i) =~= s.subrange(0, i));
        lemma_move_prefix(s.drop_last(), here, i);
    } else {
        assert(s.drop_last() =~= s.subrange(0, i));
    }
}

impl Session {
    /// A session opening on the menu, or straight on a game of `mode`.
    pub fn new(mode: Option<Ruleset>) -> (r: Self)
        ensures
            r@.game == origin(
                match mode {
                    Some(m) => m,
                    None => Ruleset::Classic,
                },
                copenhagen_cells(),
                Side::Attacker,
            ),
            r@.phase == (if mode is Some {
                Phase::Playing
            } else {
                Phase::Menu
            }),
            r@.menu_choice == r@.game.state.ruleset,
            r@.focus == origin_coordinate(),
            r@.cursor == center(),
            r@.selected is None,
            r@.legal_moves.len() == 0,
            r@.notice.len() == 0,
            !r@.help,
            !r@.quit,
    {
        let ruleset = match mode {
            Some(m) => m,
            None => Ruleset::Classic,
        };
        Session {
            phase: if mode.is_some() {
                Phase::Playing
            } else {
                Phase::Menu
            },
            menu_choice: ruleset,
            game: Game::new(ruleset),
            focus: BoardCoordinate::new(0, 0),
            cursor: Square { x: 5, y: 5 },
            selected: None,
            legal_moves: Vec::new(),
            notice: String::new(),
            help: false,
            quit: false,
        }
    }

    /// Starts a new game of `ruleset`.
    fn reset(&mut self, ruleset: Ruleset)
        ensures
            final(self)@ == started(old(self)@, ruleset),
    {
        self.game = Game::new(ruleset);
        self.focus = BoardCoordinate::new(0, 0);
        self.cursor = Square { x: 5, y: 5 };
        self.selected = None;
        self.legal_moves = Vec::new();
        self.notice = String::new();
        self.help = false;
        self.phase = Phase::Playing;
    }

    fn move_cursor(&mut self, dx: i32, dy: i32)
        requires
            -1 <= dx <= 1,
            -1 <= dy <= 1,
            old(self).cursor.valid(),
        ensures
            final(self)@ == (SessionModel { cursor: cursor_moved(old(self).cursor, dx as int, dy as int), ..old(self)@ }),
    {
        let x = clamp_coordinate(self.cursor.x as i32 + dx);
        let y = clamp_coordinate(self.cursor.y as i32 + dy);
        self.cursor = Square { x, y };
    }

    fn change_time(&mut self, direction: i32)
        requires
            direction == 1 || direction == -1,
        ensures
            final(self)@ == (SessionModel { focus: time_stepped(old(self)@, direction as int), ..old(self)@ }),
    {
        let Some(timeline) = self.game.timeline(self.focus.timeline) else {
            return;
        };
        let mut times: Vec<i32> = Vec::new();
        let mut k: usize = 0;
        while k < timeline.boards.len()
            invariant
                k <= timeline.boards@.len(),
                times@ =~= timeline@.boards.subrange(0, k as int).map_values(
                    |b: crate::model::SnapshotView| b.coordinate.time,
                ),
            decreases timeline.boards@.len() - k,
        {
            assert(timeline@.boards[k as int] == timeline.boards@[k as int]@);
            times.push(timeline.boards[k].coordinate.time);
            k = k + 1;
        }
        assert(timeline@.boards.subrange(0, k as int) =~= timeline@.boards);
        let Some(index) = position_of(&times, self.focus.time) else {
            return;
        };
        let n = times.len();
        let next: usize = if direction > 0 {
            if index + 1 < n {
                index + 1
            } else {
                n - 1
            }
        } else if index > 0 {
            index - 1
        } else {
            0
        };
        self.focus.time = times[next];
    }

    fn change_timeline(&mut self, direction: i32)
        requires
            direction == 1 || direction == -1,
        ensures
            final(self)@ == (SessionModel { focus: timeline_stepped(old(self)@, direction as int), ..old(self)@ }),
    {
        let lines = self.game.timelines();
        let mut rows: Vec<i32> = Vec::new();
        let mut k: usize = 0;
        while k < lines.len()
            invariant
                k <= lines@.len(),
                lines@.map_values(|t: crate::model::Timeline| t@) == self@.game.state.timelines,
                rows@ =~= self@.game.state.timelines.subrange(0, k as int).map_values(
                    |t: crate::model::TimelineView| t.row,
                ),
            decreases lines@.len() - k,
        {
            assert(self@.game.state.timelines[k as int] == lines@[k as int]@);
            rows.push(lines[k].row);
            k = k + 1;
        }
        assert(self@.game.state.timelines.subrange(0, k as int) =~= self@.game.state.timelines);
        let Some(index) = position_of(&rows, self.focus.timeline) else {
            return;
        };
        let n = rows.len();
        let next: usize = if direction > 0 {
            if index + 1 < n {
                index + 1
            } else {
                n - 1
            }
        } else if index > 0 {
            index - 1
        } else {
            0
        };
        let row = rows[next];
        if let Some(coordinate) = self.game.latest_coordinate(row) {
            self.focus = coordinate;
        }
    }

    fn clear_selection_and_sync(&mut self)
        ensures
            final(self)@ == synced(old(self)@),
    {
        self.selected = None;
        self.legal_moves = Vec::new();
        if self.game.board(self.focus).is_none() {
            self.focus = match self.game.latest_coordinate(self.focus.timeline) {
                Some(c) => c,
                None => match self.game.latest_coordinate(0) {
                    Some(c) => c,
                    None => BoardCoordinate::new(0, 0),
                },
            };
        } else if let Some(latest) = self.game.latest_coordinate(self.focus.timeline) {
            self.focus = latest;
        }
    }

    fn activate_square(&mut self)
        requires
            old(self)@.game.roomy(),
            old(self).cursor.valid(),
            forall|k: int| 0 <= k < old(self)@.legal_moves.len() ==> (#[trigger] old(self)@.legal_moves[k]).on_board(),
        ensures
            final(self)@ == activated(old(self)@),
            forall|k: int| 0 <= k < final(self)@.legal_moves.len() ==> (#[trigger] final(self)@.legal_moves[k]).on_board(),
    {
        if self.game.outcome().is_some() {
            self.notice = String::from_str("The game is over; press n for a new game.");
            return;
        }
        let here = Position::new(self.focus, self.cursor);
        if let Some(movement) = find_move_to(&self.legal_moves, here) {
            proof {
                lemma_found_move_listed(self@.legal_moves, here);
            }
            match self.game.apply_move(movement) {
                Ok(()) => {
                    self.notice = moved_notice_text(movement);
                    self.clear_selection_and_sync();
                },
                Err(e) => {
                    self.notice = String::from_str(e.description());
                },
            }
            return;
        }
        let moves = self.game.legal_moves_from(here);
        if moves.len() == 0 {
            self.selected = None;
            self.legal_moves = Vec::new();
            self.notice = String::from_str("That square has no legal move from this board.");
        } else {
            let count = moves.len();
            proof {
                crate::legal::lemma_moves_from_sound(self@.game.state, here);
            }
            self.notice = selected_notice_text(here, count);
            self.selected = Some(here);
            self.legal_moves = moves;
        }
    }

    fn handle_menu_key(&mut self, key: Key)
        ensures
            final(self)@ == after_menu_key(old(self)@, key),
    {
        match key {
            Key::Up | Key::Down | Key::Char('j') | Key::Char('k') => {
                self.menu_choice = match self.menu_choice {
                    Ruleset::Classic => Ruleset::Multiverse,
                    Ruleset::Multiverse => Ruleset::Classic,
                };
            },
            Key::Enter => {
                let choice = self.menu_choice;
                self.reset(choice);
            },
            Key::Char('q') | Key::Esc => {
                self.quit = true;
            },
            _ => {},
        }
    }

    /// Reacts to one key press.
    pub fn handle_key(&mut self, key: Key)
        requires
            old(self)@.game.roomy(),
            old(self).cursor.valid(),
            forall|k: int| 0 <= k < old(self)@.legal_moves.len() ==> (#[trigger] old(self)@.legal_moves[k]).on_board(),
        ensures
            final(self)@ == after_key(old(self)@, key),
            final(self).cursor.valid(),
            forall|k: int| 0 <= k < final(self)@.legal_moves.len() ==> (#[trigger] final(self)@.legal_moves[k]).on_board(),
    {
        if key == Key::ControlQ {
            self.quit = true;
            return;
        }
        if self.phase == Phase::Menu {
            self.handle_menu_key(key);
            return;
        }
        if self.help {
            if key == Key::Esc || key == Key::Char('?') || key == Key::Char('q') {
                self.help = false;
            }
            return;
        }
        match key {
            Key::Char('q') => {
                self.quit = true;
            },
            Key::Char('?') => {
                self.help = true;
            },
            Key::Char('n') => {
                self.menu_choice = self.game.ruleset();
                self.phase = Phase::Menu;
                self.selected = None;
                self.legal_moves = Vec::new();
            },
            Key::Left | Key::Char('h') => self.move_cursor(-1, 0),
            Key::Right | Key::Char('l') => self.move_cursor(1, 0),
            Key::Up | Key::Char('k') => self.move_cursor(0, 1),
            Key::Down | Key::Char('j') => self.move_cursor(0, -1),
            Key::Char('[') => self.change_time(-1),
            Key::Char(']') => self.change_time(1),
            Key::Char('J') => self.change_timeline(-1),
            Key::Char('K') => self.change_timeline(1),
            Key::Enter | Key::Char(' ') => self.activate_square(),
            Key::Esc => {
                self.selected = None;
                self.legal_moves = Vec::new();
                self.notice = String::from_str("Selection cleared.");
            },
            Key::Char('u') => match self.game.undo_staged_move() {
                Ok(()) => {
                    self.notice = String::from_str("Undid staged move.");
                    self.clear_selection_and_sync();
                },
                Err(e) => {
                    self.notice = String::from_str(e.description());
                },
            },
            Key::Char('s') => match self.game.submit_turn() {
                Ok(()) => {
                    self.notice = String::from_str("Turn submitted.");
                    self.clear_selection_and_sync();
                },
                Err(e) => {
                    self.notice = String::from_str(e.description());
                },
            },
            _ => {},
        }
    }
}

/// How a square of the focused board is marked on screen.
#[derive(Clone, Copy, Debug, PartialEq, Eq, Structural)]
pub enum SquareMark {
    Plain,
    Destination,
    Selected,
    Cursor,
}

/// The cursor marks its square first, then the selected piece, then any
/// destination of the selected piece's legal moves.
pub open spec fn mark_of(m: SessionModel, square: Square) -> SquareMark {
    let here = Position { board: m.focus, square };
    if m.cursor == square {
        SquareMark::Cursor
    } else if m.selected == Some(here) {
        SquareMark::Selected
    } else if exists|k: int| 0 <= k < m.legal_moves.len() && (#[trigger] m.legal_moves[k]).to == here {
        SquareMark::Destination
    } else {
        SquareMark::Plain
    }
}

/// The letter shown on a square: the piece's letter, `#` on an empty
/// restricted square, a middle dot on any other empty square.
pub open spec fn symbol_of(cell: Option<Piece>, square: Square) -> char {
    match cell {
        Some(Piece::Attacker) => 'A',
        Some(Piece::Defender) => 'D',
        Some(Piece::King) => 'K',
        None => if square.restricted() {
            '#'
        } else {
            '\u{b7}'
        },
    }
}

impl Session {
    /// How `square` of the focused board is marked.
    pub fn square_mark(&self, square: Square) -> (r: SquareMark)
        ensures
            r == mark_of(self@, square),
    {
        let here = Position { board: self.focus, square };
        if self.cursor == square {
            return SquareMark::Cursor;
        }
        if self.selected == Some(here) {
            return SquareMark::Selected;
        }
        let mut k: usize = 0;
        while k < self.legal_moves.len()
            invariant
                k <= self.legal_moves@.len(),
                self.cursor != square,
                self.selected != Some(here),
                here == (Position { board: self.focus, square }),
                forall|j: int| 0 <= j < k ==> (#[trigger] self.legal_moves@[j]).to != here,
            decreases self.legal_moves@.len() - k,
        {
            if self.legal_moves[k].to == here {
                assert(self@.legal_moves[k as int].to == here);
                return SquareMark::Destination;
            }
            k = k + 1;
        }
        SquareMark::Plain
    }

    /// The letter shown on `square` of the focused board, or nothing when
    /// that board does not exist.
    pub fn square_symbol(&self, square: Square) -> (r: Option<char>)
        requires
            square.valid(),
        ensures
            r == (match self@.game.state.board_at(self@.focus) {
                Some(b) => Some(symbol_of(b.cells[square.index()], square)),
                None => None,
            }),
    {
        match self.game.board(self.focus) {
            None => None,
            Some(snapshot) => {
                let cell = snapshot.board.get(square);
                let symbol = match cell {
                    Some(piece) => piece.glyph(),
                    None => if square.is_restricted() {
                        '#'
                    } else {
                        '\u{b7}'
                    },
                };
                Some(symbol)
            },
        }
    }
}

/// A move found by its destination is one of the listed moves.
proof fn lemma_found_move_listed(moves: Seq<Move>, here: Position)
    requires
        move_to(moves, here) is Some,
    ensures
        exists|k: int| 0 <= k < moves.len() && moves[k] == move_to(moves, here).unwrap(),
    decreases moves.len(),
{
    if move_to(moves.drop_last(), here) is Some {
        lemma_found_move_listed(moves.drop_last(), here);
        let k = choose|k: int|
            0 <= k < moves.drop_last().len() && moves.drop_last()[k] == move_to(
                moves.drop_last(),
                here,
            ).unwrap();
        assert(moves[k] == moves.drop_last()[k]);
    } else {
        assert(moves[moves.len() - 1] == moves.last());
    }
}

} // verus!
