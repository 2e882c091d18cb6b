//! Plain game vocabulary: sides, pieces, squares, coordinates, boards and
//! timelines.

use vstd::prelude::*;

verus! {

pub const BOARD_SIZE: usize = 11;

pub const BOARD_SIZE_U8: u8 = 11;

pub const BOARD_EDGE: u8 = 10;

pub const CENTER: u8 = 5;

/// Number of squares on one board.
pub const BOARD_CELLS: usize = 121;

#[derive(Clone, Copy, Debug, PartialEq, Eq, Hash, Structural)]
pub enum Ruleset {
    Classic,
    Multiverse,
}

impl Default for Ruleset {
    fn default() -> (r: Self)
        ensures
            r == Ruleset::Classic,
    {
        Ruleset::Classic
    }
}

impl Ruleset {
    /// Human-readable name of the ruleset.
    pub fn title(self) -> (r: &'static str)
        ensures
            r@ == (if self == Ruleset::Classic {
                "Classic Copenhagen"@
            } else {
                "5D Copenhagen"@
            }),
    {
        match self {
            Ruleset::Classic => "Classic Copenhagen",
            Ruleset::Multiverse => "5D Copenhagen",
        }
    }
}

#[derive(Clone, Copy, Debug, PartialEq, Eq, Hash, PartialOrd, Ord, Structural)]
pub enum Side {
    Attacker,
    Defender,
}

/// The side to play on a board at time `time`: attackers on even times,
/// defenders on odd times.
pub open spec fn side_for_time(time: int) -> Side {
    if time % 2 == 0 {
        Side::Attacker
    } else {
        Side::Defender
    }
}

impl Side {
    pub open spec fn other(self) -> Side {
        match self {
            Side::Attacker => Side::Defender,
            Side::Defender => Side::Attacker,
        }
    }

    pub open spec fn direction(self) -> int {
        match self {
            Side::Attacker => 1,
            Side::Defender => -1,
        }
    }

    pub fn opponent(self) -> (r: Self)
        ensures
            r == self.other(),
    {
        match self {
            Side::Attacker => Side::Defender,
            Side::Defender => Side::Attacker,
        }
    }

    /// Direction along L in which this side creates new timelines.
    pub fn timeline_direction(self) -> (r: i32)
        ensures
            r == self.direction(),
    {
        match self {
            Side::Attacker => 1,
            Side::Defender => -1,
        }
    }

    pub fn for_time(time: i32) -> (r: Self)
        ensures
            r == side_for_time(time as int),
    {
        let shifted: u64 = (time as i64 + 2147483648i64) as u64;
        assert(shifted as int == time as int + 2147483648);
        if shifted % 2 == 0 {
            Side::Attacker
        } else {
            Side::Defender
        }
    }

    /// Plural name used in status messages.
    pub fn name(self) -> (r: &'static str)
        ensures
            r@ == side_name(self),
    {
        match self {
            Side::Attacker => "Attackers",
            Side::Defender => "Defenders",
        }
    }
}

/// Boards alternate between the sides from one time to the next, so the
/// side to play repeats every two times; each side's opponent's opponent
/// is itself.
pub proof fn lemma_time_parity(time: int)
    ensures
        side_for_time(time + 1) == side_for_time(time).other(),
        side_for_time(time + 2) == side_for_time(time),
        side_for_time(time).other().other() == side_for_time(time),
{
}

pub open spec fn side_name(side: Side) -> Seq<char> {
    match side {
        Side::Attacker => "Attackers"@,
        Side::Defender => "Defenders"@,
    }
}

#[derive(Clone, Copy, Debug, PartialEq, Eq, Hash, Structural)]
pub enum Piece {
    Attacker,
    Defender,
    King,
}

impl Piece {
    pub open spec fn owner(self) -> Side {
        match self {
            Piece::Attacker => Side::Attacker,
            Piece::Defender | Piece::King => Side::Defender,
        }
    }

    pub fn side(self) -> (r: Side)
        ensures
            r == self.owner(),
    {
        match self {
            Piece::Attacker => Side::Attacker,
            Piece::Defender | Piece::King => Side::Defender,
        }
    }

    pub fn glyph(self) -> (r: char)
        ensures
            r == (match self {
                Piece::Attacker => 'A',
                Piece::Defender => 'D',
                Piece::King => 'K',
            }),
    {
        match self {
            Piece::Attacker => 'A',
            Piece::Defender => 'D',
            Piece::King => 'K',
        }
    }
}

#[derive(Clone, Copy, Debug, PartialEq, Eq, Hash, PartialOrd, Ord, Structural)]
pub struct Square {
    pub x: u8,
    pub y: u8,
}

impl Square {
    /// The square lies on the 11x11 board.
    pub open spec fn valid(self) -> bool {
        self.x < 11 && self.y < 11
    }

    pub open spec fn corner(self) -> bool {
        (self.x == 0 || self.x == 10) && (self.y == 0 || self.y == 10)
    }

    pub open spec fn throne(self) -> bool {
        self.x == 5 && self.y == 5
    }

    pub open spec fn restricted(self) -> bool {
        self.corner() || self.throne()
    }

    pub open spec fn edge(self) -> bool {
        self.x == 0 || self.y == 0 || self.x == 10 || self.y == 10
    }

    /// Row-major position of the square in a board's cells.
    pub open spec fn index(self) -> int {
        self.y * 11 + self.x
    }

    pub fn new(x: u8, y: u8) -> (r: Option<Self>)
        ensures
            r == (if x < 11 && y < 11 {
                Some(Square { x, y })
            } else {
                None
            }),
    {
        if x < BOARD_SIZE_U8 && y < BOARD_SIZE_U8 {
            Some(Square { x, y })
        } else {
            None
        }
    }

    pub fn is_corner(self) -> (r: bool)
        ensures
            r == self.corner(),
    {
        (self.x == 0 || self.x == BOARD_EDGE) && (self.y == 0 || self.y == BOARD_EDGE)
    }

    pub fn is_throne(self) -> (r: bool)
        ensures
            r == self.throne(),
    {
        self.x == CENTER && self.y == CENTER
    }

    pub fn is_restricted(self) -> (r: bool)
        ensures
            r == self.restricted(),
    {
        self.is_corner() || self.is_throne()
    }

    pub fn is_edge(self) -> (r: bool)
        ensures
            r == self.edge(),
    {
        self.x == 0 || self.y == 0 || self.x == BOARD_EDGE || self.y == BOARD_EDGE
    }

    /// The square `(dx, dy)` away, when it lies on the board.
    pub open spec fn shifted(self, dx: int, dy: int) -> Option<Square> {
        let x = self.x + dx;
        let y = self.y + dy;
        if 0 <= x < 11 && 0 <= y < 11 {
            Some(Square { x: x as u8, y: y as u8 })
        } else {
            None
        }
    }

    pub fn offset(self, dx: i32, dy: i32) -> (r: Option<Self>)
        requires
            -1000 <= dx <= 1000,
            -1000 <= dy <= 1000,
        ensures
            r == self.shifted(dx as int, dy as int),
    {
        let x: i32 = self.x as i32 + dx;
        let y: i32 = self.y as i32 + dy;
        if 0 <= x && x < 11 && 0 <= y && y < 11 {
            Some(Square { x: x as u8, y: y as u8 })
        } else {
            None
        }
    }

    /// File letter followed by the rank number, such as `D1`.
    pub fn notation(self) -> (r: String)
        requires
            self.x <= 190,
            self.y < 255,
        ensures
            r@ == square_text(self),
    {
        let mut text = String::new();
        push_char(&mut text, (65u8 + self.x) as char);
        push_decimal(&mut text, (self.y as i64) + 1);
        text
    }
}

pub open spec fn square_text(square: Square) -> Seq<char> {
    seq![((65 + square.x) as u8) as char] + decimal_text(square.y + 1)
}

/// The decimal digits of a natural number.
pub open spec fn digits(n: nat) -> Seq<char>
    decreases n,
{
    if n < 10 {
        seq![((48 + n) as u8) as char]
    } else {
        digits(n / 10).push(((48 + n % 10) as u8) as char)
    }
}

/// The decimal text of an integer, with a leading minus sign when negative.
pub open spec fn decimal_text(n: int) -> Seq<char> {
    if n < 0 {
        seq!['-'] + digits((-n) as nat)
    } else {
        digits(n as nat)
    }
}

/// Appends one character to a string.
#[verifier::external_body]
pub(crate) fn push_char(text: &mut String, c: char)
    ensures
        final(text)@ == old(text)@.push(c),
{
    text.push(c);
}

/// Appends a string slice to a string.
pub(crate) fn push_str(text: &mut String, tail: &str)
    ensures
        final(text)@ == old(text)@ + tail@,
{
    text.append(tail);
}

pub(crate) fn push_digits(text: &mut String, n: u64)
    ensures
        final(text)@ == old(text)@ + digits(n as nat),
    decreases n,
{
    if n >= 10 {
        push_digits(text, n / 10);
    }
    let d: u8 = (n % 10) as u8;
    push_char(text, (48u8 + d) as char);
    proof {
        if n >= 10 {
            assert(final(text)@ =~= old(text)@ + digits(n as nat));
        } else {
            assert(final(text)@ =~= old(text)@ + digits(n as nat));
        }
    }
}

/// Appends the decimal text of `n`.
pub(crate) fn push_decimal(text: &mut String, n: i64)
    requires
        n > i64::MIN,
    ensures
        final(text)@ == old(text)@ + decimal_text(n as int),
{
    if n < 0 {
        push_char(text, '-');
        push_digits(text, (-n) as u64);
        assert(final(text)@ =~= old(text)@ + decimal_text(n as int));
    } else {
        push_digits(text, n as u64);
    }
}

#[derive(Clone, Copy, Debug, PartialEq, Eq, Hash, PartialOrd, Ord, Structural)]
pub struct BoardCoordinate {
    pub time: i32,
    pub timeline: i32,
}

impl BoardCoordinate {
    pub fn new(time: i32, timeline: i32) -> (r: Self)
        ensures
            r == (BoardCoordinate { time, timeline }),
    {
        BoardCoordinate { time, timeline }
    }

    /// `T{time}L{timeline}`.
    pub fn label(self) -> (r: String)
        ensures
            r@ == coordinate_text(self),
    {
        let mut text = String::new();
        push_char(&mut text, 'T');
        push_decimal(&mut text, self.time as i64);
        push_char(&mut text, 'L');
        push_decimal(&mut text, self.timeline as i64);
        proof {
            assert(text@ =~= coordinate_text(self));
        }
        text
    }
}

pub open spec fn coordinate_text(c: BoardCoordinate) -> Seq<char> {
    seq!['T'] + decimal_text(c.time as int) + seq!['L'] + decimal_text(c.timeline as int)
}

#[derive(Clone, Copy, Debug, PartialEq, Eq, Hash, PartialOrd, Ord, Structural)]
pub struct Position {
    pub board: BoardCoordinate,
    pub square: Square,
}

impl Position {
    pub fn new(board: BoardCoordinate, square: Square) -> (r: Self)
        ensures
            r == (Position { board, square }),
    {
        Position { board, square }
    }

    /// `T{time}L{timeline}:{square}`.
    pub fn label(self) -> (r: String)
        requires
            self.square.x <= 190,
            self.square.y < 255,
        ensures
            r@ == position_text(self),
    {
        let mut text = self.board.label();
        push_char(&mut text, ':');
        let square = self.square.notation();
        push_str(&mut text, square.as_str());
        proof {
            assert(text@ =~= position_text(self));
        }
        text
    }
}

pub open spec fn position_text(p: Position) -> Seq<char> {
    coordinate_text(p.board) + seq![':'] + square_text(p.square)
}

#[derive(Clone, Copy, Debug, PartialEq, Eq, Hash, PartialOrd, Ord, Structural)]
pub struct Move {
    pub from: Position,
    pub to: Position,
}

impl Move {
    pub fn new(from: Position, to: Position) -> (r: Self)
        ensures
            r == (Move { from, to }),
    {
        Move { from, to }
    }

    /// Both squares of the move lie on the board.
    pub open spec fn on_board(self) -> bool {
        self.from.square.valid() && self.to.square.valid()
    }
}

/// The square with row-major index `i`.
pub open spec fn square_at(i: int) -> Square {
    Square { x: (i % 11) as u8, y: (i / 11) as u8 }
}

/// The piece standing on `(x, y)` in the Copenhagen starting position.
pub open spec fn copenhagen_piece(x: int, y: int) -> Option<Piece> {
    if x == 5 && y == 5 {
        Some(Piece::King)
    } else if ((y == 0 || y == 10) && 3 <= x <= 7) || ((x == 0 || x == 10) && 3 <= y <= 7) || (x
        == 5 && (y == 1 || y == 9)) || (y == 5 && (x == 1 || x == 9)) {
        Some(Piece::Attacker)
    } else if (x == 5 && 3 <= y <= 7) || (y == 5 && 3 <= x <= 7) || ((x == 4 || x == 6) && (y
        == 4 || y == 6)) {
        Some(Piece::Defender)
    } else {
        None
    }
}

#[derive(Clone, Copy, Debug, PartialEq, Eq, Hash)]
pub struct Board {
    cells: [Option<Piece>; 121],
}

impl View for Board {
    type V = Seq<Option<Piece>>;

    closed spec fn view(&self) -> Seq<Option<Piece>> {
        self.cells@
    }
}

pub broadcast proof fn lemma_board_cells(board: Board)
    ensures
        #[trigger] board@.len() == 121,
{
}

impl Default for Board {
    fn default() -> (r: Self)
        ensures
            r@ == Seq::new(121, |i: int| None::<Piece>),
    {
        Board::empty()
    }
}

/// Pieces on the first `n` cells in row-major order.
pub open spec fn pieces_upto(cells: Seq<Option<Piece>>, n: nat) -> Seq<(Square, Piece)>
    decreases n,
{
    if n == 0 {
        Seq::empty()
    } else {
        let earlier = pieces_upto(cells, (n - 1) as nat);
        match cells[n - 1] {
            Some(piece) => earlier.push((square_at(n - 1), piece)),
            None => earlier,
        }
    }
}

/// How many of the first `n` cells hold `piece`.
pub open spec fn count_upto(cells: Seq<Option<Piece>>, piece: Piece, n: nat) -> nat
    decreases n,
{
    if n == 0 {
        0
    } else {
        count_upto(cells, piece, (n - 1) as nat) + if cells[n - 1] == Some(piece) {
            1nat
        } else {
            0nat
        }
    }
}

impl Board {
    /// The piece on a square of the board.
    pub open spec fn at(self, square: Square) -> Option<Piece> {
        self@[square.index()]
    }

    /// All pieces with their squares, rank by rank from `y = 0` and file by
    /// file within a rank.
    pub open spec fn piece_list(self) -> Seq<(Square, Piece)> {
        pieces_upto(self@, 121)
    }

    pub open spec fn piece_count(self, piece: Piece) -> nat {
        count_upto(self@, piece, 121)
    }

    pub fn empty() -> (r: Self)
        ensures
            r@ == Seq::new(121, |i: int| None::<Piece>),
    {
        let r = Board { cells: [None; 121] };
        assert(r@ =~= Seq::new(121, |i: int| None::<Piece>));
        r
    }

    /// The Copenhagen starting position.
    pub fn copenhagen() -> (r: Self)
        ensures
            forall|i: int|
                0 <= i < 121 ==> #[trigger] r@[i] == copenhagen_piece(i % 11, i / 11),
    {
        let mut board = Board::empty();
        let mut i: usize = 0;
        while i < 121
            invariant
                i <= 121,
                board@.len() == 121,
                forall|j: int| 0 <= j < i ==> #[trigger] board@[j] == copenhagen_piece(j % 11, j / 11),
            decreases 121 - i,
        {
            let x: u8 = (i % 11) as u8;
            let y: u8 = (i / 11) as u8;
            let piece = if x == 5 && y == 5 {
                Some(Piece::King)
            } else if ((y == 0 || y == 10) && 3 <= x && x <= 7) || ((x == 0 || x == 10) && 3 <= y
                && y <= 7) || (x == 5 && (y == 1 || y == 9)) || (y == 5 && (x == 1 || x == 9)) {
                Some(Piece::Attacker)
            } else if (x == 5 && 3 <= y && y <= 7) || (y == 5 && 3 <= x && x <= 7) || ((x == 4 || x
                == 6) && (y == 4 || y == 6)) {
                Some(Piece::Defender)
            } else {
                None
            };
            board.cells[i] = piece;
            i = i + 1;
        }
        board
    }

    pub fn get(&self, square: Square) -> (r: Option<Piece>)
        requires
            square.valid(),
        ensures
            r == self.at(square),
    {
        let index: usize = square.y as usize * 11 + square.x as usize;
        self.cells[index]
    }

    pub fn set(&mut self, square: Square, piece: Option<Piece>)
        requires
            square.valid(),
        ensures
            final(self)@ == old(self)@.update(square.index(), piece),
    {
        let index: usize = square.y as usize * 11 + square.x as usize;
        self.cells[index] = piece;
    }

    /// All pieces with their squares in row-major order.
    pub fn pieces(&self) -> (r: Vec<(Square, Piece)>)
        ensures
            r@ == self.piece_list(),
    {
        let mut result: Vec<(Square, Piece)> = Vec::new();
        let mut i: usize = 0;
        while i < 121
            invariant
                i <= 121,
                self@.len() == 121,
                result@ == pieces_upto(self@, i as nat),
            decreases 121 - i,
        {
            if let Some(piece) = self.cells[i] {
                let square = Square { x: (i % 11) as u8, y: (i / 11) as u8 };
                result.push((square, piece));
            }
            i = i + 1;
        }
        result
    }

    pub fn count(&self, piece: Piece) -> (r: usize)
        ensures
            r == self.piece_count(piece),
    {
        let mut total: usize = 0;
        let mut i: usize = 0;
        while i < 121
            invariant
                i <= 121,
                self@.len() == 121,
                total == count_upto(self@, piece, i as nat),
                total <= i,
            decreases 121 - i,
        {
            if self.cells[i] == Some(piece) {
                total = total + 1;
            }
            i = i + 1;
        }
        total
    }

    /// Both boards hold the same piece on every square.
    pub fn same_placement(&self, other: &Board) -> (r: bool)
        ensures
            r == (self@ == other@),
    {
        let mut i: usize = 0;
        while i < 121
            invariant
                i <= 121,
                self@.len() == 121,
                other@.len() == 121,
                forall|j: int| 0 <= j < i ==> self@[j] == other@[j],
            decreases 121 - i,
        {
            if self.cells[i] != other.cells[i] {
                return false;
            }
            i = i + 1;
        }
        assert(self@ =~= other@);
        true
    }
}

#[derive(Clone, Copy, Debug, PartialEq, Eq)]
pub struct BoardSnapshot {
    pub coordinate: BoardCoordinate,
    pub board: Board,
    pub parent: Option<BoardCoordinate>,
    pub created_by: Option<Side>,
}

/// The mathematical content of a [`BoardSnapshot`].
pub struct SnapshotView {
    pub coordinate: BoardCoordinate,
    pub cells: Seq<Option<Piece>>,
    pub parent: Option<BoardCoordinate>,
    pub created_by: Option<Side>,
}

impl View for BoardSnapshot {
    type V = SnapshotView;

    open spec fn view(&self) -> SnapshotView {
        SnapshotView {
            coordinate: self.coordinate,
            cells: self.board@,
            parent: self.parent,
            created_by: self.created_by,
        }
    }
}

impl BoardSnapshot {
    pub fn side_to_move(&self) -> (r: Side)
        ensures
            r == side_for_time(self.coordinate.time as int),
    {
        Side::for_time(self.coordinate.time)
    }
}

/// A timeline and its boards, ordered by increasing time.
#[derive(Clone, Debug, PartialEq, Eq)]
pub struct Timeline {
    pub row: i32,
    pub owner: Option<Side>,
    pub boards: Vec<BoardSnapshot>,
}

/// The mathematical content of a [`Timeline`].
pub struct TimelineView {
    pub row: i32,
    pub owner: Option<Side>,
    pub boards: Seq<SnapshotView>,
}

impl View for Timeline {
    type V = TimelineView;

    open spec fn view(&self) -> TimelineView {
        TimelineView {
            row: self.row,
            owner: self.owner,
            boards: self.boards@.map_values(|b: BoardSnapshot| b@),
        }
    }
}

impl TimelineView {
    pub open spec fn last_board(self) -> Option<SnapshotView> {
        if self.boards.len() == 0 {
            None
        } else {
            Some(self.boards.last())
        }
    }
}

/// The board of greatest time among `boards`; where times tie, the later
/// one.
pub open spec fn latest_of(boards: Seq<SnapshotView>) -> Option<SnapshotView>
    decreases boards.len(),
{
    if boards.len() == 0 {
        None
    } else {
        match latest_of(boards.drop_last()) {
            None => Some(boards.last()),
            Some(b) => if boards.last().coordinate.time >= b.coordinate.time {
                Some(boards.last())
            } else {
                Some(b)
            },
        }
    }
}

/// Among boards in increasing time, the latest is the last.
pub proof fn lemma_latest_of_sorted(boards: Seq<SnapshotView>)
    requires
        forall|k: int, m: int|
            #![trigger boards[k], boards[m]]
            0 <= k < m < boards.len() ==> boards[k].coordinate.time < boards[m].coordinate.time,
    ensures
        latest_of(boards) == (if boards.len() == 0 {
            None
        } else {
            Some(boards.last())
        }),
    decreases boards.len(),
{
    if boards.len() == 1 {
        assert(latest_of(boards.drop_last()) is None);
    } else if boards.len() > 1 {
        let rest = boards.drop_last();
        assert forall|k: int, m: int|
            #![trigger rest[k], rest[m]]
            0 <= k < m < rest.len() implies rest[k].coordinate.time < rest[m].coordinate.time by {
            assert(rest[k] == boards[k] && rest[m] == boards[m]);
        }
        lemma_latest_of_sorted(rest);
        assert(rest.last() == boards[boards.len() - 2]);
        assert(boards[boards.len() - 2].coordinate.time < boards[boards.len() - 1].coordinate.time);
    }
}

impl Timeline {
    /// The board with no successor on this timeline: the board of greatest
    /// time.
    pub fn latest(&self) -> (r: Option<&BoardSnapshot>)
        ensures
            match r {
                Some(b) => latest_of(self@.boards) == Some(b@),
                None => latest_of(self@.boards) is None,
            },
            self@.wf() ==> match r {
                Some(b) => self@.last_board() == Some(b@),
                None => self@.last_board() is None,
            },
    {
        let ghost boards = self@.boards;
        let mut best: Option<usize> = None;
        let mut k: usize = 0;
        while k < self.boards.len()
            invariant
                k <= self.boards@.len(),
                boards == self@.boards,
                match best {
                    Some(i) => i < k && latest_of(boards.subrange(0, k as int)) == Some(boards[i as int]),
                    None => k == 0,
                },
            decreases self.boards@.len() - k,
        {
            proof {
                let next = boards.subrange(0, k + 1);
                assert(next.drop_last() =~= boards.subrange(0, k as int));
                assert(next.last() == boards[k as int]);
            }
            best = match best {
                None => Some(k),
                Some(i) => if self.boards[k].coordinate.time >= self.boards[i].coordinate.time {
                    Some(k)
                } else {
                    Some(i)
                },
            };
            k = k + 1;
        }
        proof {
            assert(boards.subrange(0, k as int) =~= boards);
            if self@.wf() {
                lemma_latest_of_sorted(boards);
            }
        }
        match best {
            None => None,
            Some(i) => Some(&self.boards[i]),
        }
    }

    /// A copy of the timeline with the same row, owner and boards.
    pub fn duplicate(&self) -> (r: Timeline)
        ensures
            r.row == self.row,
            r.owner == self.owner,
            r.boards@ == self.boards@,
            r@ == self@,
    {
        let mut boards: Vec<BoardSnapshot> = Vec::new();
        let mut i: usize = 0;
        while i < self.boards.len()
            invariant
                i <= self.boards@.len(),
                boards@ == self.boards@.subrange(0, i as int),
            decreases self.boards@.len() - i,
        {
            boards.push(self.boards[i]);
            i = i + 1;
            assert(boards@ =~= self.boards@.subrange(0, i as int));
        }
        assert(boards@ =~= self.boards@);
        Timeline { row: self.row, owner: self.owner, boards }
    }
}

#[derive(Clone, Copy, Debug, PartialEq, Eq, Structural)]
pub enum OutcomeReason {
    KingEscaped,
    ExitFort,
    KingCaptured,
    Encirclement,
    NoEscape,
    NoLegalTurn,
}

impl OutcomeReason {
    /// The variant's name, as used in status messages.
    pub fn name(self) -> (r: &'static str)
        ensures
            r@ == reason_name(self),
    {
        match self {
            OutcomeReason::KingEscaped => "KingEscaped",
            OutcomeReason::ExitFort => "ExitFort",
            OutcomeReason::KingCaptured => "KingCaptured",
            OutcomeReason::Encirclement => "Encirclement",
            OutcomeReason::NoEscape => "NoEscape",
            OutcomeReason::NoLegalTurn => "NoLegalTurn",
        }
    }
}

pub open spec fn reason_name(reason: OutcomeReason) -> Seq<char> {
    match reason {
        OutcomeReason::KingEscaped => "KingEscaped"@,
        OutcomeReason::ExitFort => "ExitFort"@,
        OutcomeReason::KingCaptured => "KingCaptured"@,
        OutcomeReason::Encirclement => "Encirclement"@,
        OutcomeReason::NoEscape => "NoEscape"@,
        OutcomeReason::NoLegalTurn => "NoLegalTurn"@,
    }
}

#[derive(Clone, Copy, Debug, PartialEq, Eq, Structural)]
pub struct GameOutcome {
    pub winner: Side,
    pub reason: OutcomeReason,
}

} // verus!
