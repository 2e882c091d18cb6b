//! Causal ancestry of boards and the defender's repetition rule.

use vstd::prelude::*;
use crate::model::{Board, BoardCoordinate, Piece};
use crate::rules::{lemma_row_unique, lemma_time_unique, StateView};
use crate::state::State;

verus! {

broadcast use crate::model::lemma_board_cells;

/// A measure that falls along a chain of parents, each earlier in time.
pub open spec fn parent_measure(parent: Option<BoardCoordinate>) -> nat {
    match parent {
        Some(c) => (c.time + 2147483649) as nat,
        None => 0,
    }
}

/// Some board on the chain of parents starting at `parent` holds exactly
/// `cells`. The walk stops at a missing board.
pub open spec fn chain_repeats(
    s: StateView,
    cells: Seq<Option<Piece>>,
    parent: Option<BoardCoordinate>,
) -> bool
    decreases parent_measure(parent),
{
    match parent {
        None => false,
        Some(p) => match s.board_at(p) {
            None => false,
            Some(a) => if a.cells == cells {
                true
            } else if parent_measure(a.parent) < parent_measure(parent) {
                chain_repeats(s, cells, a.parent)
            } else {
                false
            },
        },
    }
}

/// The board at `c` repeats the placement of one of its causal ancestors.
pub open spec fn repeats_at(s: StateView, c: BoardCoordinate) -> bool {
    match s.board_at(c) {
        None => false,
        Some(b) => chain_repeats(s, b.cells, b.parent),
    }
}

/// One of the boards in `created` repeats one of its causal ancestors.
pub open spec fn repeats(s: StateView, created: Seq<BoardCoordinate>) -> bool {
    exists|k: int| 0 <= k < created.len() && #[trigger] repeats_at(s, created[k])
}

/// In a well-formed position the board found at a coordinate sits at that
/// coordinate, and its parent lies earlier in time.
pub proof fn lemma_board_at_parent(s: StateView, c: BoardCoordinate)
    requires
        s.wf(),
        s.board_at(c) is Some,
    ensures
        s.board_at(c).unwrap().coordinate == c,
        parent_measure(s.board_at(c).unwrap().parent) < parent_measure(Some(c)),
{
    let i = s.row_index(c.timeline as int);
    lemma_row_unique(s, i);
    let t = s.timelines[i];
    assert(t.wf());
    let k = t.time_index(c.time as int);
    lemma_time_unique(t, k);
    assert(t.boards[k].coordinate.timeline == t.row);
}

/// The board `n` parent links back from `c`, following each board's
/// recorded parent; nothing once a link is missing.
pub open spec fn ancestor(s: StateView, c: BoardCoordinate, n: nat) -> Option<BoardCoordinate>
    decreases n,
{
    if n == 0 {
        Some(c)
    } else {
        match s.board_at(c) {
            None => None,
            Some(b) => match b.parent {
                None => None,
                Some(p) => ancestor(s, p, (n - 1) as nat),
            },
        }
    }
}

/// The chain of parents from `p` repeats `cells` as soon as any board on
/// it, however far back, holds exactly those cells.
proof fn lemma_chain_finds_ancestor(
    s: StateView,
    cells: Seq<Option<Piece>>,
    p: BoardCoordinate,
    m: nat,
    a: BoardCoordinate,
)
    requires
        s.wf(),
        ancestor(s, p, m) == Some(a),
        s.board_at(a) is Some,
        s.board_at(a).unwrap().cells == cells,
    ensures
        chain_repeats(s, cells, Some(p)),
    decreases m,
{
    if m == 0 {
        assert(p == a);
    } else {
        let b = s.board_at(p).unwrap();
        if b.cells != cells {
            let q = b.parent.unwrap();
            lemma_board_at_parent(s, p);
            lemma_chain_finds_ancestor(s, cells, q, (m - 1) as nat, a);
        }
    }
}

/// A board repeats a causal ancestor whenever any board reached through one
/// or more parent links, at whatever time and whoever was to move there,
/// holds the same placement.
pub proof fn lemma_repeat_of_any_ancestor(s: StateView, c: BoardCoordinate, n: nat, a: BoardCoordinate)
    requires
        s.wf(),
        n >= 1,
        s.board_at(c) is Some,
        ancestor(s, c, n) == Some(a),
        s.board_at(a) is Some,
        s.board_at(a).unwrap().cells == s.board_at(c).unwrap().cells,
    ensures
        repeats_at(s, c),
{
    let b = s.board_at(c).unwrap();
    lemma_chain_finds_ancestor(s, b.cells, b.parent.unwrap(), (n - 1) as nat, a);
}

/// A board repeats a causal ancestor only if some board one or more parent
/// links back holds the same placement.
pub proof fn lemma_repeat_has_ancestor(s: StateView, c: BoardCoordinate)
    requires
        s.wf(),
        repeats_at(s, c),
    ensures
        exists|n: nat, a: BoardCoordinate|
            #![trigger ancestor(s, c, n), s.board_at(a)]
            n >= 1 && ancestor(s, c, n) == Some(a) && s.board_at(a) is Some
                && s.board_at(a).unwrap().cells == s.board_at(c).unwrap().cells,
{
    let b = s.board_at(c).unwrap();
    let (m, a) = lemma_chain_witness(s, b.cells, b.parent);
    assert(ancestor(s, c, m + 1) == ancestor(s, b.parent.unwrap(), m));
}

proof fn lemma_chain_witness(s: StateView, cells: Seq<Option<Piece>>, parent: Option<BoardCoordinate>) -> (r: (
    nat,
    BoardCoordinate,
))
    requires
        chain_repeats(s, cells, parent),
    ensures
        parent is Some,
        ancestor(s, parent.unwrap(), r.0) == Some(r.1),
        s.board_at(r.1) is Some,
        s.board_at(r.1).unwrap().cells == cells,
    decreases parent_measure(parent),
{
    let p = parent.unwrap();
    let b = s.board_at(p).unwrap();
    if b.cells == cells {
        (0, p)
    } else {
        let (m, a) = lemma_chain_witness(s, cells, b.parent);
        assert(ancestor(s, p, m + 1) == ancestor(s, b.parent.unwrap(), m));
        (m + 1, a)
    }
}

impl State {
    /// Whether a board on the chain of parents from `start` holds exactly the
    /// placement of `board`.
    fn chain_repeats_exec(&self, board: &Board, start: Option<BoardCoordinate>) -> (r: bool)
        requires
            self@.wf(),
        ensures
            r == chain_repeats(self@, board@, start),
    {
        let mut parent = start;
        while parent.is_some()
            invariant
                self@.wf(),
                chain_repeats(self@, board@, start) == chain_repeats(self@, board@, parent),
            decreases parent_measure(parent),
        {
            let pc = parent.unwrap();
            match self.board(pc) {
                None => {
                    return false;
                },
                Some(ancestor) => {
                    if ancestor.board.same_placement(board) {
                        return true;
                    }
                    proof {
                        lemma_board_at_parent(self@, pc);
                    }
                    parent = ancestor.parent;
                },
            }
        }
        false
    }

    /// Whether one of the boards in `created` repeats the placement of one
    /// of its causal ancestors.
    pub(crate) fn repeats_ancestor(&self, created: &Vec<BoardCoordinate>) -> (r: bool)
        requires
            self@.wf(),
        ensures
            r == repeats(self@, created@),
    {
        let mut k: usize = 0;
        while k < created.len()
            invariant
                self@.wf(),
                k <= created@.len(),
                forall|j: int| 0 <= j < k ==> !#[trigger] repeats_at(self@, created@[j]),
            decreases created@.len() - k,
        {
            let c = created[k];
            if let Some(snapshot) = self.board(c) {
                if self.chain_repeats_exec(&snapshot.board, snapshot.parent) {
                    assert(repeats_at(self@, created@[k as int]));
                    return true;
                }
            }
            k = k + 1;
        }
        false
    }
}

} // verus!
