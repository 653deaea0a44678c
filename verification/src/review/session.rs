//! The review of flagged transactions, one at a time: a cursor over the flagged rows,
//! approve / mark fraud decisions, and undo / redo.

use vstd::prelude::*;

use super::command::{
    applied, command_index, lemma_undo_restores, only_statuses_changed, recorded_from, statuses,
    undone, CommandView, ReviewCommand,
};
use crate::data::human_review_status::HumanReviewStatus;
use crate::data::transaction::Transaction;

verus! {

/// What the analyst asks for.
#[derive(Debug, Clone, Copy, PartialEq, Eq, Structural)]
pub enum ReviewEvent {
    Previous,
    Next,
    /// The transaction is legitimate: a false positive of the detector.
    Approve,
    /// The transaction is fraud: a true positive.
    MarkFraud,
    Undo,
    Redo,
}

/// Where the analyst stands, and what can be undone or redone.
#[derive(Debug)]
pub struct ReviewSession {
    pub cursor: usize,
    pub undo_stack: Vec<ReviewCommand>,
    pub redo_stack: Vec<ReviewCommand>,
}

pub struct SessionView {
    pub cursor: int,
    pub undo: Seq<CommandView>,
    pub redo: Seq<CommandView>,
}

impl View for ReviewSession {
    type V = SessionView;

    open spec fn view(&self) -> SessionView {
        SessionView {
            cursor: self.cursor as int,
            undo: self.undo_stack@.map_values(|c: ReviewCommand| c@),
            redo: self.redo_stack@.map_values(|c: ReviewCommand| c@),
        }
    }
}

/// The positions of the rows the detector flagged (those with a fraud factor), in order.
pub open spec fn flagged(rows: Seq<Transaction>) -> Seq<usize>
    decreases rows.len(),
{
    if rows.len() == 0 {
        Seq::empty()
    } else {
        let rest = flagged(rows.drop_last());
        if rows.last().fraud_factors@.len() > 0 {
            rest.push((rows.len() - 1) as usize)
        } else {
            rest
        }
    }
}

/// The cursor brought back onto the last of `n` items when it is past it.
pub open spec fn clamped(cursor: int, n: int) -> int {
    if cursor >= n {
        n - 1
    } else {
        cursor
    }
}

/// Where `x` stands in `f`, if it does.
pub open spec fn position_in(f: Seq<usize>, x: usize) -> Option<int> {
    if exists|p: int| 0 <= p < f.len() && f[p] == x {
        Some(choose|p: int| 0 <= p < f.len() && f[p] == x)
    } else {
        None
    }
}

/// The status a decision gives.
pub open spec fn decision_status(e: ReviewEvent) -> HumanReviewStatus {
    if e == ReviewEvent::Approve {
        HumanReviewStatus::FalsePositive
    } else {
        HumanReviewStatus::TruePositive
    }
}

/// The session and the statuses after one event, over the flagged positions `f`.
///
/// With nothing flagged nothing happens. Otherwise the cursor is first brought onto the
/// last flagged row if it is past it; `Previous` and `Next` move it around the flagged rows
/// (wrapping); `Undo` / `Redo` take back / carry out again the last command and move to its
/// row; a decision that changes the current row's status is carried out as a new command
/// (which clears what could be redone) and moves to the next row.
pub open spec fn session_step(
    s: SessionView,
    st: Seq<HumanReviewStatus>,
    f: Seq<usize>,
    e: ReviewEvent,
) -> (SessionView, Seq<HumanReviewStatus>) {
    let n = f.len() as int;
    if n == 0 {
        (s, st)
    } else {
        let c = clamped(s.cursor, n);
        match e {
            ReviewEvent::Previous => (
                SessionView {
                    cursor: if c == 0 {
                        n - 1
                    } else {
                        c - 1
                    },
                    ..s
                },
                st,
            ),
            ReviewEvent::Next => (SessionView { cursor: (c + 1) % n, ..s }, st),
            ReviewEvent::Undo => if s.undo.len() == 0 {
                (SessionView { cursor: c, ..s }, st)
            } else {
                let cmd = s.undo.last();
                (
                    SessionView {
                        cursor: match position_in(f, command_index(cmd)) {
                            Some(p) => p,
                            None => c,
                        },
                        undo: s.undo.drop_last(),
                        redo: s.redo.push(cmd),
                    },
                    undone(cmd, st),
                )
            },
            ReviewEvent::Redo => if s.redo.len() == 0 {
                (SessionView { cursor: c, ..s }, st)
            } else {
                let cmd = s.redo.last();
                (
                    SessionView {
                        cursor: match position_in(f, command_index(cmd)) {
                            Some(p) => p,
                            None => c,
                        },
                        undo: s.undo.push(cmd),
                        redo: s.redo.drop_last(),
                    },
                    applied(cmd, st),
                )
            },
            _ => {
                let row = f[c];
                let before = st[row as int];
                let after = decision_status(e);
                if before == after {
                    (SessionView { cursor: c, ..s }, st)
                } else {
                    let cmd = CommandView::Single { index: row, before, after };
                    (
                        SessionView {
                            cursor: if n > 1 {
                                (c + 1) % n
                            } else {
                                c
                            },
                            undo: s.undo.push(cmd),
                            redo: Seq::empty(),
                        },
                        applied(cmd, st),
                    )
                }
            },
        }
    }
}

/// The positions of the flagged rows.
pub fn flagged_indices(rows: &Vec<Transaction>) -> (r: Vec<usize>)
    ensures
        r@ == flagged(rows@),
{
    let mut r: Vec<usize> = Vec::new();
    let n = rows.len();
    let mut i: usize = 0;
    while i < n
        invariant
            n == rows@.len(),
            i <= n,
            r@ == flagged(rows@.take(i as int)),
        decreases n - i,
    {
        proof {
            assert(rows@.take(i + 1).drop_last() =~= rows@.take(i as int));
        }
        if rows[i].fraud_factors.len() > 0 {
            r.push(i);
        }
        i += 1;
    }
    assert(rows@.take(n as int) =~= rows@);
    r
}

/// Flagged positions are increasing positions of rows.
pub proof fn lemma_flagged_positions(rows: Seq<Transaction>)
    requires
        rows.len() <= usize::MAX,
    ensures
        forall|k: int| 0 <= k < flagged(rows).len() ==> #[trigger] flagged(rows)[k] < rows.len(),
        forall|j: int, k: int| 0 <= j < k < flagged(rows).len() ==> #[trigger] flagged(rows)[j] < #[trigger] flagged(rows)[k],
        flagged(rows).len() <= rows.len(),
    decreases rows.len(),
{
    if rows.len() > 0 {
        let rest = flagged(rows.drop_last());
        lemma_flagged_positions(rows.drop_last());
        if rows.last().fraud_factors@.len() > 0 {
            let x = (rows.len() - 1) as usize;
            let f = rest.push(x);
            assert forall|k: int| 0 <= k < rest.len() implies #[trigger] rest[k] < x by {
                assert(rest[k] < rows.drop_last().len());
            }
            assert forall|j: int, k: int| 0 <= j < k < f.len() implies #[trigger] f[j] < #[trigger] f[k] by {
                assert(f[j] == rest[j]);
                if k < rest.len() {
                    assert(f[k] == rest[k]);
                    assert(rest[j] < rest[k]);
                } else {
                    assert(f[k] == x);
                    assert(rest[j] < x);
                }
            }
        }
    }
}

/// Where `x` stands in the increasing sequence `f`.
fn find_position(f: &Vec<usize>, x: usize) -> (r: Option<usize>)
    requires
        forall|j: int, k: int| 0 <= j < k < f@.len() ==> #[trigger] f@[j] < #[trigger] f@[k],
    ensures
        match r {
            Some(p) => position_in(f@, x) == Some(p as int),
            None => position_in(f@, x) is None,
        },
{
    let mut p: usize = 0;
    while p < f.len()
        invariant
            p <= f@.len(),
            forall|k: int| 0 <= k < p ==> f@[k] != x,
            forall|j: int, k: int| 0 <= j < k < f@.len() ==> #[trigger] f@[j] < #[trigger] f@[k],
        decreases f@.len() - p,
    {
        if f[p] == x {
            proof {
                let q = choose|q: int| 0 <= q < f@.len() && f@[q] == x;
                if q != p {
                    if q < p {
                        assert(f@[q] != x);
                    } else {
                        assert(f@[p as int] < f@[q]);
                    }
                }
            }
            return Some(p);
        }
        p += 1;
    }
    None
}

impl ReviewSession {
    /// A session at the first flagged row, with nothing to undo or redo.
    pub fn new() -> (r: ReviewSession)
        ensures
            r@.cursor == 0,
            r@.undo.len() == 0,
            r@.redo.len() == 0,
    {
        ReviewSession { cursor: 0, undo_stack: Vec::new(), redo_stack: Vec::new() }
    }

    /// The position of the row under review, if any row is flagged.
    pub fn current_row(&self, rows: &Vec<Transaction>) -> (r: Option<usize>)
        ensures
            match r {
                Some(i) => flagged(rows@).len() > 0 && i == flagged(rows@)[clamped(
                    self.cursor as int,
                    flagged(rows@).len() as int,
                )],
                None => flagged(rows@).len() == 0,
            },
    {
        let f = flagged_indices(rows);
        if f.len() == 0 {
            None
        } else {
            let c = if self.cursor >= f.len() {
                f.len() - 1
            } else {
                self.cursor
            };
            Some(f[c])
        }
    }

    /// Handles one event (see [`session_step`]); only review statuses change in the rows.
    pub fn handle(&mut self, rows: &mut Vec<Transaction>, event: ReviewEvent)
        ensures
            only_statuses_changed(old(rows)@, final(rows)@),
            (final(self)@, statuses(final(rows)@)) == session_step(
                old(self)@,
                statuses(old(rows)@),
                flagged(old(rows)@),
                event,
            ),
    {
        let f = flagged_indices(rows);
        let total = rows.len();
        proof {
            lemma_flagged_positions(rows@);
        }
        let n = f.len();
        if n == 0 {
            assert(statuses(rows@) == statuses(old(rows)@));
            return;
        }
        if self.cursor >= n {
            self.cursor = n - 1;
        }
        let c = self.cursor;
        let ghost s0 = self@;
        match event {
            ReviewEvent::Previous => {
                self.cursor = if c == 0 {
                    n - 1
                } else {
                    c - 1
                };
            },
            ReviewEvent::Next => {
                self.cursor = (c + 1) % n;
            },
            ReviewEvent::Undo => {
                match self.undo_stack.pop() {
                    Some(cmd) => {
                        cmd.undo(rows);
                        match find_position(&f, cmd.transaction_index()) {
                            Some(p) => {
                                self.cursor = p;
                            },
                            None => {},
                        }
                        self.redo_stack.push(cmd);
                        proof {
                            assert(self@.undo =~= s0.undo.drop_last());
                            assert(self@.redo =~= s0.redo.push(cmd@));
                        }
                    },
                    None => {},
                }
            },
            ReviewEvent::Redo => {
                match self.redo_stack.pop() {
                    Some(cmd) => {
                        cmd.apply(rows);
                        match find_position(&f, cmd.transaction_index()) {
                            Some(p) => {
                                self.cursor = p;
                            },
                            None => {},
                        }
                        self.undo_stack.push(cmd);
                        proof {
                            assert(self@.redo =~= s0.redo.drop_last());
                            assert(self@.undo =~= s0.undo.push(cmd@));
                        }
                    },
                    None => {},
                }
            },
            _ => {
                let row = f[c];
                let before = rows[row].human_review_status;
                let after = if matches!(event, ReviewEvent::Approve) {
                    HumanReviewStatus::FalsePositive
                } else {
                    HumanReviewStatus::TruePositive
                };
                if before != after {
                    let cmd = ReviewCommand::SetHumanReviewStatus { transaction_index: row, before, after };
                    cmd.apply(rows);
                    self.undo_stack.push(cmd);
                    self.redo_stack = Vec::new();
                    if n > 1 {
                        self.cursor = (c + 1) % n;
                    }
                    proof {
                        assert(self@.undo =~= s0.undo.push(cmd@));
                        assert(self@.redo =~= Seq::<CommandView>::empty());
                    }
                }
            },
        }
    }
}

// ---------------------------------------------------------------------------------------
// laws

/// A decision that changes the current row's status is taken back entirely by the next undo.
pub proof fn lemma_decision_then_undo(
    s: SessionView,
    st: Seq<HumanReviewStatus>,
    f: Seq<usize>,
    e: ReviewEvent,
)
    requires
        f.len() > 0,
        forall|k: int| 0 <= k < f.len() ==> #[trigger] f[k] < st.len(),
        e == ReviewEvent::Approve || e == ReviewEvent::MarkFraud,
        st[f[clamped(s.cursor, f.len() as int)] as int] != decision_status(e),
    ensures
        session_step(session_step(s, st, f, e).0, session_step(s, st, f, e).1, f, ReviewEvent::Undo).1 == st,
{
    let c = clamped(s.cursor, f.len() as int);
    let row = f[c];
    let cmd = CommandView::Single { index: row, before: st[row as int], after: decision_status(e) };
    let after = session_step(s, st, f, e);
    assert(after.0.undo.last() == cmd);
    assert(recorded_from(cmd, st));
    lemma_undo_restores(cmd, st);
}

/// Undoing and then redoing the last command, made on the row it set, gives the statuses back.
pub proof fn lemma_undo_then_redo(s: SessionView, st: Seq<HumanReviewStatus>, f: Seq<usize>)
    requires
        f.len() > 0,
        s.undo.len() > 0,
        s.undo.last() matches CommandView::Single { index, after, .. } && index < st.len() && st[index as int] == after,
    ensures
        session_step(session_step(s, st, f, ReviewEvent::Undo).0, session_step(s, st, f, ReviewEvent::Undo).1, f, ReviewEvent::Redo).1 == st,
{
    let u = session_step(s, st, f, ReviewEvent::Undo);
    assert(u.0.redo.last() == s.undo.last());
    let r = session_step(u.0, u.1, f, ReviewEvent::Redo);
    assert(r.1 =~= st);
}

/// Moving to the next flagged row and back returns to the row under review.
pub proof fn lemma_next_then_previous(s: SessionView, st: Seq<HumanReviewStatus>, f: Seq<usize>)
    requires
        f.len() > 0,
        s.cursor >= 0,
    ensures
        session_step(session_step(s, st, f, ReviewEvent::Next).0, st, f, ReviewEvent::Previous).0.cursor == clamped(
            s.cursor,
            f.len() as int,
        ),
{
    let n = f.len() as int;
    let c = clamped(s.cursor, n);
    if c + 1 < n {
        assert((c + 1) % n == c + 1) by (nonlinear_arith)
            requires
                0 <= c + 1 < n,
        ;
    } else {
        assert((c + 1) % n == 0) by (nonlinear_arith)
            requires
                c + 1 == n,
                n > 0,
        ;
    }
}

} // verus!
