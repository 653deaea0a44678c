//! Review decisions as commands that can be undone and redone.

use vstd::prelude::*;

use crate::data::human_review_status::HumanReviewStatus;
use crate::data::transaction::{same_payment, Transaction};

verus! {

/// A change of review statuses: one transaction's, or several at once. Each change records
/// the status before and after it.
#[derive(Debug)]
pub enum ReviewCommand {
    SetHumanReviewStatus {
        transaction_index: usize,
        before: HumanReviewStatus,
        after: HumanReviewStatus,
    },
    BatchSetHumanReviewStatus { updates: Vec<(usize, HumanReviewStatus, HumanReviewStatus)> },
}

/// The content of a [`ReviewCommand`].
pub enum CommandView {
    Single { index: usize, before: HumanReviewStatus, after: HumanReviewStatus },
    Batch { updates: Seq<(usize, HumanReviewStatus, HumanReviewStatus)> },
}

impl View for ReviewCommand {
    type V = CommandView;

    open spec fn view(&self) -> CommandView {
        match self {
            ReviewCommand::SetHumanReviewStatus { transaction_index, before, after } => CommandView::Single {
                index: *transaction_index,
                before: *before,
                after: *after,
            },
            ReviewCommand::BatchSetHumanReviewStatus { updates } => CommandView::Batch { updates: updates@ },
        }
    }
}

/// The review statuses of the rows.
pub open spec fn statuses(rows: Seq<Transaction>) -> Seq<HumanReviewStatus> {
    rows.map_values(|t: Transaction| t.human_review_status)
}

/// Sets `st[i]` to `s` when `i` is a position of `st`.
pub open spec fn set_status(st: Seq<HumanReviewStatus>, i: int, s: HumanReviewStatus) -> Seq<HumanReviewStatus> {
    if 0 <= i < st.len() {
        st.update(i, s)
    } else {
        st
    }
}

/// The updates applied in order, each setting its position to its `after` status (or its
/// `before` status, when `backwards`).
pub open spec fn run_updates(
    st: Seq<HumanReviewStatus>,
    updates: Seq<(usize, HumanReviewStatus, HumanReviewStatus)>,
    backwards: bool,
) -> Seq<HumanReviewStatus>
    decreases updates.len(),
{
    if updates.len() == 0 {
        st
    } else {
        let u = updates.last();
        set_status(
            run_updates(st, updates.drop_last(), backwards),
            u.0 as int,
            if backwards {
                u.1
            } else {
                u.2
            },
        )
    }
}

/// The statuses after the command.
pub open spec fn applied(c: CommandView, st: Seq<HumanReviewStatus>) -> Seq<HumanReviewStatus> {
    match c {
        CommandView::Single { index, after, .. } => set_status(st, index as int, after),
        CommandView::Batch { updates } => run_updates(st, updates, false),
    }
}

/// The statuses after the command is undone.
pub open spec fn undone(c: CommandView, st: Seq<HumanReviewStatus>) -> Seq<HumanReviewStatus> {
    match c {
        CommandView::Single { index, before, .. } => set_status(st, index as int, before),
        CommandView::Batch { updates } => run_updates(st, updates, true),
    }
}

/// The transaction the command is about: the first one it changes (zero when it changes none).
pub open spec fn command_index(c: CommandView) -> usize {
    match c {
        CommandView::Single { index, .. } => index,
        CommandView::Batch { updates } => if updates.len() > 0 {
            updates[0].0
        } else {
            0
        },
    }
}

/// The rows differ at most in their review statuses.
pub open spec fn only_statuses_changed(old_rows: Seq<Transaction>, new_rows: Seq<Transaction>) -> bool {
    &&& new_rows.len() == old_rows.len()
    &&& forall|i: int|
        0 <= i < old_rows.len() ==> #[trigger] same_payment(new_rows[i], old_rows[i])
            && new_rows[i].fraud_factors == old_rows[i].fraud_factors
}

/// Sets the review status of row `i`, when there is such a row.
fn set_row_status(rows: &mut Vec<Transaction>, i: usize, s: HumanReviewStatus)
    ensures
        only_statuses_changed(old(rows)@, final(rows)@),
        statuses(final(rows)@) == set_status(statuses(old(rows)@), i as int, s),
{
    if i < rows.len() {
        rows[i].human_review_status = s;
    }
    assert(statuses(rows@) =~= set_status(statuses(old(rows)@), i as int, s));
    assert forall|k: int| 0 <= k < old(rows)@.len() implies #[trigger] same_payment(rows@[k], old(rows)@[k])
        && rows@[k].fraud_factors == old(rows)@[k].fraud_factors by {}
}

/// Runs the updates in order.
fn run_updates_on(rows: &mut Vec<Transaction>, updates: &Vec<(usize, HumanReviewStatus, HumanReviewStatus)>, backwards: bool)
    ensures
        only_statuses_changed(old(rows)@, final(rows)@),
        statuses(final(rows)@) == run_updates(statuses(old(rows)@), updates@, backwards),
{
    let mut k: usize = 0;
    assert(updates@.take(0) =~= Seq::<(usize, HumanReviewStatus, HumanReviewStatus)>::empty());
    while k < updates.len()
        invariant
            k <= updates@.len(),
            only_statuses_changed(old(rows)@, rows@),
            statuses(rows@) == run_updates(statuses(old(rows)@), updates@.take(k as int), backwards),
        decreases updates@.len() - k,
    {
        let (i, before, after) = updates[k];
        let ghost mid = rows@;
        set_row_status(rows, i, if backwards {
            before
        } else {
            after
        });
        proof {
            assert(updates@.take(k + 1).drop_last() =~= updates@.take(k as int));
            assert forall|j: int| 0 <= j < old(rows)@.len() implies #[trigger] same_payment(rows@[j], old(rows)@[j])
                && rows@[j].fraud_factors == old(rows)@[j].fraud_factors by {
                assert(same_payment(rows@[j], mid[j]));
                assert(same_payment(mid[j], old(rows)@[j]));
            }
        }
        k += 1;
    }
    assert(updates@.take(updates@.len() as int) =~= updates@);
}

impl ReviewCommand {
    /// Carries the command out on the rows (positions past the end are left alone).
    pub fn apply(&self, rows: &mut Vec<Transaction>)
        ensures
            only_statuses_changed(old(rows)@, final(rows)@),
            statuses(final(rows)@) == applied(self@, statuses(old(rows)@)),
    {
        match self {
            ReviewCommand::SetHumanReviewStatus { transaction_index, after, .. } => {
                set_row_status(rows, *transaction_index, *after);
            },
            ReviewCommand::BatchSetHumanReviewStatus { updates } => {
                run_updates_on(rows, updates, false);
            },
        }
    }

    /// Takes the command back: every position it changes gets its `before` status again.
    pub fn undo(&self, rows: &mut Vec<Transaction>)
        ensures
            only_statuses_changed(old(rows)@, final(rows)@),
            statuses(final(rows)@) == undone(self@, statuses(old(rows)@)),
    {
        match self {
            ReviewCommand::SetHumanReviewStatus { transaction_index, before, .. } => {
                set_row_status(rows, *transaction_index, *before);
            },
            ReviewCommand::BatchSetHumanReviewStatus { updates } => {
                run_updates_on(rows, updates, true);
            },
        }
    }

    /// The transaction the command is about.
    pub fn transaction_index(&self) -> (r: usize)
        ensures
            r == command_index(self@),
    {
        match self {
            ReviewCommand::SetHumanReviewStatus { transaction_index, .. } => *transaction_index,
            ReviewCommand::BatchSetHumanReviewStatus { updates } => {
                if updates.len() > 0 {
                    updates[0].0
                } else {
                    0
                }
            },
        }
    }
}

// ---------------------------------------------------------------------------------------
// laws

/// Every update of the command records the status its position has in `st`, and no
/// position is updated twice.
pub open spec fn recorded_from(c: CommandView, st: Seq<HumanReviewStatus>) -> bool {
    match c {
        CommandView::Single { index, before, .. } => index < st.len() ==> st[index as int] == before,
        CommandView::Batch { updates } => {
            &&& forall|k: int| 0 <= k < updates.len() && updates[k].0 < st.len() ==> st[updates[k].0 as int] == #[trigger] updates[k].1
            &&& forall|j: int, k: int| 0 <= j < k < updates.len() ==> #[trigger] updates[j].0 != #[trigger] updates[k].0
        },
    }
}

proof fn lemma_run_updates_len(st: Seq<HumanReviewStatus>, updates: Seq<(usize, HumanReviewStatus, HumanReviewStatus)>, backwards: bool)
    ensures
        run_updates(st, updates, backwards).len() == st.len(),
    decreases updates.len(),
{
    if updates.len() > 0 {
        lemma_run_updates_len(st, updates.drop_last(), backwards);
    }
}

/// Position `i` after the updates: the status of the last update of `i`, or its own.
proof fn lemma_run_updates_at(
    st: Seq<HumanReviewStatus>,
    updates: Seq<(usize, HumanReviewStatus, HumanReviewStatus)>,
    backwards: bool,
    i: int,
)
    requires
        0 <= i < st.len(),
    ensures
        (forall|k: int| 0 <= k < updates.len() ==> #[trigger] updates[k].0 != i) ==> run_updates(st, updates, backwards)[i] == st[i],
        forall|k: int|
            0 <= k < updates.len() && updates[k].0 == i && (forall|j: int| k < j < updates.len() ==> #[trigger] updates[j].0 != i)
                ==> run_updates(st, updates, backwards)[i] == if backwards {
                updates[k].1
            } else {
                updates[k].2
            },
    decreases updates.len(),
{
    lemma_run_updates_len(st, updates, backwards);
    if updates.len() > 0 {
        let rest = updates.drop_last();
        lemma_run_updates_at(st, rest, backwards, i);
        lemma_run_updates_len(st, rest, backwards);
        assert forall|k: int|
            0 <= k < updates.len() && updates[k].0 == i && (forall|j: int| k < j < updates.len() ==> #[trigger] updates[j].0 != i)
                implies run_updates(st, updates, backwards)[i] == if backwards {
                updates[k].1
            } else {
                updates[k].2
            } by {
            if k < updates.len() - 1 {
                assert(updates[updates.len() - 1].0 != i);
                assert(rest[k] == updates[k]);
                assert forall|j: int| k < j < rest.len() implies #[trigger] rest[j].0 != i by {
                    assert(rest[j] == updates[j]);
                }
            }
        }
        if forall|k: int| 0 <= k < updates.len() ==> #[trigger] updates[k].0 != i {
            assert forall|k: int| 0 <= k < rest.len() implies #[trigger] rest[k].0 != i by {
                assert(rest[k] == updates[k]);
            }
            assert(updates[updates.len() - 1].0 != i);
        }
    }
}

/// Undoing a command right after carrying it out gives back the statuses it was recorded
/// from.
pub proof fn lemma_undo_restores(c: CommandView, st: Seq<HumanReviewStatus>)
    requires
        recorded_from(c, st),
    ensures
        undone(c, applied(c, st)) == st,
{
    match c {
        CommandView::Single { index, before, after } => {
            assert(undone(c, applied(c, st)) =~= st);
        },
        CommandView::Batch { updates } => {
            let mid = run_updates(st, updates, false);
            let back = run_updates(mid, updates, true);
            lemma_run_updates_len(st, updates, false);
            lemma_run_updates_len(mid, updates, true);
            assert forall|i: int| 0 <= i < st.len() implies back[i] == st[i] by {
                lemma_run_updates_at(mid, updates, true, i);
                lemma_run_updates_at(st, updates, false, i);
                if exists|k: int| 0 <= k < updates.len() && #[trigger] updates[k].0 == i {
                    let k = choose|k: int| 0 <= k < updates.len() && #[trigger] updates[k].0 == i;
                    assert forall|j: int| k < j < updates.len() implies #[trigger] updates[j].0 != i by {
                        assert(updates[k].0 != updates[j].0);
                    }
                    assert(back[i] == updates[k].1);
                }
            }
            assert(back =~= st);
        },
    }
}

/// Redoing an undone command gives the statuses the command first produced.
pub proof fn lemma_redo_after_undo(c: CommandView, st: Seq<HumanReviewStatus>)
    ensures
        applied(c, undone(c, applied(c, st))) == applied(c, st),
{
    match c {
        CommandView::Single { index, before, after } => {
            assert(applied(c, undone(c, applied(c, st))) =~= applied(c, st));
        },
        CommandView::Batch { updates } => {
            lemma_redo_batch(st, updates);
        },
    }
}

proof fn lemma_redo_batch(st: Seq<HumanReviewStatus>, updates: Seq<(usize, HumanReviewStatus, HumanReviewStatus)>)
    ensures
        run_updates(run_updates(run_updates(st, updates, false), updates, true), updates, false)
            == run_updates(st, updates, false),
{
    let a = run_updates(st, updates, false);
    let b = run_updates(a, updates, true);
    let c = run_updates(b, updates, false);
    lemma_run_updates_len(st, updates, false);
    lemma_run_updates_len(a, updates, true);
    lemma_run_updates_len(b, updates, false);
    assert forall|i: int| 0 <= i < st.len() implies c[i] == a[i] by {
        lemma_run_updates_at(st, updates, false, i);
        lemma_run_updates_at(a, updates, true, i);
        lemma_run_updates_at(b, updates, false, i);
        if exists|k: int| 0 <= k < updates.len() && #[trigger] updates[k].0 == i {
            let k = lemma_last_update_of(updates, i);
        }
    }
    assert(c =~= a);
}

/// The last update of position `i`, when there is one.
proof fn lemma_last_update_of(updates: Seq<(usize, HumanReviewStatus, HumanReviewStatus)>, i: int) -> (k: int)
    requires
        exists|k: int| 0 <= k < updates.len() && #[trigger] updates[k].0 == i,
    ensures
        0 <= k < updates.len(),
        updates[k].0 == i,
        forall|j: int| k < j < updates.len() ==> #[trigger] updates[j].0 != i,
    decreases updates.len(),
{
    let n = updates.len() as int;
    if updates[n - 1].0 == i {
        n - 1
    } else {
        let rest = updates.drop_last();
        let w = choose|k: int| 0 <= k < updates.len() && #[trigger] updates[k].0 == i;
        assert(rest[w] == updates[w]);
        let k = lemma_last_update_of(rest, i);
        assert forall|j: int| k < j < updates.len() implies #[trigger] updates[j].0 != i by {
            if j < n - 1 {
                assert(rest[j] == updates[j]);
            }
        }
        k
    }
}

} // verus!
