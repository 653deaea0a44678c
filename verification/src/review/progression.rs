//! The steps of the review workflow: import, human review, overview.

use vstd::prelude::*;

verus! {

#[derive(Debug, Clone, Copy, PartialEq, Eq, Structural)]
pub enum Progression {
    ImportCsv,
    CheckProbableFraud,
    ExportCsvView,
}

/// The position of a step in the workflow.
pub open spec fn rank(p: Progression) -> int {
    match p {
        Progression::ImportCsv => 0,
        Progression::CheckProbableFraud => 1,
        Progression::ExportCsvView => 2,
    }
}

pub open spec fn step_title(p: Progression) -> Seq<char> {
    match p {
        Progression::ImportCsv => "Import CSV"@,
        Progression::CheckProbableFraud => "Human Review"@,
        Progression::ExportCsvView => "Overview"@,
    }
}

pub open spec fn next_step(p: Progression) -> Progression {
    match p {
        Progression::ImportCsv => Progression::CheckProbableFraud,
        Progression::CheckProbableFraud => Progression::ExportCsvView,
        Progression::ExportCsvView => Progression::ExportCsvView,
    }
}

pub open spec fn previous_step(p: Progression) -> Progression {
    match p {
        Progression::ImportCsv => Progression::ImportCsv,
        Progression::CheckProbableFraud => Progression::ImportCsv,
        Progression::ExportCsvView => Progression::CheckProbableFraud,
    }
}

/// How the stepper shows a step.
#[derive(Debug, Clone, Copy, PartialEq, Eq, Structural)]
pub enum StepLook {
    Selected,
    Completed,
    Upcoming,
}

impl Default for Progression {
    /// The workflow starts at the import step.
    fn default() -> (r: Progression)
        ensures
            r == Progression::ImportCsv,
    {
        Progression::ImportCsv
    }
}

impl Progression {
    pub fn title(self) -> (r: &'static str)
        ensures
            r@ == step_title(self),
    {
        match self {
            Progression::ImportCsv => "Import CSV",
            Progression::CheckProbableFraud => "Human Review",
            Progression::ExportCsvView => "Overview",
        }
    }

    /// The following step (the last one stays).
    pub fn next(self) -> (r: Progression)
        ensures
            r == next_step(self),
    {
        match self {
            Progression::ImportCsv => Progression::CheckProbableFraud,
            Progression::CheckProbableFraud => Progression::ExportCsvView,
            Progression::ExportCsvView => Progression::ExportCsvView,
        }
    }

    /// The step before (the first one stays).
    pub fn previous(self) -> (r: Progression)
        ensures
            r == previous_step(self),
    {
        match self {
            Progression::ImportCsv => Progression::ImportCsv,
            Progression::CheckProbableFraud => Progression::ImportCsv,
            Progression::ExportCsvView => Progression::CheckProbableFraud,
        }
    }

    /// Whether this step comes after `other`.
    pub fn is_after(self, other: Progression) -> (r: bool)
        ensures
            r == (rank(self) > rank(other)),
    {
        matches!(
            (self, other),
            (Progression::CheckProbableFraud, Progression::ImportCsv) | (
                Progression::ExportCsvView,
                Progression::ImportCsv,
            ) | (Progression::ExportCsvView, Progression::CheckProbableFraud)
        )
    }
}

/// Whether the stepper lets the user go to `step`: the import step always, the others once
/// a CSV is loaded.
pub fn step_enabled(step: Progression, has_csv: bool) -> (r: bool)
    ensures
        r == (has_csv || step == Progression::ImportCsv),
{
    has_csv || matches!(step, Progression::ImportCsv)
}

/// How the stepper shows `step` while the workflow is at `current`.
pub fn step_look(current: Progression, step: Progression) -> (r: StepLook)
    ensures
        r == (if current == step {
            StepLook::Selected
        } else if rank(current) > rank(step) {
            StepLook::Completed
        } else {
            StepLook::Upcoming
        }),
{
    if current == step {
        StepLook::Selected
    } else if current.is_after(step) {
        StepLook::Completed
    } else {
        StepLook::Upcoming
    }
}

/// Going forward then back returns to the step, except from the last step.
pub proof fn lemma_next_then_previous(p: Progression)
    requires
        p != Progression::ExportCsvView,
    ensures
        previous_step(next_step(p)) == p,
        rank(next_step(p)) == rank(p) + 1,
{
}

/// Going back then forward returns to the step, except from the first step.
pub proof fn lemma_previous_then_next(p: Progression)
    requires
        p != Progression::ImportCsv,
    ensures
        next_step(previous_step(p)) == p,
        rank(previous_step(p)) == rank(p) - 1,
{
}

/// "Comes after" orders the steps strictly and totally.
pub proof fn lemma_is_after_order(a: Progression, b: Progression, c: Progression)
    ensures
        !(rank(a) > rank(a)),
        rank(a) > rank(b) && rank(b) > rank(c) ==> rank(a) > rank(c),
        a != b ==> (rank(a) > rank(b) || rank(b) > rank(a)),
{
}

} // verus!
