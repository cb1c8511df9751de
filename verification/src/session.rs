//! The decisions of an rpc transaction: `begin`, then reads and writes on one
//! write transaction, then `commit` or `rollback`. After a failed request
//! only rollback is accepted; input that ends inside the transaction rolls
//! back.

use vstd::prelude::*;

verus! {

/// One input line inside a transaction, as the caller read it.
#[derive(Debug, Clone, Copy, PartialEq, Eq, Structural)]
pub enum Line {
    /// A line holding only white space.
    Blank,
    /// A line that is not a JSON request.
    Unreadable,
    /// `{"op":"rollback"}`.
    Rollback,
    /// `{"op":"commit"}`.
    Commit,
    /// `{"op":"begin"}`.
    Begin,
    /// Any other request.
    Request,
}

/// What the caller does with a line.
#[derive(Debug, Clone, Copy, PartialEq, Eq, Structural)]
pub enum Step {
    /// Nothing: read the next line.
    Skip,
    /// Answer that the line is not a request.
    ReportUnreadable,
    /// Roll the transaction back and answer that it was rolled back.
    RollBack,
    /// Commit the transaction and answer whether it committed.
    Commit,
    /// Answer that a transaction is already open.
    RefuseBegin,
    /// Answer that only rollback is accepted after a failed request.
    RefuseAfterFailure,
    /// Run the request in the transaction, answer with its result, and
    /// report whether it succeeded with `Session::ran`.
    Run,
}

/// An open transaction: whether a request in it has failed.
pub struct Session {
    pub failed: bool,
}

/// The step for `line` when a request has (`failed`) or has not failed, and
/// whether one has failed afterwards (before a request that runs reports).
pub open spec fn step_spec(failed: bool, line: Line) -> (Step, bool) {
    match line {
        Line::Blank => (Step::Skip, failed),
        Line::Unreadable => (Step::ReportUnreadable, true),
        Line::Rollback => (Step::RollBack, failed),
        Line::Commit => if failed {
            (Step::RefuseAfterFailure, failed)
        } else {
            (Step::Commit, failed)
        },
        Line::Begin => (Step::RefuseBegin, failed),
        Line::Request => if failed {
            (Step::RefuseAfterFailure, failed)
        } else {
            (Step::Run, failed)
        },
    }
}

impl Session {
    /// A transaction just begun: nothing has failed.
    pub fn new() -> (s: Session)
        ensures
            !s.failed,
    {
        Session { failed: false }
    }

    /// Decides what to do with the next line.
    pub fn step(&mut self, line: Line) -> (s: Step)
        ensures
            (s, final(self).failed) == step_spec(old(self).failed, line),
    {
        match line {
            Line::Blank => Step::Skip,
            Line::Unreadable => {
                self.failed = true;
                Step::ReportUnreadable
            },
            Line::Rollback => Step::RollBack,
            Line::Commit => if self.failed {
                Step::RefuseAfterFailure
            } else {
                Step::Commit
            },
            Line::Begin => Step::RefuseBegin,
            Line::Request => if self.failed {
                Step::RefuseAfterFailure
            } else {
                Step::Run
            },
        }
    }

    /// Records how a request that ran ended.
    pub fn ran(&mut self, ok: bool)
        ensures
            final(self).failed == !ok,
    {
        self.failed = !ok;
    }

    /// Input ended inside the transaction: it is rolled back, and nothing is
    /// answered.
    pub fn input_ended(&self) -> (s: Step)
        ensures
            s == Step::RollBack,
    {
        Step::RollBack
    }
}

/// The requests refused inside a transaction: those that read or change
/// the whole store (views, links, statistics, index, type and policy
/// declarations).
pub open spec fn refused_in_transaction(op: Seq<char>) -> bool {
    op == "view"@ || op == "links"@ || op == "stats"@ || op == "define_index"@ || op == "define_type"@
        || op == "typedefs"@ || op == "set_policy"@
}

/// Whether the request `op` may run inside a transaction.
pub fn allowed_in_transaction(op: &str) -> (b: bool)
    ensures
        b == !refused_in_transaction(op@),
{
    let refused: Vec<&str> = vec!["view", "links", "stats", "define_index", "define_type", "typedefs", "set_policy"];
    let mut i: usize = 0;
    while i < refused.len()
        invariant
            i <= refused@.len(),
            refused@ == seq!["view", "links", "stats", "define_index", "define_type", "typedefs", "set_policy"],
            forall|k: int| 0 <= k < i ==> refused@[k]@ != op@,
        decreases refused@.len() - i,
    {
        if same_text(refused[i], op) {
            return false;
        }
        i += 1;
    }
    true
}

fn same_text(a: &str, b: &str) -> (r: bool)
    ensures
        r == (a@ == b@),
{
    a.to_owned() == b.to_owned()
}

/// After a failed request only rollback is accepted: nothing runs and
/// nothing commits, and the failure is kept until the transaction ends.
pub proof fn law_only_rollback_after_failure(line: Line)
    ensures
        step_spec(true, line).0 != Step::Run,
        step_spec(true, line).0 != Step::Commit,
        step_spec(true, line).1,
        line == Line::Rollback ==> step_spec(true, line).0 == Step::RollBack,
{
}

/// A transaction commits only when no request in it has failed: a commit
/// step is given only when none has, and every request that was not refused
/// runs.
pub proof fn law_commit_only_when_clean(failed: bool, line: Line)
    ensures
        step_spec(failed, line).0 == Step::Commit <==> (!failed && line == Line::Commit),
        step_spec(failed, line).0 == Step::Run <==> (!failed && line == Line::Request),
{
}

} // verus!
