use fastnode::session::{allowed_in_transaction, Line, Session, Step};

#[test]
fn a_clean_transaction_runs_requests_and_commits() {
    let mut s = Session::new();
    assert_eq!(s.step(Line::Blank), Step::Skip);
    assert_eq!(s.step(Line::Request), Step::Run);
    s.ran(true);
    assert_eq!(s.step(Line::Begin), Step::RefuseBegin);
    assert_eq!(s.step(Line::Commit), Step::Commit);
}

#[test]
fn after_a_failure_only_rollback_is_accepted() {
    let mut s = Session::new();
    assert_eq!(s.step(Line::Request), Step::Run);
    s.ran(false);
    assert_eq!(s.step(Line::Request), Step::RefuseAfterFailure);
    assert_eq!(s.step(Line::Commit), Step::RefuseAfterFailure);
    assert_eq!(s.step(Line::Begin), Step::RefuseBegin);
    assert_eq!(s.step(Line::Rollback), Step::RollBack);
}

#[test]
fn an_unreadable_line_fails_the_transaction() {
    let mut s = Session::new();
    assert_eq!(s.step(Line::Unreadable), Step::ReportUnreadable);
    assert!(s.failed);
    assert_eq!(s.step(Line::Commit), Step::RefuseAfterFailure);
    assert_eq!(s.input_ended(), Step::RollBack);
}

#[test]
fn whole_store_requests_are_refused_inside_a_transaction() {
    for op in ["view", "links", "stats", "define_index", "define_type", "typedefs", "set_policy"] {
        assert!(!allowed_in_transaction(op));
    }
    for op in ["get", "query", "create", "batch", "now", "policy"] {
        assert!(allowed_in_transaction(op));
    }
}
