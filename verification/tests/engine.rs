use foj_scoreboard::scoreboard::{Scoreboard, SolveStatus, sort_submissions};
use foj_scoreboard::submission::Submission;
use foj_scoreboard::sync::SyncError;
use foj_scoreboard::verdict::Verdict;

fn sub(id: u64, user_id: u32, problem_id: u32, verdict: Verdict, created_at: u64) -> Submission {
    Submission {
        id,
        user_id,
        problem_id,
        verdict,
        created_at,
        updated_at: created_at,
        execute_id: 0,
        length: 0,
        memory_usage: None,
        time_usage: None,
        score: None,
    }
}

fn cell_of(board: &Scoreboard, uid: u32, pid: u32) -> (SolveStatus, u64) {
    for u in &board.users {
        if u.id == uid {
            for (p, c) in &u.problems {
                if *p == pid {
                    return (c.status, c.wa_count);
                }
            }
            return (SolveStatus::NotSubmitted, 0);
        }
    }
    (SolveStatus::NotSubmitted, 0)
}

#[test]
fn merge_wa_then_ac_gives_accepted_with_one_rejection() {
    let mut board = Scoreboard::new();
    let mut batch = vec![
        sub(1, 1, 1, Verdict::WrongAnswer, 100),
        sub(2, 1, 1, Verdict::Accepted, 200),
    ];
    sort_submissions(&mut batch);
    board.save_submissions(&batch);
    assert_eq!(cell_of(&board, 1, 1), (SolveStatus::Accepted, 1));
    assert_eq!(board.watermark, 200);
}

#[test]
fn remerging_an_old_batch_changes_nothing() {
    let mut board = Scoreboard::new();
    let mut batch = vec![
        sub(1, 1, 1, Verdict::WrongAnswer, 100),
        sub(2, 1, 1, Verdict::Accepted, 200),
    ];
    sort_submissions(&mut batch);
    board.save_submissions(&batch);
    let snapshot = board.clone();
    board.save_submissions(&batch);
    assert_eq!(board, snapshot);
}

#[test]
fn two_rejections_accumulate() {
    let mut board = Scoreboard::new();
    let mut batch = vec![
        sub(3, 2, 1, Verdict::WrongAnswer, 300),
        sub(4, 2, 1, Verdict::WrongAnswer, 400),
    ];
    sort_submissions(&mut batch);
    board.save_submissions(&batch);
    assert_eq!(cell_of(&board, 2, 1), (SolveStatus::WrongAnswer, 2));
}

#[test]
fn untouched_pair_reads_as_not_submitted() {
    let mut board = Scoreboard::new();
    let batch = vec![sub(1, 3, 1, Verdict::Accepted, 100)];
    board.save_submissions(&batch);
    assert_eq!(cell_of(&board, 3, 2), (SolveStatus::NotSubmitted, 0));
}

#[test]
fn accepted_is_terminal_under_later_rejection() {
    let mut board = Scoreboard::new();
    let mut batch = vec![
        sub(1, 1, 1, Verdict::Accepted, 100),
        sub(2, 1, 1, Verdict::WrongAnswer, 200),
        sub(3, 1, 1, Verdict::MemoryLimitExceeded, 300),
    ];
    sort_submissions(&mut batch);
    board.save_submissions(&batch);
    assert_eq!(cell_of(&board, 1, 1), (SolveStatus::Accepted, 0));
}

#[test]
fn all_terminal_rejections_collapse_alike() {
    let mut board = Scoreboard::new();
    let mut batch = vec![
        sub(1, 1, 1, Verdict::SystemError, 100),
        sub(2, 1, 1, Verdict::CompileError, 200),
        sub(3, 1, 1, Verdict::RuntimeError, 300),
        sub(4, 1, 1, Verdict::MemoryLimitExceeded, 400),
        sub(5, 1, 1, Verdict::TimeLimitExceeded, 500),
        sub(6, 1, 1, Verdict::OutputLimitExceeded, 600),
        sub(7, 1, 1, Verdict::WrongAnswer, 700),
    ];
    sort_submissions(&mut batch);
    board.save_submissions(&batch);
    assert_eq!(cell_of(&board, 1, 1), (SolveStatus::WrongAnswer, 7));
}

#[test]
fn pending_and_judging_change_no_cell_but_advance_watermark() {
    let mut board = Scoreboard::new();
    let mut batch = vec![
        sub(1, 1, 1, Verdict::Pending, 100),
        sub(2, 1, 1, Verdict::Judging, 200),
    ];
    sort_submissions(&mut batch);
    board.save_submissions(&batch);
    assert_eq!(cell_of(&board, 1, 1), (SolveStatus::NotSubmitted, 0));
    // The user and problem are still discovered, and the timestamps are
    // consumed so the submissions are never reprocessed.
    assert_eq!(board.watermark, 200);
    assert_eq!(board.problem_universe, vec![1]);
    assert_eq!(board.users.len(), 1);
}

#[test]
fn watermark_never_regresses() {
    let mut board = Scoreboard::new();
    board.save_submissions(&vec![sub(1, 1, 1, Verdict::Accepted, 500)]);
    assert_eq!(board.watermark, 500);
    // An entirely old batch is discarded and the watermark stands.
    board.save_submissions(&vec![sub(2, 2, 2, Verdict::Accepted, 400)]);
    assert_eq!(board.watermark, 500);
    assert_eq!(cell_of(&board, 2, 2), (SolveStatus::NotSubmitted, 0));
    board.save_submissions(&vec![sub(3, 2, 2, Verdict::Accepted, 600)]);
    assert_eq!(board.watermark, 600);
}

#[test]
fn sort_orders_by_time_then_id() {
    let mut batch = vec![
        sub(5, 1, 1, Verdict::Accepted, 300),
        sub(2, 1, 1, Verdict::WrongAnswer, 100),
        sub(1, 1, 1, Verdict::Pending, 100),
        sub(4, 1, 1, Verdict::Judging, 200),
    ];
    sort_submissions(&mut batch);
    let ids: Vec<u64> = batch.iter().map(|s| s.id).collect();
    assert_eq!(ids, vec![1, 2, 4, 5]);
}

#[test]
fn problem_universe_keeps_discovery_order_without_duplicates() {
    let mut board = Scoreboard::new();
    let mut batch = vec![
        sub(1, 1, 7, Verdict::WrongAnswer, 100),
        sub(2, 1, 3, Verdict::Accepted, 200),
        sub(3, 2, 7, Verdict::Accepted, 300),
    ];
    sort_submissions(&mut batch);
    board.save_submissions(&batch);
    assert_eq!(board.problem_universe, vec![7, 3]);
}

#[test]
fn fetch_results_merge_partially_and_report_failures() {
    let mut board = Scoreboard::new();
    let ok_batch = vec![sub(1, 1, 1, Verdict::Accepted, 100)];
    let results = vec![Ok(ok_batch), Err(SyncError::TransportFailure)];
    let report = board.apply_fetch_results(&results);
    assert_eq!(report.batches_merged, 1);
    assert_eq!(report.batches_failed, 1);
    assert_eq!(cell_of(&board, 1, 1), (SolveStatus::Accepted, 0));
    assert_eq!(board.watermark, 100);
}

#[test]
fn name_resolution_is_lazy_and_partial() {
    let mut board = Scoreboard::new();
    board.save_submissions(&vec![
        sub(1, 5, 1, Verdict::Accepted, 100),
        sub(2, 9, 1, Verdict::WrongAnswer, 200),
    ]);
    assert_eq!(board.users_needing_names(), vec![5, 9]);
    let results = vec![
        (5, Ok(String::from("alice"))),
        (9, Err(SyncError::NameResolutionFailure)),
    ];
    let failed = board.apply_name_results(&results);
    assert_eq!(failed, 1);
    // The resolved name is cached; the failed one is retried next cycle.
    assert_eq!(board.users_needing_names(), vec![9]);
    let named: Vec<(u32, String)> =
        board.users.iter().map(|u| (u.id, u.name.clone())).collect();
    assert!(named.contains(&(5, String::from("alice"))));
}

#[test]
fn setting_a_name_for_an_unknown_user_is_ignored() {
    let mut board = Scoreboard::new();
    board.save_submissions(&vec![sub(1, 1, 1, Verdict::Accepted, 100)]);
    let snapshot = board.clone();
    board.set_user_name(42, String::from("nobody"));
    assert_eq!(board, snapshot);
}
