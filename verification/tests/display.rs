use foj_scoreboard::meta::{ListType, Metadata};
use foj_scoreboard::scoreboard::{Scoreboard, SolveStatus, sort_submissions};
use foj_scoreboard::submission::Submission;
use foj_scoreboard::table::{CellTag, u64_to_string};
use foj_scoreboard::verdict::Verdict;

fn sub(id: u64, user_id: u32, problem_id: u32, verdict: Verdict, created_at: u64) -> Submission {
    Submission {
        id,
        user_id,
        problem_id,
        verdict,
        created_at,
        updated_at: created_at,
        execute_id: 0,
        length: 0,
        memory_usage: None,
        time_usage: None,
        score: None,
    }
}

fn board_with(batch: Vec<Submission>) -> Scoreboard {
    let mut board = Scoreboard::new();
    let mut batch = batch;
    sort_submissions(&mut batch);
    board.save_submissions(&batch);
    board
}

#[test]
fn decimal_rendering_is_exact() {
    assert_eq!(u64_to_string(0), "0");
    assert_eq!(u64_to_string(7), "7");
    assert_eq!(u64_to_string(10), "10");
    assert_eq!(u64_to_string(12345), "12345");
    assert_eq!(u64_to_string(u64::MAX), "18446744073709551615");
}

#[test]
fn accepted_cell_counts_the_accepting_attempt() {
    let board = board_with(vec![
        sub(1, 1, 1, Verdict::WrongAnswer, 100),
        sub(2, 1, 1, Verdict::Accepted, 200),
    ]);
    let grid = board.gen_table(None, ListType::BlackList);
    assert_eq!(grid.header, vec![String::from("1")]);
    assert_eq!(grid.rows.len(), 1);
    assert_eq!(grid.rows[0].cells[0].text, "AC / 2");
    assert_eq!(grid.rows[0].cells[0].tag, CellTag::Positive);
}

#[test]
fn rejected_cell_counts_rejections() {
    let board = board_with(vec![
        sub(1, 2, 1, Verdict::WrongAnswer, 100),
        sub(2, 2, 1, Verdict::WrongAnswer, 200),
    ]);
    let grid = board.gen_table(None, ListType::BlackList);
    assert_eq!(grid.rows[0].cells[0].text, "WA / 2");
    assert_eq!(grid.rows[0].cells[0].tag, CellTag::Negative);
}

#[test]
fn untouched_cell_shows_the_marker_and_empty_rows_are_suppressed() {
    let board = board_with(vec![
        sub(1, 1, 1, Verdict::Accepted, 100),
        sub(2, 3, 2, Verdict::Accepted, 200),
    ]);
    // Restricting the view to problem 1 leaves user 3 with nothing to show.
    let subset = vec![2u32];
    let grid = board.gen_table(Some(&subset), ListType::BlackList);
    assert_eq!(grid.header, vec![String::from("1")]);
    assert_eq!(grid.rows.len(), 1);
    assert_eq!(grid.rows[0].user_id, 1);
    // In the full view user 1 has an untouched cell for problem 2.
    let grid = board.gen_table(None, ListType::BlackList);
    assert_eq!(grid.rows.len(), 2);
    let row1 = grid.rows.iter().find(|r| r.user_id == 1).unwrap();
    assert_eq!(row1.cells[1].text, "NS");
    assert_eq!(row1.cells[1].tag, CellTag::Muted);
}

#[test]
fn rows_are_ordered_by_solved_count_then_user_id() {
    let board = board_with(vec![
        sub(1, 9, 1, Verdict::Accepted, 100),
        sub(2, 9, 2, Verdict::Accepted, 200),
        sub(3, 4, 1, Verdict::Accepted, 300),
        sub(4, 2, 2, Verdict::Accepted, 400),
    ]);
    let grid = board.gen_table(None, ListType::BlackList);
    let order: Vec<u32> = grid.rows.iter().map(|r| r.user_id).collect();
    // User 9 solved two problems; users 2 and 4 one each, smaller id first.
    assert_eq!(order, vec![9, 2, 4]);
}

#[test]
fn whitelist_and_blacklist_filter_the_universe() {
    let board = board_with(vec![
        sub(1, 1, 1, Verdict::Accepted, 100),
        sub(2, 1, 2, Verdict::Accepted, 200),
        sub(3, 1, 3, Verdict::Accepted, 300),
    ]);
    let subset = vec![2u32];
    let allow = board.gen_table(Some(&subset), ListType::WhiteList);
    assert_eq!(allow.header, vec![String::from("2")]);
    let deny = board.gen_table(Some(&subset), ListType::BlackList);
    assert_eq!(deny.header, vec![String::from("1"), String::from("3")]);
}

#[test]
fn empty_store_projects_an_empty_grid() {
    let board = Scoreboard::new();
    let grid = board.gen_table(None, ListType::BlackList);
    assert!(grid.header.is_empty());
    assert!(grid.rows.is_empty());
}

#[test]
fn resolved_names_appear_in_rows() {
    let mut board = board_with(vec![sub(1, 7, 1, Verdict::Accepted, 100)]);
    board.set_user_name(7, String::from("carol"));
    let grid = board.gen_table(None, ListType::BlackList);
    assert_eq!(grid.rows[0].name, "carol");
}

#[test]
fn metadata_getters_return_what_was_set() {
    let meta = Metadata::new(
        17,
        String::from("SECRET-REDACTED"),
        ListType::WhiteList,
        Some(vec![1, 2, 3]),
    );
    assert_eq!(meta.get_group(), 17);
    assert_eq!(meta.get_token(), "SECRET-REDACTED");
    assert_eq!(meta.list_type(), ListType::WhiteList);
    assert_eq!(meta.problems(), Some(&vec![1, 2, 3]));
}

#[test]
fn metadata_defaults_to_an_empty_deny_list() {
    let meta = Metadata::default();
    assert_eq!(meta.get_group(), 0);
    assert_eq!(meta.get_token(), "");
    assert_eq!(meta.list_type(), ListType::BlackList);
    assert_eq!(meta.problems(), None);
}

#[test]
fn an_empty_problem_list_counts_as_no_list() {
    let meta = Metadata::new(1, String::new(), ListType::WhiteList, Some(vec![]));
    assert_eq!(meta.problems(), None);
}

#[test]
fn verdict_codes_round_trip() {
    for code in 1..=10u32 {
        let v = Verdict::from_code(code).unwrap();
        assert_eq!(v.code(), code);
    }
    assert_eq!(Verdict::from_code(0), None);
    assert_eq!(Verdict::from_code(11), None);
    assert_eq!(Verdict::from_code(4), Some(Verdict::CompileError));
    assert_eq!(Verdict::from_code(9), Some(Verdict::WrongAnswer));
    assert_eq!(Verdict::from_code(10), Some(Verdict::Accepted));
}

#[test]
fn status_defaults_to_not_submitted() {
    assert_eq!(SolveStatus::default(), SolveStatus::NotSubmitted);
}
