use foj_scoreboard::codec::CodecError;
use foj_scoreboard::scoreboard::{Scoreboard, sort_submissions};
use foj_scoreboard::submission::Submission;
use foj_scoreboard::verdict::Verdict;

fn sub(id: u64, user_id: u32, problem_id: u32, verdict: Verdict, created_at: u64) -> Submission {
    Submission {
        id,
        user_id,
        problem_id,
        verdict,
        created_at,
        updated_at: created_at,
        execute_id: 0,
        length: 0,
        memory_usage: None,
        time_usage: None,
        score: None,
    }
}

fn populated_board() -> Scoreboard {
    let mut board = Scoreboard::new();
    let mut batch = vec![
        sub(1, 1, 1, Verdict::WrongAnswer, 100),
        sub(2, 1, 1, Verdict::Accepted, 200),
        sub(3, 2, 3, Verdict::WrongAnswer, 300),
        sub(4, 2, 1, Verdict::TimeLimitExceeded, 400),
        sub(5, 9, 2, Verdict::Accepted, 500),
    ];
    sort_submissions(&mut batch);
    board.save_submissions(&batch);
    board.set_user_name(1, String::from("alice"));
    board.set_user_name(9, String::from("zoé"));
    board
}

#[test]
fn encode_decode_round_trips_a_populated_store() {
    let board = populated_board();
    let blob = board.encode();
    let decoded = Scoreboard::decode(&blob).unwrap();
    assert_eq!(decoded, board);
}

#[test]
fn encode_decode_round_trips_the_empty_store() {
    let board = Scoreboard::new();
    let decoded = Scoreboard::decode(&board.encode()).unwrap();
    assert_eq!(decoded, board);
}

#[test]
fn truncated_bytes_fail_to_decode() {
    let board = populated_board();
    let mut blob = board.encode();
    blob.pop();
    assert_eq!(Scoreboard::decode(&blob), Err(CodecError::Malformed));
}

#[test]
fn trailing_garbage_fails_to_decode() {
    let board = populated_board();
    let mut blob = board.encode();
    blob.push(0);
    assert_eq!(Scoreboard::decode(&blob), Err(CodecError::Malformed));
}

#[test]
fn empty_and_short_inputs_fail_to_decode() {
    assert_eq!(Scoreboard::decode(&[]), Err(CodecError::Malformed));
    assert_eq!(Scoreboard::decode(&[1, 2, 3]), Err(CodecError::Malformed));
}

#[test]
fn a_bad_status_byte_fails_to_decode() {
    let mut board = Scoreboard::new();
    board.save_submissions(&vec![sub(1, 1, 1, Verdict::Accepted, 100)]);
    let mut blob = board.encode();
    // The cell's status byte sits at the very end of the blob.
    let last = blob.len() - 1;
    blob[last] = 9;
    assert_eq!(Scoreboard::decode(&blob), Err(CodecError::Malformed));
}

#[test]
fn decoding_recovers_watermark_names_and_cells() {
    let board = populated_board();
    let decoded = Scoreboard::decode(&board.encode()).unwrap();
    assert_eq!(decoded.watermark, 500);
    assert_eq!(decoded.problem_universe, vec![1, 3, 2]);
    let alice = decoded.users.iter().find(|u| u.id == 1).unwrap();
    assert_eq!(alice.name, "alice");
    let zoe = decoded.users.iter().find(|u| u.id == 9).unwrap();
    assert_eq!(zoe.name, "zoé");
}
