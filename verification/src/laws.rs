//! The engine's laws, proved once and for all over the merge model.
//!
//! Each public proof function states one guarantee of the merge rule:
//! the watermark never regresses, a batch at or before the watermark is a
//! no-op, an accepted cell can never change again, and the rejection count
//! of a fresh cell is exactly the number of rejected submissions merged
//! before its first accepted one.

use vstd::prelude::*;
use crate::scoreboard::{
    blank_cell, cell_after, cell_key, merge_batch_spec, merge_one, merge_seq, sat_inc, user_key,
    ProblemCell, SolveStatus, StoreView, UserView,
};
use crate::seq_util::{index_of_key, lemma_index_of_key, lemma_index_of_key_same_keys};
use crate::submission::Submission;
use crate::verdict::{spec_collapse, CollapsedVerdict};

verus! {

/// The submissions of `subs` that concern the pair (`uid`, `pid`), in
/// order.
pub open spec fn restrict_to(subs: Seq<Submission>, uid: u32, pid: u32) -> Seq<Submission>
    decreases subs.len(),
{
    if subs.len() == 0 {
        Seq::empty()
    } else {
        let rest = restrict_to(subs.drop_first(), uid, pid);
        if subs.first().user_id == uid && subs.first().problem_id == pid {
            seq![subs.first()] + rest
        } else {
            rest
        }
    }
}

/// How many submissions collapse to a rejection strictly before the first
/// one that collapses to an acceptance.
pub open spec fn rejected_before_accept(subs: Seq<Submission>) -> nat
    decreases subs.len(),
{
    if subs.len() == 0 {
        0
    } else {
        match spec_collapse(subs.first().verdict) {
            CollapsedVerdict::Accepted => 0,
            CollapsedVerdict::Rejected => 1 + rejected_before_accept(subs.drop_first()),
            CollapsedVerdict::Pending => rejected_before_accept(subs.drop_first()),
        }
    }
}

/// One cell's state after a run of submissions is applied to it in order.
pub open spec fn cell_after_seq(c: ProblemCell, subs: Seq<Submission>) -> ProblemCell
    decreases subs.len(),
{
    if subs.len() == 0 {
        c
    } else {
        cell_after_seq(cell_after(c, spec_collapse(subs.first().verdict)), subs.drop_first())
    }
}

/// Saturating addition of a count.
pub open spec fn sat_add(a: u64, b: nat) -> u64 {
    if a + b <= u64::MAX {
        (a + b) as u64
    } else {
        u64::MAX
    }
}

/// Merging one submission changes exactly the cell it addresses, by the
/// one-cell merge rule, and no other.
pub proof fn lemma_cell_merge_one(s: StoreView, sub: Submission, uid: u32, pid: u32)
    ensures
        merge_one(s, sub).cell(uid, pid) == if sub.user_id == uid && sub.problem_id == pid {
            cell_after(s.cell(uid, pid), spec_collapse(sub.verdict))
        } else {
            s.cell(uid, pid)
        },
{
    let v = spec_collapse(sub.verdict);
    let s1 = merge_one(s, sub);
    let ui = index_of_key(s.users, user_key(), sub.user_id);
    lemma_index_of_key(s.users, user_key(), sub.user_id);
    let u0 = if ui >= 0 {
        s.users[ui]
    } else {
        UserView::blank(sub.user_id)
    };
    let u1 = crate::scoreboard::user_after(u0, sub.problem_id, v);
    assert(u1.id == u0.id);
    // The users sequence after the merge carries the same ids position by
    // position (update case) or gains one id at the end (push case), so
    // every id lookup lands where it did before, except a fresh user's.
    if ui >= 0 {
        assert(forall|j: int|
            0 <= j < s1.users.len() ==> user_key()(#[trigger] s1.users[j]) == user_key()(
                s.users[j],
            ));
        lemma_index_of_key_same_keys(s1.users, s.users, user_key(), user_key(), uid);
    } else {
        lemma_index_of_key(s1.users, user_key(), uid);
    }
    let wi = index_of_key(s1.users, user_key(), uid);
    lemma_index_of_key(s1.users, user_key(), uid);
    if uid == sub.user_id {
        if ui >= 0 {
            assert(wi == ui);
            assert(s1.users[wi] == u1);
        } else {
            assert(forall|j: int|
                0 <= j < s.users.len() ==> user_key()(#[trigger] s.users[j]) != uid);
            assert(forall|j: int|
                0 <= j < s.users.len() ==> user_key()(#[trigger] s1.users[j]) != uid);
            assert(user_key()(s1.users[s.users.len() as int]) == uid);
            assert(wi == s.users.len());
            assert(s1.users[wi] == u1);
        }
        lemma_cell_user_after(u0, sub.problem_id, v, pid);
        if ui < 0 {
            lemma_index_of_key(UserView::blank(sub.user_id).cells, cell_key(), pid);
            assert(UserView::blank(sub.user_id).cell(pid) == blank_cell());
            assert(s.cell(uid, pid) == blank_cell());
        }
    } else {
        // A different user: the lookup result is untouched.
        if ui >= 0 {
            assert(wi == index_of_key(s.users, user_key(), uid));
            if wi >= 0 {
                assert(s1.users[wi] == s.users[wi]);
            }
        } else {
            lemma_index_of_key(s.users, user_key(), uid);
            if index_of_key(s.users, user_key(), uid) == -1 {
                assert(forall|j: int|
                    0 <= j < s.users.len() ==> user_key()(#[trigger] s.users[j]) != uid);
                assert(user_key()(s1.users[s.users.len() as int]) == sub.user_id);
                assert(wi == -1);
            } else {
                let oi = index_of_key(s.users, user_key(), uid);
                assert(user_key()(s1.users[oi]) == uid);
                assert(forall|j: int|
                    0 <= j < oi ==> user_key()(#[trigger] s1.users[j]) != uid);
                assert(wi == oi);
                assert(s1.users[wi] == s.users[oi]);
            }
        }
    }
}

/// Applying one submission to a user record changes exactly the addressed
/// cell, by the one-cell merge rule.
proof fn lemma_cell_user_after(u: UserView, spid: u32, v: CollapsedVerdict, pid: u32)
    ensures
        crate::scoreboard::user_after(u, spid, v).cell(pid) == if spid == pid {
            cell_after(u.cell(pid), v)
        } else {
            u.cell(pid)
        },
{
    let u1 = crate::scoreboard::user_after(u, spid, v);
    lemma_index_of_key(u.cells, cell_key(), spid);
    lemma_index_of_key(u.cells, cell_key(), pid);
    lemma_index_of_key(u1.cells, cell_key(), pid);
    if v == CollapsedVerdict::Pending {
    } else {
        let ci = index_of_key(u.cells, cell_key(), spid);
        if ci >= 0 {
            assert(forall|j: int|
                0 <= j < u1.cells.len() ==> cell_key()(#[trigger] u1.cells[j]) == cell_key()(
                    u.cells[j],
                ));
            lemma_index_of_key_same_keys(u1.cells, u.cells, cell_key(), cell_key(), pid);
            if spid == pid {
                assert(index_of_key(u1.cells, cell_key(), pid) == ci);
            }
        } else {
            // The cell is appended at the end.
            if spid == pid {
                assert(forall|j: int|
                    0 <= j < u.cells.len() ==> cell_key()(#[trigger] u.cells[j]) != pid);
                assert(forall|j: int|
                    0 <= j < u.cells.len() ==> cell_key()(#[trigger] u1.cells[j]) != pid);
                assert(cell_key()(u1.cells[u.cells.len() as int]) == pid);
                assert(index_of_key(u1.cells, cell_key(), pid) == u.cells.len());
            } else {
                let oi = index_of_key(u.cells, cell_key(), pid);
                if oi == -1 {
                    assert(forall|j: int|
                        0 <= j < u.cells.len() ==> cell_key()(#[trigger] u.cells[j]) != pid);
                    assert(cell_key()(u1.cells[u.cells.len() as int]) == spid);
                    assert(index_of_key(u1.cells, cell_key(), pid) == -1);
                } else {
                    assert(cell_key()(u1.cells[oi]) == pid);
                    assert(forall|j: int|
                        0 <= j < oi ==> cell_key()(#[trigger] u1.cells[j]) != pid);
                    assert(index_of_key(u1.cells, cell_key(), pid) == oi);
                }
            }
        }
    }
}

/// A cell's state after a whole batch is the fold of the one-cell rule
/// over just the submissions addressed to it.
pub proof fn lemma_cell_merge_seq(s: StoreView, subs: Seq<Submission>, uid: u32, pid: u32)
    ensures
        merge_seq(s, subs).cell(uid, pid) == cell_after_seq(
            s.cell(uid, pid),
            restrict_to(subs, uid, pid),
        ),
    decreases subs.len(),
{
    if subs.len() > 0 {
        let x = subs.first();
        lemma_cell_merge_one(s, x, uid, pid);
        lemma_cell_merge_seq(merge_one(s, x), subs.drop_first(), uid, pid);
        if x.user_id == uid && x.problem_id == pid {
            assert(restrict_to(subs, uid, pid).first() == x);
            assert(restrict_to(subs, uid, pid).drop_first() =~= restrict_to(
                subs.drop_first(),
                uid,
                pid,
            ));
        }
    }
}

/// The watermark never regresses: merging any run of submissions can only
/// raise it.
pub proof fn lemma_watermark_monotonic(s: StoreView, subs: Seq<Submission>)
    ensures
        merge_seq(s, subs).watermark >= s.watermark,
    decreases subs.len(),
{
    if subs.len() > 0 {
        lemma_watermark_monotonic(merge_one(s, subs.first()), subs.drop_first());
    }
}

/// Across one whole sync cycle the watermark is monotone; chaining this
/// over successive cycles gives monotonicity for any run of cycles.
pub proof fn lemma_watermark_monotonic_batch(s: StoreView, subs: Seq<Submission>)
    ensures
        merge_batch_spec(s, subs).watermark >= s.watermark,
{
    lemma_watermark_monotonic(s, subs.filter(|x: Submission| x.created_at > s.watermark));
}

/// Merging a batch that lies entirely at or before the watermark changes
/// nothing: the watermark filter discards every submission.
pub proof fn lemma_merge_idempotent(s: StoreView, subs: Seq<Submission>)
    requires
        forall|i: int| 0 <= i < subs.len() ==> (#[trigger] subs[i]).created_at <= s.watermark,
    ensures
        merge_batch_spec(s, subs) == s,
{
    let pred = |x: Submission| x.created_at > s.watermark;
    assert(subs.all(|x: Submission| !pred(x)));
    subs.lemma_all_neg_filter_empty(pred);
    assert(subs.filter(pred) =~= Seq::<Submission>::empty());
}

/// An accepted cell is never changed again by any later submission:
/// neither the status nor the recorded rejection count moves.
pub proof fn lemma_accepted_cell_stable(c: ProblemCell, subs: Seq<Submission>)
    requires
        c.status == SolveStatus::Accepted,
    ensures
        cell_after_seq(c, subs) == c,
    decreases subs.len(),
{
    if subs.len() > 0 {
        assert(cell_after(c, spec_collapse(subs.first().verdict)) == c);
        lemma_accepted_cell_stable(c, subs.drop_first());
    }
}

/// Accepted is terminal: once a (user, problem) cell is accepted, merging
/// any further submissions leaves that cell exactly as it is.
pub proof fn lemma_accepted_terminal(s: StoreView, subs: Seq<Submission>, uid: u32, pid: u32)
    requires
        s.cell(uid, pid).status == SolveStatus::Accepted,
    ensures
        merge_seq(s, subs).cell(uid, pid) == s.cell(uid, pid),
{
    lemma_cell_merge_seq(s, subs, uid, pid);
    lemma_accepted_cell_stable(s.cell(uid, pid), restrict_to(subs, uid, pid));
}

/// A not-yet-accepted cell accumulates rejections saturatingly until its
/// first acceptance, and the count then freezes.
pub proof fn lemma_rejected_count_cell(c: ProblemCell, subs: Seq<Submission>)
    requires
        c.status != SolveStatus::Accepted,
    ensures
        cell_after_seq(c, subs).wa_count == sat_add(c.wa_count, rejected_before_accept(subs)),
    decreases subs.len(),
{
    if subs.len() > 0 {
        let v = spec_collapse(subs.first().verdict);
        let c1 = cell_after(c, v);
        match v {
            CollapsedVerdict::Accepted => {
                lemma_accepted_cell_stable(c1, subs.drop_first());
            },
            CollapsedVerdict::Rejected => {
                assert(c1.wa_count == sat_inc(c.wa_count));
                lemma_rejected_count_cell(c1, subs.drop_first());
            },
            CollapsedVerdict::Pending => {
                lemma_rejected_count_cell(c1, subs.drop_first());
            },
        }
    }
}

/// Rejected-count accuracy: starting from an untouched cell, its count
/// after any run of submissions equals the number of its rejected
/// submissions merged strictly before its first accepted one (as long as
/// that number is representable).
pub proof fn lemma_rejected_count(s: StoreView, subs: Seq<Submission>, uid: u32, pid: u32)
    requires
        s.cell(uid, pid) == blank_cell(),
        rejected_before_accept(restrict_to(subs, uid, pid)) <= u64::MAX,
    ensures
        merge_seq(s, subs).cell(uid, pid).wa_count == rejected_before_accept(
            restrict_to(subs, uid, pid),
        ),
{
    lemma_cell_merge_seq(s, subs, uid, pid);
    lemma_rejected_count_cell(blank_cell(), restrict_to(subs, uid, pid));
}

} // verus!
