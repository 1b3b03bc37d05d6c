//! The aggregate store: per-user, per-problem solving state, the set of
//! problems ever observed, and the synchronization watermark.
//!
//! All mutation goes through the merge rule: submissions are applied in
//! ascending timestamp order, a rejected verdict bumps the rejection count
//! unless the cell is already accepted, an accepted verdict promotes the
//! cell permanently, and transient verdicts change nothing.  The watermark
//! advances to the newest timestamp merged — a transient submission also
//! advances it, a deliberate choice that keeps a stuck pending submission
//! from being reprocessed forever at the cost of never re-merging it if it
//! is judged after the watermark passes it.

use vstd::prelude::*;
use crate::seq_util::{index_of_key, lemma_index_of_key, lemma_insert_multiset};
use crate::submission::{sorted_by_time, sub_le, Submission};
use crate::verdict::{spec_collapse, CollapsedVerdict};

verus! {

/// Display status of one (user, problem) cell.
#[derive(Clone, Copy, Debug, PartialEq, Eq, Structural)]
pub enum SolveStatus {
    NotSubmitted,
    Accepted,
    WrongAnswer,
}

impl Default for SolveStatus {
    fn default() -> (r: Self)
        ensures
            r == SolveStatus::NotSubmitted,
    {
        SolveStatus::NotSubmitted
    }
}

/// Per-(user, problem) state: the status and how many rejected submissions
/// were merged before the first accepted one.
#[derive(Clone, Copy, Debug, PartialEq, Eq, Structural)]
pub struct ProblemCell {
    pub status: SolveStatus,
    pub wa_count: u64,
}

impl Default for ProblemCell {
    fn default() -> (r: Self)
        ensures
            r == blank_cell(),
    {
        ProblemCell { status: SolveStatus::NotSubmitted, wa_count: 0 }
    }
}

/// One contestant: id, lazily resolved display name, and per-problem cells
/// keyed by problem id.
#[derive(Clone, Debug, PartialEq, Eq)]
pub struct UserRecord {
    pub id: u32,
    pub name: String,
    pub problems: Vec<(u32, ProblemCell)>,
}

/// The whole aggregate: contestants keyed by user id, every problem id ever
/// observed in a merged submission (in discovery order), and the watermark,
/// the largest timestamp among all merged submissions (seconds since the
/// Unix epoch; zero when nothing was merged yet).
#[derive(Clone, Debug, PartialEq, Eq)]
pub struct Scoreboard {
    pub users: Vec<UserRecord>,
    pub problem_universe: Vec<u32>,
    pub watermark: u64,
}

/// Mathematical image of a [`UserRecord`].
#[verifier::ext_equal]
pub ghost struct UserView {
    pub id: u32,
    pub name: Seq<char>,
    pub cells: Seq<(u32, ProblemCell)>,
}

/// Mathematical image of a [`Scoreboard`].
#[verifier::ext_equal]
pub ghost struct StoreView {
    pub users: Seq<UserView>,
    pub problem_universe: Seq<u32>,
    pub watermark: u64,
}

impl View for UserRecord {
    type V = UserView;

    open spec fn view(&self) -> UserView {
        UserView { id: self.id, name: self.name@, cells: self.problems@ }
    }
}

impl View for Scoreboard {
    type V = StoreView;

    open spec fn view(&self) -> StoreView {
        StoreView {
            users: self.users@.map_values(|u: UserRecord| u@),
            problem_universe: self.problem_universe@,
            watermark: self.watermark,
        }
    }
}

/// Key functions for the association sequences.
pub open spec fn user_key() -> spec_fn(UserView) -> u32 {
    |u: UserView| u.id
}

pub open spec fn cell_key() -> spec_fn((u32, ProblemCell)) -> u32 {
    |c: (u32, ProblemCell)| c.0
}

impl UserView {
    /// Cell ids are unique.
    pub open spec fn wf(self) -> bool {
        forall|i: int, j: int|
            0 <= i < j < self.cells.len() ==> (#[trigger] self.cells[i]).0 != (
            #[trigger] self.cells[j]).0
    }

    /// A contestant that has never been seen before: empty name, no cells.
    pub open spec fn blank(uid: u32) -> UserView {
        UserView { id: uid, name: Seq::empty(), cells: Seq::empty() }
    }

    /// This user's cell for `pid`, or the blank cell if none was recorded.
    pub open spec fn cell(self, pid: u32) -> ProblemCell {
        let ci = index_of_key(self.cells, cell_key(), pid);
        if ci >= 0 {
            self.cells[ci].1
        } else {
            blank_cell()
        }
    }
}

impl StoreView {
    /// User ids are unique, every user is well formed, and the problem
    /// universe has no duplicates.
    pub open spec fn wf(self) -> bool {
        &&& forall|i: int, j: int|
            0 <= i < j < self.users.len() ==> (#[trigger] self.users[i]).id != (
            #[trigger] self.users[j]).id
        &&& forall|i: int| 0 <= i < self.users.len() ==> (#[trigger] self.users[i]).wf()
        &&& forall|i: int, j: int|
            0 <= i < j < self.problem_universe.len() ==> #[trigger] self.problem_universe[i] != (
            #[trigger] self.problem_universe[j])
    }

    /// The store with nothing merged yet.
    pub open spec fn empty() -> StoreView {
        StoreView { users: Seq::empty(), problem_universe: Seq::empty(), watermark: 0 }
    }

    /// The user with id `uid`, if one was recorded.
    pub open spec fn user(self, uid: u32) -> Option<UserView> {
        let ui = index_of_key(self.users, user_key(), uid);
        if ui >= 0 {
            Some(self.users[ui])
        } else {
            None
        }
    }

    /// The cell of (`uid`, `pid`); the blank cell when the pair was never
    /// touched by a merged submission.
    pub open spec fn cell(self, uid: u32, pid: u32) -> ProblemCell {
        match self.user(uid) {
            Some(u) => u.cell(pid),
            None => blank_cell(),
        }
    }
}

/// The state of a never-submitted (user, problem) pair.
pub open spec fn blank_cell() -> ProblemCell {
    ProblemCell { status: SolveStatus::NotSubmitted, wa_count: 0 }
}

/// Increment that stops at the largest representable count rather than
/// wrapping.
pub open spec fn sat_inc(x: u64) -> u64 {
    if x < u64::MAX {
        (x + 1) as u64
    } else {
        x
    }
}

/// The merge rule for one cell.  Accepted is terminal: a later rejection
/// neither demotes the status nor bumps the count.  An accepted verdict
/// keeps the count as history.  Transient verdicts change nothing.
pub open spec fn cell_after(c: ProblemCell, v: CollapsedVerdict) -> ProblemCell {
    match v {
        CollapsedVerdict::Accepted => ProblemCell { status: SolveStatus::Accepted, wa_count: c.wa_count },
        CollapsedVerdict::Rejected => if c.status == SolveStatus::Accepted {
            c
        } else {
            ProblemCell { status: SolveStatus::WrongAnswer, wa_count: sat_inc(c.wa_count) }
        },
        CollapsedVerdict::Pending => c,
    }
}

/// One user's record after a submission for `pid` with collapsed verdict
/// `v` is applied.  A transient verdict leaves the record alone (no cell is
/// created for it); otherwise the cell is updated in place or appended.
pub open spec fn user_after(u: UserView, pid: u32, v: CollapsedVerdict) -> UserView {
    if v == CollapsedVerdict::Pending {
        u
    } else {
        let ci = index_of_key(u.cells, cell_key(), pid);
        let c0 = if ci >= 0 {
            u.cells[ci].1
        } else {
            blank_cell()
        };
        let c1 = cell_after(c0, v);
        UserView {
            id: u.id,
            name: u.name,
            cells: if ci >= 0 {
                u.cells.update(ci, (pid, c1))
            } else {
                u.cells.push((pid, c1))
            },
        }
    }
}

/// The whole store after one submission is merged: the user record is
/// created on first sight (even for a transient verdict), the problem id
/// joins the universe, and the watermark absorbs the timestamp.
pub open spec fn merge_one(s: StoreView, sub: Submission) -> StoreView {
    let ui = index_of_key(s.users, user_key(), sub.user_id);
    let u0 = if ui >= 0 {
        s.users[ui]
    } else {
        UserView::blank(sub.user_id)
    };
    let u1 = user_after(u0, sub.problem_id, spec_collapse(sub.verdict));
    StoreView {
        users: if ui >= 0 {
            s.users.update(ui, u1)
        } else {
            s.users.push(u1)
        },
        problem_universe: if s.problem_universe.contains(sub.problem_id) {
            s.problem_universe
        } else {
            s.problem_universe.push(sub.problem_id)
        },
        watermark: if sub.created_at > s.watermark {
            sub.created_at
        } else {
            s.watermark
        },
    }
}

/// Submissions merged left to right.
pub open spec fn merge_seq(s: StoreView, subs: Seq<Submission>) -> StoreView
    decreases subs.len(),
{
    if subs.len() == 0 {
        s
    } else {
        merge_seq(merge_one(s, subs.first()), subs.drop_first())
    }
}

/// What one sync batch does to the store: everything at or before the
/// current watermark is discarded (the deduplication mechanism), the rest
/// is merged in order.
pub open spec fn merge_batch_spec(s: StoreView, subs: Seq<Submission>) -> StoreView {
    merge_seq(s, subs.filter(|x: Submission| x.created_at > s.watermark))
}

/// Applying one submission to a well-formed user keeps it well formed and
/// touches neither id nor name.
pub proof fn lemma_user_after_wf(u: UserView, pid: u32, v: CollapsedVerdict)
    requires
        u.wf(),
    ensures
        user_after(u, pid, v).wf(),
        user_after(u, pid, v).id == u.id,
        user_after(u, pid, v).name == u.name,
{
    if v != CollapsedVerdict::Pending {
        let ci = index_of_key(u.cells, cell_key(), pid);
        lemma_index_of_key(u.cells, cell_key(), pid);
        let cells1 = user_after(u, pid, v).cells;
        if ci >= 0 {
            assert(forall|m: int| 0 <= m < cells1.len() ==> (#[trigger] cells1[m]).0 == u.cells[m].0);
        } else {
            assert(forall|m: int| 0 <= m < u.cells.len() ==> (#[trigger] u.cells[m]).0 != pid);
        }
    }
}

/// Merging one submission into a well-formed store keeps it well formed.
pub proof fn lemma_merge_one_wf(s: StoreView, sub: Submission)
    requires
        s.wf(),
    ensures
        merge_one(s, sub).wf(),
{
    let ui = index_of_key(s.users, user_key(), sub.user_id);
    lemma_index_of_key(s.users, user_key(), sub.user_id);
    let u0 = if ui >= 0 {
        s.users[ui]
    } else {
        UserView::blank(sub.user_id)
    };
    assert(u0.wf());
    lemma_user_after_wf(u0, sub.problem_id, spec_collapse(sub.verdict));
    let s1 = merge_one(s, sub);
    if ui >= 0 {
        assert(forall|m: int| 0 <= m < s1.users.len() ==> (#[trigger] s1.users[m]).id == s.users[m].id);
    } else {
        assert(forall|m: int| 0 <= m < s.users.len() ==> (#[trigger] s.users[m]).id != sub.user_id);
    }
    if !s.problem_universe.contains(sub.problem_id) {
        assert(forall|m: int|
            0 <= m < s.problem_universe.len() ==> #[trigger] s.problem_universe[m]
                != sub.problem_id);
    }
}

/// Folding one more submission onto the right of a batch.
pub proof fn lemma_merge_seq_push(s: StoreView, subs: Seq<Submission>, sub: Submission)
    ensures
        merge_seq(s, subs.push(sub)) == merge_one(merge_seq(s, subs), sub),
    decreases subs.len(),
{
    let one = subs.push(sub);
    if subs.len() == 0 {
        assert(one.first() == sub);
        assert(one.drop_first() =~= Seq::<Submission>::empty());
        assert(merge_seq(s, one) == merge_seq(merge_one(s, sub), one.drop_first()));
        assert(merge_seq(merge_one(s, sub), one.drop_first()) == merge_one(s, sub));
        assert(merge_seq(s, subs) == s);
    } else {
        assert(one.first() == subs.first());
        assert(one.drop_first() =~= subs.drop_first().push(sub));
        assert(merge_seq(s, one) == merge_seq(merge_one(s, one.first()), one.drop_first()));
        lemma_merge_seq_push(merge_one(s, subs.first()), subs.drop_first(), sub);
    }
}

/// For a batch sorted by time, discarding everything at or before the
/// watermark leaves exactly the suffix that starts at the partition point.
pub proof fn lemma_filter_is_suffix(subs: Seq<Submission>, w: u64, k: int)
    requires
        0 <= k <= subs.len(),
        forall|i: int| 0 <= i < k ==> (#[trigger] subs[i]).created_at <= w,
        forall|i: int| k <= i < subs.len() ==> (#[trigger] subs[i]).created_at > w,
    ensures
        subs.filter(|x: Submission| x.created_at > w) == subs.subrange(k, subs.len() as int),
{
    let pred = |x: Submission| x.created_at > w;
    let pre = subs.subrange(0, k);
    let suf = subs.subrange(k, subs.len() as int);
    assert(subs =~= pre + suf);
    Seq::filter_distributes_over_add(pre, suf, pred);
    assert(pre.all(|x: Submission| !pred(x)));
    pre.lemma_all_neg_filter_empty(pred);
    assert(pre.filter(pred) =~= Seq::<Submission>::empty());
    lemma_filter_all_pos(suf, pred);
    assert(subs.filter(pred) =~= suf);
}

/// A sequence whose every element satisfies the predicate filters to
/// itself.
pub proof fn lemma_filter_all_pos(s: Seq<Submission>, pred: spec_fn(Submission) -> bool)
    requires
        forall|i: int| 0 <= i < s.len() ==> pred(#[trigger] s[i]),
    ensures
        s.filter(pred) == s,
    decreases s.len(),
{
    reveal(Seq::filter);
    if s.len() > 0 {
        lemma_filter_all_pos(s.drop_last(), pred);
        assert(pred(s[s.len() - 1]));
        assert(s.filter(pred) == s.drop_last().filter(pred).push(s.last()));
        assert(s.drop_last().push(s.last()) =~= s);
    }
}

/// Executable form of the one-cell merge rule.
pub fn cell_step(c: ProblemCell, v: CollapsedVerdict) -> (r: ProblemCell)
    ensures
        r == cell_after(c, v),
{
    match v {
        CollapsedVerdict::Accepted => ProblemCell {
            status: SolveStatus::Accepted,
            wa_count: c.wa_count,
        },
        CollapsedVerdict::Rejected => {
            if c.status == SolveStatus::Accepted {
                c
            } else {
                let wa = if c.wa_count < u64::MAX {
                    c.wa_count + 1
                } else {
                    c.wa_count
                };
                ProblemCell { status: SolveStatus::WrongAnswer, wa_count: wa }
            }
        },
        CollapsedVerdict::Pending => c,
    }
}

impl UserRecord {
    /// A contestant seen for the first time: empty name, no cells.
    pub fn blank(uid: u32) -> (r: UserRecord)
        ensures
            r@ == UserView::blank(uid),
    {
        let r = UserRecord { id: uid, name: String::new(), problems: Vec::new() };
        proof {
            assert(r@.name =~= Seq::<char>::empty());
            assert(r@.cells =~= Seq::<(u32, ProblemCell)>::empty());
        }
        r
    }

    /// Applies one collapsed verdict for `pid` to this record.
    #[verifier::loop_isolation(false)]
    pub fn apply_verdict(&mut self, pid: u32, v: CollapsedVerdict)
        requires
            old(self)@.wf(),
        ensures
            final(self)@ == user_after(old(self)@, pid, v),
            final(self)@.wf(),
    {
        proof {
            lemma_user_after_wf(old(self)@, pid, v);
            lemma_index_of_key(old(self)@.cells, cell_key(), pid);
        }
        if matches!(v, CollapsedVerdict::Pending) {
            return ;
        }
        let ghost ci = index_of_key(self@.cells, cell_key(), pid);
        let n = self.problems.len();
        let mut i: usize = 0;
        while i < n
            invariant
                n == self.problems.len(),
                *self == *old(self),
                i <= n,
                forall|j: int| 0 <= j < i ==> (#[trigger] self.problems@[j]).0 != pid,
            decreases n - i,
        {
            if self.problems[i].0 == pid {
                proof {
                    assert(ci >= 0);
                    assert(ci <= i);
                    assert(i <= ci);
                }
                let c1 = cell_step(self.problems[i].1, v);
                self.problems.set(i, (pid, c1));
                return ;
            }
            i += 1;
        }
        proof {
            assert(ci == -1);
        }
        let c1 = cell_step(ProblemCell { status: SolveStatus::NotSubmitted, wa_count: 0 }, v);
        self.problems.push((pid, c1));
    }
}

impl Scoreboard {
    /// A store with nothing merged: no users, no problems, watermark at the
    /// epoch.
    pub fn new() -> (r: Scoreboard)
        ensures
            r@ == StoreView::empty(),
            r@.wf(),
    {
        let r = Scoreboard { users: Vec::new(), problem_universe: Vec::new(), watermark: 0 };
        proof {
            assert(r@.users =~= Seq::<UserView>::empty());
            assert(r@.problem_universe =~= Seq::<u32>::empty());
        }
        r
    }

    /// Merges one submission.
    #[verifier::loop_isolation(false)]
    fn merge_single(&mut self, sub: &Submission)
        requires
            old(self)@.wf(),
        ensures
            final(self)@ == merge_one(old(self)@, *sub),
            final(self)@.wf(),
    {
        proof {
            lemma_merge_one_wf(old(self)@, *sub);
            lemma_index_of_key(old(self)@.users, user_key(), sub.user_id);
        }
        if !contains_u32(&self.problem_universe, sub.problem_id) {
            self.problem_universe.push(sub.problem_id);
        }
        if sub.created_at > self.watermark {
            self.watermark = sub.created_at;
        }
        let v = sub.verdict.collapse();
        let ghost ui = index_of_key(old(self)@.users, user_key(), sub.user_id);
        let n = self.users.len();
        let mut i: usize = 0;
        while i < n
            invariant
                n == self.users.len(),
                self.users == old(self).users,
                self.problem_universe@ == merge_one(old(self)@, *sub).problem_universe,
                self.watermark == merge_one(old(self)@, *sub).watermark,
                i <= n,
                forall|j: int| 0 <= j < i ==> (#[trigger] self.users@[j]).id != sub.user_id,
            decreases n - i,
        {
            if self.users[i].id == sub.user_id {
                proof {
                    assert(forall|j: int|
                        0 <= j < self.users@.len() ==> #[trigger] old(self)@.users[j]
                            == self.users@[j]@);
                    assert(user_key()(old(self)@.users[i as int]) == sub.user_id);
                    assert(forall|j: int|
                        0 <= j < i ==> user_key()(#[trigger] old(self)@.users[j]) != sub.user_id);
                    assert(ui == i);
                    assert(self.users@[i as int]@ == old(self)@.users[i as int]);
                }
                self.users[i].apply_verdict(sub.problem_id, v);
                proof {
                    assert(self@.users =~= merge_one(old(self)@, *sub).users);
                    assert(self@.problem_universe =~= merge_one(old(self)@, *sub).problem_universe);
                    assert(self@ =~= merge_one(old(self)@, *sub));
                }
                return ;
            }
            i += 1;
        }
        proof {
            assert(forall|j: int|
                0 <= j < self.users@.len() ==> #[trigger] old(self)@.users[j] == self.users@[j]@);
            assert(forall|j: int|
                0 <= j < self.users@.len() ==> user_key()(#[trigger] old(self)@.users[j])
                    != sub.user_id);
            assert(ui == -1);
        }
        let mut u = UserRecord::blank(sub.user_id);
        u.apply_verdict(sub.problem_id, v);
        self.users.push(u);
        proof {
            assert(self@.users =~= merge_one(old(self)@, *sub).users);
            assert(self@.problem_universe =~= merge_one(old(self)@, *sub).problem_universe);
            assert(self@ =~= merge_one(old(self)@, *sub));
        }
    }
}

/// How often the cells of `probs` (taken in order) are accepted for `u`.
pub open spec fn spec_ac_count(u: UserView, probs: Seq<u32>) -> nat
    decreases probs.len(),
{
    if probs.len() == 0 {
        0
    } else {
        spec_ac_count(u, probs.drop_last()) + (if u.cell(probs.last()).status
            == SolveStatus::Accepted {
            1nat
        } else {
            0nat
        })
    }
}

impl UserRecord {
    /// This record's cell for `pid`; the blank cell if none was recorded.
    #[verifier::loop_isolation(false)]
    pub fn cell_lookup(&self, pid: u32) -> (r: ProblemCell)
        ensures
            r == self@.cell(pid),
    {
        proof {
            lemma_index_of_key(self@.cells, cell_key(), pid);
        }
        let n = self.problems.len();
        let mut i: usize = 0;
        while i < n
            invariant
                i <= n,
                forall|j: int| 0 <= j < i ==> (#[trigger] self.problems@[j]).0 != pid,
            decreases n - i,
        {
            if self.problems[i].0 == pid {
                return self.problems[i].1;
            }
            i += 1;
        }
        ProblemCell { status: SolveStatus::NotSubmitted, wa_count: 0 }
    }

    /// How many of the listed problems this contestant has solved.
    #[verifier::loop_isolation(false)]
    pub fn ac_count(&self, problems: &Vec<u32>) -> (r: usize)
        ensures
            r == spec_ac_count(self@, problems@),
    {
        let n = problems.len();
        let mut count: usize = 0;
        let mut i: usize = 0;
        while i < n
            invariant
                i <= n,
                count <= i,
                count == spec_ac_count(self@, problems@.subrange(0, i as int)),
            decreases n - i,
        {
            let c = self.cell_lookup(problems[i]);
            proof {
                assert(problems@.subrange(0, i + 1).drop_last() =~= problems@.subrange(0, i as int));
                assert(problems@.subrange(0, i + 1).last() == problems@[i as int]);
            }
            if matches!(c.status, SolveStatus::Accepted) {
                count += 1;
            }
            i += 1;
        }
        proof {
            assert(problems@.subrange(0, n as int) =~= problems@);
        }
        count
    }
}

impl Scoreboard {
    /// Merges one sorted batch: everything at or before the watermark is
    /// discarded (found with a binary search over the sorted batch), the
    /// rest is applied in order and the watermark absorbs the newest
    /// timestamp seen.
    #[verifier::loop_isolation(false)]
    pub fn save_submissions(&mut self, subs: &Vec<Submission>)
        requires
            old(self)@.wf(),
            sorted_by_time(subs@),
        ensures
            final(self)@ == merge_batch_spec(old(self)@, subs@),
            final(self)@.wf(),
    {
        let n = subs.len();
        let mut lo: usize = 0;
        let mut hi: usize = n;
        while lo < hi
            invariant
                lo <= hi <= n,
                forall|j: int| 0 <= j < lo ==> (#[trigger] subs@[j]).created_at <= self.watermark,
                forall|j: int| hi <= j < n ==> (#[trigger] subs@[j]).created_at > self.watermark,
            decreases hi - lo,
        {
            let mid = lo + (hi - lo) / 2;
            if subs[mid].created_at > self.watermark {
                proof {
                    assert(forall|j: int|
                        mid <= j < n ==> sub_le(subs@[mid as int], #[trigger] subs@[j]));
                }
                hi = mid;
            } else {
                proof {
                    assert(forall|j: int|
                        0 <= j <= mid ==> sub_le(#[trigger] subs@[j], subs@[mid as int]));
                }
                lo = mid + 1;
            }
        }
        let ghost start = lo as int;
        proof {
            lemma_filter_is_suffix(subs@, self.watermark, start);
            assert(subs@.subrange(start, start) =~= Seq::<Submission>::empty());
        }
        let mut i: usize = lo;
        while i < n
            invariant
                lo <= i <= n,
                self@.wf(),
                self@ == merge_seq(old(self)@, subs@.subrange(start, i as int)),
            decreases n - i,
        {
            proof {
                lemma_merge_seq_push(
                    old(self)@,
                    subs@.subrange(start, i as int),
                    subs@[i as int],
                );
                assert(subs@.subrange(start, i + 1) =~= subs@.subrange(start, i as int).push(
                    subs@[i as int],
                ));
            }
            self.merge_single(&subs[i]);
            i += 1;
        }
    }
}

impl Default for Scoreboard {
    fn default() -> (r: Self)
        ensures
            r@ == StoreView::empty(),
            r@.wf(),
    {
        Scoreboard::new()
    }
}

/// Executable form of the merge order.
pub fn sub_le_exec(a: &Submission, b: &Submission) -> (r: bool)
    ensures
        r == sub_le(*a, *b),
{
    a.created_at < b.created_at || (a.created_at == b.created_at && a.id <= b.id)
}

/// Sorts a fetched batch into merge order: ascending creation time, ties
/// broken by ascending submission id.  The result holds exactly the same
/// submissions.
#[verifier::loop_isolation(false)]
pub fn sort_submissions(subs: &mut Vec<Submission>)
    ensures
        sorted_by_time(final(subs)@),
        final(subs)@.to_multiset() == old(subs)@.to_multiset(),
{
    broadcast use vstd::seq_lib::group_to_multiset_ensures;

    let n = subs.len();
    let mut out: Vec<Submission> = Vec::new();
    let mut i: usize = 0;
    while i < n
        invariant
            i <= n,
            *subs == *old(subs),
            out@.len() == i,
            sorted_by_time(out@),
            out@.to_multiset() == subs@.subrange(0, i as int).to_multiset(),
        decreases n - i,
    {
        let x = subs[i];
        let m = out.len();
        let mut pos: usize = 0;
        while pos < m && sub_le_exec(&out[pos], &x)
            invariant
                pos <= m,
                m == out@.len(),
                forall|j: int| 0 <= j < pos ==> sub_le(#[trigger] out@[j], x),
            decreases m - pos,
        {
            pos += 1;
        }
        proof {
            if pos < m {
                assert(!sub_le(out@[pos as int], x));
                assert(sub_le(x, out@[pos as int]));
            }
            assert(forall|j: int| pos <= j < m ==> sub_le(x, #[trigger] out@[j])) by {
                assert forall|j: int| pos <= j < m implies sub_le(x, #[trigger] out@[j]) by {
                    if j > pos {
                        assert(sub_le(out@[pos as int], out@[j]));
                    }
                }
            }
            lemma_insert_multiset(out@, pos as int, x);
            assert(subs@.subrange(0, i + 1) =~= subs@.subrange(0, i as int).push(x));
        }
        out.insert(pos, x);
        proof {
            assert(sorted_by_time(out@));
        }
        i += 1;
    }
    proof {
        assert(subs@.subrange(0, n as int) =~= subs@);
    }
    *subs = out;
}

/// Whether a plain vector of ids contains `x`.
#[verifier::loop_isolation(false)]
pub fn contains_u32(v: &Vec<u32>, x: u32) -> (r: bool)
    ensures
        r == v@.contains(x),
{
    let n = v.len();
    let mut i: usize = 0;
    while i < n
        invariant
            n == v.len(),
            i <= n,
            forall|j: int| 0 <= j < i ==> v@[j] != x,
        decreases n - i,
    {
        if v[i] == x {
            return true;
        }
        i += 1;
    }
    false
}

} // verus!
