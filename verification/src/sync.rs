//! The decision half of a synchronization cycle.
//!
//! A cycle fetches batches of submissions and resolves missing display
//! names over the network; that outside work happens elsewhere and hands
//! plain values in.  Everything the cycle decides — which batches to merge,
//! that a failed batch must not block the others, which users still need a
//! name, and how resolved names are written back — lives here and is
//! verified.

use vstd::prelude::*;
use crate::scoreboard::{merge_batch_spec, Scoreboard, StoreView, UserView, user_key};
use crate::seq_util::{index_of_key, lemma_index_of_key};
use crate::submission::{sorted_by_time, Submission};

verus! {

/// What can go wrong during a cycle.  Authentication failure is fatal for
/// the cycle; a transport failure spoils only its own batch or name
/// lookup; a codec failure spoils only loading a cache.
#[derive(Clone, Copy, Debug, PartialEq, Eq, Structural)]
pub enum SyncError {
    AuthFailed,
    TransportFailure,
    CodecFailure,
    NameResolutionFailure,
}

/// How a cycle went: how many fetched batches were merged and how many
/// failed in transport (their submissions contribute nothing).
#[derive(Clone, Copy, Debug, PartialEq, Eq, Structural)]
pub struct CycleReport {
    pub batches_merged: usize,
    pub batches_failed: usize,
}

/// The store after every successfully fetched batch is merged, in order;
/// failed batches contribute nothing.
pub open spec fn merge_results_spec(
    s: StoreView,
    rs: Seq<Result<Vec<Submission>, SyncError>>,
) -> StoreView
    decreases rs.len(),
{
    if rs.len() == 0 {
        s
    } else {
        let s1 = match rs.first() {
            Ok(batch) => merge_batch_spec(s, batch@),
            Err(_) => s,
        };
        merge_results_spec(s1, rs.drop_first())
    }
}

/// How many fetch results failed.
pub open spec fn count_failures(rs: Seq<Result<Vec<Submission>, SyncError>>) -> nat
    decreases rs.len(),
{
    if rs.len() == 0 {
        0
    } else {
        (if rs.first() is Err {
            1nat
        } else {
            0nat
        }) + count_failures(rs.drop_first())
    }
}

/// Folding one more fetch result onto the right.
proof fn lemma_merge_results_push(
    s: StoreView,
    rs: Seq<Result<Vec<Submission>, SyncError>>,
    r: Result<Vec<Submission>, SyncError>,
)
    ensures
        merge_results_spec(s, rs.push(r)) == (match r {
            Ok(batch) => merge_batch_spec(merge_results_spec(s, rs), batch@),
            Err(_) => merge_results_spec(s, rs),
        }),
        count_failures(rs.push(r)) == count_failures(rs) + (if r is Err {
            1nat
        } else {
            0nat
        }),
    decreases rs.len(),
{
    let one = rs.push(r);
    if rs.len() == 0 {
        assert(one.first() == r);
        assert(one.drop_first() =~= Seq::<Result<Vec<Submission>, SyncError>>::empty());
        let sr = match r {
            Ok(batch) => merge_batch_spec(s, batch@),
            Err(_) => s,
        };
        assert(merge_results_spec(s, one) == merge_results_spec(sr, one.drop_first()));
        assert(merge_results_spec(sr, one.drop_first()) == sr);
        assert(merge_results_spec(s, rs) == s);
        assert(count_failures(one.drop_first()) == 0);
        assert(count_failures(rs) == 0);
    } else {
        assert(one.first() == rs.first());
        assert(one.drop_first() =~= rs.drop_first().push(r));
        let s1 = match rs.first() {
            Ok(batch) => merge_batch_spec(s, batch@),
            Err(_) => s,
        };
        assert(merge_results_spec(s, one) == merge_results_spec(s1, one.drop_first()));
        assert(merge_results_spec(s, rs) == merge_results_spec(s1, rs.drop_first()));
        assert(count_failures(one) == (if one.first() is Err {
            1nat
        } else {
            0nat
        }) + count_failures(one.drop_first()));
        assert(count_failures(rs) == (if rs.first() is Err {
            1nat
        } else {
            0nat
        }) + count_failures(rs.drop_first()));
        lemma_merge_results_push(s1, rs.drop_first(), r);
    }
}

/// The store after the names of `rs` are written back, in order: an
/// `Ok` name is recorded for its user (if the user exists), a failed
/// lookup changes nothing and the user is retried on a later cycle.
pub open spec fn apply_names_spec(
    s: StoreView,
    rs: Seq<(u32, Result<String, SyncError>)>,
) -> StoreView
    decreases rs.len(),
{
    if rs.len() == 0 {
        s
    } else {
        let s1 = match rs.first().1 {
            Ok(name) => set_name_spec(s, rs.first().0, name@),
            Err(_) => s,
        };
        apply_names_spec(s1, rs.drop_first())
    }
}

/// How many name lookups failed.
pub open spec fn count_name_failures(rs: Seq<(u32, Result<String, SyncError>)>) -> nat
    decreases rs.len(),
{
    if rs.len() == 0 {
        0
    } else {
        (if rs.first().1 is Err {
            1nat
        } else {
            0nat
        }) + count_name_failures(rs.drop_first())
    }
}

/// The store with `uid`'s display name set to `name`; unchanged when no
/// such user exists.
pub open spec fn set_name_spec(s: StoreView, uid: u32, name: Seq<char>) -> StoreView {
    let ui = index_of_key(s.users, user_key(), uid);
    if ui >= 0 {
        StoreView {
            users: s.users.update(
                ui,
                UserView { id: s.users[ui].id, name: name, cells: s.users[ui].cells },
            ),
            problem_universe: s.problem_universe,
            watermark: s.watermark,
        }
    } else {
        s
    }
}

/// Setting a name keeps the store well formed.
pub proof fn lemma_set_name_wf(s: StoreView, uid: u32, name: Seq<char>)
    requires
        s.wf(),
    ensures
        set_name_spec(s, uid, name).wf(),
{
    let ui = index_of_key(s.users, user_key(), uid);
    lemma_index_of_key(s.users, user_key(), uid);
    if ui >= 0 {
        let s1 = set_name_spec(s, uid, name);
        assert(forall|m: int| 0 <= m < s1.users.len() ==> (#[trigger] s1.users[m]).id == s.users[m].id);
        assert(forall|m: int|
            0 <= m < s1.users.len() ==> (#[trigger] s1.users[m]).cells == s.users[m].cells);
    }
}

proof fn lemma_apply_names_push(
    s: StoreView,
    rs: Seq<(u32, Result<String, SyncError>)>,
    r: (u32, Result<String, SyncError>),
)
    ensures
        apply_names_spec(s, rs.push(r)) == (match r.1 {
            Ok(name) => set_name_spec(apply_names_spec(s, rs), r.0, name@),
            Err(_) => apply_names_spec(s, rs),
        }),
        count_name_failures(rs.push(r)) == count_name_failures(rs) + (if r.1 is Err {
            1nat
        } else {
            0nat
        }),
    decreases rs.len(),
{
    let one = rs.push(r);
    if rs.len() == 0 {
        assert(one.first() == r);
        assert(one.drop_first() =~= Seq::<(u32, Result<String, SyncError>)>::empty());
        let sr = match r.1 {
            Ok(name) => set_name_spec(s, r.0, name@),
            Err(_) => s,
        };
        assert(apply_names_spec(s, one) == apply_names_spec(sr, one.drop_first()));
        assert(apply_names_spec(sr, one.drop_first()) == sr);
        assert(apply_names_spec(s, rs) == s);
        assert(count_name_failures(one.drop_first()) == 0);
        assert(count_name_failures(rs) == 0);
    } else {
        assert(one.first() == rs.first());
        assert(one.drop_first() =~= rs.drop_first().push(r));
        let s1 = match rs.first().1 {
            Ok(name) => set_name_spec(s, rs.first().0, name@),
            Err(_) => s,
        };
        assert(apply_names_spec(s, one) == apply_names_spec(s1, one.drop_first()));
        assert(apply_names_spec(s, rs) == apply_names_spec(s1, rs.drop_first()));
        assert(count_name_failures(one) == (if one.first().1 is Err {
            1nat
        } else {
            0nat
        }) + count_name_failures(one.drop_first()));
        assert(count_name_failures(rs) == (if rs.first().1 is Err {
            1nat
        } else {
            0nat
        }) + count_name_failures(rs.drop_first()));
        lemma_apply_names_push(s1, rs.drop_first(), r);
    }
}

/// The ids of the users whose display name is still empty, in the order
/// the users stand in the store.
pub open spec fn needy_ids(users: Seq<UserView>) -> Seq<u32>
    decreases users.len(),
{
    if users.len() == 0 {
        Seq::empty()
    } else {
        let rest = needy_ids(users.drop_last());
        if users.last().name.len() == 0 {
            rest.push(users.last().id)
        } else {
            rest
        }
    }
}

/// Which ids the needy list holds: exactly those borne by a user with an
/// empty name.
proof fn lemma_needy_contains(users: Seq<UserView>, uid: u32)
    ensures
        needy_ids(users).contains(uid) <==> exists|j: int|
            0 <= j < users.len() && (#[trigger] users[j]).id == uid && users[j].name.len() == 0,
    decreases users.len(),
{
    if users.len() > 0 {
        let rest = users.drop_last();
        lemma_needy_contains(rest, uid);
        assert(forall|j: int| 0 <= j < rest.len() ==> #[trigger] rest[j] == users[j]);
        if needy_ids(users).contains(uid) {
            if users.last().name.len() == 0 && users.last().id == uid {
                assert((users[users.len() - 1]).id == uid && users[users.len() - 1].name.len()
                    == 0);
            } else {
                let a = choose|a: int|
                    0 <= a < needy_ids(users).len() && needy_ids(users)[a] == uid;
                if users.last().name.len() == 0 {
                    assert(needy_ids(users) == needy_ids(rest).push(users.last().id));
                    assert(a < needy_ids(rest).len());
                    assert(needy_ids(rest)[a] == uid);
                    assert(needy_ids(rest).contains(uid));
                } else {
                    assert(needy_ids(users) == needy_ids(rest));
                }
                let j = choose|j: int|
                    0 <= j < rest.len() && (#[trigger] rest[j]).id == uid && rest[j].name.len()
                        == 0;
                assert((users[j]).id == uid && users[j].name.len() == 0);
            }
        }
        if exists|j: int|
            0 <= j < users.len() && (#[trigger] users[j]).id == uid && users[j].name.len() == 0 {
            let j = choose|j: int|
                0 <= j < users.len() && (#[trigger] users[j]).id == uid && users[j].name.len()
                    == 0;
            if j == users.len() - 1 {
                assert(users.last().name.len() == 0 && users.last().id == uid);
                assert(needy_ids(users).last() == uid);
                assert(needy_ids(users).contains(uid));
            } else {
                assert(rest[j].id == uid && rest[j].name.len() == 0);
                assert(needy_ids(rest).contains(uid));
                let a = choose|a: int|
                    0 <= a < needy_ids(rest).len() && needy_ids(rest)[a] == uid;
                if users.last().name.len() == 0 {
                    assert(needy_ids(users)[a] == uid);
                } else {
                    assert(needy_ids(users)[a] == uid);
                }
                assert(needy_ids(users).contains(uid));
            }
        }
    }
}

/// With unique user ids the needy list has no duplicates.
proof fn lemma_needy_no_duplicates(users: Seq<UserView>)
    requires
        forall|i: int, j: int|
            0 <= i < j < users.len() ==> (#[trigger] users[i]).id != (#[trigger] users[j]).id,
    ensures
        needy_ids(users).no_duplicates(),
    decreases users.len(),
{
    if users.len() > 0 {
        let rest = users.drop_last();
        assert(forall|j: int| 0 <= j < rest.len() ==> #[trigger] rest[j] == users[j]);
        lemma_needy_no_duplicates(rest);
        if users.last().name.len() == 0 {
            assert(!needy_ids(rest).contains(users.last().id)) by {
                lemma_needy_contains(rest, users.last().id);
                if needy_ids(rest).contains(users.last().id) {
                    let j = choose|j: int|
                        0 <= j < rest.len() && (#[trigger] rest[j]).id == users.last().id
                            && rest[j].name.len() == 0;
                    assert(users[j].id != users[users.len() - 1].id);
                }
            }
            assert(needy_ids(users) == needy_ids(rest).push(users.last().id));
            assert(needy_ids(users).no_duplicates()) by {
                let s = needy_ids(rest);
                let x = users.last().id;
                assert(forall|a: int, b: int|
                    0 <= a < b < s.push(x).len() ==> s.push(x)[a] != s.push(x)[b]) by {
                    assert forall|a: int, b: int|
                        0 <= a < b < s.push(x).len() implies s.push(x)[a] != s.push(x)[b] by {
                        if b == s.len() {
                            assert(s.push(x)[a] == s[a]);
                            assert(s.contains(s[a]));
                        }
                    }
                }
                assert(s.push(x).no_duplicates());
            }
        }
    }
}

impl Scoreboard {
    /// Merges the outcome of a whole fetch fan-out.  Successful batches
    /// are merged in order; a batch whose fetch failed spoils nothing but
    /// itself and is counted in the report (partial-success semantics).
    #[verifier::loop_isolation(false)]
    pub fn apply_fetch_results(&mut self, results: &Vec<Result<Vec<Submission>, SyncError>>) -> (report:
        CycleReport)
        requires
            old(self)@.wf(),
            forall|i: int|
                0 <= i < results@.len() ==> (#[trigger] results@[i] matches Ok(batch)
                    ==> sorted_by_time(batch@)),
        ensures
            final(self)@ == merge_results_spec(old(self)@, results@),
            final(self)@.wf(),
            report.batches_failed == count_failures(results@),
            report.batches_merged + report.batches_failed == results@.len(),
    {
        let n = results.len();
        let mut merged: usize = 0;
        let mut failed: usize = 0;
        let mut i: usize = 0;
        proof {
            assert(results@.subrange(0, 0) =~= Seq::<Result<Vec<Submission>, SyncError>>::empty());
        }
        while i < n
            invariant
                i <= n,
                merged + failed == i,
                self@.wf(),
                self@ == merge_results_spec(old(self)@, results@.subrange(0, i as int)),
                failed == count_failures(results@.subrange(0, i as int)),
            decreases n - i,
        {
            proof {
                lemma_merge_results_push(
                    old(self)@,
                    results@.subrange(0, i as int),
                    results@[i as int],
                );
                assert(results@.subrange(0, i + 1) =~= results@.subrange(0, i as int).push(
                    results@[i as int],
                ));
            }
            match &results[i] {
                Ok(batch) => {
                    self.save_submissions(batch);
                    merged += 1;
                },
                Err(_) => {
                    failed += 1;
                },
            }
            i += 1;
        }
        proof {
            assert(results@.subrange(0, n as int) =~= results@);
        }
        CycleReport { batches_merged: merged, batches_failed: failed }
    }

    /// The users whose display name is still unresolved, in ascending id
    /// order.  Resolution is lazy: a name is fetched at most once per user
    /// and cached; a failure leaves the name empty, so the user shows up
    /// here again on the next cycle.
    #[verifier::loop_isolation(false)]
    pub fn users_needing_names(&self) -> (r: Vec<u32>)
        requires
            self@.wf(),
        ensures
            forall|a: int, b: int| 0 <= a < b < r@.len() ==> r@[a] < r@[b],
            forall|uid: u32|
                r@.contains(uid) <==> (#[trigger] self@.user(uid) matches Some(u)
                    && u.name.len() == 0),
    {
        broadcast use vstd::seq_lib::group_to_multiset_ensures;

        let n = self.users.len();
        let mut ids: Vec<u32> = Vec::new();
        let mut i: usize = 0;
        proof {
            assert(self@.users.subrange(0, 0) =~= Seq::<UserView>::empty());
        }
        while i < n
            invariant
                i <= n,
                ids@ == needy_ids(self@.users.subrange(0, i as int)),
            decreases n - i,
        {
            proof {
                assert(self@.users[i as int] == self.users@[i as int]@);
                assert(self@.users.subrange(0, i + 1).drop_last() =~= self@.users.subrange(
                    0,
                    i as int,
                ));
                assert(self@.users.subrange(0, i + 1).last() == self@.users[i as int]);
            }
            if self.users[i].name.as_str().is_empty() {
                ids.push(self.users[i].id);
            }
            i += 1;
        }
        proof {
            assert(self@.users.subrange(0, n as int) =~= self@.users);
            lemma_needy_no_duplicates(self@.users);
        }
        // Sort ascending; ids are pairwise distinct, so the order is strict.
        let mut out: Vec<u32> = Vec::new();
        let mut k: usize = 0;
        let m = ids.len();
        while k < m
            invariant
                k <= m,
                out@.len() == k,
                forall|a: int, b: int| 0 <= a < b < out@.len() ==> out@[a] <= out@[b],
                out@.to_multiset() == ids@.subrange(0, k as int).to_multiset(),
            decreases m - k,
        {
            let x = ids[k];
            let mut pos: usize = 0;
            while pos < out.len() && out[pos] <= x
                invariant
                    pos <= out@.len(),
                    forall|j: int| 0 <= j < pos ==> out@[j] <= x,
                decreases out@.len() - pos,
            {
                pos += 1;
            }
            proof {
                assert(forall|j: int| pos <= j < out@.len() ==> x <= #[trigger] out@[j]) by {
                    assert forall|j: int| pos <= j < out@.len() implies x <= #[trigger] out@[j] by {
                        if j > pos {
                            assert(out@[pos as int] <= out@[j]);
                        }
                    }
                }
                crate::seq_util::lemma_insert_multiset(out@, pos as int, x);
                assert(ids@.subrange(0, k + 1) =~= ids@.subrange(0, k as int).push(x));
            }
            out.insert(pos, x);
            k += 1;
        }
        proof {
            assert(ids@.subrange(0, m as int) =~= ids@);
            // Same contents, hence the same contains-set.
            assert forall|uid: u32| ids@.contains(uid) <==> out@.contains(uid) by {
                assert(ids@.to_multiset().count(uid) == out@.to_multiset().count(uid));
            }
            // Distinctness carries over through the multiset, making the
            // ascending order strict.
            assert(ids@.no_duplicates());
            ids@.lemma_multiset_has_no_duplicates();
            out@.lemma_multiset_has_no_duplicates_conv();
            assert(out@.no_duplicates());
            // Tie the collected ids to the store's user lookup.
            assert forall|uid: u32|
                out@.contains(uid) <==> (#[trigger] self@.user(uid) matches Some(u)
                    && u.name.len() == 0) by {
                lemma_index_of_key(self@.users, user_key(), uid);
                lemma_needy_contains(self@.users, uid);
                if out@.contains(uid) {
                    let j = choose|j: int|
                        0 <= j < self@.users.len() && (#[trigger] self@.users[j]).id == uid
                            && self@.users[j].name.len() == 0;
                    let ui = index_of_key(self@.users, user_key(), uid);
                    assert(ui >= 0);
                    assert(self@.users[ui].id == uid);
                    if ui != j {
                        assert(self@.users[ui].id != self@.users[j].id);
                    }
                    assert(self@.user(uid) == Some(self@.users[j]));
                } else {
                    if self@.user(uid) matches Some(u) && u.name.len() == 0 {
                        let ui = index_of_key(self@.users, user_key(), uid);
                        assert(self@.users[ui].id == uid && self@.users[ui].name.len() == 0);
                        assert(ids@.contains(uid));
                    }
                }
            }
        }
        out
    }

    /// Records a resolved display name for `uid`.  A name for an unknown
    /// user is ignored.
    #[verifier::loop_isolation(false)]
    pub fn set_user_name(&mut self, uid: u32, name: String)
        requires
            old(self)@.wf(),
        ensures
            final(self)@ == set_name_spec(old(self)@, uid, name@),
            final(self)@.wf(),
    {
        proof {
            lemma_set_name_wf(old(self)@, uid, name@);
            lemma_index_of_key(old(self)@.users, user_key(), uid);
        }
        let n = self.users.len();
        let mut i: usize = 0;
        while i < n
            invariant
                i <= n,
                n == self.users.len(),
                *self == *old(self),
                forall|j: int| 0 <= j < i ==> (#[trigger] self.users@[j]).id != uid,
            decreases n - i,
        {
            if self.users[i].id == uid {
                proof {
                    assert(forall|j: int|
                        0 <= j < self.users@.len() ==> #[trigger] old(self)@.users[j]
                            == self.users@[j]@);
                    assert(user_key()(old(self)@.users[i as int]) == uid);
                    assert(forall|j: int|
                        0 <= j < i ==> user_key()(#[trigger] old(self)@.users[j]) != uid);
                    assert(index_of_key(old(self)@.users, user_key(), uid) == i);
                }
                let record = &mut self.users[i];
                record.name = name;
                proof {
                    assert(self@.users =~= set_name_spec(old(self)@, uid, name@).users);
                    assert(self@ =~= set_name_spec(old(self)@, uid, name@));
                }
                return ;
            }
            i += 1;
        }
        proof {
            assert(forall|j: int|
                0 <= j < self.users@.len() ==> #[trigger] old(self)@.users[j] == self.users@[j]@);
            assert(forall|j: int|
                0 <= j < self.users@.len() ==> user_key()(#[trigger] old(self)@.users[j]) != uid);
            assert(index_of_key(old(self)@.users, user_key(), uid) == -1);
        }
    }

    /// Writes back the outcome of a whole name-resolution fan-out.  A
    /// failed lookup spoils nothing but its own user and is counted; the
    /// user keeps an empty name and is retried next cycle.
    #[verifier::loop_isolation(false)]
    pub fn apply_name_results(&mut self, results: &Vec<(u32, Result<String, SyncError>)>) -> (failed:
        usize)
        requires
            old(self)@.wf(),
        ensures
            final(self)@ == apply_names_spec(old(self)@, results@),
            final(self)@.wf(),
            failed == count_name_failures(results@),
    {
        let n = results.len();
        let mut failed: usize = 0;
        let mut i: usize = 0;
        proof {
            assert(results@.subrange(0, 0) =~= Seq::<(u32, Result<String, SyncError>)>::empty());
        }
        while i < n
            invariant
                i <= n,
                failed <= i,
                self@.wf(),
                self@ == apply_names_spec(old(self)@, results@.subrange(0, i as int)),
                failed == count_name_failures(results@.subrange(0, i as int)),
            decreases n - i,
        {
            proof {
                lemma_apply_names_push(
                    old(self)@,
                    results@.subrange(0, i as int),
                    results@[i as int],
                );
                assert(results@.subrange(0, i + 1) =~= results@.subrange(0, i as int).push(
                    results@[i as int],
                ));
            }
            match &results[i].1 {
                Ok(name) => {
                    let uid = results[i].0;
                    self.set_user_name(uid, name.clone());
                },
                Err(_) => {
                    failed += 1;
                },
            }
            i += 1;
        }
        proof {
            assert(results@.subrange(0, n as int) =~= results@);
        }
        failed
    }
}

} // verus!
