//! The table projector: turns the aggregate store and a problem selection
//! into a renderer-agnostic grid of display strings with semantic tags.
//! The renderer owns colors and layout; this module only decides content,
//! order and intent.

use vstd::prelude::*;
use crate::meta::ListType;
use crate::scoreboard::{
    contains_u32, sat_inc, spec_ac_count, ProblemCell, Scoreboard, SolveStatus, StoreView,
    UserRecord, UserView, user_key,
};
use crate::seq_util::{index_of_key, lemma_index_of_key, lemma_insert_multiset};

verus! {

/// Styling intent of one grid cell; the renderer maps it to an actual
/// style.
#[derive(Clone, Copy, Debug, PartialEq, Eq, Structural)]
pub enum CellTag {
    Plain,
    Positive,
    Negative,
    Muted,
}

/// One displayable cell: its text and its styling intent.
#[derive(Clone, Debug, PartialEq, Eq)]
pub struct GridCell {
    pub text: String,
    pub tag: CellTag,
}

/// One contestant's row: who it is, the display name, and one cell per
/// effective problem.
#[derive(Clone, Debug, PartialEq, Eq)]
pub struct GridRow {
    pub user_id: u32,
    pub name: String,
    pub cells: Vec<GridCell>,
}

/// The projector's output: a header of problem labels, the data rows, and
/// the watermark formatted as date and time for the metadata row.
#[derive(Clone, Debug, PartialEq, Eq)]
pub struct Grid {
    pub header: Vec<String>,
    pub rows: Vec<GridRow>,
    pub updated_at: String,
}

/// The decimal digit character for `d`.
pub open spec fn spec_digit(d: int) -> char {
    if d == 0 {
        '0'
    } else if d == 1 {
        '1'
    } else if d == 2 {
        '2'
    } else if d == 3 {
        '3'
    } else if d == 4 {
        '4'
    } else if d == 5 {
        '5'
    } else if d == 6 {
        '6'
    } else if d == 7 {
        '7'
    } else if d == 8 {
        '8'
    } else {
        '9'
    }
}

/// The decimal digits of `n`, most significant first.
pub open spec fn dec_str(n: nat) -> Seq<char>
    decreases n,
{
    if n < 10 {
        seq![spec_digit(n as int)]
    } else {
        dec_str(n / 10).push(spec_digit((n % 10) as int))
    }
}

/// One decimal digit as a string slice.
fn digit_str(d: u64) -> (r: &'static str)
    requires
        d < 10,
    ensures
        r@ == seq![spec_digit(d as int)],
{
    proof {
        reveal_strlit("0");
        reveal_strlit("1");
        reveal_strlit("2");
        reveal_strlit("3");
        reveal_strlit("4");
        reveal_strlit("5");
        reveal_strlit("6");
        reveal_strlit("7");
        reveal_strlit("8");
        reveal_strlit("9");
    }
    let r = match d {
        0 => "0",
        1 => "1",
        2 => "2",
        3 => "3",
        4 => "4",
        5 => "5",
        6 => "6",
        7 => "7",
        8 => "8",
        _ => "9",
    };
    proof {
        assert(r@ =~= seq![spec_digit(d as int)]);
    }
    r
}

/// Renders `n` in decimal.
pub fn u64_to_string(n: u64) -> (s: String)
    ensures
        s@ == dec_str(n as nat),
    decreases n,
{
    if n < 10 {
        String::from_str(digit_str(n))
    } else {
        let mut s = u64_to_string(n / 10);
        s.append(digit_str(n % 10));
        proof {
            assert(s@ =~= dec_str(n as nat));
        }
        s
    }
}

/// What a cell displays.  An accepted cell shows how many attempts it
/// took (the rejections plus the accepted one — the count saturates at
/// the largest representable value), a rejected cell its rejection count,
/// an untouched cell the not-submitted marker.
pub open spec fn cell_text_spec(c: ProblemCell) -> Seq<char> {
    match c.status {
        SolveStatus::Accepted => seq!['A', 'C', ' ', '/', ' '] + dec_str(sat_inc(c.wa_count) as nat),
        SolveStatus::WrongAnswer => seq!['W', 'A', ' ', '/', ' '] + dec_str(c.wa_count as nat),
        SolveStatus::NotSubmitted => seq!['N', 'S'],
    }
}

/// The styling intent of a cell: solved is positive, failed negative,
/// untouched muted.
pub open spec fn cell_tag_spec(c: ProblemCell) -> CellTag {
    match c.status {
        SolveStatus::Accepted => CellTag::Positive,
        SolveStatus::WrongAnswer => CellTag::Negative,
        SolveStatus::NotSubmitted => CellTag::Muted,
    }
}

/// Renders one cell.
pub fn format_cell(c: ProblemCell) -> (r: GridCell)
    ensures
        r.text@ == cell_text_spec(c),
        r.tag == cell_tag_spec(c),
{
    match c.status {
        SolveStatus::Accepted => {
            let attempts = if c.wa_count < u64::MAX {
                c.wa_count + 1
            } else {
                c.wa_count
            };
            let mut text = String::from_str("AC / ");
            text.append(u64_to_string(attempts).as_str());
            proof {
                reveal_strlit("AC / ");
                assert(text@ =~= cell_text_spec(c));
            }
            GridCell { text, tag: CellTag::Positive }
        },
        SolveStatus::WrongAnswer => {
            let mut text = String::from_str("WA / ");
            text.append(u64_to_string(c.wa_count).as_str());
            proof {
                reveal_strlit("WA / ");
                assert(text@ =~= cell_text_spec(c));
            }
            GridCell { text, tag: CellTag::Negative }
        },
        SolveStatus::NotSubmitted => {
            let text = String::from_str("NS");
            proof {
                reveal_strlit("NS");
                assert(text@ =~= cell_text_spec(c));
            }
            GridCell { text, tag: CellTag::Muted }
        },
    }
}

/// Relies on chrono's `TimeZone::timestamp_opt` and `DateTime::format`:
/// renders a Unix timestamp as date and time in the machine's local time
/// zone.  The text depends on that zone, so nothing is stated of it; a
/// timestamp outside chrono's range yields nothing.
#[verifier::external_body]
fn format_local_timestamp(secs: u64) -> (r: Option<String>) {
    let secs = i64::try_from(secs).ok()?;
    let t = chrono::TimeZone::timestamp_opt(&chrono::Local, secs, 0).single()?;
    Some(t.format("%Y-%m-%d %H:%M:%S").to_string())
}

/// The view of an optional explicit problem list.
pub open spec fn opt_seq(problems: Option<&Vec<u32>>) -> Option<Seq<u32>> {
    match problems {
        Some(ps) => Some(ps@),
        None => None,
    }
}

/// The effective problem list: without an explicit list the whole
/// universe in discovery order; with one, the universe minus the list
/// (deny) or restricted to it (allow), still in discovery order.
pub open spec fn effective_spec(
    universe: Seq<u32>,
    subset: Option<Seq<u32>>,
    mode: ListType,
) -> Seq<u32> {
    match subset {
        None => universe,
        Some(ps) => match mode {
            ListType::BlackList => universe.filter(|p: u32| !ps.contains(p)),
            ListType::WhiteList => universe.filter(|p: u32| ps.contains(p)),
        },
    }
}

/// Whether a contestant's row is shown at all: at least one cell in the
/// effective list has been submitted to.  An all-untouched row is
/// suppressed — a display policy, not a data invariant.
pub open spec fn visible(u: UserView, probs: Seq<u32>) -> bool {
    exists|k: int|
        0 <= k < probs.len() && (#[trigger] u.cell(probs[k])).status != SolveStatus::NotSubmitted
}

/// The contestant shown for `uid`, or a blank one if the store has none.
pub open spec fn user_or_blank(s: StoreView, uid: u32) -> UserView {
    match s.user(uid) {
        Some(u) => u,
        None => UserView::blank(uid),
    }
}

/// Display order: more solved problems first; among equals, the smaller
/// user id first.  A strict total order on distinct ids, making the row
/// order deterministic.
pub open spec fn row_before(s: StoreView, a: u32, b: u32, probs: Seq<u32>) -> bool {
    let ca = spec_ac_count(user_or_blank(s, a), probs);
    let cb = spec_ac_count(user_or_blank(s, b), probs);
    ca > cb || (ca == cb && a < b)
}

/// The ids of the visible contestants, in store order.
pub open spec fn visible_ids(users: Seq<UserView>, probs: Seq<u32>) -> Seq<u32>
    decreases users.len(),
{
    if users.len() == 0 {
        Seq::empty()
    } else {
        let rest = visible_ids(users.drop_last(), probs);
        if visible(users.last(), probs) {
            rest.push(users.last().id)
        } else {
            rest
        }
    }
}

/// Which ids the visible list holds: exactly those borne by a visible
/// user.
proof fn lemma_visible_contains(users: Seq<UserView>, probs: Seq<u32>, uid: u32)
    ensures
        visible_ids(users, probs).contains(uid) <==> exists|j: int|
            0 <= j < users.len() && (#[trigger] users[j]).id == uid && visible(users[j], probs),
    decreases users.len(),
{
    if users.len() > 0 {
        let rest = users.drop_last();
        lemma_visible_contains(rest, probs, uid);
        assert(forall|j: int| 0 <= j < rest.len() ==> #[trigger] rest[j] == users[j]);
        if visible_ids(users, probs).contains(uid) {
            if visible(users.last(), probs) && users.last().id == uid {
                assert((users[users.len() - 1]).id == uid && visible(
                    users[users.len() - 1],
                    probs,
                ));
            } else {
                let a = choose|a: int|
                    0 <= a < visible_ids(users, probs).len() && visible_ids(users, probs)[a]
                        == uid;
                if visible(users.last(), probs) {
                    assert(visible_ids(users, probs) == visible_ids(rest, probs).push(
                        users.last().id,
                    ));
                    assert(a < visible_ids(rest, probs).len());
                    assert(visible_ids(rest, probs)[a] == uid);
                    assert(visible_ids(rest, probs).contains(uid));
                } else {
                    assert(visible_ids(users, probs) == visible_ids(rest, probs));
                }
                let j = choose|j: int|
                    0 <= j < rest.len() && (#[trigger] rest[j]).id == uid && visible(
                        rest[j],
                        probs,
                    );
                assert((users[j]).id == uid && visible(users[j], probs));
            }
        }
        if exists|j: int|
            0 <= j < users.len() && (#[trigger] users[j]).id == uid && visible(users[j], probs) {
            let j = choose|j: int|
                0 <= j < users.len() && (#[trigger] users[j]).id == uid && visible(
                    users[j],
                    probs,
                );
            if j == users.len() - 1 {
                assert(visible(users.last(), probs) && users.last().id == uid);
                assert(visible_ids(users, probs).last() == uid);
                assert(visible_ids(users, probs).contains(uid));
            } else {
                assert(rest[j].id == uid && visible(rest[j], probs));
                assert(visible_ids(rest, probs).contains(uid));
                let a = choose|a: int|
                    0 <= a < visible_ids(rest, probs).len() && visible_ids(rest, probs)[a]
                        == uid;
                assert(visible_ids(users, probs)[a] == uid);
                assert(visible_ids(users, probs).contains(uid));
            }
        }
    }
}

/// With unique user ids the visible list has no duplicates.
proof fn lemma_visible_no_duplicates(users: Seq<UserView>, probs: Seq<u32>)
    requires
        forall|i: int, j: int|
            0 <= i < j < users.len() ==> (#[trigger] users[i]).id != (#[trigger] users[j]).id,
    ensures
        visible_ids(users, probs).no_duplicates(),
    decreases users.len(),
{
    if users.len() > 0 {
        let rest = users.drop_last();
        assert(forall|j: int| 0 <= j < rest.len() ==> #[trigger] rest[j] == users[j]);
        lemma_visible_no_duplicates(rest, probs);
        if visible(users.last(), probs) {
            assert(!visible_ids(rest, probs).contains(users.last().id)) by {
                lemma_visible_contains(rest, probs, users.last().id);
                if visible_ids(rest, probs).contains(users.last().id) {
                    let j = choose|j: int|
                        0 <= j < rest.len() && (#[trigger] rest[j]).id == users.last().id
                            && visible(rest[j], probs);
                    assert(users[j].id != users[users.len() - 1].id);
                }
            }
            let s = visible_ids(rest, probs);
            let x = users.last().id;
            assert(visible_ids(users, probs) == s.push(x));
            assert forall|a: int, b: int|
                0 <= a < b < s.push(x).len() implies s.push(x)[a] != s.push(x)[b] by {
                if b == s.len() {
                    assert(s.push(x)[a] == s[a]);
                    assert(s.contains(s[a]));
                }
            }
            assert(s.push(x).no_duplicates());
        }
    }
}

/// A blank contestant has nothing accepted.
proof fn lemma_blank_ac_zero(uid: u32, probs: Seq<u32>)
    ensures
        spec_ac_count(UserView::blank(uid), probs) == 0,
    decreases probs.len(),
{
    if probs.len() > 0 {
        lemma_blank_ac_zero(uid, probs.drop_last());
        lemma_index_of_key(UserView::blank(uid).cells, crate::scoreboard::cell_key(), probs.last());
    }
}

/// One row's content is right for its user: the user exists and is
/// visible, the name is the user's, and every cell shows that user's
/// state for the problem in that column.
pub open spec fn row_ok(s: StoreView, row: GridRow, probs: Seq<u32>) -> bool {
    let u = user_or_blank(s, row.user_id);
    &&& s.user(row.user_id) is Some
    &&& visible(u, probs)
    &&& row.name@ == u.name
    &&& row.cells@.len() == probs.len()
    &&& forall|c: int|
        0 <= c < probs.len() ==> (#[trigger] row.cells@[c]).text@ == cell_text_spec(
            u.cell(probs[c]),
        ) && row.cells@[c].tag == cell_tag_spec(u.cell(probs[c]))
}

impl Scoreboard {
    /// The store's user record index for `uid`, if any.
    #[verifier::loop_isolation(false)]
    fn find_user(&self, uid: u32) -> (r: Option<usize>)
        ensures
            match r {
                Some(i) => i < self.users@.len() && index_of_key(self@.users, user_key(), uid)
                    == i,
                None => index_of_key(self@.users, user_key(), uid) == -1,
            },
    {
        proof {
            lemma_index_of_key(self@.users, user_key(), uid);
        }
        let n = self.users.len();
        let mut i: usize = 0;
        while i < n
            invariant
                i <= n,
                forall|j: int| 0 <= j < i ==> (#[trigger] self@.users[j]).id != uid,
            decreases n - i,
        {
            proof {
                assert(self@.users[i as int] == self.users@[i as int]@);
            }
            if self.users[i].id == uid {
                return Some(i);
            }
            i += 1;
        }
        None
    }

    /// How many of the listed problems the user `uid` has solved; zero for
    /// an unknown user.
    fn ac_count_of(&self, uid: u32, probs: &Vec<u32>) -> (r: usize)
        ensures
            r == spec_ac_count(user_or_blank(self@, uid), probs@),
    {
        match self.find_user(uid) {
            Some(i) => {
                proof {
                    assert(self@.users[i as int] == self.users@[i as int]@);
                }
                self.users[i].ac_count(probs)
            },
            None => {
                proof {
                    lemma_blank_ac_zero(uid, probs@);
                }
                0
            },
        }
    }

    /// Executable form of the display order.
    fn row_before_exec(&self, a: u32, b: u32, probs: &Vec<u32>) -> (r: bool)
        ensures
            r == row_before(self@, a, b, probs@),
    {
        let ca = self.ac_count_of(a, probs);
        let cb = self.ac_count_of(b, probs);
        ca > cb || (ca == cb && a < b)
    }

    /// The effective problem list for this projection.
    #[verifier::loop_isolation(false)]
    fn effective_list(&self, problems: Option<&Vec<u32>>, mode: ListType) -> (r: Vec<u32>)
        ensures
            r@ == effective_spec(self@.problem_universe, opt_seq(problems), mode),
    {
        match problems {
            None => {
                let n = self.problem_universe.len();
                let mut out: Vec<u32> = Vec::new();
                let mut i: usize = 0;
                while i < n
                    invariant
                        i <= n,
                        out@ == self@.problem_universe.subrange(0, i as int),
                    decreases n - i,
                {
                    out.push(self.problem_universe[i]);
                    proof {
                        assert(out@ =~= self@.problem_universe.subrange(0, i + 1));
                    }
                    i += 1;
                }
                proof {
                    assert(self@.problem_universe.subrange(0, n as int) =~= self@.problem_universe);
                }
                out
            },
            Some(ps) => {
                let ghost pred: spec_fn(u32) -> bool = match mode {
                    ListType::BlackList => |p: u32| !ps@.contains(p),
                    ListType::WhiteList => |p: u32| ps@.contains(p),
                };
                let n = self.problem_universe.len();
                let mut out: Vec<u32> = Vec::new();
                let mut i: usize = 0;
                proof {
                    reveal(Seq::filter);
                    assert(self@.problem_universe.subrange(0, 0) =~= Seq::<u32>::empty());
                }
                while i < n
                    invariant
                        i <= n,
                        out@ == self@.problem_universe.subrange(0, i as int).filter(pred),
                    decreases n - i,
                {
                    let p = self.problem_universe[i];
                    let hit = contains_u32(ps, p);
                    let keep = match mode {
                        ListType::BlackList => !hit,
                        ListType::WhiteList => hit,
                    };
                    proof {
                        reveal(Seq::filter);
                        assert(keep == pred(p));
                        let pre = self@.problem_universe.subrange(0, i as int);
                        assert(self@.problem_universe.subrange(0, i + 1) =~= pre.push(p));
                        assert(pre.push(p).drop_last() =~= pre);
                        assert(pre.push(p).last() == p);
                        assert(pre.push(p).filter(pred) == if pred(p) {
                            pre.filter(pred).push(p)
                        } else {
                            pre.filter(pred)
                        });
                    }
                    if keep {
                        out.push(p);
                    }
                    i += 1;
                }
                proof {
                    assert(self@.problem_universe.subrange(0, n as int) =~= self@.problem_universe);
                }
                out
            },
        }
    }

    /// Projects the store into a grid: a header of problem labels over the
    /// effective list, one row per visible contestant in display order,
    /// and the watermark rendered for the metadata row.
    #[verifier::loop_isolation(false)]
    pub fn gen_table(&self, problems: Option<&Vec<u32>>, mode: ListType) -> (g: Grid)
        requires
            self@.wf(),
        ensures
            ({
                let probs = effective_spec(self@.problem_universe, opt_seq(problems), mode);
                &&& g.header@.len() == probs.len()
                &&& forall|k: int|
                    0 <= k < probs.len() ==> (#[trigger] g.header@[k])@ == dec_str(
                        probs[k] as nat,
                    )
                &&& forall|k: int| 0 <= k < g.rows@.len() ==> row_ok(self@, #[trigger] g.rows@[k], probs)
                &&& forall|a: int, b: int|
                    0 <= a < b < g.rows@.len() ==> row_before(
                        self@,
                        g.rows@[a].user_id,
                        g.rows@[b].user_id,
                        probs,
                    )
                &&& forall|uid: u32|
                    (#[trigger] self@.user(uid) matches Some(u) && visible(u, probs))
                        ==> exists|k: int|
                        0 <= k < g.rows@.len() && (#[trigger] g.rows@[k]).user_id == uid
            }),
    {
        broadcast use vstd::seq_lib::group_to_multiset_ensures;

        let probs = self.effective_list(problems, mode);
        // Header: the effective problem ids as decimal labels.
        let mut header: Vec<String> = Vec::new();
        let mut h: usize = 0;
        while h < probs.len()
            invariant
                h <= probs@.len(),
                header@.len() == h,
                forall|k: int|
                    0 <= k < h ==> (#[trigger] header@[k])@ == dec_str(probs@[k] as nat),
            decreases probs@.len() - h,
        {
            header.push(u64_to_string(probs[h] as u64));
            h += 1;
        }
        // Collect the visible contestants in store order.
        let n = self.users.len();
        let mut ids: Vec<u32> = Vec::new();
        let mut i: usize = 0;
        proof {
            assert(self@.users.subrange(0, 0) =~= Seq::<UserView>::empty());
        }
        while i < n
            invariant
                i <= n,
                ids@ == visible_ids(self@.users.subrange(0, i as int), probs@),
            decreases n - i,
        {
            proof {
                assert(self@.users[i as int] == self.users@[i as int]@);
                assert(self@.users.subrange(0, i + 1).drop_last() =~= self@.users.subrange(
                    0,
                    i as int,
                ));
                assert(self@.users.subrange(0, i + 1).last() == self@.users[i as int]);
            }
            if is_visible(&self.users[i], &probs) {
                ids.push(self.users[i].id);
            }
            i += 1;
        }
        proof {
            assert(self@.users.subrange(0, n as int) =~= self@.users);
            lemma_visible_no_duplicates(self@.users, probs@);
            ids@.lemma_multiset_has_no_duplicates();
        }
        // Sort the visible contestants into display order.
        let mut order: Vec<u32> = Vec::new();
        let m = ids.len();
        let mut k: usize = 0;
        while k < m
            invariant
                k <= m,
                order@.len() == k,
                order@.to_multiset() == ids@.subrange(0, k as int).to_multiset(),
                forall|a: int, b: int|
                    0 <= a < b < order@.len() ==> row_before(
                        self@,
                        order@[a],
                        order@[b],
                        probs@,
                    ),
            decreases m - k,
        {
            let x = ids[k];
            proof {
                assert(!order@.contains(x)) by {
                    if order@.contains(x) {
                        assert(order@.to_multiset().count(x) > 0);
                        assert(ids@.subrange(0, k as int).to_multiset().count(x) > 0);
                        assert(ids@.subrange(0, k as int).contains(x));
                        let j = choose|j: int| 0 <= j < k && ids@.subrange(0, k as int)[j] == x;
                        assert(ids@[j] == ids@[k as int]);
                    }
                }
            }
            let mut pos: usize = 0;
            while pos < order.len() && self.row_before_exec(order[pos], x, &probs)
                invariant
                    pos <= order@.len(),
                    forall|j: int| 0 <= j < pos ==> row_before(self@, #[trigger] order@[j], x, probs@),
                decreases order@.len() - pos,
            {
                pos += 1;
            }
            proof {
                if pos < order@.len() {
                    assert(!row_before(self@, order@[pos as int], x, probs@));
                    assert(order@[pos as int] != x);
                    assert(row_before(self@, x, order@[pos as int], probs@));
                }
                assert forall|j: int| pos <= j < order@.len() implies row_before(
                    self@,
                    x,
                    #[trigger] order@[j],
                    probs@,
                ) by {
                    if j > pos {
                        assert(row_before(self@, order@[pos as int], order@[j], probs@));
                    }
                }
                lemma_insert_multiset(order@, pos as int, x);
                assert(ids@.subrange(0, k + 1) =~= ids@.subrange(0, k as int).push(x));
            }
            order.insert(pos, x);
            k += 1;
        }
        proof {
            assert(ids@.subrange(0, m as int) =~= ids@);
            assert forall|uid: u32| ids@.contains(uid) <==> order@.contains(uid) by {
                assert(ids@.to_multiset().count(uid) == order@.to_multiset().count(uid));
            }
        }
        // Build the rows.
        let mut rows: Vec<GridRow> = Vec::new();
        let mut r: usize = 0;
        while r < order.len()
            invariant
                r <= order@.len(),
                rows@.len() == r,
                forall|a: int, b: int|
                    0 <= a < b < order@.len() ==> row_before(
                        self@,
                        order@[a],
                        order@[b],
                        probs@,
                    ),
                forall|uid: u32| ids@.contains(uid) <==> order@.contains(uid),
                forall|k2: int|
                    0 <= k2 < r ==> (#[trigger] rows@[k2]).user_id == order@[k2] && row_ok(
                        self@,
                        rows@[k2],
                        probs@,
                    ),
            decreases order@.len() - r,
        {
            let uid = order[r];
            proof {
                assert(order@.contains(uid));
                assert(ids@.contains(uid));
                lemma_visible_contains(self@.users, probs@, uid);
                let j = choose|j: int|
                    0 <= j < self@.users.len() && (#[trigger] self@.users[j]).id == uid
                        && visible(self@.users[j], probs@);
                lemma_index_of_key(self@.users, user_key(), uid);
                assert(index_of_key(self@.users, user_key(), uid) >= 0);
            }
            let ui = match self.find_user(uid) {
                Some(ui) => ui,
                None => {
                    proof {
                        assert(false);
                    }
                    0
                },
            };
            proof {
                assert(self@.users[ui as int] == self.users@[ui as int]@);
                assert(self@.user(uid) == Some(self@.users[ui as int]));
                // The store's record for uid is the visible one found above.
                let j = choose|j: int|
                    0 <= j < self@.users.len() && (#[trigger] self@.users[j]).id == uid
                        && visible(self@.users[j], probs@);
                if j != ui as int {
                    assert(self@.users[j].id != self@.users[ui as int].id);
                }
                assert(visible(self@.users[ui as int], probs@));
            }
            let user = &self.users[ui];
            let mut cells: Vec<GridCell> = Vec::new();
            let mut c: usize = 0;
            while c < probs.len()
                invariant
                    c <= probs@.len(),
                    cells@.len() == c,
                    forall|c2: int|
                        0 <= c2 < c ==> (#[trigger] cells@[c2]).text@ == cell_text_spec(
                            user@.cell(probs@[c2]),
                        ) && cells@[c2].tag == cell_tag_spec(user@.cell(probs@[c2])),
                decreases probs@.len() - c,
            {
                cells.push(format_cell(user.cell_lookup(probs[c])));
                c += 1;
            }
            let row = GridRow { user_id: user.id, name: user.name.clone(), cells };
            proof {
                assert(row.user_id == uid);
                assert(user_or_blank(self@, uid) == self@.users[ui as int]);
                assert(row_ok(self@, row, probs@));
            }
            rows.push(row);
            r += 1;
        }
        let updated_at = match format_local_timestamp(self.watermark) {
            Some(s) => s,
            None => String::new(),
        };
        let g = Grid { header, rows, updated_at };
        proof {
            assert forall|uid: u32|
                (#[trigger] self@.user(uid) matches Some(u) && visible(u, probs@))
                    implies exists|k2: int|
                    0 <= k2 < g.rows@.len() && (#[trigger] g.rows@[k2]).user_id == uid by {
                let ui = index_of_key(self@.users, user_key(), uid);
                lemma_index_of_key(self@.users, user_key(), uid);
                assert(ui >= 0);
                assert(self@.users[ui].id == uid && visible(self@.users[ui], probs@));
                lemma_visible_contains(self@.users, probs@, uid);
                assert(ids@.contains(uid));
                assert(order@.contains(uid));
                let k2 = choose|k2: int| 0 <= k2 < order@.len() && order@[k2] == uid;
                assert(g.rows@[k2].user_id == uid);
            }
        }
        g
    }
}

/// Whether this contestant has at least one submitted cell among the
/// listed problems.
#[verifier::loop_isolation(false)]
fn is_visible(u: &UserRecord, probs: &Vec<u32>) -> (r: bool)
    ensures
        r == visible(u@, probs@),
{
    let n = probs.len();
    let mut k: usize = 0;
    while k < n
        invariant
            k <= n,
            forall|j: int|
                0 <= j < k ==> (#[trigger] u@.cell(probs@[j])).status == SolveStatus::NotSubmitted,
        decreases n - k,
    {
        let c = u.cell_lookup(probs[k]);
        if !matches!(c.status, SolveStatus::NotSubmitted) {
            proof {
                assert(u@.cell(probs@[k as int]).status != SolveStatus::NotSubmitted);
            }
            return true;
        }
        k += 1;
    }
    false
}

} // verus!
