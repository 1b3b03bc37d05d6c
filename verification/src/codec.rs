//! The cache codec: the aggregate store as one little-endian binary blob.
//!
//! Layout: the watermark, then the problem universe (count, then ids),
//! then the users (count, then per user: id, display name as
//! length-prefixed UTF-8, and the cells as count then id/rejections/status
//! triples).  The format is defined by the spec-level encoder below;
//! [`lemma_codec_round_trip`] proves that decoding an encoded store gives
//! the store back, field for field.  Decoding arbitrary bytes either
//! yields a well-formed store or fails recoverably.

use vstd::prelude::*;
use vstd::bytes::{
    spec_u32_from_le_bytes, spec_u32_to_le_bytes, spec_u64_from_le_bytes, spec_u64_to_le_bytes,
    u32_from_le_bytes, u32_to_le_bytes, u64_from_le_bytes, u64_to_le_bytes,
};
use vstd::slice::{slice_index_get, slice_subrange, slice_to_vec};
use vstd::utf8::{decode_utf8, encode_utf8, valid_utf8};
use crate::scoreboard::{ProblemCell, Scoreboard, SolveStatus, StoreView, UserRecord, UserView};

verus! {

/// Failure to decode a cache blob: corrupt, truncated or foreign bytes.
/// The caller's policy is to fall back to an empty store.
#[derive(Clone, Copy, Debug, PartialEq, Eq, Structural)]
pub enum CodecError {
    Malformed,
}

// ---------------------------------------------------------------------
// The encoding, as mathematics.
// ---------------------------------------------------------------------

/// One byte per cell status.
pub open spec fn enc_status(st: SolveStatus) -> Seq<u8> {
    match st {
        SolveStatus::NotSubmitted => seq![0u8],
        SolveStatus::Accepted => seq![1u8],
        SolveStatus::WrongAnswer => seq![2u8],
    }
}

/// One cell: problem id, rejection count, status.
pub open spec fn enc_cell(c: (u32, ProblemCell)) -> Seq<u8> {
    spec_u32_to_le_bytes(c.0) + spec_u64_to_le_bytes(c.1.wa_count) + enc_status(c.1.status)
}

pub open spec fn enc_cells(cells: Seq<(u32, ProblemCell)>) -> Seq<u8>
    decreases cells.len(),
{
    if cells.len() == 0 {
        Seq::empty()
    } else {
        enc_cell(cells.first()) + enc_cells(cells.drop_first())
    }
}

/// A display name: its UTF-8 byte length, then the bytes.
pub open spec fn enc_name(name: Seq<char>) -> Seq<u8> {
    spec_u64_to_le_bytes(encode_utf8(name).len() as u64) + encode_utf8(name)
}

pub open spec fn enc_user(u: UserView) -> Seq<u8> {
    spec_u32_to_le_bytes(u.id) + enc_name(u.name) + spec_u64_to_le_bytes(u.cells.len() as u64)
        + enc_cells(u.cells)
}

pub open spec fn enc_users(users: Seq<UserView>) -> Seq<u8>
    decreases users.len(),
{
    if users.len() == 0 {
        Seq::empty()
    } else {
        enc_user(users.first()) + enc_users(users.drop_first())
    }
}

pub open spec fn enc_probs(ps: Seq<u32>) -> Seq<u8>
    decreases ps.len(),
{
    if ps.len() == 0 {
        Seq::empty()
    } else {
        spec_u32_to_le_bytes(ps.first()) + enc_probs(ps.drop_first())
    }
}

/// The whole store as bytes.
pub open spec fn enc_store(s: StoreView) -> Seq<u8> {
    spec_u64_to_le_bytes(s.watermark) + spec_u64_to_le_bytes(s.problem_universe.len() as u64)
        + enc_probs(s.problem_universe) + spec_u64_to_le_bytes(s.users.len() as u64) + enc_users(
        s.users,
    )
}

/// The machine limits under which the encoding is faithful: every count
/// fits in its length field.  Any store built by this library satisfies
/// them.
pub open spec fn encodable(s: StoreView) -> bool {
    &&& s.problem_universe.len() <= u64::MAX
    &&& s.users.len() <= u64::MAX
    &&& forall|i: int|
        0 <= i < s.users.len() ==> (#[trigger] s.users[i]).cells.len() <= u64::MAX
    &&& forall|i: int|
        0 <= i < s.users.len() ==> encode_utf8((#[trigger] s.users[i]).name).len() <= u64::MAX
}

// ---------------------------------------------------------------------
// The decoding, as mathematics: a position-passing parser.
// ---------------------------------------------------------------------

pub open spec fn dec_u64(b: Seq<u8>, p: int) -> Option<(u64, int)> {
    if 0 <= p && p + 8 <= b.len() {
        Some((spec_u64_from_le_bytes(b.subrange(p, p + 8)), p + 8))
    } else {
        None
    }
}

pub open spec fn dec_u32(b: Seq<u8>, p: int) -> Option<(u32, int)> {
    if 0 <= p && p + 4 <= b.len() {
        Some((spec_u32_from_le_bytes(b.subrange(p, p + 4)), p + 4))
    } else {
        None
    }
}

pub open spec fn dec_status(b: Seq<u8>, p: int) -> Option<(SolveStatus, int)> {
    if 0 <= p && p < b.len() {
        if b[p] == 0 {
            Some((SolveStatus::NotSubmitted, p + 1))
        } else if b[p] == 1 {
            Some((SolveStatus::Accepted, p + 1))
        } else if b[p] == 2 {
            Some((SolveStatus::WrongAnswer, p + 1))
        } else {
            None
        }
    } else {
        None
    }
}

pub open spec fn dec_cell(b: Seq<u8>, p: int) -> Option<((u32, ProblemCell), int)> {
    match dec_u32(b, p) {
        None => None,
        Some((pid, p1)) => match dec_u64(b, p1) {
            None => None,
            Some((wa, p2)) => match dec_status(b, p2) {
                None => None,
                Some((st, p3)) => Some(((pid, ProblemCell { status: st, wa_count: wa }), p3)),
            },
        },
    }
}

pub open spec fn dec_cells(b: Seq<u8>, p: int, cnt: nat) -> Option<(Seq<(u32, ProblemCell)>, int)>
    decreases cnt,
{
    if cnt == 0 {
        Some((Seq::empty(), p))
    } else {
        match dec_cell(b, p) {
            None => None,
            Some((c, p1)) => match dec_cells(b, p1, (cnt - 1) as nat) {
                None => None,
                Some((rest, p2)) => Some((seq![c] + rest, p2)),
            },
        }
    }
}

pub open spec fn dec_name(b: Seq<u8>, p: int) -> Option<(Seq<char>, int)> {
    match dec_u64(b, p) {
        None => None,
        Some((len, p1)) => if p1 + len <= b.len() {
            if valid_utf8(b.subrange(p1, p1 + len)) {
                Some((decode_utf8(b.subrange(p1, p1 + len)), p1 + len))
            } else {
                None
            }
        } else {
            None
        },
    }
}

pub open spec fn dec_user(b: Seq<u8>, p: int) -> Option<(UserView, int)> {
    match dec_u32(b, p) {
        None => None,
        Some((uid, p1)) => match dec_name(b, p1) {
            None => None,
            Some((name, p2)) => match dec_u64(b, p2) {
                None => None,
                Some((cnt, p3)) => match dec_cells(b, p3, cnt as nat) {
                    None => None,
                    Some((cells, p4)) => Some((UserView { id: uid, name, cells }, p4)),
                },
            },
        },
    }
}

pub open spec fn dec_users(b: Seq<u8>, p: int, cnt: nat) -> Option<(Seq<UserView>, int)>
    decreases cnt,
{
    if cnt == 0 {
        Some((Seq::empty(), p))
    } else {
        match dec_user(b, p) {
            None => None,
            Some((u, p1)) => match dec_users(b, p1, (cnt - 1) as nat) {
                None => None,
                Some((rest, p2)) => Some((seq![u] + rest, p2)),
            },
        }
    }
}

pub open spec fn dec_probs(b: Seq<u8>, p: int, cnt: nat) -> Option<(Seq<u32>, int)>
    decreases cnt,
{
    if cnt == 0 {
        Some((Seq::empty(), p))
    } else {
        match dec_u32(b, p) {
            None => None,
            Some((pid, p1)) => match dec_probs(b, p1, (cnt - 1) as nat) {
                None => None,
                Some((rest, p2)) => Some((seq![pid] + rest, p2)),
            },
        }
    }
}

/// What any byte string decodes to: a well-formed store that the bytes
/// spell out completely, or nothing.
pub open spec fn dec_store(b: Seq<u8>) -> Option<StoreView> {
    match dec_u64(b, 0) {
        None => None,
        Some((watermark, p1)) => match dec_u64(b, p1) {
            None => None,
            Some((pcnt, p2)) => match dec_probs(b, p2, pcnt as nat) {
                None => None,
                Some((probs, p3)) => match dec_u64(b, p3) {
                    None => None,
                    Some((ucnt, p4)) => match dec_users(b, p4, ucnt as nat) {
                        None => None,
                        Some((users, p5)) => {
                            let v = StoreView { users, problem_universe: probs, watermark };
                            if p5 == b.len() && v.wf() {
                                Some(v)
                            } else {
                                None
                            }
                        },
                    },
                },
            },
        },
    }
}

// ---------------------------------------------------------------------
// Executable encoding.
// ---------------------------------------------------------------------

/// Appends a little-endian u64.
fn write_u64(out: &mut Vec<u8>, x: u64)
    ensures
        final(out)@ == old(out)@ + spec_u64_to_le_bytes(x),
{
    let mut t = u64_to_le_bytes(x);
    out.append(&mut t);
}

/// Appends a little-endian u32.
fn write_u32(out: &mut Vec<u8>, x: u32)
    ensures
        final(out)@ == old(out)@ + spec_u32_to_le_bytes(x),
{
    let mut t = u32_to_le_bytes(x);
    out.append(&mut t);
}

/// Appends one status byte.
fn write_status(out: &mut Vec<u8>, st: SolveStatus)
    ensures
        final(out)@ == old(out)@ + enc_status(st),
{
    let b: u8 = match st {
        SolveStatus::NotSubmitted => 0,
        SolveStatus::Accepted => 1,
        SolveStatus::WrongAnswer => 2,
    };
    out.push(b);
    proof {
        assert(final(out)@ =~= old(out)@ + enc_status(st));
    }
}

/// Appends one user's cells.
#[verifier::loop_isolation(false)]
fn write_cells(out: &mut Vec<u8>, cells: &Vec<(u32, ProblemCell)>)
    ensures
        final(out)@ == old(out)@ + enc_cells(cells@),
{
    let n = cells.len();
    let mut i: usize = 0;
    proof {
        assert(cells@.subrange(0, n as int) =~= cells@);
    }
    while i < n
        invariant
            i <= n,
            out@ + enc_cells(cells@.subrange(i as int, n as int)) == old(out)@ + enc_cells(
                cells@,
            ),
        decreases n - i,
    {
        let ghost pre = out@;
        let (pid, cell) = cells[i];
        write_u32(out, pid);
        write_u64(out, cell.wa_count);
        write_status(out, cell.status);
        proof {
            let rest = cells@.subrange(i as int, n as int);
            assert(rest.first() == cells@[i as int]);
            assert(rest.drop_first() =~= cells@.subrange(i + 1, n as int));
            assert(out@ =~= pre + enc_cell(cells@[i as int]));
            assert(out@ + enc_cells(cells@.subrange(i + 1, n as int)) =~= pre + enc_cells(rest));
        }
        i += 1;
    }
    proof {
        assert(cells@.subrange(n as int, n as int) =~= Seq::<(u32, ProblemCell)>::empty());
        assert(out@ + Seq::<u8>::empty() =~= out@);
    }
}

impl Scoreboard {
    /// Serializes the store into its cache blob.
    #[verifier::loop_isolation(false)]
    pub fn encode(&self) -> (r: Vec<u8>)
        ensures
            r@ == enc_store(self@),
    {
        let mut out: Vec<u8> = Vec::new();
        proof {
            assert(out@ =~= Seq::<u8>::empty());
        }
        write_u64(&mut out, self.watermark);
        // Problem universe.
        let pn = self.problem_universe.len();
        write_u64(&mut out, pn as u64);
        let ghost header = out@;
        let mut i: usize = 0;
        proof {
            assert(self@.problem_universe.subrange(0, pn as int) =~= self@.problem_universe);
        }
        while i < pn
            invariant
                i <= pn,
                out@ + enc_probs(self@.problem_universe.subrange(i as int, pn as int)) == header
                    + enc_probs(self@.problem_universe),
            decreases pn - i,
        {
            let ghost pre = out@;
            write_u32(&mut out, self.problem_universe[i]);
            proof {
                let rest = self@.problem_universe.subrange(i as int, pn as int);
                assert(rest.first() == self@.problem_universe[i as int]);
                assert(rest.drop_first() =~= self@.problem_universe.subrange(i + 1, pn as int));
                assert(out@ + enc_probs(self@.problem_universe.subrange(i + 1, pn as int)) =~= pre
                    + enc_probs(rest));
            }
            i += 1;
        }
        proof {
            assert(self@.problem_universe.subrange(pn as int, pn as int) =~= Seq::<u32>::empty());
            assert(out@ + Seq::<u8>::empty() =~= out@);
        }
        // Users.
        let un = self.users.len();
        write_u64(&mut out, un as u64);
        let ghost uheader = out@;
        let mut j: usize = 0;
        proof {
            assert(self@.users.subrange(0, un as int) =~= self@.users);
        }
        while j < un
            invariant
                j <= un,
                out@ + enc_users(self@.users.subrange(j as int, un as int)) == uheader + enc_users(
                    self@.users,
                ),
            decreases un - j,
        {
            let ghost pre = out@;
            let user = &self.users[j];
            write_u32(&mut out, user.id);
            let mut name_bytes = user.name.as_str().as_bytes_vec();
            proof {
                assert(name_bytes@ == encode_utf8(user.name@));
            }
            write_u64(&mut out, name_bytes.len() as u64);
            out.append(&mut name_bytes);
            write_u64(&mut out, user.problems.len() as u64);
            write_cells(&mut out, &user.problems);
            proof {
                let rest = self@.users.subrange(j as int, un as int);
                assert(self@.users[j as int] == self.users@[j as int]@);
                assert(rest.first() == self@.users[j as int]);
                assert(rest.drop_first() =~= self@.users.subrange(j + 1, un as int));
                assert(out@ =~= pre + enc_user(self@.users[j as int]));
                assert(out@ + enc_users(self@.users.subrange(j + 1, un as int)) =~= pre
                    + enc_users(rest));
            }
            j += 1;
        }
        proof {
            assert(self@.users.subrange(un as int, un as int) =~= Seq::<UserView>::empty());
            assert(out@ + Seq::<u8>::empty() =~= out@);
            assert(out@ =~= enc_store(self@));
        }
        out
    }
}

// ---------------------------------------------------------------------
// Executable decoding.
// ---------------------------------------------------------------------

/// Relies on std's `String::from_utf8`: it succeeds exactly on valid
/// UTF-8 and yields the string those bytes spell.
#[verifier::external_body]
fn string_from_utf8(bytes: Vec<u8>) -> (r: Option<String>)
    ensures
        r is Some <==> valid_utf8(bytes@),
        r matches Some(s) ==> s@ == decode_utf8(bytes@),
{
    String::from_utf8(bytes).ok()
}

/// Reads a little-endian u64 at `pos`.
fn read_u64(bytes: &[u8], pos: usize) -> (r: Option<(u64, usize)>)
    ensures
        match r {
            Some((x, p2)) => dec_u64(bytes@, pos as int) == Some((x, p2 as int)) && p2 <= bytes@.len(),
            None => dec_u64(bytes@, pos as int) is None,
        },
{
    if bytes.len() >= 8 && pos <= bytes.len() - 8 {
        let s = slice_subrange(bytes, pos, pos + 8);
        Some((u64_from_le_bytes(s), pos + 8))
    } else {
        None
    }
}

/// Reads a little-endian u32 at `pos`.
fn read_u32(bytes: &[u8], pos: usize) -> (r: Option<(u32, usize)>)
    ensures
        match r {
            Some((x, p2)) => dec_u32(bytes@, pos as int) == Some((x, p2 as int)) && p2 <= bytes@.len(),
            None => dec_u32(bytes@, pos as int) is None,
        },
{
    if bytes.len() >= 4 && pos <= bytes.len() - 4 {
        let s = slice_subrange(bytes, pos, pos + 4);
        Some((u32_from_le_bytes(s), pos + 4))
    } else {
        None
    }
}

/// Reads a status byte at `pos`.
fn read_status(bytes: &[u8], pos: usize) -> (r: Option<(SolveStatus, usize)>)
    ensures
        match r {
            Some((st, p2)) => dec_status(bytes@, pos as int) == Some((st, p2 as int)) && p2
                <= bytes@.len(),
            None => dec_status(bytes@, pos as int) is None,
        },
{
    if pos < bytes.len() {
        match *slice_index_get(bytes, pos) {
            0 => Some((SolveStatus::NotSubmitted, pos + 1)),
            1 => Some((SolveStatus::Accepted, pos + 1)),
            2 => Some((SolveStatus::WrongAnswer, pos + 1)),
            _ => None,
        }
    } else {
        None
    }
}

/// Reads `cnt` cells at `pos`.
#[verifier::loop_isolation(false)]
fn read_cells(bytes: &[u8], pos: usize, cnt: u64) -> (r: Option<(Vec<(u32, ProblemCell)>, usize)>)
    requires
        pos <= bytes@.len(),
    ensures
        match r {
            Some((v, p2)) => dec_cells(bytes@, pos as int, cnt as nat) == Some((v@, p2 as int))
                && p2 <= bytes@.len(),
            None => dec_cells(bytes@, pos as int, cnt as nat) is None,
        },
{
    let mut acc: Vec<(u32, ProblemCell)> = Vec::new();
    let mut cur: usize = pos;
    let mut i: u64 = 0;
    proof {
        assert(acc@ =~= Seq::<(u32, ProblemCell)>::empty());
    }
    while i < cnt
        invariant
            i <= cnt,
            cur <= bytes@.len(),
            dec_cells(bytes@, pos as int, cnt as nat) == (match dec_cells(
                bytes@,
                cur as int,
                (cnt - i) as nat,
            ) {
                Some((rest, pe)) => Some((acc@ + rest, pe)),
                None => None::<(Seq<(u32, ProblemCell)>, int)>,
            }),
        decreases cnt - i,
    {
        let (pid, p1) = match read_u32(bytes, cur) {
            Some(x) => x,
            None => {
                return None;
            },
        };
        let (wa, p2) = match read_u64(bytes, p1) {
            Some(x) => x,
            None => {
                return None;
            },
        };
        let (st, p3) = match read_status(bytes, p2) {
            Some(x) => x,
            None => {
                return None;
            },
        };
        let cell = (pid, ProblemCell { status: st, wa_count: wa });
        proof {
            let ghost rest0 = (cnt - i) as nat;
            assert(dec_cell(bytes@, cur as int) == Some((cell, p3 as int)));
            assert(dec_cells(bytes@, cur as int, rest0) == (match dec_cells(
                bytes@,
                p3 as int,
                (rest0 - 1) as nat,
            ) {
                Some((rest, pe)) => Some((seq![cell] + rest, pe)),
                None => None::<(Seq<(u32, ProblemCell)>, int)>,
            }));
            assert(forall|rest: Seq<(u32, ProblemCell)>|
                acc@ + (seq![cell] + rest) =~= (acc@ + seq![cell]) + rest);
            assert(acc@.push(cell) =~= acc@ + seq![cell]);
        }
        acc.push(cell);
        cur = p3;
        i += 1;
    }
    proof {
        assert(dec_cells(bytes@, cur as int, 0) == Some((Seq::<(u32, ProblemCell)>::empty(), cur as int)));
        assert(acc@ + Seq::<(u32, ProblemCell)>::empty() =~= acc@);
    }
    Some((acc, cur))
}

/// Reads one user record at `pos`.
fn read_user(bytes: &[u8], pos: usize) -> (r: Option<(UserRecord, usize)>)
    ensures
        match r {
            Some((u, p2)) => dec_user(bytes@, pos as int) == Some((u@, p2 as int)) && p2
                <= bytes@.len(),
            None => dec_user(bytes@, pos as int) is None,
        },
{
    let (uid, p1) = match read_u32(bytes, pos) {
        Some(x) => x,
        None => {
            return None;
        },
    };
    let (nlen, p2) = match read_u64(bytes, p1) {
        Some(x) => x,
        None => {
            return None;
        },
    };
    if !(nlen <= (bytes.len() - p2) as u64) {
        proof {
            assert(dec_name(bytes@, p1 as int) is None);
        }
        return None;
    }
    let nlen: usize = nlen as usize;
    let name_bytes = slice_to_vec(slice_subrange(bytes, p2, p2 + nlen));
    let name = match string_from_utf8(name_bytes) {
        Some(s) => s,
        None => {
            proof {
                assert(dec_name(bytes@, p1 as int) is None);
            }
            return None;
        },
    };
    let p3 = p2 + nlen;
    proof {
        assert(dec_name(bytes@, p1 as int) == Some((name@, p3 as int)));
    }
    let (ccnt, p4) = match read_u64(bytes, p3) {
        Some(x) => x,
        None => {
            return None;
        },
    };
    let (cells, p5) = match read_cells(bytes, p4, ccnt) {
        Some(x) => x,
        None => {
            return None;
        },
    };
    let u = UserRecord { id: uid, name, problems: cells };
    proof {
        assert(dec_user(bytes@, pos as int) == Some((u@, p5 as int)));
    }
    Some((u, p5))
}

/// Reads `cnt` user records at `pos`.
#[verifier::loop_isolation(false)]
fn read_users(bytes: &[u8], pos: usize, cnt: u64) -> (r: Option<(Vec<UserRecord>, usize)>)
    requires
        pos <= bytes@.len(),
    ensures
        match r {
            Some((v, p2)) => dec_users(bytes@, pos as int, cnt as nat) == Some(
                (v@.map_values(|u: UserRecord| u@), p2 as int),
            ) && p2 <= bytes@.len(),
            None => dec_users(bytes@, pos as int, cnt as nat) is None,
        },
{
    let mut acc: Vec<UserRecord> = Vec::new();
    let mut cur: usize = pos;
    let mut i: u64 = 0;
    proof {
        assert(acc@.map_values(|u: UserRecord| u@) =~= Seq::<UserView>::empty());
    }
    while i < cnt
        invariant
            i <= cnt,
            cur <= bytes@.len(),
            dec_users(bytes@, pos as int, cnt as nat) == (match dec_users(
                bytes@,
                cur as int,
                (cnt - i) as nat,
            ) {
                Some((rest, pe)) => Some((acc@.map_values(|u: UserRecord| u@) + rest, pe)),
                None => None::<(Seq<UserView>, int)>,
            }),
        decreases cnt - i,
    {
        let (u, p1) = match read_user(bytes, cur) {
            Some(x) => x,
            None => {
                return None;
            },
        };
        proof {
            let ghost rest0 = (cnt - i) as nat;
            assert(dec_users(bytes@, cur as int, rest0) == (match dec_users(
                bytes@,
                p1 as int,
                (rest0 - 1) as nat,
            ) {
                Some((rest, pe)) => Some((seq![u@] + rest, pe)),
                None => None::<(Seq<UserView>, int)>,
            }));
            let ghost uv = acc@.map_values(|x: UserRecord| x@);
            assert(forall|rest: Seq<UserView>| uv + (seq![u@] + rest) =~= (uv + seq![u@]) + rest);
            assert(acc@.push(u).map_values(|x: UserRecord| x@) =~= uv + seq![u@]);
        }
        acc.push(u);
        cur = p1;
        i += 1;
    }
    proof {
        assert(dec_users(bytes@, cur as int, 0) == Some((Seq::<UserView>::empty(), cur as int)));
        assert(acc@.map_values(|u: UserRecord| u@) + Seq::<UserView>::empty() =~= acc@.map_values(
            |u: UserRecord| u@,
        ));
    }
    Some((acc, cur))
}

/// Reads `cnt` problem ids at `pos`.
#[verifier::loop_isolation(false)]
fn read_probs(bytes: &[u8], pos: usize, cnt: u64) -> (r: Option<(Vec<u32>, usize)>)
    requires
        pos <= bytes@.len(),
    ensures
        match r {
            Some((v, p2)) => dec_probs(bytes@, pos as int, cnt as nat) == Some((v@, p2 as int))
                && p2 <= bytes@.len(),
            None => dec_probs(bytes@, pos as int, cnt as nat) is None,
        },
{
    let mut acc: Vec<u32> = Vec::new();
    let mut cur: usize = pos;
    let mut i: u64 = 0;
    proof {
        assert(acc@ =~= Seq::<u32>::empty());
    }
    while i < cnt
        invariant
            i <= cnt,
            cur <= bytes@.len(),
            dec_probs(bytes@, pos as int, cnt as nat) == (match dec_probs(
                bytes@,
                cur as int,
                (cnt - i) as nat,
            ) {
                Some((rest, pe)) => Some((acc@ + rest, pe)),
                None => None::<(Seq<u32>, int)>,
            }),
        decreases cnt - i,
    {
        let (pid, p1) = match read_u32(bytes, cur) {
            Some(x) => x,
            None => {
                return None;
            },
        };
        proof {
            let ghost rest0 = (cnt - i) as nat;
            assert(dec_probs(bytes@, cur as int, rest0) == (match dec_probs(
                bytes@,
                p1 as int,
                (rest0 - 1) as nat,
            ) {
                Some((rest, pe)) => Some((seq![pid] + rest, pe)),
                None => None::<(Seq<u32>, int)>,
            }));
            assert(forall|rest: Seq<u32>| acc@ + (seq![pid] + rest) =~= (acc@ + seq![pid]) + rest);
            assert(acc@.push(pid) =~= acc@ + seq![pid]);
        }
        acc.push(pid);
        cur = p1;
        i += 1;
    }
    proof {
        assert(dec_probs(bytes@, cur as int, 0) == Some((Seq::<u32>::empty(), cur as int)));
        assert(acc@ + Seq::<u32>::empty() =~= acc@);
    }
    Some((acc, cur))
}

/// Whether a key vector is duplicate-free.
#[verifier::loop_isolation(false)]
fn u32s_unique(v: &Vec<u32>) -> (r: bool)
    ensures
        r == (forall|i: int, j: int| 0 <= i < j < v@.len() ==> v@[i] != v@[j]),
{
    let n = v.len();
    let mut i: usize = 0;
    while i < n
        invariant
            i <= n,
            forall|a: int, b: int| 0 <= a < b < i ==> v@[a] != v@[b],
        decreases n - i,
    {
        let mut j: usize = 0;
        while j < i
            invariant
                j <= i < n,
                forall|a: int| 0 <= a < j ==> v@[a] != v@[i as int],
            decreases i - j,
        {
            if v[j] == v[i] {
                return false;
            }
            j += 1;
        }
        i += 1;
    }
    true
}

/// Whether a cell vector's problem ids are duplicate-free.
#[verifier::loop_isolation(false)]
fn cell_keys_unique(v: &Vec<(u32, ProblemCell)>) -> (r: bool)
    ensures
        r == (forall|i: int, j: int|
            0 <= i < j < v@.len() ==> (#[trigger] v@[i]).0 != (#[trigger] v@[j]).0),
{
    let n = v.len();
    let mut i: usize = 0;
    while i < n
        invariant
            i <= n,
            forall|a: int, b: int| 0 <= a < b < i ==> (#[trigger] v@[a]).0 != (#[trigger] v@[b]).0,
        decreases n - i,
    {
        let mut j: usize = 0;
        while j < i
            invariant
                j <= i < n,
                forall|a: int| 0 <= a < j ==> (#[trigger] v@[a]).0 != v@[i as int].0,
            decreases i - j,
        {
            if v[j].0 == v[i].0 {
                return false;
            }
            j += 1;
        }
        i += 1;
    }
    true
}

/// Whether a decoded scoreboard satisfies the store invariant.
#[verifier::loop_isolation(false)]
fn check_wf(s: &Scoreboard) -> (r: bool)
    ensures
        r == s@.wf(),
{
    if !u32s_unique(&s.problem_universe) {
        proof {
            let (a, b) = choose|a: int, b: int|
                0 <= a < b < s.problem_universe@.len() && s.problem_universe@[a]
                    == s.problem_universe@[b];
            assert(s@.problem_universe[a] == s@.problem_universe[b]);
            assert(!s@.wf());
        }
        return false;
    }
    let n = s.users.len();
    let mut i: usize = 0;
    while i < n
        invariant
            i <= n,
            forall|a: int, b: int|
                0 <= a < b < i ==> (#[trigger] s@.users[a]).id != (#[trigger] s@.users[b]).id,
            forall|a: int| 0 <= a < i ==> (#[trigger] s@.users[a]).wf(),
        decreases n - i,
    {
        proof {
            assert(s@.users[i as int] == s.users@[i as int]@);
        }
        if !cell_keys_unique(&s.users[i].problems) {
            proof {
                let cells = s.users@[i as int].problems@;
                let (a, b) = choose|a: int, b: int|
                    0 <= a < b < cells.len() && (#[trigger] cells[a]).0 == (#[trigger] cells[b]).0;
                assert((s@.users[i as int].cells[a]).0 == (s@.users[i as int].cells[b]).0);
                assert(!s@.users[i as int].wf());
                assert(!s@.wf());
            }
            return false;
        }
        let mut j: usize = 0;
        while j < i
            invariant
                j <= i < n,
                forall|a: int| 0 <= a < j ==> (#[trigger] s@.users[a]).id != s@.users[i as int].id,
            decreases i - j,
        {
            proof {
                assert(s@.users[j as int] == s.users@[j as int]@);
            }
            if s.users[j].id == s.users[i].id {
                return false;
            }
            j += 1;
        }
        i += 1;
    }
    true
}

impl Scoreboard {
    /// Deserializes a cache blob.  Succeeds exactly on the byte strings
    /// that spell out a complete, well-formed store (see [`dec_store`]);
    /// anything else — truncated, corrupt or foreign bytes — fails with a
    /// recoverable error and the caller falls back to an empty store.
    pub fn decode(bytes: &[u8]) -> (r: Result<Scoreboard, CodecError>)
        ensures
            match r {
                Ok(s) => dec_store(bytes@) == Some(s@) && s@.wf(),
                Err(_) => dec_store(bytes@) is None,
            },
    {
        let (watermark, p1) = match read_u64(bytes, 0) {
            Some(x) => x,
            None => {
                return Err(CodecError::Malformed);
            },
        };
        let (pcnt, p2) = match read_u64(bytes, p1) {
            Some(x) => x,
            None => {
                return Err(CodecError::Malformed);
            },
        };
        let (probs, p3) = match read_probs(bytes, p2, pcnt) {
            Some(x) => x,
            None => {
                return Err(CodecError::Malformed);
            },
        };
        let (ucnt, p4) = match read_u64(bytes, p3) {
            Some(x) => x,
            None => {
                return Err(CodecError::Malformed);
            },
        };
        let (users, p5) = match read_users(bytes, p4, ucnt) {
            Some(x) => x,
            None => {
                return Err(CodecError::Malformed);
            },
        };
        if p5 != bytes.len() {
            return Err(CodecError::Malformed);
        }
        let s = Scoreboard { users, problem_universe: probs, watermark };
        if !check_wf(&s) {
            return Err(CodecError::Malformed);
        }
        proof {
            assert(dec_store(bytes@) == Some(s@));
        }
        Ok(s)
    }
}

// ---------------------------------------------------------------------
// The round-trip law.
// ---------------------------------------------------------------------

proof fn lemma_dec_u64_at(b: Seq<u8>, p: int, x: u64)
    requires
        0 <= p,
        p + 8 <= b.len(),
        b.subrange(p, p + 8) == spec_u64_to_le_bytes(x),
    ensures
        dec_u64(b, p) == Some((x, p + 8)),
{
    vstd::bytes::lemma_auto_spec_u64_to_from_le_bytes();
}

proof fn lemma_dec_u32_at(b: Seq<u8>, p: int, x: u32)
    requires
        0 <= p,
        p + 4 <= b.len(),
        b.subrange(p, p + 4) == spec_u32_to_le_bytes(x),
    ensures
        dec_u32(b, p) == Some((x, p + 4)),
{
    vstd::bytes::lemma_auto_spec_u32_to_from_le_bytes();
    assert(spec_u32_to_le_bytes(x).len() == 4);
}

/// A window inside a larger window of the same byte string.
proof fn lemma_subrange_of_subrange(b: Seq<u8>, p: int, l: int, a: int, c: int)
    requires
        0 <= p,
        p + l <= b.len(),
        0 <= a <= c <= l,
    ensures
        b.subrange(p + a, p + c) == b.subrange(p, p + l).subrange(a, c),
{
    assert(b.subrange(p + a, p + c) =~= b.subrange(p, p + l).subrange(a, c));
}

proof fn lemma_dec_status_at(b: Seq<u8>, p: int, st: SolveStatus)
    requires
        0 <= p,
        p + 1 <= b.len(),
        b.subrange(p, p + 1) == enc_status(st),
    ensures
        dec_status(b, p) == Some((st, p + 1)),
{
    assert(b[p] == enc_status(st)[0]);
}

proof fn lemma_dec_cell_at(b: Seq<u8>, p: int, c: (u32, ProblemCell))
    requires
        0 <= p,
        p + 13 <= b.len(),
        b.subrange(p, p + 13) == enc_cell(c),
    ensures
        enc_cell(c).len() == 13,
        dec_cell(b, p) == Some((c, p + 13)),
{
    vstd::bytes::lemma_auto_spec_u32_to_from_le_bytes();
    vstd::bytes::lemma_auto_spec_u64_to_from_le_bytes();
    lemma_subrange_of_subrange(b, p, 13, 0, 4);
    lemma_subrange_of_subrange(b, p, 13, 4, 12);
    lemma_subrange_of_subrange(b, p, 13, 12, 13);
    assert(enc_cell(c).subrange(0, 4) =~= spec_u32_to_le_bytes(c.0));
    assert(enc_cell(c).subrange(4, 12) =~= spec_u64_to_le_bytes(c.1.wa_count));
    assert(enc_cell(c).subrange(12, 13) =~= enc_status(c.1.status));
    lemma_dec_u32_at(b, p, c.0);
    lemma_dec_u64_at(b, p + 4, c.1.wa_count);
    lemma_dec_status_at(b, p + 12, c.1.status);
}

proof fn lemma_dec_cells_at(b: Seq<u8>, p: int, cells: Seq<(u32, ProblemCell)>)
    requires
        0 <= p,
        p + enc_cells(cells).len() <= b.len(),
        b.subrange(p, p + enc_cells(cells).len()) == enc_cells(cells),
    ensures
        dec_cells(b, p, cells.len()) == Some((cells, p + enc_cells(cells).len())),
    decreases cells.len(),
{
    vstd::bytes::lemma_auto_spec_u32_to_from_le_bytes();
    vstd::bytes::lemma_auto_spec_u64_to_from_le_bytes();
    if cells.len() == 0 {
        assert(enc_cells(cells).len() == 0);
    } else {
        let c = cells.first();
        let rest = cells.drop_first();
        assert(enc_cells(cells) == enc_cell(c) + enc_cells(rest));
        assert(enc_cell(c).len() == 13);
        let l = enc_cells(cells).len() as int;
        lemma_subrange_of_subrange(b, p, l, 0, 13);
        assert(enc_cells(cells).subrange(0, 13) =~= enc_cell(c));
        lemma_dec_cell_at(b, p, c);
        lemma_subrange_of_subrange(b, p, l, 13, l);
        assert(enc_cells(cells).subrange(13, l) =~= enc_cells(rest));
        lemma_dec_cells_at(b, p + 13, rest);
        assert(seq![c] + rest =~= cells);
    }
}

proof fn lemma_dec_name_at(b: Seq<u8>, p: int, name: Seq<char>)
    requires
        0 <= p,
        encode_utf8(name).len() <= u64::MAX,
        p + enc_name(name).len() <= b.len(),
        b.subrange(p, p + enc_name(name).len()) == enc_name(name),
    ensures
        dec_name(b, p) == Some((name, p + enc_name(name).len())),
{
    broadcast use vstd::utf8::encode_utf8_valid_utf8, vstd::utf8::encode_utf8_decode_utf8;

    vstd::bytes::lemma_auto_spec_u64_to_from_le_bytes();
    let utf8 = encode_utf8(name);
    let len64 = utf8.len() as u64;
    let l = enc_name(name).len() as int;
    lemma_subrange_of_subrange(b, p, l, 0, 8);
    assert(enc_name(name).subrange(0, 8) =~= spec_u64_to_le_bytes(len64));
    lemma_dec_u64_at(b, p, len64);
    lemma_subrange_of_subrange(b, p, l, 8, l);
    assert(enc_name(name).subrange(8, l) =~= utf8);
    assert(b.subrange(p + 8, p + 8 + utf8.len()) == utf8);
    assert(valid_utf8(utf8));
    assert(decode_utf8(utf8) == name);
}

proof fn lemma_dec_user_at(b: Seq<u8>, p: int, u: UserView)
    requires
        0 <= p,
        encode_utf8(u.name).len() <= u64::MAX,
        u.cells.len() <= u64::MAX,
        p + enc_user(u).len() <= b.len(),
        b.subrange(p, p + enc_user(u).len()) == enc_user(u),
    ensures
        dec_user(b, p) == Some((u, p + enc_user(u).len())),
{
    vstd::bytes::lemma_auto_spec_u32_to_from_le_bytes();
    vstd::bytes::lemma_auto_spec_u64_to_from_le_bytes();
    let nm = enc_name(u.name);
    let cc = enc_cells(u.cells);
    assert(enc_user(u) == spec_u32_to_le_bytes(u.id) + nm + spec_u64_to_le_bytes(
        u.cells.len() as u64,
    ) + cc);
    let p1 = p + 4;
    let p2 = p1 + nm.len();
    let p3 = p2 + 8;
    let l = enc_user(u).len() as int;
    let nl = nm.len() as int;
    lemma_subrange_of_subrange(b, p, l, 0, 4);
    assert(enc_user(u).subrange(0, 4) =~= spec_u32_to_le_bytes(u.id));
    lemma_dec_u32_at(b, p, u.id);
    lemma_subrange_of_subrange(b, p, l, 4, 4 + nl);
    assert(enc_user(u).subrange(4, 4 + nl) =~= nm);
    assert(b.subrange(p1, p1 + nl) == nm);
    lemma_dec_name_at(b, p1, u.name);
    lemma_subrange_of_subrange(b, p, l, 4 + nl, 4 + nl + 8);
    assert(enc_user(u).subrange(4 + nl, 4 + nl + 8) =~= spec_u64_to_le_bytes(
        u.cells.len() as u64,
    ));
    assert(b.subrange(p2, p2 + 8) == spec_u64_to_le_bytes(u.cells.len() as u64));
    lemma_dec_u64_at(b, p2, u.cells.len() as u64);
    lemma_subrange_of_subrange(b, p, l, 4 + nl + 8, l);
    assert(enc_user(u).subrange(4 + nl + 8, l) =~= cc);
    assert(b.subrange(p3, p3 + cc.len()) == cc);
    lemma_dec_cells_at(b, p3, u.cells);
}

proof fn lemma_dec_users_at(b: Seq<u8>, p: int, users: Seq<UserView>)
    requires
        0 <= p,
        forall|i: int| 0 <= i < users.len() ==> encode_utf8((#[trigger] users[i]).name).len() <= u64::MAX,
        forall|i: int| 0 <= i < users.len() ==> (#[trigger] users[i]).cells.len() <= u64::MAX,
        p + enc_users(users).len() <= b.len(),
        b.subrange(p, p + enc_users(users).len()) == enc_users(users),
    ensures
        dec_users(b, p, users.len()) == Some((users, p + enc_users(users).len())),
    decreases users.len(),
{
    if users.len() > 0 {
        let u = users.first();
        let rest = users.drop_first();
        assert(enc_users(users) == enc_user(u) + enc_users(rest));
        let l1 = enc_user(u).len() as int;
        let l = enc_users(users).len() as int;
        lemma_subrange_of_subrange(b, p, l, 0, l1);
        assert(enc_users(users).subrange(0, l1) =~= enc_user(u));
        lemma_dec_user_at(b, p, u);
        assert(forall|i: int| 0 <= i < rest.len() ==> #[trigger] rest[i] == users[i + 1]);
        lemma_subrange_of_subrange(b, p, l, l1, l);
        assert(enc_users(users).subrange(l1, l) =~= enc_users(rest));
        lemma_dec_users_at(b, p + l1, rest);
        assert(seq![u] + rest =~= users);
    }
}

proof fn lemma_dec_probs_at(b: Seq<u8>, p: int, ps: Seq<u32>)
    requires
        0 <= p,
        p + enc_probs(ps).len() <= b.len(),
        b.subrange(p, p + enc_probs(ps).len()) == enc_probs(ps),
    ensures
        dec_probs(b, p, ps.len()) == Some((ps, p + enc_probs(ps).len())),
    decreases ps.len(),
{
    vstd::bytes::lemma_auto_spec_u32_to_from_le_bytes();
    if ps.len() > 0 {
        let x = ps.first();
        let rest = ps.drop_first();
        assert(enc_probs(ps) == spec_u32_to_le_bytes(x) + enc_probs(rest));
        let l = enc_probs(ps).len() as int;
        lemma_subrange_of_subrange(b, p, l, 0, 4);
        assert(enc_probs(ps).subrange(0, 4) =~= spec_u32_to_le_bytes(x));
        lemma_dec_u32_at(b, p, x);
        lemma_subrange_of_subrange(b, p, l, 4, l);
        assert(enc_probs(ps).subrange(4, l) =~= enc_probs(rest));
        lemma_dec_probs_at(b, p + 4, rest);
        assert(seq![x] + rest =~= ps);
    }
}

/// Cache round-trip: decoding an encoded store yields the store back,
/// equal in every field.  Holds for every well-formed store whose counts
/// fit their length fields — every store this library builds does.
pub proof fn lemma_codec_round_trip(v: StoreView)
    requires
        v.wf(),
        encodable(v),
    ensures
        dec_store(enc_store(v)) == Some(v),
{
    vstd::bytes::lemma_auto_spec_u64_to_from_le_bytes();
    let b = enc_store(v);
    let pb = enc_probs(v.problem_universe);
    let ub = enc_users(v.users);
    assert(b == spec_u64_to_le_bytes(v.watermark) + spec_u64_to_le_bytes(
        v.problem_universe.len() as u64,
    ) + pb + spec_u64_to_le_bytes(v.users.len() as u64) + ub);
    let p1 = 8int;
    let p2 = p1 + 8;
    let p3 = p2 + pb.len();
    let p4 = p3 + 8;
    let p5 = p4 + ub.len();
    assert(b.len() == p5);
    assert(b.subrange(0, 8) =~= spec_u64_to_le_bytes(v.watermark));
    lemma_dec_u64_at(b, 0, v.watermark);
    assert(b.subrange(p1, p1 + 8) =~= spec_u64_to_le_bytes(v.problem_universe.len() as u64));
    lemma_dec_u64_at(b, p1, v.problem_universe.len() as u64);
    assert(b.subrange(p2, p2 + pb.len()) =~= pb);
    lemma_dec_probs_at(b, p2, v.problem_universe);
    assert(b.subrange(p3, p3 + 8) =~= spec_u64_to_le_bytes(v.users.len() as u64));
    lemma_dec_u64_at(b, p3, v.users.len() as u64);
    assert(b.subrange(p4, p4 + ub.len()) =~= ub);
    lemma_dec_users_at(b, p4, v.users);
    assert(dec_store(b) == Some(StoreView { users: v.users, problem_universe: v.problem_universe, watermark: v.watermark }));
    assert(StoreView { users: v.users, problem_universe: v.problem_universe, watermark: v.watermark } =~= v);
}

} // verus!
