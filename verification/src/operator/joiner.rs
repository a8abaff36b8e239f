//! The merge join of a plain left table with a secure right table, emitted in
//! blocks of a fixed number of records.
//!
//! Each left record is compared, on the join columns, with the right
//! records from the right cursor on: an equal right record gives a joined
//! record, a smaller one is passed over, and the first greater one stops
//! the scan and becomes the new right cursor. When the
//! right records run out, a note is stashed for the caller. A block takes
//! the joined records until it is full; the rest wait in a buffer. At the
//! end, the buffer tops the block up, and a block that is not full is
//! padded with zero records as wide as its first record or, when it holds
//! none, as wide as a left record and a right record together; so every
//! block has the same number of records.
use vstd::prelude::*;

use crate::context::{JoinKeyInfo, ObliData};
use crate::getter::{dummy_row, lemma_rows_of_push, rows_of, zero_row, DataIterator, Record};
use crate::manager::{DataManager, DataView};
use crate::operator::ctx::{ContinuousCompute, StashMap};
use crate::strmap::StrMap;

verus! {

/// The name under which the join stashes its note.
pub const KEY: &'static str = "testkey";

/// The note stashed when the right records run out.
pub const STASH_NOTE: &'static str = "test ok";

/// What the join answers when the right records run out and the next right
/// block is needed.
pub const RIGHT_BLOCK_NEEDED: &'static str = "right iterator is empty, need new right block";

/// What the join answers when the output data is not registered.
pub const OUTPUT_MISSING: &'static str = "[operator::hasher::sort_exec()] output data don't exist";

/// The number of records in a block.
pub const OUTPUT_SIZE: usize = 5;

/// The state of a join that goes on over several calls.
pub struct JoinManager {
    output_size: usize,
    buffer: Vec<Record>,
    right_iter: Option<DataIterator>,
    join_key: Vec<JoinKeyInfo>,
    stash_map: StashMap,
}

// ----------------------------------------------------------------------
// Specification
// ----------------------------------------------------------------------
/// Scans the right rows from position `j` for the left row `l`, comparing
/// column `lp` of `l` with column `rp` of each right row. Gives the joined
/// rows in order, and the position of the right row that stopped the scan,
/// if one did.
pub open spec fn scan(l: Seq<i64>, rows: Seq<Seq<i64>>, lp: int, rp: int, j: int) -> (
    Seq<Seq<i64>>,
    Option<int>,
)
    decreases rows.len() - j,
{
    if j < 0 || j >= rows.len() {
        (Seq::empty(), None)
    } else if l[lp] == rows[j][rp] {
        let (m, c) = scan(l, rows, lp, rp, j + 1);
        (seq![l + rows[j]] + m, c)
    } else if l[lp] < rows[j][rp] {
        (Seq::empty(), Some(j))
    } else {
        scan(l, rows, lp, rp, j + 1)
    }
}

/// The state of a join as the left records are consumed: the block so
/// far, the buffer, the right cursor, the stash, and whether the right
/// records ran out, so that the join stopped to ask for the next right
/// block.
pub struct JoinAcc {
    pub ret: Seq<Seq<i64>>,
    pub buffer: Seq<Seq<i64>>,
    pub cur: int,
    pub stash: Map<Seq<char>, &'static str>,
    pub needs_block: bool,
}

/// The smaller of two integers.
pub open spec fn min(a: int, b: int) -> int {
    if a <= b {
        a
    } else {
        b
    }
}

/// Hands out `results` last first: into the block while it is not full,
/// the rest onto the buffer.
pub open spec fn distribute(ret: Seq<Seq<i64>>, buffer: Seq<Seq<i64>>, results: Seq<Seq<i64>>, cap: int) -> (
    Seq<Seq<i64>>,
    Seq<Seq<i64>>,
) {
    let rs = results.reverse();
    let k = min(cap - ret.len(), rs.len() as int);
    (ret + rs.take(k), buffer + rs.skip(k))
}

/// The join state after the left row `l`. When the scan runs out of right
/// records, the note is stashed, the rows it joined are dropped, and the
/// join stops; once stopped, it stays so.
pub open spec fn join_step(
    acc: JoinAcc,
    l: Seq<i64>,
    right: Option<Seq<Seq<i64>>>,
    lp: int,
    rp: int,
    cap: int,
) -> JoinAcc {
    if acc.needs_block {
        acc
    } else {
        match right {
            None => acc,
            Some(rows) => {
                let (ms, c) = scan(l, rows, lp, rp, acc.cur);
                match c {
                    None => JoinAcc { stash: acc.stash.insert(KEY@, STASH_NOTE), needs_block: true, ..acc },
                    Some(j) => {
                        let (ret, buffer) = distribute(acc.ret, acc.buffer, ms, cap);
                        JoinAcc { ret, buffer, cur: j, stash: acc.stash, needs_block: false }
                    },
                }
            },
        }
    }
}

/// The join state after the left rows `lefts`, in order.
pub open spec fn join_rows(
    acc: JoinAcc,
    lefts: Seq<Seq<i64>>,
    right: Option<Seq<Seq<i64>>>,
    lp: int,
    rp: int,
    cap: int,
) -> JoinAcc
    decreases lefts.len(),
{
    if lefts.len() == 0 {
        acc
    } else {
        join_step(join_rows(acc, lefts.drop_last(), right, lp, rp, cap), lefts.last(), right, lp, rp, cap)
    }
}

/// Tops the block up from the buffer, last buffered first: the block and
/// the buffer left.
pub open spec fn drain(ret: Seq<Seq<i64>>, buffer: Seq<Seq<i64>>, cap: int) -> (
    Seq<Seq<i64>>,
    Seq<Seq<i64>>,
) {
    let k = min(cap - ret.len(), buffer.len() as int);
    (ret + buffer.reverse().take(k), buffer.take(buffer.len() - k))
}

/// Pads a block that is not full with zero rows: as wide as its first row,
/// or like `filler` when the block holds no row.
pub open spec fn pad(ret: Seq<Seq<i64>>, cap: int, filler: Seq<i64>) -> Seq<Seq<i64>> {
    if ret.len() >= cap {
        ret
    } else {
        let z = if ret.len() > 0 {
            dummy_row(ret[0])
        } else {
            filler
        };
        ret + Seq::new((cap - ret.len()) as nat, |i: int| z)
    }
}

impl JoinManager {
    /// The number of records in a block.
    pub closed spec fn out_size(&self) -> int {
        self.output_size as int
    }

    /// The joined rows waiting for a block.
    pub closed spec fn buffered(&self) -> Seq<Seq<i64>> {
        rows_of(self.buffer@)
    }

    /// The rows of the right table, once one is registered.
    pub closed spec fn right_rows(&self) -> Option<Seq<Seq<i64>>> {
        match self.right_iter {
            Some(it) => Some(it.rows()),
            None => None,
        }
    }

    /// The right cursor, once a right table is registered.
    pub closed spec fn right_pos(&self) -> int {
        match self.right_iter {
            Some(it) => it.pos(),
            None => 0,
        }
    }

    /// The join columns.
    pub closed spec fn keys(&self) -> Seq<JoinKeyInfo> {
        self.join_key@
    }

    /// The stashed values.
    pub closed spec fn stash(&self) -> Map<Seq<char>, &'static str> {
        self.stash_map@
    }

    /// The join column of the left table.
    pub open spec fn lp(&self) -> int {
        if self.keys().len() > 0 {
            self.keys()[0].lpos as int
        } else {
            0
        }
    }

    /// The join column of the right table.
    pub open spec fn rp(&self) -> int {
        if self.keys().len() > 0 {
            self.keys()[0].rpos as int
        } else {
            0
        }
    }

    /// The state is well formed.
    pub closed spec fn wf(&self) -> bool {
        &&& self.stash_map.wf()
        &&& match self.right_iter {
            Some(it) => it.wf(),
            None => true,
        }
    }

    /// The zero row that fills a block holding no joined row: as wide as
    /// the first left row of the call and the first right row together,
    /// each counted as zero wide when there is none.
    pub open spec fn empty_filler(&self, lefts: Seq<Seq<i64>>) -> Seq<i64> {
        let lw = if lefts.len() > 0 {
            lefts[0].len()
        } else {
            0
        };
        let rw = match self.right_rows() {
            Some(rows) => if rows.len() > 0 {
                rows[0].len()
            } else {
                0
            },
            None => 0,
        };
        zero_row(lw + rw)
    }

    /// The join state before any left row of a call.
    pub open spec fn start(&self) -> JoinAcc {
        JoinAcc {
            ret: Seq::empty(),
            buffer: self.buffered(),
            cur: self.right_pos(),
            stash: self.stash(),
            needs_block: false,
        }
    }

    /// The join state after the left rows `lefts`.
    pub open spec fn after(&self, lefts: Seq<Seq<i64>>) -> JoinAcc {
        join_rows(self.start(), lefts, self.right_rows(), self.lp(), self.rp(), self.out_size())
    }

    /// Every comparison that a join over `lefts` makes reads columns that
    /// are there.
    pub open spec fn join_safe(&self, lefts: Seq<Seq<i64>>) -> bool {
        join_rows_safe(
            self.start(),
            lefts,
            self.right_rows(),
            self.keys().len() > 0,
            self.lp(),
            self.rp(),
            self.out_size(),
        )
    }
}

/// Every comparison that a scan from position `j` makes reads columns that
/// are there: column `lp` of `l` and column `rp` of each right row met.
pub open spec fn scan_safe(l: Seq<i64>, rows: Seq<Seq<i64>>, lp: int, rp: int, j: int) -> bool
    decreases rows.len() - j,
{
    if j < 0 || j >= rows.len() {
        true
    } else {
        &&& 0 <= lp < l.len()
        &&& 0 <= rp < rows[j].len()
        &&& (l[lp] >= rows[j][rp] ==> scan_safe(l, rows, lp, rp, j + 1))
    }
}

/// Every comparison made for the left row `l` reads a join column that is
/// there.
pub open spec fn step_safe(
    acc: JoinAcc,
    l: Seq<i64>,
    right: Option<Seq<Seq<i64>>>,
    has_key: bool,
    lp: int,
    rp: int,
) -> bool {
    acc.needs_block || match right {
        None => true,
        Some(rows) => (acc.cur < rows.len() ==> has_key) && scan_safe(l, rows, lp, rp, acc.cur),
    }
}

/// Every comparison made for the left rows `lefts`, in order, reads a join
/// column that is there.
pub open spec fn join_rows_safe(
    acc: JoinAcc,
    lefts: Seq<Seq<i64>>,
    right: Option<Seq<Seq<i64>>>,
    has_key: bool,
    lp: int,
    rp: int,
    cap: int,
) -> bool
    decreases lefts.len(),
{
    lefts.len() == 0 || (join_rows_safe(acc, lefts.drop_last(), right, has_key, lp, rp, cap) && step_safe(
        join_rows(acc, lefts.drop_last(), right, lp, rp, cap),
        lefts.last(),
        right,
        has_key,
        lp,
        rp,
    ))
}

/// Once the join has stopped for the next right block, later left rows
/// change nothing.
proof fn lemma_join_rows_stay_stopped(
    acc: JoinAcc,
    lefts: Seq<Seq<i64>>,
    right: Option<Seq<Seq<i64>>>,
    lp: int,
    rp: int,
    cap: int,
    j: int,
    k: int,
)
    requires
        0 <= j <= k <= lefts.len(),
        join_rows(acc, lefts.take(j), right, lp, rp, cap).needs_block,
    ensures
        join_rows(acc, lefts.take(k), right, lp, rp, cap) == join_rows(acc, lefts.take(j), right, lp, rp, cap),
    decreases k,
{
    if k > j {
        lemma_join_rows_stay_stopped(acc, lefts, right, lp, rp, cap, j, k - 1);
        assert(lefts.take(k).drop_last() =~= lefts.take(k - 1));
    }
}

/// A join that is safe over some left rows is safe at each of them.
proof fn lemma_join_rows_safe_at(
    acc: JoinAcc,
    lefts: Seq<Seq<i64>>,
    right: Option<Seq<Seq<i64>>>,
    has_key: bool,
    lp: int,
    rp: int,
    cap: int,
    i: int,
)
    requires
        join_rows_safe(acc, lefts, right, has_key, lp, rp, cap),
        0 <= i < lefts.len(),
    ensures
        step_safe(join_rows(acc, lefts.take(i), right, lp, rp, cap), lefts[i], right, has_key, lp, rp),
    decreases lefts.len(),
{
    if i == lefts.len() - 1 {
        assert(lefts.take(i) =~= lefts.drop_last());
    } else {
        lemma_join_rows_safe_at(acc, lefts.drop_last(), right, has_key, lp, rp, cap, i);
        assert(lefts.drop_last().take(i) =~= lefts.take(i));
    }
}

// ----------------------------------------------------------------------
// Facts about the specification
// ----------------------------------------------------------------------
/// A scan from position `j` stops, if it stops, at a position from `j` on.
pub proof fn lemma_scan_stop(l: Seq<i64>, rows: Seq<Seq<i64>>, lp: int, rp: int, j: int)
    ensures
        scan(l, rows, lp, rp, j).1 matches Some(s) ==> j <= s < rows.len(),
    decreases rows.len() - j,
{
    if 0 <= j < rows.len() {
        lemma_scan_stop(l, rows, lp, rp, j + 1);
    }
}

/// The join state keeps the block within its size and the right cursor
/// within the right table, never moving it back.
pub proof fn lemma_join_rows_bounds(
    acc: JoinAcc,
    lefts: Seq<Seq<i64>>,
    right: Option<Seq<Seq<i64>>>,
    lp: int,
    rp: int,
    cap: int,
)
    requires
        acc.ret.len() <= cap,
        right matches Some(rows) ==> 0 <= acc.cur <= rows.len(),
    ensures
        join_rows(acc, lefts, right, lp, rp, cap).ret.len() <= cap,
        right matches Some(rows) ==> acc.cur <= join_rows(acc, lefts, right, lp, rp, cap).cur <= rows.len(),
        right is None ==> join_rows(acc, lefts, right, lp, rp, cap) == acc,
    decreases lefts.len(),
{
    if lefts.len() > 0 {
        lemma_join_rows_bounds(acc, lefts.drop_last(), right, lp, rp, cap);
        if let Some(rows) = right {
            let a = join_rows(acc, lefts.drop_last(), right, lp, rp, cap);
            lemma_scan_stop(lefts.last(), rows, lp, rp, a.cur);
        }
    }
}

/// The rows that the step for the left row `l` joins and keeps: none when
/// the join has stopped, has no right table, or runs out of right records
/// on this row.
pub open spec fn step_rows(
    acc: JoinAcc,
    l: Seq<i64>,
    right: Option<Seq<Seq<i64>>>,
    lp: int,
    rp: int,
) -> Seq<Seq<i64>> {
    if acc.needs_block {
        Seq::empty()
    } else {
        match right {
            None => Seq::empty(),
            Some(rows) => {
                let (ms, c) = scan(l, rows, lp, rp, acc.cur);
                if c is None {
                    Seq::empty()
                } else {
                    ms
                }
            },
        }
    }
}

/// Joined records are never lost: every row that a step keeps ends up in
/// the block or in the buffer, and nothing else is added to them.
pub proof fn lemma_join_keeps_results(
    acc: JoinAcc,
    l: Seq<i64>,
    right: Option<Seq<Seq<i64>>>,
    lp: int,
    rp: int,
    cap: int,
)
    requires
        acc.ret.len() <= cap,
    ensures
        ({
            let a = join_step(acc, l, right, lp, rp, cap);
            (a.ret + a.buffer).to_multiset() == (acc.ret + acc.buffer).to_multiset().add(
                step_rows(acc, l, right, lp, rp).to_multiset(),
            )
        }),
{
    broadcast use vstd::multiset::group_multiset_axioms;
    broadcast use vstd::seq_lib::group_to_multiset_ensures;
    let a = join_step(acc, l, right, lp, rp, cap);
    let ms = step_rows(acc, l, right, lp, rp);
    if ms.len() == 0 {
        assert(ms =~= Seq::<Seq<i64>>::empty());
        assert(a.ret == acc.ret && a.buffer == acc.buffer) by {
            if let Some(rows) = right {
                if !acc.needs_block && scan(l, rows, lp, rp, acc.cur).1 is Some {
                    let rs = scan(l, rows, lp, rp, acc.cur).0.reverse();
                    assert(rs.take(0) =~= Seq::<Seq<i64>>::empty());
                    assert(rs.skip(0) =~= Seq::<Seq<i64>>::empty());
                    assert(acc.ret + rs.take(0) =~= acc.ret);
                    assert(acc.buffer + rs.skip(0) =~= acc.buffer);
                }
            }
        }
        assert((acc.ret + acc.buffer).to_multiset().add(ms.to_multiset()) =~= (acc.ret
            + acc.buffer).to_multiset());
    } else {
        let rs = ms.reverse();
        let k = min(cap - acc.ret.len(), rs.len() as int);
        vstd::seq_lib::lemma_multiset_commutative(acc.ret + rs.take(k), acc.buffer + rs.skip(k));
        vstd::seq_lib::lemma_multiset_commutative(acc.ret, rs.take(k));
        vstd::seq_lib::lemma_multiset_commutative(acc.buffer, rs.skip(k));
        vstd::seq_lib::lemma_multiset_commutative(acc.ret, acc.buffer);
        vstd::seq_lib::lemma_multiset_commutative(rs.take(k), rs.skip(k));
        assert(rs.take(k) + rs.skip(k) =~= rs);
        ms.lemma_reverse_to_multiset();
        assert((a.ret + a.buffer).to_multiset() =~= (acc.ret + acc.buffer).to_multiset().add(
            ms.to_multiset(),
        ));
    }
}

/// The rows that the steps for the left rows `lefts` join and keep, in
/// order.
pub open spec fn joined_rows(
    acc: JoinAcc,
    lefts: Seq<Seq<i64>>,
    right: Option<Seq<Seq<i64>>>,
    lp: int,
    rp: int,
    cap: int,
) -> Seq<Seq<i64>>
    decreases lefts.len(),
{
    if lefts.len() == 0 {
        Seq::empty()
    } else {
        joined_rows(acc, lefts.drop_last(), right, lp, rp, cap) + step_rows(
            join_rows(acc, lefts.drop_last(), right, lp, rp, cap),
            lefts.last(),
            right,
            lp,
            rp,
        )
    }
}

/// Over a whole call, no joined row is lost and none is made up: the block
/// and the buffer hold what they held before and every row that the steps
/// joined and kept.
pub proof fn lemma_join_rows_keep_results(
    acc: JoinAcc,
    lefts: Seq<Seq<i64>>,
    right: Option<Seq<Seq<i64>>>,
    lp: int,
    rp: int,
    cap: int,
)
    requires
        acc.ret.len() <= cap,
        right matches Some(rows) ==> 0 <= acc.cur <= rows.len(),
    ensures
        ({
            let a = join_rows(acc, lefts, right, lp, rp, cap);
            (a.ret + a.buffer).to_multiset() == (acc.ret + acc.buffer).to_multiset().add(
                joined_rows(acc, lefts, right, lp, rp, cap).to_multiset(),
            )
        }),
    decreases lefts.len(),
{
    broadcast use vstd::multiset::group_multiset_axioms;
    broadcast use vstd::seq_lib::group_to_multiset_ensures;
    if lefts.len() == 0 {
        assert((acc.ret + acc.buffer).to_multiset().add(Seq::<Seq<i64>>::empty().to_multiset())
            =~= (acc.ret + acc.buffer).to_multiset());
    } else {
        lemma_join_rows_keep_results(acc, lefts.drop_last(), right, lp, rp, cap);
        lemma_join_rows_bounds(acc, lefts.drop_last(), right, lp, rp, cap);
        let a0 = join_rows(acc, lefts.drop_last(), right, lp, rp, cap);
        lemma_join_keeps_results(a0, lefts.last(), right, lp, rp, cap);
        let j0 = joined_rows(acc, lefts.drop_last(), right, lp, rp, cap);
        let ms = step_rows(a0, lefts.last(), right, lp, rp);
        vstd::seq_lib::lemma_multiset_commutative(j0, ms);
        assert((acc.ret + acc.buffer).to_multiset().add(j0.to_multiset()).add(ms.to_multiset())
            =~= (acc.ret + acc.buffer).to_multiset().add(j0.to_multiset().add(ms.to_multiset())));
    }
}

/// Topping the block up from the buffer moves rows, and loses none.
pub proof fn lemma_drain_keeps_rows(ret: Seq<Seq<i64>>, buffer: Seq<Seq<i64>>, cap: int)
    requires
        ret.len() <= cap,
    ensures
        (drain(ret, buffer, cap).0 + drain(ret, buffer, cap).1).to_multiset() == (ret + buffer).to_multiset(),
{
    broadcast use vstd::multiset::group_multiset_axioms;
    let k = min(cap - ret.len(), buffer.len() as int);
    let rs = buffer.reverse();
    let n = buffer.len() as int;
    assert(rs.take(k) =~= buffer.skip(n - k).reverse());
    buffer.skip(n - k).lemma_reverse_to_multiset();
    vstd::seq_lib::lemma_multiset_commutative(ret + rs.take(k), buffer.take(n - k));
    vstd::seq_lib::lemma_multiset_commutative(ret, rs.take(k));
    vstd::seq_lib::lemma_multiset_commutative(ret, buffer);
    vstd::seq_lib::lemma_multiset_commutative(buffer.take(n - k), buffer.skip(n - k));
    assert(buffer.take(n - k) + buffer.skip(n - k) =~= buffer);
    assert((drain(ret, buffer, cap).0 + drain(ret, buffer, cap).1).to_multiset() =~= (ret
        + buffer).to_multiset());
}

impl JoinManager {
    /// A well-formed join has a block size of zero or more and its right
    /// cursor within its right table.
    pub proof fn lemma_wf_bounds(&self)
        requires
            self.wf(),
        ensures
            self.out_size() >= 0,
            self.right_rows() matches Some(rows) ==> 0 <= self.right_pos() <= rows.len(),
    {
        if let Some(it) = &self.right_iter {
            it.lemma_pos_in_range();
        }
    }

    /// Over a call that does not stop for the next right block, the block
    /// (before padding) and the buffer left hold what the buffer held before
    /// and every row the call joined: no joined row is lost or made up.
    pub proof fn lemma_join_call_keeps_results(&self, lefts: Seq<Seq<i64>>)
        requires
            self.wf(),
        ensures
            ({
                let a = self.after(lefts);
                let (block, buffer) = drain(a.ret, a.buffer, self.out_size());
                !a.needs_block ==> (block + buffer).to_multiset() == self.buffered().to_multiset().add(
                    joined_rows(self.start(), lefts, self.right_rows(), self.lp(), self.rp(), self.out_size()).to_multiset(),
                )
            }),
    {
        self.lemma_wf_bounds();
        let st = self.start();
        lemma_join_rows_keep_results(st, lefts, self.right_rows(), self.lp(), self.rp(), self.out_size());
        lemma_join_rows_bounds(st, lefts, self.right_rows(), self.lp(), self.rp(), self.out_size());
        let a = self.after(lefts);
        lemma_drain_keeps_rows(a.ret, a.buffer, self.out_size());
        assert(st.ret + st.buffer =~= self.buffered());
    }
}

/// What a scan from position `j` does: when a right row greater than the
/// left row stops it, that row is the first greater one from `j` on and
/// every row before it is smaller or equal; when none stops it, every row
/// from `j` on is smaller or equal. The rows it joins are exactly `l` joined
/// with each right row, before the stop, whose key equals `l`'s, in order.
pub proof fn lemma_scan_meaning(l: Seq<i64>, rows: Seq<Seq<i64>>, lp: int, rp: int, j: int)
    requires
        0 <= j <= rows.len(),
    ensures
        match scan(l, rows, lp, rp, j).1 {
            Some(s) => {
                &&& j <= s < rows.len()
                &&& l[lp] < rows[s][rp]
                &&& forall|i: int| j <= i < s ==> #[trigger] rows[i][rp] <= l[lp]
            },
            None => forall|i: int| j <= i < rows.len() ==> #[trigger] rows[i][rp] <= l[lp],
        },
        ({
            let end = match scan(l, rows, lp, rp, j).1 {
                Some(s) => s,
                None => rows.len() as int,
            };
            forall|x: Seq<i64>|
                #[trigger] scan(l, rows, lp, rp, j).0.contains(x) <==> exists|i: int|
                    j <= i < end && rows[i][rp] == l[lp] && x == l + #[trigger] rows[i]
        }),
    decreases rows.len() - j,
{
    if j < rows.len() {
        lemma_scan_meaning(l, rows, lp, rp, j + 1);
        let (m, c) = scan(l, rows, lp, rp, j + 1);
        let end = match c {
            Some(s) => s,
            None => rows.len() as int,
        };
        if l[lp] == rows[j][rp] {
            let ms = seq![l + rows[j]] + m;
            assert forall|x: Seq<i64>| ms.contains(x) <==> exists|i: int|
                j <= i < end && rows[i][rp] == l[lp] && x == l + #[trigger] rows[i] by {
                if ms.contains(x) {
                    let t = choose|t: int| 0 <= t < ms.len() && ms[t] == x;
                    if t == 0 {
                        assert(j <= j < end && rows[j][rp] == l[lp] && x == l + rows[j]);
                    } else {
                        assert(m[t - 1] == x);
                        assert(m.contains(x));
                    }
                }
                if exists|i: int| j <= i < end && rows[i][rp] == l[lp] && x == l + #[trigger] rows[i] {
                    let i = choose|i: int| j <= i < end && rows[i][rp] == l[lp] && x == l + #[trigger] rows[i];
                    if i == j {
                        assert(ms[0] == x);
                    } else {
                        assert(m.contains(x));
                        let t = choose|t: int| 0 <= t < m.len() && m[t] == x;
                        assert(ms[t + 1] == x);
                    }
                }
            }
        } else if l[lp] < rows[j][rp] {
        } else {
            assert forall|x: Seq<i64>| m.contains(x) <==> exists|i: int|
                j <= i < end && rows[i][rp] == l[lp] && x == l + #[trigger] rows[i] by {
                if exists|i: int| j <= i < end && rows[i][rp] == l[lp] && x == l + #[trigger] rows[i] {
                    let i = choose|i: int| j <= i < end && rows[i][rp] == l[lp] && x == l + #[trigger] rows[i];
                    assert(i != j);
                }
            }
        }
    }
}

/// What one step of the join does with the right cursor: a step that goes
/// through leaves the cursor on the first right row, from where it was,
/// that is greater than the left row, having passed only rows smaller or
/// equal, and keeps exactly the left row joined with each passed right row
/// of equal key; a step that runs out of right rows stops the join, leaves
/// the cursor where it was and keeps nothing.
pub proof fn lemma_step_scans_to_first_greater(
    acc: JoinAcc,
    l: Seq<i64>,
    rows: Seq<Seq<i64>>,
    lp: int,
    rp: int,
    cap: int,
)
    requires
        !acc.needs_block,
        0 <= acc.cur <= rows.len(),
    ensures
        ({
            let a = join_step(acc, l, Some(rows), lp, rp, cap);
            let kept = step_rows(acc, l, Some(rows), lp, rp);
            &&& !a.needs_block ==> {
                &&& acc.cur <= a.cur < rows.len()
                &&& l[lp] < rows[a.cur][rp]
                &&& forall|i: int| acc.cur <= i < a.cur ==> #[trigger] rows[i][rp] <= l[lp]
                &&& forall|x: Seq<i64>|
                    #[trigger] kept.contains(x) <==> exists|i: int|
                        acc.cur <= i < a.cur && rows[i][rp] == l[lp] && x == l + #[trigger] rows[i]
            }
            &&& a.needs_block ==> {
                &&& a.cur == acc.cur
                &&& forall|i: int| acc.cur <= i < rows.len() ==> #[trigger] rows[i][rp] <= l[lp]
                &&& kept.len() == 0
            }
        }),
{
    lemma_scan_meaning(l, rows, lp, rp, acc.cur);
}

/// Topping a block up from the buffer: the block keeps what it held and
/// takes buffered rows, last buffered first, until it is full or the
/// buffer is empty; so it ends with as many rows as it can, and a block
/// left short means an empty buffer.
pub proof fn lemma_drain_tops_up(ret: Seq<Seq<i64>>, buffer: Seq<Seq<i64>>, cap: int)
    requires
        ret.len() <= cap,
    ensures
        ({
            let (b, rest) = drain(ret, buffer, cap);
            &&& b.len() == min(cap, (ret.len() + buffer.len()) as int)
            &&& b.take(ret.len() as int) == ret
            &&& forall|i: int|
                ret.len() <= i < b.len() ==> #[trigger] b[i] == buffer[buffer.len() - 1 - (i - ret.len())]
            &&& rest == buffer.take(rest.len() as int)
            &&& b.len() + rest.len() == ret.len() + buffer.len()
            &&& b.len() < cap ==> rest.len() == 0
        }),
{
    let (b, rest) = drain(ret, buffer, cap);
    assert(b.take(ret.len() as int) =~= ret);
    assert(rest =~= buffer.take(rest.len() as int));
}

/// Over a call that does not stop for the next right block, the block
/// takes as many real rows as it can: all the rows joined in the call and
/// all the rows buffered before, up to a block's number; it is padded only
/// when no row is left waiting.
pub proof fn lemma_join_call_block_size(jm: JoinManager, lefts: Seq<Seq<i64>>)
    requires
        jm.wf(),
    ensures
        ({
            let a = jm.after(lefts);
            let (block, buffer) = drain(a.ret, a.buffer, jm.out_size());
            let joined = joined_rows(jm.start(), lefts, jm.right_rows(), jm.lp(), jm.rp(), jm.out_size());
            !a.needs_block ==> {
                &&& block.len() == min(jm.out_size(), (joined.len() + jm.buffered().len()) as int)
                &&& block.len() < jm.out_size() ==> buffer.len() == 0
            }
        }),
{
    jm.lemma_wf_bounds();
    jm.lemma_join_call_keeps_results(lefts);
    let st = jm.start();
    let a = jm.after(lefts);
    lemma_join_rows_keep_results(st, lefts, jm.right_rows(), jm.lp(), jm.rp(), jm.out_size());
    lemma_join_rows_bounds(st, lefts, jm.right_rows(), jm.lp(), jm.rp(), jm.out_size());
    lemma_drain_tops_up(a.ret, a.buffer, jm.out_size());
    let joined = joined_rows(st, lefts, jm.right_rows(), jm.lp(), jm.rp(), jm.out_size());
    assert(st.ret + st.buffer =~= jm.buffered());
    broadcast use vstd::seq_lib::group_to_multiset_ensures;
    broadcast use vstd::multiset::group_multiset_axioms;
    assert((a.ret + a.buffer).len() == (a.ret + a.buffer).to_multiset().len());
    assert(jm.buffered().to_multiset().add(joined.to_multiset()).len() == jm.buffered().len()
        + joined.len());
}

/// Every block handed out holds exactly a block's number of records, and
/// begins with the joined and buffered rows that it took.
pub proof fn lemma_block_full(ret: Seq<Seq<i64>>, buffer: Seq<Seq<i64>>, cap: int, filler: Seq<i64>)
    requires
        ret.len() <= cap,
    ensures
        pad(drain(ret, buffer, cap).0, cap, filler).len() == cap,
        pad(drain(ret, buffer, cap).0, cap, filler).take(drain(ret, buffer, cap).0.len() as int)
            == drain(ret, buffer, cap).0,
{
    let b = drain(ret, buffer, cap).0;
    assert(pad(b, cap, filler).take(b.len() as int) =~= b);
}

// ----------------------------------------------------------------------
// Executable code
// ----------------------------------------------------------------------
impl JoinManager {
    /// A join over the columns `join_key` with no right table yet, an empty
    /// buffer, and the values of `stash_map` stashed.
    pub fn new(join_key: Vec<JoinKeyInfo>, stash_map: StashMap) -> (r: Self)
        requires
            stash_map.wf(),
        ensures
            r.wf(),
            r.out_size() == OUTPUT_SIZE,
            r.buffered() == Seq::<Seq<i64>>::empty(),
            r.right_rows() is None,
            r.keys() == join_key@,
            r.stash() == stash_map@,
    {
        let r = Self { output_size: OUTPUT_SIZE, buffer: Vec::new(), right_iter: None, join_key, stash_map };
        assert(r.buffered() =~= Seq::<Seq<i64>>::empty());
        r
    }

    /// Registers the right table, with its cursor at its first record.
    pub fn registry_right_block(&mut self, right: Vec<Record>) -> (r: Result<(), &'static str>)
        requires
            old(self).wf(),
        ensures
            r is Ok,
            final(self).wf(),
            final(self).right_rows() == Some(rows_of(right@)),
            final(self).right_pos() == 0,
            final(self).out_size() == old(self).out_size(),
            final(self).buffered() == old(self).buffered(),
            final(self).keys() == old(self).keys(),
            final(self).stash() == old(self).stash(),
    {
        self.right_iter = Some(DataIterator::new(right));
        Ok(())
    }

    /// Scans the right table for one left record; see `scan`. Refused,
    /// after stashing the note, when the right records run out.
    fn merge_join_scan(&mut self, left_record: &Record) -> (r: Result<Vec<Record>, &'static str>)
        requires
            old(self).wf(),
            step_safe(
                old(self).start(),
                left_record@,
                old(self).right_rows(),
                old(self).keys().len() > 0,
                old(self).lp(),
                old(self).rp(),
            ),
        ensures
            final(self).wf(),
            final(self).out_size() == old(self).out_size(),
            final(self).buffered() == old(self).buffered(),
            final(self).keys() == old(self).keys(),
            final(self).right_rows() == old(self).right_rows(),
            ({
                let a = join_step(
                    JoinAcc {
                        ret: Seq::empty(),
                        buffer: Seq::empty(),
                        cur: old(self).right_pos(),
                        stash: old(self).stash(),
                        needs_block: false,
                    },
                    left_record@,
                    old(self).right_rows(),
                    old(self).lp(),
                    old(self).rp(),
                    0,
                );
                &&& final(self).right_pos() == a.cur
                &&& final(self).stash() == a.stash
                &&& match r {
                    Ok(ans) => {
                        &&& !a.needs_block
                        &&& old(self).right_rows() matches Some(rows) ==> {
                            &&& old(self).right_pos() <= final(self).right_pos() < rows.len()
                            &&& left_record@[old(self).lp()] < rows[final(self).right_pos()][old(self).rp()]
                            &&& forall|i: int|
                                old(self).right_pos() <= i < final(self).right_pos() ==> #[trigger] rows[i][old(
                                    self,
                                ).rp()] <= left_record@[old(self).lp()]
                        }
                        &&& old(self).right_rows() matches Some(rows) ==> rows_of(ans@) == scan(
                            left_record@,
                            rows,
                            old(self).lp(),
                            old(self).rp(),
                            old(self).right_pos(),
                        ).0
                        &&& old(self).right_rows() is None ==> ans@.len() == 0
                    },
                    Err(e) => a.needs_block && e == RIGHT_BLOCK_NEEDED,
                }
            }),
    {
        let mut ans: Vec<Record> = Vec::new();
        let dup = match &self.right_iter {
            Some(it) => Some(it.duplicate()),
            None => None,
        };
        if let Some(mut right_iter) = dup {
            proof {
                right_iter.lemma_pos_in_range();
            }
            let ghost rows = right_iter.rows();
            let ghost start = right_iter.pos();
            let ghost l = left_record@;
            let ghost lp = self.lp();
            let ghost rp = self.rp();
            assert(self.right_rows() == Some(rows));
            assert(self.right_pos() == start);
            loop
                invariant
                    *self == *old(self),
                    0 <= start,
                    self.wf(),
                    self.right_rows() == Some(rows),
                    self.right_pos() == start,
                    right_iter.wf(),
                    right_iter.rows() == rows,
                    start <= right_iter.pos() <= rows.len(),
                    l == left_record@,
                    lp == self.lp(),
                    rp == self.rp(),
                    start < rows.len() ==> self.keys().len() > 0,
                    scan_safe(l, rows, lp, rp, right_iter.pos()),
                    scan(l, rows, lp, rp, start) == (
                        rows_of(ans@) + scan(l, rows, lp, rp, right_iter.pos()).0,
                        scan(l, rows, lp, rp, right_iter.pos()).1,
                    ),
                decreases rows.len() - right_iter.pos(),
            {
                let ghost j = right_iter.pos();
                match right_iter.next() {
                    Some(right_record) => {
                        let lpos = self.join_key[0].lpos as usize;
                        let rpos = self.join_key[0].rpos as usize;
                        assert(right_record@ == rows[j]);
                        assert(lpos == lp && rpos == rp);
                        let a = left_record.items[lpos];
                        let b = right_record.items[rpos];
                        assert(a == l[lp] && b == rows[j][rp]);
                        if a == b {
                            let joined = left_record.union(&right_record);
                            proof {
                                lemma_rows_of_push(ans@, joined);
                                assert(scan(l, rows, lp, rp, j).0 =~= seq![l + rows[j]] + scan(
                                    l,
                                    rows,
                                    lp,
                                    rp,
                                    j + 1,
                                ).0);
                                assert(rows_of(ans@.push(joined)) + scan(l, rows, lp, rp, j + 1).0
                                    =~= rows_of(ans@) + scan(l, rows, lp, rp, j).0);
                            }
                            ans.push(joined);
                        } else if a < b {
                            let c = right_iter.cursor() - 1;
                            match &mut self.right_iter {
                                Some(it) => it.set_cursor(c),
                                None => {},
                            }
                            proof {
                                assert(rows_of(ans@) + Seq::<Seq<i64>>::empty() =~= rows_of(ans@));
                                lemma_scan_meaning(l, rows, lp, rp, start);
                            }
                            return Ok(ans);
                        }
                    },
                    None => {
                        self.stash_map.insert(KEY.to_owned(), STASH_NOTE);
                        return Err(RIGHT_BLOCK_NEEDED);
                    },
                }
            }
        } else {
            assert(rows_of(ans@) =~= Seq::<Seq<i64>>::empty());
        }
        Ok(ans)
    }

    /// Joins the left records `left` with the right table and appends one
    /// block of `OUTPUT_SIZE` records, encoded by `encode`, to the bytes of
    /// the output data: the joined and buffered records that fit, then zero
    /// records (see `pad`); the joined records that do not fit wait in the
    /// buffer for a later call. Refused, with the note stashed, when the right
    /// records run out, since the next right block is needed; refused too,
    /// after the join state has moved on, when the output data is not
    /// registered.
    pub fn join_exec<F: Fn(&Vec<Record>) -> Vec<u8>>(
        &mut self,
        left: Vec<Record>,
        dm: &mut DataManager,
        output: &ObliData,
        encode: F,
    ) -> (r: Result<(), &'static str>)
        requires
            old(self).wf(),
            old(dm).wf(),
            old(self).join_safe(rows_of(left@)),
            forall|b: &Vec<Record>| encode.requires((b,)),
        ensures
            final(self).wf(),
            final(dm).wf(),
            ({
                let a = old(self).after(rows_of(left@));
                let (block, buffer) = drain(a.ret, a.buffer, old(self).out_size());
                let out = output.id@;
                &&& final(self).out_size() == old(self).out_size()
                &&& final(self).keys() == old(self).keys()
                &&& final(self).right_rows() == old(self).right_rows()
                &&& (old(self).right_rows() is Some ==> final(self).right_pos() == a.cur)
                &&& final(self).stash() == a.stash
                &&& a.needs_block ==> {
                    &&& r == Err::<(), &'static str>(RIGHT_BLOCK_NEEDED)
                    &&& final(self).buffered() == a.buffer
                    &&& final(dm)@ == old(dm)@
                }
                &&& !a.needs_block ==> {
                    &&& final(self).buffered() == buffer
                    &&& block.len() == min(
                        old(self).out_size(),
                        (joined_rows(
                            old(self).start(),
                            rows_of(left@),
                            old(self).right_rows(),
                            old(self).lp(),
                            old(self).rp(),
                            old(self).out_size(),
                        ).len() + old(self).buffered().len()) as int,
                    )
                    &&& block.len() < old(self).out_size() ==> final(self).buffered().len() == 0
                    &&& match r {
                        Ok(_) => {
                            &&& old(dm)@.contains_key(out)
                            &&& exists|v: Vec<Record>, bytes: Vec<u8>|
                                {
                                    &&& v@.len() == old(self).out_size()
                                    &&& rows_of(v@) == pad(
                                        block,
                                        old(self).out_size(),
                                        old(self).empty_filler(rows_of(left@)),
                                    )
                                    &&& encode.ensures((&v,), bytes)
                                    &&& final(dm)@ == old(dm)@.insert(
                                        out,
                                        DataView {
                                            description: old(dm)@[out].description,
                                            buffer: old(dm)@[out].buffer + bytes@,
                                        },
                                    )
                                }
                        },
                        Err(e) => {
                            &&& !old(dm)@.contains_key(out)
                            &&& e == OUTPUT_MISSING
                            &&& final(dm)@ == old(dm)@
                        },
                    }
                }
            }),
    {
        let ghost lefts = rows_of(left@);
        proof {
            if let Some(it) = &self.right_iter {
                it.lemma_pos_in_range();
            }
            lemma_join_call_block_size(*old(self), lefts);
        }
        let left_width: usize = if left.len() > 0 {
            left[0].items.len()
        } else {
            0
        };
        let right_width: usize = match &self.right_iter {
            Some(it) => it.first_width(),
            None => 0,
        };
        let filler = Record::zeros(left_width).union(&Record::zeros(right_width));
        proof {
            assert(filler@ =~= old(self).empty_filler(lefts));
        }
        let ghost right = old(self).right_rows();
        let ghost lp = old(self).lp();
        let ghost rp = old(self).rp();
        let cap = self.output_size;
        let mut left_iter = DataIterator::new(left);
        let mut ret: Vec<Record> = Vec::with_capacity(cap);
        proof {
            assert(lefts.take(0) =~= Seq::<Seq<i64>>::empty());
            assert(rows_of(ret@) =~= Seq::<Seq<i64>>::empty());
        }
        loop
            invariant
                self.wf(),
                left_iter.wf(),
                left_iter.rows() == lefts,
                0 <= left_iter.pos() <= lefts.len(),
                cap == old(self).out_size(),
                self.out_size() == old(self).out_size(),
                self.keys() == old(self).keys(),
                self.right_rows() == right,
                right == old(self).right_rows(),
                lp == old(self).lp(),
                rp == old(self).rp(),
                old(self).wf(),
                old(self).join_safe(lefts),
                right matches Some(rows) ==> 0 <= old(self).right_pos() <= rows.len(),
                ret@.len() <= cap,
                *dm == *old(dm),
                old(dm).wf(),
                lefts == rows_of(left@),
                ({
                    let a = old(self).after(lefts.take(left_iter.pos()));
                    &&& !a.needs_block
                    &&& rows_of(ret@) == a.ret
                    &&& self.buffered() == a.buffer
                    &&& self.stash() == a.stash
                    &&& (right is Some ==> self.right_pos() == a.cur)
                }),
            ensures
                self.wf(),
                self.out_size() == old(self).out_size(),
                self.keys() == old(self).keys(),
                self.right_rows() == old(self).right_rows(),
                ret@.len() <= cap,
                cap == old(self).out_size(),
                *dm == *old(dm),
                ({
                    let a = old(self).after(lefts);
                    &&& !a.needs_block
                    &&& rows_of(ret@) == a.ret
                    &&& self.buffered() == a.buffer
                    &&& self.stash() == a.stash
                    &&& (right is Some ==> self.right_pos() == a.cur)
                }),
            decreases lefts.len() - left_iter.pos(),
        {
            let ghost i = left_iter.pos();
            match left_iter.next() {
                Some(record) => {
                    proof {
                        assert(lefts.take(i + 1).drop_last() =~= lefts.take(i));
                        lemma_join_rows_bounds(old(self).start(), lefts.take(i), right, lp, rp, cap as int);
                        lemma_join_rows_safe_at(
                            old(self).start(),
                            lefts,
                            right,
                            old(self).keys().len() > 0,
                            lp,
                            rp,
                            cap as int,
                            i,
                        );
                        assert(lefts[i] == record@);
                    }
                    match self.merge_join_scan(&record) {
                        Ok(result) => {
                            self.distribute_results(&mut ret, result);
                        },
                        Err(_e) => {
                            proof {
                                assert(lefts.take(i + 1).last() == lefts[i]);
                                let ai = old(self).after(lefts.take(i));
                                let ai1 = old(self).after(lefts.take(i + 1));
                                assert(ai1 == join_step(ai, lefts[i], right, lp, rp, cap as int));
                                assert(ai1.needs_block);
                                assert(ai1.stash == self.stash());
                                assert(ai1.buffer == self.buffered());
                                assert(right is Some ==> ai1.cur == self.right_pos());
                                lemma_join_rows_stay_stopped(
                                    old(self).start(),
                                    lefts,
                                    right,
                                    lp,
                                    rp,
                                    cap as int,
                                    i + 1,
                                    lefts.len() as int,
                                );
                                assert(lefts.take(lefts.len() as int) =~= lefts);
                                assert(old(self).after(lefts) == ai1);
                            }
                            return Err(RIGHT_BLOCK_NEEDED);
                        },
                    }
                },
                None => {
                    proof {
                        assert(lefts.take(lefts.len() as int) =~= lefts);
                    }
                    break ;
                },
            }
        }
        self.drain_buffer(&mut ret);
        pad_block(&mut ret, cap, &filler);
        proof {
            let a = old(self).after(lefts);
            lemma_block_full(a.ret, a.buffer, cap as int, filler@);
        }
        let mut bytes = encode(&ret);
        match dm.get_data_mut(output.id.as_str()) {
            Some(target) => {
                target.buffer.append(&mut bytes);
                Ok(())
            },
            None => Err(OUTPUT_MISSING),
        }
    }

    /// Hands out `result` last first: into `ret` while it holds fewer than
    /// a block, the rest onto the buffer.
    fn distribute_results(&mut self, ret: &mut Vec<Record>, result: Vec<Record>)
        requires
            old(ret)@.len() <= old(self).out_size(),
        ensures
            final(ret)@.len() <= old(self).out_size(),
            ({
                let (r, b) = distribute(rows_of(old(ret)@), old(self).buffered(), rows_of(result@), old(self).out_size());
                &&& rows_of(final(ret)@) == r
                &&& final(self).buffered() == b
            }),
            final(self).output_size == old(self).output_size,
            final(self).right_iter == old(self).right_iter,
            final(self).join_key == old(self).join_key,
            final(self).stash_map == old(self).stash_map,
    {
        let ghost ms = rows_of(result@);
        let ghost n0 = result@.len() as int;
        let ghost ret0 = rows_of(ret@);
        let ghost buf0 = self.buffered();
        let ghost rs = ms.reverse();
        let cap = self.output_size;
        let mut result = result;
        proof {
            assert(ms.take(n0) =~= ms);
            assert(rs.take(0) =~= Seq::<Seq<i64>>::empty());
            assert(ret0 + rs.take(0) =~= ret0);
        }
        while ret.len() < cap && result.len() > 0
            invariant
                *self == *old(self),
                cap == self.output_size,
                rs == ms.reverse(),
                n0 == ms.len(),
                result@.len() <= n0,
                rows_of(result@) == ms.take(result@.len() as int),
                rows_of(ret@) == ret0 + rs.take(n0 - result@.len()),
                ret@.len() == ret0.len() + (n0 - result@.len()),
                ret@.len() <= cap,
            decreases result@.len(),
        {
            let ghost t = n0 - result@.len();
            let ghost pre = result@;
            let x = result.pop().unwrap();
            proof {
                assert(rows_of(pre)[pre.len() - 1] == x@);
                assert(ms.take(n0 - t)[n0 - t - 1] == ms[n0 - t - 1]);
                assert(rows_of(result@) =~= ms.take(result@.len() as int));
                lemma_rows_of_push(ret@, x);
                assert(rs.take(t + 1) =~= rs.take(t).push(ms[n0 - 1 - t]));
            }
            ret.push(x);
        }
        let ghost k = n0 - result@.len();
        assert(k == min(cap - ret0.len(), rs.len() as int));
        proof {
            assert(rs.skip(k).take(0) =~= Seq::<Seq<i64>>::empty());
            assert(buf0 + rs.skip(k).take(0) =~= buf0);
        }
        while result.len() > 0
            invariant
                self.output_size == old(self).output_size,
                self.right_iter == old(self).right_iter,
                self.join_key == old(self).join_key,
                self.stash_map == old(self).stash_map,
                rs == ms.reverse(),
                n0 == ms.len(),
                0 <= k <= n0,
                result@.len() <= n0 - k,
                rows_of(result@) == ms.take(result@.len() as int),
                rows_of(self.buffer@) == buf0 + rs.skip(k).take(n0 - k - result@.len()),
            decreases result@.len(),
        {
            let ghost t = n0 - k - result@.len();
            let ghost pre = result@;
            let x = result.pop().unwrap();
            proof {
                assert(rows_of(pre)[pre.len() - 1] == x@);
                assert(ms.take(n0 - k - t)[n0 - k - t - 1] == ms[n0 - k - t - 1]);
                assert(rows_of(result@) =~= ms.take(result@.len() as int));
                lemma_rows_of_push(self.buffer@, x);
                assert(rs.skip(k).take(t + 1) =~= rs.skip(k).take(t).push(ms[n0 - 1 - k - t]));
            }
            self.buffer.push(x);
        }
        proof {
            assert(rs.skip(k).take(n0 - k) =~= rs.skip(k));
        }
    }

    /// Tops `ret` up to a block from the buffer, last buffered first.
    fn drain_buffer(&mut self, ret: &mut Vec<Record>)
        requires
            old(ret)@.len() <= old(self).out_size(),
        ensures
            final(ret)@.len() <= old(self).out_size(),
            ({
                let (r, b) = drain(rows_of(old(ret)@), old(self).buffered(), old(self).out_size());
                &&& rows_of(final(ret)@) == r
                &&& final(self).buffered() == b
            }),
            final(self).output_size == old(self).output_size,
            final(self).right_iter == old(self).right_iter,
            final(self).join_key == old(self).join_key,
            final(self).stash_map == old(self).stash_map,
    {
        let ghost b0 = self.buffered();
        let ghost n0 = b0.len() as int;
        let ghost ret0 = rows_of(ret@);
        let ghost rs = b0.reverse();
        let cap = self.output_size;
        proof {
            assert(b0.take(n0) =~= b0);
            assert(ret0 + rs.take(0) =~= ret0);
        }
        while ret.len() < cap && self.buffer.len() > 0
            invariant
                self.output_size == old(self).output_size,
                self.right_iter == old(self).right_iter,
                self.join_key == old(self).join_key,
                self.stash_map == old(self).stash_map,
                cap == self.output_size,
                rs == b0.reverse(),
                n0 == b0.len(),
                self.buffer@.len() <= n0,
                rows_of(self.buffer@) == b0.take(self.buffer@.len() as int),
                rows_of(ret@) == ret0 + rs.take(n0 - self.buffer@.len()),
                ret@.len() == ret0.len() + (n0 - self.buffer@.len()),
                ret@.len() <= cap,
            decreases self.buffer@.len(),
        {
            let ghost t = n0 - self.buffer@.len();
            let ghost pre = self.buffer@;
            let x = self.buffer.pop().unwrap();
            proof {
                assert(rows_of(pre)[pre.len() - 1] == x@);
                assert(b0.take(n0 - t)[n0 - t - 1] == b0[n0 - t - 1]);
                assert(rows_of(self.buffer@) =~= b0.take(self.buffer@.len() as int));
                lemma_rows_of_push(ret@, x);
                assert(rs.take(t + 1) =~= rs.take(t).push(b0[n0 - 1 - t]));
            }
            ret.push(x);
        }
    }
}

/// Pads a block that is not full with zero records as wide as its first
/// record, or like `filler` when it holds none; see `pad`.
fn pad_block(ret: &mut Vec<Record>, cap: usize, filler: &Record)
    requires
        old(ret)@.len() <= cap,
    ensures
        rows_of(final(ret)@) == pad(rows_of(old(ret)@), cap as int, filler@),
{
    let ghost d = rows_of(ret@);
    let ghost n0 = ret@.len() as int;
    let z = if ret.len() > 0 {
        ret[0].gen_dummy_with_same_schema()
    } else {
        filler.clone()
    };
    proof {
        assert(z@ == (if d.len() > 0 {
            dummy_row(d[0])
        } else {
            filler@
        }));
        assert(d + Seq::new(0nat, |i: int| z@) =~= d);
    }
    while ret.len() < cap
        invariant
            n0 == d.len(),
            n0 <= ret@.len() <= cap,
            rows_of(ret@) == d + Seq::new((ret@.len() - n0) as nat, |i: int| z@),
        decreases cap - ret@.len(),
    {
        let next = z.clone();
        proof {
            lemma_rows_of_push(ret@, next);
            assert(d + Seq::new((ret@.len() + 1 - n0) as nat, |i: int| z@) =~= (d + Seq::new(
                (ret@.len() - n0) as nat,
                |i: int| z@,
            )).push(z@));
        }
        ret.push(next);
    }
}

impl ContinuousCompute for JoinManager {
    /// The join goes on once its note is stashed.
    open spec fn can_continue(&self, vals: Map<Seq<char>, &'static str>) -> bool {
        vals.contains_key(KEY@)
    }

    /// The join's step leaves the stashed values as they are.
    open spec fn step_result(
        &self,
        vals: Map<Seq<char>, &'static str>,
        new_vals: Map<Seq<char>, &'static str>,
    ) -> bool {
        new_vals == vals
    }

    /// Reads the stashed note; nothing changes.
    fn contine_compute(&mut self, vals: &mut StashMap)
        ensures
            final(vals)@ == old(vals)@,
            *final(self) == *old(self),
    {
        let _note = vals.get(KEY).unwrap();
    }
}

} // verus!
