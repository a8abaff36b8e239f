//! Records of a table and a cursor that reads them in order.
use vstd::prelude::*;

verus! {

/// One row of a table: its column values, which order it against other
/// rows.
pub struct Record {
    pub items: Vec<i64>,
}

impl View for Record {
    type V = Seq<i64>;

    open spec fn view(&self) -> Seq<i64> {
        self.items@
    }
}

/// The rows that a vector of records stands for.
pub open spec fn rows_of(v: Seq<Record>) -> Seq<Seq<i64>> {
    v.map_values(|r: Record| r@)
}

/// Pushing a record pushes its row.
pub proof fn lemma_rows_of_push(v: Seq<Record>, r: Record)
    ensures
        rows_of(v.push(r)) == rows_of(v).push(r@),
{
    assert(rows_of(v.push(r)) =~= rows_of(v).push(r@));
}

/// The row of `n` zero columns.
pub open spec fn zero_row(n: nat) -> Seq<i64> {
    Seq::new(n, |i: int| 0i64)
}

/// The row of the same width as `row` that stands in for a missing result.
pub open spec fn dummy_row(row: Seq<i64>) -> Seq<i64> {
    zero_row(row.len())
}

impl Clone for Record {
    fn clone(&self) -> (r: Self)
        ensures
            r@ == self@,
    {
        let items = self.items.clone();
        assert(items@ =~= self.items@);
        Record { items }
    }
}

impl Record {
    /// The row made of this row's columns followed by `other`'s.
    pub fn union(&self, other: &Record) -> (r: Record)
        ensures
            r@ == self@ + other@,
    {
        let mut items: Vec<i64> = self.items.clone();
        assert(items@ =~= self.items@);
        let mut i: usize = 0;
        while i < other.items.len()
            invariant
                i <= other@.len(),
                items@ == self@ + other@.take(i as int),
            decreases other@.len() - i,
        {
            items.push(other.items[i]);
            i = i + 1;
            assert(items@ =~= self@ + other@.take(i as int));
        }
        assert(other@.take(other@.len() as int) =~= other@);
        Record { items }
    }

    /// A row of the same width whose columns are all zero.
    pub fn gen_dummy_with_same_schema(&self) -> (r: Record)
        ensures
            r@ == dummy_row(self@),
    {
        Record::zeros(self.items.len())
    }

    /// A row of `n` zero columns.
    pub fn zeros(n: usize) -> (r: Record)
        ensures
            r@ == zero_row(n as nat),
    {
        let mut items: Vec<i64> = Vec::new();
        let mut i: usize = 0;
        while i < n
            invariant
                i <= n,
                items@ == zero_row(n as nat).take(i as int),
            decreases n - i,
        {
            items.push(0);
            i = i + 1;
            assert(items@ =~= zero_row(n as nat).take(i as int));
        }
        assert(zero_row(n as nat).take(n as int) =~= zero_row(n as nat));
        Record { items }
    }
}

/// A cursor over the records of a table.
pub struct DataIterator {
    records: Vec<Record>,
    cur: usize,
}

impl DataIterator {
    /// The rows of the table.
    pub closed spec fn rows(&self) -> Seq<Seq<i64>> {
        rows_of(self.records@)
    }

    /// The position of the next row to read.
    pub closed spec fn pos(&self) -> int {
        self.cur as int
    }

    /// The cursor is within the table.
    pub closed spec fn wf(&self) -> bool {
        self.cur <= self.records@.len()
    }

    /// A well-formed cursor lies within the table.
    pub proof fn lemma_pos_in_range(&self)
        requires
            self.wf(),
        ensures
            0 <= self.pos() <= self.rows().len(),
    {
    }

    /// A cursor at the first record of `records`.
    pub fn new(records: Vec<Record>) -> (r: DataIterator)
        ensures
            r.wf(),
            r.rows() == rows_of(records@),
            r.pos() == 0,
    {
        DataIterator { records, cur: 0 }
    }

    /// The width of the table's first row, or zero for an empty table.
    pub fn first_width(&self) -> (r: usize)
        ensures
            r == (if self.rows().len() > 0 {
                self.rows()[0].len()
            } else {
                0
            }),
    {
        if self.records.len() > 0 {
            self.records[0].items.len()
        } else {
            0
        }
    }

    /// The position of the next row to read.
    pub fn cursor(&self) -> (r: usize)
        ensures
            r == self.pos(),
    {
        self.cur
    }

    /// Moves the cursor to `cur`.
    pub fn set_cursor(&mut self, cur: usize)
        requires
            cur <= old(self).rows().len(),
        ensures
            final(self).wf(),
            final(self).rows() == old(self).rows(),
            final(self).pos() == cur,
    {
        self.cur = cur;
    }

    /// A cursor over the same rows at the same position.
    pub fn duplicate(&self) -> (r: DataIterator)
        requires
            self.wf(),
        ensures
            r.wf(),
            r.rows() == self.rows(),
            r.pos() == self.pos(),
    {
        let mut records: Vec<Record> = Vec::new();
        let mut i: usize = 0;
        while i < self.records.len()
            invariant
                i <= self.records@.len(),
                rows_of(records@) == rows_of(self.records@).take(i as int),
            decreases self.records@.len() - i,
        {
            let r = self.records[i].clone();
            proof {
                lemma_rows_of_push(records@, r);
                assert(rows_of(self.records@).take(i + 1) =~= rows_of(self.records@).take(
                    i as int,
                ).push(self.records@[i as int]@));
            }
            records.push(r);
            i = i + 1;
            assert(rows_of(records@) =~= rows_of(self.records@).take(i as int));
        }
        assert(rows_of(self.records@).take(self.records@.len() as int) =~= rows_of(self.records@));
        DataIterator { records, cur: self.cur }
    }

    /// The next row, if any; the cursor moves past it.
    pub fn next(&mut self) -> (r: Option<Record>)
        requires
            old(self).wf(),
        ensures
            final(self).wf(),
            final(self).rows() == old(self).rows(),
            old(self).pos() < old(self).rows().len() ==> r is Some && r->0@ == old(self).rows()[old(
                self,
            ).pos()] && final(self).pos() == old(self).pos() + 1,
            old(self).pos() >= old(self).rows().len() ==> r is None && final(self).pos() == old(
                self,
            ).pos(),
    {
        if self.cur < self.records.len() {
            let r = self.records[self.cur].clone();
            self.cur = self.cur + 1;
            Some(r)
        } else {
            None
        }
    }
}

} // verus!
