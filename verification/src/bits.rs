//! Bit vectors and boolean relations that know how many of their cells are
//! set. The count gives the fixed-point computations of the grammar analysis
//! their termination measure: every round that changes anything sets a cell
//! that was clear.

use vstd::prelude::*;

verus! {

/// Number of `true` entries of a sequence.
pub open spec fn count_true(s: Seq<bool>) -> nat
    decreases s.len(),
{
    if s.len() == 0 {
        0
    } else {
        count_true(s.drop_last()) + if s.last() {
            1nat
        } else {
            0nat
        }
    }
}

/// A sequence has at most as many `true` entries as it has entries.
pub proof fn lemma_count_bound(s: Seq<bool>)
    ensures
        count_true(s) <= s.len(),
    decreases s.len(),
{
    if s.len() > 0 {
        lemma_count_bound(s.drop_last());
    }
}

/// Writing one entry changes the count by the difference of the old and the
/// new value.
pub proof fn lemma_count_update(s: Seq<bool>, i: int, value: bool)
    requires
        0 <= i < s.len(),
    ensures
        count_true(s.update(i, value)) + (if s[i] { 1int } else { 0int })
            == count_true(s) + (if value { 1int } else { 0int }),
    decreases s.len(),
{
    let u = s.update(i, value);
    if i == s.len() - 1 {
        assert(u.drop_last() =~= s.drop_last());
    } else {
        assert(u.drop_last() =~= s.drop_last().update(i, value));
        lemma_count_update(s.drop_last(), i, value);
    }
}

/// Number of `true` cells of a list of rows.
pub open spec fn count_rows(rows: Seq<Vec<bool>>) -> nat
    decreases rows.len(),
{
    if rows.len() == 0 {
        0
    } else {
        count_rows(rows.drop_last()) + count_true(rows.last()@)
    }
}

/// Rows of one width hold at most height times width `true` cells.
pub proof fn lemma_rows_bound(rows: Seq<Vec<bool>>, width: nat)
    requires
        forall|i: int| 0 <= i < rows.len() ==> (#[trigger] rows[i]).len() == width,
    ensures
        count_rows(rows) <= rows.len() * width,
    decreases rows.len(),
{
    if rows.len() > 0 {
        lemma_rows_bound(rows.drop_last(), width);
        lemma_count_bound(rows.last()@);
        assert(rows.len() * width == (rows.len() - 1) * width + width) by (nonlinear_arith);
    }
}

/// Replacing one row changes the count by the difference of the two rows.
pub proof fn lemma_rows_update(rows: Seq<Vec<bool>>, x: int, row: Vec<bool>)
    requires
        0 <= x < rows.len(),
    ensures
        count_rows(rows.update(x, row)) + count_true(rows[x]@) == count_rows(rows) + count_true(
            row@,
        ),
    decreases rows.len(),
{
    let u = rows.update(x, row);
    if x == rows.len() - 1 {
        assert(u.drop_last() =~= rows.drop_last());
    } else {
        assert(u.drop_last() =~= rows.drop_last().update(x, row));
        lemma_rows_update(rows.drop_last(), x, row);
    }
}

/// Returns a vector of `len` entries, all `false`.
pub fn cleared(len: usize) -> (bits: Vec<bool>)
    ensures
        bits.len() == len,
        forall|i: int| 0 <= i < len ==> !bits[i],
{
    let mut bits: Vec<bool> = Vec::new();
    while bits.len() < len
        invariant
            bits.len() <= len,
            forall|i: int| 0 <= i < bits.len() ==> !bits[i],
        decreases len - bits.len(),
    {
        bits.push(false);
    }
    bits
}

/// Returns the indices of the `true` entries, in ascending order.
pub fn members(bits: &Vec<bool>) -> (ids: Vec<usize>)
    ensures
        forall|i: int, j: int| 0 <= i < j < ids.len() ==> ids[i] < ids[j],
        forall|t: usize| ids@.contains(t) <==> (t < bits.len() && bits[t as int]),
{
    let mut ids: Vec<usize> = Vec::new();
    let mut idx: usize = 0;
    while idx < bits.len()
        invariant
            idx <= bits.len(),
            forall|i: int, j: int| 0 <= i < j < ids.len() ==> ids[i] < ids[j],
            forall|i: int| 0 <= i < ids.len() ==> ids[i] < idx,
            forall|t: usize| ids@.contains(t) <==> (t < idx && bits[t as int]),
        decreases bits.len() - idx,
    {
        if bits[idx] {
            let ghost before = ids@;
            ids.push(idx);
            assert forall|t: usize| ids@.contains(t) <==> (t < idx + 1 && bits[t as int]) by {
                if ids@.contains(t) {
                    let k = choose|k: int| 0 <= k < ids.len() && ids[k] == t;
                    if k < before.len() {
                        assert(before.contains(t));
                    }
                }
                if t < idx + 1 && bits[t as int] {
                    if t == idx {
                        assert(ids[ids.len() - 1] == t);
                    } else {
                        assert(before.contains(t));
                        let k = choose|k: int| 0 <= k < before.len() && before[k] == t;
                        assert(ids[k] == t);
                    }
                }
            }
        }
        idx += 1;
    }
    ids
}

/// A boolean relation between two ranges of IDs, stored as a matrix.
pub struct Relation {
    rows: Vec<Vec<bool>>,
    width: usize,
}

impl Relation {
    /// Number of rows.
    pub closed spec fn height(&self) -> nat {
        self.rows.len() as nat
    }

    /// Number of columns.
    pub closed spec fn width(&self) -> nat {
        self.width as nat
    }

    /// Every row has the relation's width.
    pub closed spec fn wf(&self) -> bool {
        forall|i: int| 0 <= i < self.rows.len() ==> (#[trigger] self.rows[i]).len() == self.width
    }

    /// Whether the pair is in the relation.
    pub closed spec fn has(&self, x: int, t: int) -> bool {
        0 <= x < self.rows.len() && 0 <= t < self.rows[x].len() && self.rows[x][t]
    }

    /// Number of pairs that are not in the relation.
    pub closed spec fn free(&self) -> nat {
        (self.rows.len() * self.width - count_rows(self.rows@)) as nat
    }

    /// The pairs of the relation, as a set.
    pub open spec fn pairs(&self) -> Set<(usize, usize)> {
        Set::new(|p: (usize, usize)| self.has(p.0 as int, p.1 as int))
    }

    /// Constructs the empty relation of the given size.
    pub fn new(height: usize, width: usize) -> (relation: Relation)
        ensures
            relation.wf(),
            relation.height() == height,
            relation.width() == width,
            forall|x: int, t: int| !relation.has(x, t),
    {
        let mut rows: Vec<Vec<bool>> = Vec::new();
        while rows.len() < height
            invariant
                rows.len() <= height,
                forall|i: int| 0 <= i < rows.len() ==> (#[trigger] rows[i]).len() == width,
                forall|i: int, t: int|
                    0 <= i < rows.len() && 0 <= t < width ==> !(#[trigger] rows[i][t]),
            decreases height - rows.len(),
        {
            rows.push(cleared(width));
        }
        Relation { rows, width }
    }

    /// Returns `true` if the pair is in the relation.
    pub fn get(&self, x: usize, t: usize) -> (present: bool)
        requires
            self.wf(),
            x < self.height(),
            t < self.width(),
        ensures
            present == self.has(x as int, t as int),
    {
        self.rows[x][t]
    }

    /// Returns a copy of the relation.
    pub fn duplicate(&self) -> (copy: Relation)
        ensures
            copy.wf() == self.wf(),
            copy.height() == self.height(),
            copy.width() == self.width(),
            forall|x: int, t: int| copy.has(x, t) == self.has(x, t),
    {
        let mut rows: Vec<Vec<bool>> = Vec::new();
        while rows.len() < self.rows.len()
            invariant
                rows.len() <= self.rows.len(),
                forall|i: int| 0 <= i < rows.len() ==> (#[trigger] rows[i])@ == self.rows[i]@,
            decreases self.rows.len() - rows.len(),
        {
            let row = self.rows[rows.len()].clone();
            rows.push(row);
        }
        let copy = Relation { rows, width: self.width };
        proof {
            assert(copy.rows.len() == self.rows.len());
            if self.wf() {
                assert forall|i: int| 0 <= i < copy.rows.len() implies (#[trigger] copy.rows[i]).len()
                    == copy.width by {
                    assert(copy.rows[i]@ == self.rows[i]@);
                    assert(self.rows[i].len() == self.width);
                }
            }
            if copy.wf() {
                assert forall|i: int| 0 <= i < self.rows.len() implies (#[trigger] self.rows[i]).len()
                    == self.width by {
                    assert(copy.rows[i]@ == self.rows[i]@);
                    assert(copy.rows[i].len() == copy.width);
                }
            }
            assert forall|x: int, t: int| copy.has(x, t) == self.has(x, t) by {
                if 0 <= x < self.rows.len() {
                    assert(copy.rows[x]@ == self.rows[x]@);
                }
            }
        }
        copy
    }

    /// Returns a copy of a row: for each column, whether the pair is in the
    /// relation.
    pub fn row_copy(&self, x: usize) -> (row: Vec<bool>)
        requires
            self.wf(),
            x < self.height(),
        ensures
            row.len() == self.width(),
            forall|t: int| 0 <= t < row.len() ==> row[t] == self.has(x as int, t),
    {
        self.rows[x].clone()
    }

    /// A pair of the relation lies within its size.
    pub proof fn lemma_has_range(&self, x: int, t: int)
        requires
            self.wf(),
            self.has(x, t),
        ensures
            0 <= x < self.height(),
            0 <= t < self.width(),
    {
    }

    /// Puts the pair into the relation.
    pub fn set(&mut self, x: usize, t: usize)
        requires
            old(self).wf(),
            x < old(self).height(),
            t < old(self).width(),
        ensures
            final(self).wf(),
            final(self).height() == old(self).height(),
            final(self).width() == old(self).width(),
            forall|a: int, b: int|
                final(self).has(a, b) == (old(self).has(a, b) || (a == x && b == t)),
            final(self).free() + (if old(self).has(x as int, t as int) { 0int } else { 1int })
                == old(self).free(),
    {
        let ghost before = self.rows@;
        proof {
            lemma_rows_bound(before, self.width as nat);
        }
        self.rows[x][t] = true;
        proof {
            let after = self.rows@;
            assert(after =~= before.update(x as int, after[x as int]));
            lemma_rows_update(before, x as int, after[x as int]);
            lemma_count_update(before[x as int]@, t as int, true);
            lemma_rows_bound(after, self.width as nat);
        }
    }
}

} // verus!
