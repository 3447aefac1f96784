//! Tables with two keys, as the parsers read them.

use vstd::prelude::*;

verus! {

/// The value that a row holds for a key: that of the last entry with the
/// key.
pub open spec fn row_find<T>(row: Seq<(usize, T)>, key: usize) -> Option<T>
    decreases row.len(),
{
    if row.len() == 0 {
        None
    } else if row.last().0 == key {
        Some(row.last().1)
    } else {
        row_find(row.drop_last(), key)
    }
}

/// The number of entries of all rows.
pub open spec fn count_entries<T>(rows: Seq<Vec<(usize, T)>>) -> nat
    decreases rows.len(),
{
    if rows.len() == 0 {
        0
    } else {
        count_entries(rows.drop_last()) + rows.last()@.len()
    }
}

/// The `Table` type maps pairs of IDs to values. The first ID of a pair is
/// below the height of the table.
#[derive(Debug)]
pub struct Table<T> {
    pub rows: Vec<Vec<(usize, T)>>,
}

impl<T> View for Table<T> {
    type V = Map<(usize, usize), T>;

    open spec fn view(&self) -> Map<(usize, usize), T> {
        Map::new(
            |k: (usize, usize)| k.0 < self.rows.len() && row_find(self.rows[k.0 as int]@, k.1) is Some,
            |k: (usize, usize)| row_find(self.rows[k.0 as int]@, k.1)->0,
        )
    }
}

impl<T: Copy> Table<T> {
    /// The number of first IDs that the table takes.
    pub open spec fn height(&self) -> nat {
        self.rows.len() as nat
    }

    /// The number of entries that the table stores, or the greatest number
    /// that can be counted.
    pub open spec fn spec_size(&self) -> usize {
        if count_entries(self.rows@) > usize::MAX {
            usize::MAX
        } else {
            count_entries(self.rows@) as usize
        }
    }

    /// Returns the number of entries that the table stores, or the greatest
    /// number that can be counted.
    pub fn size(&self) -> (size: usize)
        ensures
            size == self.spec_size(),
    {
        let mut size: usize = 0;
        let mut at: usize = 0;
        assert(self.rows@.subrange(0, 0) =~= Seq::<Vec<(usize, T)>>::empty());
        while at < self.rows.len()
            invariant
                at <= self.rows.len(),
                size == (if count_entries(self.rows@.subrange(0, at as int)) > usize::MAX {
                    usize::MAX
                } else {
                    count_entries(self.rows@.subrange(0, at as int)) as usize
                }),
            decreases self.rows.len() - at,
        {
            let ghost part = self.rows@.subrange(0, at + 1);
            assert(part.drop_last() =~= self.rows@.subrange(0, at as int));
            assert(part.last() == self.rows@[at as int]);
            let len = self.rows[at].len();
            size = if len > usize::MAX - size {
                usize::MAX
            } else {
                size + len
            };
            at += 1;
        }
        assert(self.rows@.subrange(0, at as int) =~= self.rows@);
        size
    }

    /// Constructs an empty table of the given height.
    pub fn new(height: usize) -> (table: Table<T>)
        ensures
            table.height() == height,
            table@ == Map::<(usize, usize), T>::empty(),
    {
        let mut rows: Vec<Vec<(usize, T)>> = Vec::new();
        while rows.len() < height
            invariant
                rows.len() <= height,
                forall|i: int| 0 <= i < rows.len() ==> (#[trigger] rows[i])@.len() == 0,
            decreases height - rows.len(),
        {
            rows.push(Vec::new());
        }
        let table = Table { rows };
        assert(table@ =~= Map::<(usize, usize), T>::empty());
        table
    }

    /// Returns the value of the pair, if the table has one.
    pub fn get(&self, a: usize, b: usize) -> (value: Option<T>)
        ensures
            value == (if self@.contains_key((a, b)) {
                Some(self@[(a, b)])
            } else {
                None
            }),
    {
        if a >= self.rows.len() {
            return None;
        }
        let row = &self.rows[a];
        let mut at: usize = row.len();
        assert(row@.subrange(0, at as int) =~= row@);
        while at > 0
            invariant
                a < self.rows.len(),
                *row == self.rows[a as int],
                at <= row.len(),
                row_find(row@, b) == row_find(row@.subrange(0, at as int), b),
            decreases at,
        {
            let ghost part = row@.subrange(0, at as int);
            assert(part.drop_last() =~= row@.subrange(0, at - 1));
            assert(part.last() == row@[at - 1]);
            at -= 1;
            if row[at].0 == b {
                return Some(row[at].1);
            }
        }
        None
    }

    /// Sets the value of the pair.
    pub fn insert(&mut self, a: usize, b: usize, value: T)
        requires
            a < old(self).height(),
        ensures
            final(self).height() == old(self).height(),
            final(self)@ == old(self)@.insert((a, b), value),
    {
        let ghost before = self.rows@;
        self.rows[a].push((b, value));
        proof {
            let after = self.rows@;
            assert(after[a as int]@.drop_last() =~= before[a as int]@);
            assert forall|k: (usize, usize)| #[trigger]
                self@.contains_key(k) <==> old(self)@.insert((a, b), value).contains_key(k) by {
                if k.0 < after.len() && k.0 != a {
                    assert(after[k.0 as int] == before[k.0 as int]);
                }
            }
            assert forall|k: (usize, usize)| self@.contains_key(k) implies #[trigger] self@[k] == old(
                self,
            )@.insert((a, b), value)[k] by {
                if k.0 != a {
                    assert(after[k.0 as int] == before[k.0 as int]);
                }
            }
            assert(self@ =~= old(self)@.insert((a, b), value));
        }
    }
}

} // verus!
