//! Index bookkeeping of the seam solver: the sparse rows of its least-squares
//! system, the mesh edges it compares, and integer pixel positions.
use std::collections::HashSet;
use vstd::prelude::*;

verus! {

broadcast use vstd::std_specs::hash::group_hash_axioms;

/// One row of a sparse matrix: the columns that hold a coefficient, kept in
/// increasing order, and their coefficients. `size` entries are in use out of
/// `capacity` allocated ones; `zero` is what an absent column reads as.
pub struct Row<T> {
    pub size: usize,
    pub capacity: usize,
    pub coefficients: Vec<T>,
    pub indices: Vec<usize>,
    pub zero: T,
}

impl<T: Copy> Row<T> {
    /// The columns in use, in storage order.
    pub open spec fn keys(self) -> Seq<usize> {
        self.indices@.take(self.size as int)
    }

    /// Both buffers hold `capacity` slots, the used columns strictly
    /// increase, and unused column slots hold 0.
    pub open spec fn wf(self) -> bool {
        &&& self.size <= self.capacity
        &&& self.capacity != 1
        &&& self.indices.len() == self.capacity
        &&& self.coefficients.len() == self.capacity
        &&& forall|i: int, j: int| 0 <= i < j < self.size ==> self.indices@[i] < self.indices@[j]
        &&& forall|i: int| self.size <= i < self.capacity ==> self.indices@[i] == 0
    }

    /// The coefficient stored for each column in use.
    pub open spec fn view(self) -> Map<usize, T> {
        Map::new(
            |c: usize| self.keys().contains(c),
            |c: usize| self.coefficients@[self.keys().index_of(c)],
        )
    }

    /// What `get` reads for `column`.
    pub open spec fn value(self, column: usize) -> T {
        if self.view().contains_key(column) {
            self.view()[column]
        } else {
            self.zero
        }
    }

    proof fn lemma_view_at(self, i: int)
        requires
            self.wf(),
            0 <= i < self.size,
        ensures
            self.view().contains_key(self.indices@[i]),
            self.view()[self.indices@[i]] == self.coefficients@[i],
    {
        let c = self.indices@[i];
        assert(self.keys()[i] == c);
        let j = self.keys().index_of(c);
        assert(self.keys()[j] == c);
        if j < i {
            assert(self.indices@[j] < self.indices@[i]);
        } else if j > i {
            assert(self.indices@[i] < self.indices@[j]);
        }
    }


    /// Inserting `column` at slot `index` of a row, where it belongs in the
    /// order, keeps the columns increasing and adds `column` with `zero`.
    proof fn lemma_insert(pre: Row<T>, post: Row<T>, index: int, column: usize)
        requires
            pre.wf(),
            0 <= index <= pre.size,
            forall|k: int| 0 <= k < index ==> pre.indices@[k] < column,
            index < pre.size ==> pre.indices@[index] > column,
            post.size == pre.size + 1,
            post.size <= post.indices.len(),
            post.size <= post.coefficients.len(),
            post.zero == pre.zero,
            post.keys() == pre.keys().insert(index, column),
            post.coefficients@.take(post.size as int) == pre.coefficients@.take(pre.size as int).insert(
                index,
                pre.zero,
            ),
        ensures
            forall|a: int, b: int| 0 <= a < b < post.size ==> post.indices@[a] < post.indices@[b],
            post.indices@[index] == column,
            post.view() == pre.view().insert(column, pre.zero),
    {
        pre.keys().insert_ensures(index, column);
        pre.coefficients@.take(pre.size as int).insert_ensures(index, pre.zero);
        assert forall|a: int, b: int| 0 <= a < b < post.size implies post.indices@[a] < post.indices@[b] by {
            assert(post.keys()[a] == post.indices@[a]);
            assert(post.keys()[b] == post.indices@[b]);
            if b < index {
                assert(post.keys()[b] == pre.keys()[b]);
                assert(post.keys()[a] == pre.keys()[a]);
            } else if b == index {
                assert(post.keys()[a] == pre.keys()[a]);
            } else if a > index {
                assert(post.keys()[a] == pre.keys()[a - 1]);
                assert(post.keys()[b] == pre.keys()[b - 1]);
            } else if a == index {
                assert(post.keys()[b] == pre.keys()[b - 1]);
                if b - 1 > index {
                    assert(pre.indices@[index] < pre.indices@[b - 1]);
                }
            } else {
                assert(post.keys()[a] == pre.keys()[a]);
                assert(post.keys()[b] == pre.keys()[b - 1]);
            }
        }
        assert(post.keys()[index] == column);
        let target = pre.view().insert(column, pre.zero);
        assert forall|c: usize| #[trigger] post.view().contains_key(c) == target.contains_key(c) by {
            if post.keys().contains(c) {
                let j = post.keys().index_of(c);
                if j < index {
                    assert(pre.keys()[j] == c);
                } else if j > index {
                    assert(pre.keys()[j - 1] == c);
                }
            }
            if pre.keys().contains(c) {
                let j = pre.keys().index_of(c);
                if j < index {
                    assert(post.keys()[j] == c);
                } else {
                    assert(post.keys()[j + 1] == c);
                }
            }
            if c == column {
                assert(post.keys()[index] == c);
            }
        }
        assert(post.wf_order());
        assert forall|c: usize| post.view().contains_key(c) implies #[trigger] post.view()[c] == target[c] by {
            let j = post.keys().index_of(c);
            post.lemma_view_at_sorted(j);
            assert(post.coefficients@.take(post.size as int)[j] == post.coefficients@[j]);
            if j < index {
                pre.lemma_view_at(j);
                assert(pre.coefficients@.take(pre.size as int)[j] == pre.coefficients@[j]);
            } else if j > index {
                pre.lemma_view_at(j - 1);
                assert(pre.coefficients@.take(pre.size as int)[j - 1] == pre.coefficients@[j - 1]);
                assert(pre.indices@[j - 1] == post.indices@[j]);
            }
        }
        assert(post.view() =~= target);
    }

    /// The used columns strictly increase.
    pub open spec fn wf_order(self) -> bool {
        &&& self.size <= self.indices.len()
        &&& self.size <= self.coefficients.len()
        &&& forall|i: int, j: int| 0 <= i < j < self.size ==> self.indices@[i] < self.indices@[j]
    }

    proof fn lemma_view_at_sorted(self, i: int)
        requires
            self.wf_order(),
            0 <= i < self.size,
        ensures
            self.view().contains_key(self.indices@[i]),
            self.view()[self.indices@[i]] == self.coefficients@[i],
    {
        let c = self.indices@[i];
        assert(self.keys()[i] == c);
        let j = self.keys().index_of(c);
        assert(self.keys()[j] == c);
        if j < i {
            assert(self.indices@[j] < self.indices@[i]);
        } else if j > i {
            assert(self.indices@[i] < self.indices@[j]);
        }
    }

    /// An empty row.
    pub fn new(zero: T) -> (r: Row<T>)
        ensures
            r.wf(),
            r.size == 0,
            r.zero == zero,
            r.view() == Map::<usize, T>::empty(),
    {
        let r = Row { size: 0, capacity: 0, coefficients: Vec::new(), indices: Vec::new(), zero };
        assert(r.view() =~= Map::<usize, T>::empty());
        r
    }

    /// The coefficient of `column`, or `zero` when the row has none.
    pub fn get(&self, column: usize) -> (r: T)
        requires
            self.wf(),
        ensures
            r == self.value(column),
    {
        let mut i: usize = 0;
        while i < self.size
            invariant
                self.wf(),
                i <= self.size,
                forall|k: int| 0 <= k < i ==> self.indices@[k] != column,
            decreases self.size - i,
        {
            if self.indices[i] == column {
                proof {
                    self.lemma_view_at(i as int);
                }
                return self.coefficients[i];
            }
            i = i + 1;
        }
        proof {
            if self.keys().contains(column) {
                let k = choose|k: int| 0 <= k < self.keys().len() && self.keys()[k] == column;
                assert(self.indices@[k] == column);
            }
        }
        self.zero
    }

    /// Stores `value` as the coefficient of `column`.
    pub fn set(&mut self, column: usize, value: T)
        requires
            old(self).wf(),
            old(self).size < old(self).capacity || old(self).capacity <= usize::MAX / 2,
        ensures
            final(self).wf(),
            final(self).zero == old(self).zero,
            final(self).view() == old(self).view().insert(column, value),
            final(self).capacity == old(self).capacity || (old(self).size == old(self).capacity
                && final(self).capacity == if old(self).capacity == 0 {
                16
            } else {
                old(self).capacity + old(self).capacity / 2
            }),
            final(self).size == old(self).size + if old(self).view().contains_key(column) {
                0int
            } else {
                1int
            },
    {
        let index = self.get_column_index_and_grow_if_needed(column);
        let ghost mid = *self;
        self.coefficients.set(index, value);
        proof {
            assert forall|c: usize| #[trigger] self.view().contains_key(c) == mid.view().contains_key(c) by {
                assert(self.keys() =~= mid.keys());
            }
            assert forall|c: usize| self.view().contains_key(c) implies #[trigger] self.view()[c]
                == old(self).view().insert(column, value)[c] by {
                assert(self.keys() =~= mid.keys());
                let j = self.keys().index_of(c);
                assert(0 <= j < self.size && self.indices@[j] == c);
                mid.lemma_view_at(j);
                if j != index {
                    assert(c != column);
                }
            }
            assert(self.view() =~= old(self).view().insert(column, value));
        }
    }

    /// Enlarges both buffers: to 16 slots at first, then by half again,
    /// filling new column slots with 0 and new coefficient slots with `zero`.
    fn grow(&mut self)
        requires
            old(self).wf(),
            old(self).capacity <= usize::MAX / 2,
        ensures
            final(self).wf(),
            final(self).size == old(self).size,
            final(self).zero == old(self).zero,
            final(self).capacity == if old(self).capacity == 0 {
                16
            } else {
                old(self).capacity + old(self).capacity / 2
            },
            final(self).indices@.take(old(self).capacity as int) == old(self).indices@,
            final(self).coefficients@.take(old(self).capacity as int) == old(self).coefficients@,
    {
        self.capacity = if self.capacity == 0 {
            16
        } else {
            self.capacity + self.capacity / 2
        };
        let ghost old_i = self.indices@;
        let ghost old_c = self.coefficients@;
        let ghost old_size = self.size;
        let ghost cap = self.capacity;
        while self.coefficients.len() < self.capacity
            invariant
                self.capacity == cap,
                self.size == old_size,
                self.zero == old(self).zero,
                self.indices@ == old_i,
                self.coefficients.len() <= self.capacity,
                self.coefficients@.take(old_c.len() as int) == old_c,
                old_c.len() <= self.coefficients.len(),
            decreases self.capacity - self.coefficients.len(),
        {
            let z = self.zero;
            self.coefficients.push(z);
            assert(self.coefficients@.take(old_c.len() as int) =~= old_c);
        }
        while self.indices.len() < self.capacity
            invariant
                self.capacity == cap,
                self.size == old_size,
                self.zero == old(self).zero,
                self.coefficients.len() == self.capacity,
                self.coefficients@.take(old_c.len() as int) == old_c,
                self.indices.len() <= self.capacity,
                self.indices@.take(old_i.len() as int) == old_i,
                old_i.len() <= self.indices.len(),
                forall|i: int| old_i.len() <= i < self.indices.len() ==> self.indices@[i] == 0,
            decreases self.capacity - self.indices.len(),
        {
            self.indices.push(0);
            assert(self.indices@.take(old_i.len() as int) =~= old_i);
        }
        proof {
            assert forall|i: int, j: int| 0 <= i < j < self.size implies self.indices@[i] < self.indices@[j] by {
                assert(self.indices@.take(old_i.len() as int)[i] == old_i[i]);
                assert(self.indices@.take(old_i.len() as int)[j] == old_i[j]);
            }
            assert forall|i: int| self.size <= i < self.capacity implies self.indices@[i] == 0 by {
                if i < old_i.len() {
                    assert(self.indices@.take(old_i.len() as int)[i] == old_i[i]);
                }
            }
        }
    }


    /// Opens slot `index` for `column` with coefficient `zero`, shifting the
    /// later used slots one place up.
    fn insert_slot(&mut self, index: usize, column: usize)
        requires
            old(self).wf(),
            old(self).size < old(self).capacity,
            index <= old(self).size,
        ensures
            final(self).size == old(self).size + 1,
            final(self).capacity == old(self).capacity,
            final(self).zero == old(self).zero,
            final(self).indices.len() == final(self).capacity,
            final(self).coefficients.len() == final(self).capacity,
            final(self).keys() == old(self).keys().insert(index as int, column),
            final(self).coefficients@.take(final(self).size as int) == old(self).coefficients@.take(
                old(self).size as int,
            ).insert(index as int, old(self).zero),
            forall|k: int| final(self).size <= k < final(self).capacity ==> final(self).indices@[k] == 0,
    {
        let ghost grown = *self;
        let ghost old_size = self.size as int;
        let ghost ins_i = grown.indices@.take(old_size).insert(index as int, column);
        let ghost ins_c = grown.coefficients@.take(old_size).insert(index as int, self.zero);
        proof {
            grown.indices@.take(old_size).insert_ensures(index as int, column);
            grown.coefficients@.take(old_size).insert_ensures(index as int, self.zero);
        }
        let mut prev_coeff = self.zero;
        let mut prev_index = column;
        self.size = self.size + 1;
        let mut i: usize = index;
        while i < self.size
            invariant
                index <= i <= self.size,
                self.size == old_size + 1,
                self.size <= self.capacity,
                self.capacity == grown.capacity,
                self.zero == grown.zero,
                self.indices.len() == self.capacity,
                self.coefficients.len() == self.capacity,
                grown.indices.len() == self.capacity,
                grown.coefficients.len() == self.capacity,
                ins_i.len() == old_size + 1,
                ins_c.len() == old_size + 1,
                ins_i[index as int] == column,
                ins_c[index as int] == grown.zero,
                forall|k: int| index < k <= old_size ==> ins_i[k] == grown.indices@[k - 1],
                forall|k: int| index < k <= old_size ==> ins_c[k] == grown.coefficients@[k - 1],
                forall|k: int| 0 <= k < i ==> self.indices@[k] == ins_i[k],
                forall|k: int| 0 <= k < i ==> self.coefficients@[k] == ins_c[k],
                forall|k: int| i <= k < self.capacity ==> self.indices@[k] == grown.indices@[k],
                forall|k: int| i <= k < self.capacity ==> self.coefficients@[k] == grown.coefficients@[k],
                i == index ==> prev_index == column && prev_coeff == self.zero,
                i > index ==> prev_index == grown.indices@[i - 1] && prev_coeff
                    == grown.coefficients@[i - 1],
            decreases self.size - i,
        {
            let tmp_coeff = self.coefficients[i];
            let tmp_index = self.indices[i];
            self.coefficients.set(i, prev_coeff);
            self.indices.set(i, prev_index);
            prev_coeff = tmp_coeff;
            prev_index = tmp_index;
            i = i + 1;
        }
        proof {
            assert forall|k: int| 0 <= k < index implies ins_i[k] == grown.indices@[k] && ins_c[k]
                == grown.coefficients@[k] by {
                assert(grown.indices@.take(old_size)[k] == grown.indices@[k]);
                assert(grown.coefficients@.take(old_size)[k] == grown.coefficients@[k]);
            }
            assert(self.keys() =~= ins_i);
            assert(self.coefficients@.take(self.size as int) =~= ins_c);
            assert forall|k: int| self.size <= k < self.capacity implies self.indices@[k] == 0 by {
                assert(self.indices@[k] == grown.indices@[k]);
            }
        }
    }

    /// The first used slot whose column is at least `column_index`, or `size`.
    fn find_closest_index(&self, column_index: usize) -> (r: usize)
        requires
            self.wf(),
        ensures
            r <= self.size,
            forall|i: int| 0 <= i < r ==> self.indices@[i] < column_index,
            r < self.size ==> self.indices@[r as int] >= column_index,
    {
        let mut i: usize = 0;
        while i < self.size
            invariant
                self.wf(),
                i <= self.size,
                forall|k: int| 0 <= k < i ==> self.indices@[k] < column_index,
            decreases self.size - i,
        {
            if self.indices[i] >= column_index {
                return i;
            }
            i = i + 1;
        }
        self.size
    }

    /// The slot of `column`, inserting the column with coefficient `zero` at
    /// its place in the order (growing the buffers when full) if it is absent.
    fn get_column_index_and_grow_if_needed(&mut self, column: usize) -> (r: usize)
        requires
            old(self).wf(),
            old(self).size < old(self).capacity || old(self).capacity <= usize::MAX / 2,
        ensures
            final(self).wf(),
            final(self).zero == old(self).zero,
            r < final(self).size,
            final(self).indices@[r as int] == column,
            final(self).view() == if old(self).view().contains_key(column) {
                old(self).view()
            } else {
                old(self).view().insert(column, old(self).zero)
            },
            final(self).capacity == old(self).capacity || (old(self).size == old(self).capacity
                && final(self).capacity == if old(self).capacity == 0 {
                16
            } else {
                old(self).capacity + old(self).capacity / 2
            }),
            final(self).size == old(self).size + if old(self).view().contains_key(column) {
                0int
            } else {
                1int
            },
    {
        let index = self.find_closest_index(column);
        if self.size == 0 || index >= self.indices.len() || self.indices[index] != column {
            proof {
                if self.keys().contains(column) {
                    let k = choose|k: int| 0 <= k < self.keys().len() && self.keys()[k] == column;
                    assert(self.indices@[k] == column);
                    if k > index {
                        assert(self.indices@[index as int] < self.indices@[k]);
                    }
                }
                if index == self.size && self.size > 0 && index < self.indices.len() {
                    assert(self.indices@[self.size - 1] < column);
                }
            }
            let ghost pre = *self;
            if self.size == self.capacity {
                self.grow();
            }
            let ghost grown = *self;
            self.insert_slot(index, column);
            proof {
                assert(grown.keys() =~= pre.keys());
                assert(grown.coefficients@.take(pre.size as int) =~= pre.coefficients@.take(pre.size as int));
                Self::lemma_insert(pre, *self, index as int, column);
            }
            index
        } else {
            proof {
                if index == self.size {
                    assert(self.indices@[self.size - 1] < column);
                    assert(self.indices@[index as int] == 0);
                }
                self.lemma_view_at(index as int);
            }
            index
        }
    }
}

/// After `set(column, value)`, reading `column` gives `value` and reading any
/// other column gives what it gave before.
pub proof fn lemma_row_read_after_write<T: Copy>(
    before: Row<T>,
    after: Row<T>,
    column: usize,
    value: T,
    other: usize,
)
    requires
        after.view() == before.view().insert(column, value),
        after.zero == before.zero,
    ensures
        after.value(column) == value,
        other != column ==> after.value(other) == before.value(other),
{
}

/// A sparse matrix stored as one sparse row per matrix row.
pub struct SparseMat<T> {
    pub rows: Vec<Row<T>>,
    pub num_rows: usize,
}

impl<T: Copy> SparseMat<T> {
    /// Every row is well formed and there are `num_rows` of them.
    pub open spec fn wf(self) -> bool {
        &&& self.rows.len() == self.num_rows
        &&& forall|r: int| 0 <= r < self.rows.len() ==> (#[trigger] self.rows@[r]).wf()
    }

    /// A matrix of `num_rows` empty rows whose absent entries read as `zero`.
    pub fn new(num_rows: usize, _num_cols: usize, zero: T) -> (m: SparseMat<T>)
        ensures
            m.wf(),
            m.num_rows == num_rows,
            forall|r: int, c: usize| 0 <= r < num_rows ==> #[trigger] m.rows@[r].value(c) == zero,
    {
        let mut rows: Vec<Row<T>> = Vec::new();
        while rows.len() < num_rows
            invariant
                rows.len() <= num_rows,
                forall|r: int| 0 <= r < rows.len() ==> (#[trigger] rows@[r]).wf() && rows@[r].view()
                    == Map::<usize, T>::empty() && rows@[r].zero == zero,
            decreases num_rows - rows.len(),
        {
            rows.push(Row::new(zero));
        }
        SparseMat { rows, num_rows }
    }

    /// Entry `(row, column)`.
    pub fn get(&mut self, row: usize, column: usize) -> (r: T)
        requires
            old(self).wf(),
            row < old(self).num_rows,
        ensures
            *final(self) == *old(self),
            r == old(self).rows@[row as int].value(column),
    {
        self.rows[row].get(column)
    }

    /// Stores `value` at entry `(row, column)`.
    pub fn set(&mut self, row: usize, column: usize, value: T)
        requires
            old(self).wf(),
            row < old(self).num_rows,
            old(self).rows@[row as int].size < old(self).rows@[row as int].capacity || old(self).rows@[row as int].capacity <= usize::MAX / 2,
        ensures
            final(self).wf(),
            final(self).num_rows == old(self).num_rows,
            forall|r: int| 0 <= r < final(self).num_rows && r != row ==> #[trigger] final(self).rows@[r]
                == old(self).rows@[r],
            final(self).rows@[row as int].zero == old(self).rows@[row as int].zero,
            final(self).rows@[row as int].view() == old(self).rows@[row as int].view().insert(
                column,
                value,
            ),
            ({
                let (before, after) = (old(self).rows@[row as int], final(self).rows@[row as int]);
                &&& after.capacity == before.capacity || (before.size == before.capacity
                    && after.capacity == if before.capacity == 0 {
                    16
                } else {
                    before.capacity + before.capacity / 2
                })
                &&& after.size == before.size + if before.view().contains_key(column) {
                    0int
                } else {
                    1int
                }
            }),
    {
        self.rows[row].set(column, value);
    }
}

/// An undirected mesh edge between vertices `a` and `b`.
#[derive(Clone, Copy, Debug)]
pub struct Edge {
    pub a: u32,
    pub b: u32,
}

/// `(a0, a1)` and `(b0, b1)` join the same two vertices.
pub open spec fn same_edge(a0: u32, a1: u32, b0: u32, b1: u32) -> bool {
    (a0 == b0 && a1 == b1) || (a0 == b1 && a1 == b0)
}

impl PartialEq for Edge {
    fn eq(&self, other: &Self) -> (r: bool) {
        (self.a == other.a && self.b == other.b) || (self.a == other.b && self.b == other.a)
    }
}

impl vstd::std_specs::cmp::PartialEqSpecImpl for Edge {
    open spec fn obeys_eq_spec() -> bool {
        true
    }

    open spec fn eq_spec(&self, other: &Self) -> bool {
        same_edge(self.a, self.b, other.a, other.b)
    }
}

impl Eq for Edge {
}

impl Edge {
    pub fn new(a: u32, b: u32) -> (e: Edge)
        ensures
            e.a == a,
            e.b == b,
    {
        Edge { a, b }
    }

    /// The two vertices in increasing order, the same for both directions.
    pub fn key(&self) -> (k: (u32, u32))
        ensures
            k.0 <= k.1,
            same_edge(k.0, k.1, self.a, self.b),
    {
        if self.a < self.b {
            (self.a, self.b)
        } else {
            (self.b, self.a)
        }
    }
}

/// Vertices `a` and `b` are joined by a side of one of the complete
/// triangles of `indices` (consecutive triples; a trailing partial triple is
/// ignored).
pub open spec fn triangle_edge(indices: Seq<u32>, a: u32, b: u32) -> bool {
    exists|t: int|
        0 <= t && 3 * t + 2 < indices.len() && #[trigger] side_of(indices, t, a, b)
}

/// `(a, b)` is one of the three sides of triangle `t`.
pub open spec fn side_of(indices: Seq<u32>, t: int, a: u32, b: u32) -> bool {
    ||| same_edge(a, b, indices[3 * t], indices[3 * t + 1])
    ||| same_edge(a, b, indices[3 * t + 1], indices[3 * t + 2])
    ||| same_edge(a, b, indices[3 * t + 2], indices[3 * t])
}

/// Edge `e` is a side of one of the complete triangles starting before index `n`.
pub open spec fn side_before(indices: Seq<u32>, e: Edge, n: int) -> bool {
    exists|t: int| 0 <= t && 3 * t < n && 3 * t + 2 < indices.len() && #[trigger] side_of(indices, t, e.a, e.b)
}

/// `edges` holds `(a, b)` in one direction or the other.
pub open spec fn has_edge(edges: Seq<Edge>, a: u32, b: u32) -> bool {
    exists|k: int| 0 <= k < edges.len() && same_edge(#[trigger] edges[k].a, edges[k].b, a, b)
}

/// Each triangle side is listed once, in the direction in which it is first met.
pub open spec fn edge_list(indices: Seq<u32>, edges: Seq<Edge>) -> bool {
    &&& forall|k: int| 0 <= k < edges.len() ==> triangle_edge(indices, #[trigger] edges[k].a, edges[k].b)
    &&& forall|a: u32, b: u32| #[trigger] triangle_edge(indices, a, b) ==> has_edge(edges, a, b)
    &&& forall|j: int, k: int|
        0 <= j < k < edges.len() ==> !same_edge(#[trigger] edges[j].a, edges[j].b, #[trigger] edges[k].a, edges[k].b)
}

/// The number that stands for the undirected edge `(a, b)`: the lower
/// vertex in the high 32 bits, the higher in the low ones.
pub open spec fn edge_key(a: u32, b: u32) -> int {
    if a < b {
        a * 0x1_0000_0000 + b
    } else {
        b * 0x1_0000_0000 + a
    }
}

/// Two edges have the same key exactly when they join the same vertices.
proof fn lemma_edge_key(a: u32, b: u32, c: u32, d: u32)
    ensures
        (edge_key(a, b) == edge_key(c, d)) == same_edge(a, b, c, d),
        0 <= edge_key(a, b) <= u64::MAX,
{
    let (lo1, hi1) = if a < b { (a, b) } else { (b, a) };
    let (lo2, hi2) = if c < d { (c, d) } else { (d, c) };
    if edge_key(a, b) == edge_key(c, d) {
        vstd::arithmetic::div_mod::lemma_fundamental_div_mod_converse(edge_key(a, b), 0x1_0000_0000, lo1 as int, hi1 as int);
        vstd::arithmetic::div_mod::lemma_fundamental_div_mod_converse(edge_key(c, d), 0x1_0000_0000, lo2 as int, hi2 as int);
    }
    assert(lo1 * 0x1_0000_0000 + hi1 <= u64::MAX) by (nonlinear_arith)
        requires
            lo1 <= u32::MAX,
            hi1 <= u32::MAX,
    ;
}

/// The keys of the edges in `edges`.
pub open spec fn key_set(edges: Seq<Edge>) -> Set<u64> {
    Set::new(|k: u64| exists|j: int| 0 <= j < edges.len() && #[trigger] edge_key(edges[j].a, edges[j].b) == k)
}

fn key_of(a: u32, b: u32) -> (k: u64)
    ensures
        k == edge_key(a, b),
{
    proof {
        lemma_edge_key(a, b, a, b);
    }
    if a < b {
        a as u64 * 0x1_0000_0000 + b as u64
    } else {
        b as u64 * 0x1_0000_0000 + a as u64
    }
}

/// Appends `(a, b)` unless the edge is already listed, in either direction;
/// `seen` holds the keys of the listed edges.
fn push_unique(edges: &mut Vec<Edge>, seen: &mut HashSet<u64>, a: u32, b: u32)
    requires
        old(seen)@ == key_set(old(edges)@),
    ensures
        final(seen)@ == key_set(final(edges)@),
        forall|k: int| 0 <= k < old(edges).len() ==> final(edges)@[k] == old(edges)@[k],
        has_edge(final(edges)@, a, b),
        forall|x: u32, y: u32| #[trigger] has_edge(final(edges)@, x, y) ==> has_edge(old(edges)@, x, y) || same_edge(x, y, a, b),
        has_edge(old(edges)@, a, b) ==> final(edges)@ == old(edges)@,
        !has_edge(old(edges)@, a, b) ==> final(edges)@ == old(edges)@.push(Edge { a, b }),
{
    let ghost old_edges = edges@;
    let key = key_of(a, b);
    proof {
        assert(old_edges.len() == old(edges)@.len());
        if has_edge(old_edges, a, b) {
            let k = choose|k: int| 0 <= k < old_edges.len() && same_edge(#[trigger] old_edges[k].a, old_edges[k].b, a, b);
            lemma_edge_key(old_edges[k].a, old_edges[k].b, a, b);
            assert(key_set(old_edges).contains(key));
        }
        if key_set(old_edges).contains(key) {
            let k = choose|k: int| 0 <= k < old_edges.len() && #[trigger] edge_key(old_edges[k].a, old_edges[k].b) == key;
            lemma_edge_key(old_edges[k].a, old_edges[k].b, a, b);
            assert(same_edge(old_edges[k].a, old_edges[k].b, a, b));
        }
    }
    if seen.insert(key) {
        edges.push(Edge { a, b });
        proof {
            let n = old_edges.len() as int;
            assert(same_edge(edges@[n].a, edges@[n].b, a, b));
            assert forall|x: u32, y: u32| #[trigger] has_edge(edges@, x, y) implies has_edge(old_edges, x, y)
                || same_edge(x, y, a, b) by {
                let k = choose|k: int| 0 <= k < edges@.len() && same_edge(#[trigger] edges@[k].a, edges@[k].b, x, y);
                if k < n {
                    assert(edges@[k] == old_edges[k]);
                }
            }
            assert forall|k: u64| #[trigger] seen@.contains(k) == key_set(edges@).contains(k) by {
                if k == key {
                    assert(edge_key(edges@[n].a, edges@[n].b) == k);
                } else if key_set(old_edges).contains(k) {
                    let j = choose|j: int| 0 <= j < old_edges.len() && #[trigger] edge_key(old_edges[j].a, old_edges[j].b) == k;
                    assert(edges@[j] == old_edges[j]);
                }
                if key_set(edges@).contains(k) {
                    let j = choose|j: int| 0 <= j < edges@.len() && #[trigger] edge_key(edges@[j].a, edges@[j].b) == k;
                    if j < n {
                        assert(edges@[j] == old_edges[j]);
                    }
                }
            }
            assert(seen@ =~= key_set(edges@));
        }
    }
}

/// The sides of the complete triangles of `indices`, each listed once.
pub fn collect_edges(indices: &[u32]) -> (edges: Vec<Edge>)
    ensures
        edge_list(indices@, edges@),
{
    let mut edges: Vec<Edge> = Vec::new();
    let mut seen: HashSet<u64> = HashSet::new();
    proof {
        assert(seen@ =~= key_set(edges@));
    }
    let mut i: usize = 0;
    while indices.len() >= 3 && i <= indices.len() - 3
        invariant
            seen@ == key_set(edges@),
            i % 3 == 0,
            i <= indices.len(),
            forall|k: int| 0 <= k < edges.len() ==> side_before(indices@, #[trigger] edges@[k], i as int),
            forall|t: int, a: u32, b: u32|
                0 <= t && 3 * t < i && #[trigger] side_of(indices@, t, a, b) ==> has_edge(edges@, a, b),
            forall|j: int, k: int|
                0 <= j < k < edges.len() ==> !same_edge(#[trigger] edges@[j].a, edges@[j].b, #[trigger] edges@[k].a, edges@[k].b),
        decreases indices.len() + 2 - i,
    {
        let i0 = indices[i];
        let i1 = indices[i + 1];
        let i2 = indices[i + 2];
        let ghost t = i as int / 3;
        let ghost before = edges@;
        push_unique(&mut edges, &mut seen, i0, i1);
        let ghost s1 = edges@;
        push_unique(&mut edges, &mut seen, i1, i2);
        let ghost s2 = edges@;
        push_unique(&mut edges, &mut seen, i2, i0);
        i = i + 3;
        proof {
            assert(3 * t + 3 == i);
            assert forall|k: int| 0 <= k < edges.len() implies side_before(indices@, #[trigger] edges@[k], i as int) by {
                if k < before.len() {
                    assert(edges@[k] == s2[k]);
                    assert(s2[k] == s1[k]);
                    assert(s1[k] == before[k]);
                    assert(side_before(indices@, before[k], i - 3));
                    let t2 = choose|t2: int| 0 <= t2 && 3 * t2 < i - 3 && 3 * t2 + 2 < indices@.len() && #[trigger] side_of(indices@, t2, before[k].a, before[k].b);
                    assert(side_of(indices@, t2, edges@[k].a, edges@[k].b));
                } else {
                    if k < s1.len() {
                        assert(edges@[k] == s2[k]);
                        assert(s2[k] == s1[k]);
                        assert(s1[k] == Edge { a: i0, b: i1 });
                    } else if k < s2.len() {
                        assert(edges@[k] == s2[k]);
                        assert(s2[k] == Edge { a: i1, b: i2 });
                    } else {
                        assert(edges@[k] == Edge { a: i2, b: i0 });
                    }
                    assert(side_of(indices@, t, edges@[k].a, edges@[k].b));
                }
            }
            assert forall|t2: int, a: u32, b: u32|
                0 <= t2 && 3 * t2 < i && #[trigger] side_of(indices@, t2, a, b) implies has_edge(edges@, a, b) by {
                if t2 < t {
                    let k = choose|k: int| 0 <= k < before.len() && same_edge(#[trigger] before[k].a, before[k].b, a, b);
                    assert(edges@[k] == before[k]);
                } else {
                    assert(t2 == t);
                }
            }
        }
    }
    proof {
        assert forall|a: u32, b: u32| #[trigger] triangle_edge(indices@, a, b) implies has_edge(edges@, a, b) by {
            let t = choose|t: int| 0 <= t && 3 * t + 2 < indices@.len() && #[trigger] side_of(indices@, t, a, b);
        }
    }
    edges
}

/// An integer pixel position.
#[derive(Clone, Copy, Debug, PartialEq, Eq, Structural, Hash)]
pub struct Vector2Int {
    pub x: i32,
    pub y: i32,
}

impl Vector2Int {
    pub fn new(x: i32, y: i32) -> (v: Vector2Int)
        ensures
            v.x == x,
            v.y == y,
    {
        Vector2Int { x, y }
    }
}

/// `a` reduced into `0..m`, the remainder of floored division.
fn rem_euclid(a: i32, m: i32) -> (r: i32)
    requires
        m > 0,
    ensures
        r == (a as int) % (m as int),
        0 <= r < m,
{
    if a >= 0 {
        a % m
    } else {
        let t: i32 = -(a + 1);
        let q = t % m;
        proof {
            let ai = a as int;
            let mi = m as int;
            vstd::arithmetic::div_mod::lemma_fundamental_div_mod(t as int, mi);
            let qq = (t as int) / mi;
            let rr = (t as int) % mi;
            assert(ai == (-qq - 1) * mi + (mi - 1 - rr)) by (nonlinear_arith)
                requires
                    t as int == mi * qq + rr,
                    ai == -(t as int) - 1,
            ;
            vstd::arithmetic::div_mod::lemma_fundamental_div_mod_converse(
                ai,
                mi,
                -((t as int) / mi) - 1,
                mi - 1 - (t as int) % mi,
            );
        }
        m - 1 - q
    }
}

/// `a` limited to `lo..=hi`.
fn clamp_i32(a: i32, lo: i32, hi: i32) -> (r: i32)
    requires
        lo <= hi,
    ensures
        r == if a < lo { lo } else if a > hi { hi } else { a },
{
    if a < lo {
        lo
    } else if a > hi {
        hi
    } else {
        a
    }
}

/// The four texels a bilinear sample with integer part `(tu, tv)` reads, in
/// the order (tu, tv), (tu + 1, tv), (tu + 1, tv + 1), (tu, tv + 1): first
/// wrapped around the lightmap's edges, then, for lookups that find no texel
/// there, clamped to the edges.
pub fn bilinear_neighbors(tu: i32, tv: i32, width: u32, height: u32) -> (r: (
    [Vector2Int; 4],
    [Vector2Int; 4],
))
    requires
        0 < width <= i32::MAX,
        0 < height <= i32::MAX,
        tu < i32::MAX,
        tv < i32::MAX,
    ensures
        forall|i: int|
            0 <= i < 4 ==> {
                let x = tu + (if i == 1 || i == 2 { 1int } else { 0int });
                let y = tv + (if i >= 2 { 1int } else { 0int });
                &&& (#[trigger] r.0@[i]).x == x % (width as int)
                &&& r.0@[i].y == y % (height as int)
                &&& r.1@[i].x == (if x < 0 { 0 } else if x > width - 1 { width - 1 } else { x })
                &&& r.1@[i].y == (if y < 0 { 0 } else if y > height - 1 { height - 1 } else { y })
            },
{
    let w = width as i32;
    let h = height as i32;
    let xs: [i32; 4] = [tu, tu + 1, tu + 1, tu];
    let ys: [i32; 4] = [tv, tv, tv + 1, tv + 1];
    let wrapped = [
        Vector2Int::new(rem_euclid(xs[0], w), rem_euclid(ys[0], h)),
        Vector2Int::new(rem_euclid(xs[1], w), rem_euclid(ys[1], h)),
        Vector2Int::new(rem_euclid(xs[2], w), rem_euclid(ys[2], h)),
        Vector2Int::new(rem_euclid(xs[3], w), rem_euclid(ys[3], h)),
    ];
    let clamped = [
        Vector2Int::new(clamp_i32(xs[0], 0, w - 1), clamp_i32(ys[0], 0, h - 1)),
        Vector2Int::new(clamp_i32(xs[1], 0, w - 1), clamp_i32(ys[1], 0, h - 1)),
        Vector2Int::new(clamp_i32(xs[2], 0, w - 1), clamp_i32(ys[2], 0, h - 1)),
        Vector2Int::new(clamp_i32(xs[3], 0, w - 1), clamp_i32(ys[3], 0, h - 1)),
    ];
    (wrapped, clamped)
}

} // verus!
