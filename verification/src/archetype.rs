//! Archetypes: column stores for entities sharing one exact component set.
//!
//! An archetype owns, for each component type of its set, one column holding
//! the byte cells of that component for every row, and beside each column two
//! tracking-bit columns (added this cycle, mutated this cycle). A parallel
//! entity column maps each row to the id of the entity stored there. Rows are
//! removed by swapping the last row in, so removal reports which entity moved.

use vstd::prelude::*;

use crate::types::{copy_vec, has_id, strictly_sorted, TypeInfo};

verus! {

/// One component taken out of a row: its type, bytes, and tracking bits.
pub struct MovedComponent {
    /// The component's type.
    pub info: TypeInfo,
    /// The component's bytes.
    pub data: Vec<u8>,
    /// Whether the row's added bit was set for this column.
    pub added: bool,
    /// Whether the row's mutated bit was set for this column.
    pub mutated: bool,
}

/// A column store for all entities sharing one exact component set.
pub struct Archetype {
    /// The component set, strictly sorted by type id.
    pub types: Vec<TypeInfo>,
    /// Row to entity id.
    pub entities: Vec<u32>,
    /// Per column, per row: the component's bytes.
    pub cells: Vec<Vec<Vec<u8>>>,
    /// Per column, per row: the added-this-cycle bit.
    pub added: Vec<Vec<bool>>,
    /// Per column, per row: the mutated-this-cycle bit.
    pub mutated: Vec<Vec<bool>>,
}

impl Archetype {
    /// Number of rows (live entities) stored.
    pub open spec fn rows(self) -> int {
        self.entities@.len() as int
    }

    /// Number of component columns.
    pub open spec fn ncols(self) -> int {
        self.types@.len() as int
    }

    /// The component set, strictly sorted by type id.
    pub open spec fn types_seq(self) -> Seq<TypeInfo> {
        self.types@
    }

    /// The type description of column `c`.
    pub open spec fn type_at(self, c: int) -> TypeInfo {
        self.types@[c]
    }

    /// The entity id stored at row `r`.
    pub open spec fn entity_at(self, r: int) -> u32 {
        self.entities@[r]
    }

    /// The bytes of the component in column `c` at row `r`.
    pub open spec fn cell(self, c: int, r: int) -> Seq<u8> {
        self.cells@[c]@[r]@
    }

    /// The added-this-cycle bit of column `c` at row `r`.
    pub open spec fn added_bit(self, c: int, r: int) -> bool {
        self.added@[c]@[r]
    }

    /// The mutated-this-cycle bit of column `c` at row `r`.
    pub open spec fn mutated_bit(self, c: int, r: int) -> bool {
        self.mutated@[c]@[r]
    }

    /// Whether the component set includes the type id `id`.
    pub open spec fn has(self, id: u64) -> bool {
        has_id(self.types@, id)
    }

    /// The column holding the type id `id` (meaningful when `has(id)`).
    pub open spec fn col_of(self, id: u64) -> int {
        choose|c: int| 0 <= c < self.ncols() && self.types@[c].id == id
    }

    /// Shape invariant: sorted distinct types; one cell column, one added
    /// column and one mutated column per type, all of the same length as the
    /// entity column; each cell sized by its column's type.
    pub open spec fn wf(self) -> bool {
        &&& strictly_sorted(self.types@)
        &&& self.cells@.len() == self.types@.len()
        &&& self.added@.len() == self.types@.len()
        &&& self.mutated@.len() == self.types@.len()
        &&& forall|c: int|
            0 <= c < self.ncols() ==> (#[trigger] self.cells@[c])@.len() == self.rows()
        &&& forall|c: int|
            0 <= c < self.ncols() ==> (#[trigger] self.added@[c])@.len() == self.rows()
        &&& forall|c: int|
            0 <= c < self.ncols() ==> (#[trigger] self.mutated@[c])@.len() == self.rows()
        &&& forall|c: int, r: int|
            0 <= c < self.ncols() && 0 <= r < self.rows() ==> (#[trigger] self.cells@[c]@[r])@.len()
                == self.types@[c].size
    }

    /// The column for a present id is unique and carries that id.
    pub proof fn lemma_col_of(self, id: u64)
        requires
            self.wf(),
            self.has(id),
        ensures
            0 <= self.col_of(id) < self.ncols(),
            self.type_at(self.col_of(id)).id == id,
            forall|c: int| 0 <= c < self.ncols() && self.type_at(c).id == id ==> c == self.col_of(id),
    {
        let w = choose|c: int| 0 <= c < self.ncols() && self.types@[c].id == id;
        assert(0 <= self.col_of(id) < self.ncols() && self.types@[self.col_of(id)].id == id);
        assert forall|c: int|
            0 <= c < self.ncols() && self.type_at(c).id == id implies c == self.col_of(id) by {
            let k = self.col_of(id);
            if c < k {
                assert(self.types@[c].id < self.types@[k].id);
            } else if c > k {
                assert(self.types@[k].id < self.types@[c].id);
            }
        }
    }

    /// Build an empty archetype for the given sorted component set.
    pub fn new(types: Vec<TypeInfo>) -> (a: Archetype)
        requires
            strictly_sorted(types@),
        ensures
            a.wf(),
            a.rows() == 0,
            a.types_seq() == types@,
    {
        let n = types.len();
        let mut cells: Vec<Vec<Vec<u8>>> = Vec::new();
        let mut added: Vec<Vec<bool>> = Vec::new();
        let mut mutated: Vec<Vec<bool>> = Vec::new();
        let mut i: usize = 0;
        while i < n
            invariant
                i <= n,
                cells@.len() == i,
                added@.len() == i,
                mutated@.len() == i,
                forall|c: int| 0 <= c < i ==> (#[trigger] cells@[c])@.len() == 0,
                forall|c: int| 0 <= c < i ==> (#[trigger] added@[c])@.len() == 0,
                forall|c: int| 0 <= c < i ==> (#[trigger] mutated@[c])@.len() == 0,
            decreases n - i,
        {
            cells.push(Vec::new());
            added.push(Vec::new());
            mutated.push(Vec::new());
            i += 1;
        }
        Archetype { types, entities: Vec::new(), cells, added, mutated }
    }

    /// Number of rows.
    pub fn len(&self) -> (r: usize)
        ensures
            r == self.rows(),
    {
        self.entities.len()
    }

    /// The component set, sorted by type id.
    pub fn types(&self) -> (r: &Vec<TypeInfo>)
        ensures
            r@ == self.types_seq(),
    {
        &self.types
    }

    /// The entity id stored at a row.
    pub fn entity_id(&self, row: usize) -> (r: u32)
        requires
            row < self.rows(),
        ensures
            r == self.entity_at(row as int),
    {
        self.entities[row]
    }

    /// The column holding the given type id, if the set includes it.
    pub fn find_col(&self, id: u64) -> (r: Option<usize>)
        requires
            self.wf(),
        ensures
            match r {
                Some(c) => self.has(id) && c as int == self.col_of(id),
                None => !self.has(id),
            },
    {
        let r = crate::types::find_id(&self.types, id);
        proof {
            if let Some(c) = r {
                assert(self.has(id));
                self.lemma_col_of(id);
            }
        }
        r
    }

    /// Reserve a fresh row for an entity id: extends the entity column, gives
    /// every component column a zeroed cell of its type's size, and clears the
    /// new row's tracking bits.
    pub fn allocate(&mut self, id: u32) -> (row: usize)
        requires
            old(self).wf(),
        ensures
            final(self).wf(),
            row as int == old(self).rows(),
            final(self).rows() == old(self).rows() + 1,
            final(self).types_seq() == old(self).types_seq(),
            final(self).entities@ == old(self).entities@.push(id),
            final(self).entity_at(row as int) == id,
            forall|r: int|
                0 <= r < old(self).rows() ==> final(self).entity_at(r) == old(self).entity_at(r),
            forall|c: int, r: int|
                0 <= c < old(self).ncols() && 0 <= r < old(self).rows() ==> final(self).cell(c, r)
                    == old(self).cell(c, r),
            forall|c: int, r: int|
                0 <= c < old(self).ncols() && 0 <= r < old(self).rows() ==> final(self).added_bit(
                    c,
                    r,
                ) == old(self).added_bit(c, r) && final(self).mutated_bit(c, r) == old(self).mutated_bit(c, r),
            forall|c: int|
                0 <= c < old(self).ncols() ==> !final(self).added_bit(c, row as int) && !final(self).mutated_bit(c, row as int),
    {
        let row = self.entities.len();
        self.entities.push(id);
        let n = self.types.len();
        let mut c: usize = 0;
        while c < n
            invariant
                c <= n,
                old(self).wf(),
                n == old(self).types@.len(),
                row == old(self).rows(),
                self.types@ == old(self).types@,
                self.entities@ == old(self).entities@.push(id),
                self.cells@.len() == n,
                self.added@.len() == n,
                self.mutated@.len() == n,
                forall|k: int| c <= k < n ==> (#[trigger] self.cells@[k]) == old(self).cells@[k],
                forall|k: int| c <= k < n ==> (#[trigger] self.added@[k]) == old(self).added@[k],
                forall|k: int|
                    c <= k < n ==> (#[trigger] self.mutated@[k]) == old(self).mutated@[k],
                forall|k: int| 0 <= k < c ==> (#[trigger] self.cells@[k])@.len() == row + 1,
                forall|k: int, r: int|
                    0 <= k < c && 0 <= r < row ==> (#[trigger] self.cells@[k]@[r]) == old(self).cells@[k]@[r],
                forall|k: int|
                    0 <= k < c ==> (#[trigger] self.cells@[k]@[row as int])@.len() == old(self).types@[k].size,
                forall|k: int|
                    0 <= k < c ==> (#[trigger] self.added@[k])@ == old(self).added@[k]@.push(
                        false,
                    ),
                forall|k: int|
                    0 <= k < c ==> (#[trigger] self.mutated@[k])@ == old(self).mutated@[k]@.push(
                        false,
                    ),
            decreases n - c,
        {
            let size = self.types[c].size;
            let zero: Vec<u8> = vec![0u8; size];
            let col = &mut self.cells[c];
            col.push(zero);
            let col_a = &mut self.added[c];
            col_a.push(false);
            let col_m = &mut self.mutated[c];
            col_m.push(false);
            c += 1;
        }
        row
    }

    /// Overwrite the cell of column `c` at `row` with the given bytes; raise
    /// the tracking bits the caller asks for, leaving the others as they were.
    pub fn put(&mut self, c: usize, row: usize, data: Vec<u8>, set_added: bool, set_mutated: bool)
        requires
            old(self).wf(),
            c < old(self).ncols(),
            row < old(self).rows(),
            data@.len() == old(self).type_at(c as int).size,
        ensures
            final(self).wf(),
            final(self).types_seq() == old(self).types_seq(),
            final(self).entities@ == old(self).entities@,
            final(self).rows() == old(self).rows(),
            final(self).cell(c as int, row as int) == data@,
            final(self).added_bit(c as int, row as int) == (old(self).added_bit(
                c as int,
                row as int,
            ) || set_added),
            final(self).mutated_bit(c as int, row as int) == (old(self).mutated_bit(
                c as int,
                row as int,
            ) || set_mutated),
            forall|c2: int, r2: int|
                0 <= c2 < old(self).ncols() && 0 <= r2 < old(self).rows() && !(c2 == c && r2
                    == row) ==> final(self).cell(c2, r2) == old(self).cell(c2, r2),
            forall|c2: int, r2: int|
                0 <= c2 < old(self).ncols() && 0 <= r2 < old(self).rows() && !(c2 == c && r2
                    == row) ==> final(self).added_bit(c2, r2) == old(self).added_bit(c2, r2)
                    && final(self).mutated_bit(c2, r2) == old(self).mutated_bit(c2, r2),
    {
        let col = &mut self.cells[c];
        col[row] = data;
        if set_added {
            let col_a = &mut self.added[c];
            col_a[row] = true;
        }
        if set_mutated {
            let col_m = &mut self.mutated[c];
            col_m[row] = true;
        }
    }

    /// A copy of the bytes of the cell in column `c` at `row`.
    pub fn cell_bytes(&self, c: usize, row: usize) -> (r: Vec<u8>)
        requires
            self.wf(),
            c < self.ncols(),
            row < self.rows(),
        ensures
            r@ == self.cell(c as int, row as int),
    {
        copy_vec(&self.cells[c][row])
    }

    /// Read a whole row out: one entry per column, each carrying the type,
    /// the bytes and the row's tracking bits for that column.
    pub fn read_row(&self, row: usize) -> (r: Vec<MovedComponent>)
        requires
            self.wf(),
            row < self.rows(),
        ensures
            r@.len() == self.ncols(),
            forall|c: int|
                0 <= c < self.ncols() ==> (#[trigger] r@[c]).info == self.type_at(c) && r@[c].data@
                    == self.cell(c, row as int) && r@[c].added == self.added_bit(c, row as int)
                    && r@[c].mutated == self.mutated_bit(c, row as int),
    {
        let mut r: Vec<MovedComponent> = Vec::new();
        let n = self.types.len();
        let mut c: usize = 0;
        while c < n
            invariant
                c <= n,
                self.wf(),
                row < self.rows(),
                n == self.ncols(),
                r@.len() == c,
                forall|k: int|
                    0 <= k < c ==> (#[trigger] r@[k]).info == self.type_at(k) && r@[k].data@
                        == self.cell(k, row as int) && r@[k].added == self.added_bit(
                        k,
                        row as int,
                    ) && r@[k].mutated == self.mutated_bit(k, row as int),
            decreases n - c,
        {
            let entry = MovedComponent {
                info: self.types[c],
                data: copy_vec(&self.cells[c][row]),
                added: self.added[c][row],
                mutated: self.mutated[c][row],
            };
            r.push(entry);
            c += 1;
        }
        r
    }

    /// Remove a row: the last row is swapped into its place (unless it was
    /// the last), and the id of the entity that moved is reported so the
    /// directory can fix its row.
    pub fn swap_remove_row(&mut self, row: usize) -> (moved: Option<u32>)
        requires
            old(self).wf(),
            row < old(self).rows(),
        ensures
            final(self).wf(),
            final(self).types_seq() == old(self).types_seq(),
            final(self).rows() == old(self).rows() - 1,
            moved == if row as int == old(self).rows() - 1 {
                None::<u32>
            } else {
                Some(old(self).entity_at(old(self).rows() - 1))
            },
            forall|r: int|
                0 <= r < final(self).rows() ==> final(self).entity_at(r) == (if r == row as int {
                    old(self).entity_at(old(self).rows() - 1)
                } else {
                    old(self).entity_at(r)
                }),
            forall|c: int, r: int|
                0 <= c < old(self).ncols() && 0 <= r < final(self).rows() ==> final(self).cell(c, r)
                    == (if r == row as int {
                    old(self).cell(c, old(self).rows() - 1)
                } else {
                    old(self).cell(c, r)
                }),
            forall|c: int, r: int|
                0 <= c < old(self).ncols() && 0 <= r < final(self).rows() ==> final(self).added_bit(
                    c,
                    r,
                ) == (if r == row as int {
                    old(self).added_bit(c, old(self).rows() - 1)
                } else {
                    old(self).added_bit(c, r)
                }) && final(self).mutated_bit(c, r) == (if r == row as int {
                    old(self).mutated_bit(c, old(self).rows() - 1)
                } else {
                    old(self).mutated_bit(c, r)
                }),
    {
        let last = self.entities.len() - 1;
        let moved: Option<u32> = if row == last {
            None
        } else {
            Some(self.entities[last])
        };
        self.entities.swap_remove(row);
        let n = self.types.len();
        let mut c: usize = 0;
        while c < n
            invariant
                c <= n,
                old(self).wf(),
                row <= last,
                last == old(self).rows() - 1,
                n == old(self).types@.len(),
                self.types@ == old(self).types@,
                self.entities@ == old(self).entities@.update(row as int, old(self).entities@.last()).drop_last(),
                self.cells@.len() == n,
                self.added@.len() == n,
                self.mutated@.len() == n,
                forall|k: int| c <= k < n ==> (#[trigger] self.cells@[k]) == old(self).cells@[k],
                forall|k: int| c <= k < n ==> (#[trigger] self.added@[k]) == old(self).added@[k],
                forall|k: int|
                    c <= k < n ==> (#[trigger] self.mutated@[k]) == old(self).mutated@[k],
                forall|k: int|
                    0 <= k < c ==> (#[trigger] self.cells@[k])@ == old(self).cells@[k]@.update(
                        row as int,
                        old(self).cells@[k]@.last(),
                    ).drop_last(),
                forall|k: int|
                    0 <= k < c ==> (#[trigger] self.added@[k])@ == old(self).added@[k]@.update(
                        row as int,
                        old(self).added@[k]@.last(),
                    ).drop_last(),
                forall|k: int|
                    0 <= k < c ==> (#[trigger] self.mutated@[k])@ == old(self).mutated@[k]@.update(
                        row as int,
                        old(self).mutated@[k]@.last(),
                    ).drop_last(),
            decreases n - c,
        {
            let col = &mut self.cells[c];
            col.swap_remove(row);
            let col_a = &mut self.added[c];
            col_a.swap_remove(row);
            let col_m = &mut self.mutated[c];
            col_m.swap_remove(row);
            c += 1;
        }
        moved
    }

    /// Raise the mutated bit of column `c` at `row`; nothing else changes.
    pub fn mark_mutated(&mut self, c: usize, row: usize)
        requires
            old(self).wf(),
            c < old(self).ncols(),
            row < old(self).rows(),
        ensures
            final(self).wf(),
            final(self).types_seq() == old(self).types_seq(),
            final(self).entities@ == old(self).entities@,
            final(self).rows() == old(self).rows(),
            final(self).cells@ == old(self).cells@,
            final(self).added@ == old(self).added@,
            final(self).mutated_bit(c as int, row as int),
            forall|c2: int, r2: int|
                0 <= c2 < old(self).ncols() && 0 <= r2 < old(self).rows() && !(c2 == c && r2
                    == row) ==> final(self).mutated_bit(c2, r2) == old(self).mutated_bit(c2, r2),
    {
        let col_m = &mut self.mutated[c];
        col_m[row] = true;
    }

    /// Drop every row; the component set itself is kept.
    pub fn clear(&mut self)
        requires
            old(self).wf(),
        ensures
            final(self).wf(),
            final(self).types_seq() == old(self).types_seq(),
            final(self).rows() == 0,
    {
        self.entities.clear();
        let n = self.types.len();
        let mut c: usize = 0;
        while c < n
            invariant
                c <= n,
                old(self).wf(),
                n == old(self).types@.len(),
                self.types@ == old(self).types@,
                self.entities@.len() == 0,
                self.cells@.len() == n,
                self.added@.len() == n,
                self.mutated@.len() == n,
                forall|k: int| 0 <= k < c ==> (#[trigger] self.cells@[k])@.len() == 0,
                forall|k: int| 0 <= k < c ==> (#[trigger] self.added@[k])@.len() == 0,
                forall|k: int| 0 <= k < c ==> (#[trigger] self.mutated@[k])@.len() == 0,
            decreases n - c,
        {
            let col = &mut self.cells[c];
            col.clear();
            let col_a = &mut self.added[c];
            col_a.clear();
            let col_m = &mut self.mutated[c];
            col_m.clear();
            c += 1;
        }
    }

    /// What clearing the trackers leaves: same store, all bits low.
    pub open spec fn trackers_cleared(post: Archetype, pre: Archetype) -> bool {
        &&& post.wf()
        &&& post.types_seq() == pre.types_seq()
        &&& post.rows() == pre.rows()
        &&& post.entities@ == pre.entities@
        &&& forall|c: int, r: int|
            0 <= c < pre.ncols() && 0 <= r < pre.rows() ==> #[trigger] post.cell(c, r) == pre.cell(
                c,
                r,
            )
        &&& forall|c: int, r: int|
            0 <= c < pre.ncols() && 0 <= r < pre.rows() ==> !(#[trigger] post.added_bit(c, r))
        &&& forall|c: int, r: int|
            0 <= c < pre.ncols() && 0 <= r < pre.rows() ==> !(#[trigger] post.mutated_bit(c, r))
    }

    /// Zero every tracking bit; values and rows are untouched.
    pub fn clear_trackers(&mut self)
        requires
            old(self).wf(),
        ensures
            final(self).wf(),
            Self::trackers_cleared(*final(self), *old(self)),
            final(self).types_seq() == old(self).types_seq(),
            final(self).rows() == old(self).rows(),
            final(self).entities@ == old(self).entities@,
            forall|c: int, r: int|
                0 <= c < old(self).ncols() && 0 <= r < old(self).rows() ==> final(self).cell(c, r)
                    == old(self).cell(c, r),
            forall|c: int, r: int|
                0 <= c < old(self).ncols() && 0 <= r < old(self).rows() ==> !final(self).added_bit(
                    c,
                    r,
                ) && !final(self).mutated_bit(c, r),
    {
        let rows = self.entities.len();
        let n = self.types.len();
        let mut c: usize = 0;
        while c < n
            invariant
                c <= n,
                old(self).wf(),
                rows == old(self).rows(),
                n == old(self).types@.len(),
                self.types@ == old(self).types@,
                self.entities@ == old(self).entities@,
                self.cells@ == old(self).cells@,
                self.added@.len() == n,
                self.mutated@.len() == n,
                forall|k: int| c <= k < n ==> (#[trigger] self.added@[k]) == old(self).added@[k],
                forall|k: int|
                    c <= k < n ==> (#[trigger] self.mutated@[k]) == old(self).mutated@[k],
                forall|k: int|
                    0 <= k < c ==> (#[trigger] self.added@[k])@.len() == rows && (forall|r: int|
                        0 <= r < rows ==> !(#[trigger] self.added@[k]@[r])),
                forall|k: int|
                    0 <= k < c ==> (#[trigger] self.mutated@[k])@.len() == rows && (forall|r: int|
                        0 <= r < rows ==> !(#[trigger] self.mutated@[k]@[r])),
            decreases n - c,
        {
            let fresh_a: Vec<bool> = vec![false; rows];
            let fresh_m: Vec<bool> = vec![false; rows];
            let col_a = &mut self.added[c];
            *col_a = fresh_a;
            let col_m = &mut self.mutated[c];
            *col_m = fresh_m;
            c += 1;
        }
    }
}

} // verus!
