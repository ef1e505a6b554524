//! The region a gadget instance writes its witness into.
//!
//! The host constraint system hands out region-scoped cells; the model keeps
//! the one advice column the gadget uses, the two selector columns, and the
//! equality constraints the gadget registers.  A committed cell is an
//! explicit handle; copying a cell into the region both duplicates its value
//! and records the equality constraint, never by hidden aliasing.

use crate::field::{valid_modulus, Fe};
use vstd::prelude::*;

verus! {

/// A handle to a committed witness cell: its row and its value.
#[derive(Clone, Copy, Debug, PartialEq, Eq, Structural)]
pub struct AssignedCell {
    /// The row offset of the cell within its region.
    pub offset: usize,
    /// The witnessed value of the cell.
    pub value: Fe,
}

/// The witness a decomposition writes: one advice column holding the running
/// sum, the decompose and partial-check selector columns, the cells asserted
/// equal to constants, and the cells filled by equality-copy.
#[derive(Clone, Debug)]
pub struct DecomposeRegion {
    /// The running-sum advice column, row by row.
    pub column: Vec<Fe>,
    /// Whether the full-chunk lookup selector is on, row by row.
    pub q_decompose: Vec<bool>,
    /// Whether the partial-chunk selector is on, row by row.
    pub q_partial_check: Vec<bool>,
    /// Equality-to-constant assertions: row offset and constant value.
    pub constants: Vec<(usize, Fe)>,
    /// Equality copies from outside cells: copied value and row offset.
    pub copies: Vec<(Fe, usize)>,
}

impl DecomposeRegion {
    /// All cells live in the field with modulus `m`, the selector columns
    /// run alongside the advice column, and every recorded constraint names
    /// a row that exists.
    pub open spec fn wf(self, m: u64) -> bool {
        &&& valid_modulus(m)
        &&& self.q_decompose@.len() == self.column@.len()
        &&& self.q_partial_check@.len() == self.column@.len()
        &&& forall|i: int|
            0 <= i < self.column@.len() ==> (#[trigger] self.column@[i]).wf() && self.column@[i].m
                == m
        &&& forall|i: int|
            0 <= i < self.constants@.len() ==> (#[trigger] self.constants@[i]).0
                < self.column@.len() && self.constants@[i].1.wf() && self.constants@[i].1.m == m
        &&& forall|i: int|
            0 <= i < self.copies@.len() ==> (#[trigger] self.copies@[i]).1 < self.column@.len()
                && self.copies@[i].0.wf() && self.copies@[i].0.m == m
    }

    /// An empty region over the field with modulus `m`.
    pub fn new(m: u64) -> (r: DecomposeRegion)
        requires
            valid_modulus(m),
        ensures
            r.wf(m),
            r.column@.len() == 0,
            r.constants@.len() == 0,
            r.copies@.len() == 0,
    {
        DecomposeRegion {
            column: Vec::new(),
            q_decompose: Vec::new(),
            q_partial_check: Vec::new(),
            constants: Vec::new(),
            copies: Vec::new(),
        }
    }

    /// Witness `value` on the next free row, both selectors off.
    pub fn assign_advice(&mut self, m: u64, value: Fe) -> (cell: AssignedCell)
        requires
            old(self).wf(m),
            value.wf(),
            value.m == m,
        ensures
            final(self).wf(m),
            final(self).column@ == old(self).column@.push(value),
            final(self).q_decompose@ == old(self).q_decompose@.push(false),
            final(self).q_partial_check@ == old(self).q_partial_check@.push(false),
            final(self).constants@ == old(self).constants@,
            final(self).copies@ == old(self).copies@,
            cell.offset == old(self).column@.len(),
            cell.value == value,
    {
        let offset = self.column.len();
        self.column.push(value);
        self.q_decompose.push(false);
        self.q_partial_check.push(false);
        AssignedCell { offset, value }
    }

    /// Copy a committed cell into the next free row: the value is
    /// duplicated and an equality constraint between the two cells is
    /// registered.
    pub fn copy_advice(&mut self, m: u64, cell: &AssignedCell) -> (copied: AssignedCell)
        requires
            old(self).wf(m),
            cell.value.wf(),
            cell.value.m == m,
        ensures
            final(self).wf(m),
            final(self).column@ == old(self).column@.push(cell.value),
            final(self).q_decompose@ == old(self).q_decompose@.push(false),
            final(self).q_partial_check@ == old(self).q_partial_check@.push(false),
            final(self).constants@ == old(self).constants@,
            final(self).copies@ == old(self).copies@.push(
                (cell.value, old(self).column@.len() as usize),
            ),
            copied.offset == old(self).column@.len(),
            copied.value == cell.value,
    {
        let offset = self.column.len();
        self.column.push(cell.value);
        self.q_decompose.push(false);
        self.q_partial_check.push(false);
        self.copies.push((cell.value, offset));
        AssignedCell { offset, value: cell.value }
    }

    /// Turn the full-chunk lookup selector on for one row.
    pub fn enable_q_decompose(&mut self, m: u64, offset: usize)
        requires
            old(self).wf(m),
            offset < old(self).column@.len(),
        ensures
            final(self).wf(m),
            final(self).column@ == old(self).column@,
            final(self).q_decompose@ == old(self).q_decompose@.update(offset as int, true),
            final(self).q_partial_check@ == old(self).q_partial_check@,
            final(self).constants@ == old(self).constants@,
            final(self).copies@ == old(self).copies@,
    {
        self.q_decompose.set(offset, true);
    }

    /// Turn the partial-chunk selector on for one row.
    pub fn enable_q_partial_check(&mut self, m: u64, offset: usize)
        requires
            old(self).wf(m),
            offset < old(self).column@.len(),
        ensures
            final(self).wf(m),
            final(self).column@ == old(self).column@,
            final(self).q_decompose@ == old(self).q_decompose@,
            final(self).q_partial_check@ == old(self).q_partial_check@.update(offset as int, true),
            final(self).constants@ == old(self).constants@,
            final(self).copies@ == old(self).copies@,
    {
        self.q_partial_check.set(offset, true);
    }

    /// Assert that a committed cell holds exactly the constant `c`.
    pub fn constrain_constant(&mut self, m: u64, cell: &AssignedCell, c: Fe)
        requires
            old(self).wf(m),
            cell.offset < old(self).column@.len(),
            c.wf(),
            c.m == m,
        ensures
            final(self).wf(m),
            final(self).column@ == old(self).column@,
            final(self).q_decompose@ == old(self).q_decompose@,
            final(self).q_partial_check@ == old(self).q_partial_check@,
            final(self).constants@ == old(self).constants@.push((cell.offset, c)),
            final(self).copies@ == old(self).copies@,
    {
        self.constants.push((cell.offset, c));
    }

    /// Witness a constant on the next free row and assert the equality,
    /// as a from-constant assignment does in the host system.
    pub fn assign_advice_from_constant(&mut self, m: u64, c: Fe) -> (cell: AssignedCell)
        requires
            old(self).wf(m),
            c.wf(),
            c.m == m,
        ensures
            final(self).wf(m),
            final(self).column@ == old(self).column@.push(c),
            final(self).q_decompose@ == old(self).q_decompose@.push(false),
            final(self).q_partial_check@ == old(self).q_partial_check@.push(false),
            final(self).constants@ == old(self).constants@.push(
                (old(self).column@.len() as usize, c),
            ),
            final(self).copies@ == old(self).copies@,
            cell.offset == old(self).column@.len(),
            cell.value == c,
    {
        let cell = self.assign_advice(m, c);
        self.constrain_constant(m, &cell, c);
        cell
    }
}

} // verus!
