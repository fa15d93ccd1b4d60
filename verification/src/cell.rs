use vstd::prelude::*;

verus! {

/// One board position: an optional digit and a flag saying whether the end
/// user may still write to it. A cell placed by the generator is a "given"
/// and keeps `can_set == false` for the rest of the game.
pub struct Cell {
    pub value: Option<u32>,
    pub can_set: bool,
}

impl Cell {
    /// The digit stored here, or 0 when the cell is empty. Callers must treat
    /// 0 as "no contribution", never as a legal digit.
    pub open spec fn spec_value(self) -> u32 {
        match self.value {
            Some(v) => v,
            None => 0u32,
        }
    }

    /// Whether the cell holds a digit.
    pub open spec fn is_filled(self) -> bool {
        self.value is Some
    }

    /// A generator-placed given: filled and immutable.
    pub fn new(value: u32) -> (c: Cell)
        ensures
            c.value == Some(value),
            !c.can_set,
    {
        Cell { value: Some(value), can_set: false }
    }

    /// A fresh cell: empty and editable.
    pub fn new_empty() -> (c: Cell)
        ensures
            c.value is None,
            c.can_set,
    {
        Cell { value: None, can_set: true }
    }

    /// Empties the cell and forces it editable (carving always leaves the
    /// cleared cell open to the user).
    pub fn set_empty(&mut self)
        ensures
            final(self).value is None,
            final(self).can_set,
    {
        self.value = None;
        self.can_set = true;
    }

    /// Writes a digit without touching editability.
    pub fn set_value(&mut self, value: u32)
        ensures
            final(self).value == Some(value),
            final(self).can_set == old(self).can_set,
    {
        self.value = Some(value);
    }

    /// The stored digit, or 0 for an empty cell.
    pub fn get_value(&self) -> (v: u32)
        ensures
            v == self.spec_value(),
    {
        match self.value {
            Some(v) => v,
            None => 0,
        }
    }
}

} // verus!
