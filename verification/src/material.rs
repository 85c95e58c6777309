use vstd::prelude::*;

verus! {

/// A handle on a material stored in a world: the material's position in the
/// world's material list, which holds at most `u16::MAX + 1` materials.
#[derive(Debug, Copy, Clone)]
pub struct MaterialReference {
    id: u16,
}

impl View for MaterialReference {
    type V = nat;

    closed spec fn view(&self) -> nat {
        self.id as nat
    }
}

impl MaterialReference {
    /// The reference to the material at position `id`; the position must fit
    /// in 16 bits.
    pub fn new(id: usize) -> (r: Self)
        requires
            id <= u16::MAX,
        ensures
            r@ == id,
    {
        Self { id: id as u16 }
    }

    /// The position of the material.
    pub fn id(self) -> (id: usize)
        ensures
            id == self@,
    {
        self.id as usize
    }
}

} // verus!
