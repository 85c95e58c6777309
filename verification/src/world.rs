use crate::material::MaterialReference;
use vstd::prelude::*;

verus! {

/// A scene under construction: its spheres, and the materials that the
/// spheres refer to by position.
pub struct World<S, M> {
    spheres: Vec<S>,
    materials: Vec<M>,
}

impl<S, M> View for World<S, M> {
    /// The spheres and the materials, in the order they were added.
    type V = (Seq<S>, Seq<M>);

    closed spec fn view(&self) -> (Seq<S>, Seq<M>) {
        (self.spheres@, self.materials@)
    }
}

impl<S, M> World<S, M> {
    /// An empty world.
    pub fn new() -> (w: Self)
        ensures
            w@.0 == Seq::<S>::empty(),
            w@.1 == Seq::<M>::empty(),
    {
        Self { spheres: Vec::new(), materials: Vec::new() }
    }

    /// Appends a material and returns the reference to it, its position. A
    /// reference holds positions up to `u16::MAX`, so the world must hold at
    /// most that many materials beforehand.
    pub fn add_material(&mut self, material: M) -> (r: MaterialReference)
        requires
            old(self)@.1.len() <= u16::MAX,
        ensures
            r@ == old(self)@.1.len(),
            final(self)@.0 == old(self)@.0,
            final(self)@.1 == old(self)@.1.push(material),
    {
        let id = MaterialReference::new(self.materials.len());
        self.materials.push(material);
        id
    }

    /// Appends a sphere.
    pub fn add_sphere(&mut self, sphere: S)
        ensures
            final(self)@.0 == old(self)@.0.push(sphere),
            final(self)@.1 == old(self)@.1,
    {
        self.spheres.push(sphere);
    }

    /// Takes the world apart into its spheres and its materials.
    pub fn decompose(self) -> (parts: (Vec<S>, Vec<M>))
        ensures
            parts.0@ == self@.0,
            parts.1@ == self@.1,
    {
        (self.spheres, self.materials)
    }

    /// The spheres, in the order they were added.
    pub fn spheres(&self) -> (s: &[S])
        ensures
            s@ == self@.0,
    {
        self.spheres.as_slice()
    }

    /// The number of materials.
    pub fn material_count(&self) -> (n: usize)
        ensures
            n == self@.1.len(),
    {
        self.materials.len()
    }

    /// The material that `material` refers to.
    pub fn get_material(&self, material: MaterialReference) -> (m: &M)
        requires
            material@ < self@.1.len(),
        ensures
            *m == self@.1[material@ as int],
    {
        &self.materials[material.id()]
    }
}

/// Adding a material and looking up the reference that came back gives that
/// material, and every reference handed out before still gives its material.
pub proof fn lemma_lookup_after_add<S, M>(
    before: World<S, M>,
    after: World<S, M>,
    material: M,
    r: MaterialReference,
)
    requires
        r@ == before@.1.len(),
        after@.1 == before@.1.push(material),
    ensures
        r@ < after@.1.len(),
        after@.1[r@ as int] == material,
        forall|k: int| 0 <= k < before@.1.len() ==> after@.1[k] == before@.1[k],
{
}

/// A reference handed out by a world still gives its material after any
/// later additions: materials are only ever appended, so what the world held
/// then is a prefix of what it holds now.
pub proof fn lemma_lookup_after_additions<S, M>(before: World<S, M>, after: World<S, M>, r: MaterialReference)
    requires
        r@ < before@.1.len(),
        before@.1.is_prefix_of(after@.1),
    ensures
        r@ < after@.1.len(),
        after@.1[r@ as int] == before@.1[r@ as int],
{
}

/// Each addition keeps the materials held so far as a prefix, and the order
/// of prefixes is transitive, so the previous law covers any run of
/// additions.
pub proof fn lemma_additions_keep_prefix<M>(a: Seq<M>, b: Seq<M>, c: Seq<M>, m: M)
    ensures
        a.is_prefix_of(a.push(m)),
        a.is_prefix_of(a),
        a.is_prefix_of(b) && b.is_prefix_of(c) ==> a.is_prefix_of(c),
{
    assert(a.push(m).subrange(0, a.len() as int) =~= a);
    assert(a.subrange(0, a.len() as int) =~= a);
    if a.is_prefix_of(b) && b.is_prefix_of(c) {
        assert(c.subrange(0, a.len() as int) =~= b.subrange(0, a.len() as int));
    }
}

} // verus!
