use vstd::prelude::*;

verus! {

/// Lambertian reflection with albedo spectrum `S`.
pub struct DiffuseBsdf<'a, S> {
    albedo: &'a S,
}

impl<'a, S> DiffuseBsdf<'a, S> {
    pub closed spec fn spec_albedo(&self) -> &'a S {
        self.albedo
    }

    pub fn new(albedo: &'a S) -> (b: Self)
        ensures
            b.spec_albedo() == albedo,
    {
        Self { albedo }
    }

    pub fn albedo(&self) -> (a: &'a S)
        ensures
            a == self.spec_albedo(),
    {
        self.albedo
    }

    /// Diffuse reflection scatters into the whole hemisphere.
    pub fn is_delta_distribution(&self) -> (d: bool)
        ensures
            !d,
    {
        false
    }
}

/// Lambertian ground with a darker grid line every eight cells of an eighth of a unit.
pub struct GroundBsdf<'a, S> {
    albedo: &'a S,
}

/// A ground cell (index along one axis of the eighth-of-a-unit grid) on a grid line.
pub open spec fn on_grid_line(cell: int) -> bool {
    cell % 8 == 0
}

/// Grid lines come every eighth cell, with cell 0 on one and none in between: shifting a
/// cell by eight, up or down, keeps whether it lies on a line, and cells 1 to 7 do not.
pub proof fn lemma_grid_lines_every_eighth_cell(cell: int)
    ensures
        on_grid_line(0),
        on_grid_line(cell + 8) == on_grid_line(cell),
        on_grid_line(cell - 8) == on_grid_line(cell),
        0 < cell < 8 ==> !on_grid_line(cell),
{
    assert((cell + 8) % 8 == cell % 8) by (nonlinear_arith);
    assert((cell - 8) % 8 == cell % 8) by (nonlinear_arith);
}

impl<'a, S> GroundBsdf<'a, S> {
    pub closed spec fn spec_albedo(&self) -> &'a S {
        self.albedo
    }

    pub fn new(albedo: &'a S) -> (b: Self)
        ensures
            b.spec_albedo() == albedo,
    {
        Self { albedo }
    }

    pub fn albedo(&self) -> (a: &'a S)
        ensures
            a == self.spec_albedo(),
    {
        self.albedo
    }

    pub fn is_delta_distribution(&self) -> (d: bool)
        ensures
            !d,
    {
        false
    }

    /// Whether the reflection at ground cell `(cell_x, cell_z)` is darkened, which is the
    /// case on every eighth row and column of cells.
    pub fn darkened(cell_x: i32, cell_z: i32) -> (d: bool)
        ensures
            d == (on_grid_line(cell_x as int) || on_grid_line(cell_z as int)),
    {
        cell_x % 8 == 0 || cell_z % 8 == 0
    }
}

/// Perfect mirror reflection with albedo spectrum `S`.
pub struct SpecularBsdf<'a, S> {
    albedo: &'a S,
}

impl<'a, S> SpecularBsdf<'a, S> {
    pub closed spec fn spec_albedo(&self) -> &'a S {
        self.albedo
    }

    pub fn new(albedo: &'a S) -> (b: Self)
        ensures
            b.spec_albedo() == albedo,
    {
        Self { albedo }
    }

    pub fn albedo(&self) -> (a: &'a S)
        ensures
            a == self.spec_albedo(),
    {
        self.albedo
    }

    /// A mirror reflects into a single direction.
    pub fn is_delta_distribution(&self) -> (d: bool)
        ensures
            d,
    {
        true
    }
}

} // verus!
