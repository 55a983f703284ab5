use vstd::prelude::*;
use crate::light_sampler::MisCompensation;
use crate::parallel::min_int;
use vstd::arithmetic::div_mod::{lemma_fundamental_div_mod, lemma_fundamental_div_mod_converse, lemma_mod_bound};

verus! {

/// Position of a shape instance in the scene.
#[derive(Clone, Copy, PartialEq, Eq, Structural, Debug)]
pub struct ShapeInstanceId(pub usize);

/// On which side of an emitting surface a point lies, as given by the sign of the cosine
/// between the surface normal and the direction towards the point.
#[derive(Clone, Copy, PartialEq, Eq, Structural)]
pub enum EmissionSide {
    Front,
    Back,
    Edge,
}

/// A shape instance that emits light with radiance spectrum `S`.
pub struct AreaLight<'a, S> {
    shape_instance_id: ShapeInstanceId,
    radiance: &'a S,
    double_side: bool,
}

impl<'a, S> AreaLight<'a, S> {
    pub closed spec fn spec_shape_instance_id(&self) -> ShapeInstanceId {
        self.shape_instance_id
    }

    pub closed spec fn spec_radiance(&self) -> &'a S {
        self.radiance
    }

    pub closed spec fn spec_double_side(&self) -> bool {
        self.double_side
    }

    pub fn new(shape_instance_id: ShapeInstanceId, radiance: &'a S, double_side: bool) -> (l: Self)
        ensures
            l.spec_shape_instance_id() == shape_instance_id,
            l.spec_radiance() == radiance,
            l.spec_double_side() == double_side,
    {
        Self { shape_instance_id, radiance, double_side }
    }

    pub fn shape_instance_id(&self) -> (id: ShapeInstanceId)
        ensures
            id == self.spec_shape_instance_id(),
    {
        self.shape_instance_id
    }

    pub fn radiance(&self) -> (r: &'a S)
        ensures
            r == self.spec_radiance(),
    {
        self.radiance
    }

    pub fn double_side(&self) -> (d: bool)
        ensures
            d == self.spec_double_side(),
    {
        self.double_side
    }

    /// Whether light leaves the surface towards a point on `side`: never along the surface,
    /// always in front, and behind only for double-sided lights.
    pub fn emits_towards(&self, side: EmissionSide) -> (e: bool)
        ensures
            e == match side {
                EmissionSide::Front => true,
                EmissionSide::Back => self.spec_double_side(),
                EmissionSide::Edge => false,
            },
    {
        match side {
            EmissionSide::Front => true,
            EmissionSide::Back => self.double_side,
            EmissionSide::Edge => false,
        }
    }

    /// Number of emitting sides, the factor of the light's power.
    pub fn side_count(&self) -> (n: u32)
        ensures
            n == (if self.spec_double_side() {
                2u32
            } else {
                1u32
            }),
    {
        if self.double_side {
            2
        } else {
            1
        }
    }
}

/// Light arriving from every direction with the same radiance spectrum `S`.
pub struct UniformInfiniteLight<'a, S> {
    radiance: &'a S,
}

impl<'a, S> UniformInfiniteLight<'a, S> {
    pub closed spec fn spec_radiance(&self) -> &'a S {
        self.radiance
    }

    pub fn new(radiance: &'a S) -> (l: Self)
        ensures
            l.spec_radiance() == radiance,
    {
        Self { radiance }
    }

    pub fn radiance(&self) -> (r: &'a S)
        ensures
            r == self.spec_radiance(),
    {
        self.radiance
    }

    /// A uniform light has nothing that the BSDF samples better, so the compensated light
    /// sampling leaves it out altogether.
    pub fn skip_mis_compensation(&self) -> (s: bool)
        ensures
            s,
    {
        true
    }

    /// Whether light sampling draws directions from this light: only without compensation.
    pub fn is_sampled(&self, mis_compensation: MisCompensation) -> (s: bool)
        ensures
            s == (mis_compensation == MisCompensation::Disabled),
    {
        match mis_compensation {
            MisCompensation::Disabled => true,
            MisCompensation::Enabled => false,
        }
    }
}

/// Side, in pixels, of the square cells an environment image is cut into for importance
/// sampling.
pub const GIRD_SIZE: usize = 50;

/// Number of cells along an image side of `extent` pixels (one more than the whole cells,
/// so that the far edge `extent` itself has a cell).
pub open spec fn gird_count_spec(extent: int) -> int {
    extent / (GIRD_SIZE as int) + 1
}

/// Pixels covered by cell `g` along an image side of `extent` pixels.
pub open spec fn gird_extent_spec(extent: int, g: int) -> int {
    min_int(GIRD_SIZE as int, extent - g * (GIRD_SIZE as int))
}

/// Number of cells along each side of a `width × height` image.
pub fn gird_count(width: usize, height: usize) -> (c: (usize, usize))
    ensures
        c.0 == gird_count_spec(width as int),
        c.1 == gird_count_spec(height as int),
{
    (width / GIRD_SIZE + 1, height / GIRD_SIZE + 1)
}

/// Pixels covered by cell `g` along an image side of `extent` pixels.
pub fn gird_extent(extent: usize, g: usize) -> (n: usize)
    requires
        g < gird_count_spec(extent as int),
    ensures
        n == gird_extent_spec(extent as int, g as int),
{
    proof {
        lemma_fundamental_div_mod(extent as int, GIRD_SIZE as int);
        lemma_mod_bound(extent as int, GIRD_SIZE as int);
        assert(g * 50 <= extent) by (nonlinear_arith)
            requires
                g <= extent / 50,
                extent == 50 * (extent / 50) + extent % 50,
                extent % 50 >= 0,
        ;
    }
    let rest = extent - g * GIRD_SIZE;
    if GIRD_SIZE <= rest {
        GIRD_SIZE
    } else {
        rest
    }
}

/// Cell, in cell coordinates, of the pixel position `(x, y)` (already clamped into the image).
pub fn gird_idx_from_pixel(x: usize, y: usize) -> (c: (usize, usize))
    ensures
        c == ((x / GIRD_SIZE) as usize, (y / GIRD_SIZE) as usize),
{
    (x / GIRD_SIZE, y / GIRD_SIZE)
}

/// Position of cell `(gx, gy)` in the row-major list of cells, `count_x` cells per row.
pub fn gird_flat_index(count_x: usize, count_y: usize, gx: usize, gy: usize) -> (i: usize)
    requires
        gx < count_x,
        gy < count_y,
        count_x * count_y <= usize::MAX,
    ensures
        i == gy * count_x + gx,
        i < count_x * count_y,
{
    proof {
        assert(gy * count_x + gx < count_x * count_y) by (nonlinear_arith)
            requires
                gx < count_x,
                gy < count_y,
        ;
    }
    gy * count_x + gx
}

/// Cell coordinates of the cell at position `index` of the row-major list.
pub fn gird_cell(count_x: usize, index: usize) -> (c: (usize, usize))
    requires
        count_x >= 1,
    ensures
        c == ((index % count_x) as usize, (index / count_x) as usize),
{
    (index % count_x, index / count_x)
}

/// A cell that starts inside the image covers at least one pixel, never more than
/// `GIRD_SIZE`, never runs past the image's edge, and is a full `GIRD_SIZE` wide whenever
/// the image reaches that far.
pub proof fn lemma_gird_extent(extent: int, g: int)
    requires
        0 <= g,
        g * (GIRD_SIZE as int) < extent,
    ensures
        1 <= gird_extent_spec(extent, g) <= GIRD_SIZE,
        g * (GIRD_SIZE as int) + gird_extent_spec(extent, g) <= extent,
        g * (GIRD_SIZE as int) + (GIRD_SIZE as int) <= extent ==> gird_extent_spec(extent, g)
            == GIRD_SIZE,
{
}

/// The cells tile the image: the cell of every pixel `(x, y)` with `x <= width` and
/// `y <= height` exists, its position in the cell list leads back to it, and, for a pixel
/// inside the image, the cell's pixel run contains it.
pub proof fn lemma_gird_round_trip(width: int, height: int, x: int, y: int)
    requires
        0 <= x <= width,
        0 <= y <= height,
    ensures
        ({
            let cx = gird_count_spec(width);
            let cy = gird_count_spec(height);
            let gx = x / (GIRD_SIZE as int);
            let gy = y / (GIRD_SIZE as int);
            let i = gy * cx + gx;
            &&& 0 <= gx < cx && 0 <= gy < cy
            &&& 0 <= i < cx * cy
            &&& i % cx == gx && i / cx == gy
            &&& x < width ==> gx * (GIRD_SIZE as int) <= x < gx * (GIRD_SIZE as int)
                + gird_extent_spec(width, gx)
            &&& y < height ==> gy * (GIRD_SIZE as int) <= y < gy * (GIRD_SIZE as int)
                + gird_extent_spec(height, gy)
        }),
{
    let s = GIRD_SIZE as int;
    let cx = gird_count_spec(width);
    let cy = gird_count_spec(height);
    let gx = x / s;
    let gy = y / s;
    lemma_fundamental_div_mod(x, s);
    lemma_mod_bound(x, s);
    lemma_fundamental_div_mod(y, s);
    lemma_mod_bound(y, s);
    lemma_fundamental_div_mod(width, s);
    lemma_mod_bound(width, s);
    lemma_fundamental_div_mod(height, s);
    lemma_mod_bound(height, s);
    assert(0 <= gx <= width / s) by (nonlinear_arith)
        requires
            x == s * gx + x % s,
            width == s * (width / s) + width % s,
            0 <= x % s < s,
            0 <= width % s < s,
            0 <= x <= width,
            s == 50,
    ;
    assert(0 <= gy <= height / s) by (nonlinear_arith)
        requires
            y == s * gy + y % s,
            height == s * (height / s) + height % s,
            0 <= y % s < s,
            0 <= height % s < s,
            0 <= y <= height,
            s == 50,
    ;
    let i = gy * cx + gx;
    assert(0 <= i < cx * cy) by (nonlinear_arith)
        requires
            0 <= gx < cx,
            0 <= gy < cy,
            i == gy * cx + gx,
    ;
    lemma_fundamental_div_mod_converse(i, cx, gy, gx);
}

/// Picks the alias table to sample environment cells from: the compensated one when
/// compensation is on and the light has any cell above its average power.
pub fn choose_alias_table<'t, T>(
    skip_compensation: bool,
    mis_compensation: MisCompensation,
    plain: &'t T,
    compensated: &'t T,
) -> (t: &'t T)
    ensures
        t == (if !skip_compensation && mis_compensation == MisCompensation::Enabled {
            compensated
        } else {
            plain
        }),
{
    if skip_compensation {
        plain
    } else {
        match mis_compensation {
            MisCompensation::Disabled => plain,
            MisCompensation::Enabled => compensated,
        }
    }
}

} // verus!
