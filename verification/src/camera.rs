use vstd::prelude::*;
use vstd::arithmetic::div_mod::{lemma_div_is_ordered_by_denominator, lemma_fundamental_div_mod, lemma_mod_bound};

verus! {

/// Accumulated samples of a `width × height` frame, one `P` per pixel, row-major.
pub struct Film<P> {
    width: usize,
    height: usize,
    pixels: Vec<P>,
}

impl<P: Clone + Default> Film<P> {
    pub closed spec fn spec_width(&self) -> usize {
        self.width
    }

    pub closed spec fn spec_height(&self) -> usize {
        self.height
    }

    pub closed spec fn spec_pixels(&self) -> Seq<P> {
        self.pixels@
    }

    /// One pixel per cell of the frame.
    pub open spec fn wf(&self) -> bool {
        self.spec_pixels().len() == self.spec_width() * self.spec_height()
    }

    /// Every pixel is a clone of the one value `blank`.
    pub open spec fn filled_with(&self, blank: P) -> bool {
        forall|i: int| 0 <= i < self.spec_pixels().len() ==> cloned(blank, #[trigger] self.spec_pixels()[i])
    }

    /// Every pixel is a clone of one value that `P::default()` returns: no samples are kept.
    pub open spec fn blank(&self) -> bool {
        exists|blank: P| call_ensures(P::default, (), blank) && #[trigger] self.filled_with(blank)
    }

    /// A film whose pixels all start as clones of `P::default()`.
    pub fn new(width: usize, height: usize) -> (f: Self)
        requires
            width * height <= usize::MAX,
        ensures
            f.wf(),
            f.spec_width() == width,
            f.spec_height() == height,
            f.blank(),
    {
        let blank = P::default();
        let ghost g = blank;
        let f = Self { width, height, pixels: vec![blank; width * height] };
        assert(f.filled_with(g));
        f
    }

    /// Discards all samples: every pixel becomes a clone of `P::default()`.
    pub fn clear(&mut self)
        requires
            old(self).spec_width() * old(self).spec_height() <= usize::MAX,
        ensures
            final(self).wf(),
            final(self).spec_width() == old(self).spec_width(),
            final(self).spec_height() == old(self).spec_height(),
            final(self).blank(),
    {
        self.pixels.clear();
        let blank = P::default();
        let ghost g = blank;
        self.pixels.resize(self.width * self.height, blank);
        assert(self.filled_with(g));
    }

    /// Changes the frame size and discards all samples.
    pub fn set_resolution(&mut self, width: usize, height: usize)
        requires
            width * height <= usize::MAX,
        ensures
            final(self).wf(),
            final(self).spec_width() == width,
            final(self).spec_height() == height,
            final(self).blank(),
    {
        self.width = width;
        self.height = height;
        self.clear();
    }

    pub fn width(&self) -> (w: usize)
        ensures
            w == self.spec_width(),
    {
        self.width
    }

    pub fn height(&self) -> (h: usize)
        ensures
            h == self.spec_height(),
    {
        self.height
    }

    /// The pixels, row-major.
    pub fn pixels(&self) -> (s: &[P])
        ensures
            s@ == self.spec_pixels(),
    {
        self.pixels.as_slice()
    }

    pub fn as_slice_mut(&mut self) -> (s: &mut [P])
        ensures
            s@ == old(self).spec_pixels(),
            final(self).spec_pixels() == final(s)@,
            final(self).spec_width() == old(self).spec_width(),
            final(self).spec_height() == old(self).spec_height(),
    {
        self.pixels.as_mut_slice()
    }
}

/// Pixel of a `film_width × film_height` film shown at pixel `(x, y)` of a
/// `width × height` window (nearest neighbour, rounding down).
pub open spec fn film_source_index_spec(
    film_width: int,
    film_height: int,
    width: int,
    height: int,
    x: int,
    y: int,
) -> int {
    (y * film_height / height) * film_width + x * film_width / width
}

/// A window as large as the film shows each film pixel at its own place; the pixel shown
/// never lies outside the film; and a pixel further right in the window never shows a
/// pixel further left in the film.
pub proof fn lemma_film_source_index(fw: int, fh: int, w: int, h: int, x: int, x2: int, y: int)
    requires
        fw >= 1,
        fh >= 1,
        w >= 1,
        h >= 1,
        0 <= x <= x2 < w,
        0 <= y < h,
    ensures
        (w == fw && h == fh) ==> film_source_index_spec(fw, fh, w, h, x, y) == y * fw + x,
        0 <= film_source_index_spec(fw, fh, w, h, x, y) < fw * fh,
        film_source_index_spec(fw, fh, w, h, x, y) <= film_source_index_spec(fw, fh, w, h, x2, y),
{
    let sx = x * fw / w;
    let sx2 = x2 * fw / w;
    let sy = y * fh / h;
    lemma_scaled_below(x, w, fw);
    lemma_scaled_below(y, h, fh);
    assert(x * fw <= x2 * fw) by (nonlinear_arith)
        requires
            x <= x2,
            fw >= 0,
    ;
    assert(sx <= sx2) by (nonlinear_arith)
        requires
            x * fw <= x2 * fw,
            w >= 1,
            sx == x * fw / w,
            sx2 == x2 * fw / w,
    ;
    assert(0 <= sx) by (nonlinear_arith)
        requires
            x >= 0,
            fw >= 0,
            w >= 1,
            sx == x * fw / w,
    ;
    assert(0 <= sy) by (nonlinear_arith)
        requires
            y >= 0,
            fh >= 0,
            h >= 1,
            sy == y * fh / h,
    ;
    assert(0 <= sy * fw) by (nonlinear_arith)
        requires
            sy >= 0,
            fw >= 0,
    ;
    assert(sy * fw + sx < fw * fh) by (nonlinear_arith)
        requires
            sx < fw,
            sy < fh,
            0 <= sx,
            0 <= sy,
    ;
    if w == fw && h == fh {
        assert(x * fw / w == x) by (nonlinear_arith)
            requires
                w == fw,
                w >= 1,
        ;
        assert(y * fh / h == y) by (nonlinear_arith)
            requires
                h == fh,
                h >= 1,
        ;
    }
}

/// Position in the film of the pixel shown at `(x, y)` of a `width × height` window; it
/// always lies inside the film.
pub fn film_source_index(
    film_width: usize,
    film_height: usize,
    width: usize,
    height: usize,
    x: usize,
    y: usize,
) -> (i: usize)
    requires
        x < width,
        y < height,
        x * film_width <= usize::MAX,
        y * film_height <= usize::MAX,
        film_width * film_height <= usize::MAX,
    ensures
        i == film_source_index_spec(
            film_width as int,
            film_height as int,
            width as int,
            height as int,
            x as int,
            y as int,
        ),
        i < film_width * film_height || film_width * film_height == 0,
{
    let sx = x * film_width / width;
    let sy = y * film_height / height;
    proof {
        lemma_scaled_below(x as int, width as int, film_width as int);
        lemma_scaled_below(y as int, height as int, film_height as int);
        if film_width > 0 && film_height > 0 {
            assert(sy * film_width + sx < film_width * film_height) by (nonlinear_arith)
                requires
                    sx < film_width,
                    sy < film_height,
            ;
            assert(0 <= sy * film_width) by (nonlinear_arith)
                requires
                    0 <= sy,
                    0 <= film_width,
            ;
        } else {
            assert(sx == 0 || sy == 0);
        }
    }
    sy * film_width + sx
}

proof fn lemma_scaled_below(x: int, width: int, film: int)
    requires
        0 <= x < width,
        0 <= film,
    ensures
        0 <= x * film / width,
        film > 0 ==> x * film / width < film,
        film == 0 ==> x * film / width == 0,
{
    let p = x * film;
    assert(0 <= p) by (nonlinear_arith)
        requires
            p == x * film,
            0 <= x,
            0 <= film,
    ;
    lemma_fundamental_div_mod(p, width);
    lemma_mod_bound(p, width);
    let q = p / width;
    assert(0 <= q) by (nonlinear_arith)
        requires
            p == width * q + p % width,
            0 <= p % width < width,
            0 <= p,
    ;
    if film > 0 {
        assert(q < film) by (nonlinear_arith)
            requires
                p == width * q + p % width,
                0 <= p % width,
                p == x * film,
                x < width,
                film > 0,
                width > 0,
        ;
    } else {
        assert(p == 0) by (nonlinear_arith)
            requires
                p == x * film,
                film == 0,
        ;
    }
}

/// Packs 8-bit red, green and blue codes into `0x00RRGGBB`.
pub fn pack_rgb8(r: u32, g: u32, b: u32) -> (p: u32)
    requires
        r <= 255,
        g <= 255,
        b <= 255,
    ensures
        p == r * 65536 + g * 256 + b,
{
    assert((r << 16u32) | (g << 8u32) | b == r * 65536 + g * 256 + b) by (bit_vector)
        requires
            r <= 255,
            g <= 255,
            b <= 255,
    ;
    (r << 16u32) | (g << 8u32) | b
}


/// A direction the camera can be moved in, relative to where it looks.
#[derive(Clone, Copy, PartialEq, Eq, Structural, Debug)]
pub enum Direction {
    Up,
    Down,
    Left,
    Right,
    Forward,
    Backward,
}

/// The movement keys held down in the interactive preview.
#[derive(Clone, Copy, PartialEq, Eq, Structural, Debug)]
pub struct MovementKeys {
    pub forward: bool,
    pub backward: bool,
    pub left: bool,
    pub right: bool,
    pub up: bool,
    pub down: bool,
}

pub open spec fn movement_spec(keys: MovementKeys) -> Seq<Direction> {
    (if keys.forward {
        seq![Direction::Forward]
    } else {
        seq![]
    }) + (if keys.backward {
        seq![Direction::Backward]
    } else {
        seq![]
    }) + (if keys.left {
        seq![Direction::Left]
    } else {
        seq![]
    }) + (if keys.right {
        seq![Direction::Right]
    } else {
        seq![]
    }) + (if keys.up {
        seq![Direction::Up]
    } else {
        seq![]
    }) + (if keys.down {
        seq![Direction::Down]
    } else {
        seq![]
    })
}

/// Position of a direction in the order the moves of a frame are applied.
pub open spec fn move_order(d: Direction) -> int {
    match d {
        Direction::Forward => 0,
        Direction::Backward => 1,
        Direction::Left => 2,
        Direction::Right => 3,
        Direction::Up => 4,
        Direction::Down => 5,
    }
}

/// Whether the key for moving in direction `d` is held.
spec fn held(keys: MovementKeys, d: Direction) -> bool {
    match d {
        Direction::Forward => keys.forward,
        Direction::Backward => keys.backward,
        Direction::Left => keys.left,
        Direction::Right => keys.right,
        Direction::Up => keys.up,
        Direction::Down => keys.down,
    }
}

/// Appends `d` when `b`.
spec fn push_if(s: Seq<Direction>, b: bool, d: Direction) -> Seq<Direction> {
    if b {
        s.push(d)
    } else {
        s
    }
}

/// `s` lists, in move order, exactly the held directions that come before position `k`.
spec fn stage_ok(keys: MovementKeys, s: Seq<Direction>, k: int) -> bool {
    &&& forall|i: int, j: int| 0 <= i < j < s.len() ==> move_order(s[i]) < move_order(s[j])
    &&& forall|i: int| 0 <= i < s.len() ==> move_order(#[trigger] s[i]) < k
    &&& forall|d: Direction| #[trigger] s.contains(d) <==> held(keys, d) && move_order(d) < k
}

proof fn lemma_stage(keys: MovementKeys, s: Seq<Direction>, k: int, d: Direction)
    requires
        stage_ok(keys, s, k),
        move_order(d) == k,
    ensures
        stage_ok(keys, push_if(s, held(keys, d), d), k + 1),
{
    let t = push_if(s, held(keys, d), d);
    if held(keys, d) {
        assert forall|i: int, j: int| 0 <= i < j < t.len() implies move_order(t[i]) < move_order(
            t[j],
        ) by {
            assert(t[i] == s[i]);
            if j < s.len() {
                assert(t[j] == s[j]);
            }
        }
        assert forall|i: int| 0 <= i < t.len() implies move_order(#[trigger] t[i]) < k + 1 by {
            if i < s.len() {
                assert(t[i] == s[i]);
            }
        }
        assert forall|x: Direction| #[trigger] t.contains(x) <==> held(keys, x) && move_order(x)
            < k + 1 by {
            if s.contains(x) {
                let i = choose|i: int| 0 <= i < s.len() && s[i] == x;
                assert(t[i] == x);
            }
            if x == d {
                assert(t[s.len() as int] == x);
            }
            if t.contains(x) {
                let i = choose|i: int| 0 <= i < t.len() && t[i] == x;
                if i < s.len() {
                    assert(s[i] == x);
                }
            }
            if held(keys, x) && move_order(x) == k {
                assert(x == d);
            }
        }
    } else {
        assert forall|x: Direction| #[trigger] t.contains(x) <==> held(keys, x) && move_order(x)
            < k + 1 by {
            if held(keys, x) && move_order(x) == k {
                assert(x == d);
            }
        }
    }
}

/// The moves of a frame name exactly the directions whose keys are held, each once, in
/// the order forward, backward, left, right, up, down.
pub proof fn lemma_movement_spec(keys: MovementKeys)
    ensures
        movement_spec(keys).contains(Direction::Forward) == keys.forward,
        movement_spec(keys).contains(Direction::Backward) == keys.backward,
        movement_spec(keys).contains(Direction::Left) == keys.left,
        movement_spec(keys).contains(Direction::Right) == keys.right,
        movement_spec(keys).contains(Direction::Up) == keys.up,
        movement_spec(keys).contains(Direction::Down) == keys.down,
        forall|i: int, j: int|
            0 <= i < j < movement_spec(keys).len() ==> move_order(movement_spec(keys)[i])
                < move_order(movement_spec(keys)[j]),
{
    let s0 = Seq::<Direction>::empty();
    let s1 = push_if(s0, held(keys, Direction::Forward), Direction::Forward);
    let s2 = push_if(s1, held(keys, Direction::Backward), Direction::Backward);
    let s3 = push_if(s2, held(keys, Direction::Left), Direction::Left);
    let s4 = push_if(s3, held(keys, Direction::Right), Direction::Right);
    let s5 = push_if(s4, held(keys, Direction::Up), Direction::Up);
    let s6 = push_if(s5, held(keys, Direction::Down), Direction::Down);
    assert(stage_ok(keys, s0, 0));
    lemma_stage(keys, s0, 0, Direction::Forward);
    lemma_stage(keys, s1, 1, Direction::Backward);
    lemma_stage(keys, s2, 2, Direction::Left);
    lemma_stage(keys, s3, 3, Direction::Right);
    lemma_stage(keys, s4, 4, Direction::Up);
    lemma_stage(keys, s5, 5, Direction::Down);
    assert(movement_spec(keys) =~= s6);
    assert(s6.contains(Direction::Forward) == held(keys, Direction::Forward));
    assert(s6.contains(Direction::Backward) == held(keys, Direction::Backward));
    assert(s6.contains(Direction::Left) == held(keys, Direction::Left));
    assert(s6.contains(Direction::Right) == held(keys, Direction::Right));
    assert(s6.contains(Direction::Up) == held(keys, Direction::Up));
    assert(s6.contains(Direction::Down) == held(keys, Direction::Down));
}

/// The moves the camera makes this frame, in the order they are applied: forward,
/// backward, left, right, up, down, each when its key is held. The accumulated image is
/// discarded when the list is not empty.
#[verifier::spinoff_prover]
pub fn movement_directions(keys: MovementKeys) -> (d: Vec<Direction>)
    ensures
        d@ == movement_spec(keys),
{
    let mut d: Vec<Direction> = Vec::new();
    if keys.forward {
        d.push(Direction::Forward);
    }
    if keys.backward {
        d.push(Direction::Backward);
    }
    if keys.left {
        d.push(Direction::Left);
    }
    if keys.right {
        d.push(Direction::Right);
    }
    if keys.up {
        d.push(Direction::Up);
    }
    if keys.down {
        d.push(Direction::Down);
    }
    proof {
        assert(d@ =~= movement_spec(keys));
    }
    d
}

/// A key of the interactive preview, as far as releasing it does anything.
#[derive(Clone, Copy, PartialEq, Eq, Structural, Debug)]
pub enum PreviewKey {
    Escape,
    Enter,
    Tab,
    Equal,
    Minus,
    CapsLock,
    Other,
}

/// What the preview does when a key is released.
#[derive(Clone, Copy, PartialEq, Eq, Structural, Debug)]
pub enum PreviewAction {
    /// Close the window without rendering.
    Exit,
    /// Close the window and go on to the offline render.
    ExitAndRender,
    /// Switch to the next render mode and restart accumulation.
    NextRenderMode,
    /// Raise the target frame rate by one.
    IncreaseFps,
    /// Lower the target frame rate by one, not below one.
    DecreaseFps,
    /// Grab or release the mouse cursor.
    ToggleGrab,
    Nothing,
}

pub fn on_key_released(key: PreviewKey) -> (a: PreviewAction)
    ensures
        a == match key {
            PreviewKey::Escape => PreviewAction::Exit,
            PreviewKey::Enter => PreviewAction::ExitAndRender,
            PreviewKey::Tab => PreviewAction::NextRenderMode,
            PreviewKey::Equal => PreviewAction::IncreaseFps,
            PreviewKey::Minus => PreviewAction::DecreaseFps,
            PreviewKey::CapsLock => PreviewAction::ToggleGrab,
            PreviewKey::Other => PreviewAction::Nothing,
        },
{
    match key {
        PreviewKey::Escape => PreviewAction::Exit,
        PreviewKey::Enter => PreviewAction::ExitAndRender,
        PreviewKey::Tab => PreviewAction::NextRenderMode,
        PreviewKey::Equal => PreviewAction::IncreaseFps,
        PreviewKey::Minus => PreviewAction::DecreaseFps,
        PreviewKey::CapsLock => PreviewAction::ToggleGrab,
        PreviewKey::Other => PreviewAction::Nothing,
    }
}

} // verus!
