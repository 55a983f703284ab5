use vstd::prelude::*;
use crate::light_sampler::{LightSampler, MisCompensation};
use crate::camera::{movement_spec, on_key_released, MovementKeys, PreviewAction, PreviewKey};

verus! {

/// Largest number of samples per pixel rendered in one pass before the film is saved.
pub const MAX_BATCH_SPP: usize = 32;

/// Progress of an offline render of `spp` samples per pixel, done in passes: the first
/// pass renders one sample, each later pass renders as many samples as have already
/// been rendered (at most `MAX_BATCH_SPP`), never going past `spp`.
pub struct SppSchedule {
    pub spp: usize,
    pub current_spp: usize,
    pub increase: usize,
}

/// Sizes of the passes still to render from `current` samples done, when the next pass may
/// render up to `increase` samples.
pub open spec fn remaining_batches(spp: int, current: int, increase: int) -> Seq<int>
    decreases spp - current,
{
    if current >= spp || increase <= 0 {
        seq![]
    } else {
        let batch = if increase <= spp - current {
            increase
        } else {
            spp - current
        };
        let next = current + batch;
        let next_increase = if next <= MAX_BATCH_SPP {
            next
        } else {
            MAX_BATCH_SPP as int
        };
        seq![batch] + remaining_batches(spp, next, next_increase)
    }
}

pub open spec fn seq_sum(s: Seq<int>) -> int
    decreases s.len(),
{
    if s.len() == 0 {
        0
    } else {
        s[0] + seq_sum(s.drop_first())
    }
}

impl SppSchedule {
    /// The schedule before the first pass.
    pub fn new(spp: usize) -> (s: Self)
        ensures
            s.spp == spp,
            s.current_spp == 0,
            s.increase == 1,
    {
        SppSchedule { spp, current_spp: 0, increase: 1 }
    }

    /// The schedule is consistent: no more samples than requested have been rendered and
    /// the next pass size follows from what has been rendered.
    pub open spec fn wf(&self) -> bool {
        &&& self.current_spp <= self.spp
        &&& self.current_spp == 0 ==> self.increase == 1
        &&& self.current_spp > 0 ==> self.increase == (if self.current_spp <= MAX_BATCH_SPP {
            self.current_spp
        } else {
            MAX_BATCH_SPP
        })
    }

    /// Passes still to render.
    pub open spec fn batches(&self) -> Seq<int> {
        remaining_batches(self.spp as int, self.current_spp as int, self.increase as int)
    }

    /// Size of the next pass and the schedule after it, or `None` when the render is done.
    pub fn next_batch(&mut self) -> (batch: Option<usize>)
        requires
            old(self).wf(),
        ensures
            final(self).wf(),
            final(self).spp == old(self).spp,
            old(self).batches().len() == 0 ==> batch is None && *final(self) == *old(self),
            old(self).batches().len() > 0 ==> batch == Some(old(self).batches()[0] as usize)
                && final(self).current_spp == old(self).current_spp + old(self).batches()[0]
                && final(self).batches() == old(self).batches().drop_first(),
    {
        if self.current_spp >= self.spp {
            return None;
        }
        let rest = self.spp - self.current_spp;
        let batch = if self.increase <= rest {
            self.increase
        } else {
            rest
        };
        self.current_spp = self.current_spp + batch;
        self.increase = if self.current_spp <= MAX_BATCH_SPP {
            self.current_spp
        } else {
            MAX_BATCH_SPP
        };
        Some(batch)
    }
}

/// The passes of a render add up to the requested samples per pixel, and each renders
/// between one and `MAX_BATCH_SPP` samples.
pub proof fn lemma_schedule_total(spp: int, current: int, increase: int)
    requires
        0 <= current <= spp,
        1 <= increase <= MAX_BATCH_SPP,
    ensures
        seq_sum(remaining_batches(spp, current, increase)) == spp - current,
        forall|k: int|
            0 <= k < remaining_batches(spp, current, increase).len() ==> 1
                <= #[trigger] remaining_batches(spp, current, increase)[k] <= MAX_BATCH_SPP,
    decreases spp - current,
{
    if current < spp {
        let batch = if increase <= spp - current {
            increase
        } else {
            spp - current
        };
        let next = current + batch;
        let next_increase = if next <= MAX_BATCH_SPP {
            next
        } else {
            MAX_BATCH_SPP as int
        };
        lemma_schedule_total(spp, next, next_increase);
        let s = remaining_batches(spp, current, increase);
        assert(s.drop_first() =~= remaining_batches(spp, next, next_increase));
        assert forall|k: int| 0 <= k < s.len() implies 1 <= #[trigger] s[k] <= MAX_BATCH_SPP by {
            if k > 0 {
                assert(s[k] == s.drop_first()[k - 1]);
            }
        }
    }
}

/// What the interactive preview shows. The two test views exist only in a build with
/// debug assertions; a release build has only `Integrator` and `Normal`.
#[derive(Clone, Copy, PartialEq, Eq, Structural)]
pub enum RenderMode {
    Integrator,
    Normal,
    BoundsTest,
    PrimitiveTest,
}

/// The mode the Tab key switches to. With the test views (a debug build) Tab goes through
/// all four modes in turn; without them (a release build) it toggles between `Integrator`
/// and `Normal`.
pub open spec fn next_mode_spec(m: RenderMode, test_views: bool) -> RenderMode {
    if test_views {
        match m {
            RenderMode::Integrator => RenderMode::Normal,
            RenderMode::Normal => RenderMode::BoundsTest,
            RenderMode::BoundsTest => RenderMode::PrimitiveTest,
            RenderMode::PrimitiveTest => RenderMode::Integrator,
        }
    } else {
        match m {
            RenderMode::Integrator => RenderMode::Normal,
            _ => RenderMode::Integrator,
        }
    }
}

impl RenderMode {
    /// The mode the Tab key switches to; `test_views` tells whether the build has the two
    /// test views (debug assertions on).
    pub fn next_render_mode(self, test_views: bool) -> (m: RenderMode)
        ensures
            m == next_mode_spec(self, test_views),
    {
        if test_views {
            match self {
                RenderMode::Integrator => RenderMode::Normal,
                RenderMode::Normal => RenderMode::BoundsTest,
                RenderMode::BoundsTest => RenderMode::PrimitiveTest,
                RenderMode::PrimitiveTest => RenderMode::Integrator,
            }
        } else {
            match self {
                RenderMode::Integrator => RenderMode::Normal,
                _ => RenderMode::Integrator,
            }
        }
    }

    /// Samples per pixel rendered each preview frame.
    pub fn spp_per_frame(self) -> (n: usize)
        ensures
            n == (if self == RenderMode::Integrator {
                4usize
            } else {
                1usize
            }),
    {
        match self {
            RenderMode::Integrator => 4,
            _ => 1,
        }
    }
}

/// With the test views, pressing Tab four times comes back to the mode one started from,
/// passing through every mode on the way; without them, Tab toggles between `Integrator`
/// and `Normal`.
pub proof fn lemma_render_mode_cycle(m: RenderMode)
    ensures
        next_mode_spec(
            next_mode_spec(next_mode_spec(next_mode_spec(m, true), true), true),
            true,
        ) == m,
        m != next_mode_spec(m, true),
        m != next_mode_spec(next_mode_spec(m, true), true),
        m != next_mode_spec(next_mode_spec(next_mode_spec(m, true), true), true),
        (m == RenderMode::Integrator || m == RenderMode::Normal) ==> next_mode_spec(
            next_mode_spec(m, false),
            false,
        ) == m && next_mode_spec(m, false) != m,
        next_mode_spec(m, false) == RenderMode::Integrator || next_mode_spec(m, false)
            == RenderMode::Normal,
{
}

/// What the interactive preview's decisions depend on.
#[derive(Clone, Copy, PartialEq, Eq, Structural)]
pub struct PreviewState {
    /// What the preview shows.
    pub render_mode: RenderMode,
    /// Samples per pixel accumulated on the film; zero means the film is cleared before
    /// the next frame.
    pub current_spp: usize,
    /// Whether the mouse is grabbed, so that it turns the camera and the keys move it.
    pub grabbed: bool,
    /// Whether the preview was left with Enter, asking for the offline render.
    pub enter_pressed: bool,
    /// Whether the build has the bounds-test and primitive-test views (debug assertions
    /// on); it never changes.
    pub test_views: bool,
}

/// What happened to the preview window.
#[derive(Clone, Copy, PartialEq, Eq, Structural)]
pub enum PreviewEvent {
    /// The window was asked to close.
    CloseRequested,
    /// The window lost the keyboard focus.
    FocusLost,
    /// A key was released.
    KeyReleased(PreviewKey),
    /// The mouse wheel turned.
    MouseWheel,
    /// The mouse moved; `still` when it moved by zero in both directions.
    MouseMotion { still: bool },
    /// A new frame is about to be drawn, with these movement keys held down.
    FrameStart(MovementKeys),
    /// A frame was rendered into the film.
    FrameRendered,
}

/// What the window side has to do after an event.
#[derive(Clone, Copy, PartialEq, Eq, Structural, Debug)]
pub enum PreviewCommand {
    /// Close the window and leave the preview.
    Exit,
    /// Forget which keys are held down.
    ReleaseAllKeys,
    /// Raise the target frame rate by one.
    IncreaseFps,
    /// Lower the target frame rate by one, not below one.
    DecreaseFps,
    /// Grab the mouse cursor (`true`) or release it (`false`).
    SetGrab(bool),
    /// Zoom the camera by the wheel's turn.
    Zoom,
    /// Turn the camera by the mouse's motion.
    Turn,
    /// Move the camera along `movement_directions` of the held keys.
    Move,
    /// Nothing to do.
    Nothing,
}

/// The preview's reaction to an event: its next state and what the window side does.
pub open spec fn preview_step_spec(s: PreviewState, e: PreviewEvent) -> (PreviewState, PreviewCommand) {
    let reset = PreviewState { current_spp: 0, ..s };
    match e {
        PreviewEvent::CloseRequested => (s, PreviewCommand::Exit),
        PreviewEvent::FocusLost => (s, PreviewCommand::ReleaseAllKeys),
        PreviewEvent::KeyReleased(key) => match key {
            PreviewKey::Escape => (s, PreviewCommand::Exit),
            PreviewKey::Enter => (PreviewState { enter_pressed: true, ..s }, PreviewCommand::Exit),
            PreviewKey::Tab => (
                PreviewState { render_mode: next_mode_spec(s.render_mode, s.test_views), current_spp: 0, ..s },
                PreviewCommand::Nothing,
            ),
            PreviewKey::Equal => (s, PreviewCommand::IncreaseFps),
            PreviewKey::Minus => (s, PreviewCommand::DecreaseFps),
            PreviewKey::CapsLock => (
                PreviewState { grabbed: !s.grabbed, ..s },
                PreviewCommand::SetGrab(!s.grabbed),
            ),
            PreviewKey::Other => (s, PreviewCommand::Nothing),
        },
        PreviewEvent::MouseWheel => if s.grabbed {
            (reset, PreviewCommand::Zoom)
        } else {
            (s, PreviewCommand::Nothing)
        },
        PreviewEvent::MouseMotion { still } => if s.grabbed && !still {
            (reset, PreviewCommand::Turn)
        } else {
            (s, PreviewCommand::Nothing)
        },
        PreviewEvent::FrameStart(keys) => if s.grabbed && movement_spec(keys).len() > 0 {
            (reset, PreviewCommand::Move)
        } else {
            (s, PreviewCommand::Nothing)
        },
        PreviewEvent::FrameRendered => (
            PreviewState {
                current_spp: (s.current_spp + (if s.render_mode == RenderMode::Integrator {
                    4int
                } else {
                    1int
                })) as usize,
                ..s
            },
            PreviewCommand::Nothing,
        ),
    }
}

/// CapsLock flips the mouse grab and tells the window side the new grab, leaving the rest
/// of the state alone; pressing it twice restores the state.
pub proof fn lemma_capslock_toggles_grab(s: PreviewState)
    ensures
        ({
            let (t, c) = preview_step_spec(s, PreviewEvent::KeyReleased(PreviewKey::CapsLock));
            &&& t.grabbed == !s.grabbed
            &&& c == PreviewCommand::SetGrab(!s.grabbed)
            &&& t.render_mode == s.render_mode
            &&& t.current_spp == s.current_spp
            &&& t.enter_pressed == s.enter_pressed
            &&& t.test_views == s.test_views
            &&& preview_step_spec(t, PreviewEvent::KeyReleased(PreviewKey::CapsLock)).0 == s
        }),
{
}

/// With the mouse grabbed, a frame with any of the six movement keys held moves the camera
/// and restarts accumulation; with none held, or with the mouse free, nothing changes.
pub proof fn lemma_frame_start_moves(s: PreviewState, keys: MovementKeys)
    ensures
        ({
            let (t, c) = preview_step_spec(s, PreviewEvent::FrameStart(keys));
            let held = keys.forward || keys.backward || keys.left || keys.right || keys.up
                || keys.down;
            &&& (s.grabbed && held) ==> c == PreviewCommand::Move && t == PreviewState {
                current_spp: 0,
                ..s
            }
            &&& !(s.grabbed && held) ==> c == PreviewCommand::Nothing && t == s
        }),
{
}

/// What each key and window event does: Escape and closing the window leave without
/// rendering, Enter leaves and asks for the render, Tab moves to the next mode and restarts
/// accumulation, `=` and `-` change the frame rate, losing the focus forgets the held keys,
/// and other keys do nothing; none of these touches the rest of the state.
pub proof fn lemma_preview_keys(s: PreviewState)
    ensures
        preview_step_spec(s, PreviewEvent::KeyReleased(PreviewKey::Escape)) == (
            s,
            PreviewCommand::Exit,
        ),
        preview_step_spec(s, PreviewEvent::CloseRequested) == (s, PreviewCommand::Exit),
        preview_step_spec(s, PreviewEvent::KeyReleased(PreviewKey::Enter)) == (
            PreviewState { enter_pressed: true, ..s },
            PreviewCommand::Exit,
        ),
        preview_step_spec(s, PreviewEvent::KeyReleased(PreviewKey::Tab)) == (
            PreviewState {
                render_mode: next_mode_spec(s.render_mode, s.test_views),
                current_spp: 0,
                ..s
            },
            PreviewCommand::Nothing,
        ),
        preview_step_spec(s, PreviewEvent::KeyReleased(PreviewKey::Equal)) == (
            s,
            PreviewCommand::IncreaseFps,
        ),
        preview_step_spec(s, PreviewEvent::KeyReleased(PreviewKey::Minus)) == (
            s,
            PreviewCommand::DecreaseFps,
        ),
        preview_step_spec(s, PreviewEvent::KeyReleased(PreviewKey::Other)) == (
            s,
            PreviewCommand::Nothing,
        ),
        preview_step_spec(s, PreviewEvent::FocusLost) == (s, PreviewCommand::ReleaseAllKeys),
{
}

/// The mouse wheel zooms and the mouse turns the camera only while the mouse is grabbed,
/// the motion only when the mouse really moved; either restarts accumulation.
pub proof fn lemma_preview_mouse(s: PreviewState, still: bool)
    ensures
        preview_step_spec(s, PreviewEvent::MouseWheel) == (if s.grabbed {
            (PreviewState { current_spp: 0, ..s }, PreviewCommand::Zoom)
        } else {
            (s, PreviewCommand::Nothing)
        }),
        preview_step_spec(s, PreviewEvent::MouseMotion { still }) == (if s.grabbed && !still {
            (PreviewState { current_spp: 0, ..s }, PreviewCommand::Turn)
        } else {
            (s, PreviewCommand::Nothing)
        }),
{
}

/// Across every event: whether the build has test views never changes; the samples
/// accumulated grow by the frame's samples (four in the integrator view, one in the
/// others) after a rendered frame and otherwise either stay or restart from zero; only Tab
/// changes the view, only CapsLock the grab and only Enter the render request; the
/// preview is left exactly on closing, Escape or Enter; and the camera is moved, turned or
/// zoomed only while the mouse is grabbed, restarting accumulation.
pub proof fn lemma_preview_step_invariants(s: PreviewState, e: PreviewEvent)
    requires
        e == PreviewEvent::FrameRendered ==> s.current_spp + 4 <= usize::MAX,
    ensures
        ({
            let (t, c) = preview_step_spec(s, e);
            &&& t.test_views == s.test_views
            &&& e == PreviewEvent::FrameRendered ==> t.current_spp == s.current_spp + (if s.render_mode
                == RenderMode::Integrator {
                4int
            } else {
                1int
            }) && c == PreviewCommand::Nothing
            &&& e != PreviewEvent::FrameRendered ==> t.current_spp == s.current_spp
                || t.current_spp == 0
            &&& t.render_mode != s.render_mode ==> e == PreviewEvent::KeyReleased(PreviewKey::Tab)
            &&& t.grabbed != s.grabbed ==> e == PreviewEvent::KeyReleased(PreviewKey::CapsLock)
            &&& t.enter_pressed != s.enter_pressed ==> e == PreviewEvent::KeyReleased(
                PreviewKey::Enter,
            )
            &&& c == PreviewCommand::Exit <==> (e == PreviewEvent::CloseRequested || e
                == PreviewEvent::KeyReleased(PreviewKey::Escape) || e == PreviewEvent::KeyReleased(
                PreviewKey::Enter,
            ))
            &&& (c == PreviewCommand::Zoom || c == PreviewCommand::Turn || c
                == PreviewCommand::Move) ==> s.grabbed && t.current_spp == 0
        }),
{
}

/// Decides the preview's reaction to an event; the window side performs the command and
/// reports the next event.
pub fn preview_step(s: PreviewState, e: PreviewEvent) -> (r: (PreviewState, PreviewCommand))
    requires
        e == PreviewEvent::FrameRendered ==> s.current_spp + 4 <= usize::MAX,
    ensures
        r == preview_step_spec(s, e),
{
    match e {
        PreviewEvent::CloseRequested => (s, PreviewCommand::Exit),
        PreviewEvent::FocusLost => (s, PreviewCommand::ReleaseAllKeys),
        PreviewEvent::KeyReleased(key) => match on_key_released(key) {
            PreviewAction::Exit => (s, PreviewCommand::Exit),
            PreviewAction::ExitAndRender => (
                PreviewState { enter_pressed: true, ..s },
                PreviewCommand::Exit,
            ),
            PreviewAction::NextRenderMode => (
                PreviewState {
                    render_mode: s.render_mode.next_render_mode(s.test_views),
                    current_spp: 0,
                    ..s
                },
                PreviewCommand::Nothing,
            ),
            PreviewAction::IncreaseFps => (s, PreviewCommand::IncreaseFps),
            PreviewAction::DecreaseFps => (s, PreviewCommand::DecreaseFps),
            PreviewAction::ToggleGrab => (
                PreviewState { grabbed: !s.grabbed, ..s },
                PreviewCommand::SetGrab(!s.grabbed),
            ),
            PreviewAction::Nothing => (s, PreviewCommand::Nothing),
        },
        PreviewEvent::MouseWheel => if s.grabbed {
            (PreviewState { current_spp: 0, ..s }, PreviewCommand::Zoom)
        } else {
            (s, PreviewCommand::Nothing)
        },
        PreviewEvent::MouseMotion { still } => if s.grabbed && !still {
            (PreviewState { current_spp: 0, ..s }, PreviewCommand::Turn)
        } else {
            (s, PreviewCommand::Nothing)
        },
        PreviewEvent::FrameStart(keys) => {
            let moves = keys.forward || keys.backward || keys.left || keys.right || keys.up
                || keys.down;
            proof {
                assert(moves == (movement_spec(keys).len() > 0));
            }
            if s.grabbed && moves {
                (PreviewState { current_spp: 0, ..s }, PreviewCommand::Move)
            } else {
                (s, PreviewCommand::Nothing)
            }
        },
        PreviewEvent::FrameRendered => (
            PreviewState { current_spp: s.current_spp + s.render_mode.spp_per_frame(), ..s },
            PreviewCommand::Nothing,
        ),
    }
}

/// The first pass renders one sample or the whole request if that is smaller; each later
/// pass renders as many samples as are done, but at most `MAX_BATCH_SPP` and never more
/// than remain.
pub proof fn lemma_batches_double(spp: int, current: int, increase: int)
    requires
        0 <= current < spp,
        1 <= increase <= MAX_BATCH_SPP,
    ensures
        ({
            let s = remaining_batches(spp, current, increase);
            let first = if increase <= spp - current {
                increase
            } else {
                spp - current
            };
            let done = current + first;
            let cap = if done <= MAX_BATCH_SPP {
                done
            } else {
                MAX_BATCH_SPP as int
            };
            &&& s.len() >= 1
            &&& s[0] == first
            &&& done < spp ==> s.len() >= 2 && s[1] == (if cap <= spp - done {
                cap
            } else {
                spp - done
            })
            &&& done >= spp ==> s.len() == 1
        }),
{
    let first = if increase <= spp - current {
        increase
    } else {
        spp - current
    };
    let done = current + first;
    let cap = if done <= MAX_BATCH_SPP {
        done
    } else {
        MAX_BATCH_SPP as int
    };
    assert(remaining_batches(spp, current, increase) == seq![first] + remaining_batches(
        spp,
        done,
        cap,
    ));
    if done < spp {
        assert(remaining_batches(spp, done, cap) == seq![
            if cap <= spp - done { cap } else { spp - done }
        ] + remaining_batches(
            spp,
            done + (if cap <= spp - done { cap } else { spp - done }),
            if done + (if cap <= spp - done { cap } else { spp - done }) <= MAX_BATCH_SPP {
                done + (if cap <= spp - done { cap } else { spp - done })
            } else {
                MAX_BATCH_SPP as int
            },
        ));
    } else {
        assert(remaining_batches(spp, done, cap) == Seq::<int>::empty());
    }
}

/// Seed of the random sequence of sample `sample_index` of pixel `(x, y)`.
pub fn pixel_sample_seed(x: usize, y: usize, sample_index: usize) -> (seed: u64)
    requires
        (x + 1) * (y + 1) <= usize::MAX,
        (x + 1) * (y + 1) * sample_index <= usize::MAX,
    ensures
        seed == ((x + 1) * (y + 1) * sample_index) as u64,
{
    proof {
        assert(x + 1 <= (x + 1) * (y + 1) && y + 1 <= (x + 1) * (y + 1)) by (nonlinear_arith)
            requires
                x >= 0,
                y >= 0,
        ;
    }
    ((x + 1) * (y + 1) * sample_index) as u64
}

/// Shows the surface normal of the first hit as a colour.
pub struct NormalIntegrator;

/// Shows, as a heat map, how many bounding boxes the camera ray was tested against.
pub struct BoundsTestIntegrator;

/// Shows, as a heat map, how many primitives the camera ray was tested against.
pub struct PrimitiveTestIntegrator;

/// Spectral path tracer with next-event estimation and multiple importance sampling.
pub struct PathTracingIntegrator<'a, S, L> {
    light_sampler: &'a LightSampler<'a, S, L>,
}

impl<'a, S, L> PathTracingIntegrator<'a, S, L> {
    pub closed spec fn spec_light_sampler(&self) -> &'a LightSampler<'a, S, L> {
        self.light_sampler
    }

    pub fn new(light_sampler: &'a LightSampler<'a, S, L>) -> (i: Self)
        ensures
            i.spec_light_sampler() == light_sampler,
    {
        Self { light_sampler }
    }

    pub fn light_sampler(&self) -> (l: &'a LightSampler<'a, S, L>)
        ensures
            l == self.spec_light_sampler(),
    {
        self.light_sampler
    }
}

/// Spectral path tracer that adds light-sampled and emitted radiance without weighting;
/// it needs light sampling without compensation.
pub struct SimplePathTracingIntegrator<'a, S, L> {
    light_sampler: &'a LightSampler<'a, S, L>,
}

impl<'a, S, L> SimplePathTracingIntegrator<'a, S, L> {
    pub closed spec fn spec_light_sampler(&self) -> &'a LightSampler<'a, S, L> {
        self.light_sampler
    }

    pub fn new(light_sampler: &'a LightSampler<'a, S, L>) -> (i: Self)
        requires
            light_sampler.spec_mis_compensation() == MisCompensation::Disabled,
        ensures
            i.spec_light_sampler() == light_sampler,
    {
        Self { light_sampler }
    }

    pub fn light_sampler(&self) -> (l: &'a LightSampler<'a, S, L>)
        ensures
            l == self.spec_light_sampler(),
    {
        self.light_sampler
    }
}

} // verus!
