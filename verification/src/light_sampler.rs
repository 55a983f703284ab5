use vstd::prelude::*;

verus! {

/// Whether light sampling leaves out the part of the infinite lights that the BSDF samples
/// well enough (multiple-importance-sampling compensation).
#[derive(Clone, Copy, PartialEq, Eq, Structural)]
pub enum MisCompensation {
    Disabled,
    Enabled,
}

/// Position of a light in the scene's light list.
#[derive(Clone, Copy, PartialEq, Eq, Structural, Debug)]
pub struct LightId(pub usize);

/// What light selection needs to know of a light.
#[derive(Clone, Copy, PartialEq, Eq, Structural)]
pub enum LightKind {
    Area,
    Infinite { skip_mis_compensation: bool },
}

/// Whether the uniform selector may pick a light of this kind.
pub open spec fn selectable(kind: LightKind, mis_compensation: MisCompensation) -> bool {
    match kind {
        LightKind::Area => true,
        LightKind::Infinite { skip_mis_compensation } => match mis_compensation {
            MisCompensation::Disabled => true,
            MisCompensation::Enabled => !skip_mis_compensation,
        },
    }
}

/// Area lights can always be picked; an infinite light can be picked unless compensation
/// is on and the light skips it.
pub proof fn lemma_selectable(skip: bool, mis_compensation: MisCompensation)
    ensures
        selectable(LightKind::Area, mis_compensation),
        selectable(LightKind::Infinite { skip_mis_compensation: skip }, MisCompensation::Disabled),
        selectable(LightKind::Infinite { skip_mis_compensation: skip }, MisCompensation::Enabled)
            == !skip,
{
}

/// Picks one of the selectable lights, each with the same probability.
pub struct UniformLightSelector {
    light_count: usize,
    active_lights: Vec<LightId>,
}

impl UniformLightSelector {
    pub closed spec fn spec_active_lights(&self) -> Seq<LightId> {
        self.active_lights@
    }

    pub closed spec fn spec_light_count(&self) -> usize {
        self.light_count
    }

    /// The active lights are listed once each, in increasing order, and counted.
    pub open spec fn wf(&self) -> bool {
        &&& self.spec_light_count() == self.spec_active_lights().len()
        &&& forall|i: int, j: int|
            0 <= i < j < self.spec_active_lights().len() ==> (
            #[trigger] self.spec_active_lights()[i]).0 < (#[trigger] self.spec_active_lights()[j]).0
    }

    /// Collects the lights (identified by their position in `lights`) that may be picked
    /// under `mis_compensation`.
    pub fn new(lights: &Vec<LightKind>, mis_compensation: MisCompensation) -> (s: Self)
        ensures
            s.wf(),
            forall|id: usize|
                #![trigger s.spec_active_lights().contains(LightId(id))]
                s.spec_active_lights().contains(LightId(id)) <==> id < lights@.len() && selectable(
                    lights@[id as int],
                    mis_compensation,
                ),
    {
        let mut active_lights: Vec<LightId> = Vec::new();
        let mut i: usize = 0;
        while i < lights.len()
            invariant
                i <= lights@.len(),
                forall|a: int, b: int|
                    0 <= a < b < active_lights@.len() ==> (#[trigger] active_lights@[a]).0 < (
                    #[trigger] active_lights@[b]).0,
                forall|a: int| 0 <= a < active_lights@.len() ==> (#[trigger] active_lights@[a]).0 < i,
                forall|id: usize|
                    #![trigger active_lights@.contains(LightId(id))]
                    active_lights@.contains(LightId(id)) <==> id < i && selectable(
                        lights@[id as int],
                        mis_compensation,
                    ),
            decreases lights@.len() - i,
        {
            let keep = match lights[i] {
                LightKind::Area => true,
                LightKind::Infinite { skip_mis_compensation } => match mis_compensation {
                    MisCompensation::Disabled => true,
                    MisCompensation::Enabled => !skip_mis_compensation,
                },
            };
            let ghost prev = active_lights@;
            assert(keep == selectable(lights@[i as int], mis_compensation));
            if keep {
                active_lights.push(LightId(i));
            }
            proof {
                assert forall|id: usize|
                    #![trigger active_lights@.contains(LightId(id))]
                    id < i + 1 && selectable(lights@[id as int], mis_compensation) implies active_lights@.contains(
                        LightId(id),
                    ) by {
                    if id < i {
                        assert(prev.contains(LightId(id)));
                        let k = choose|k: int| 0 <= k < prev.len() && prev[k] == LightId(id);
                        assert(active_lights@[k] == LightId(id));
                    } else if id == i {
                        assert(active_lights@[active_lights@.len() - 1] == LightId(id));
                    }
                }
                assert forall|id: usize|
                    #![trigger active_lights@.contains(LightId(id))]
                    active_lights@.contains(LightId(id)) implies id < i + 1 && selectable(
                        lights@[id as int],
                        mis_compensation,
                    ) by {
                    {
                        let k = choose|k: int|
                            0 <= k < active_lights@.len() && active_lights@[k] == LightId(id);
                        if k < prev.len() {
                            assert(prev[k] == LightId(id));
                            assert(prev.contains(LightId(id)));
                        }
                    }
                }
            }
            i = i + 1;
        }
        UniformLightSelector { light_count: active_lights.len(), active_lights }
    }

    /// Number of lights that can be picked.
    pub fn light_count(&self) -> (n: usize)
        ensures
            n == self.spec_light_count(),
    {
        self.light_count
    }

    /// The light picked by a uniform draw `index` in `0..light_count()`, or `None` when
    /// there is no light to pick.
    pub fn sample_light_source(&self, index: usize) -> (r: Option<LightId>)
        requires
            self.wf(),
            self.spec_light_count() > 0 ==> index < self.spec_light_count(),
        ensures
            self.spec_light_count() == 0 ==> r is None,
            self.spec_light_count() > 0 ==> r == Some(self.spec_active_lights()[index as int]),
            r matches Some(id) ==> self.spec_active_lights().contains(id),
    {
        if self.light_count == 0 {
            return None;
        }
        Some(self.active_lights[index])
    }

    /// Whether `light_id` can be picked (binary search over the sorted active lights).
    pub fn is_active(&self, light_id: LightId) -> (r: bool)
        requires
            self.wf(),
        ensures
            r == self.spec_active_lights().contains(light_id),
    {
        let mut lo: usize = 0;
        let mut hi: usize = self.active_lights.len();
        while lo < hi
            invariant
                self.wf(),
                hi <= self.spec_active_lights().len(),
                lo <= hi,
                forall|k: int| 0 <= k < lo ==> (#[trigger] self.spec_active_lights()[k]).0
                    < light_id.0,
                forall|k: int|
                    hi <= k < self.spec_active_lights().len() ==> (
                    #[trigger] self.spec_active_lights()[k]).0 > light_id.0,
            decreases hi - lo,
        {
            let mid = lo + (hi - lo) / 2;
            let v = self.active_lights[mid].0;
            if v == light_id.0 {
                assert(self.spec_active_lights()[mid as int] == light_id);
                return true;
            } else if v < light_id.0 {
                proof {
                    assert forall|k: int| 0 <= k < mid + 1 implies (
                    #[trigger] self.spec_active_lights()[k]).0 < light_id.0 by {
                        if k < mid {
                            assert(self.spec_active_lights()[k].0 < self.spec_active_lights()[mid as int].0);
                        }
                    }
                }
                lo = mid + 1;
            } else {
                proof {
                    assert forall|k: int|
                        mid <= k < self.spec_active_lights().len() implies (
                        #[trigger] self.spec_active_lights()[k]).0 > light_id.0 by {
                        if k > mid {
                            assert(self.spec_active_lights()[mid as int].0 < self.spec_active_lights()[k].0);
                        }
                    }
                }
                hi = mid;
            }
        }
        proof {
            if self.spec_active_lights().contains(light_id) {
                let k = choose|k: int|
                    0 <= k < self.spec_active_lights().len() && self.spec_active_lights()[k]
                        == light_id;
                assert(self.spec_active_lights()[k].0 == light_id.0);
            }
        }
        false
    }
}

/// Builds a light selector of kind `Self` for a scene of type `S`.
pub trait LightSelector<S>: Sized {
    fn new(scene: &S, mis_compensation: MisCompensation) -> Self;
}

impl LightSelector<Vec<LightKind>> for UniformLightSelector {
    /// The uniform selector over the lights of a scene described by their kinds.
    fn new(scene: &Vec<LightKind>, mis_compensation: MisCompensation) -> (s: Self)
        ensures
            s.wf(),
            forall|id: usize|
                #![trigger s.spec_active_lights().contains(LightId(id))]
                s.spec_active_lights().contains(LightId(id)) <==> id < scene@.len() && selectable(
                    scene@[id as int],
                    mis_compensation,
                ),
    {
        UniformLightSelector::new(scene, mis_compensation)
    }
}

/// Samples lights of a scene: picks one with the light selector, then samples a point on it.
pub struct LightSampler<'a, S, L> {
    scene: &'a S,
    light_selector: L,
    mis_compensation: MisCompensation,
}

impl<'a, S, L> LightSampler<'a, S, L> {
    pub closed spec fn spec_mis_compensation(&self) -> MisCompensation {
        self.mis_compensation
    }

    pub closed spec fn spec_scene(&self) -> &'a S {
        self.scene
    }

    pub fn mis_compensation(&self) -> (m: MisCompensation)
        ensures
            m == self.spec_mis_compensation(),
    {
        self.mis_compensation
    }

    /// The scene whose lights are sampled.
    pub fn scene(&self) -> (s: &'a S)
        ensures
            s == self.spec_scene(),
    {
        self.scene
    }

    pub closed spec fn spec_light_selector(&self) -> L {
        self.light_selector
    }

    /// The light selector.
    pub fn light_selector(&self) -> (l: &L)
        ensures
            *l == self.spec_light_selector(),
    {
        &self.light_selector
    }
}

impl<'a, S, L: LightSelector<S>> LightSampler<'a, S, L> {
    pub fn new(scene: &'a S, mis_compensation: MisCompensation) -> (s: Self)
        ensures
            s.spec_mis_compensation() == mis_compensation,
            s.spec_scene() == scene,
            call_ensures(L::new, (scene, mis_compensation), s.spec_light_selector()),
    {
        LightSampler { scene, light_selector: L::new(scene, mis_compensation), mis_compensation }
    }
}

} // verus!
