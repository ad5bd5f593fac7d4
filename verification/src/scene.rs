//! Scene baking: resolving the model names a scene refers to, and laying
//! instances out in shared world-space buffers. Each instance records its
//! slice of the segment and occluder-index buffers, so rendering can
//! frustum-cull by drawing only the visible slices.
//!
//! Transforms, tints and the RON text itself are handled by the caller; this
//! module decides which model each instance uses and where its geometry
//! lands.

use vstd::prelude::*;
use core::ops::Range;
use crate::mesh::offset_indices;

verus! {

/// The model a scene hands the player as a weapon.
pub struct WeaponDef {
    pub model: String,
}

/// A scene that refers to a model it does not define.
#[derive(Debug)]
pub enum SceneError {
    /// An instance names an unknown model.
    UnknownInstanceModel(String),
    /// The weapon names an unknown model.
    UnknownWeaponModel(String),
}

/// `i` is the first position of `name` in `names`.
pub open spec fn first_index_of(names: Seq<Seq<char>>, name: Seq<char>, i: int) -> bool {
    &&& 0 <= i < names.len()
    &&& names[i] == name
    &&& forall|j: int| 0 <= j < i ==> names[j] != name
}

pub open spec fn names_view(names: Seq<String>) -> Seq<Seq<char>> {
    names.map_values(|s: String| s@)
}

/// Position of the model called `name` among the scene's model names.
pub fn model_index(names: &Vec<String>, name: &String) -> (r: Option<usize>)
    ensures
        r matches Some(i) ==> first_index_of(names_view(names@), name@, i as int),
        r is None <==> !names_view(names@).contains(name@),
{
    let n = names.len();
    let mut i: usize = 0;
    while i < n
        invariant
            n == names@.len(),
            i <= n,
            forall|j: int| 0 <= j < i ==> names@[j]@ != name@,
        decreases n - i,
    {
        if names[i] == *name {
            assert(names_view(names@)[i as int] == name@);
            return Some(i);
        }
        i += 1;
    }
    proof {
        if names_view(names@).contains(name@) {
            let w = choose|w: int| 0 <= w < names@.len() && names_view(names@)[w] == name@;
            assert(names@[w]@ == name@);
        }
    }
    None
}

/// Which model each instance and the weapon use, by position among the
/// scene's model names.
pub struct ScenePlan {
    pub instance_models: Vec<usize>,
    pub weapon_model: Option<usize>,
}

/// Every instance name is a model name.
pub open spec fn all_known(names: Seq<Seq<char>>, wanted: Seq<Seq<char>>) -> bool {
    forall|k: int| 0 <= k < wanted.len() ==> names.contains(#[trigger] wanted[k])
}

/// Resolve the model of every instance (in order) and of the weapon.
/// The first instance naming an unknown model is reported; the weapon is
/// checked only once all instances resolve.
pub fn plan_scene(names: &Vec<String>, instances: &Vec<String>, weapon: &Option<WeaponDef>) -> (r: Result<
    ScenePlan,
    SceneError,
>)
    ensures
        r matches Ok(plan) ==> {
            &&& all_known(names_view(names@), names_view(instances@))
            &&& plan.instance_models@.len() == instances@.len()
            &&& forall|k: int| 0 <= k < instances@.len() ==> first_index_of(
                names_view(names@),
                instances@[k]@,
                #[trigger] plan.instance_models@[k] as int,
            )
            &&& match weapon {
                None => plan.weapon_model is None,
                Some(w) => plan.weapon_model matches Some(i) && first_index_of(names_view(names@), w.model@, i as int),
            }
        },
        r matches Err(SceneError::UnknownInstanceModel(name)) ==> exists|k: int|
            0 <= k < instances@.len() && #[trigger] instances@[k]@ == name@ && !names_view(names@).contains(name@)
                && all_known(names_view(names@), names_view(instances@).subrange(0, k)),
        r matches Err(SceneError::UnknownWeaponModel(name)) ==> {
            &&& all_known(names_view(names@), names_view(instances@))
            &&& weapon matches Some(w) && w.model@ == name@
            &&& !names_view(names@).contains(name@)
        },
        r is Ok <==> (all_known(names_view(names@), names_view(instances@)) && match weapon {
            None => true,
            Some(w) => names_view(names@).contains(w.model@),
        }),
{
    let n = instances.len();
    let mut instance_models: Vec<usize> = Vec::new();
    let mut k: usize = 0;
    while k < n
        invariant
            n == instances@.len(),
            k <= n,
            instance_models@.len() == k,
            all_known(names_view(names@), names_view(instances@).subrange(0, k as int)),
            forall|j: int| 0 <= j < k ==> first_index_of(
                names_view(names@),
                instances@[j]@,
                #[trigger] instance_models@[j] as int,
            ),
        decreases n - k,
    {
        match model_index(names, &instances[k]) {
            Some(i) => {
                instance_models.push(i);
                proof {
                    let pre = names_view(instances@).subrange(0, k as int);
                    let post = names_view(instances@).subrange(0, k + 1);
                    assert forall|j: int| 0 <= j < post.len() implies names_view(names@).contains(#[trigger] post[j]) by {
                        if j < k {
                            assert(post[j] == pre[j]);
                        } else {
                            assert(names_view(names@)[i as int] == post[j]);
                        }
                    }
                    assert forall|j: int| 0 <= j < k + 1 implies first_index_of(
                        names_view(names@),
                        instances@[j]@,
                        #[trigger] instance_models@[j] as int,
                    ) by {}
                }
            }
            None => {
                let name = instances[k].clone();
                assert(names_view(instances@)[k as int] == instances@[k as int]@);
                return Err(SceneError::UnknownInstanceModel(name));
            }
        }
        k += 1;
    }
    proof {
        assert(names_view(instances@).subrange(0, n as int) == names_view(instances@));
    }
    let weapon_model = match weapon {
        None => None,
        Some(w) => match model_index(names, &w.model) {
            Some(i) => Some(i),
            None => {
                let name = w.model.clone();
                return Err(SceneError::UnknownWeaponModel(name));
            }
        },
    };
    Ok(ScenePlan { instance_models, weapon_model })
}

/// One placed instance's slices of the shared buffers.
pub struct InstanceSlices {
    pub segments: Range<u32>,
    pub occluder_indices: Range<u32>,
    /// Position of its model among the scene's models.
    pub model: usize,
}

/// Each instance's slice starts where the previous one ends, the first at
/// zero and the last ending at `total`: the slices tile `0..total`.
pub open spec fn tiles(starts: Seq<int>, ends: Seq<int>, total: int) -> bool {
    &&& starts.len() == ends.len()
    &&& forall|k: int| 0 <= k < starts.len() ==> #[trigger] starts[k] <= ends[k]
    &&& starts.len() == 0 ==> total == 0
    &&& starts.len() > 0 ==> starts[0] == 0 && ends[ends.len() - 1] == total
    &&& forall|k: int| 0 <= k < starts.len() - 1 ==> #[trigger] ends[k] == starts[k + 1]
}

proof fn lemma_tiles_within(starts: Seq<int>, ends: Seq<int>, total: int, k: int)
    requires
        tiles(starts, ends, total),
        0 <= k < starts.len(),
    ensures
        0 <= starts[k] <= ends[k] <= total,
    decreases starts.len() - k,
{
    if k + 1 < starts.len() {
        lemma_tiles_within(starts, ends, total, k + 1);
        assert(ends[k] == starts[k + 1]);
    }
    if k > 0 {
        lemma_tiles_from_zero(starts, ends, total, k);
    }
}

proof fn lemma_tiles_from_zero(starts: Seq<int>, ends: Seq<int>, total: int, k: int)
    requires
        tiles(starts, ends, total),
        0 <= k < starts.len(),
    ensures
        0 <= starts[k],
    decreases k,
{
    if k > 0 {
        lemma_tiles_from_zero(starts, ends, total, k - 1);
        assert(ends[k - 1] == starts[k]);
    }
}

/// World-space buffers shared by all instances of a baked scene: segments
/// of type `S`, occluder vertices of type `V`, occluder indices into those
/// vertices, and each instance's slices.
pub struct SceneBuffers<S, V> {
    pub segments: Vec<S>,
    pub vertices: Vec<V>,
    pub indices: Vec<u32>,
    pub instances: Vec<InstanceSlices>,
}

impl<S, V> SceneBuffers<S, V> {
    pub open spec fn segment_starts(&self) -> Seq<int> {
        self.instances@.map_values(|i: InstanceSlices| i.segments.start as int)
    }

    pub open spec fn segment_ends(&self) -> Seq<int> {
        self.instances@.map_values(|i: InstanceSlices| i.segments.end as int)
    }

    pub open spec fn index_starts(&self) -> Seq<int> {
        self.instances@.map_values(|i: InstanceSlices| i.occluder_indices.start as int)
    }

    pub open spec fn index_ends(&self) -> Seq<int> {
        self.instances@.map_values(|i: InstanceSlices| i.occluder_indices.end as int)
    }

    /// The instances' slices tile both buffers, in placement order.
    pub open spec fn wf(&self) -> bool {
        &&& tiles(self.segment_starts(), self.segment_ends(), self.segments@.len() as int)
        &&& tiles(self.index_starts(), self.index_ends(), self.indices@.len() as int)
    }

    /// Every instance's slices lie within the buffers, so drawing an
    /// instance's slice never reads past what was uploaded.
    pub proof fn lemma_slices_within_buffers(&self, k: int)
        requires
            self.wf(),
            0 <= k < self.instances@.len(),
        ensures
            self.instances@[k].segments.start <= self.instances@[k].segments.end <= self.segments@.len(),
            self.instances@[k].occluder_indices.start <= self.instances@[k].occluder_indices.end
                <= self.indices@.len(),
    {
        lemma_tiles_within(self.segment_starts(), self.segment_ends(), self.segments@.len() as int, k);
        lemma_tiles_within(self.index_starts(), self.index_ends(), self.indices@.len() as int, k);
    }

    pub fn new() -> (b: Self)
        ensures
            b.wf(),
            b.segments@.len() == 0,
            b.vertices@.len() == 0,
            b.indices@.len() == 0,
            b.instances@.len() == 0,
    {
        SceneBuffers { segments: Vec::new(), vertices: Vec::new(), indices: Vec::new(), instances: Vec::new() }
    }

    /// Place one instance of model `model`: append its world-space segments
    /// and occluder vertices, append the model's occluder indices moved past
    /// the vertices already placed, and record the instance's slices.
    pub fn push_instance(&mut self, model: usize, segments: Vec<S>, vertices: Vec<V>, model_indices: &Vec<u32>)
        requires
            old(self).wf(),
            old(self).segments@.len() + segments@.len() <= u32::MAX,
            old(self).vertices@.len() + vertices@.len() <= u32::MAX,
            old(self).indices@.len() + model_indices@.len() <= u32::MAX,
            forall|k: int| 0 <= k < model_indices@.len() ==> #[trigger] model_indices@[k] + old(self).vertices@.len()
                <= u32::MAX,
        ensures
            final(self).wf(),
            final(self).segments@ == old(self).segments@ + segments@,
            final(self).vertices@ == old(self).vertices@ + vertices@,
            final(self).indices@ == old(self).indices@ + offset_indices(
                model_indices@,
                old(self).vertices@.len() as int,
            ),
            final(self).instances@.len() == old(self).instances@.len() + 1,
            forall|k: int| 0 <= k < old(self).instances@.len() ==> #[trigger] final(self).instances@[k]
                == old(self).instances@[k],
            ({
                let last = final(self).instances@[old(self).instances@.len() as int];
                &&& last.model == model
                &&& last.segments.start == old(self).segments@.len()
                &&& last.segments.end == final(self).segments@.len()
                &&& last.occluder_indices.start == old(self).indices@.len()
                &&& last.occluder_indices.end == final(self).indices@.len()
            }),
    {
        let segment_start = self.segments.len() as u32;
        let vertex_base = self.vertices.len() as u32;
        let index_start = self.indices.len() as u32;
        let ghost new_segments = segments@;
        let ghost new_vertices = vertices@;
        let mut segments = segments;
        let mut vertices = vertices;
        self.segments.append(&mut segments);
        self.vertices.append(&mut vertices);
        let n = model_indices.len();
        let mut j: usize = 0;
        while j < n
            invariant
                n == model_indices@.len(),
                j <= n,
                vertex_base == old(self).vertices@.len(),
                self.segments@ == old(self).segments@ + new_segments,
                self.vertices@ == old(self).vertices@ + new_vertices,
                self.instances@ == old(self).instances@,
                forall|k: int| 0 <= k < model_indices@.len() ==> #[trigger] model_indices@[k] + vertex_base <= u32::MAX,
                self.indices@ == old(self).indices@ + offset_indices(model_indices@.subrange(0, j as int), vertex_base as int),
            decreases n - j,
        {
            let x = model_indices[j] + vertex_base;
            self.indices.push(x);
            assert(offset_indices(model_indices@.subrange(0, j + 1), vertex_base as int) == offset_indices(
                model_indices@.subrange(0, j as int),
                vertex_base as int,
            ).push(x));
            j += 1;
        }
        assert(model_indices@.subrange(0, n as int) == model_indices@);
        let segment_end = self.segments.len() as u32;
        let index_end = self.indices.len() as u32;
        let slices = InstanceSlices {
            segments: segment_start..segment_end,
            occluder_indices: index_start..index_end,
            model,
        };
        let ghost before = self.instances@;
        self.instances.push(slices);
        proof {
            let (ss, se) = (self.segment_starts(), self.segment_ends());
            let (is, ie) = (self.index_starts(), self.index_ends());
            let (oss, ose) = (old(self).segment_starts(), old(self).segment_ends());
            let (ois, oie) = (old(self).index_starts(), old(self).index_ends());
            assert(ss == oss.push(segment_start as int));
            assert(se == ose.push(segment_end as int));
            assert(is == ois.push(index_start as int));
            assert(ie == oie.push(index_end as int));
        }
    }
}

} // verus!
