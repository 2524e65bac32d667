//! The decisions of the recursive shading of one hit: which secondary rays
//! are cast, with what remaining depth, and how their colors combine. The
//! depth is handed down by value, so every branch of the recursion works
//! with a strictly smaller budget.
use vstd::prelude::*;
use vstd::arithmetic::power::{pow, lemma_pow_positive};
use vstd::arithmetic::power2::pow2;

verus! {

/// The depth budget of a primary ray.
pub const RECURSION_LIMIT: u32 = 5;

/// The remaining depth of the reflected ray cast from a hit shaded with
/// budget `depth`, or `None` where no ray is cast: the budget is spent or the
/// material does not reflect.
pub open spec fn reflection_budget(depth: u32, reflective: bool) -> Option<u32> {
    if depth > 0 && reflective {
        Some((depth - 1) as u32)
    } else {
        None
    }
}

/// The remaining depth of the refracted ray, or `None` where no ray is cast:
/// the budget is spent, the material is opaque, or the light is totally
/// reflected inside the surface.
pub open spec fn refraction_budget(depth: u32, transparent: bool, total_internal: bool) -> Option<u32> {
    if depth > 0 && transparent && !total_internal {
        Some((depth - 1) as u32)
    } else {
        None
    }
}

/// What shading one hit asks for.
#[derive(Clone, Copy, Debug, PartialEq, Eq, Structural)]
pub struct ShadePlan {
    /// The depth of the reflected ray to cast, if one is cast.
    pub reflect: Option<u32>,
    /// The depth of the refracted ray to cast, if one is cast.
    pub refract: Option<u32>,
    /// Whether the two contributions are weighted by the Schlick reflectance
    /// (`reflected * R + refracted * (1 - R)`) rather than simply added.
    pub blend: bool,
}

/// Plans the shading of a hit with remaining depth `depth` on a material
/// that reflects (`reflective`) and lets light through (`transparent`), where
/// `total_internal` tells whether the refracted direction is imaginary.
pub fn plan_shading(depth: u32, reflective: bool, transparent: bool, total_internal: bool) -> (r: ShadePlan)
    ensures
        r.reflect == reflection_budget(depth, reflective),
        r.refract == refraction_budget(depth, transparent, total_internal),
        r.blend == (reflective && transparent),
{
    let reflect = if depth > 0 && reflective {
        Some(depth - 1)
    } else {
        None
    };
    let refract = if depth > 0 && transparent && !total_internal {
        Some(depth - 1)
    } else {
        None
    };
    ShadePlan { reflect, refract, blend: reflective && transparent }
}

/// What a ray finds, as far as the recursion is concerned: whether it hits
/// anything, and the kind of material at the visible hit.
#[derive(Clone, Copy, Debug, PartialEq, Eq, Structural)]
pub struct HitFlags {
    pub hit: bool,
    pub reflective: bool,
    pub transparent: bool,
    pub total_internal: bool,
}

/// How many times the color of a ray is evaluated when a ray reached along
/// `path` (`false` for a reflection, `true` for a refraction) is shaded with
/// budget `depth`, in a scene that `scene` describes for every path.
pub open spec fn evaluations(scene: spec_fn(Seq<bool>) -> HitFlags, path: Seq<bool>, depth: u32) -> nat
    decreases depth,
{
    let f = scene(path);
    if !f.hit {
        1
    } else {
        let reflected: nat = match reflection_budget(depth, f.reflective) {
            Some(d) => evaluations(scene, path.push(false), d),
            None => 0,
        };
        let refracted: nat = match refraction_budget(depth, f.transparent, f.total_internal) {
            Some(d) => evaluations(scene, path.push(true), d),
            None => 0,
        };
        1 + reflected + refracted
    }
}

/// The number of evaluations of a full binary recursion of depth `depth`.
pub open spec fn full_tree(depth: nat) -> nat
    decreases depth,
{
    if depth == 0 {
        1
    } else {
        1 + 2 * full_tree((depth - 1) as nat)
    }
}

/// A full binary recursion of depth `depth` has `2^(depth+1) - 1` nodes.
pub proof fn lemma_full_tree_size(depth: nat)
    ensures
        full_tree(depth) + 1 == pow2(depth + 1),
    decreases depth,
{
    reveal(pow);
    lemma_pow_positive(2, depth);
    lemma_pow_positive(2, depth + 1);
    if depth == 0 {
        assert(pow(2, 1) == 2 * pow(2, 0));
    } else {
        lemma_full_tree_size((depth - 1) as nat);
        assert(pow(2, depth + 1) == 2 * pow(2, depth));
        assert(pow2(depth) == pow(2, depth));
        assert(full_tree(depth) == 1 + 2 * full_tree((depth - 1) as nat));
    }
}

/// The shading recursion ends within the depth budget for every scene, even
/// one of mirrors facing each other: the color of a ray is evaluated at most
/// `2^(depth+1) - 1` times.
pub proof fn lemma_recursion_bounded(scene: spec_fn(Seq<bool>) -> HitFlags, path: Seq<bool>, depth: u32)
    ensures
        evaluations(scene, path, depth) <= full_tree(depth as nat),
        evaluations(scene, path, depth) < pow2(depth as nat + 1),
    decreases depth,
{
    lemma_full_tree_size(depth as nat);
    let f = scene(path);
    if f.hit && depth > 0 {
        let d = (depth - 1) as u32;
        lemma_recursion_bounded(scene, path.push(false), d);
        lemma_recursion_bounded(scene, path.push(true), d);
    }
}

} // verus!
