//! The decisions of specular path enumeration. At each hit the enumeration
//! may record the path, then continue along the reflected and the refracted
//! direction of a dielectric surface, as a filter of interaction modes (used
//! to replay a photon's path) permits. The ray casting and the optics that
//! produce each hit are done by the caller.
use vstd::prelude::*;

verus! {

/// How a specular path continues at a dielectric surface.
#[derive(Copy, Clone, Debug, PartialEq, Eq, Structural)]
pub enum SpecularMode {
    Reflect,
    Refract,
}

/// Most specular interactions a path may have.
pub const MAX_SPECULAR_DEPTH: usize = 4;

/// What to do at one hit.
#[derive(Copy, Clone, Debug, PartialEq, Eq)]
pub struct SpecularStep {
    /// Record the path that ends at this hit.
    pub emit: bool,
    /// Continue along the reflected direction.
    pub reflect: bool,
    /// Continue along the refracted direction.
    pub refract: bool,
}

/// The filter lets the next interaction be `m`: there is no filter, or its
/// next mode is `m`.
pub open spec fn admits(filter: Option<Seq<SpecularMode>>, m: SpecularMode) -> bool {
    match filter {
        None => true,
        Some(f) => f.len() > 0 && f[0] == m,
    }
}

pub open spec fn filter_view(filter: Option<&[SpecularMode]>) -> Option<Seq<SpecularMode>> {
    match filter {
        None => None,
        Some(f) => Some(f@),
    }
}

/// A path with `depth` interactions so far may be traced further.
pub fn may_trace(depth: usize) -> (r: bool)
    ensures
        r == (depth < MAX_SPECULAR_DEPTH),
{
    depth < MAX_SPECULAR_DEPTH
}

/// Decides what to do at a hit, given the remaining mode filter (`None`
/// when paths are not being replayed), whether the surface is dielectric,
/// and whether refraction exists there (it does not under total internal
/// reflection).
pub fn plan_specular_step(filter: Option<&[SpecularMode]>, dielectric: bool, refraction_exists: bool) -> (r: SpecularStep)
    ensures
        r.emit == match filter {
            None => true,
            Some(f) => f@.len() == 0,
        },
        r.reflect == (dielectric && admits(filter_view(filter), SpecularMode::Reflect)),
        r.refract == (dielectric && refraction_exists && admits(filter_view(filter), SpecularMode::Refract)),
{
    let (emit, next) = match filter {
        None => (true, None),
        Some(f) => {
            if f.len() == 0 {
                (true, Some(None))
            } else {
                (false, Some(Some(f[0])))
            }
        },
    };
    if !dielectric {
        return SpecularStep { emit, reflect: false, refract: false };
    }
    let (reflect, refract) = match next {
        None => (true, refraction_exists),
        Some(None) => (false, false),
        Some(Some(m)) => (m == SpecularMode::Reflect, refraction_exists && m == SpecularMode::Refract),
    };
    SpecularStep { emit, reflect, refract }
}

/// The filter for the interactions after the next one.
pub fn rest_of_filter(filter: Option<&[SpecularMode]>) -> (r: Option<&[SpecularMode]>)
    ensures
        filter is None ==> r is None,
        filter matches Some(f) ==> r matches Some(g) && g@ == if f@.len() == 0 { f@ } else { f@.skip(1) },
{
    match filter {
        None => None,
        Some(f) => {
            if f.len() == 0 {
                Some(f)
            } else {
                let g = vstd::slice::slice_subrange(f, 1, f.len());
                assert(g@ =~= f@.skip(1));
                Some(g)
            }
        },
    }
}

} // verus!
