//! The shape of a material description, and the checks a scene's materials
//! must pass before rendering starts.
use vstd::prelude::*;

verus! {

/// The kind of a material, with the kinds of a mixture's two parts.
#[derive(Debug)]
pub enum MaterialKind {
    Diffuse,
    Emitter,
    Metal,
    Nonmetal,
    Glass,
    Mix(Box<MaterialKind>, Box<MaterialKind>),
}

/// Why a material cannot be rendered.
#[derive(Debug, PartialEq, Eq, Structural)]
pub enum MaterialIssue {
    /// A mixture has an emitter among its parts.
    EmitterInMix,
    /// The material's scattering is not available to the renderer.
    Unsupported,
}

/// Whether `kind` is an emitter or a mixture with an emitter in one of its
/// parts, at any depth.
pub open spec fn contains_emitter(kind: MaterialKind) -> bool
    decreases kind,
{
    match kind {
        MaterialKind::Emitter => true,
        MaterialKind::Mix(a, b) => contains_emitter(*a) || contains_emitter(*b),
        _ => false,
    }
}

/// Whether some mixture inside `kind` (`kind` itself included) has an emitter
/// among its parts.
pub open spec fn emitter_in_mix(kind: MaterialKind) -> bool {
    match kind {
        MaterialKind::Mix(a, b) => contains_emitter(*a) || contains_emitter(*b),
        _ => false,
    }
}

/// Whether the renderer can evaluate, sample and weigh directions for `kind`:
/// only diffuse surfaces and emitters are available.
pub open spec fn renderable(kind: MaterialKind) -> bool {
    kind is Diffuse || kind is Emitter
}

/// Whether `kind` contains an emitter, at any depth.
pub fn has_emitter(kind: &MaterialKind) -> (r: bool)
    ensures
        r == contains_emitter(*kind),
    decreases kind,
{
    match kind {
        MaterialKind::Emitter => true,
        MaterialKind::Mix(a, b) => has_emitter(a) || has_emitter(b),
        _ => false,
    }
}

/// Checks a material before rendering: a mixture with an emitter among its
/// parts is rejected first, then any kind that the renderer cannot evaluate.
pub fn check_material(kind: &MaterialKind) -> (r: Result<(), MaterialIssue>)
    ensures
        r == Err::<(), MaterialIssue>(MaterialIssue::EmitterInMix) <==> emitter_in_mix(*kind),
        r == Err::<(), MaterialIssue>(MaterialIssue::Unsupported) <==> !emitter_in_mix(*kind)
            && !renderable(*kind),
        r is Ok <==> !emitter_in_mix(*kind) && renderable(*kind),
{
    match kind {
        MaterialKind::Mix(a, b) => {
            if has_emitter(a) || has_emitter(b) {
                Err(MaterialIssue::EmitterInMix)
            } else {
                Err(MaterialIssue::Unsupported)
            }
        },
        MaterialKind::Diffuse | MaterialKind::Emitter => Ok(()),
        _ => Err(MaterialIssue::Unsupported),
    }
}

/// Whether objects with a material of this kind are lights of the scene.
pub fn is_light(kind: &MaterialKind) -> (r: bool)
    ensures
        r == (*kind is Emitter),
{
    match kind {
        MaterialKind::Emitter => true,
        _ => false,
    }
}

} // verus!
