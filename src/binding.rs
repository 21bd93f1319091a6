use vstd::prelude::*;
use crate::lookup::value_of_key;

verus! {

/// What kind of resource a binding slot expects.
#[derive(Clone, Copy, Debug, PartialEq, Eq, Structural)]
pub enum BindKind {
    /// Plain data, held in a uniform buffer.
    Uniform,
    /// A texture sampled by the shader.
    SampledTexture,
    /// A sampler.
    Sampler,
    /// Any other kind of the descriptor vocabulary; the provider handles none.
    Other,
}

/// A named binding that every value of one data type exposes.
#[derive(Clone, Debug)]
pub struct BindingDescriptor {
    pub name: String,
    pub kind: BindKind,
}

/// What one value offers for one binding. Uniform bytes may be offered by
/// reference, as an owned copy, or both; the reference is preferred.
#[derive(Clone, Debug)]
pub struct BindingData {
    pub bytes_ref: Option<Vec<u8>>,
    pub bytes_owned: Option<Vec<u8>>,
    pub texture: Option<u64>,
}

/// A data value: one `BindingData` per descriptor of its type, in order,
/// and the shader-selection flags it asks for.
#[derive(Clone, Debug)]
pub struct UniformValue {
    pub bindings: Vec<BindingData>,
    pub shader_defs: Option<Vec<String>>,
}

/// Why a frame update stopped: the binding declared by the data type and
/// the data actually offered disagree.
#[derive(Clone, Copy, Debug, PartialEq, Eq, Structural)]
pub enum ErrorKind {
    /// The binding's kind is not one the provider handles.
    UnsupportedBindKind,
    /// A uniform binding offered no bytes by either accessor.
    MissingUniformBytes,
    /// A uniform binding offered more bytes than one alignment unit holds.
    UniformTooLarge,
    /// A texture or sampler binding named no texture asset.
    MissingTextureHandle,
    /// The named texture asset is neither resolved yet nor in the store.
    MissingTexture(u64),
}

/// The entity and binding at fault, and what is wrong.
#[derive(Clone, Debug)]
pub struct ProviderError {
    pub entity: u64,
    pub binding: String,
    pub kind: ErrorKind,
}

impl BindingData {
    /// The uniform bytes: by reference if offered, else the owned copy.
    pub open spec fn bytes(&self) -> Option<Seq<u8>> {
        match self.bytes_ref {
            Some(b) => Some(b@),
            None => match self.bytes_owned {
                Some(b) => Some(b@),
                None => None,
            },
        }
    }

    pub fn uniform_bytes(&self) -> (r: Option<&Vec<u8>>)
        ensures
            r matches Some(b) ==> self.bytes() == Some(b@),
            r is None <==> self.bytes() is None,
    {
        match &self.bytes_ref {
            Some(b) => Some(b),
            None => match &self.bytes_owned {
                Some(b) => Some(b),
                None => None,
            },
        }
    }
}

/// What is wrong with one binding, given the texture assets in the store
/// and the textures and samplers already resolved.
pub open spec fn binding_fault(
    kind: BindKind,
    b: BindingData,
    store: Seq<u64>,
    textures: Seq<(u64, u64)>,
    samplers: Seq<(u64, u64)>,
) -> Option<ErrorKind> {
    match kind {
        BindKind::Uniform => match b.bytes() {
            None => Some(ErrorKind::MissingUniformBytes),
            Some(x) => if x.len() > 256 {
                Some(ErrorKind::UniformTooLarge)
            } else {
                None
            },
        },
        BindKind::SampledTexture => match b.texture {
            None => Some(ErrorKind::MissingTextureHandle),
            Some(t) => if value_of_key(textures, t) is None && !store.contains(t) {
                Some(ErrorKind::MissingTexture(t))
            } else {
                None
            },
        },
        BindKind::Sampler => match b.texture {
            None => Some(ErrorKind::MissingTextureHandle),
            Some(t) => if value_of_key(samplers, t) is None && !store.contains(t) {
                Some(ErrorKind::MissingTexture(t))
            } else {
                None
            },
        },
        BindKind::Other => Some(ErrorKind::UnsupportedBindKind),
    }
}

/// The first fault among the bindings of `v` from index `j` on, with the
/// index at which it stands.
pub open spec fn value_fault_from(
    descs: Seq<BindingDescriptor>,
    v: UniformValue,
    store: Seq<u64>,
    textures: Seq<(u64, u64)>,
    samplers: Seq<(u64, u64)>,
    j: int,
) -> Option<(int, ErrorKind)>
    decreases descs.len() - j,
{
    if j < 0 || j >= descs.len() {
        None
    } else {
        match binding_fault(descs[j].kind, v.bindings@[j], store, textures, samplers) {
            Some(k) => Some((j, k)),
            None => value_fault_from(descs, v, store, textures, samplers, j + 1),
        }
    }
}

/// The first fault among all bindings of `v`.
pub open spec fn value_fault(
    descs: Seq<BindingDescriptor>,
    v: UniformValue,
    store: Seq<u64>,
    textures: Seq<(u64, u64)>,
    samplers: Seq<(u64, u64)>,
) -> Option<(int, ErrorKind)> {
    value_fault_from(descs, v, store, textures, samplers, 0)
}

/// Whether `t` is among the texture assets in the store.
pub fn store_contains(store: &Vec<u64>, t: u64) -> (r: bool)
    ensures
        r == store@.contains(t),
{
    let mut i: usize = 0;
    while i < store.len()
        invariant
            0 <= i <= store@.len(),
            forall|j: int| 0 <= j < i ==> store@[j] != t,
        decreases store@.len() - i,
    {
        if store[i] == t {
            return true;
        }
        i = i + 1;
    }
    false
}

} // verus!
