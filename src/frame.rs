use vstd::prelude::*;
use crate::binding::{
    BindKind, BindingData, BindingDescriptor, ErrorKind, ProviderError, UniformValue, binding_fault,
    store_contains, value_fault, value_fault_from,
};
use crate::command::{Command, CommandView, views};
use crate::lookup::{find_key, value_of_key};
use crate::provider::{ids_distinct, CacheView, entity_steps, alloc_steps, pack_steps, before_alloc, lemma_alloc_steps_same, UniformResourceProvider, buffer_index, direct_ids, uploaded, lemma_buffer_index, packed_after, registers, uniform_ready};
use crate::dynamic::{DynamicBuffer, assigns_offsets};
use crate::BIND_BUFFER_ALIGNMENT;
use crate::{MAX_ENTITIES, RESOURCE_ID_LIMIT};

verus! {

/// What the world and the asset stores hold for one frame.
#[derive(Debug)]
pub struct Frame {
    /// Entities that carry a handle to a shared value, in query order.
    pub asset_entities: Vec<(u64, u64)>,
    /// The store of shared values, by handle; a handle absent from it is not
    /// loaded yet.
    pub assets: Vec<(u64, UniformValue)>,
    /// Entities that carry their value directly, in query order.
    pub direct_entities: Vec<(u64, UniformValue)>,
    /// Handles of the texture assets in the store.
    pub textures: Vec<u64>,
}

/// What a frame update asks of the backend and of the renderables.
#[derive(Debug)]
pub struct FrameOutput {
    /// Backend operations, in the order they must run.
    pub commands: Vec<Command>,
    /// Shader-selection flags to add to each entity's renderable.
    pub shader_defs: Vec<(u64, String)>,
}

/// The fault of entity `e` with value `v`, if any: the entity, the index
/// of the binding and what is wrong.
pub open spec fn entity_fault(
    descs: Seq<BindingDescriptor>,
    e: u64,
    v: UniformValue,
    store: Seq<u64>,
    textures: Seq<(u64, u64)>,
    samplers: Seq<(u64, u64)>,
) -> Option<(u64, int, ErrorKind)> {
    match value_fault(descs, v, store, textures, samplers) {
        Some(f) => Some((e, f.0, f.1)),
        None => None,
    }
}

/// The first fault among the directly valued entities from index `k` on.
pub open spec fn direct_fault_from(
    descs: Seq<BindingDescriptor>,
    f: Frame,
    textures: Seq<(u64, u64)>,
    samplers: Seq<(u64, u64)>,
    k: int,
) -> Option<(u64, int, ErrorKind)>
    decreases f.direct_entities@.len() - k,
{
    if k < 0 || k >= f.direct_entities@.len() {
        None
    } else {
        let (e, v) = f.direct_entities@[k];
        match entity_fault(descs, e, v, f.textures@, textures, samplers) {
            Some(x) => Some(x),
            None => direct_fault_from(descs, f, textures, samplers, k + 1),
        }
    }
}

/// The first fault among the asset-backed entities whose value is loaded,
/// from index `k` on, and then among the directly valued entities.
pub open spec fn asset_fault_from(
    descs: Seq<BindingDescriptor>,
    f: Frame,
    textures: Seq<(u64, u64)>,
    samplers: Seq<(u64, u64)>,
    k: int,
) -> Option<(u64, int, ErrorKind)>
    decreases f.asset_entities@.len() - k,
{
    if k < 0 || k >= f.asset_entities@.len() {
        direct_fault_from(descs, f, textures, samplers, 0)
    } else {
        let (e, h) = f.asset_entities@[k];
        match value_of_key(f.assets@, h) {
            None => asset_fault_from(descs, f, textures, samplers, k + 1),
            Some(v) => match entity_fault(descs, e, v, f.textures@, textures, samplers) {
                Some(x) => Some(x),
                None => asset_fault_from(descs, f, textures, samplers, k + 1),
            },
        }
    }
}

/// The first fault of the frame, in the order in which the update visits
/// bindings: asset-backed entities first, then directly valued ones.
pub open spec fn frame_fault(p: UniformResourceProvider, f: Frame) -> Option<(u64, int, ErrorKind)> {
    asset_fault_from(p.descriptors@, f, p.texture_resources@, p.sampler_resources@, 0)
}

/// Whether `r` reports the fault `x` of a frame for a type with bindings `descs`.
pub open spec fn reports(r: ProviderError, x: (u64, int, ErrorKind), descs: Seq<BindingDescriptor>) -> bool {
    &&& r.entity == x.0
    &&& 0 <= x.1 < descs.len()
    &&& r.binding == descs[x.1].name
    &&& r.kind == x.2
}

/// The directly valued entities of the frame, in order.
pub open spec fn direct_ids_of(f: Frame) -> Seq<u64> {
    direct_ids(f.direct_entities@)
}

/// Every value in the frame has one binding per descriptor.
pub open spec fn frame_shaped(f: Frame, n: int) -> bool {
    &&& forall|k: int| 0 <= k < f.assets@.len() ==> (#[trigger] f.assets@[k]).1.bindings@.len() == n
    &&& forall|k: int| 0 <= k < f.direct_entities@.len() ==> (#[trigger] f.direct_entities@[k]).1.bindings@.len() == n
}

/// What is wrong with one binding.
pub fn check_binding(
    kind: BindKind,
    b: &BindingData,
    store: &Vec<u64>,
    textures: &Vec<(u64, u64)>,
    samplers: &Vec<(u64, u64)>,
) -> (r: Option<ErrorKind>)
    ensures
        r == binding_fault(kind, *b, store@, textures@, samplers@),
{
    match kind {
        BindKind::Uniform => match b.uniform_bytes() {
            None => Some(ErrorKind::MissingUniformBytes),
            Some(x) => if x.len() > 256 {
                Some(ErrorKind::UniformTooLarge)
            } else {
                None
            },
        },
        BindKind::SampledTexture => match b.texture {
            None => Some(ErrorKind::MissingTextureHandle),
            Some(t) => if find_key(textures, t).is_none() && !store_contains(store, t) {
                Some(ErrorKind::MissingTexture(t))
            } else {
                None
            },
        },
        BindKind::Sampler => match b.texture {
            None => Some(ErrorKind::MissingTextureHandle),
            Some(t) => if find_key(samplers, t).is_none() && !store_contains(store, t) {
                Some(ErrorKind::MissingTexture(t))
            } else {
                None
            },
        },
        BindKind::Other => Some(ErrorKind::UnsupportedBindKind),
    }
}

/// A value free of faults from index `i` on has no fault at any later binding.
pub proof fn lemma_no_fault_at(
    descs: Seq<BindingDescriptor>,
    v: UniformValue,
    store: Seq<u64>,
    textures: Seq<(u64, u64)>,
    samplers: Seq<(u64, u64)>,
    i: int,
    j: int,
)
    requires
        0 <= i <= j < descs.len(),
        value_fault_from(descs, v, store, textures, samplers, i) is None,
    ensures
        binding_fault(descs[j].kind, v.bindings@[j], store, textures, samplers) is None,
    decreases j - i,
{
    if i < j {
        lemma_no_fault_at(descs, v, store, textures, samplers, i + 1, j);
    }
}

/// A value free of faults stays so once more textures and samplers are resolved.
pub proof fn lemma_no_fault_extends(
    descs: Seq<BindingDescriptor>,
    v: UniformValue,
    store: Seq<u64>,
    a: UniformResourceProvider,
    b: UniformResourceProvider,
    i: int,
)
    requires
        0 <= i <= descs.len(),
        value_fault(descs, v, store, a.texture_resources@, a.sampler_resources@) is None,
        UniformResourceProvider::cache_extends(a, b),
    ensures
        value_fault_from(descs, v, store, b.texture_resources@, b.sampler_resources@, i) is None,
    decreases descs.len() - i,
{
    if i < descs.len() {
        lemma_no_fault_at(descs, v, store, a.texture_resources@, a.sampler_resources@, 0, i);
        match v.bindings@[i].texture {
            Some(t) => {
                if value_of_key(a.texture_resources@, t) is Some {
                    assert(value_of_key(b.texture_resources@, t) is Some);
                }
                if value_of_key(a.sampler_resources@, t) is Some {
                    assert(value_of_key(b.sampler_resources@, t) is Some);
                }
            },
            None => {},
        }
        lemma_no_fault_extends(descs, v, store, a, b, i + 1);
    }
}

/// A frame without fault from directly valued entity `k` on has no fault
/// in any later one.
pub proof fn lemma_direct_fault_free(
    descs: Seq<BindingDescriptor>,
    f: Frame,
    textures: Seq<(u64, u64)>,
    samplers: Seq<(u64, u64)>,
    k: int,
    m: int,
)
    requires
        0 <= k <= m < f.direct_entities@.len(),
        direct_fault_from(descs, f, textures, samplers, k) is None,
    ensures
        value_fault(descs, f.direct_entities@[m].1, f.textures@, textures, samplers) is None,
    decreases m - k,
{
    if k < m {
        lemma_direct_fault_free(descs, f, textures, samplers, k + 1, m);
    }
}

/// A frame without fault from asset-backed entity `k` on has no fault in
/// any later one whose value is loaded, nor in a directly valued one.
pub proof fn lemma_asset_fault_free(
    descs: Seq<BindingDescriptor>,
    f: Frame,
    textures: Seq<(u64, u64)>,
    samplers: Seq<(u64, u64)>,
    k: int,
)
    requires
        0 <= k <= f.asset_entities@.len(),
        asset_fault_from(descs, f, textures, samplers, k) is None,
    ensures
        direct_fault_from(descs, f, textures, samplers, 0) is None,
        forall|m: int| k <= m < f.asset_entities@.len() ==> ((#[trigger] value_of_key(f.assets@, f.asset_entities@[m].1)) matches Some(v)
            ==> value_fault(descs, v, f.textures@, textures, samplers) is None),
    decreases f.asset_entities@.len() - k,
{
    if k < f.asset_entities@.len() {
        lemma_asset_fault_free(descs, f, textures, samplers, k + 1);
    }
}

/// The flags that entity `e` asks for, each paired with `e`.
pub open spec fn def_pairs(e: u64, defs: Option<Vec<String>>) -> Seq<(u64, String)> {
    match defs {
        Some(v) => v@.map_values(|d: String| (e, d)),
        None => Seq::empty(),
    }
}

/// The flags of the directly valued entities, in order.
pub open spec fn direct_defs(s: Seq<(u64, UniformValue)>) -> Seq<(u64, String)>
    decreases s.len(),
{
    if s.len() == 0 {
        Seq::empty()
    } else {
        direct_defs(s.drop_last()) + def_pairs(s.last().0, s.last().1.shader_defs)
    }
}

/// The flags of the asset-backed entities whose value is loaded, in order.
pub open spec fn asset_defs(s: Seq<(u64, u64)>, assets: Seq<(u64, UniformValue)>) -> Seq<(u64, String)>
    decreases s.len(),
{
    if s.len() == 0 {
        Seq::empty()
    } else {
        asset_defs(s.drop_last(), assets) + match value_of_key(assets, s.last().1) {
            Some(v) => def_pairs(s.last().0, v.shader_defs),
            None => Seq::empty(),
        }
    }
}

/// Appends `(e, d)` for each flag `d`.
fn push_defs(out: &mut Vec<(u64, String)>, e: u64, defs: &Option<Vec<String>>)
    ensures
        final(out)@ == old(out)@ + def_pairs(e, *defs),
{
    if let Some(v) = defs {
        let ghost start = out@;
        let mut j: usize = 0;
        while j < v.len()
            invariant
                j <= v@.len(),
                out@ == start + v@.take(j as int).map_values(|d: String| (e, d)),
            decreases v@.len() - j,
        {
            out.push((e, v[j].clone()));
            j = j + 1;
            assert(v@.take(j as int).map_values(|d: String| (e, d)) =~= v@.take(j - 1).map_values(|d: String| (e, d)).push((e, v@[j - 1])));
        }
        assert(v@.take(j as int) =~= v@);
    } else {
        assert(old(out)@ + def_pairs(e, *defs) =~= old(out)@);
    }
}

/// The shader-selection flags to add to renderables: those of the directly
/// valued entities, then those of the asset-backed entities whose value is
/// loaded.
pub fn collect_shader_defs(f: &Frame) -> (r: Vec<(u64, String)>)
    ensures
        r@ == direct_defs(f.direct_entities@) + asset_defs(f.asset_entities@, f.assets@),
{
    let mut out: Vec<(u64, String)> = Vec::new();
    let mut k: usize = 0;
    while k < f.direct_entities.len()
        invariant
            k <= f.direct_entities@.len(),
            out@ == direct_defs(f.direct_entities@.take(k as int)),
        decreases f.direct_entities@.len() - k,
    {
        push_defs(&mut out, f.direct_entities[k].0, &f.direct_entities[k].1.shader_defs);
        k = k + 1;
        assert(f.direct_entities@.take(k as int).drop_last() =~= f.direct_entities@.take(k - 1));
    }
    assert(f.direct_entities@.take(k as int) =~= f.direct_entities@);
    let ghost mid = out@;
    let mut k: usize = 0;
    while k < f.asset_entities.len()
        invariant
            k <= f.asset_entities@.len(),
            out@ == mid + asset_defs(f.asset_entities@.take(k as int), f.assets@),
        decreases f.asset_entities@.len() - k,
    {
        let (e, h) = f.asset_entities[k];
        let ghost before = out@;
        match find_key(&f.assets, h) {
            Some(i) => {
                push_defs(&mut out, e, &f.assets[i].1.shader_defs);
            },
            None => {},
        }
        k = k + 1;
        assert(f.asset_entities@.take(k as int).drop_last() =~= f.asset_entities@.take(k - 1));
        assert(out@ =~= mid + asset_defs(f.asset_entities@.take(k as int), f.assets@));
    }
    assert(f.asset_entities@.take(k as int) =~= f.asset_entities@);
    out
}

/// Asset-backed entity `m`, if its value is loaded, is bound for binding `j`.
pub open spec fn asset_entity_bound(p: UniformResourceProvider, cmds: Seq<Command>, f: Frame, m: int, j: int) -> bool {
    value_of_key(f.assets@, f.asset_entities@[m].1) matches Some(v) ==> UniformResourceProvider::binds(
        p,
        cmds,
        f.asset_entities@[m].0,
        p.descriptors@[j],
        v.bindings@[j],
        Some(f.asset_entities@[m].1),
    )
}

/// Directly valued entity `m` is bound for binding `j` (its uniform
/// bindings go through the aggregators).
pub open spec fn direct_entity_bound(p: UniformResourceProvider, cmds: Seq<Command>, f: Frame, m: int, j: int) -> bool {
    UniformResourceProvider::binds(
        p,
        cmds,
        f.direct_entities@[m].0,
        p.descriptors@[j],
        f.direct_entities@[m].1.bindings@[j],
        None,
    )
}

/// Being a prefix is transitive.
pub proof fn lemma_prefix_trans(a: Seq<Command>, b: Seq<Command>, c: Seq<Command>)
    requires
        a.is_prefix_of(b),
        b.is_prefix_of(c),
    ensures
        a.is_prefix_of(c),
{
    assert(c.subrange(0, a.len() as int) =~= b.subrange(0, a.len() as int));
}

/// No directly valued entity has a fault, given `p`'s resolved textures and samplers.
pub open spec fn direct_fault_free(p: UniformResourceProvider, f: Frame) -> bool {
    forall|m: int| 0 <= m < f.direct_entities@.len() ==> value_fault(
        p.descriptors@,
        (#[trigger] f.direct_entities@[m]).1,
        f.textures@,
        p.texture_resources@,
        p.sampler_resources@,
    ) is None
}

/// The uniform bindings among the first `j` descriptors that no aggregator
/// of `a` serves, in order: those a frame with directly valued entities
/// gives new aggregators.
pub open spec fn missing_uniforms(a: Seq<DynamicBuffer>, descs: Seq<BindingDescriptor>, j: int) -> Seq<usize>
    decreases j,
{
    if j <= 0 {
        Seq::empty()
    } else {
        let prev = missing_uniforms(a, descs, j - 1);
        if descs[j - 1].kind == BindKind::Uniform && !serves(a, j - 1) {
            prev.push((j - 1) as usize)
        } else {
            prev
        }
    }
}

/// Some aggregator of `a` serves binding `j`.
pub open spec fn serves(a: Seq<DynamicBuffer>, j: int) -> bool {
    exists|i: int| 0 <= i < a.len() && a[i].binding == j
}

/// Aggregators with the same bindings miss the same uniform bindings.
pub proof fn lemma_missing_same(a1: Seq<DynamicBuffer>, a2: Seq<DynamicBuffer>, descs: Seq<BindingDescriptor>, j: int)
    requires
        a1.len() == a2.len(),
        forall|i: int| 0 <= i < a1.len() ==> a1[i].binding == a2[i].binding,
    ensures
        missing_uniforms(a1, descs, j) == missing_uniforms(a2, descs, j),
    decreases j,
{
    if j > 0 {
        lemma_missing_same(a1, a2, descs, j - 1);
        if serves(a1, j - 1) {
            let i = choose|i: int| 0 <= i < a1.len() && a1[i].binding == j - 1;
            assert(a2[i].binding == j - 1);
        }
        if serves(a2, j - 1) {
            let i = choose|i: int| 0 <= i < a2.len() && a2[i].binding == j - 1;
            assert(a1[i].binding == j - 1);
        }
    }
}

/// Every binding that `missing_uniforms` lists is below `j`.
pub proof fn lemma_missing_below(a: Seq<DynamicBuffer>, descs: Seq<BindingDescriptor>, j: int)
    ensures
        forall|k: int| 0 <= k < missing_uniforms(a, descs, j).len() ==> #[trigger] missing_uniforms(a, descs, j)[k] < j,
    decreases j,
{
    if j > 0 {
        lemma_missing_below(a, descs, j - 1);
        let prev = missing_uniforms(a, descs, j - 1);
        let cur = missing_uniforms(a, descs, j);
        assert forall|k: int| 0 <= k < cur.len() implies #[trigger] cur[k] < j by {
            if k < prev.len() {
                assert(cur[k] == prev[k]);
            }
        }
    }
}

/// After registration, from `a` to `b`: aggregators keep their buffers,
/// new ones have none yet, each holds every directly valued entity, and
/// each uniform binding has one.
pub open spec fn registered_all(a: UniformResourceProvider, b: UniformResourceProvider, direct: Seq<(u64, UniformValue)>) -> bool {
    &&& a.dynamic_buffers@.len() <= b.dynamic_buffers@.len()
    &&& forall|i: int| 0 <= i < a.dynamic_buffers@.len() ==> {
        let x = #[trigger] b.dynamic_buffers@[i];
        x == (DynamicBuffer { count: x.count, entities: x.entities, values: x.values, ..a.dynamic_buffers@[i] })
    }
    &&& forall|i: int| a.dynamic_buffers@.len() <= i < b.dynamic_buffers@.len() ==> {
        let x = #[trigger] b.dynamic_buffers@[i];
        x.resource is None && x.capacity == 0 && x.offsets@.len() == 0
    }
    &&& forall|i: int| 0 <= i < b.dynamic_buffers@.len() ==> registers(#[trigger] b.dynamic_buffers@[i], direct, b.dynamic_buffers@[i].binding as int)
    &&& forall|j: int| 0 <= j < b.descriptors@.len() && b.descriptors@[j].kind == BindKind::Uniform ==>
        buffer_index(b.dynamic_buffers@, j as usize) >= 0
    &&& b.dynamic_buffers@.len() == a.dynamic_buffers@.len() + missing_uniforms(a.dynamic_buffers@, a.descriptors@, a.descriptors@.len() as int).len()
    &&& forall|i: int| a.dynamic_buffers@.len() <= i < b.dynamic_buffers@.len() ==> (#[trigger] b.dynamic_buffers@[i]).binding
        == missing_uniforms(a.dynamic_buffers@, a.descriptors@, a.descriptors@.len() as int)[i - a.dynamic_buffers@.len()]
}

/// The aggregators after a frame, from `a` to `b`: those that existed keep
/// their binding, and their buffer and capacity if they had one; new ones
/// have room for twice the directly valued entities; every aggregator has a
/// buffer, holds exactly this frame's directly valued entities and gives the
/// `k`-th of them the `k`-th alignment unit, and `cmds` upload its packed
/// values into its buffer; each uniform binding has one
/// when any entity is directly valued.
pub open spec fn dynamic_updated(
    a: UniformResourceProvider,
    b: UniformResourceProvider,
    direct: Seq<(u64, UniformValue)>,
    cmds: Seq<Command>,
) -> bool {
    &&& a.dynamic_buffers@.len() <= b.dynamic_buffers@.len()
    &&& direct.len() == 0 ==> a.dynamic_buffers@.len() == b.dynamic_buffers@.len()
    &&& forall|i: int| 0 <= i < a.dynamic_buffers@.len() ==> {
        let x = a.dynamic_buffers@[i];
        let y = #[trigger] b.dynamic_buffers@[i];
        &&& y.binding == x.binding
        &&& x.resource is Some ==> y.resource == x.resource && y.capacity == x.capacity
    }
    &&& forall|i: int| a.dynamic_buffers@.len() <= i < b.dynamic_buffers@.len() ==>
        (#[trigger] b.dynamic_buffers@[i]).capacity == 2 * direct.len()
    &&& forall|i: int| 0 <= i < b.dynamic_buffers@.len() ==> {
        let y = #[trigger] b.dynamic_buffers@[i];
        &&& y.resource is Some
        &&& y.count == y.entities@.len()
        &&& direct.len() > 0 ==> registers(y, direct, y.binding as int)
        &&& direct.len() == 0 ==> y.entities@.len() == 0
        &&& assigns_offsets(y.offsets@, y.entities@)
        &&& uploaded(cmds, y)
    }
    &&& direct.len() > 0 ==> forall|j: int| 0 <= j < b.descriptors@.len() && b.descriptors@[j].kind == BindKind::Uniform ==>
        buffer_index(b.dynamic_buffers@, j as usize) >= 0
    &&& direct.len() > 0 ==> b.dynamic_buffers@.len() == a.dynamic_buffers@.len() + missing_uniforms(a.dynamic_buffers@, a.descriptors@, a.descriptors@.len() as int).len()
    &&& direct.len() > 0 ==> forall|i: int| a.dynamic_buffers@.len() <= i < b.dynamic_buffers@.len() ==> (#[trigger] b.dynamic_buffers@[i]).binding
        == missing_uniforms(a.dynamic_buffers@, a.descriptors@, a.descriptors@.len() as int)[i - a.dynamic_buffers@.len()]
}

/// What a successful frame update did, from `a` to `b`, with output `out`.
pub open spec fn frame_updated(a: UniformResourceProvider, b: UniformResourceProvider, f: Frame, out: FrameOutput) -> bool {
    &&& b.descriptors == a.descriptors
    &&& UniformResourceProvider::cache_extends(a, b)
    &&& dynamic_updated(a, b, f.direct_entities@, out.commands@)
    &&& forall|m: int, j: int| 0 <= m < f.asset_entities@.len() && 0 <= j < b.descriptors@.len()
        ==> #[trigger] asset_entity_bound(b, out.commands@, f, m, j)
    &&& forall|m: int, j: int| 0 <= m < f.direct_entities@.len() && 0 <= j < b.descriptors@.len()
        ==> #[trigger] direct_entity_bound(b, out.commands@, f, m, j)
    &&& out.shader_defs@ == direct_defs(f.direct_entities@) + asset_defs(f.asset_entities@, f.assets@)
    &&& frame_commands(a, b, f, out)
}

/// The exact commands of a frame from `a` to `b`, and the caches it leaves:
/// the asset-backed entities' resolutions, then the directly valued
/// entities', then the allocation of every aggregator without a buffer,
/// then the upload of every aggregator's packed values.
pub open spec fn frame_commands(a: UniformResourceProvider, b: UniformResourceProvider, f: Frame, out: FrameOutput) -> bool {
    let descs = a.descriptors@;
    let ac = asset_pass(a.caches(), f, descs, f.asset_entities@.len() as int);
    let dc = direct_pass(ac.0, f, descs, f.direct_entities@.len() as int);
    let n = b.dynamic_buffers@.len() as int;
    let bb = before_alloc(a.dynamic_buffers@, b.dynamic_buffers@);
    let al = alloc_steps(bb, dc.0.next, n);
    let pk = pack_steps(b.dynamic_buffers@, al.0, n);
    &&& views(out.commands@) == ac.1 + dc.1 + al.1 + pk.1
    &&& b.caches() == (CacheView { next: pk.0, ..dc.0 })
    &&& forall|i: int| 0 <= i < n && bb[i].resource is None ==>
        (#[trigger] b.dynamic_buffers@[i]).resource == Some(alloc_steps(bb, dc.0.next, i).0)
}

/// Caches and commands after the first `k` asset-backed entities are
/// resolved from caches `c`: an entity whose value is not loaded issues
/// nothing.
pub open spec fn asset_pass(c: CacheView, f: Frame, descs: Seq<BindingDescriptor>, k: int) -> (CacheView, Seq<CommandView>)
    decreases k,
{
    if k <= 0 {
        (c, Seq::empty())
    } else {
        let prev = asset_pass(c, f, descs, k - 1);
        let (e, h) = f.asset_entities@[k - 1];
        match value_of_key(f.assets@, h) {
            None => prev,
            Some(v) => {
                let step = entity_steps(prev.0, e, descs, v.bindings@, Some(h), descs.len() as int);
                (step.0, prev.1 + step.1)
            },
        }
    }
}

/// Caches and commands after the first `k` directly valued entities are
/// resolved from caches `c`.
pub open spec fn direct_pass(c: CacheView, f: Frame, descs: Seq<BindingDescriptor>, k: int) -> (CacheView, Seq<CommandView>)
    decreases k,
{
    if k <= 0 {
        (c, Seq::empty())
    } else {
        let prev = direct_pass(c, f, descs, k - 1);
        let (e, v) = f.direct_entities@[k - 1];
        let step = entity_steps(prev.0, e, descs, v.bindings@, None, descs.len() as int);
        (step.0, prev.1 + step.1)
    }
}

impl UniformResourceProvider {
    /// The first binding of `v` that the provider cannot serve, reported
    /// for entity `e`.
    pub fn check_value(&self, e: u64, v: &UniformValue, store: &Vec<u64>) -> (r: Result<(), ProviderError>)
        requires
            v.bindings@.len() == self.descriptors@.len(),
        ensures
            r is Ok <==> entity_fault(self.descriptors@, e, *v, store@, self.texture_resources@, self.sampler_resources@) is None,
            r matches Err(x) ==> reports(x, entity_fault(self.descriptors@, e, *v, store@, self.texture_resources@, self.sampler_resources@)->Some_0, self.descriptors@),
    {
        let n = self.descriptors.len();
        let mut j: usize = 0;
        while j < n
            invariant
                n == self.descriptors@.len() == v.bindings@.len(),
                0 <= j <= n,
                value_fault(self.descriptors@, *v, store@, self.texture_resources@, self.sampler_resources@)
                    == value_fault_from(self.descriptors@, *v, store@, self.texture_resources@, self.sampler_resources@, j as int),
            decreases n - j,
        {
            match check_binding(self.descriptors[j].kind, &v.bindings[j], store, &self.texture_resources, &self.sampler_resources) {
                Some(kind) => {
                    return Err(ProviderError { entity: e, binding: self.descriptors[j].name.clone(), kind });
                },
                None => {},
            }
            j = j + 1;
        }
        Ok(())
    }

    /// The first fault of the frame, if any, found before anything changes.
    pub fn check_frame(&self, f: &Frame) -> (r: Result<(), ProviderError>)
        requires
            frame_shaped(*f, self.descriptors@.len() as int),
        ensures
            r is Ok <==> frame_fault(*self, *f) is None,
            r matches Err(x) ==> reports(x, frame_fault(*self, *f)->Some_0, self.descriptors@),
    {
        let mut k: usize = 0;
        while k < f.asset_entities.len()
            invariant
                frame_shaped(*f, self.descriptors@.len() as int),
                0 <= k <= f.asset_entities@.len(),
                frame_fault(*self, *f) == asset_fault_from(self.descriptors@, *f, self.texture_resources@, self.sampler_resources@, k as int),
            decreases f.asset_entities@.len() - k,
        {
            let (e, h) = f.asset_entities[k];
            match find_key(&f.assets, h) {
                Some(i) => {
                    self.check_value(e, &f.assets[i].1, &f.textures)?;
                },
                None => {},
            }
            k = k + 1;
        }
        let mut k: usize = 0;
        while k < f.direct_entities.len()
            invariant
                frame_shaped(*f, self.descriptors@.len() as int),
                0 <= k <= f.direct_entities@.len(),
                frame_fault(*self, *f) == direct_fault_from(self.descriptors@, *f, self.texture_resources@, self.sampler_resources@, k as int),
            decreases f.direct_entities@.len() - k,
        {
            self.check_value(f.direct_entities[k].0, &f.direct_entities[k].1, &f.textures)?;
            k = k + 1;
        }
        Ok(())
    }

    /// Resolves the bindings of every asset-backed entity whose value is loaded.
    pub fn update_asset_uniforms(&mut self, f: &Frame, cmds: &mut Vec<Command>)
        requires
            old(self).wf(),
            old(self).next_resource <= RESOURCE_ID_LIMIT,
            f.asset_entities@.len() <= MAX_ENTITIES,
            frame_shaped(*f, old(self).descriptors@.len() as int),
            asset_fault_from(old(self).descriptors@, *f, old(self).texture_resources@, old(self).sampler_resources@, 0) is None,
        ensures
            final(self).wf(),
            *final(self) == (UniformResourceProvider {
                asset_resources: final(self).asset_resources,
                texture_resources: final(self).texture_resources,
                sampler_resources: final(self).sampler_resources,
                next_resource: final(self).next_resource,
                ..*old(self)
            }),
            Self::cache_extends(*old(self), *final(self)),
            final(self).next_resource <= old(self).next_resource + 2048 * f.asset_entities@.len(),
            old(cmds)@.is_prefix_of(final(cmds)@),
            final(self).caches() == asset_pass(old(self).caches(), *f, old(self).descriptors@, f.asset_entities@.len() as int).0,
            views(final(cmds)@) == views(old(cmds)@) + asset_pass(old(self).caches(), *f, old(self).descriptors@, f.asset_entities@.len() as int).1,
            forall|m: int, j: int| 0 <= m < f.asset_entities@.len() && 0 <= j < final(self).descriptors@.len()
                ==> #[trigger] asset_entity_bound(*final(self), final(cmds)@, *f, m, j),
    {
        proof {
            lemma_asset_fault_free(self.descriptors@, *f, self.texture_resources@, self.sampler_resources@, 0);
            assert(cmds@.subrange(0, cmds@.len() as int) =~= cmds@);
        }
        let mut k: usize = 0;
        while k < f.asset_entities.len()
            invariant
                self.wf(),
                k <= f.asset_entities@.len() <= MAX_ENTITIES,
                old(self).next_resource <= RESOURCE_ID_LIMIT,
                frame_shaped(*f, old(self).descriptors@.len() as int),
                *self == (UniformResourceProvider {
                    asset_resources: self.asset_resources,
                    texture_resources: self.texture_resources,
                    sampler_resources: self.sampler_resources,
                    next_resource: self.next_resource,
                    ..*old(self)
                }),
                Self::cache_extends(*old(self), *self),
                self.next_resource <= old(self).next_resource + 2048 * k,
                old(cmds)@.is_prefix_of(cmds@),
                self.caches() == asset_pass(old(self).caches(), *f, old(self).descriptors@, k as int).0,
                views(cmds@) == views(old(cmds)@) + asset_pass(old(self).caches(), *f, old(self).descriptors@, k as int).1,
                forall|m: int| 0 <= m < f.asset_entities@.len() ==> ((#[trigger] value_of_key(f.assets@, f.asset_entities@[m].1)) matches Some(v)
                    ==> value_fault(old(self).descriptors@, v, f.textures@, old(self).texture_resources@, old(self).sampler_resources@) is None),
                forall|m: int, j: int| 0 <= m < k && 0 <= j < self.descriptors@.len()
                    ==> #[trigger] asset_entity_bound(*self, cmds@, *f, m, j),
            decreases f.asset_entities@.len() - k,
        {
            let (e, h) = f.asset_entities[k];
            match find_key(&f.assets, h) {
                Some(i) => {
                    let ghost p0 = *self;
                    let ghost c0 = cmds@;
                    proof {
                        assert(value_of_key(f.assets@, f.asset_entities@[k as int].1) == Some(f.assets@[i as int].1));
                        lemma_no_fault_extends(self.descriptors@, f.assets@[i as int].1, f.textures@, *old(self), *self, 0);
                    }
                    self.setup_entity_uniform_resources(e, &f.assets[i].1, Some(h), &f.textures, cmds);
                    proof {
                        assert(views(cmds@) =~= views(old(cmds)@) + asset_pass(old(self).caches(), *f, old(self).descriptors@, k + 1).1);
                        UniformResourceProvider::lemma_cache_extends_trans(*old(self), p0, *self);
                        lemma_prefix_trans(old(cmds)@, c0, cmds@);
                        assert forall|m: int, j: int| 0 <= m < k + 1 && 0 <= j < self.descriptors@.len()
                            implies #[trigger] asset_entity_bound(*self, cmds@, *f, m, j) by {
                            if m < k {
                                assert(asset_entity_bound(p0, c0, *f, m, j));
                                if let Some(v) = value_of_key(f.assets@, f.asset_entities@[m].1) {
                                    UniformResourceProvider::lemma_binds_persist(p0, *self, c0, cmds@,
                                        f.asset_entities@[m].0, p0.descriptors@[j], v.bindings@[j], Some(f.asset_entities@[m].1));
                                }
                            } else {
                                assert(UniformResourceProvider::binds(*self, cmds@, e, p0.descriptors@[j], f.assets@[i as int].1.bindings@[j], Some(h)));
                            }
                        }
                    }
                },
                None => {},
            }
            k = k + 1;
        }
    }

    /// Resolves the texture and sampler bindings of every directly valued entity.
    pub fn update_direct_bindings(&mut self, f: &Frame, cmds: &mut Vec<Command>)
        requires
            old(self).wf(),
            old(self).next_resource <= RESOURCE_ID_LIMIT + 8589934592,
            f.direct_entities@.len() <= MAX_ENTITIES,
            frame_shaped(*f, old(self).descriptors@.len() as int),
            direct_fault_free(*old(self), *f),
        ensures
            final(self).wf(),
            *final(self) == (UniformResourceProvider {
                asset_resources: final(self).asset_resources,
                texture_resources: final(self).texture_resources,
                sampler_resources: final(self).sampler_resources,
                next_resource: final(self).next_resource,
                ..*old(self)
            }),
            Self::cache_extends(*old(self), *final(self)),
            final(self).next_resource <= old(self).next_resource + 2048 * f.direct_entities@.len(),
            old(cmds)@.is_prefix_of(final(cmds)@),
            final(self).caches() == direct_pass(old(self).caches(), *f, old(self).descriptors@, f.direct_entities@.len() as int).0,
            views(final(cmds)@) == views(old(cmds)@) + direct_pass(old(self).caches(), *f, old(self).descriptors@, f.direct_entities@.len() as int).1,
            forall|m: int, j: int| 0 <= m < f.direct_entities@.len() && 0 <= j < final(self).descriptors@.len()
                ==> #[trigger] direct_entity_bound(*final(self), final(cmds)@, *f, m, j),
    {
        proof {
            assert(cmds@.subrange(0, cmds@.len() as int) =~= cmds@);
        }
        let mut k: usize = 0;
        while k < f.direct_entities.len()
            invariant
                self.wf(),
                k <= f.direct_entities@.len() <= MAX_ENTITIES,
                old(self).next_resource <= RESOURCE_ID_LIMIT + 8589934592,
                frame_shaped(*f, old(self).descriptors@.len() as int),
                direct_fault_free(*old(self), *f),
                *self == (UniformResourceProvider {
                    asset_resources: self.asset_resources,
                    texture_resources: self.texture_resources,
                    sampler_resources: self.sampler_resources,
                    next_resource: self.next_resource,
                    ..*old(self)
                }),
                Self::cache_extends(*old(self), *self),
                self.next_resource <= old(self).next_resource + 2048 * k,
                old(cmds)@.is_prefix_of(cmds@),
                self.caches() == direct_pass(old(self).caches(), *f, old(self).descriptors@, k as int).0,
                views(cmds@) == views(old(cmds)@) + direct_pass(old(self).caches(), *f, old(self).descriptors@, k as int).1,
                forall|m: int, j: int| 0 <= m < k && 0 <= j < self.descriptors@.len()
                    ==> #[trigger] direct_entity_bound(*self, cmds@, *f, m, j),
            decreases f.direct_entities@.len() - k,
        {
            let ghost p0 = *self;
            let ghost c0 = cmds@;
            proof {
                assert(value_fault(self.descriptors@, f.direct_entities@[k as int].1, f.textures@, old(self).texture_resources@, old(self).sampler_resources@) is None);
                lemma_no_fault_extends(self.descriptors@, f.direct_entities@[k as int].1, f.textures@, *old(self), *self, 0);
            }
            self.setup_entity_uniform_resources(f.direct_entities[k].0, &f.direct_entities[k].1, None, &f.textures, cmds);
            proof {
                assert(views(cmds@) =~= views(old(cmds)@) + direct_pass(old(self).caches(), *f, old(self).descriptors@, k + 1).1);
                UniformResourceProvider::lemma_cache_extends_trans(*old(self), p0, *self);
                lemma_prefix_trans(old(cmds)@, c0, cmds@);
                assert forall|m: int, j: int| 0 <= m < k + 1 && 0 <= j < self.descriptors@.len()
                    implies #[trigger] direct_entity_bound(*self, cmds@, *f, m, j) by {
                    if m < k {
                        assert(direct_entity_bound(p0, c0, *f, m, j));
                        UniformResourceProvider::lemma_binds_persist(p0, *self, c0, cmds@,
                            f.direct_entities@[m].0, p0.descriptors@[j], f.direct_entities@[m].1.bindings@[j], None);
                    } else {
                        assert(UniformResourceProvider::binds(*self, cmds@, f.direct_entities@[m].0, p0.descriptors@[j], f.direct_entities@[m].1.bindings@[j], None));
                    }
                }
            }
            k = k + 1;
        }
    }

    /// Registers every directly valued entity with the aggregator of each
    /// uniform binding. With no such entity, no aggregator is made.
    pub fn register_direct_uniforms(&mut self, f: &Frame)
        requires
            old(self).wf(),
            f.direct_entities@.len() <= MAX_ENTITIES,
            frame_shaped(*f, old(self).descriptors@.len() as int),
            direct_fault_free(*old(self), *f),
            forall|i: int| 0 <= i < old(self).dynamic_buffers@.len() ==> (#[trigger] old(self).dynamic_buffers@[i]).entities@.len() == 0,
        ensures
            final(self).wf(),
            *final(self) == (UniformResourceProvider { dynamic_buffers: final(self).dynamic_buffers, ..*old(self) }),
            f.direct_entities@.len() == 0 ==> *final(self) == *old(self),
            f.direct_entities@.len() > 0 ==> registered_all(*old(self), *final(self), f.direct_entities@),
    {
        if f.direct_entities.len() == 0 {
            return;
        }
        proof {
            assert forall|j: int| 0 <= j < self.descriptors@.len() && self.descriptors@[j].kind == BindKind::Uniform
                implies uniform_ready(f.direct_entities@, j) by {
                assert forall|k: int| 0 <= k < f.direct_entities@.len() implies {
                    &&& 0 <= j < (#[trigger] f.direct_entities@[k]).1.bindings@.len()
                    &&& f.direct_entities@[k].1.bindings@[j].bytes() matches Some(x) && x.len() <= BIND_BUFFER_ALIGNMENT
                } by {
                    assert(value_fault(self.descriptors@, f.direct_entities@[k].1, f.textures@, self.texture_resources@, self.sampler_resources@) is None);
                    lemma_no_fault_at(self.descriptors@, f.direct_entities@[k].1, f.textures@, self.texture_resources@, self.sampler_resources@, 0, j);
                }
            }
        }
        let n = self.descriptors.len();
        let mut j: usize = 0;
        while j < n
            invariant
                self.wf(),
                n == self.descriptors@.len(),
                0 <= j <= n,
                0 < f.direct_entities@.len() <= MAX_ENTITIES,
                forall|j: int| 0 <= j < self.descriptors@.len() && self.descriptors@[j].kind == BindKind::Uniform
                    ==> uniform_ready(f.direct_entities@, j),
                *self == (UniformResourceProvider { dynamic_buffers: self.dynamic_buffers, ..*old(self) }),
                old(self).dynamic_buffers@.len() <= self.dynamic_buffers@.len(),
                forall|i: int| 0 <= i < old(self).dynamic_buffers@.len() ==> {
                    let b = #[trigger] self.dynamic_buffers@[i];
                    b == (DynamicBuffer { count: b.count, entities: b.entities, values: b.values, ..old(self).dynamic_buffers@[i] })
                },
                forall|i: int| old(self).dynamic_buffers@.len() <= i < self.dynamic_buffers@.len() ==> {
                    let b = #[trigger] self.dynamic_buffers@[i];
                    b.resource is None && b.capacity == 0 && b.offsets@.len() == 0
                },
                forall|i: int| 0 <= i < self.dynamic_buffers@.len() ==> {
                    let b = #[trigger] self.dynamic_buffers@[i];
                    if b.binding < j {
                        registers(b, f.direct_entities@, b.binding as int)
                    } else {
                        b.entities@.len() == 0
                    }
                },
                forall|k: int| 0 <= k < j && self.descriptors@[k].kind == BindKind::Uniform ==>
                    exists|i: int| 0 <= i < self.dynamic_buffers@.len() && (#[trigger] self.dynamic_buffers@[i]).binding == k,
                old(self).wf(),
                self.dynamic_buffers@.len() == old(self).dynamic_buffers@.len() + missing_uniforms(old(self).dynamic_buffers@, self.descriptors@, j as int).len(),
                forall|i: int| old(self).dynamic_buffers@.len() <= i < self.dynamic_buffers@.len() ==> (#[trigger] self.dynamic_buffers@[i]).binding
                    == missing_uniforms(old(self).dynamic_buffers@, self.descriptors@, j as int)[i - old(self).dynamic_buffers@.len()],
            decreases n - j,
        {
            let ghost before0 = self.dynamic_buffers@;
            proof {
                let o = old(self).dynamic_buffers@;
                lemma_missing_below(o, self.descriptors@, j as int);
                if buffer_index(before0, j) >= 0 {
                    let i0 = buffer_index(before0, j);
                    if i0 >= o.len() {
                        assert(before0[i0].binding == missing_uniforms(o, self.descriptors@, j as int)[i0 - o.len()]);
                    } else {
                        assert(before0[i0].binding == o[i0].binding);
                        lemma_buffer_index(o, i0);
                    }
                } else if buffer_index(o, j) >= 0 {
                    let i0 = buffer_index(o, j);
                    assert(before0[i0].binding == j);
                    lemma_buffer_index(before0, i0);
                }
                assert(serves(o, j as int) <==> buffer_index(o, j) >= 0);
            }
            if self.descriptors[j].kind == BindKind::Uniform {
                let ghost before = self.dynamic_buffers@;
                self.register_binding(j, &f.direct_entities);
                proof {
                    let after = self.dynamic_buffers@;
                    let bi = buffer_index(after, j);
                    if buffer_index(before, j) >= 0 {
                        assert forall|i: int| 0 <= i < after.len() && i != bi implies after[i] == before[i] by {}
                    } else {
                        assert forall|i: int| 0 <= i < before.len() implies after[i] == before[i] by {
                            assert(after.drop_last()[i] == after[i]);
                        }
                    }
                    assert forall|k: int| 0 <= k < j + 1 && self.descriptors@[k].kind == BindKind::Uniform implies
                        exists|i: int| 0 <= i < after.len() && (#[trigger] after[i]).binding == k by {
                        if k < j {
                            let i0 = choose|i: int| 0 <= i < before.len() && (#[trigger] before[i]).binding == k;
                            assert(after[i0].binding == k);
                        } else {
                            assert(after[bi].binding == j);
                        }
                    }
                }
            }
            j = j + 1;
        }
        proof {
            assert forall|k: int| 0 <= k < n && self.descriptors@[k].kind == BindKind::Uniform implies
                buffer_index(self.dynamic_buffers@, k as usize) >= 0 by {
                let i0 = choose|i: int| 0 <= i < self.dynamic_buffers@.len() && (#[trigger] self.dynamic_buffers@[i]).binding == k;
                lemma_buffer_index(self.dynamic_buffers@, i0);
            }
        }
    }

    /// Runs one frame: checks the frame, forgets last frame's registrations,
    /// resolves the bindings of asset-backed entities and then of directly
    /// valued ones, registers the latter with the aggregators, allocates and
    /// packs the aggregated buffers, and collects shader-selection flags. A
    /// frame with a fault changes nothing.
    #[verifier::rlimit(60)]
    #[verifier::spinoff_prover]
    pub fn update(&mut self, f: &Frame) -> (r: Result<FrameOutput, ProviderError>)
        requires
            old(self).wf(),
            ids_distinct(direct_ids_of(*f)),
            old(self).next_resource <= RESOURCE_ID_LIMIT,
            f.asset_entities@.len() <= MAX_ENTITIES,
            f.direct_entities@.len() <= MAX_ENTITIES,
            frame_shaped(*f, old(self).descriptors@.len() as int),
        ensures
            final(self).wf(),
            r is Err <==> frame_fault(*old(self), *f) is Some,
            r matches Err(x) ==> reports(x, frame_fault(*old(self), *f)->Some_0, old(self).descriptors@)
                && *final(self) == *old(self),
            r matches Ok(out) ==> frame_updated(*old(self), *final(self), *f, out),
            final(self).next_resource <= old(self).next_resource + 2048 * (f.asset_entities@.len() + f.direct_entities@.len() + 1),
    {
        self.check_frame(f)?;
        let ghost p0 = *self;
        proof {
            lemma_asset_fault_free(self.descriptors@, *f, self.texture_resources@, self.sampler_resources@, 0);
        }
        self.reset_counts();
        let ghost p1 = *self;
        let mut cmds: Vec<Command> = Vec::new();
        self.update_asset_uniforms(f, &mut cmds);
        let ghost p2 = *self;
        let ghost c2 = cmds@;
        proof {
            assert(p1.asset_resources == p0.asset_resources);
            assert(p1.texture_resources == p0.texture_resources);
            assert(p1.sampler_resources == p0.sampler_resources);
            UniformResourceProvider::lemma_cache_extends_refl(p0, p1);
            UniformResourceProvider::lemma_cache_extends_trans(p0, p1, p2);
            assert forall|m: int| 0 <= m < f.direct_entities@.len() implies value_fault(
                self.descriptors@, (#[trigger] f.direct_entities@[m]).1, f.textures@,
                self.texture_resources@, self.sampler_resources@) is None by {
                lemma_direct_fault_free(self.descriptors@, *f, p0.texture_resources@, p0.sampler_resources@, 0, m);
                lemma_no_fault_extends(self.descriptors@, f.direct_entities@[m].1, f.textures@, p0, *self, 0);
            }
        }
        self.update_direct_bindings(f, &mut cmds);
        let ghost p3 = *self;
        let ghost c3 = cmds@;
        proof {
            UniformResourceProvider::lemma_cache_extends_trans(p0, p2, p3);
            assert forall|m: int| 0 <= m < f.direct_entities@.len() implies value_fault(
                self.descriptors@, (#[trigger] f.direct_entities@[m]).1, f.textures@,
                self.texture_resources@, self.sampler_resources@) is None by {
                lemma_direct_fault_free(self.descriptors@, *f, p0.texture_resources@, p0.sampler_resources@, 0, m);
                lemma_no_fault_extends(self.descriptors@, f.direct_entities@[m].1, f.textures@, p0, *self, 0);
            }
        }
        self.register_direct_uniforms(f);
        let ghost p4 = *self;
        self.setup_dynamic_uniform_buffers(&mut cmds);
        let shader_defs = collect_shader_defs(f);
        proof {
            UniformResourceProvider::lemma_cache_extends_trans(p0, p2, p3);
            lemma_prefix_trans(c2, c3, cmds@);
            UniformResourceProvider::lemma_cache_extends_refl(p3, *self);
            assert(self.next_resource <= p4.next_resource + 2 * p4.dynamic_buffers@.len());
            assert(p4.dynamic_buffers@.len() <= 1024);
            assert(UniformResourceProvider::cache_extends(p2, *self)) by {
                UniformResourceProvider::lemma_cache_extends_trans(p2, p3, *self);
            }
            UniformResourceProvider::lemma_cache_extends_trans(p0, p3, *self);
            assert forall|m: int, j: int| 0 <= m < f.asset_entities@.len() && 0 <= j < self.descriptors@.len()
                implies #[trigger] asset_entity_bound(*self, cmds@, *f, m, j) by {
                assert(asset_entity_bound(p2, c2, *f, m, j));
                if let Some(v) = value_of_key(f.assets@, f.asset_entities@[m].1) {
                    UniformResourceProvider::lemma_binds_persist(p2, *self, c2, cmds@,
                        f.asset_entities@[m].0, p2.descriptors@[j], v.bindings@[j], Some(f.asset_entities@[m].1));
                }
            }
            assert forall|m: int, j: int| 0 <= m < f.direct_entities@.len() && 0 <= j < self.descriptors@.len()
                implies #[trigger] direct_entity_bound(*self, cmds@, *f, m, j) by {
                assert(direct_entity_bound(p3, c3, *f, m, j));
                UniformResourceProvider::lemma_binds_persist(p3, *self, c3, cmds@,
                    f.direct_entities@[m].0, p3.descriptors@[j], f.direct_entities@[m].1.bindings@[j], None);
            }
            assert forall|i: int| 0 <= i < self.dynamic_buffers@.len() implies {
                let y = #[trigger] self.dynamic_buffers@[i];
                &&& y.resource is Some
                &&& y.count == y.entities@.len()
                &&& f.direct_entities@.len() > 0 ==> registers(y, f.direct_entities@, y.binding as int)
                &&& f.direct_entities@.len() == 0 ==> y.entities@.len() == 0
                &&& assigns_offsets(y.offsets@, y.entities@)
                &&& uploaded(cmds@, y)
            } by {
                assert(packed_after(p4.dynamic_buffers@[i], self.dynamic_buffers@[i]));
                assert(p4.dynamic_buffers@[i].wf_for(p4.descriptors@));
            }
            assert forall|i: int| p0.dynamic_buffers@.len() <= i < self.dynamic_buffers@.len() implies
                (#[trigger] self.dynamic_buffers@[i]).capacity == 2 * f.direct_entities@.len() by {
                assert(packed_after(p4.dynamic_buffers@[i], self.dynamic_buffers@[i]));
                assert(registers(p4.dynamic_buffers@[i], f.direct_entities@, p4.dynamic_buffers@[i].binding as int));
            }
            assert forall|i: int| 0 <= i < p0.dynamic_buffers@.len() implies {
                let x = p0.dynamic_buffers@[i];
                let y = #[trigger] self.dynamic_buffers@[i];
                &&& y.binding == x.binding
                &&& x.resource is Some ==> y.resource == x.resource && y.capacity == x.capacity
            } by {
                assert(packed_after(p4.dynamic_buffers@[i], self.dynamic_buffers@[i]));
                assert(p1.dynamic_buffers@[i].resource == p0.dynamic_buffers@[i].resource);
            }
        }
        let out = FrameOutput { commands: cmds, shader_defs };
        proof {
            assert forall|i: int| 0 <= i < p0.dynamic_buffers@.len() implies p0.dynamic_buffers@[i].binding == p1.dynamic_buffers@[i].binding by {}
            lemma_missing_same(p0.dynamic_buffers@, p1.dynamic_buffers@, p0.descriptors@, p0.descriptors@.len() as int);
            if f.direct_entities@.len() > 0 {
                assert forall|i: int| p0.dynamic_buffers@.len() <= i < self.dynamic_buffers@.len() implies (#[trigger] self.dynamic_buffers@[i]).binding
                    == missing_uniforms(p0.dynamic_buffers@, p0.descriptors@, p0.descriptors@.len() as int)[i - p0.dynamic_buffers@.len()] by {
                    assert(packed_after(p4.dynamic_buffers@[i], self.dynamic_buffers@[i]));
                }
            }
            let n = self.dynamic_buffers@.len() as int;
            let bb = before_alloc(p0.dynamic_buffers@, self.dynamic_buffers@);
            assert forall|k: int| 0 <= k < n implies (p4.dynamic_buffers@[k].resource is None) == (bb[k].resource is None)
                && p4.dynamic_buffers@[k].count == bb[k].count && p4.dynamic_buffers@[k].name@ == bb[k].name@ by {
                assert(packed_after(p4.dynamic_buffers@[k], self.dynamic_buffers@[k]));
                if k < p0.dynamic_buffers@.len() {
                    assert(p1.dynamic_buffers@[k].resource == p0.dynamic_buffers@[k].resource);
                    assert(p3.dynamic_buffers@[k] == p1.dynamic_buffers@[k]);
                }
            }
            lemma_alloc_steps_same(p4.dynamic_buffers@, bb, p4.next_resource, n);
            assert forall|i: int| 0 <= i < n && bb[i].resource is None implies
                (#[trigger] self.dynamic_buffers@[i]).resource == Some(alloc_steps(bb, p4.next_resource, i).0) by {
                lemma_alloc_steps_same(p4.dynamic_buffers@, bb, p4.next_resource, i);
            }
            assert(p1.caches() == p0.caches());
            assert(p4.caches() == p3.caches());
            assert(views(Seq::<Command>::empty()) =~= Seq::<CommandView>::empty());
            assert(frame_commands(p0, *self, *f, out));
        }
        if f.direct_entities.len() > 0 {
            assert forall|j: int| 0 <= j < self.descriptors@.len() && self.descriptors@[j].kind == BindKind::Uniform implies
                buffer_index(self.dynamic_buffers@, j as usize) >= 0 by {
                let i0 = buffer_index(p4.dynamic_buffers@, j as usize);
                assert(p4.dynamic_buffers@[i0].binding == j);
                assert(packed_after(p4.dynamic_buffers@[i0], self.dynamic_buffers@[i0]));
                assert(self.dynamic_buffers@[i0].binding == j);
            }
        }
        Ok(out)
    }

    /// The first frame: the same as any other.
    pub fn initialize(&mut self, f: &Frame) -> (r: Result<FrameOutput, ProviderError>)
        requires
            old(self).wf(),
            ids_distinct(direct_ids_of(*f)),
            old(self).next_resource <= RESOURCE_ID_LIMIT,
            f.asset_entities@.len() <= MAX_ENTITIES,
            f.direct_entities@.len() <= MAX_ENTITIES,
            frame_shaped(*f, old(self).descriptors@.len() as int),
        ensures
            final(self).wf(),
            r is Err <==> frame_fault(*old(self), *f) is Some,
            r matches Err(x) ==> reports(x, frame_fault(*old(self), *f)->Some_0, old(self).descriptors@)
                && *final(self) == *old(self),
            r matches Ok(out) ==> frame_updated(*old(self), *final(self), *f, out),
            final(self).next_resource <= old(self).next_resource + 2048 * (f.asset_entities@.len() + f.direct_entities@.len() + 1),
    {
        self.update(f)
    }
}

} // verus!
