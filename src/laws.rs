use vstd::prelude::*;
use crate::command::{Command, CommandView, views};
use crate::binding::{BindKind, BindingData, BindingDescriptor};
use crate::lookup::{lemma_value_of_key_push, value_of_key};
use crate::dynamic::assigns_offsets;
use crate::frame::{Frame, FrameOutput, asset_pass, direct_ids_of, direct_pass, dynamic_updated, frame_commands, frame_updated, missing_uniforms};
use crate::provider::{CacheView, binding_step, lemma_pair_lookup_absent, lemma_pair_lookup_from, pair_lookup, UniformResourceProvider, alloc_steps, asset_resolved, before_alloc, lemma_alloc_steps_same, lemma_pack_steps_same, registers};
use crate::dynamic::packed_seq;
use crate::BIND_BUFFER_ALIGNMENT;

verus! {

/// Every offset an aggregator has assigned is a whole number of alignment units.
pub proof fn law_offsets_aligned(p: UniformResourceProvider, i: int, k: int)
    requires
        p.wf(),
        0 <= i < p.dynamic_buffers@.len(),
        0 <= k < p.dynamic_buffers@[i].offsets@.len(),
    ensures
        p.dynamic_buffers@[i].offsets@[k].1 % BIND_BUFFER_ALIGNMENT == 0,
{
    assert(p.dynamic_buffers@[i].wf_for(p.descriptors@));
    assert(p.dynamic_buffers@[i].offsets@[k].1 == BIND_BUFFER_ALIGNMENT * k);
}

/// No two entities registered with one aggregator share an offset.
pub proof fn law_offsets_unique(p: UniformResourceProvider, i: int, k1: int, k2: int)
    requires
        p.wf(),
        0 <= i < p.dynamic_buffers@.len(),
        0 <= k1 < p.dynamic_buffers@[i].offsets@.len(),
        0 <= k2 < p.dynamic_buffers@[i].offsets@.len(),
        k1 != k2,
    ensures
        p.dynamic_buffers@[i].offsets@[k1].1 != p.dynamic_buffers@[i].offsets@[k2].1,
{
    assert(p.dynamic_buffers@[i].wf_for(p.descriptors@));
    assert(p.dynamic_buffers@[i].offsets@[k1].1 == BIND_BUFFER_ALIGNMENT * k1);
    assert(p.dynamic_buffers@[i].offsets@[k2].1 == BIND_BUFFER_ALIGNMENT * k2);
}

/// An aggregator made in one frame has room for twice that frame's directly
/// valued entities, and keeps that buffer and capacity in the next frame,
/// however many entities it then holds.
pub proof fn law_growth(
    a: UniformResourceProvider,
    b: UniformResourceProvider,
    c: UniformResourceProvider,
    f1: Frame,
    f2: Frame,
    o1: FrameOutput,
    o2: FrameOutput,
    i: int,
)
    requires
        frame_updated(a, b, f1, o1),
        frame_updated(b, c, f2, o2),
        a.dynamic_buffers@.len() <= i < b.dynamic_buffers@.len(),
    ensures
        b.dynamic_buffers@[i].capacity == 2 * f1.direct_entities@.len(),
        c.dynamic_buffers@[i].resource == b.dynamic_buffers@[i].resource,
        c.dynamic_buffers@[i].capacity == b.dynamic_buffers@[i].capacity,
        c.dynamic_buffers@[i].count == f2.direct_entities@.len() || f2.direct_entities@.len() == 0,
{
    assert(dynamic_updated(a, b, f1.direct_entities@, o1.commands@));
    assert(dynamic_updated(b, c, f2.direct_entities@, o2.commands@));
    let y = c.dynamic_buffers@[i];
    if f2.direct_entities@.len() > 0 {
        assert(registers(y, f2.direct_entities@, y.binding as int));
    }
}

/// Resolving the same binding of the same asset twice gives one buffer:
/// the second call returns the handle of the first and changes nothing.
pub proof fn law_asset_dedup(
    a: UniformResourceProvider,
    b: UniformResourceProvider,
    c: UniformResourceProvider,
    c0: Seq<Command>,
    c1: Seq<Command>,
    c2: Seq<Command>,
    h: u64,
    n: Seq<char>,
    bytes1: Seq<u8>,
    bytes2: Seq<u8>,
    r1: u64,
    r2: u64,
)
    requires
        asset_resolved(a, b, c0, c1, h, n, bytes1, r1),
        asset_resolved(b, c, c1, c2, h, n, bytes2, r2),
    ensures
        r1 == r2,
        c == b,
        c2 == c1,
{
}

/// After a frame, an entity that is not among the frame's directly valued
/// entities is registered with no aggregator and has no offset in any.
pub proof fn law_registration_reset(
    a: UniformResourceProvider,
    b: UniformResourceProvider,
    f: Frame,
    out: FrameOutput,
    e: u64,
    i: int,
)
    requires
        frame_updated(a, b, f, out),
        !direct_ids_of(f).contains(e),
        0 <= i < b.dynamic_buffers@.len(),
    ensures
        !b.dynamic_buffers@[i].entities@.contains(e),
        forall|k: int| 0 <= k < b.dynamic_buffers@[i].offsets@.len() ==> (#[trigger] b.dynamic_buffers@[i].offsets@[k]).0 != e,
{
    assert(dynamic_updated(a, b, f.direct_entities@, out.commands@));
    let y = b.dynamic_buffers@[i];
    if f.direct_entities@.len() > 0 {
        assert(registers(y, f.direct_entities@, y.binding as int));
    }
    assert(assigns_offsets(y.offsets@, y.entities@));
    assert forall|k: int| 0 <= k < y.offsets@.len() implies (#[trigger] y.offsets@[k]).0 != e by {
        assert(y.offsets@[k].0 == y.entities@[k]);
    }
}

/// Two updates of one provider state with one frame issue the same
/// commands, leave the same caches and ask for the same shader flags.
pub proof fn law_update_deterministic(
    a: UniformResourceProvider,
    b1: UniformResourceProvider,
    b2: UniformResourceProvider,
    f: Frame,
    o1: FrameOutput,
    o2: FrameOutput,
)
    requires
        b1.wf(),
        b2.wf(),
        frame_updated(a, b1, f, o1),
        frame_updated(a, b2, f, o2),
    ensures
        views(o1.commands@) == views(o2.commands@),
        b1.caches() == b2.caches(),
        o1.shader_defs@ == o2.shader_defs@,
{
    let d = f.direct_entities@;
    assert(dynamic_updated(a, b1, d, o1.commands@));
    assert(dynamic_updated(a, b2, d, o2.commands@));
    assert(frame_commands(a, b1, f, o1));
    assert(frame_commands(a, b2, f, o2));
    let x1 = b1.dynamic_buffers@;
    let x2 = b2.dynamic_buffers@;
    let n = x1.len() as int;
    let m = missing_uniforms(a.dynamic_buffers@, a.descriptors@, a.descriptors@.len() as int);
    assert(x1.len() == x2.len());
    assert forall|i: int| 0 <= i < n implies x1[i].binding == x2[i].binding by {
        if i >= a.dynamic_buffers@.len() {
            assert(x1[i].binding == m[i - a.dynamic_buffers@.len()]);
            assert(x2[i].binding == m[i - a.dynamic_buffers@.len()]);
        }
    }
    assert forall|i: int| 0 <= i < n implies x1[i].count == x2[i].count && x1[i].name@ == x2[i].name@
        && packed_seq(x1[i].values@) == packed_seq(x2[i].values@) by {
        assert(x1[i].wf_for(b1.descriptors@));
        assert(x2[i].wf_for(b2.descriptors@));
        if d.len() > 0 {
            assert(registers(x1[i], d, x1[i].binding as int));
            assert(registers(x2[i], d, x2[i].binding as int));
            assert forall|k: int| 0 <= k < x1[i].values@.len() implies x1[i].values@[k]@ == x2[i].values@[k]@ by {
                assert(d[k].1.bindings@[x1[i].binding as int].bytes() == Some(x1[i].values@[k]@));
            }
        }
        assert(packed_seq(x1[i].values@) =~= packed_seq(x2[i].values@));
    }
    let descs = a.descriptors@;
    let ac = asset_pass(a.caches(), f, descs, f.asset_entities@.len() as int);
    let dc = direct_pass(ac.0, f, descs, f.direct_entities@.len() as int);
    let bb1 = before_alloc(a.dynamic_buffers@, x1);
    let bb2 = before_alloc(a.dynamic_buffers@, x2);
    lemma_alloc_steps_same(bb1, bb2, dc.0.next, n);
    assert forall|i: int| 0 <= i < n implies x1[i].resource == x2[i].resource by {
        if bb1[i].resource is None {
            lemma_alloc_steps_same(bb1, bb2, dc.0.next, i);
        }
    }
    lemma_pack_steps_same(x1, x2, alloc_steps(bb1, dc.0.next, n).0, n);
}

/// Two entities that resolve the same uniform binding of the same asset,
/// one after the other, share one buffer: the second creates nothing and
/// only binds its entity to the buffer made for the first.
pub proof fn law_asset_binding_dedup(
    c: CacheView,
    e1: u64,
    e2: u64,
    d: BindingDescriptor,
    b1: BindingData,
    b2: BindingData,
    h: u64,
)
    requires
        d.kind == BindKind::Uniform,
    ensures
        ({
            let s1 = binding_step(c, e1, d, b1, Some(h));
            let s2 = binding_step(s1.0, e2, d, b2, Some(h));
            let r = pair_lookup(s1.0.assets, h, d.name@)->Some_0;
            &&& pair_lookup(s1.0.assets, h, d.name@) is Some
            &&& s1.1.last() == CommandView::Bind { entity: e1, name: d.name@, resource: r }
            &&& s2.0 == s1.0
            &&& s2.1 == seq![CommandView::Bind { entity: e2, name: d.name@, resource: r }]
        }),
{
    let n = d.name@;
    if pair_lookup(c.assets, h, n) is None {
        let t = c.assets.push((h, n, c.next));
        lemma_pair_lookup_absent(c.assets, h, n, 0);
        assert forall|j: int| 0 <= j < c.assets.len() implies !(t[j].0 == h && t[j].1 == n) by {
            assert(t[j] == c.assets[j]);
        }
        lemma_pair_lookup_from(t, h, n, 0, c.assets.len() as int);
    }
}

/// Two entities that resolve a texture binding of the same texture asset,
/// one after the other, share one texture: the second creates nothing and
/// only binds its entity to the texture made for the first.
pub proof fn law_texture_binding_dedup(
    c: CacheView,
    e1: u64,
    e2: u64,
    d1: BindingDescriptor,
    d2: BindingDescriptor,
    b1: BindingData,
    b2: BindingData,
    asset: Option<u64>,
)
    requires
        d1.kind == BindKind::SampledTexture,
        d2.kind == BindKind::SampledTexture,
        b1.texture is Some,
        b2.texture == b1.texture,
    ensures
        ({
            let t = b1.texture->Some_0;
            let s1 = binding_step(c, e1, d1, b1, asset);
            let s2 = binding_step(s1.0, e2, d2, b2, asset);
            let r = value_of_key(s1.0.textures, t)->Some_0;
            &&& value_of_key(s1.0.textures, t) is Some
            &&& s1.1.last() == CommandView::Bind { entity: e1, name: d1.name@, resource: r }
            &&& s2.0 == s1.0
            &&& s2.1 == seq![CommandView::Bind { entity: e2, name: d2.name@, resource: r }]
        }),
{
    let t = b1.texture->Some_0;
    lemma_value_of_key_push(c.textures, (t, c.next), t);
}

} // verus!
