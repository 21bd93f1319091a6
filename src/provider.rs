use vstd::prelude::*;
use crate::binding::{BindKind, BindingData, BindingDescriptor, UniformValue, binding_fault, value_fault, value_fault_from};
use crate::command::{BufferUsage, Command, CommandView, views};
use crate::dynamic::{DynamicBuffer, assign_offsets, assigns_offsets, lemma_packs_is_packed_seq, pack, packed_seq, packs, values_fit};
use crate::lookup::{find_key, lemma_index_of_key, lemma_value_of_key_push, value_of_key};
use vstd::set_lib::{lemma_int_range, lemma_len_subset, set_int_range};
use crate::{BIND_BUFFER_ALIGNMENT, MAX_BINDINGS, MAX_ENTITIES};

verus! {

/// The uniform buffer that serves one binding of one shared asset.
#[derive(Debug)]
pub struct AssetResource {
    pub handle: u64,
    pub name: String,
    pub resource: u64,
}

/// Keeps the GPU resources of one data type in step with the entities that
/// carry it, frame after frame.
#[derive(Debug)]
pub struct UniformResourceProvider {
    /// The bindings that every value of the data type exposes.
    pub descriptors: Vec<BindingDescriptor>,
    /// One aggregator per uniform binding seen on a directly valued entity.
    pub dynamic_buffers: Vec<DynamicBuffer>,
    /// The buffer of each (asset handle, binding name) pair seen so far.
    pub asset_resources: Vec<AssetResource>,
    /// The texture created for each texture asset.
    pub texture_resources: Vec<(u64, u64)>,
    /// The sampler created for each texture asset.
    pub sampler_resources: Vec<(u64, u64)>,
    /// The next resource handle to hand out.
    pub next_resource: u64,
}

/// From index `at` on, `cmds` hold exactly: the creation of uniform buffer
/// `r`, one alignment unit large; the creation of staging buffer `r + 1`
/// holding `bytes`; the copy of those bytes into `r`; the release of the
/// staging buffer.
pub open spec fn uploads_new_buffer(cmds: Seq<Command>, at: int, r: u64, bytes: Seq<u8>) -> bool {
    &&& cmds.len() == at + 4
    &&& cmds[at] == Command::CreateBuffer {
        resource: r,
        size: BIND_BUFFER_ALIGNMENT,
        usage: BufferUsage::CopyDstUniform,
    }
    &&& cmds[at + 1] matches Command::CreateBufferMapped { resource, data } && resource == r + 1
        && data@ == bytes
    &&& cmds[at + 2] == Command::CopyBufferToBuffer {
        source: (r + 1) as u64,
        source_offset: 0,
        destination: r,
        destination_offset: 0,
        size: bytes.len() as u64,
    }
    &&& cmds[at + 3] == Command::RemoveBuffer { resource: (r + 1) as u64 }
}

/// From index `at` on, `cmds` hold exactly: the creation of staging buffer
/// `s` holding the packed values of aggregator `b`; the copy of the whole
/// staging buffer into `b`'s buffer; the release of the staging buffer.
pub open spec fn uploads_packed(cmds: Seq<Command>, at: int, s: u64, b: DynamicBuffer) -> bool {
    &&& cmds.len() == at + 3
    &&& cmds[at] matches Command::CreateBufferMapped { resource, data } && resource == s && packs(
        data@,
        b.values@,
    )
    &&& cmds[at + 1] == Command::CopyBufferToBuffer {
        source: s,
        source_offset: 0,
        destination: b.resource->Some_0,
        destination_offset: 0,
        size: (BIND_BUFFER_ALIGNMENT * b.count) as u64,
    }
    &&& cmds[at + 2] == Command::RemoveBuffer { resource: s }
}

/// `b` is aggregator `a` once its buffer exists: a buffer it had is kept
/// with its capacity; one it lacked is made with room for twice its count.
pub open spec fn allocated_after(a: DynamicBuffer, b: DynamicBuffer) -> bool {
    &&& b.resource is Some
    &&& b == (DynamicBuffer { resource: b.resource, capacity: b.capacity, ..a })
    &&& a.resource is Some ==> b.resource == a.resource && b.capacity == a.capacity
    &&& a.resource is None ==> b.capacity == 2 * a.count
}

/// `b` is aggregator `a` once allocated and packed: every registered entity
/// has the offset of its slot.
pub open spec fn packed_after(a: DynamicBuffer, b: DynamicBuffer) -> bool {
    &&& b.resource is Some
    &&& b == (DynamicBuffer { resource: b.resource, capacity: b.capacity, offsets: b.offsets, ..a })
    &&& a.resource is Some ==> b.resource == a.resource && b.capacity == a.capacity
    &&& a.resource is None ==> b.capacity == 2 * a.count
    &&& assigns_offsets(b.offsets@, a.entities@)
}

/// At index `at`, `cmds` hold the upload of aggregator `b`'s packed values
/// into its buffer through staging buffer `s`.
pub open spec fn packs_at(cmds: Seq<Command>, at: int, s: u64, b: DynamicBuffer) -> bool {
    &&& 0 <= at
    &&& at + 3 <= cmds.len()
    &&& cmds[at] matches Command::CreateBufferMapped { resource, data } && resource == s && packs(
        data@,
        b.values@,
    )
    &&& cmds[at + 1] == Command::CopyBufferToBuffer {
        source: s,
        source_offset: 0,
        destination: b.resource->Some_0,
        destination_offset: 0,
        size: (BIND_BUFFER_ALIGNMENT * b.count) as u64,
    }
    &&& cmds[at + 2] == Command::RemoveBuffer { resource: s }
}

/// `cmds` upload aggregator `b`'s packed values into its buffer.
pub open spec fn uploaded(cmds: Seq<Command>, b: DynamicBuffer) -> bool {
    exists|at: int, s: u64| #[trigger] packs_at(cmds, at, s, b)
}

/// An upload stays in the commands as more are appended.
pub proof fn lemma_uploaded_persist(c1: Seq<Command>, c2: Seq<Command>, b: DynamicBuffer)
    requires
        uploaded(c1, b),
        c1.is_prefix_of(c2),
    ensures
        uploaded(c2, b),
{
    let (at, s) = choose|at: int, s: u64| #[trigger] packs_at(c1, at, s, b);
    assert(c2.subrange(0, c1.len() as int)[at] == c2[at]);
    assert(c2.subrange(0, c1.len() as int)[at + 1] == c2[at + 1]);
    assert(c2.subrange(0, c1.len() as int)[at + 2] == c2[at + 2]);
    assert(packs_at(c2, at, s, b));
}

/// The entities of `direct`, in order.
pub open spec fn direct_ids(direct: Seq<(u64, UniformValue)>) -> Seq<u64> {
    direct.map_values(|p: (u64, UniformValue)| p.0)
}

/// Every directly valued entity offers bytes that fit one alignment unit
/// for binding `j`.
pub open spec fn uniform_ready(direct: Seq<(u64, UniformValue)>, j: int) -> bool {
    forall|k: int|
        0 <= k < direct.len() ==> {
            &&& 0 <= j < (#[trigger] direct[k]).1.bindings@.len()
            &&& direct[k].1.bindings@[j].bytes() matches Some(x) && x.len() <= BIND_BUFFER_ALIGNMENT
        }
}

/// `ents` and `vals` hold, in order, the entities of `direct` and their bytes
/// for binding `j`.
pub open spec fn registers_entities(
    ents: Seq<u64>,
    vals: Seq<Vec<u8>>,
    direct: Seq<(u64, UniformValue)>,
    j: int,
) -> bool {
    &&& ents == direct_ids(direct)
    &&& vals.len() == direct.len()
    &&& forall|k: int| 0 <= k < vals.len() ==> direct[k].1.bindings@[j].bytes() == Some((#[trigger] vals[k])@)
}

/// The aggregator holds this frame's registrations of binding `j`.
pub open spec fn registers(b: DynamicBuffer, direct: Seq<(u64, UniformValue)>, j: int) -> bool {
    &&& registers_entities(b.entities@, b.values@, direct, j)
    &&& b.count == direct.len()
}

/// Index of the aggregator of binding `j`, or -1.
pub open spec fn buffer_index(bufs: Seq<DynamicBuffer>, j: usize) -> int {
    if exists|i: int| 0 <= i < bufs.len() && bufs[i].binding == j {
        choose|i: int| 0 <= i < bufs.len() && bufs[i].binding == j
    } else {
        -1
    }
}

/// Aggregators are found by their binding, which no other one has.
pub proof fn lemma_buffer_index(bufs: Seq<DynamicBuffer>, i: int)
    requires
        0 <= i < bufs.len(),
        forall|a: int, b: int|
            0 <= a < bufs.len() && 0 <= b < bufs.len() && a != b ==> #[trigger] bufs[a].binding
                != #[trigger] bufs[b].binding,
    ensures
        buffer_index(bufs, bufs[i].binding) == i,
{
    let c = choose|c: int| 0 <= c < bufs.len() && bufs[c].binding == bufs[i].binding;
    if c != i {
        assert(bufs[c].binding != bufs[i].binding);
    }
}

/// Aggregators of distinct bindings among `d` are at most `d`.
pub proof fn lemma_buffers_bounded(bufs: Seq<DynamicBuffer>, d: int)
    requires
        0 <= d,
        forall|i: int| 0 <= i < bufs.len() ==> 0 <= (#[trigger] bufs[i]).binding < d,
        forall|a: int, b: int|
            0 <= a < bufs.len() && 0 <= b < bufs.len() && a != b ==> #[trigger] bufs[a].binding
                != #[trigger] bufs[b].binding,
    ensures
        bufs.len() <= d,
{
    let s = bufs.map_values(|b: DynamicBuffer| b.binding as int);
    assert forall|a: int, b: int| 0 <= a < s.len() && 0 <= b < s.len() && a != b implies s[a] != s[b] by {
        assert(bufs[a].binding != bufs[b].binding);
    }
    s.unique_seq_to_set();
    lemma_int_range(0, d);
    assert forall|x: int| s.to_set().contains(x) implies set_int_range(0, d).contains(x) by {
        let i = choose|i: int| 0 <= i < s.len() && s[i] == x;
        assert(bufs[i].binding < d);
    }
    lemma_len_subset(s.to_set(), set_int_range(0, d));
}

/// The outcome of resolving binding `n` of asset `h` from `a` to `b`, with
/// commands going from `c0` to `c1` and `r` returned: a pair seen before
/// gives its buffer and changes nothing; a new pair gets a fresh buffer,
/// filled with `bytes`.
pub open spec fn asset_resolved(
    a: UniformResourceProvider,
    b: UniformResourceProvider,
    c0: Seq<Command>,
    c1: Seq<Command>,
    h: u64,
    n: Seq<char>,
    bytes: Seq<u8>,
    r: u64,
) -> bool {
    &&& b.asset_resource(h, n) == Some(r)
    &&& a.asset_resource(h, n) matches Some(x) ==> r == x && b == a && c1 == c0
    &&& a.asset_resource(h, n) is None ==> {
        &&& r == a.next_resource
        &&& b.asset_resources@.len() == a.asset_resources@.len() + 1
        &&& c1.subrange(0, c0.len() as int) == c0
        &&& uploads_new_buffer(c1, c0.len() as int, r, bytes)
    }
}

/// The asset cache as (handle, binding name, buffer) triples.
pub open spec fn asset_view(s: Seq<AssetResource>) -> Seq<(u64, Seq<char>, u64)> {
    s.map_values(|a: AssetResource| (a.handle, a.name@, a.resource))
}

/// The buffer of the first triple from index `i` on whose pair is `(h, n)`.
pub open spec fn pair_lookup_from(s: Seq<(u64, Seq<char>, u64)>, h: u64, n: Seq<char>, i: int) -> Option<u64>
    decreases s.len() - i,
{
    if i < 0 || i >= s.len() {
        None
    } else if s[i].0 == h && s[i].1 == n {
        Some(s[i].2)
    } else {
        pair_lookup_from(s, h, n, i + 1)
    }
}

/// The buffer of the first triple whose pair is `(h, n)`.
pub open spec fn pair_lookup(s: Seq<(u64, Seq<char>, u64)>, h: u64, n: Seq<char>) -> Option<u64> {
    pair_lookup_from(s, h, n, 0)
}

/// The search finds the first matching triple, or nothing if none matches.
pub proof fn lemma_pair_lookup_from(s: Seq<(u64, Seq<char>, u64)>, h: u64, n: Seq<char>, i: int, k: int)
    requires
        0 <= i <= k <= s.len(),
        forall|j: int| i <= j < k ==> !(s[j].0 == h && s[j].1 == n),
    ensures
        k < s.len() && s[k].0 == h && s[k].1 == n ==> pair_lookup_from(s, h, n, i) == Some(s[k].2),
        (forall|j: int| k <= j < s.len() ==> !(s[j].0 == h && s[j].1 == n)) ==> pair_lookup_from(s, h, n, i) is None,
    decreases k - i,
{
    if i < k {
        lemma_pair_lookup_from(s, h, n, i + 1, k);
    } else {
        lemma_pair_lookup_none(s, h, n, i);
    }
}

/// Nothing found from index `i` on means no triple there matches.
pub proof fn lemma_pair_lookup_absent(s: Seq<(u64, Seq<char>, u64)>, h: u64, n: Seq<char>, i: int)
    requires
        0 <= i <= s.len(),
        pair_lookup_from(s, h, n, i) is None,
    ensures
        forall|j: int| i <= j < s.len() ==> !(s[j].0 == h && s[j].1 == n),
    decreases s.len() - i,
{
    if i < s.len() {
        lemma_pair_lookup_absent(s, h, n, i + 1);
    }
}

/// No match from index `i` on gives nothing.
pub proof fn lemma_pair_lookup_none(s: Seq<(u64, Seq<char>, u64)>, h: u64, n: Seq<char>, i: int)
    requires
        0 <= i <= s.len(),
    ensures
        (forall|j: int| i <= j < s.len() ==> !(s[j].0 == h && s[j].1 == n)) ==> pair_lookup_from(s, h, n, i) is None,
    decreases s.len() - i,
{
    if i < s.len() {
        lemma_pair_lookup_none(s, h, n, i + 1);
    }
}

/// The caches and the next handle, as plain sequences.
pub struct CacheView {
    pub assets: Seq<(u64, Seq<char>, u64)>,
    pub textures: Seq<(u64, u64)>,
    pub samplers: Seq<(u64, u64)>,
    pub next: u64,
}

/// The caches after binding `d` of entity `e`, with data `b`, is resolved
/// from caches `c`, and the commands that resolving it issues: a new asset
/// pair gets a fresh buffer filled with the bytes; a new texture or sampler
/// is created; a cache hit creates nothing; then the entity is bound. A
/// uniform binding of a directly valued entity issues nothing here.
pub open spec fn binding_step(
    c: CacheView,
    e: u64,
    d: BindingDescriptor,
    b: BindingData,
    asset: Option<u64>,
) -> (CacheView, Seq<CommandView>) {
    let n = d.name@;
    match d.kind {
        BindKind::Uniform => match asset {
            None => (c, Seq::empty()),
            Some(h) => match pair_lookup(c.assets, h, n) {
                Some(r) => (c, seq![CommandView::Bind { entity: e, name: n, resource: r }]),
                None => {
                    let r = c.next;
                    let bytes = b.bytes()->Some_0;
                    (
                        CacheView { assets: c.assets.push((h, n, r)), next: (r + 2) as u64, ..c },
                        seq![
                            CommandView::CreateBuffer { resource: r, size: BIND_BUFFER_ALIGNMENT, usage: BufferUsage::CopyDstUniform },
                            CommandView::CreateBufferMapped { resource: (r + 1) as u64, data: bytes },
                            CommandView::CopyBufferToBuffer {
                                source: (r + 1) as u64,
                                source_offset: 0,
                                destination: r,
                                destination_offset: 0,
                                size: bytes.len() as u64,
                            },
                            CommandView::RemoveBuffer { resource: (r + 1) as u64 },
                            CommandView::Bind { entity: e, name: n, resource: r },
                        ],
                    )
                },
            },
        },
        BindKind::SampledTexture => {
            let t = b.texture->Some_0;
            match value_of_key(c.textures, t) {
                Some(r) => (c, seq![CommandView::Bind { entity: e, name: n, resource: r }]),
                None => (
                    CacheView { textures: c.textures.push((t, c.next)), next: (c.next + 1) as u64, ..c },
                    seq![
                        CommandView::CreateTexture { resource: c.next, texture: t },
                        CommandView::Bind { entity: e, name: n, resource: c.next },
                    ],
                ),
            }
        },
        BindKind::Sampler => {
            let t = b.texture->Some_0;
            match value_of_key(c.samplers, t) {
                Some(r) => (c, seq![CommandView::Bind { entity: e, name: n, resource: r }]),
                None => (
                    CacheView { samplers: c.samplers.push((t, c.next)), next: (c.next + 1) as u64, ..c },
                    seq![
                        CommandView::CreateSampler { resource: c.next, texture: t },
                        CommandView::Bind { entity: e, name: n, resource: c.next },
                    ],
                ),
            }
        },
        BindKind::Other => (c, Seq::empty()),
    }
}

/// The caches and commands after the first `j` bindings of a value are
/// resolved, one after the other, from caches `c`.
pub open spec fn entity_steps(
    c: CacheView,
    e: u64,
    descs: Seq<BindingDescriptor>,
    bindings: Seq<BindingData>,
    asset: Option<u64>,
    j: int,
) -> (CacheView, Seq<CommandView>)
    decreases j,
{
    if j <= 0 {
        (c, Seq::empty())
    } else {
        let prev = entity_steps(c, e, descs, bindings, asset, j - 1);
        let step = binding_step(prev.0, e, descs[j - 1], bindings[j - 1], asset);
        (step.0, prev.1 + step.1)
    }
}

/// No directly valued entity appears twice.
pub open spec fn ids_distinct(s: Seq<u64>) -> bool {
    s.no_duplicates()
}

/// No two entries share a key.
pub open spec fn keys_unique(s: Seq<(u64, u64)>) -> bool {
    forall|a: int, b: int| 0 <= a < s.len() && 0 <= b < s.len() && a != b ==> #[trigger] s[a].0 != #[trigger] s[b].0
}

/// The next handle and the commands after the first `i` aggregators get
/// their buffers, with handles from `next`: one that has a buffer issues
/// nothing; one that has none gets a buffer of twice its count in
/// alignment units, published under its name.
pub open spec fn alloc_steps(bufs: Seq<DynamicBuffer>, next: u64, i: int) -> (u64, Seq<CommandView>)
    decreases i,
{
    if i <= 0 {
        (next, Seq::empty())
    } else {
        let prev = alloc_steps(bufs, next, i - 1);
        let b = bufs[i - 1];
        if b.resource is Some {
            prev
        } else {
            (
                (prev.0 + 1) as u64,
                prev.1 + seq![
                    CommandView::CreateBuffer {
                        resource: prev.0,
                        size: (BIND_BUFFER_ALIGNMENT * ((2 * b.count) as u64)) as u64,
                        usage: BufferUsage::CopyDstUniform,
                    },
                    CommandView::SetNamedResource { name: b.name@, resource: prev.0 },
                ],
            )
        }
    }
}

/// The next handle and the commands after the first `i` aggregators upload
/// their packed values through staging buffers with handles from `next`.
pub open spec fn pack_steps(bufs: Seq<DynamicBuffer>, next: u64, i: int) -> (u64, Seq<CommandView>)
    decreases i,
{
    if i <= 0 {
        (next, Seq::empty())
    } else {
        let prev = pack_steps(bufs, next, i - 1);
        let b = bufs[i - 1];
        let s = prev.0;
        (
            (s + 1) as u64,
            prev.1 + seq![
                CommandView::CreateBufferMapped { resource: s, data: packed_seq(b.values@) },
                CommandView::CopyBufferToBuffer {
                    source: s,
                    source_offset: 0,
                    destination: b.resource->Some_0,
                    destination_offset: 0,
                    size: (BIND_BUFFER_ALIGNMENT * b.count) as u64,
                },
                CommandView::RemoveBuffer { resource: s },
            ],
        )
    }
}

/// The aggregators as they stand before allocation in a frame that went
/// from aggregators `a` to `b`: those of `a` with the buffer they had, the
/// new ones with none.
pub open spec fn before_alloc(a: Seq<DynamicBuffer>, b: Seq<DynamicBuffer>) -> Seq<DynamicBuffer> {
    Seq::new(b.len(), |i: int| DynamicBuffer { resource: if i < a.len() { a[i].resource } else { None }, ..b[i] })
}

/// The allocations depend only on whether each aggregator has a buffer,
/// and on its count and name.
pub proof fn lemma_alloc_steps_same(b1: Seq<DynamicBuffer>, b2: Seq<DynamicBuffer>, next: u64, i: int)
    requires
        0 <= i <= b1.len(),
        i <= b2.len(),
        forall|k: int| 0 <= k < i ==> (b1[k].resource is None) == (b2[k].resource is None) && b1[k].count == b2[k].count && b1[k].name@ == b2[k].name@,
    ensures
        alloc_steps(b1, next, i) == alloc_steps(b2, next, i),
    decreases i,
{
    if i > 0 {
        lemma_alloc_steps_same(b1, b2, next, i - 1);
    }
}

/// The uploads depend only on the aggregators' values, buffers and counts.
pub proof fn lemma_pack_steps_same(b1: Seq<DynamicBuffer>, b2: Seq<DynamicBuffer>, next: u64, i: int)
    requires
        0 <= i <= b1.len(),
        i <= b2.len(),
        forall|k: int| 0 <= k < i ==> packed_seq(b1[k].values@) == packed_seq(b2[k].values@) && b1[k].resource == b2[k].resource && b1[k].count == b2[k].count,
    ensures
        pack_steps(b1, next, i) == pack_steps(b2, next, i),
    decreases i,
{
    if i > 0 {
        lemma_pack_steps_same(b1, b2, next, i - 1);
    }
}

/// A copy of `v`.
pub fn copy_bytes(v: &Vec<u8>) -> (r: Vec<u8>)
    ensures
        r@ == v@,
{
    let mut r: Vec<u8> = Vec::new();
    let mut i: usize = 0;
    while i < v.len()
        invariant
            i <= v@.len(),
            r@ == v@.take(i as int),
        decreases v@.len() - i,
    {
        r.push(v[i]);
        i = i + 1;
        assert(r@ =~= v@.take(i as int));
    }
    assert(v@.take(i as int) =~= v@);
    r
}

/// No two descriptors share a name.
pub open spec fn names_distinct(descs: Seq<BindingDescriptor>) -> bool {
    forall|a: int, b: int|
        0 <= a < descs.len() && 0 <= b < descs.len() && a != b ==> #[trigger] descs[a].name@
            != #[trigger] descs[b].name@
}

/// Whether entry `i` is the one of the pair `(h, n)`.
pub open spec fn asset_entry_is(s: Seq<AssetResource>, i: int, h: u64, n: Seq<char>) -> bool {
    0 <= i < s.len() && s[i].handle == h && s[i].name@ == n
}

/// No pair has two entries.
pub open spec fn asset_keys_unique(s: Seq<AssetResource>) -> bool {
    forall|a: int, b: int|
        #[trigger] asset_entry_is(s, a, s[b].handle, s[b].name@) && 0 <= b < s.len() ==> a == b
}

/// The buffer recorded for the pair `(h, n)`.
pub open spec fn asset_lookup(s: Seq<AssetResource>, h: u64, n: Seq<char>) -> Option<u64> {
    if exists|i: int| asset_entry_is(s, i, h, n) {
        Some(s[choose|i: int| asset_entry_is(s, i, h, n)].resource)
    } else {
        None
    }
}

/// With unique keys, a lookup finds the one entry of its pair.
pub proof fn lemma_asset_lookup_at(s: Seq<AssetResource>, i: int, h: u64, n: Seq<char>)
    requires
        asset_keys_unique(s),
        asset_entry_is(s, i, h, n),
    ensures
        asset_lookup(s, h, n) == Some(s[i].resource),
{
    let c = choose|c: int| asset_entry_is(s, c, h, n);
    assert(asset_entry_is(s, c, s[i].handle, s[i].name@));
}

impl DynamicBuffer {
    /// The aggregator's own invariant, for binding `j` of `descs`.
    pub open spec fn wf_for(&self, descs: Seq<BindingDescriptor>) -> bool {
        &&& 0 <= self.binding < descs.len()
        &&& descs[self.binding as int].kind == BindKind::Uniform
        &&& self.name@ == descs[self.binding as int].name@
        &&& self.count == self.entities@.len()
        &&& self.values@.len() == self.entities@.len()
        &&& self.entities@.len() <= MAX_ENTITIES
        &&& values_fit(self.values@)
        &&& self.offsets@.len() <= MAX_ENTITIES
        &&& forall|k: int|
            0 <= k < self.offsets@.len() ==> (#[trigger] self.offsets@[k]).1 == BIND_BUFFER_ALIGNMENT
                * k
        &&& self.resource is None ==> self.capacity == 0
        &&& self.capacity <= 2 * MAX_ENTITIES
    }
}

impl UniformResourceProvider {
    /// The provider's invariant.
    pub open spec fn wf(&self) -> bool {
        &&& self.descriptors@.len() <= MAX_BINDINGS
        &&& names_distinct(self.descriptors@)
        &&& forall|i: int|
            0 <= i < self.dynamic_buffers@.len() ==> (#[trigger] self.dynamic_buffers@[i]).wf_for(
                self.descriptors@,
            )
        &&& forall|a: int, b: int|
            0 <= a < self.dynamic_buffers@.len() && 0 <= b < self.dynamic_buffers@.len() && a
                != b ==> #[trigger] self.dynamic_buffers@[a].binding
                != #[trigger] self.dynamic_buffers@[b].binding
        &&& self.dynamic_buffers@.len() <= self.descriptors@.len()
        &&& asset_keys_unique(self.asset_resources@)
        &&& keys_unique(self.texture_resources@)
        &&& keys_unique(self.sampler_resources@)
    }

    /// `b` keeps every cache entry of `a`.
    pub open spec fn cache_extends(a: Self, b: Self) -> bool {
        &&& forall|h: u64, n: Seq<char>| #[trigger] a.asset_resource(h, n) is Some ==> b.asset_resource(h, n) == a.asset_resource(h, n)
        &&& forall|t: u64| #[trigger] value_of_key(a.texture_resources@, t) is Some ==> value_of_key(b.texture_resources@, t) == value_of_key(a.texture_resources@, t)
        &&& forall|t: u64| #[trigger] value_of_key(a.sampler_resources@, t) is Some ==> value_of_key(b.sampler_resources@, t) == value_of_key(a.sampler_resources@, t)
    }

    /// Entity `e` is bound, in `cmds`, to the resource that `p` resolves for
    /// binding `d` with data `b`. A directly valued entity (no `asset`) is
    /// bound through its aggregator, not here.
    pub open spec fn binds(
        p: Self,
        cmds: Seq<Command>,
        e: u64,
        d: BindingDescriptor,
        b: BindingData,
        asset: Option<u64>,
    ) -> bool {
        match d.kind {
            BindKind::Uniform => asset matches Some(h) ==> p.asset_resource(h, d.name@) matches Some(r)
                && cmds.contains(Command::Bind { entity: e, name: d.name, resource: r }),
            BindKind::SampledTexture => b.texture matches Some(t) && value_of_key(p.texture_resources@, t)
                matches Some(r) && cmds.contains(Command::Bind { entity: e, name: d.name, resource: r }),
            BindKind::Sampler => b.texture matches Some(t) && value_of_key(p.sampler_resources@, t)
                matches Some(r) && cmds.contains(Command::Bind { entity: e, name: d.name, resource: r }),
            BindKind::Other => false,
        }
    }

    /// Equal caches extend each other.
    pub proof fn lemma_cache_extends_refl(a: Self, b: Self)
        requires
            a.asset_resources == b.asset_resources,
            a.texture_resources == b.texture_resources,
            a.sampler_resources == b.sampler_resources,
        ensures
            Self::cache_extends(a, b),
    {
    }

    /// Extending caches is transitive.
    pub proof fn lemma_cache_extends_trans(a: Self, b: Self, c: Self)
        requires
            Self::cache_extends(a, b),
            Self::cache_extends(b, c),
        ensures
            Self::cache_extends(a, c),
    {
        assert forall|h: u64, n: Seq<char>| #[trigger] a.asset_resource(h, n) is Some implies c.asset_resource(h, n) == a.asset_resource(h, n) by {
            assert(b.asset_resource(h, n) is Some);
        }
        assert forall|t: u64| #[trigger] value_of_key(a.texture_resources@, t) is Some implies value_of_key(c.texture_resources@, t) == value_of_key(a.texture_resources@, t) by {
            assert(value_of_key(b.texture_resources@, t) is Some);
        }
        assert forall|t: u64| #[trigger] value_of_key(a.sampler_resources@, t) is Some implies value_of_key(c.sampler_resources@, t) == value_of_key(a.sampler_resources@, t) by {
            assert(value_of_key(b.sampler_resources@, t) is Some);
        }
    }

    /// A binding stays bound as caches and commands grow.
    pub proof fn lemma_binds_persist(
        p: Self,
        q: Self,
        c1: Seq<Command>,
        c2: Seq<Command>,
        e: u64,
        d: BindingDescriptor,
        b: BindingData,
        asset: Option<u64>,
    )
        requires
            Self::binds(p, c1, e, d, b, asset),
            Self::cache_extends(p, q),
            c1.is_prefix_of(c2),
        ensures
            Self::binds(q, c2, e, d, b, asset),
    {
        assert forall|x: Command| c1.contains(x) implies c2.contains(x) by {
            let i = choose|i: int| 0 <= i < c1.len() && c1[i] == x;
            assert(c2.subrange(0, c1.len() as int)[i] == c2[i]);
        }
        match d.kind {
            BindKind::Uniform => {
                if let Some(h) = asset {
                    assert(p.asset_resource(h, d.name@) is Some);
                }
            },
            BindKind::SampledTexture => {
                assert(value_of_key(p.texture_resources@, b.texture->Some_0) is Some);
            },
            BindKind::Sampler => {
                assert(value_of_key(p.sampler_resources@, b.texture->Some_0) is Some);
            },
            BindKind::Other => {},
        }
    }

    /// The caches and the next handle, as plain sequences.
    pub open spec fn caches(&self) -> CacheView {
        CacheView {
            assets: asset_view(self.asset_resources@),
            textures: self.texture_resources@,
            samplers: self.sampler_resources@,
            next: self.next_resource,
        }
    }

    /// The buffer recorded for the binding `n` of asset `h`.
    pub open spec fn asset_resource(&self, h: u64, n: Seq<char>) -> Option<u64> {
        asset_lookup(self.asset_resources@, h, n)
    }

    /// A provider for a data type with the given bindings, with empty caches.
    pub fn new(descriptors: Vec<BindingDescriptor>) -> (r: Self)
        requires
            descriptors@.len() <= MAX_BINDINGS,
            names_distinct(descriptors@),
        ensures
            r.wf(),
            r.descriptors@ == descriptors@,
            r.dynamic_buffers@.len() == 0,
            r.asset_resources@.len() == 0,
            r.texture_resources@.len() == 0,
            r.sampler_resources@.len() == 0,
            r.next_resource == 0,
    {
        UniformResourceProvider {
            descriptors,
            dynamic_buffers: Vec::new(),
            asset_resources: Vec::new(),
            texture_resources: Vec::new(),
            sampler_resources: Vec::new(),
            next_resource: 0,
        }
    }

    fn fresh(&mut self) -> (r: u64)
        requires
            old(self).next_resource < u64::MAX,
        ensures
            r == old(self).next_resource,
            *final(self) == (UniformResourceProvider { next_resource: (r + 1) as u64, ..*old(self) }),
    {
        let r = self.next_resource;
        self.next_resource = r + 1;
        r
    }

    /// The texture of texture asset `t`, created on first use.
    pub fn resolve_texture(&mut self, t: u64, cmds: &mut Vec<Command>) -> (r: u64)
        requires
            old(self).wf(),
            old(self).next_resource < u64::MAX,
        ensures
            final(self).wf(),
            value_of_key(old(self).texture_resources@, t) matches Some(x) ==> {
                &&& r == x
                &&& *final(self) == *old(self)
                &&& final(cmds)@ == old(cmds)@
            },
            value_of_key(old(self).texture_resources@, t) is None ==> {
                &&& r == old(self).next_resource
                &&& *final(self) == (UniformResourceProvider {
                    texture_resources: final(self).texture_resources,
                    next_resource: (r + 1) as u64,
                    ..*old(self)
                })
                &&& final(self).texture_resources@ == old(self).texture_resources@.push((t, r))
                &&& final(cmds)@ == old(cmds)@.push(Command::CreateTexture { resource: r, texture: t })
            },
            value_of_key(final(self).texture_resources@, t) == Some(r),
            Self::cache_extends(*old(self), *final(self)),
    {
        match find_key(&self.texture_resources, t) {
            Some(i) => self.texture_resources[i].1,
            None => {
                let r = self.fresh();
                proof {
                    let before = self.texture_resources@;
                    lemma_index_of_key(before, t);
                    assert forall|a: int, b: int| 0 <= a < before.push((t, r)).len() && 0 <= b < before.push((t, r)).len() && a != b
                        implies #[trigger] before.push((t, r))[a].0 != #[trigger] before.push((t, r))[b].0 by {
                        if a < before.len() && b < before.len() {
                            assert(before[a].0 != before[b].0);
                        } else if a < before.len() {
                            assert(before[a].0 != t);
                        } else {
                            assert(before[b].0 != t);
                        }
                    }
                    assert forall|x: u64| #[trigger] value_of_key(before, x) is Some implies value_of_key(before.push((t, r)), x) == value_of_key(before, x) by {
                        lemma_value_of_key_push(before, (t, r), x);
                    }
                    lemma_value_of_key_push(before, (t, r), t);
                }
                self.texture_resources.push((t, r));
                cmds.push(Command::CreateTexture { resource: r, texture: t });
                r
            },
        }
    }

    /// The sampler of texture asset `t`, created on first use.
    pub fn resolve_sampler(&mut self, t: u64, cmds: &mut Vec<Command>) -> (r: u64)
        requires
            old(self).wf(),
            old(self).next_resource < u64::MAX,
        ensures
            final(self).wf(),
            value_of_key(old(self).sampler_resources@, t) matches Some(x) ==> {
                &&& r == x
                &&& *final(self) == *old(self)
                &&& final(cmds)@ == old(cmds)@
            },
            value_of_key(old(self).sampler_resources@, t) is None ==> {
                &&& r == old(self).next_resource
                &&& *final(self) == (UniformResourceProvider {
                    sampler_resources: final(self).sampler_resources,
                    next_resource: (r + 1) as u64,
                    ..*old(self)
                })
                &&& final(self).sampler_resources@ == old(self).sampler_resources@.push((t, r))
                &&& final(cmds)@ == old(cmds)@.push(Command::CreateSampler { resource: r, texture: t })
            },
            value_of_key(final(self).sampler_resources@, t) == Some(r),
            Self::cache_extends(*old(self), *final(self)),
    {
        match find_key(&self.sampler_resources, t) {
            Some(i) => self.sampler_resources[i].1,
            None => {
                let r = self.fresh();
                proof {
                    let before = self.sampler_resources@;
                    lemma_index_of_key(before, t);
                    assert forall|a: int, b: int| 0 <= a < before.push((t, r)).len() && 0 <= b < before.push((t, r)).len() && a != b
                        implies #[trigger] before.push((t, r))[a].0 != #[trigger] before.push((t, r))[b].0 by {
                        if a < before.len() && b < before.len() {
                            assert(before[a].0 != before[b].0);
                        } else if a < before.len() {
                            assert(before[a].0 != t);
                        } else {
                            assert(before[b].0 != t);
                        }
                    }
                    assert forall|x: u64| #[trigger] value_of_key(before, x) is Some implies value_of_key(before.push((t, r)), x) == value_of_key(before, x) by {
                        lemma_value_of_key_push(before, (t, r), x);
                    }
                    lemma_value_of_key_push(before, (t, r), t);
                }
                self.sampler_resources.push((t, r));
                cmds.push(Command::CreateSampler { resource: r, texture: t });
                r
            },
        }
    }

    fn find_asset(&self, h: u64, name: &String) -> (r: Option<usize>)
        ensures
            r matches Some(i) ==> asset_entry_is(self.asset_resources@, i as int, h, name@)
                && forall|j: int| 0 <= j < i ==> !asset_entry_is(self.asset_resources@, j, h, name@),
            r is None ==> forall|i: int| !asset_entry_is(self.asset_resources@, i, h, name@),
    {
        let mut i: usize = 0;
        while i < self.asset_resources.len()
            invariant
                0 <= i <= self.asset_resources@.len(),
                forall|j: int| 0 <= j < i ==> !asset_entry_is(self.asset_resources@, j, h, name@),
            decreases self.asset_resources@.len() - i,
        {
            if self.asset_resources[i].handle == h && self.asset_resources[i].name == *name {
                return Some(i);
            }
            i = i + 1;
        }
        None
    }

    /// The uniform buffer of binding `name` of asset `h`. On first use it is
    /// created one alignment unit large and `bytes` are uploaded into it
    /// through a staging buffer; later uses reuse it and upload nothing.
    pub fn ensure_asset_resource(
        &mut self,
        h: u64,
        name: &String,
        bytes: &Vec<u8>,
        cmds: &mut Vec<Command>,
    ) -> (r: u64)
        requires
            old(self).wf(),
            old(self).next_resource < u64::MAX - 1,
        ensures
            final(self).wf(),
            final(self).asset_resource(h, name@) == Some(r),
            Self::cache_extends(*old(self), *final(self)),
            asset_resolved(*old(self), *final(self), old(cmds)@, final(cmds)@, h, name@, bytes@, r),
            pair_lookup(old(self).caches().assets, h, name@) matches Some(x) ==> {
                &&& r == x
                &&& *final(self) == *old(self)
                &&& final(cmds)@ == old(cmds)@
            },
            pair_lookup(old(self).caches().assets, h, name@) is None ==> {
                &&& r == old(self).next_resource
                &&& final(self).caches() == (CacheView {
                    assets: old(self).caches().assets.push((h, name@, r)),
                    next: (r + 2) as u64,
                    ..old(self).caches()
                })
                &&& views(final(cmds)@) == views(old(cmds)@) + seq![
                    CommandView::CreateBuffer { resource: r, size: BIND_BUFFER_ALIGNMENT, usage: BufferUsage::CopyDstUniform },
                    CommandView::CreateBufferMapped { resource: (r + 1) as u64, data: bytes@ },
                    CommandView::CopyBufferToBuffer {
                        source: (r + 1) as u64,
                        source_offset: 0,
                        destination: r,
                        destination_offset: 0,
                        size: bytes@.len() as u64,
                    },
                    CommandView::RemoveBuffer { resource: (r + 1) as u64 },
                ]
            },
            old(self).asset_resource(h, name@) matches Some(x) ==> {
                &&& r == x
                &&& *final(self) == *old(self)
                &&& final(cmds)@ == old(cmds)@
            },
            old(self).asset_resource(h, name@) is None ==> {
                &&& r == old(self).next_resource
                &&& *final(self) == (UniformResourceProvider {
                    asset_resources: final(self).asset_resources,
                    next_resource: (r + 2) as u64,
                    ..*old(self)
                })
                &&& final(self).asset_resources@.len() == old(self).asset_resources@.len() + 1
                &&& final(self).asset_resources@.drop_last() == old(self).asset_resources@
                &&& asset_entry_is(final(self).asset_resources@, old(self).asset_resources@.len() as int, h, name@)
                &&& final(self).asset_resources@.last().resource == r
                &&& final(cmds)@.subrange(0, old(cmds)@.len() as int) == old(cmds)@
                &&& uploads_new_buffer(final(cmds)@, old(cmds)@.len() as int, r, bytes@)
            },
    {
        match self.find_asset(h, name) {
            Some(i) => {
                proof {
                    lemma_asset_lookup_at(self.asset_resources@, i as int, h, name@);
                    let v = asset_view(self.asset_resources@);
                    assert forall|j: int| 0 <= j < i implies !(v[j].0 == h && v[j].1 == name@) by {
                        assert(!asset_entry_is(self.asset_resources@, j, h, name@));
                    }
                    lemma_pair_lookup_from(v, h, name@, 0, i as int);
                }
                self.asset_resources[i].resource
            },
            None => {
                proof {
                    let v = asset_view(self.asset_resources@);
                    assert forall|j: int| 0 <= j < v.len() implies !(v[j].0 == h && v[j].1 == name@) by {
                        assert(!asset_entry_is(self.asset_resources@, j, h, name@));
                    }
                    lemma_pair_lookup_none(v, h, name@, 0);
                }
                let r = self.fresh();
                let staging = self.fresh();
                let ghost before = self.asset_resources@;
                self.asset_resources.push(AssetResource { handle: h, name: name.clone(), resource: r });
                proof {
                    let s = self.asset_resources@;
                    assert forall|a: int, b: int|
                        #[trigger] asset_entry_is(s, a, s[b].handle, s[b].name@) && 0 <= b < s.len()
                        implies a == b by {
                        if a < before.len() && b < before.len() {
                            assert(asset_entry_is(before, a, before[b].handle, before[b].name@));
                        } else if a < before.len() {
                            assert(asset_entry_is(before, a, h, name@));
                        } else if b < before.len() {
                            assert(asset_entry_is(before, b, h, name@));
                        }
                    }
                    lemma_asset_lookup_at(s, before.len() as int, h, name@);
                    assert(s.drop_last() =~= before);
                    assert forall|h2: u64, n2: Seq<char>| #[trigger] asset_lookup(before, h2, n2) is Some implies asset_lookup(s, h2, n2) == asset_lookup(before, h2, n2) by {
                        let c = choose|c: int| asset_entry_is(before, c, h2, n2);
                        lemma_asset_lookup_at(before, c, h2, n2);
                        assert(asset_entry_is(s, c, h2, n2));
                        lemma_asset_lookup_at(s, c, h2, n2);
                    }
                }
                cmds.push(Command::CreateBuffer {
                    resource: r,
                    size: BIND_BUFFER_ALIGNMENT,
                    usage: BufferUsage::CopyDstUniform,
                });
                cmds.push(Command::CreateBufferMapped { resource: staging, data: copy_bytes(bytes) });
                cmds.push(Command::CopyBufferToBuffer {
                    source: staging,
                    source_offset: 0,
                    destination: r,
                    destination_offset: 0,
                    size: bytes.len() as u64,
                });
                cmds.push(Command::RemoveBuffer { resource: staging });
                proof {
                    assert(cmds@.subrange(0, old(cmds)@.len() as int) =~= old(cmds)@);
                    assert(uploads_new_buffer(cmds@, old(cmds)@.len() as int, r, bytes@));
                    assert(asset_view(self.asset_resources@) =~= asset_view(old(self).asset_resources@).push((h, name@, r)));
                    assert(views(cmds@) =~= views(old(cmds)@) + seq![
                        CommandView::CreateBuffer { resource: r, size: BIND_BUFFER_ALIGNMENT, usage: BufferUsage::CopyDstUniform },
                        CommandView::CreateBufferMapped { resource: (r + 1) as u64, data: bytes@ },
                        CommandView::CopyBufferToBuffer {
                            source: (r + 1) as u64,
                            source_offset: 0,
                            destination: r,
                            destination_offset: 0,
                            size: bytes@.len() as u64,
                        },
                        CommandView::RemoveBuffer { resource: (r + 1) as u64 },
                    ]);
                }
                r
            },
        }
    }

    /// Starts a frame: every aggregator forgets its registrations. Buffers,
    /// capacities and offsets stay until the buffers are packed again.
    pub fn reset_counts(&mut self)
        requires
            old(self).wf(),
        ensures
            final(self).wf(),
            final(self).dynamic_buffers@.len() == old(self).dynamic_buffers@.len(),
            forall|i: int|
                0 <= i < final(self).dynamic_buffers@.len() ==> {
                    let b = #[trigger] final(self).dynamic_buffers@[i];
                    let a = old(self).dynamic_buffers@[i];
                    &&& b.count == 0
                    &&& b.entities@.len() == 0
                    &&& b.values@.len() == 0
                    &&& b == (DynamicBuffer { count: 0, entities: b.entities, values: b.values, ..a })
                },
            *final(self) == (UniformResourceProvider {
                dynamic_buffers: final(self).dynamic_buffers,
                ..*old(self)
            }),
    {
        let mut i: usize = 0;
        while i < self.dynamic_buffers.len()
            invariant
                0 <= i <= self.dynamic_buffers@.len(),
                self.wf(),
                self.dynamic_buffers@.len() == old(self).dynamic_buffers@.len(),
                forall|k: int|
                    0 <= k < self.dynamic_buffers@.len() ==> {
                        let b = #[trigger] self.dynamic_buffers@[k];
                        let a = old(self).dynamic_buffers@[k];
                        if k < i {
                            &&& b.count == 0
                            &&& b.entities@.len() == 0
                            &&& b.values@.len() == 0
                            &&& b == (DynamicBuffer { count: 0, entities: b.entities, values: b.values, ..a })
                        } else {
                            b == a
                        }
                    },
                *self == (UniformResourceProvider {
                    dynamic_buffers: self.dynamic_buffers,
                    ..*old(self)
                }),
            decreases old(self).dynamic_buffers@.len() - i,
        {
            self.dynamic_buffers[i].count = 0;
            self.dynamic_buffers[i].entities = Vec::new();
            self.dynamic_buffers[i].values = Vec::new();
            i = i + 1;
        }
    }

    fn find_dynamic(&self, j: usize) -> (r: Option<usize>)
        requires
            self.wf(),
        ensures
            r matches Some(i) ==> i < self.dynamic_buffers@.len() && self.dynamic_buffers@[i as int].binding == j
                && buffer_index(self.dynamic_buffers@, j) == i,
            r is None ==> buffer_index(self.dynamic_buffers@, j) == -1,
    {
        let mut i: usize = 0;
        while i < self.dynamic_buffers.len()
            invariant
                0 <= i <= self.dynamic_buffers@.len(),
                self.wf(),
                forall|k: int| 0 <= k < i ==> self.dynamic_buffers@[k].binding != j,
            decreases self.dynamic_buffers@.len() - i,
        {
            if self.dynamic_buffers[i].binding == j {
                proof {
                    lemma_buffer_index(self.dynamic_buffers@, i as int);
                }
                return Some(i);
            }
            i = i + 1;
        }
        None
    }

    /// Registers every directly valued entity, in order, with the aggregator
    /// of uniform binding `j`, creating the aggregator on first use.
    pub fn register_binding(&mut self, j: usize, direct: &Vec<(u64, UniformValue)>)
        requires
            old(self).wf(),
            j < old(self).descriptors@.len(),
            old(self).descriptors@[j as int].kind == BindKind::Uniform,
            direct@.len() <= MAX_ENTITIES,
            uniform_ready(direct@, j as int),
        ensures
            final(self).wf(),
            *final(self) == (UniformResourceProvider {
                dynamic_buffers: final(self).dynamic_buffers,
                ..*old(self)
            }),
            buffer_index(final(self).dynamic_buffers@, j) >= 0,
            registers(final(self).dynamic_buffers@[buffer_index(final(self).dynamic_buffers@, j)], direct@, j as int),
            buffer_index(old(self).dynamic_buffers@, j) >= 0 ==> {
                let i = buffer_index(old(self).dynamic_buffers@, j);
                let b = final(self).dynamic_buffers@[i];
                &&& buffer_index(final(self).dynamic_buffers@, j) == i
                &&& final(self).dynamic_buffers@.len() == old(self).dynamic_buffers@.len()
                &&& b == (DynamicBuffer { count: b.count, entities: b.entities, values: b.values, ..old(self).dynamic_buffers@[i] })
                &&& forall|k: int| 0 <= k < final(self).dynamic_buffers@.len() && k != i ==>
                    #[trigger] final(self).dynamic_buffers@[k] == old(self).dynamic_buffers@[k]
            },
            buffer_index(old(self).dynamic_buffers@, j) == -1 ==> {
                let n = old(self).dynamic_buffers@.len();
                let b = final(self).dynamic_buffers@[n as int];
                &&& buffer_index(final(self).dynamic_buffers@, j) == n
                &&& final(self).dynamic_buffers@.drop_last() == old(self).dynamic_buffers@
                &&& final(self).dynamic_buffers@.len() == n + 1
                &&& b.binding == j
                &&& b.resource is None
                &&& b.capacity == 0
                &&& b.offsets@.len() == 0
            },
    {
        let mut ents: Vec<u64> = Vec::new();
        let mut vals: Vec<Vec<u8>> = Vec::new();
        let mut k: usize = 0;
        assert(direct_ids(direct@.take(0)) =~= ents@);
        while k < direct.len()
            invariant
                k <= direct@.len() <= MAX_ENTITIES,
                uniform_ready(direct@, j as int),
                registers_entities(ents@, vals@, direct@.take(k as int), j as int),
            decreases direct@.len() - k,
        {
            let data = &direct[k].1.bindings[j];
            proof {
                assert(direct@.take(k as int + 1).drop_last() =~= direct@.take(k as int));
            }
            match data.uniform_bytes() {
                Some(b) => {
                    ents.push(direct[k].0);
                    vals.push(copy_bytes(b));
                },
                None => {
                    assert(false);
                },
            }
            k = k + 1;
            proof {
                let t = direct@.take(k as int);
                assert(ents@ =~= direct_ids(t));
            }
        }
        proof {
            assert(direct@.take(k as int) =~= direct@);
        }
        let count = ents.len() as u64;
        match self.find_dynamic(j) {
            Some(i) => {
                self.dynamic_buffers[i].entities = ents;
                self.dynamic_buffers[i].values = vals;
                self.dynamic_buffers[i].count = count;
                proof {
                    lemma_buffer_index(self.dynamic_buffers@, i as int);
                }
            },
            None => {
                let name = self.descriptors[j].name.clone();
                let ghost before = self.dynamic_buffers@;
                self.dynamic_buffers.push(DynamicBuffer {
                    binding: j,
                    name,
                    resource: None,
                    count,
                    capacity: 0,
                    entities: ents,
                    values: vals,
                    offsets: Vec::new(),
                });
                proof {
                    assert(self.dynamic_buffers@.drop_last() =~= before);
                    lemma_buffer_index(self.dynamic_buffers@, before.len() as int);
                    lemma_buffers_bounded(self.dynamic_buffers@, self.descriptors@.len() as int);
                }
            },
        }
    }

    /// Gives aggregator `i` its buffer if it has none yet: room for twice the
    /// entities registered now, published under the binding's name. An
    /// aggregator that has a buffer keeps it, whatever its count.
    pub fn allocate_dynamic_buffer(&mut self, i: usize, cmds: &mut Vec<Command>)
        requires
            old(self).wf(),
            i < old(self).dynamic_buffers@.len(),
            old(self).next_resource < u64::MAX,
        ensures
            final(self).wf(),
            old(cmds)@.is_prefix_of(final(cmds)@),
            old(self).dynamic_buffers@[i as int].resource is Some ==> {
                &&& *final(self) == *old(self)
                &&& final(cmds)@ == old(cmds)@
            },
            old(self).dynamic_buffers@[i as int].resource is None ==> {
                let a = old(self).dynamic_buffers@[i as int];
                let r = old(self).next_resource;
                let capacity = (2 * a.count) as u64;
                &&& *final(self) == (UniformResourceProvider {
                    dynamic_buffers: final(self).dynamic_buffers,
                    next_resource: (r + 1) as u64,
                    ..*old(self)
                })
                &&& final(self).dynamic_buffers@ == old(self).dynamic_buffers@.update(
                    i as int,
                    DynamicBuffer { resource: Some(r), capacity, ..a },
                )
                &&& final(cmds)@ == old(cmds)@.push(
                    Command::CreateBuffer {
                        resource: r,
                        size: (BIND_BUFFER_ALIGNMENT * capacity) as u64,
                        usage: BufferUsage::CopyDstUniform,
                    },
                ).push(Command::SetNamedResource { name: a.name, resource: r })
            },
    {
        if self.dynamic_buffers[i].resource.is_some() {
            assert(cmds@.subrange(0, cmds@.len() as int) =~= cmds@);
            return;
        }
        let capacity = self.dynamic_buffers[i].count * 2;
        let size = BIND_BUFFER_ALIGNMENT * capacity;
        let r = self.fresh();
        self.dynamic_buffers[i].resource = Some(r);
        self.dynamic_buffers[i].capacity = capacity;
        cmds.push(Command::CreateBuffer { resource: r, size, usage: BufferUsage::CopyDstUniform });
        let name = self.dynamic_buffers[i].name.clone();
        cmds.push(Command::SetNamedResource { name, resource: r });
        proof {
            assert(cmds@.subrange(0, old(cmds)@.len() as int) =~= old(cmds)@);
            assert(self.dynamic_buffers@ =~= old(self).dynamic_buffers@.update(
                i as int,
                DynamicBuffer { resource: Some(r), capacity, ..old(self).dynamic_buffers@[i as int] },
            ));
        }
    }

    /// Gives each entity registered with aggregator `i` its offset and
    /// uploads their packed bytes through a staging buffer.
    pub fn pack_dynamic_buffer(&mut self, i: usize, cmds: &mut Vec<Command>)
        requires
            old(self).wf(),
            i < old(self).dynamic_buffers@.len(),
            old(self).dynamic_buffers@[i as int].resource is Some,
            old(self).next_resource < u64::MAX,
        ensures
            final(self).wf(),
            old(cmds)@.is_prefix_of(final(cmds)@),
            ({
                let a = old(self).dynamic_buffers@[i as int];
                let b = final(self).dynamic_buffers@[i as int];
                let s = old(self).next_resource;
                &&& *final(self) == (UniformResourceProvider {
                    dynamic_buffers: final(self).dynamic_buffers,
                    next_resource: (s + 1) as u64,
                    ..*old(self)
                })
                &&& final(self).dynamic_buffers@.len() == old(self).dynamic_buffers@.len()
                &&& forall|k: int| 0 <= k < final(self).dynamic_buffers@.len() && k != i ==>
                    #[trigger] final(self).dynamic_buffers@[k] == old(self).dynamic_buffers@[k]
                &&& b == (DynamicBuffer { offsets: b.offsets, ..a })
                &&& assigns_offsets(b.offsets@, a.entities@)
                &&& final(cmds)@.subrange(0, old(cmds)@.len() as int) == old(cmds)@
                &&& uploads_packed(final(cmds)@, old(cmds)@.len() as int, s, a)
                &&& uploaded(final(cmds)@, b)
            }),
    {
        let offsets = assign_offsets(&self.dynamic_buffers[i].entities);
        let ghost a = self.dynamic_buffers@[i as int];
        let data = pack(&self.dynamic_buffers[i].values);
        let size = BIND_BUFFER_ALIGNMENT * self.dynamic_buffers[i].count;
        let destination = match self.dynamic_buffers[i].resource {
            Some(d) => d,
            None => 0,
        };
        let s = self.fresh();
        self.dynamic_buffers[i].offsets = offsets;
        proof {
            let b = self.dynamic_buffers@[i as int];
            assert forall|k: int| 0 <= k < b.offsets@.len() implies (#[trigger] b.offsets@[k]).1
                == BIND_BUFFER_ALIGNMENT * k by {
                assert(b.offsets@[k] == (a.entities@[k], (BIND_BUFFER_ALIGNMENT * k) as u64));
            }
        }
        cmds.push(Command::CreateBufferMapped { resource: s, data });
        cmds.push(Command::CopyBufferToBuffer {
            source: s,
            source_offset: 0,
            destination,
            destination_offset: 0,
            size,
        });
        cmds.push(Command::RemoveBuffer { resource: s });
        assert(cmds@.subrange(0, old(cmds)@.len() as int) =~= old(cmds)@);
        assert(packs_at(cmds@, old(cmds)@.len() as int, s, self.dynamic_buffers@[i as int]));
    }

    /// Allocates the buffers that do not exist yet, then assigns offsets and
    /// uploads the packed bytes of every aggregator.
    pub fn setup_dynamic_uniform_buffers(&mut self, cmds: &mut Vec<Command>)
        requires
            old(self).wf(),
            old(self).next_resource <= u64::MAX - 2 * MAX_BINDINGS,
        ensures
            final(self).wf(),
            *final(self) == (UniformResourceProvider {
                dynamic_buffers: final(self).dynamic_buffers,
                next_resource: final(self).next_resource,
                ..*old(self)
            }),
            old(self).next_resource <= final(self).next_resource <= old(self).next_resource + 2
                * old(self).dynamic_buffers@.len(),
            final(self).dynamic_buffers@.len() == old(self).dynamic_buffers@.len(),
            old(cmds)@.is_prefix_of(final(cmds)@),
            forall|i: int| 0 <= i < final(self).dynamic_buffers@.len() ==>
                packed_after(old(self).dynamic_buffers@[i], #[trigger] final(self).dynamic_buffers@[i]),
            forall|i: int| 0 <= i < final(self).dynamic_buffers@.len() ==>
                uploaded(final(cmds)@, #[trigger] final(self).dynamic_buffers@[i]),
            forall|i: int| 0 <= i < final(self).dynamic_buffers@.len() && old(self).dynamic_buffers@[i].resource is None ==>
                (#[trigger] final(self).dynamic_buffers@[i]).resource == Some(alloc_steps(old(self).dynamic_buffers@, old(self).next_resource, i).0),
            views(final(cmds)@) == views(old(cmds)@)
                + alloc_steps(old(self).dynamic_buffers@, old(self).next_resource, old(self).dynamic_buffers@.len() as int).1
                + pack_steps(final(self).dynamic_buffers@, alloc_steps(old(self).dynamic_buffers@, old(self).next_resource, old(self).dynamic_buffers@.len() as int).0, old(self).dynamic_buffers@.len() as int).1,
            final(self).next_resource == pack_steps(final(self).dynamic_buffers@, alloc_steps(old(self).dynamic_buffers@, old(self).next_resource, old(self).dynamic_buffers@.len() as int).0, old(self).dynamic_buffers@.len() as int).0,
    {
        let n = self.dynamic_buffers.len();
        let ghost start = self.next_resource;
        assert(cmds@.subrange(0, cmds@.len() as int) =~= cmds@);
        let mut i: usize = 0;
        while i < n
            invariant
                self.wf(),
                n == self.dynamic_buffers@.len() == old(self).dynamic_buffers@.len(),
                n <= MAX_BINDINGS,
                0 <= i <= n,
                start == old(self).next_resource <= u64::MAX - 2 * MAX_BINDINGS,
                start <= self.next_resource <= start + i,
                old(cmds)@.is_prefix_of(cmds@),
                self.next_resource == alloc_steps(old(self).dynamic_buffers@, start, i as int).0,
                views(cmds@) == views(old(cmds)@) + alloc_steps(old(self).dynamic_buffers@, start, i as int).1,
                forall|k: int| 0 <= k < i && old(self).dynamic_buffers@[k].resource is None ==>
                    (#[trigger] self.dynamic_buffers@[k]).resource == Some(alloc_steps(old(self).dynamic_buffers@, start, k).0),
                *self == (UniformResourceProvider {
                    dynamic_buffers: self.dynamic_buffers,
                    next_resource: self.next_resource,
                    ..*old(self)
                }),
                forall|k: int| 0 <= k < n ==> {
                    let a = old(self).dynamic_buffers@[k];
                    let b = #[trigger] self.dynamic_buffers@[k];
                    if k < i {
                        allocated_after(a, b)
                    } else {
                        b == a
                    }
                },
            decreases n - i,
        {
            let ghost c0 = cmds@;
            let ghost b0 = self.dynamic_buffers@;
            self.allocate_dynamic_buffer(i, cmds);
            proof {
                let a = old(self).dynamic_buffers@[i as int];
                assert(b0[i as int] == a);
                let prev = alloc_steps(old(self).dynamic_buffers@, start, i as int);
                if a.resource is None {
                    assert(views(cmds@) =~= views(c0) + seq![
                        CommandView::CreateBuffer {
                            resource: prev.0,
                            size: (BIND_BUFFER_ALIGNMENT * ((2 * a.count) as u64)) as u64,
                            usage: BufferUsage::CopyDstUniform,
                        },
                        CommandView::SetNamedResource { name: a.name@, resource: prev.0 },
                    ]);
                } else {
                    assert(views(cmds@) =~= views(c0));
                }
                assert(views(cmds@) =~= views(old(cmds)@) + alloc_steps(old(self).dynamic_buffers@, start, i + 1).1);
                assert forall|k: int| 0 <= k < i + 1 && old(self).dynamic_buffers@[k].resource is None implies
                    (#[trigger] self.dynamic_buffers@[k]).resource == Some(alloc_steps(old(self).dynamic_buffers@, start, k).0) by {
                    if k < i {
                        assert(self.dynamic_buffers@[k] == b0[k]);
                    }
                }
            }
            assert(cmds@.subrange(0, old(cmds)@.len() as int) =~= c0.subrange(0, old(cmds)@.len() as int));
            i = i + 1;
        }
        let ghost mid = self.dynamic_buffers@;
        let ghost anext = self.next_resource;
        let mut i: usize = 0;
        while i < n
            invariant
                self.wf(),
                n == self.dynamic_buffers@.len() == old(self).dynamic_buffers@.len(),
                n <= MAX_BINDINGS,
                0 <= i <= n,
                start == old(self).next_resource <= u64::MAX - 2 * MAX_BINDINGS,
                start <= self.next_resource <= start + n + i,
                old(cmds)@.is_prefix_of(cmds@),
                anext == alloc_steps(old(self).dynamic_buffers@, start, n as int).0,
                views(cmds@) == views(old(cmds)@) + alloc_steps(old(self).dynamic_buffers@, start, n as int).1
                    + pack_steps(mid, anext, i as int).1,
                self.next_resource == pack_steps(mid, anext, i as int).0,
                forall|k: int| 0 <= k < i ==> #[trigger] self.dynamic_buffers@[k] == (DynamicBuffer { offsets: self.dynamic_buffers@[k].offsets, ..mid[k] }),
                forall|k: int| 0 <= k < n && old(self).dynamic_buffers@[k].resource is None ==>
                    (#[trigger] mid[k]).resource == Some(alloc_steps(old(self).dynamic_buffers@, start, k).0),
                *self == (UniformResourceProvider {
                    dynamic_buffers: self.dynamic_buffers,
                    next_resource: self.next_resource,
                    ..*old(self)
                }),
                forall|k: int| 0 <= k < n ==> allocated_after(old(self).dynamic_buffers@[k], #[trigger] mid[k]),
                forall|k: int| 0 <= k < i ==> uploaded(cmds@, #[trigger] self.dynamic_buffers@[k]),
                forall|k: int| 0 <= k < n ==> {
                    let b = #[trigger] self.dynamic_buffers@[k];
                    if k < i {
                        packed_after(old(self).dynamic_buffers@[k], b)
                    } else {
                        b == mid[k]
                    }
                },
            decreases n - i,
        {
            let ghost c0 = cmds@;
            let ghost b0 = self.dynamic_buffers@;
            let ghost cv = views(cmds@);
            self.pack_dynamic_buffer(i, cmds);
            proof {
                let a = b0[i as int];
                assert(a == mid[i as int]);
                let ghost at = c0.len() as int;
                assert(cmds@[at] matches Command::CreateBufferMapped { resource, data } && packs(data@, a.values@));
                if let Command::CreateBufferMapped { resource, data } = cmds@[at] {
                    lemma_packs_is_packed_seq(data@, a.values@);
                }
                assert(views(cmds@) =~= cv + seq![
                    CommandView::CreateBufferMapped { resource: pack_steps(mid, anext, i as int).0, data: packed_seq(mid[i as int].values@) },
                    CommandView::CopyBufferToBuffer {
                        source: pack_steps(mid, anext, i as int).0,
                        source_offset: 0,
                        destination: mid[i as int].resource->Some_0,
                        destination_offset: 0,
                        size: (BIND_BUFFER_ALIGNMENT * mid[i as int].count) as u64,
                    },
                    CommandView::RemoveBuffer { resource: pack_steps(mid, anext, i as int).0 },
                ]);
                assert(views(cmds@) =~= views(old(cmds)@) + alloc_steps(old(self).dynamic_buffers@, start, n as int).1
                    + pack_steps(mid, anext, i + 1).1);
                assert forall|k: int| 0 <= k < i + 1 implies #[trigger] self.dynamic_buffers@[k] == (DynamicBuffer { offsets: self.dynamic_buffers@[k].offsets, ..mid[k] }) by {
                    if k < i {
                        assert(self.dynamic_buffers@[k] == b0[k]);
                    }
                }
            }
            assert(cmds@.subrange(0, old(cmds)@.len() as int) =~= c0.subrange(0, old(cmds)@.len() as int));
            proof {
                assert(c0.is_prefix_of(cmds@)) by {
                    assert(cmds@.subrange(0, c0.len() as int) =~= c0);
                }
                assert forall|k: int| 0 <= k < i + 1 implies uploaded(cmds@, #[trigger] self.dynamic_buffers@[k]) by {
                    if k < i {
                        assert(self.dynamic_buffers@[k] == b0[k]);
                        lemma_uploaded_persist(c0, cmds@, b0[k]);
                    }
                }
            }
            i = i + 1;
        }
        proof {
            lemma_pack_steps_same(mid, self.dynamic_buffers@, anext, n as int);
        }
    }

    /// Resolves every binding of `value` for `entity` and binds it: uniform
    /// bindings of an asset-backed entity through the asset's buffers,
    /// texture and sampler bindings through the texture resolver. Uniform
    /// bindings of a directly valued entity are left to its aggregators.
    pub fn setup_entity_uniform_resources(
        &mut self,
        entity: u64,
        value: &UniformValue,
        asset: Option<u64>,
        store: &Vec<u64>,
        cmds: &mut Vec<Command>,
    )
        requires
            old(self).wf(),
            value.bindings@.len() == old(self).descriptors@.len(),
            value_fault(old(self).descriptors@, *value, store@, old(self).texture_resources@, old(self).sampler_resources@) is None,
            old(self).next_resource <= u64::MAX - 2 * MAX_BINDINGS,
        ensures
            final(self).wf(),
            *final(self) == (UniformResourceProvider {
                asset_resources: final(self).asset_resources,
                texture_resources: final(self).texture_resources,
                sampler_resources: final(self).sampler_resources,
                next_resource: final(self).next_resource,
                ..*old(self)
            }),
            Self::cache_extends(*old(self), *final(self)),
            old(self).next_resource <= final(self).next_resource <= old(self).next_resource + 2 * old(self).descriptors@.len(),
            old(cmds)@.is_prefix_of(final(cmds)@),
            final(self).caches() == entity_steps(old(self).caches(), entity, old(self).descriptors@, value.bindings@, asset, old(self).descriptors@.len() as int).0,
            views(final(cmds)@) == views(old(cmds)@) + entity_steps(old(self).caches(), entity, old(self).descriptors@, value.bindings@, asset, old(self).descriptors@.len() as int).1,
            forall|j: int| 0 <= j < old(self).descriptors@.len() ==> Self::binds(
                *final(self),
                final(cmds)@,
                entity,
                #[trigger] old(self).descriptors@[j],
                value.bindings@[j],
                asset,
            ),
    {
        let n = self.descriptors.len();
        let mut j: usize = 0;
        assert(old(cmds)@.is_prefix_of(cmds@)) by {
            assert(cmds@.subrange(0, cmds@.len() as int) =~= cmds@);
        }
        while j < n
            invariant
                self.wf(),
                n == self.descriptors@.len() == value.bindings@.len(),
                n <= MAX_BINDINGS,
                0 <= j <= n,
                *self == (UniformResourceProvider {
                    asset_resources: self.asset_resources,
                    texture_resources: self.texture_resources,
                    sampler_resources: self.sampler_resources,
                    next_resource: self.next_resource,
                    ..*old(self)
                }),
                Self::cache_extends(*old(self), *self),
                old(self).next_resource <= u64::MAX - 2 * MAX_BINDINGS,
                old(self).next_resource <= self.next_resource <= old(self).next_resource + 2 * j,
                old(cmds)@.is_prefix_of(cmds@),
                self.caches() == entity_steps(old(self).caches(), entity, old(self).descriptors@, value.bindings@, asset, j as int).0,
                views(cmds@) == views(old(cmds)@) + entity_steps(old(self).caches(), entity, old(self).descriptors@, value.bindings@, asset, j as int).1,
                value_fault(old(self).descriptors@, *value, store@, old(self).texture_resources@, old(self).sampler_resources@) is None,
                value_fault_from(old(self).descriptors@, *value, store@, old(self).texture_resources@, old(self).sampler_resources@, j as int) is None,
                forall|k: int| 0 <= k < j ==> Self::binds(
                    *self,
                    cmds@,
                    entity,
                    #[trigger] old(self).descriptors@[k],
                    value.bindings@[k],
                    asset,
                ),
            decreases n - j,
        {
            let ghost p0 = *self;
            let ghost c0 = cmds@;
            let d = &self.descriptors[j];
            let name = d.name.clone();
            let data = &value.bindings[j];
            let kind = d.kind;
            assert(binding_fault(kind, *data, store@, old(self).texture_resources@, old(self).sampler_resources@) is None);
            let ghost step = binding_step(p0.caches(), entity, old(self).descriptors@[j as int], value.bindings@[j as int], asset);
            match kind {
                BindKind::Uniform => {
                    if let Some(h) = asset {
                        if let Some(bytes) = data.uniform_bytes() {
                            let r = self.ensure_asset_resource(h, &name, bytes, cmds);
                            let ghost c1 = cmds@;
                            let ghost bind = Command::Bind { entity, name, resource: r };
                            cmds.push(Command::Bind { entity, name, resource: r });
                            assert(cmds@[cmds@.len() - 1] == bind);
                            proof {
                                assert(views(cmds@) =~= views(c1).push(bind@));
                                assert(views(cmds@) =~= views(c0) + step.1);
                            }
                        }
                    } else {
                        assert(views(cmds@) =~= views(c0) + step.1);
                    }
                },
                BindKind::SampledTexture => {
                    if let Some(t) = data.texture {
                        let r = self.resolve_texture(t, cmds);
                        let ghost c1 = cmds@;
                        let ghost bind = Command::Bind { entity, name, resource: r };
                        cmds.push(Command::Bind { entity, name, resource: r });
                        assert(cmds@[cmds@.len() - 1] == bind);
                        proof {
                            assert(views(cmds@) =~= views(c1).push(bind@));
                            assert(views(cmds@) =~= views(c0) + step.1);
                        }
                    }
                },
                BindKind::Sampler => {
                    if let Some(t) = data.texture {
                        let r = self.resolve_sampler(t, cmds);
                        let ghost c1 = cmds@;
                        let ghost bind = Command::Bind { entity, name, resource: r };
                        cmds.push(Command::Bind { entity, name, resource: r });
                        assert(cmds@[cmds@.len() - 1] == bind);
                        proof {
                            assert(views(cmds@) =~= views(c1).push(bind@));
                            assert(views(cmds@) =~= views(c0) + step.1);
                        }
                    }
                },
                BindKind::Other => {
                    assert(views(cmds@) =~= views(c0) + step.1);
                },
            }
            proof {
                assert(self.caches() == step.0);
                assert(views(cmds@) =~= views(old(cmds)@) + entity_steps(old(self).caches(), entity, old(self).descriptors@, value.bindings@, asset, j + 1).1);
            }
            proof {
                assert(c0.is_prefix_of(cmds@)) by {
                    assert(cmds@.subrange(0, c0.len() as int) =~= c0);
                }
                assert(old(cmds)@.is_prefix_of(cmds@)) by {
                    assert(cmds@.subrange(0, old(cmds)@.len() as int) =~= c0.subrange(0, old(cmds)@.len() as int));
                }
                Self::lemma_cache_extends_trans(*old(self), p0, *self);
                assert forall|k: int| 0 <= k < j + 1 implies Self::binds(
                    *self,
                    cmds@,
                    entity,
                    #[trigger] old(self).descriptors@[k],
                    value.bindings@[k],
                    asset,
                ) by {
                    if k < j {
                        Self::lemma_binds_persist(p0, *self, c0, cmds@, entity, old(self).descriptors@[k], value.bindings@[k], asset);
                    }
                }
            }
            j = j + 1;
        }
    }
}

} // verus!
