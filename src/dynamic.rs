use vstd::prelude::*;
use crate::{BIND_BUFFER_ALIGNMENT, MAX_ENTITIES};

verus! {

/// Aggregated per-entity uniform data for one binding that is not backed by
/// a shared asset.
#[derive(Debug)]
pub struct DynamicBuffer {
    /// Index of the binding among the data type's descriptors.
    pub binding: usize,
    pub name: String,
    /// The packed buffer, once allocated.
    pub resource: Option<u64>,
    /// Number of entities registered this frame.
    pub count: u64,
    /// Number of alignment units the buffer was allocated with.
    pub capacity: u64,
    /// The entities registered this frame, in query order.
    pub entities: Vec<u64>,
    /// Each registered entity's bytes, parallel to `entities`.
    pub values: Vec<Vec<u8>>,
    /// Each registered entity's byte offset in the buffer.
    pub offsets: Vec<(u64, u64)>,
}

/// Position of byte `j` of the `k`-th slot in a packed buffer.
pub open spec fn slot(k: int, j: int) -> int {
    BIND_BUFFER_ALIGNMENT * k + j
}

/// What a packed buffer holds at byte `j` of slot `k`: the slot's value,
/// padded with zeros to one alignment unit.
pub open spec fn slot_byte(values: Seq<Vec<u8>>, k: int, j: int) -> u8 {
    if j < values[k]@.len() {
        values[k]@[j]
    } else {
        0
    }
}

/// Whether `p` packs `values` one per alignment unit.
pub open spec fn packs(p: Seq<u8>, values: Seq<Vec<u8>>) -> bool {
    &&& p.len() == BIND_BUFFER_ALIGNMENT * values.len()
    &&& forall|k: int, j: int|
        0 <= k < values.len() && 0 <= j < BIND_BUFFER_ALIGNMENT ==> #[trigger] p[slot(k, j)]
            == slot_byte(values, k, j)
}

/// Whether `o` gives the `k`-th entity the offset of the `k`-th alignment unit.
pub open spec fn assigns_offsets(o: Seq<(u64, u64)>, entities: Seq<u64>) -> bool {
    &&& o.len() == entities.len()
    &&& forall|k: int|
        0 <= k < o.len() ==> #[trigger] o[k] == (entities[k], (BIND_BUFFER_ALIGNMENT * k) as u64)
}

/// The packed layout of `values`: one alignment unit each, zero-padded.
pub open spec fn packed_seq(values: Seq<Vec<u8>>) -> Seq<u8> {
    Seq::new(
        (BIND_BUFFER_ALIGNMENT * values.len()) as nat,
        |p: int| slot_byte(values, p / BIND_BUFFER_ALIGNMENT as int, p % BIND_BUFFER_ALIGNMENT as int),
    )
}

/// A packing of `values` is their packed layout.
pub proof fn lemma_packs_is_packed_seq(p: Seq<u8>, values: Seq<Vec<u8>>)
    requires
        packs(p, values),
    ensures
        p == packed_seq(values),
{
    let q = packed_seq(values);
    assert forall|x: int| 0 <= x < p.len() implies p[x] == q[x] by {
        let k = x / 256;
        let j = x % 256;
        assert(x == 256 * k + j && 0 <= j < 256) by (nonlinear_arith)
            requires k == x / 256, j == x % 256, 0 <= x;
        assert(k < values.len()) by (nonlinear_arith)
            requires x == 256 * k + j, 0 <= j, x < 256 * values.len();
        assert(0 <= k) by (nonlinear_arith)
            requires k == x / 256, 0 <= x;
        assert(p[slot(k, j)] == slot_byte(values, k, j));
    }
    assert(p =~= q);
}

/// Values that fit their slots.
pub open spec fn values_fit(values: Seq<Vec<u8>>) -> bool {
    forall|k: int| 0 <= k < values.len() ==> #[trigger] values[k]@.len() <= BIND_BUFFER_ALIGNMENT
}

/// Assigns consecutive alignment units, from offset 0, to the entities in order.
pub fn assign_offsets(entities: &Vec<u64>) -> (r: Vec<(u64, u64)>)
    requires
        entities@.len() <= MAX_ENTITIES,
    ensures
        assigns_offsets(r@, entities@),
{
    let mut r: Vec<(u64, u64)> = Vec::new();
    let mut offset: u64 = 0;
    let mut k: usize = 0;
    while k < entities.len()
        invariant
            k <= entities@.len() <= MAX_ENTITIES,
            offset == BIND_BUFFER_ALIGNMENT * k,
            assigns_offsets(r@, entities@.take(k as int)),
        decreases entities@.len() - k,
    {
        r.push((entities[k], offset));
        offset = offset + BIND_BUFFER_ALIGNMENT;
        k = k + 1;
    }
    assert(entities@.take(k as int) =~= entities@);
    r
}

/// Lays the values out one per alignment unit, each padded with zeros.
pub fn pack(values: &Vec<Vec<u8>>) -> (r: Vec<u8>)
    requires
        values@.len() <= MAX_ENTITIES,
        values_fit(values@),
    ensures
        packs(r@, values@),
{
    let mut r: Vec<u8> = Vec::new();
    let mut k: usize = 0;
    while k < values.len()
        invariant
            k <= values@.len() <= MAX_ENTITIES,
            values_fit(values@),
            packs(r@, values@.take(k as int)),
        decreases values@.len() - k,
    {
        let v = &values[k];
        assert(v@.len() <= BIND_BUFFER_ALIGNMENT);
        let ghost before = r@;
        let mut j: usize = 0;
        while j < 256
            invariant
                k < values@.len() <= MAX_ENTITIES,
                v == values@[k as int],
                v@.len() <= BIND_BUFFER_ALIGNMENT,
                j <= 256,
                before.len() == BIND_BUFFER_ALIGNMENT * k,
                r@.len() == before.len() + j,
                forall|p: int| 0 <= p < before.len() ==> r@[p] == before[p],
                forall|q: int| 0 <= q < j ==> #[trigger] r@[before.len() + q] == slot_byte(values@, k as int, q),
            decreases 256 - j,
        {
            if j < v.len() {
                r.push(v[j]);
            } else {
                r.push(0u8);
            }
            j = j + 1;
        }
        proof {
            let t = values@.take(k as int + 1);
            assert forall|a: int, b: int|
                0 <= a < t.len() && 0 <= b < BIND_BUFFER_ALIGNMENT implies #[trigger] r@[slot(a, b)]
                == slot_byte(t, a, b) by {
                assert(t[a] == values@[a]);
                if a < k {
                    assert(values@.take(k as int)[a] == values@[a]);
                    assert(before[slot(a, b)] == slot_byte(values@.take(k as int), a, b));
                } else {
                    assert(slot(a, b) == before.len() + b);
                }
            }
        }
        k = k + 1;
    }
    assert(values@.take(k as int) =~= values@);
    r
}

} // verus!
