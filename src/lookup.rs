use vstd::prelude::*;

verus! {

/// Index of the first entry at or after `i` whose key is `k`, or -1.
pub open spec fn index_of_key_from<V>(s: Seq<(u64, V)>, k: u64, i: int) -> int
    decreases s.len() - i,
{
    if i < 0 || i >= s.len() {
        -1
    } else if s[i].0 == k {
        i
    } else {
        index_of_key_from(s, k, i + 1)
    }
}

/// Index of the first entry whose key is `k`, or -1.
pub open spec fn index_of_key<V>(s: Seq<(u64, V)>, k: u64) -> int {
    index_of_key_from(s, k, 0)
}

/// The value of the first entry whose key is `k`.
pub open spec fn value_of_key<V>(s: Seq<(u64, V)>, k: u64) -> Option<V> {
    let i = index_of_key(s, k);
    if i < 0 {
        None
    } else {
        Some(s[i].1)
    }
}

/// What the search from index `i` finds.
pub proof fn lemma_index_of_key_from<V>(s: Seq<(u64, V)>, k: u64, i: int)
    requires
        0 <= i <= s.len(),
    ensures
        -1 <= index_of_key_from(s, k, i) < s.len(),
        index_of_key_from(s, k, i) == -1 ==> forall|j: int| i <= j < s.len() ==> s[j].0 != k,
        index_of_key_from(s, k, i) >= 0 ==> {
            let r = index_of_key_from(s, k, i);
            &&& i <= r
            &&& s[r].0 == k
            &&& forall|j: int| i <= j < r ==> s[j].0 != k
        },
    decreases s.len() - i,
{
    if i < s.len() && s[i].0 != k {
        lemma_index_of_key_from(s, k, i + 1);
    }
}

/// A key that no entry has is not found, and the first one that has it is.
pub proof fn lemma_index_of_key<V>(s: Seq<(u64, V)>, k: u64)
    ensures
        -1 <= index_of_key(s, k) < s.len(),
        index_of_key(s, k) == -1 <==> forall|j: int| 0 <= j < s.len() ==> s[j].0 != k,
        index_of_key(s, k) >= 0 ==> {
            let r = index_of_key(s, k);
            &&& r < s.len()
            &&& s[r].0 == k
            &&& forall|j: int| 0 <= j < r ==> s[j].0 != k
        },
{
    lemma_index_of_key_from(s, k, 0);
}

/// Appending an entry leaves earlier lookups unchanged and makes a new key
/// findable.
pub proof fn lemma_value_of_key_push<V>(s: Seq<(u64, V)>, e: (u64, V), k: u64)
    ensures
        value_of_key(s.push(e), k) == (if value_of_key(s, k) is Some {
            value_of_key(s, k)
        } else if e.0 == k {
            Some(e.1)
        } else {
            None
        }),
{
    let t = s.push(e);
    lemma_index_of_key(s, k);
    lemma_index_of_key(t, k);
    assert forall|j: int| 0 <= j < s.len() implies t[j] == s[j] by {}
    let rs = index_of_key(s, k);
    let rt = index_of_key(t, k);
    if rs >= 0 {
        assert(t[rs].0 == k);
        assert(rt != -1);
        if rt < rs {
            assert(t[rt] == s[rt]);
        }
        assert(rt == rs);
    } else if 0 <= rt < s.len() {
        assert(t[rt] == s[rt]);
        assert(s[rt].0 != k);
    } else {
        assert(t[s.len() as int] == e);
        if rt == -1 {
            assert(t[s.len() as int].0 != k);
        }
    }
}

/// Finds the first entry with key `k`.
pub fn find_key<V>(v: &Vec<(u64, V)>, k: u64) -> (r: Option<usize>)
    ensures
        r matches Some(i) ==> i as int == index_of_key(v@, k) && i < v@.len() && v@[i as int].0 == k,
        r is None <==> index_of_key(v@, k) == -1,
{
    proof {
        lemma_index_of_key(v@, k);
    }
    let mut i: usize = 0;
    while i < v.len()
        invariant
            0 <= i <= v@.len(),
            forall|j: int| 0 <= j < i ==> v@[j].0 != k,
        decreases v@.len() - i,
    {
        if v[i].0 == k {
            proof {
                lemma_index_of_key_from(v@, k, 0);
                let r = index_of_key(v@, k);
                if r >= 0 && r != i {
                    assert(r > i ==> v@[i as int].0 != k);
                }
            }
            return Some(i);
        }
        i = i + 1;
    }
    None
}

} // verus!
