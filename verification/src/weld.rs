//! Vertex welding: positions that quantize to the same integer grid key
//! become one vertex, so triangle soups exported with duplicated vertices
//! (UV seams, flat shading) share edges again.
//!
//! The caller quantizes each position (divide by the weld epsilon, round);
//! this module assigns vertex ids to the keys.

use vstd::prelude::*;
use std::collections::HashMap;

verus! {

broadcast use vstd::std_specs::hash::group_hash_axioms;

/// A position snapped to the weld grid.
pub type GridKey = (i64, i64, i64);

/// Bucket of a grid key in the lookup table: any function of the key works;
/// this one spreads nearby lattice points apart.
pub open spec fn weld_bucket(k: GridKey) -> u64 {
    (k.0 as u64).wrapping_mul(0x9E37_79B9_7F4A_7C15u64) ^ (k.1 as u64).wrapping_mul(0xC2B2_AE3D_27D4_EB4Fu64)
        ^ (k.2 as u64).wrapping_mul(0x1656_67B1_9E37_79F9u64)
}

fn bucket_of(k: GridKey) -> (h: u64)
    ensures
        h == weld_bucket(k),
{
    (k.0 as u64).wrapping_mul(0x9E37_79B9_7F4A_7C15u64) ^ (k.1 as u64).wrapping_mul(0xC2B2_AE3D_27D4_EB4Fu64)
        ^ (k.2 as u64).wrapping_mul(0x1656_67B1_9E37_79F9u64)
}

/// Point `i` is the first point with its key.
pub open spec fn first_occurrence(keys: Seq<GridKey>, i: int) -> bool {
    forall|j: int| 0 <= j < i ==> keys[j] != keys[i]
}

/// Result of welding: one entry per welded vertex, one id per point.
pub struct Welded {
    /// For each welded vertex, the index of the first point with its key.
    pub representatives: Vec<u32>,
    /// For each point, the id of its welded vertex.
    pub ids: Vec<u32>,
}

/// Search one bucket for the vertex whose key is `k`.
fn find_in_bucket(list: &Vec<u32>, reps: &Vec<u32>, keys: &Vec<GridKey>, k: GridKey) -> (found: Option<u32>)
    requires
        forall|t: int| 0 <= t < list@.len() ==> (#[trigger] list@[t]) < reps@.len(),
        forall|j: int| 0 <= j < reps@.len() ==> (#[trigger] reps@[j]) < keys@.len(),
    ensures
        found is None ==> forall|t: int| 0 <= t < list@.len() ==> keys@[reps@[#[trigger] list@[t] as int] as int] != k,
        found matches Some(id) ==> id < reps@.len() && keys@[reps@[id as int] as int] == k,
{
    let m = list.len();
    let mut q: usize = 0;
    while q < m
        invariant
            m == list@.len(),
            q <= m,
            forall|t: int| 0 <= t < list@.len() ==> (#[trigger] list@[t]) < reps@.len(),
            forall|j: int| 0 <= j < reps@.len() ==> (#[trigger] reps@[j]) < keys@.len(),
            forall|t: int| 0 <= t < q ==> keys@[reps@[#[trigger] list@[t] as int] as int] != k,
        decreases m - q,
    {
        let id = list[q];
        let r = keys[reps[id as usize] as usize];
        if r.0 == k.0 && r.1 == k.1 && r.2 == k.2 {
            return Some(id);
        }
        q += 1;
    }
    None
}

/// Point `i` starts a new welded vertex: record it as representative, give it
/// the next id and file the id under bucket `h`.
#[verifier::rlimit(40)]
fn record_new_vertex(
    buckets: &mut HashMap<u64, Vec<u32>>,
    reps: &mut Vec<u32>,
    ids: &mut Vec<u32>,
    keys: &Vec<GridKey>,
    i: usize,
    h: u64,
)
    requires
        i < keys@.len() <= u32::MAX,
        h == weld_bucket(keys@[i as int]),
        first_occurrence(keys@, i as int),
        old(ids)@.len() == i,
        old(reps)@.len() <= i,
        forall|a: int, b: int| 0 <= a < b < old(reps)@.len() ==> #[trigger] old(reps)@[a] < #[trigger] old(reps)@[b],
        forall|j: int| 0 <= j < old(reps)@.len() ==> {
            &&& (#[trigger] old(reps)@[j]) < i
            &&& first_occurrence(keys@, old(reps)@[j] as int)
        },
        forall|p: int| 0 <= p < i ==> {
            &&& (#[trigger] old(ids)@[p]) < old(reps)@.len()
            &&& keys@[old(reps)@[old(ids)@[p] as int] as int] == keys@[p]
        },
        forall|j: int| 0 <= j < old(reps)@.len() ==> {
            &&& old(buckets)@.contains_key(weld_bucket(keys@[(#[trigger] old(reps)@[j]) as int]))
            &&& old(buckets)@[weld_bucket(keys@[old(reps)@[j] as int])]@.contains(j as u32)
        },
        forall|h2: u64, x: u32| old(buckets)@.contains_key(h2) && #[trigger] old(buckets)@[h2]@.contains(x) ==> {
            &&& x < old(reps)@.len()
            &&& weld_bucket(keys@[old(reps)@[x as int] as int]) == h2
        },
    ensures
        final(ids)@.len() == i + 1,
        final(reps)@.len() <= i + 1,
        forall|a: int, b: int| 0 <= a < b < final(reps)@.len() ==> #[trigger] final(reps)@[a] < #[trigger] final(reps)@[b],
        forall|j: int| 0 <= j < final(reps)@.len() ==> {
            &&& (#[trigger] final(reps)@[j]) < i + 1
            &&& first_occurrence(keys@, final(reps)@[j] as int)
        },
        forall|p: int| 0 <= p < i + 1 ==> {
            &&& (#[trigger] final(ids)@[p]) < final(reps)@.len()
            &&& keys@[final(reps)@[final(ids)@[p] as int] as int] == keys@[p]
        },
        forall|j: int| 0 <= j < final(reps)@.len() ==> {
            &&& final(buckets)@.contains_key(weld_bucket(keys@[(#[trigger] final(reps)@[j]) as int]))
            &&& final(buckets)@[weld_bucket(keys@[final(reps)@[j] as int])]@.contains(j as u32)
        },
        forall|h2: u64, x: u32| final(buckets)@.contains_key(h2) && #[trigger] final(buckets)@[h2]@.contains(x) ==> {
            &&& x < final(reps)@.len()
            &&& weld_bucket(keys@[final(reps)@[x as int] as int]) == h2
        },
{
    let id = reps.len() as u32;
    let ghost old_reps = reps@;
    reps.push(i as u32);
    ids.push(id);
    let ghost before_buckets = buckets@;
    let mut list = match buckets.remove(&h) {
        Some(l) => l,
        None => Vec::new(),
    };
    let ghost old_list = list@;
    assert(buckets@ == before_buckets.remove(h));
    assert(before_buckets.contains_key(h) ==> old_list == before_buckets[h]@);
    assert(!before_buckets.contains_key(h) ==> old_list == Seq::<u32>::empty());
    list.push(id);
    let ghost new_list = list@;
    let ghost mid = buckets@;
    buckets.insert(h, list);
    proof {
        assert(buckets@.contains_key(h) && buckets@[h]@ == new_list);
        assert(forall|h2: u64| h2 != h ==> (buckets@.contains_key(h2) <==> before_buckets.contains_key(h2)));
        assert(forall|h2: u64| h2 != h && buckets@.contains_key(h2) ==> buckets@[h2] == before_buckets[h2]);
        assert forall|a: int, b: int| 0 <= a < b < reps@.len() implies #[trigger] reps@[a] < #[trigger] reps@[b] by {
            if b < old_reps.len() {
                assert(reps@[a] == old_reps[a] && reps@[b] == old_reps[b]);
            } else {
                assert(reps@[a] == old_reps[a]);
            }
        }
        assert forall|j: int| 0 <= j < reps@.len() implies {
            &&& (#[trigger] reps@[j]) < i + 1
            &&& first_occurrence(keys@, reps@[j] as int)
        } by {
            if j < old_reps.len() {
                assert(reps@[j] == old_reps[j]);
            }
        }
        assert forall|p: int| 0 <= p < i + 1 implies {
            &&& (#[trigger] ids@[p]) < reps@.len()
            &&& keys@[reps@[ids@[p] as int] as int] == keys@[p]
        } by {
            if p < i {
                assert(ids@[p] == ids@.drop_last()[p]);
                assert(reps@[ids@[p] as int] == old_reps[ids@[p] as int]);
            }
        }
        assert forall|j: int| 0 <= j < reps@.len() implies {
            &&& buckets@.contains_key(weld_bucket(keys@[(#[trigger] reps@[j]) as int]))
            &&& buckets@[weld_bucket(keys@[reps@[j] as int])]@.contains(j as u32)
        } by {
            if j < old_reps.len() {
                assert(reps@[j] == old_reps[j]);
                let hj = weld_bucket(keys@[reps@[j] as int]);
                assert(before_buckets.contains_key(hj) && before_buckets[hj]@.contains(j as u32));
                if hj == h {
                    assert(new_list == old_list.push(id));
                    assert(old_list.contains(j as u32));
                    let t = choose|t: int| 0 <= t < old_list.len() && old_list[t] == j as u32;
                    assert(new_list[t] == j as u32);
                    assert(buckets@[hj]@.contains(j as u32));
                } else {
                    assert(buckets@[hj] == before_buckets[hj]);
                }
            } else {
                assert(j as u32 == id);
                assert(reps@[j] == i as u32);
                assert(new_list[new_list.len() - 1] == id);
                assert(buckets@[h]@.contains(j as u32));
            }
        }
        assert forall|h2: u64, x: u32| buckets@.contains_key(h2) && #[trigger] buckets@[h2]@.contains(x) implies {
            &&& x < reps@.len()
            &&& weld_bucket(keys@[reps@[x as int] as int]) == h2
        } by {
            if h2 == h {
                if x != id {
                    assert(old_list.contains(x));
                    assert(reps@[x as int] == old_reps[x as int]);
                }
            } else {
                assert(reps@[x as int] == old_reps[x as int]);
            }
        }
    }
}

/// Assign welded vertex ids to quantized positions. Vertex ids follow the
/// order in which keys first appear; every point maps to the vertex whose
/// representative has the same key.
pub fn weld_keys(keys: &Vec<GridKey>) -> (w: Welded)
    requires
        keys@.len() <= u32::MAX,
    ensures
        w.ids@.len() == keys@.len(),
        forall|a: int, b: int| 0 <= a < b < w.representatives@.len() ==>
            #[trigger] w.representatives@[a] < #[trigger] w.representatives@[b],
        forall|j: int| 0 <= j < w.representatives@.len() ==> {
            &&& (#[trigger] w.representatives@[j]) < keys@.len()
            &&& first_occurrence(keys@, w.representatives@[j] as int)
        },
        forall|i: int| 0 <= i < keys@.len() ==> {
            &&& (#[trigger] w.ids@[i]) < w.representatives@.len()
            &&& keys@[w.representatives@[w.ids@[i] as int] as int] == keys@[i]
        },
{
    let n = keys.len();
    let mut buckets: HashMap<u64, Vec<u32>> = HashMap::new();
    let mut reps: Vec<u32> = Vec::new();
    let mut ids: Vec<u32> = Vec::new();
    let mut i: usize = 0;
    while i < n
        invariant
            n == keys@.len(),
            n <= u32::MAX,
            i <= n,
            ids@.len() == i,
            reps@.len() <= i,
            forall|a: int, b: int| 0 <= a < b < reps@.len() ==> #[trigger] reps@[a] < #[trigger] reps@[b],
            forall|j: int| 0 <= j < reps@.len() ==> {
                &&& (#[trigger] reps@[j]) < i
                &&& first_occurrence(keys@, reps@[j] as int)
            },
            forall|p: int| 0 <= p < i ==> {
                &&& (#[trigger] ids@[p]) < reps@.len()
                &&& keys@[reps@[ids@[p] as int] as int] == keys@[p]
            },
            forall|j: int| 0 <= j < reps@.len() ==> {
                &&& buckets@.contains_key(weld_bucket(keys@[(#[trigger] reps@[j]) as int]))
                &&& buckets@[weld_bucket(keys@[reps@[j] as int])]@.contains(j as u32)
            },
            forall|h: u64, x: u32| buckets@.contains_key(h) && #[trigger] buckets@[h]@.contains(x) ==> {
                &&& x < reps@.len()
                &&& weld_bucket(keys@[reps@[x as int] as int]) == h
            },
        decreases n - i,
    {
        let k = keys[i];
        let h = bucket_of(k);
        let ghost bucket_list: Seq<u32> = if buckets@.contains_key(h) { buckets@[h]@ } else { Seq::empty() };
        let found = match buckets.get(&h) {
            Some(list) => {
                proof {
                    assert forall|t: int| 0 <= t < list@.len() implies (#[trigger] list@[t]) < reps@.len() by {
                        assert(buckets@[h]@.contains(list@[t]));
                    }
                }
                find_in_bucket(list, &reps, keys, k)
            }
            None => None,
        };
        assert(forall|x: u32| #[trigger] bucket_list.contains(x) ==> x < reps@.len());
        match found {
            Some(id) => {
                ids.push(id);
                proof {
                    assert forall|p: int| 0 <= p < i + 1 implies {
                        &&& (#[trigger] ids@[p]) < reps@.len()
                        &&& keys@[reps@[ids@[p] as int] as int] == keys@[p]
                    } by {
                        if p < i {
                            assert(ids@[p] == ids@.drop_last()[p]);
                        }
                    }
                    assert forall|j: int| 0 <= j < reps@.len() implies {
                        &&& (#[trigger] reps@[j]) < i + 1
                        &&& first_occurrence(keys@, reps@[j] as int)
                    } by {}
                }
            }
            None => {
                proof {
                    // No earlier point has this key: its vertex would be in bucket `h`.
                    assert forall|p: int| 0 <= p < i implies keys@[p] != k by {
                        if keys@[p] == k {
                            let j = ids@[p] as int;
                            assert(buckets@[weld_bucket(keys@[reps@[j] as int])]@.contains(j as u32));
                            assert(buckets@.contains_key(h));
                            let t = choose|t: int| 0 <= t < bucket_list.len() && bucket_list[t] == j as u32;
                        }
                    }
                }
                record_new_vertex(&mut buckets, &mut reps, &mut ids, keys, i, h);
            }
        }
        i += 1;
    }
    Welded { representatives: reps, ids }
}

/// Welding is exact on keys: two points share a welded vertex if and only
/// if they have the same key.
pub proof fn lemma_weld_same_key_same_vertex(keys: Seq<GridKey>, reps: Seq<u32>, ids: Seq<u32>, i: int, j: int)
    requires
        ids.len() == keys.len(),
        forall|a: int, b: int| 0 <= a < b < reps.len() ==> #[trigger] reps[a] < #[trigger] reps[b],
        forall|r: int| 0 <= r < reps.len() ==> {
            &&& (#[trigger] reps[r]) < keys.len()
            &&& first_occurrence(keys, reps[r] as int)
        },
        forall|p: int| 0 <= p < keys.len() ==> {
            &&& (#[trigger] ids[p]) < reps.len()
            &&& keys[reps[ids[p] as int] as int] == keys[p]
        },
        0 <= i < keys.len(),
        0 <= j < keys.len(),
    ensures
        ids[i] == ids[j] <==> keys[i] == keys[j],
{
    let (ri, rj) = (reps[ids[i] as int] as int, reps[ids[j] as int] as int);
    if keys[i] == keys[j] && ids[i] != ids[j] {
        assert(keys[ri] == keys[rj]);
        if ri < rj {
            assert(first_occurrence(keys, rj));
        } else if rj < ri {
            assert(first_occurrence(keys, ri));
        } else {
            if ids[i] < ids[j] {
                assert(reps[ids[i] as int] < reps[ids[j] as int]);
            } else {
                assert(reps[ids[j] as int] < reps[ids[i] as int]);
            }
        }
    }
}

} // verus!
