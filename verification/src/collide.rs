//! Candidate gathering for the collision grid: which grid cells a query box
//! covers, and the generation-stamped scratch that collects the unique
//! triangle ids of those cells without allocating in the steady state.

use vstd::prelude::*;
use std::collections::HashMap;
use crate::order::sort_u32s;

verus! {

broadcast use {vstd::seq_lib::group_to_multiset_ensures, vstd::std_specs::hash::group_hash_axioms};

/// A grid cell coordinate.
pub type Cell = (i32, i32, i32);

/// Lexicographic strict order on cells (x, then y, then z).
pub open spec fn cell_lt(p: Cell, q: Cell) -> bool {
    p.0 < q.0 || (p.0 == q.0 && (p.1 < q.1 || (p.1 == q.1 && p.2 < q.2)))
}

pub open spec fn in_box(c: Cell, lo: Cell, hi: Cell) -> bool {
    lo.0 <= c.0 <= hi.0 && lo.1 <= c.1 <= hi.1 && lo.2 <= c.2 <= hi.2
}

/// Every cell of the inclusive box `lo..=hi`, x-major then y then z.
pub fn cells_in_box(lo: Cell, hi: Cell) -> (cells: Vec<Cell>)
    ensures
        forall|i: int, j: int| 0 <= i < j < cells@.len() ==> cell_lt(#[trigger] cells@[i], #[trigger] cells@[j]),
        forall|c: Cell| cells@.contains(c) <==> in_box(c, lo, hi),
{
    let mut cells: Vec<Cell> = Vec::new();
    let mut x: i64 = lo.0 as i64;
    while x <= hi.0 as i64
        invariant
            lo.0 <= x,
            x > lo.0 ==> x <= hi.0 as i64 + 1,
            forall|i: int, j: int| 0 <= i < j < cells@.len() ==> cell_lt(#[trigger] cells@[i], #[trigger] cells@[j]),
            forall|i: int| 0 <= i < cells@.len() ==> (#[trigger] cells@[i]).0 < x,
            forall|c: Cell| cells@.contains(c) <==> (in_box(c, lo, hi) && c.0 < x),
        decreases hi.0 as i64 + 1 - x,
    {
        let mut y: i64 = lo.1 as i64;
        while y <= hi.1 as i64
            invariant
                lo.0 <= x <= hi.0,
                lo.1 <= y,
                y > lo.1 ==> y <= hi.1 as i64 + 1,
                forall|i: int, j: int| 0 <= i < j < cells@.len() ==> cell_lt(#[trigger] cells@[i], #[trigger] cells@[j]),
                forall|i: int| 0 <= i < cells@.len() ==> (#[trigger] cells@[i]).0 < x || (cells@[i].0 == x && cells@[i].1 < y),
                forall|c: Cell| cells@.contains(c) <==> (in_box(c, lo, hi) && (c.0 < x || (c.0 == x && c.1 < y))),
            decreases hi.1 as i64 + 1 - y,
        {
            let mut z: i64 = lo.2 as i64;
            while z <= hi.2 as i64
                invariant
                    lo.0 <= x <= hi.0,
                    lo.1 <= y <= hi.1,
                    lo.2 <= z,
                    z > lo.2 ==> z <= hi.2 as i64 + 1,
                    forall|i: int, j: int| 0 <= i < j < cells@.len() ==> cell_lt(#[trigger] cells@[i], #[trigger] cells@[j]),
                    forall|i: int| 0 <= i < cells@.len() ==> (#[trigger] cells@[i]).0 < x || (cells@[i].0 == x && cells@[i].1 < y)
                        || (cells@[i].0 == x && cells@[i].1 == y && cells@[i].2 < z),
                    forall|c: Cell| cells@.contains(c) <==> (in_box(c, lo, hi) && (c.0 < x || (c.0 == x && c.1 < y)
                        || (c.0 == x && c.1 == y && c.2 < z))),
                decreases hi.2 as i64 + 1 - z,
            {
                let c: Cell = (x as i32, y as i32, z as i32);
                let ghost before = cells@;
                cells.push(c);
                proof {
                    assert forall|i: int, j: int| 0 <= i < j < cells@.len() implies cell_lt(#[trigger] cells@[i], #[trigger] cells@[j]) by {
                        if j == before.len() {
                            assert(cells@[i] == before[i]);
                        } else {
                            assert(cells@[i] == before[i] && cells@[j] == before[j]);
                        }
                    }
                    assert forall|cc: Cell| cells@.contains(cc) <==> (in_box(cc, lo, hi) && (cc.0 < x || (cc.0 == x && cc.1 < y)
                        || (cc.0 == x && cc.1 == y && cc.2 < z + 1))) by {
                        if cc == c {
                            assert(cells@[before.len() as int] == c);
                        }
                        if cells@.contains(cc) && cc != c {
                            let w = choose|w: int| 0 <= w < cells@.len() && cells@[w] == cc;
                            assert(before[w] == cc);
                        }
                        if before.contains(cc) {
                            let w = choose|w: int| 0 <= w < before.len() && before[w] == cc;
                            assert(cells@[w] == cc);
                        }
                    }
                }
                z += 1;
            }
            y += 1;
        }
        x += 1;
    }
    cells
}

/// The ids of `bucket` that `gathered` lacks, each at its first occurrence,
/// in bucket order.
pub open spec fn fresh_ids(gathered: Seq<u32>, bucket: Seq<u32>) -> Seq<u32>
    decreases bucket.len(),
{
    if bucket.len() == 0 {
        Seq::empty()
    } else {
        let prev = fresh_ids(gathered, bucket.drop_last());
        let x = bucket.last();
        if gathered.contains(x) || prev.contains(x) {
            prev
        } else {
            prev.push(x)
        }
    }
}

/// Per-query scratch: `ids` collects the unique candidates of one query;
/// `mark[id] == generation` records that `id` is already in `ids`.
pub struct QueryScratch {
    ids: Vec<u32>,
    mark: Vec<u32>,
    generation: u32,
}

impl QueryScratch {
    /// Candidate ids gathered so far in this query.
    pub closed spec fn candidates(&self) -> Seq<u32> {
        self.ids@
    }

    /// Number of triangle ids the mark table can stamp.
    pub closed spec fn capacity(&self) -> nat {
        self.mark@.len()
    }

    /// The current query's stamp.
    pub closed spec fn generation(&self) -> u32 {
        self.generation
    }

    /// The stamp last written for each triangle id.
    pub closed spec fn marks(&self) -> Seq<u32> {
        self.mark@
    }

    /// The stamps agree with the id list: every stamp is at most the current
    /// generation, and exactly the gathered ids carry the current one.
    pub closed spec fn wf(&self) -> bool {
        &&& self.mark@.len() <= 0x1_0000_0000
        &&& self.ids@.no_duplicates()
        &&& forall|i: int| 0 <= i < self.ids@.len() ==> (#[trigger] self.ids@[i]) < self.mark@.len()
        &&& forall|j: int| 0 <= j < self.mark@.len() ==> (#[trigger] self.mark@[j]) <= self.generation
        &&& forall|j: int| 0 <= j < self.mark@.len() ==>
            (#[trigger] self.mark@[j] == self.generation <==> self.ids@.contains(j as u32))
    }

    pub fn new() -> (s: Self)
        ensures
            s.wf(),
            s.candidates().len() == 0,
            s.capacity() == 0,
    {
        QueryScratch { ids: Vec::new(), mark: Vec::new(), generation: 0 }
    }

    /// Start a query over a soup of `triangle_count` triangles: forget the
    /// previous candidates, grow the mark table if needed, and move to a
    /// fresh generation (resetting the stamps once when the counter wraps).
    pub fn begin(&mut self, triangle_count: usize)
        requires
            old(self).wf(),
            triangle_count <= 0x1_0000_0000,
        ensures
            final(self).wf(),
            final(self).candidates().len() == 0,
            final(self).capacity() == if old(self).capacity() < triangle_count { triangle_count as nat } else { old(self).capacity() },
            final(self).marks().len() == final(self).capacity(),
            old(self).generation() < u32::MAX ==> {
                &&& final(self).generation() == old(self).generation() + 1
                &&& forall|i: int| 0 <= i < final(self).marks().len() ==> #[trigger] final(self).marks()[i] == if i
                    < old(self).marks().len() {
                    old(self).marks()[i]
                } else {
                    0
                }
            },
            old(self).generation() == u32::MAX ==> {
                &&& final(self).generation() == 1
                &&& forall|i: int| 0 <= i < final(self).marks().len() ==> #[trigger] final(self).marks()[i] == 0
            },
            forall|i: int| 0 <= i < final(self).marks().len() ==> #[trigger] final(self).marks()[i] < final(self).generation(),
    {
        self.ids.clear();
        if self.mark.len() < triangle_count {
            self.mark.resize(triangle_count, 0);
        }
        let ghost old_gen = self.generation;
        assert forall|j: int| 0 <= j < self.mark@.len() implies #[trigger] self.mark@[j] == if j < old(self).mark@.len() {
            old(self).mark@[j]
        } else {
            0
        } by {}
        let ghost resized = self.mark@;
        assert(forall|j: int| 0 <= j < self.mark@.len() ==> (#[trigger] self.mark@[j]) <= old_gen);
        self.generation = self.generation.wrapping_add(1);
        if self.generation == 0 {
            // Wrapped after ~4 billion queries: stale marks could alias the
            // recycled generation, so reset them once.
            let n = self.mark.len();
            let mut j: usize = 0;
            while j < n
                invariant
                    n == self.mark@.len(),
                    self.ids@.len() == 0,
                    j <= n,
                    forall|k: int| 0 <= k < j ==> #[trigger] self.mark@[k] == 0,
                decreases n - j,
            {
                self.mark.set(j, 0);
                j += 1;
            }
            self.generation = 1;
            assert forall|j: int| 0 <= j < self.mark@.len() implies (#[trigger] self.mark@[j]) == 0 by {}
        } else {
            assert(self.generation == old_gen + 1);
            assert(self.mark@ == resized);
        }
        proof {
            assert forall|j: int| 0 <= j < self.mark@.len() implies
                (#[trigger] self.mark@[j] == self.generation <==> self.ids@.contains(j as u32)) by {
                assert(self.mark@[j] < self.generation);
                assert(!self.ids@.contains(j as u32));
            }
        }
    }

    /// Add the ids of one grid bucket, skipping those already gathered.
    pub fn add_bucket(&mut self, bucket: &[u32])
        requires
            old(self).wf(),
            forall|i: int| 0 <= i < bucket@.len() ==> (#[trigger] bucket@[i]) < old(self).capacity(),
        ensures
            final(self).wf(),
            final(self).capacity() == old(self).capacity(),
            final(self).candidates() == old(self).candidates() + fresh_ids(old(self).candidates(), bucket@),
            forall|x: u32| final(self).candidates().contains(x) <==> (old(self).candidates().contains(x) || bucket@.contains(x)),
    {
        let n = bucket.len();
        let mut i: usize = 0;
        while i < n
            invariant
                n == bucket@.len(),
                i <= n,
                self.wf(),
                self.mark@.len() == old(self).mark@.len(),
                self.ids@ == old(self).ids@ + fresh_ids(old(self).ids@, bucket@.subrange(0, i as int)),
                forall|k: int| 0 <= k < bucket@.len() ==> (#[trigger] bucket@[k]) < self.mark@.len(),
                forall|x: u32| self.ids@.contains(x) <==> (old(self).ids@.contains(x) || exists|k: int| 0 <= k < i && #[trigger] bucket@[k] == x),
            decreases n - i,
        {
            let id = bucket[i];
            let ghost before = self.ids@;
            proof {
                let sub = bucket@.subrange(0, i + 1);
                let prev = fresh_ids(old(self).ids@, bucket@.subrange(0, i as int));
                assert(sub.drop_last() == bucket@.subrange(0, i as int));
                assert(sub.last() == id);
                assert(before == old(self).ids@ + prev);
                assert(before.contains(id) <==> (old(self).ids@.contains(id) || prev.contains(id))) by {
                    if before.contains(id) {
                        let w = choose|w: int| 0 <= w < before.len() && before[w] == id;
                        if w < old(self).ids@.len() {
                            assert(old(self).ids@[w] == id);
                        } else {
                            assert(prev[w - old(self).ids@.len()] == id);
                        }
                    }
                    if old(self).ids@.contains(id) {
                        let w = choose|w: int| 0 <= w < old(self).ids@.len() && old(self).ids@[w] == id;
                        assert(before[w] == id);
                    }
                    if prev.contains(id) {
                        let w = choose|w: int| 0 <= w < prev.len() && prev[w] == id;
                        assert(before[old(self).ids@.len() + w] == id);
                    }
                }
                assert(self.mark@[id as int] == self.generation <==> before.contains(id));
            }
            if self.mark[id as usize] != self.generation {
                self.mark.set(id as usize, self.generation);
                self.ids.push(id);
                proof {
                    assert(self.ids@ == before.push(id));
                    assert(!before.contains(id));
                    assert forall|a: int, b: int| 0 <= a < self.ids@.len() && 0 <= b < self.ids@.len() && a != b
                        implies self.ids@[a] != self.ids@[b] by {
                        if a < before.len() && b < before.len() {
                            assert(before.no_duplicates());
                        } else if a == before.len() {
                            assert(before.contains(self.ids@[b]));
                        } else {
                            assert(before.contains(self.ids@[a]));
                        }
                    }
                    assert forall|j: int| 0 <= j < self.mark@.len() implies
                        (#[trigger] self.mark@[j] == self.generation <==> self.ids@.contains(j as u32)) by {
                        if j == id as int {
                            assert(self.ids@[before.len() as int] == id);
                        } else {
                            if self.ids@.contains(j as u32) {
                                let w = choose|w: int| 0 <= w < self.ids@.len() && self.ids@[w] == j as u32;
                                assert(w < before.len());
                                assert(before.contains(j as u32));
                            }
                            if before.contains(j as u32) {
                                let w = choose|w: int| 0 <= w < before.len() && before[w] == j as u32;
                                assert(self.ids@[w] == j as u32);
                            }
                        }
                    }
                }
            }
            proof {
                assert forall|x: u32| self.ids@.contains(x) <==> (old(self).ids@.contains(x) || exists|k: int| 0 <= k < i + 1 && #[trigger] bucket@[k] == x) by {
                    if x == id {
                        assert(self.mark@[id as int] == self.generation);
                        assert(bucket@[i as int] == x);
                    }
                    if self.ids@.contains(x) && !before.contains(x) {
                        assert(x == id);
                    }
                    if before.contains(x) {
                        let w = choose|w: int| 0 <= w < before.len() && before[w] == x;
                        assert(self.ids@[w] == x);
                    }
                }
            }
            i += 1;
        }
        proof {
            assert(bucket@.subrange(0, n as int) == bucket@);
            assert forall|x: u32| bucket@.contains(x) <==> exists|k: int| 0 <= k < n && #[trigger] bucket@[k] == x by {
                if bucket@.contains(x) {
                    let k = choose|k: int| 0 <= k < bucket@.len() && bucket@[k] == x;
                }
            }
        }
    }

    /// Put the gathered ids in ascending order, so downstream iteration (and
    /// the sequential contact resolution of the capsule slide) is
    /// deterministic.
    pub fn sort_candidates(&mut self)
        requires
            old(self).wf(),
        ensures
            final(self).wf(),
            final(self).capacity() == old(self).capacity(),
            forall|x: u32| final(self).candidates().contains(x) <==> old(self).candidates().contains(x),
            forall|i: int, j: int| 0 <= i < j < final(self).candidates().len() ==>
                #[trigger] final(self).candidates()[i] < #[trigger] final(self).candidates()[j],
    {
        let ghost before = self.ids@;
        sort_u32s(&mut self.ids);
        proof {
            assert forall|x: u32| self.ids@.contains(x) <==> before.contains(x) by {
                assert(self.ids@.to_multiset().count(x) == before.to_multiset().count(x));
            }
            before.lemma_multiset_has_no_duplicates();
            self.ids@.lemma_multiset_has_no_duplicates_conv();
            assert forall|i: int| 0 <= i < self.ids@.len() implies (#[trigger] self.ids@[i]) < self.mark@.len() by {
                assert(self.ids@.contains(self.ids@[i]));
                assert(before.contains(self.ids@[i]));
                let w = choose|w: int| 0 <= w < before.len() && before[w] == self.ids@[i];
            }
            assert forall|i: int, j: int| 0 <= i < j < self.ids@.len() implies #[trigger] self.ids@[i] < #[trigger] self.ids@[j] by {
                assert(self.ids@[i] <= self.ids@[j]);
            }
        }
    }

    /// The gathered candidate ids.
    pub fn ids(&self) -> (ids: &Vec<u32>)
        ensures
            ids@ == self.candidates(),
    {
        &self.ids
    }
}

/// The grid's table key of a cell: the three coordinates, shifted to be
/// non-negative, side by side in 32-bit lanes.
pub open spec fn cell_key(c: Cell) -> int {
    (c.0 + 0x8000_0000) * 0x1_0000_0000_0000_0000 + (c.1 + 0x8000_0000) * 0x1_0000_0000 + (c.2 + 0x8000_0000)
}

proof fn lemma_cell_key_injective(c: Cell, d: Cell)
    requires
        cell_key(c) == cell_key(d),
    ensures
        c == d,
{
    let (a1, b1, e1) = ((c.0 + 0x8000_0000) as int, (c.1 + 0x8000_0000) as int, (c.2 + 0x8000_0000) as int);
    let (a2, b2, e2) = ((d.0 + 0x8000_0000) as int, (d.1 + 0x8000_0000) as int, (d.2 + 0x8000_0000) as int);
    assert(a1 == a2 && b1 == b2 && e1 == e2) by (nonlinear_arith)
        requires
            0 <= a1 < 0x1_0000_0000, 0 <= b1 < 0x1_0000_0000, 0 <= e1 < 0x1_0000_0000,
            0 <= a2 < 0x1_0000_0000, 0 <= b2 < 0x1_0000_0000, 0 <= e2 < 0x1_0000_0000,
            a1 * 0x1_0000_0000_0000_0000 + b1 * 0x1_0000_0000 + e1 == a2 * 0x1_0000_0000_0000_0000 + b2
                * 0x1_0000_0000 + e2,
    ;
}

fn key_of(c: Cell) -> (k: u128)
    ensures
        k == cell_key(c),
{
    let a = (c.0 as i64 + 0x8000_0000) as u128;
    let b = (c.1 as i64 + 0x8000_0000) as u128;
    let e = (c.2 as i64 + 0x8000_0000) as u128;
    a * 0x1_0000_0000_0000_0000u128 + b * 0x1_0000_0000u128 + e
}

/// A uniform hash grid over triangle ids: each cell lists, in insertion
/// order, the triangles whose bounding box covers it.
pub struct CellGrid {
    buckets: HashMap<u128, Vec<u32>>,
    count: u32,
}

impl CellGrid {
    /// The ids filed under cell `c`.
    pub closed spec fn bucket(&self, c: Cell) -> Seq<u32> {
        if self.buckets@.contains_key(cell_key(c) as u128) {
            self.buckets@[cell_key(c) as u128]@
        } else {
            Seq::empty()
        }
    }

    /// Number of triangles filed so far; ids are `0..count`.
    pub closed spec fn count(&self) -> nat {
        self.count as nat
    }

    /// Every table key is some cell's key, and every filed id is below the count.
    pub closed spec fn wf(&self) -> bool {
        &&& forall|k: u128| #[trigger] self.buckets@.contains_key(k) ==> exists|c: Cell| cell_key(c) == k
        &&& forall|c: Cell, t: int| 0 <= t < self.bucket(c).len() ==> #[trigger] self.bucket(c)[t] < self.count
    }

    pub fn new() -> (g: Self)
        ensures
            g.wf(),
            g.count() == 0,
            forall|c: Cell| g.bucket(c) == Seq::<u32>::empty(),
    {
        CellGrid { buckets: HashMap::new(), count: 0 }
    }

    /// Number of triangles filed so far.
    pub fn triangle_count(&self) -> (n: u32)
        ensures
            n == self.count(),
    {
        self.count
    }

    /// Append `id` to the bucket of cell `c`.
    fn push_to_cell(&mut self, c: Cell, id: u32)
        requires
            old(self).wf(),
            id < old(self).count,
        ensures
            final(self).wf(),
            final(self).count == old(self).count,
            final(self).bucket(c) == old(self).bucket(c).push(id),
            forall|d: Cell| d != c ==> final(self).bucket(d) == old(self).bucket(d),
    {
        let k = key_of(c);
        let ghost before = self.buckets@;
        let mut list = match self.buckets.remove(&k) {
            Some(l) => l,
            None => Vec::new(),
        };
        assert(list@ == old(self).bucket(c));
        list.push(id);
        let ghost new_list = list@;
        self.buckets.insert(k, list);
        proof {
            assert forall|d: Cell| d != c implies self.bucket(d) == old(self).bucket(d) by {
                if cell_key(d) == cell_key(c) {
                    lemma_cell_key_injective(c, d);
                }
            }
            assert forall|kk: u128| #[trigger] self.buckets@.contains_key(kk) implies exists|e: Cell| cell_key(e) == kk by {
                if kk != k {
                    assert(before.contains_key(kk));
                }
            }
            assert forall|d: Cell, t: int| 0 <= t < self.bucket(d).len() implies #[trigger] self.bucket(d)[t] < self.count by {
                if d != c {
                    assert(self.bucket(d) == old(self).bucket(d));
                } else if t < new_list.len() - 1 {
                    assert(self.bucket(d)[t] == old(self).bucket(d)[t]);
                }
            }
        }
    }

    /// File the next triangle (id = the current count) under every cell of
    /// its cell box `lo..=hi`, and return its id.
    pub fn push_triangle(&mut self, lo: Cell, hi: Cell) -> (id: u32)
        requires
            old(self).wf(),
            old(self).count() < u32::MAX,
        ensures
            final(self).wf(),
            id == old(self).count(),
            final(self).count() == old(self).count() + 1,
            forall|c: Cell| #[trigger] final(self).bucket(c) == if in_box(c, lo, hi) {
                old(self).bucket(c).push(id)
            } else {
                old(self).bucket(c)
            },
    {
        let id = self.count;
        self.count = self.count + 1;
        proof {
            assert forall|d: Cell, t: int| 0 <= t < self.bucket(d).len() implies #[trigger] self.bucket(d)[t] < self.count by {
                assert(old(self).bucket(d)[t] < old(self).count);
            }
        }
        let ghost start = *self;
        let cells = cells_in_box(lo, hi);
        let n = cells.len();
        let mut i: usize = 0;
        while i < n
            invariant
                n == cells@.len(),
                i <= n,
                self.wf(),
                self.count == id + 1,
                forall|a: int, b: int| 0 <= a < b < cells@.len() ==> cell_lt(#[trigger] cells@[a], #[trigger] cells@[b]),
                forall|c: Cell| #[trigger] self.bucket(c) == if cells@.subrange(0, i as int).contains(c) {
                    start.bucket(c).push(id)
                } else {
                    start.bucket(c)
                },
            decreases n - i,
        {
            let c = cells[i];
            proof {
                assert(!cells@.subrange(0, i as int).contains(c)) by {
                    if cells@.subrange(0, i as int).contains(c) {
                        let w = choose|w: int| 0 <= w < i && cells@.subrange(0, i as int)[w] == c;
                        assert(cell_lt(cells@[w], cells@[i as int]));
                    }
                }
            }
            let ghost prev = *self;
            self.push_to_cell(c, id);
            proof {
                assert forall|d: Cell| #[trigger] self.bucket(d) == if cells@.subrange(0, i + 1).contains(d) {
                    start.bucket(d).push(id)
                } else {
                    start.bucket(d)
                } by {
                    let pre = cells@.subrange(0, i as int);
                    assert(cells@.subrange(0, i + 1) == pre.push(c));
                    assert(pre.push(c)[pre.len() as int] == c);
                    if d != c {
                        assert(prev.bucket(d) == self.bucket(d));
                        if pre.push(c).contains(d) {
                            let w = choose|w: int| 0 <= w < pre.len() + 1 && pre.push(c)[w] == d;
                            assert(pre[w] == d);
                        }
                        if pre.contains(d) {
                            let w = choose|w: int| 0 <= w < pre.len() && pre[w] == d;
                            assert(pre.push(c)[w] == d);
                        }
                    }
                }
            }
            i += 1;
        }
        proof {
            assert(cells@.subrange(0, n as int) == cells@);
        }
        id
    }

    /// Gather into `scratch` the ascending, duplicate-free ids filed under
    /// any cell of the box `lo..=hi`.
    pub fn gather(&self, lo: Cell, hi: Cell, scratch: &mut QueryScratch)
        requires
            self.wf(),
            old(scratch).wf(),
        ensures
            final(scratch).wf(),
            final(scratch).capacity() == if old(scratch).capacity() < self.count() {
                self.count()
            } else {
                old(scratch).capacity()
            },
            forall|i: int, j: int| 0 <= i < j < final(scratch).candidates().len() ==>
                #[trigger] final(scratch).candidates()[i] < #[trigger] final(scratch).candidates()[j],
            forall|x: u32| final(scratch).candidates().contains(x) <==>
                exists|c: Cell| in_box(c, lo, hi) && #[trigger] self.bucket(c).contains(x),
    {
        scratch.begin(self.count as usize);
        let cells = cells_in_box(lo, hi);
        let n = cells.len();
        let mut i: usize = 0;
        while i < n
            invariant
                n == cells@.len(),
                i <= n,
                self.wf(),
                scratch.wf(),
                scratch.capacity() >= self.count(),
                scratch.capacity() == if old(scratch).capacity() < self.count() {
                    self.count()
                } else {
                    old(scratch).capacity()
                },
                forall|x: u32| scratch.candidates().contains(x) <==>
                    exists|j: int| 0 <= j < i && #[trigger] self.bucket(cells@[j]).contains(x),
            decreases n - i,
        {
            let c = cells[i];
            let k = key_of(c);
            let ghost before = scratch.candidates();
            match self.buckets.get(&k) {
                Some(bucket) => {
                    assert(bucket@ == self.bucket(c));
                    proof {
                        assert forall|t: int| 0 <= t < bucket@.len() implies (#[trigger] bucket@[t]) < scratch.capacity() by {
                            assert(self.bucket(c)[t] < self.count);
                        }
                    }
                    scratch.add_bucket(bucket.as_slice());
                }
                None => {
                    assert(self.bucket(c) == Seq::<u32>::empty());
                }
            }
            proof {
                assert forall|x: u32| scratch.candidates().contains(x) <==>
                    exists|j: int| 0 <= j < i + 1 && #[trigger] self.bucket(cells@[j]).contains(x) by {
                    if self.bucket(cells@[i as int]).contains(x) {
                        assert(exists|j: int| 0 <= j < i + 1 && #[trigger] self.bucket(cells@[j]).contains(x));
                    }
                    if exists|j: int| 0 <= j < i + 1 && #[trigger] self.bucket(cells@[j]).contains(x) {
                        let j = choose|j: int| 0 <= j < i + 1 && #[trigger] self.bucket(cells@[j]).contains(x);
                        if j < i {
                            assert(before.contains(x));
                        }
                    }
                }
            }
            i += 1;
        }
        scratch.sort_candidates();
        proof {
            assert forall|x: u32| scratch.candidates().contains(x) <==>
                exists|c: Cell| in_box(c, lo, hi) && #[trigger] self.bucket(c).contains(x) by {
                if exists|j: int| 0 <= j < n && #[trigger] self.bucket(cells@[j]).contains(x) {
                    let j = choose|j: int| 0 <= j < n && #[trigger] self.bucket(cells@[j]).contains(x);
                    assert(cells@.contains(cells@[j]));
                    assert(in_box(cells@[j], lo, hi));
                }
                if exists|c: Cell| in_box(c, lo, hi) && #[trigger] self.bucket(c).contains(x) {
                    let c = choose|c: Cell| in_box(c, lo, hi) && #[trigger] self.bucket(c).contains(x);
                    assert(cells@.contains(c));
                    let j = choose|j: int| 0 <= j < cells@.len() && cells@[j] == c;
                    assert(self.bucket(cells@[j]).contains(x));
                }
            }
        }
    }
}

} // verus!
