//! The authoritative voxel field store: a seeded procedural generator plus
//! the cache of generated and brushed regions. Loading is idempotent, and a
//! brush is the only mutator of observable content.

use vstd::prelude::*;
use crate::region::{Region, Position, in_box, box_cells};
use crate::material::{Material, spec_procedural, procedural};
use crate::region_map::RegionMap;

verus! {

/// A brush edit: it writes `material` into every region at level `lod`
/// whose position lies in the closed box spanned by `lo` and `hi`. A brush
/// materializes content for every region in its range, resident or not, so
/// a brush over unloaded space is well-defined rather than a no-op.
#[derive(Clone, Copy, PartialEq, Eq, Structural, Debug)]
pub struct Brush {
    pub lo: Position,
    pub hi: Position,
    pub lod: u8,
    pub material: Material,
}

impl Brush {
    /// The region keys this brush touches.
    pub open spec fn affects(self, r: Region) -> bool {
        r.lod == self.lod && in_box(self.lo, self.hi, r.pos)
    }
}

/// The caches `pre` and `cur` agree at region `r`.
pub open spec fn unchanged_at(
    pre: Map<Region, Material>,
    cur: Map<Region, Material>,
    r: Region,
) -> bool {
    cur.contains_key(r) == pre.contains_key(r) && (cur.contains_key(r) ==> cur[r] == pre[r])
}

/// Observable content of a field with seed `seed` and cache `cache` at
/// region `r`: the cached value if one exists, the procedural value
/// otherwise.
pub open spec fn content_at(seed: u64, cache: Map<Region, Material>, r: Region) -> Material {
    if cache.contains_key(r) {
        cache[r]
    } else {
        spec_procedural(seed, r)
    }
}

/// The authoritative voxel field.
pub struct FieldStore {
    seed: u64,
    cache: RegionMap<Material>,
    /// How many times the procedural generator has run for each region.
    gen_count: Ghost<Map<Region, nat>>,
}

impl FieldStore {
    pub closed spec fn wf(self) -> bool {
        self.cache.wf()
    }

    pub closed spec fn seed(self) -> u64 {
        self.seed
    }

    /// The regions holding cached (generated or brushed) content.
    pub closed spec fn cache_map(self) -> Map<Region, Material> {
        self.cache@
    }

    /// Observable content at region `r`.
    pub open spec fn content(self, r: Region) -> Material {
        content_at(self.seed(), self.cache_map(), r)
    }

    /// How many times the procedural generator has run for region `r`.
    pub closed spec fn generations(self, r: Region) -> nat {
        if self.gen_count@.contains_key(r) {
            self.gen_count@[r]
        } else {
            0
        }
    }

    pub fn new(seed: u64) -> (f: Self)
        ensures
            f.wf(),
            f.seed() == seed,
            f.cache_map() == Map::<Region, Material>::empty(),
            forall|r: Region| f.generations(r) == 0,
    {
        FieldStore { seed, cache: RegionMap::new(), gen_count: Ghost(Map::empty()) }
    }

    /// Loads one region: returns its cached content, or else generates,
    /// caches and returns its procedural content. Observable content is
    /// unchanged everywhere, and a cached region never runs the generator
    /// again.
    pub fn load(&mut self, r: Region) -> (m: Material)
        requires
            old(self).wf(),
        ensures
            final(self).wf(),
            m == old(self).content(r),
            final(self).seed() == old(self).seed(),
            final(self).cache_map() == old(self).cache_map().insert(r, m),
            forall|r2: Region| final(self).content(r2) == old(self).content(r2),
            final(self).generations(r) == old(self).generations(r) + (
            if old(self).cache_map().contains_key(r) {
                0int
            } else {
                1int
            }),
            forall|r2: Region| r2 != r ==> final(self).generations(r2) == old(self).generations(
                r2,
            ),
    {
        match self.cache.get(r) {
            Some(m) => {
                proof {
                    assert(self.cache@ =~= self.cache@.insert(r, m));
                }
                m
            },
            None => {
                let m = procedural(self.seed, r);
                self.cache.insert(r, m);
                proof {
                    let ghost old_n = old(self).generations(r);
                    self.gen_count@ = self.gen_count@.insert(r, (old_n + 1) as nat);
                }
                m
            },
        }
    }

    /// Applies a brush: every region the brush touches now holds the brush
    /// material, everything else keeps its content, and the returned list
    /// names each changed region exactly once with its new content. The
    /// generator never runs during a brush.
    pub fn apply_brush(&mut self, b: Brush) -> (changed: Vec<(Region, Material)>)
        requires
            old(self).wf(),
        ensures
            final(self).wf(),
            final(self).seed() == old(self).seed(),
            forall|r: Region| b.affects(r) ==> final(self).content(r) == b.material,
            forall|r: Region|
                !b.affects(r) ==> final(self).content(r) == old(self).content(r),
            forall|i: int|
                0 <= i < changed@.len() ==> b.affects((#[trigger] changed@[i]).0) && changed@[i].1
                    == b.material,
            forall|r: Region|
                b.affects(r) ==> exists|i: int|
                    0 <= i < changed@.len() && (#[trigger] changed@[i]).0 == r,
            forall|i: int, j: int|
                0 <= i < j < changed@.len() ==> (#[trigger] changed@[i]).0 != (
                #[trigger] changed@[j]).0,
            forall|r: Region| final(self).generations(r) == old(self).generations(r),
    {
        let cells = box_cells(b.lo, b.hi);
        let mut changed: Vec<(Region, Material)> = Vec::new();
        let n = cells.len();
        let mut k: usize = 0;
        while k < n
            invariant
                self.wf(),
                n == cells@.len(),
                0 <= k <= n,
                self.seed == old(self).seed(),
                self.gen_count == old(self).gen_count,
                forall|p: Position| cells@.contains(p) <==> in_box(b.lo, b.hi, p),
                forall|i: int, j: int| 0 <= i < j < n ==> cells@[i] != cells@[j],
                changed@.len() == k,
                forall|i: int|
                    0 <= i < k ==> (#[trigger] changed@[i]) == (
                    Region { pos: cells@[i], lod: b.lod },
                    b.material,
                ),
                forall|i: int|
                    0 <= i < k ==> self.cache@.contains_key((#[trigger] changed@[i]).0)
                        && self.cache@[changed@[i].0] == b.material,
                forall|r: Region|
                    (forall|i: int| 0 <= i < k ==> (#[trigger] changed@[i]).0 != r)
                        ==> #[trigger] unchanged_at(old(self).cache@, self.cache@, r),
            decreases n - k,
        {
            let rk = Region { pos: cells[k], lod: b.lod };
            proof {
                assert forall|i: int| 0 <= i < k implies (#[trigger] changed@[i]).0 != rk by {
                    assert(cells@[i] != cells@[k as int]);
                }
            }
            let ghost pre_changed = changed@;
            let ghost pre_cache = self.cache@;
            self.cache.remove(rk);
            self.cache.insert(rk, b.material);
            changed.push((rk, b.material));
            proof {
                assert forall|r: Region|
                    (forall|i: int| 0 <= i < changed@.len() ==> (#[trigger] changed@[i]).0
                        != r) implies #[trigger] unchanged_at(
                    old(self).cache@,
                    self.cache@,
                    r,
                ) by {
                    assert(changed@[changed@.len() - 1].0 == rk);
                    assert(r != rk);
                    assert forall|i: int|
                        0 <= i < pre_changed.len() implies (#[trigger] pre_changed[i]).0 != r by {
                        assert(changed@[i].0 != r);
                    }
                    assert(unchanged_at(old(self).cache@, pre_cache, r));
                    assert(self.cache@ == pre_cache.remove(rk).insert(rk, b.material));
                }
            }
            k = k + 1;
        }
        proof {
            assert forall|r: Region| b.affects(r) implies exists|i: int|
                0 <= i < changed@.len() && (#[trigger] changed@[i]).0 == r by {
                assert(cells@.contains(r.pos));
                let i = choose|i: int| 0 <= i < cells@.len() && cells@[i] == r.pos;
                assert(changed@[i].0 == r);
            }
            assert forall|r: Region| b.affects(r) implies final(self).content(r) == b.material by {
                let i = choose|i: int|
                    0 <= i < changed@.len() && (#[trigger] changed@[i]).0 == r;
                assert(self.cache@.contains_key(r) && self.cache@[r] == b.material);
            }
            assert forall|r: Region| !b.affects(r) implies final(self).content(r) == old(
                self,
            ).content(r) by {
                assert forall|i: int|
                    0 <= i < changed@.len() implies (#[trigger] changed@[i]).0 != r by {
                    assert(cells@.contains(cells@[i]));
                }
                assert(unchanged_at(old(self).cache@, self.cache@, r));
            }
        }
        changed
    }
}

} // verus!
