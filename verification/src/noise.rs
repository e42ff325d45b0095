//! Configuration of the procedural noise sources and the seeded permutation table that all
//! lattice noises hash their coordinates through.

use std::sync::Arc;
use vstd::prelude::*;

use crate::rng::{xoshiro_draw, SeededRng};

verus! {

/// Lattice noise evaluated by each octave of a fractal noise.
#[derive(Clone, Copy, Debug, PartialEq, Eq)]
pub enum NoiseKind {
    /// Pseudo-random values on the lattice points, interpolated.
    Value,
    /// Pseudo-random gradients on the lattice points; dot products interpolated.
    Perlin,
    /// Gradient noise on a simplex (tetrahedral) lattice.
    Simplex,
    /// Worley noise: distances to feature points scattered one per cell.
    Cellular(Cellular),
}

/// How the third (time) coordinate of a noise video advances from frame to frame.
#[derive(Clone, Copy, Debug, PartialEq, Eq)]
pub enum TimeMode {
    /// `z = seconds * time_scale`: neighbouring frames read neighbouring slices.
    Continuous,
    /// `z = index * gap`: every frame reads a far-away, practically independent slice.
    PerFrame,
}

/// Distance metric of cellular noise.
#[derive(Clone, Copy, Debug, PartialEq, Eq)]
pub enum CellDistance {
    /// `sqrt(dx^2 + dy^2 + dz^2)`: round cells.
    Euclidean,
    /// `|dx| + |dy| + |dz|`: diamond-shaped cells.
    Manhattan,
    /// `max(|dx|, |dy|, |dz|)`: rectangular cells.
    Chebyshev,
}

impl Default for CellDistance {
    /// Euclidean distance.
    fn default() -> (d: CellDistance)
        ensures
            d == CellDistance::Euclidean,
    {
        CellDistance::Euclidean
    }
}

/// Feature returned by cellular noise, from the nearest (F1) and second-nearest (F2) distance.
#[derive(Clone, Copy, Debug, PartialEq, Eq)]
pub enum CellFeature {
    /// Nearest distance F1.
    F1,
    /// Second-nearest distance F2.
    F2,
    /// `F2 - F1`: cell borders stand out as ridges.
    F2MinusF1,
}

impl Default for CellFeature {
    /// The nearest distance F1.
    fn default() -> (d: CellFeature)
        ensures
            d == CellFeature::F1,
    {
        CellFeature::F1
    }
}

/// Settings of cellular (Worley) noise: distance metric and returned feature.
#[derive(Clone, Copy, Debug, PartialEq, Eq)]
pub struct Cellular {
    pub distance: CellDistance,
    pub feature: CellFeature,
}

impl Default for Cellular {
    /// Euclidean distance, F1: the settings of [`Cellular::new`].
    fn default() -> (d: Cellular)
        ensures
            d == (Cellular { distance: CellDistance::Euclidean, feature: CellFeature::F1 }),
    {
        Cellular { distance: CellDistance::Euclidean, feature: CellFeature::F1 }
    }
}

impl Cellular {
    /// Euclidean distance, F1.
    pub fn new() -> (c: Cellular)
        ensures
            c == (Cellular { distance: CellDistance::Euclidean, feature: CellFeature::F1 }),
    {
        Cellular { distance: CellDistance::Euclidean, feature: CellFeature::F1 }
    }

    /// The same settings with another distance metric.
    pub fn distance(self, d: CellDistance) -> (c: Cellular)
        ensures
            c == (Cellular { distance: d, ..self }),
    {
        Cellular { distance: d, ..self }
    }

    /// The same settings with another returned feature.
    pub fn feature(self, f: CellFeature) -> (c: Cellular)
        ensures
            c == (Cellular { feature: f, ..self }),
    {
        Cellular { feature: f, ..self }
    }
}

/// `i` reduced to the table period 512, as the non-negative remainder.
pub open spec fn wrap512(i: int) -> int {
    i % 512
}

proof fn lemma_and_511(i: i32)
    ensures
        0 <= (i & 511i32) < 512,
        (i & 511i32) as int == wrap512(i as int),
{
    assert(0 <= (i & 511i32) < 512) by (bit_vector);
    assert(i >= 0 ==> (i & 511i32) as int == i as int % 512) by (bit_vector);
    assert(i < 0 ==> (i & 511i32) as int == (i as int + 0x8000_0000 * 2) % 512) by (bit_vector);
    if i < 0 {
        assert((i as int + 0x1_0000_0000) % 512 == i as int % 512) by (nonlinear_arith);
    }
}

proof fn lemma_wrapping_add_wrap512(a: i32, b: i32)
    ensures
        wrap512(vstd::wrapping::i32_specs::wrapping_add(a, b) as int) == wrap512(a as int + b as int),
{
    let s = a as int + b as int;
    if s > i32::MAX {
        assert((s - 0x1_0000_0000) % 512 == s % 512) by (nonlinear_arith);
    } else if s < i32::MIN {
        assert((s + 0x1_0000_0000) % 512 == s % 512) by (nonlinear_arith);
    }
}

/// `0, 1, ..., 255`: the table before shuffling.
pub open spec fn identity_table() -> Seq<u8> {
    Seq::new(256, |i: int| i as u8)
}

/// `s` with the entries at `i` and `j` exchanged.
pub open spec fn swapped(s: Seq<u8>, i: int, j: int) -> Seq<u8> {
    s.update(i, s[j]).update(j, s[i])
}

/// The table after the first `k` Fisher–Yates steps driven by `draws`: step `k` (counting from 1)
/// works on position `i = 256 - k` and exchanges it with position `draws[k - 1] % (i + 1)`.
pub open spec fn shuffle_steps(draws: Seq<u32>, k: nat) -> Seq<u8>
    decreases k,
{
    if k == 0 {
        identity_table()
    } else {
        let s = shuffle_steps(draws, (k - 1) as nat);
        let i = 256 - k;
        swapped(s, i, draws[k - 1] as int % (i + 1))
    }
}

/// The 512-entry table made of the 256-entry permutation `p` written twice.
pub open spec fn doubled(p: Seq<u8>) -> Seq<u8> {
    Seq::new(512, |i: int| p[i % 256])
}

/// The table that the 255 `draws` shuffle into: all 255 Fisher–Yates steps, then doubled.
pub open spec fn table_from_draws(draws: Seq<u32>) -> Seq<u8> {
    doubled(shuffle_steps(draws, 255))
}

/// The first 255 values drawn from the generator seeded with `seed`.
pub open spec fn seed_draws(seed: u64) -> Seq<u32> {
    Seq::new(255, |k: int| xoshiro_draw(seed, k as nat))
}

/// Every shuffle prefix is a permutation of `0..=255`: 256 entries, no value twice, every value
/// present.
pub proof fn lemma_shuffle_is_permutation(draws: Seq<u32>, k: nat)
    requires
        k <= 255,
        draws.len() >= k,
    ensures
        shuffle_steps(draws, k).len() == 256,
        forall|a: int, b: int|
            0 <= a < b < 256 ==> shuffle_steps(draws, k)[a] != shuffle_steps(draws, k)[b],
        forall|v: u8| #[trigger] shuffle_steps(draws, k).contains(v),
    decreases k,
{
    if k == 0 {
        assert forall|v: u8| #[trigger] identity_table().contains(v) by {
            assert(identity_table()[v as int] == v);
        }
    } else {
        lemma_shuffle_is_permutation(draws, (k - 1) as nat);
        let s = shuffle_steps(draws, (k - 1) as nat);
        let i = 256 - k;
        let j = draws[k - 1] as int % (i + 1);
        let t = shuffle_steps(draws, k);
        assert(t == swapped(s, i, j));
        assert forall|v: u8| #[trigger] t.contains(v) by {
            assert(s.contains(v));
            let m0 = choose|m: int| 0 <= m < s.len() && s[m] == v;
            if m0 == i {
                assert(t[j] == v);
            } else if m0 == j {
                assert(t[i] == v);
            } else {
                assert(t[m0] == v);
            }
        }
    }
}

/// A 256-entry permutation of `0..=255`, stored twice (512 entries) so that two nested lookups
/// never need a second wrap. All lattice noises hash their integer coordinates through it.
pub struct Perm {
    perm: Vec<u8>,
}

impl Perm {
    #[verifier::type_invariant]
    spec fn table_has_512_entries(&self) -> bool {
        self.perm.len() == 512
    }

    /// The 512 entries of the table.
    pub closed spec fn table(&self) -> Seq<u8> {
        self.perm@
    }

    /// The table that 255 Fisher–Yates steps give, step `k` (from 1) exchanging position
    /// `256 - k` with position `draws[k - 1] % (257 - k)`, written twice.
    pub fn from_draws(draws: &Vec<u32>) -> (p: Perm)
        requires
            draws.len() == 255,
        ensures
            p.table() == table_from_draws(draws@),
    {
        let mut p: Vec<u8> = Vec::new();
        let mut i: usize = 0;
        while i < 256
            invariant
                i <= 256,
                p.len() == i,
                forall|m: int| 0 <= m < i ==> p@[m] == m as u8,
            decreases 256 - i,
        {
            p.push(i as u8);
            i += 1;
        }
        assert(p@ =~= identity_table());
        let mut k: usize = 1;
        while k <= 255
            invariant
                1 <= k <= 256,
                draws.len() == 255,
                p@ == shuffle_steps(draws@, (k - 1) as nat),
                p.len() == 256,
            decreases 256 - k,
        {
            let i = 256 - k;
            let j = (draws[k - 1] as usize) % (i + 1);
            let a = p[i];
            let b = p[j];
            p.set(i, b);
            p.set(j, a);
            proof {
                assert(shuffle_steps(draws@, k as nat) == swapped(
                    shuffle_steps(draws@, (k - 1) as nat),
                    i as int,
                    j as int,
                ));
                assert(p@ =~= shuffle_steps(draws@, k as nat));
            }
            k += 1;
        }
        let mut perm: Vec<u8> = Vec::new();
        let mut i: usize = 0;
        while i < 512
            invariant
                i <= 512,
                p.len() == 256,
                perm.len() == i,
                forall|m: int| 0 <= m < i ==> perm@[m] == p@[m % 256],
            decreases 512 - i,
        {
            perm.push(p[i % 256]);
            i += 1;
        }
        assert(perm@ =~= doubled(p@));
        Perm { perm }
    }

    /// The table shuffled by the generator seeded with `seed`: 255 `u32` draws drive the
    /// Fisher–Yates steps of [`Perm::from_draws`].
    pub fn new(seed: u64) -> (p: Arc<Perm>)
        ensures
            p.table() == table_from_draws(seed_draws(seed)),
            p.table() == table_from_draws(Seq::new(255, |k: int| xoshiro_draw(seed, k as nat))),
    {
        let mut rng = SeededRng::new(seed);
        let mut draws: Vec<u32> = Vec::new();
        let mut k: usize = 0;
        while k < 255
            invariant
                k <= 255,
                draws.len() == k,
                rng.seed() == seed,
                rng.drawn() == k,
                forall|m: int| 0 <= m < k ==> draws@[m] == xoshiro_draw(seed, m as nat),
            decreases 255 - k,
        {
            let v = rng.next_u32();
            draws.push(v);
            k += 1;
        }
        assert(draws@ =~= seed_draws(seed));
        assert(draws@ =~= Seq::new(255, |k: int| xoshiro_draw(seed, k as nat)));
        Arc::new(Perm::from_draws(&draws))
    }

    /// One-dimensional hash: the table entry at `i` taken modulo the period 512.
    pub fn hash(&self, i: i32) -> (h: usize)
        ensures
            h == self.table()[wrap512(i as int)],
    {
        proof {
            use_type_invariant(self);
            lemma_and_511(i);
        }
        self.perm[(i & 511) as usize] as usize
    }

    /// Nested hash of the lattice point `(xi, yi, zi)`: `hash(hash(hash(xi) + yi) + zi)`.
    pub fn hash3(&self, xi: i32, yi: i32, zi: i32) -> (h: usize)
        ensures
            h == hash3_of(self.table(), xi as int, yi as int, zi as int),
    {
        proof {
            use_type_invariant(self);
        }
        let a = self.hash(xi) as i32;
        let ab = a.wrapping_add(yi);
        let b = self.hash(ab) as i32;
        let bz = b.wrapping_add(zi);
        proof {
            lemma_wrapping_add_wrap512(a, yi);
            lemma_wrapping_add_wrap512(b, zi);
        }
        self.hash(bz)
    }

    /// The integer jitter numerators of the feature point of cell `(cx, cy, cz)`: three
    /// consecutive entries after the cell's nested hash. Each, divided by 256, is one axis of the
    /// feature point's offset within the cell.
    pub fn feature_hashes(&self, cx: i32, cy: i32, cz: i32) -> (o: (usize, usize, usize))
        ensures
            ({
                let h = hash3_of(self.table(), cx as int, cy as int, cz as int);
                &&& o.0 == self.table()[wrap512(h)]
                &&& o.1 == self.table()[wrap512(h + 1)]
                &&& o.2 == self.table()[wrap512(h + 2)]
            }),
    {
        proof {
            use_type_invariant(self);
        }
        let h = self.hash3(cx, cy, cz) as i32;
        (self.hash(h), self.hash(h + 1), self.hash(h + 2))
    }
}

/// `table[table[table[xi] + yi] + zi]`, every index taken modulo 512.
pub open spec fn hash3_of(t: Seq<u8>, xi: int, yi: int, zi: int) -> int {
    t[wrap512(t[wrap512(t[wrap512(xi) as int] as int + yi)] as int + zi)] as int
}

/// A seeded table is a permutation of `0..=255` written twice: each byte value occurs exactly
/// once among the first 256 entries, and entry `i + 256` repeats entry `i`.
pub proof fn lemma_seeded_table_is_doubled_permutation(seed: u64)
    ensures
        table_from_draws(seed_draws(seed)).len() == 512,
        forall|a: int, b: int|
            0 <= a < b < 256 ==> table_from_draws(seed_draws(seed))[a]
                != table_from_draws(seed_draws(seed))[b],
        forall|v: u8| #[trigger] table_from_draws(seed_draws(seed)).take(256).contains(v),
        forall|i: int|
            0 <= i < 256 ==> table_from_draws(seed_draws(seed))[i + 256]
                == #[trigger] table_from_draws(seed_draws(seed))[i],
{
    let d = seed_draws(seed);
    lemma_shuffle_is_permutation(d, 255);
    let p = shuffle_steps(d, 255);
    let t = table_from_draws(d);
    assert forall|a: int, b: int| 0 <= a < b < 256 implies t[a] != t[b] by {
        assert(t[a] == p[a % 256] && a % 256 == a);
        assert(t[b] == p[b % 256] && b % 256 == b);
    }
    assert forall|v: u8| #[trigger] t.take(256).contains(v) by {
        assert(p.contains(v));
        let m = choose|m: int| 0 <= m < p.len() && p[m] == v;
        assert(t[m] == p[m % 256] && m % 256 == m);
        assert(t.take(256)[m] == v);
    }
    assert forall|i: int| 0 <= i < 256 implies t[i + 256] == #[trigger] t[i] by {
        assert((i + 256) % 256 == i % 256);
    }
}

/// Hashing is periodic with period 512 in the coordinate, and always reads inside the table.
pub proof fn lemma_hash_period(i: int)
    ensures
        wrap512(i + 512) == wrap512(i),
        0 <= wrap512(i) < 512,
{
}

/// The table of seed `s` is shuffled by the first 255 values of the generator seeded with `s`
/// itself, in the order they are drawn: draw `k` drives Fisher–Yates step `k + 1`.
pub proof fn lemma_seed_draws_come_from_that_seed(s: u64, k: int)
    requires
        0 <= k < 255,
    ensures
        seed_draws(s).len() == 255,
        seed_draws(s)[k] == xoshiro_draw(s, k as nat),
{
}

} // verus!
