use vstd::prelude::*;
use vstd::seq_lib::to_multiset_contains;
use crate::random::shuffle;

verus! {

/// Number of lattice slots per axis; lattice coordinates wrap around it.
pub const POINT_COUNT: usize = 256;

/// `0, 1, ..., n - 1`.
pub open spec fn identity_seq(n: nat) -> Seq<usize> {
    Seq::new(n, |i: int| i as usize)
}

/// `p` orders the slots `0..POINT_COUNT`, each exactly once.
pub open spec fn is_slot_permutation(p: Seq<usize>) -> bool {
    &&& p.len() == POINT_COUNT
    &&& p.to_multiset() == identity_seq(POINT_COUNT as nat).to_multiset()
}

/// Slot of lattice coordinate `i`: `i` modulo the slot count, in `0..POINT_COUNT`.
pub open spec fn slot_of(i: int) -> int {
    i % (POINT_COUNT as int)
}

/// The permutation tables of gradient noise: one random order of the lattice
/// slots per axis. The gradient of lattice point `(i, j, k)` is the one stored
/// under `corner_hash(i, j, k)`.
pub struct Perlin {
    perm_x: Vec<usize>,
    perm_y: Vec<usize>,
    perm_z: Vec<usize>,
}

impl Perlin {
    /// The table of `axis` (0 for x, 1 for y, 2 for z).
    pub closed spec fn perm(&self, axis: int) -> Seq<usize> {
        if axis == 0 {
            self.perm_x@
        } else if axis == 1 {
            self.perm_y@
        } else {
            self.perm_z@
        }
    }

    /// Each of the three tables is a permutation of the slots.
    pub open spec fn wf(&self) -> bool {
        &&& is_slot_permutation(self.perm(0))
        &&& is_slot_permutation(self.perm(1))
        &&& is_slot_permutation(self.perm(2))
    }

    /// Draws the three tables from `rng`: each is the identity order shuffled.
    pub fn new(rng: &mut rand::rngs::StdRng) -> (r: Perlin)
        ensures
            r.wf(),
    {
        let perm_x = random_permutation(rng);
        let perm_y = random_permutation(rng);
        let perm_z = random_permutation(rng);
        Perlin { perm_x, perm_y, perm_z }
    }

    /// Index of the gradient of lattice point `(i, j, k)`: the exclusive or of
    /// the three tables' entries at the slots of the coordinates.
    pub fn corner_hash(&self, i: i64, j: i64, k: i64) -> (r: usize)
        requires
            self.wf(),
        ensures
            r < POINT_COUNT,
            r == self.perm(0)[slot_of(i as int)] ^ self.perm(1)[slot_of(j as int)] ^ self.perm(
                2,
            )[slot_of(k as int)],
    {
        let a = self.perm_x[lattice_slot(i)];
        let b = self.perm_y[lattice_slot(j)];
        let c = self.perm_z[lattice_slot(k)];
        proof {
            lemma_entry_in_range(self.perm(0), slot_of(i as int));
            lemma_entry_in_range(self.perm(1), slot_of(j as int));
            lemma_entry_in_range(self.perm(2), slot_of(k as int));
            assert(a < 256 && b < 256 && c < 256 ==> (a ^ b ^ c) < 256) by (bit_vector);
        }
        a ^ b ^ c
    }
}

/// An entry of a slot permutation names a slot.
proof fn lemma_entry_in_range(p: Seq<usize>, idx: int)
    requires
        is_slot_permutation(p),
        0 <= idx < p.len(),
    ensures
        p[idx] < POINT_COUNT,
{
    let x = p[idx];
    let id = identity_seq(POINT_COUNT as nat);
    to_multiset_contains(p, x);
    to_multiset_contains(id, x);
    let w = choose|w: int| 0 <= w < id.len() && id[w] == x;
}

/// Slot of lattice coordinate `i`, for every `i`, negative ones included.
fn lattice_slot(i: i64) -> (r: usize)
    ensures
        r < POINT_COUNT,
        r as int == slot_of(i as int),
{
    if i >= 0 {
        (i % 256) as usize
    } else {
        let m = -(i + 1);
        let r = 255 - m % 256;
        assert(slot_of(i as int) == 255 - (m as int) % 256) by (nonlinear_arith)
            requires
                i < 0,
                m == -(i + 1),
        ;
        r as usize
    }
}

/// The slots in a random order.
fn random_permutation(rng: &mut rand::rngs::StdRng) -> (r: Vec<usize>)
    ensures
        is_slot_permutation(r@),
{
    let mut p: Vec<usize> = Vec::new();
    let mut i: usize = 0;
    while i < POINT_COUNT
        invariant
            i <= POINT_COUNT,
            p@ =~= identity_seq(i as nat),
        decreases POINT_COUNT - i,
    {
        p.push(i);
        i = i + 1;
    }
    shuffle(&mut p, rng);
    p
}

} // verus!
