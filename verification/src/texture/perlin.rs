//! The lattice of gradient noise: three permutation tables that hash the
//! corners of a lattice cell to gradients.

use vstd::prelude::*;
use crate::utility::random::random_index;

verus! {

/// The table that sends each number below `n` to itself.
pub open spec fn identity_table(n: nat) -> Seq<usize> {
    Seq::new(n, |i: int| i as usize)
}

/// Walks the slots of `p` from slot `resolution - 1` upwards as far as slot
/// 0, and exchanges each with a slot drawn at random from slot 0 up to
/// itself.
///
/// Walking upwards, slot 0 is reached only from slot 0, that is when
/// `resolution` is 1, and the exchange is then of slot 0 with itself: the
/// table comes back as it went in.
pub fn permute(p: &mut Vec<usize>, resolution: usize)
    requires
        resolution >= 1,
        resolution == 1 ==> old(p)@.len() >= 1,
    ensures
        final(p)@ == old(p)@,
{
    let from: usize = resolution - 1;
    let mut iter: usize = from;
    while iter < 1
        invariant
            from <= iter,
            from == 0 ==> p@.len() >= 1,
            p@ == old(p)@,
        decreases 1 - iter,
    {
        let target = random_index(iter);
        let tmp = p[iter];
        p.set(iter, p[target]);
        p.set(target, tmp);
        assert(p@ =~= old(p)@);
        iter = iter + 1;
    }
}

/// Returns the permutation table for a lattice of `resolution` gradients:
/// the numbers below `resolution` in ascending order, passed through
/// `permute`, which leaves them so.
pub fn perlin_generate_perm(resolution: usize) -> (p: Vec<usize>)
    requires
        resolution >= 1,
    ensures
        p@ == identity_table(resolution as nat),
{
    let mut p: Vec<usize> = Vec::with_capacity(resolution);
    let mut iter: usize = 0;
    while iter < resolution
        invariant
            iter <= resolution,
            p@.len() == iter,
            forall|j: int| 0 <= j < iter ==> (#[trigger] p@[j]) == j,
        decreases resolution - iter,
    {
        p.push(iter);
        iter = iter + 1;
    }
    permute(&mut p, resolution);
    assert(p@ =~= identity_table(resolution as nat));
    p
}

/// The lattice of a gradient noise with `resolution` gradients.
pub struct Perlin {
    pub resolution: usize,
    pub perm_x: Vec<usize>,
    pub perm_y: Vec<usize>,
    pub perm_z: Vec<usize>,
}

/// The coordinate `c` of a lattice corner, wrapped to the 256 slots that
/// the tables are read at.
pub open spec fn wrapped(c: usize) -> usize {
    c & 255
}

impl Perlin {
    /// Whether the three tables are the ones that `new` makes.
    pub open spec fn wf(self) -> bool {
        &&& self.perm_x@ == identity_table(self.resolution as nat)
        &&& self.perm_y@ == identity_table(self.resolution as nat)
        &&& self.perm_z@ == identity_table(self.resolution as nat)
    }

    /// The number of the gradient at the lattice corner `(x, y, z)`: the
    /// three table entries for the wrapped coordinates, combined bit by
    /// bit with exclusive or.
    pub open spec fn gradient_at(self, x: usize, y: usize, z: usize) -> usize {
        self.perm_x@[wrapped(x) as int] ^ self.perm_y@[wrapped(y) as int] ^ self.perm_z@[wrapped(
            z,
        ) as int]
    }

    /// Makes the lattice for `resolution` gradients.
    pub fn new(resolution: usize) -> (lattice: Perlin)
        requires
            resolution >= 1,
        ensures
            lattice.resolution == resolution,
            lattice.wf(),
    {
        Perlin {
            resolution,
            perm_x: perlin_generate_perm(resolution),
            perm_y: perlin_generate_perm(resolution),
            perm_z: perlin_generate_perm(resolution),
        }
    }

    /// Returns the number of the gradient at the corner of the lattice
    /// cell `(i, j, k)` that lies `di`, `dj` and `dk` cells further along
    /// the three axes. The tables are read at 256 slots, so the lattice
    /// needs that many gradients; the number returned is one of the first
    /// 256.
    pub fn gradient(&self, i: usize, j: usize, k: usize, di: usize, dj: usize, dk: usize) -> (gradient:
        usize)
        requires
            self.wf(),
            self.resolution >= 256,
            i + di <= usize::MAX,
            j + dj <= usize::MAX,
            k + dk <= usize::MAX,
        ensures
            gradient == self.gradient_at((i + di) as usize, (j + dj) as usize, (k + dk) as usize),
            gradient == wrapped((i + di) as usize) ^ wrapped((j + dj) as usize) ^ wrapped(
                (k + dk) as usize,
            ),
            gradient < 256,
    {
        let x: usize = (i + di) & 255;
        let y: usize = (j + dj) & 255;
        let z: usize = (k + dk) & 255;
        assert(x < 256 && y < 256 && z < 256) by (bit_vector)
            requires
                x == (i + di) as usize & 255,
                y == (j + dj) as usize & 255,
                z == (k + dk) as usize & 255,
        ;
        assert((x ^ y ^ z) < 256) by (bit_vector)
            requires
                x < 256 && y < 256 && z < 256,
        ;
        self.perm_x[x] ^ self.perm_y[y] ^ self.perm_z[z]
    }
}

} // verus!
