//! The lattice tables of Perlin noise: three random permutations of the 256
//! lattice hashes, one for each axis.
use vstd::prelude::*;
use crate::random::gen_range;

verus! {

/// Number of entries of each lattice table.
pub const LATTICE_SIZE: usize = 256;

/// The sequence `0, 1, ..., n - 1`.
pub open spec fn range_seq(n: nat) -> Seq<usize> {
    Seq::new(n, |i: int| i as usize)
}

/// `s` holds each of `0, 1, ..., n - 1` exactly once.
pub open spec fn is_permutation_of_range(s: Seq<usize>, n: nat) -> bool {
    s.len() == n && s.to_multiset() == range_seq(n).to_multiset()
}

/// Swapping two entries keeps the entries.
proof fn lemma_swap_keeps_multiset(s: Seq<usize>, i: int, j: int)
    requires
        0 <= i < s.len(),
        0 <= j < s.len(),
    ensures
        s.update(i, s[j]).update(j, s[i]).to_multiset() == s.to_multiset(),
{
    broadcast use vstd::seq_lib::group_to_multiset_ensures;
    broadcast use vstd::multiset::group_multiset_axioms;

    let s1 = s.update(i, s[j]);
    assert(s1.to_multiset() == s.to_multiset().insert(s[j]).remove(s[i]));
    assert(s1.update(j, s[i]).to_multiset() == s1.to_multiset().insert(s[i]).remove(s1[j]));
    if i == j {
        assert(s1 == s);
        assert(s.update(i, s[j]).update(j, s[i]) =~= s);
    } else {
        assert(s1[j] == s[j]);
        assert(s.to_multiset().insert(s[j]).remove(s[i]).insert(s[i]).remove(s[j])
            =~= s.to_multiset());
    }
}

/// Every entry of a permutation of `0..n` lies below `n`.
pub proof fn lemma_permutation_entries_below(s: Seq<usize>, n: nat)
    requires
        is_permutation_of_range(s, n),
    ensures
        forall|k: int| 0 <= k < s.len() ==> (#[trigger] s[k] as nat) < n,
{
    broadcast use vstd::seq_lib::group_to_multiset_ensures;

    assert forall|k: int| 0 <= k < s.len() implies (#[trigger] s[k] as nat) < n by {
        assert(s.contains(s[k]));
        assert(s.to_multiset().count(s[k]) > 0);
        assert(range_seq(n).contains(s[k]));
        let m = choose|m: int| 0 <= m < n && range_seq(n)[m] == s[k];
        assert(range_seq(n)[m] == m as usize);
    }
}

/// `s` with its entries at `i` and `j` exchanged.
pub open spec fn swapped(s: Seq<usize>, i: int, j: int) -> Seq<usize> {
    s.update(i, s[j]).update(j, s[i])
}

/// `d` can steer a shuffle of `n` entries: the draw for each index `i`
/// from 1 on lies at or below `i` (the draw for index 0 is not used).
pub open spec fn valid_draws(d: Seq<usize>, n: nat) -> bool {
    d.len() == n && forall|i: int| 1 <= i < n ==> #[trigger] d[i] <= i
}

/// The Fisher-Yates shuffle of `s` steered by `d`, from the last index down
/// to `k`: first the indices above `k` are handled, then entry `k` is
/// exchanged with entry `d[k]`.
pub open spec fn shuffled(s: Seq<usize>, d: Seq<usize>, k: int) -> Seq<usize>
    decreases s.len() - k,
{
    if 0 <= k < s.len() {
        swapped(shuffled(s, d, k + 1), k, d[k] as int)
    } else {
        s
    }
}

/// The shuffle keeps the length and the entries.
proof fn lemma_shuffled_keeps_entries(s: Seq<usize>, d: Seq<usize>, k: int)
    requires
        valid_draws(d, s.len()),
        1 <= k,
    ensures
        shuffled(s, d, k).len() == s.len(),
        shuffled(s, d, k).to_multiset() == s.to_multiset(),
    decreases s.len() - k,
{
    if k < s.len() {
        lemma_shuffled_keeps_entries(s, d, k + 1);
        let t = shuffled(s, d, k + 1);
        assert(d[k] <= k);
        lemma_swap_keeps_multiset(t, k, d[k] as int);
    }
}

/// `s` is a shuffle of `0, 1, ..., 255` by some valid draws.
pub open spec fn is_shuffled_range(s: Seq<usize>) -> bool {
    exists|d: Seq<usize>|
        valid_draws(d, LATTICE_SIZE as nat) && s == #[trigger] shuffled(
            range_seq(LATTICE_SIZE as nat),
            d,
            1,
        )
}

/// Shuffles `v` in place as the draws say (Fisher-Yates): from the last
/// entry down to the second, entry `i` is exchanged with entry `draws[i]`.
pub fn permute_with(v: &mut Vec<usize>, draws: &Vec<usize>)
    requires
        valid_draws(draws@, old(v)@.len()),
    ensures
        final(v)@ == shuffled(old(v)@, draws@, 1),
{
    let n = v.len();
    if n <= 1 {
        return;
    }
    let ghost s = v@;
    let mut i: usize = n;
    while i > 1
        invariant
            1 <= i <= n,
            n == s.len(),
            valid_draws(draws@, n as nat),
            v@ == shuffled(s, draws@, i as int),
        decreases i,
    {
        i = i - 1;
        proof {
            lemma_shuffled_keeps_entries(s, draws@, i as int + 1);
        }
        let target = draws[i];
        assert(draws@[i as int] <= i);
        let a = v[i];
        let b = v[target];
        v.set(i, b);
        v.set(target, a);
        assert(v@ =~= swapped(shuffled(s, draws@, i as int + 1), i as int, target as int));
    }
}

/// Shuffles `v` in place (Fisher-Yates), with each draw for index `i`
/// taken uniformly from `0..=i`. The entries are kept; only their order
/// changes.
pub fn permute(v: &mut Vec<usize>)
    ensures
        exists|d: Seq<usize>|
            valid_draws(d, old(v)@.len()) && final(v)@ == #[trigger] shuffled(old(v)@, d, 1),
        final(v)@.len() == old(v)@.len(),
        final(v)@.to_multiset() == old(v)@.to_multiset(),
{
    let n = v.len();
    let mut draws: Vec<usize> = Vec::new();
    let mut i: usize = 0;
    while i < n
        invariant
            i <= n,
            draws@.len() == i,
            forall|k: int| 1 <= k < i ==> #[trigger] draws@[k] <= k,
        decreases n - i,
    {
        let t = if i == 0 {
            0
        } else {
            gen_range(0, i + 1)
        };
        draws.push(t);
        i = i + 1;
    }
    let ghost s = v@;
    permute_with(v, &draws);
    proof {
        lemma_shuffled_keeps_entries(s, draws@, 1);
    }
}

/// A fresh random permutation of `0, 1, ..., 255`: the Fisher-Yates shuffle
/// of that sequence by some valid draws.
pub fn random_permutation_0_to_255() -> (r: Vec<usize>)
    ensures
        is_shuffled_range(r@),
        is_permutation_of_range(r@, LATTICE_SIZE as nat),
{
    let mut result: Vec<usize> = Vec::new();
    let mut k: usize = 0;
    while k < LATTICE_SIZE
        invariant
            k <= LATTICE_SIZE,
            result@ == range_seq(k as nat),
        decreases LATTICE_SIZE - k,
    {
        result.push(k);
        k = k + 1;
        assert(result@ =~= range_seq(k as nat));
    }
    permute(&mut result);
    result
}

/// The three lattice tables, one random permutation of `0..256` per axis.
pub struct PerlinData {
    pub perm_x: Vec<usize>,
    pub perm_y: Vec<usize>,
    pub perm_z: Vec<usize>,
}

/// The hash of the lattice point `(i, j, k)`: the entries of the three
/// tables at the coordinates taken modulo 256, combined by exclusive or.
pub open spec fn lattice_hash(
    px: Seq<usize>,
    py: Seq<usize>,
    pz: Seq<usize>,
    i: int,
    j: int,
    k: int,
) -> usize {
    px[i % 256] ^ py[j % 256] ^ pz[k % 256]
}

impl PerlinData {
    /// Each table is a permutation of `0..256`.
    pub open spec fn wf(&self) -> bool {
        &&& is_permutation_of_range(self.perm_x@, LATTICE_SIZE as nat)
        &&& is_permutation_of_range(self.perm_y@, LATTICE_SIZE as nat)
        &&& is_permutation_of_range(self.perm_z@, LATTICE_SIZE as nat)
    }

    /// Three freshly drawn tables, each a shuffle of `0..256`.
    pub fn new() -> (r: Self)
        ensures
            r.wf(),
            is_shuffled_range(r.perm_x@),
            is_shuffled_range(r.perm_y@),
            is_shuffled_range(r.perm_z@),
    {
        PerlinData {
            perm_x: random_permutation_0_to_255(),
            perm_y: random_permutation_0_to_255(),
            perm_z: random_permutation_0_to_255(),
        }
    }

    /// The hash of one lattice point; it indexes a table of 256 gradients.
    fn corner(&self, i: usize, j: usize, k: usize) -> (r: usize)
        requires
            self.wf(),
        ensures
            r == lattice_hash(self.perm_x@, self.perm_y@, self.perm_z@, i as int, j as int, k as int),
            r < LATTICE_SIZE,
    {
        proof {
            lemma_permutation_entries_below(self.perm_x@, LATTICE_SIZE as nat);
            lemma_permutation_entries_below(self.perm_y@, LATTICE_SIZE as nat);
            lemma_permutation_entries_below(self.perm_z@, LATTICE_SIZE as nat);
        }
        let a = self.perm_x[i % LATTICE_SIZE];
        let b = self.perm_y[j % LATTICE_SIZE];
        let c = self.perm_z[k % LATTICE_SIZE];
        assert(a < 256 && b < 256 && c < 256 ==> a ^ b ^ c < 256) by (bit_vector);
        a ^ b ^ c
    }

    /// The hashes of the eight corners of the lattice cell whose lowest
    /// corner is `(i, j, k)`: entry `[di][dj][dk]` is the hash of
    /// `(i + di, j + dj, k + dk)`, with coordinates wrapping modulo 256.
    pub fn cube_indices(&self, i: usize, j: usize, k: usize) -> (r: [[[usize; 2]; 2]; 2])
        requires
            self.wf(),
        ensures
            forall|di: int, dj: int, dk: int|
                0 <= di < 2 && 0 <= dj < 2 && 0 <= dk < 2 ==> {
                    &&& #[trigger] r[di][dj][dk] == lattice_hash(
                        self.perm_x@,
                        self.perm_y@,
                        self.perm_z@,
                        i + di,
                        j + dj,
                        k + dk,
                    )
                    &&& r[di][dj][dk] < LATTICE_SIZE
                },
    {
        let (i0, j0, k0) = (i % LATTICE_SIZE, j % LATTICE_SIZE, k % LATTICE_SIZE);
        let (i1, j1, k1) = ((i0 + 1) % LATTICE_SIZE, (j0 + 1) % LATTICE_SIZE, (k0 + 1) % LATTICE_SIZE);
        proof {
            assert((i0 + 1) % 256 == (i + 1) % 256);
            assert((j0 + 1) % 256 == (j + 1) % 256);
            assert((k0 + 1) % 256 == (k + 1) % 256);
        }
        let r = [
            [
                [self.corner(i0, j0, k0), self.corner(i0, j0, k1)],
                [self.corner(i0, j1, k0), self.corner(i0, j1, k1)],
            ],
            [
                [self.corner(i1, j0, k0), self.corner(i1, j0, k1)],
                [self.corner(i1, j1, k0), self.corner(i1, j1, k1)],
            ],
        ];
        r
    }
}

} // verus!
