//! The random numbers of the quantizer: a linear congruential generator over
//! 64 bits.  The same seed gives the same numbers on every machine.

use vstd::prelude::*;

verus! {

/// The state that follows `s`.
pub open spec fn lcg_next(s: u64) -> u64 {
    ((s as int * 6364136223846793005 + 1442695040888963407) % 0x1_0000_0000_0000_0000) as u64
}

/// The number below `n` that state `s` stands for: its upper half, reduced
/// modulo `n`.
pub open spec fn lcg_draw(s: u64, n: int) -> int {
    (s as int / 0x1_0000_0000) % n
}

/// The generator.
#[derive(Clone, Copy, Debug)]
pub struct Lcg {
    pub state: u64,
}

impl Lcg {
    pub fn new(seed: u64) -> (g: Lcg)
        ensures
            g.state == seed,
    {
        Lcg { state: seed }
    }

    /// Steps the generator and gives the number below `n` of the new state.
    pub fn below(&mut self, n: u32) -> (v: u32)
        requires
            n > 0,
        ensures
            final(self).state == lcg_next(old(self).state),
            v == lcg_draw(final(self).state, n as int),
            v < n,
    {
        let wide: u128 = self.state as u128 * 6364136223846793005u128 + 1442695040888963407u128;
        self.state = (wide % 0x1_0000_0000_0000_0000u128) as u64;
        ((self.state / 0x1_0000_0000) % (n as u64)) as u32
    }
}

/// A row of positions that is being shuffled, and the generator state.
pub struct Shuffle {
    pub perm: Seq<usize>,
    pub state: u64,
}

/// The positions `0 .. n` in order.
pub open spec fn identity(n: int) -> Seq<usize> {
    Seq::new(n as nat, |i: int| i as usize)
}

/// Step `i` of the shuffle: the position at `i` changes place with one drawn
/// from `i` to the end.
pub open spec fn shuffle_step(sh: Shuffle, i: int) -> Shuffle {
    let state = lcg_next(sh.state);
    let j = i + lcg_draw(state, sh.perm.len() - i);
    Shuffle { perm: sh.perm.update(i, sh.perm[j]).update(j, sh.perm[i]), state }
}

/// The first `steps` steps of shuffling the positions `0 .. n`.  After them
/// the first `steps` places hold a choice of that many positions in which
/// none comes twice.
pub open spec fn shuffle_run(n: int, state: u64, steps: int) -> Shuffle
    decreases steps,
{
    if steps <= 0 {
        Shuffle { perm: identity(n), state }
    } else {
        shuffle_step(shuffle_run(n, state, steps - 1), steps - 1)
    }
}

/// Every position below `n` is below `n`, and no two places hold the same.
pub open spec fn is_arrangement(perm: Seq<usize>, n: int) -> bool {
    &&& perm.len() == n
    &&& forall|i: int| 0 <= i < n ==> (#[trigger] perm[i]) < n
    &&& forall|i: int, j: int| 0 <= i < j < n ==> #[trigger] perm[i] != #[trigger] perm[j]
}

/// Shuffling keeps every position and repeats none.
pub proof fn lemma_shuffle_arranges(n: int, state: u64, steps: int)
    requires
        0 <= steps <= n <= 0xFFFF_FFFF,
    ensures
        is_arrangement(shuffle_run(n, state, steps).perm, n),
    decreases steps,
{
    if steps <= 0 {
        assert forall|i: int| 0 <= i < n implies (#[trigger] identity(n)[i]) == i by {}
    } else {
        lemma_shuffle_arranges(n, state, steps - 1);
        let before = shuffle_run(n, state, steps - 1);
        let i = steps - 1;
        let j = i + lcg_draw(lcg_next(before.state), n - i);
        assert(i <= j < n);
        let after = shuffle_step(before, i).perm;
        assert forall|x: int, y: int| 0 <= x < y < n implies #[trigger] after[x] != #[trigger] after[y] by {
            let px = if x == i {
                j
            } else if x == j {
                i
            } else {
                x
            };
            let py = if y == i {
                j
            } else if y == j {
                i
            } else {
                y
            };
            assert(after[x] == before.perm[px]);
            assert(after[y] == before.perm[py]);
            assert(px != py);
            if px < py {
                assert(before.perm[px] != before.perm[py]);
            } else {
                assert(before.perm[py] != before.perm[px]);
            }
        }
        assert forall|x: int| 0 <= x < n implies (#[trigger] after[x]) < n by {
            let px = if x == i {
                j
            } else if x == j {
                i
            } else {
                x
            };
            assert(after[x] == before.perm[px]);
        }
    }
}

/// Chooses `count` of the positions `0 .. n`, none twice; `chosen` says which
/// ones and in what order.
pub fn choose_positions(n: usize, count: usize, rng: &mut Lcg) -> (chosen: Vec<usize>)
    requires
        count <= n <= 0xFFFF_FFFF,
    ensures
        chosen@ == shuffle_run(n as int, old(rng).state, count as int).perm.take(count as int),
        final(rng).state == shuffle_run(n as int, old(rng).state, count as int).state,
        chosen.len() == count,
        forall|i: int| 0 <= i < count ==> (#[trigger] chosen[i]) < n,
{
    let ghost seed = rng.state;
    let mut perm: Vec<usize> = Vec::new();
    let mut i: usize = 0;
    while i < n
        invariant
            0 <= i <= n,
            perm@ == identity(i as int),
        decreases n - i,
    {
        perm.push(i);
        assert(perm@ =~= identity(i + 1));
        i = i + 1;
    }
    let mut i: usize = 0;
    while i < count
        invariant
            0 <= i <= count <= n <= 0xFFFF_FFFF,
            perm.len() == n,
            perm@ == shuffle_run(n as int, seed, i as int).perm,
            rng.state == shuffle_run(n as int, seed, i as int).state,
        decreases count - i,
    {
        proof {
            lemma_shuffle_arranges(n as int, seed, i as int);
        }
        let j = i + rng.below((n - i) as u32) as usize;
        let a = perm[i];
        let b = perm[j];
        perm.set(i, b);
        perm.set(j, a);
        i = i + 1;
    }
    proof {
        lemma_shuffle_arranges(n as int, seed, count as int);
    }
    perm.truncate(count);
    assert(perm@ =~= shuffle_run(n as int, seed, count as int).perm.take(count as int));
    perm
}

} // verus!
