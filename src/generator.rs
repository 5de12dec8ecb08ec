//! The generator core: four 32-bit words of state, seeded from the bytes of a
//! string and advanced by a fixed xorshift recurrence.
use vstd::prelude::*;
use vstd::string::StringSliceAdditionalSpecFns;

verus! {

/// The mathematical state of a generator: its four words.
pub struct GnrngState {
    pub x: u32,
    pub y: u32,
    pub z: u32,
    pub w: u32,
}

/// The all-zero state that seeding starts from.
pub open spec fn zero_state() -> GnrngState {
    GnrngState { x: 0, y: 0, z: 0, w: 0 }
}

/// One state-advance step; the new `w` is the step's 32-bit output.
pub open spec fn step(s: GnrngState) -> GnrngState {
    let t = s.x ^ (s.x << 11u32);
    GnrngState { x: s.y, y: s.z, z: s.w, w: s.w ^ (s.w >> 19u32) ^ t ^ (t >> 8u32) }
}

/// The state after `n` steps from `s`.
pub open spec fn advance(s: GnrngState, n: nat) -> GnrngState
    decreases n,
{
    if n == 0 {
        s
    } else {
        step(advance(s, (n - 1) as nat))
    }
}

/// The outputs of the first `n` steps from `s`, in draw order.
pub open spec fn draws(s: GnrngState, n: nat) -> Seq<u32>
    decreases n,
{
    if n == 0 {
        Seq::empty()
    } else {
        draws(s, (n - 1) as nat).push(advance(s, n).w)
    }
}

/// `draws(s, n)` holds `n` values.
pub proof fn lemma_draws_len(s: GnrngState, n: nat)
    ensures
        draws(s, n).len() == n,
    decreases n,
{
    if n > 0 {
        lemma_draws_len(s, (n - 1) as nat);
    }
}

/// Draw `i` of a batch is the output of step `i + 1`.
pub proof fn lemma_draws_index(s: GnrngState, n: nat, i: int)
    requires
        0 <= i < n,
    ensures
        draws(s, n)[i] == advance(s, (i + 1) as nat).w,
    decreases n,
{
    lemma_draws_len(s, (n - 1) as nat);
    if i < n - 1 {
        lemma_draws_index(s, (n - 1) as nat, i);
    }
}

/// Two generators built from the same seed bytes yield the same first `n`
/// draws, raw or ranged, for every `n`.
pub proof fn lemma_same_seed_same_draws(
    g1: Gnrng,
    g2: Gnrng,
    seed: Seq<u8>,
    min: i32,
    max: i32,
    n: nat,
)
    requires
        g1@ == seeded_state(seed),
        g2@ == seeded_state(seed),
    ensures
        draws(g1@, n) == draws(g2@, n),
        range_draws(g1@, min, max, n) == range_draws(g2@, min, max, n),
{
}

/// A batch of `n` draws equals `n` scalar draws made one after another: value
/// `i` of the batch is what the `i`-th scalar draw returns, from the state that
/// the `i` earlier draws left, for raw and ranged draws alike.
pub proof fn lemma_batch_equals_scalar_draws(s: GnrngState, min: i32, max: i32, n: nat)
    ensures
        draws(s, n).len() == n,
        range_draws(s, min, max, n).len() == n,
        forall|i: int| 0 <= i < n ==> #[trigger] draws(s, n)[i] == step(advance(s, i as nat)).w,
        forall|i: int|
            0 <= i < n ==> #[trigger] range_draws(s, min, max, n)[i] == range_value(
                step(advance(s, i as nat)).w,
                min,
                max,
            ),
{
    lemma_draws_len(s, n);
    assert forall|i: int| 0 <= i < n implies #[trigger] draws(s, n)[i] == step(
        advance(s, i as nat),
    ).w by {
        lemma_draws_index(s, n, i);
    }
}

/// Seeding steps `0..k`: on step `j`, seed byte `j` (if any) is XORed into `x`,
/// then the state advances once.
pub open spec fn warm_up(seed: Seq<u8>, k: nat) -> GnrngState
    decreases k,
{
    if k == 0 {
        zero_state()
    } else {
        let prev = warm_up(seed, (k - 1) as nat);
        let j = k - 1;
        if j < seed.len() {
            step(GnrngState { x: prev.x ^ (seed[j] as u32), ..prev })
        } else {
            step(prev)
        }
    }
}

/// The state of a generator built from the seed bytes `seed`: `len + 64` steps.
pub open spec fn seeded_state(seed: Seq<u8>) -> GnrngState {
    warm_up(seed, seed.len() + 64)
}

/// What a ranged draw yields for the raw output `v`: `min` when the range is
/// empty, else `min + v mod (max - min)`.
pub open spec fn range_value(v: u32, min: i32, max: i32) -> i32 {
    if min >= max {
        min
    } else {
        (min as int + (v as int) % (max as int - min as int)) as i32
    }
}

/// The values of `n` ranged draws from `s`.
pub open spec fn range_draws(s: GnrngState, min: i32, max: i32, n: nat) -> Seq<i32> {
    Seq::new(n, |i: int| range_value(draws(s, n)[i], min, max))
}

/// A pseudo-random generator: the four words are its entire state.
pub struct Gnrng {
    x: u32,
    y: u32,
    z: u32,
    w: u32,
}

impl View for Gnrng {
    type V = GnrngState;

    closed spec fn view(&self) -> GnrngState {
        GnrngState { x: self.x, y: self.y, z: self.z, w: self.w }
    }
}

impl Gnrng {
    /// Builds a generator from the bytes of `seed`.
    pub fn new(seed: &str) -> (g: Gnrng)
        ensures
            g@ == seeded_state(seed.spec_bytes()),
    {
        let bytes = seed.as_bytes();
        let mut rng = Gnrng { x: 0, y: 0, z: 0, w: 0 };
        let n = bytes.len();
        let mut k: usize = 0;
        while k < n
            invariant
                k <= n,
                n == bytes@.len(),
                bytes@ == seed.spec_bytes(),
                rng@ == warm_up(bytes@, k as nat),
            decreases n - k,
        {
            rng.x = rng.x ^ (bytes[k] as u32);
            rng.next_u32();
            k = k + 1;
        }
        let mut extra: usize = 0;
        while extra < 64
            invariant
                extra <= 64,
                n == bytes@.len(),
                bytes@ == seed.spec_bytes(),
                rng@ == warm_up(bytes@, (n + extra) as nat),
            decreases 64 - extra,
        {
            rng.next_u32();
            extra = extra + 1;
        }
        rng
    }

    /// One state-advance step; returns its raw 32-bit output.
    pub fn next_u32(&mut self) -> (r: u32)
        ensures
            final(self)@ == step(old(self)@),
            r == final(self)@.w,
    {
        let t = self.x ^ (self.x << 11u32);
        self.x = self.y;
        self.y = self.z;
        self.z = self.w;
        self.w = self.w ^ (self.w >> 19u32) ^ t ^ (t >> 8u32);
        self.w
    }

    /// Draws `count` raw outputs in sequence.
    pub fn next_u32_batch(&mut self, count: usize) -> (r: Vec<u32>)
        ensures
            r@ == draws(old(self)@, count as nat),
            final(self)@ == advance(old(self)@, count as nat),
    {
        let ghost start = self@;
        let mut result: Vec<u32> = Vec::new();
        let mut i: usize = 0;
        while i < count
            invariant
                i <= count,
                result@ == draws(start, i as nat),
                self@ == advance(start, i as nat),
            decreases count - i,
        {
            let v = self.next_u32();
            result.push(v);
            i = i + 1;
        }
        result
    }

    /// A value in `[min, max)`, or `min` without drawing when `min >= max`.
    pub fn next_range(&mut self, min: i32, max: i32) -> (r: i32)
        ensures
            min >= max ==> r == min && final(self)@ == old(self)@,
            min < max ==> final(self)@ == step(old(self)@) && r == range_value(
                final(self)@.w,
                min,
                max,
            ),
            min < max ==> min <= r < max,
    {
        if min >= max {
            return min;
        }
        let range: u32 = (max as i64 - min as i64) as u32;
        let value: u32 = self.next_u32() % range;
        (min as i64 + value as i64) as i32
    }

    /// `count` ranged draws in sequence; `count` copies of `min` when `min >= max`.
    pub fn next_range_batch(&mut self, min: i32, max: i32, count: usize) -> (r: Vec<i32>)
        ensures
            r@ == range_draws(old(self)@, min, max, count as nat),
            min >= max ==> final(self)@ == old(self)@,
            min < max ==> final(self)@ == advance(old(self)@, count as nat),
            forall|i: int| 0 <= i < count && min < max ==> min <= #[trigger] r@[i] < max,
    {
        let ghost start = self@;
        let mut result: Vec<i32> = Vec::new();
        if min >= max {
            let mut i: usize = 0;
            while i < count
                invariant
                    i <= count,
                    min >= max,
                    result@ == Seq::new(i as nat, |j: int| min),
                    self@ == start,
                decreases count - i,
            {
                result.push(min);
                i = i + 1;
                assert(result@ =~= Seq::new(i as nat, |j: int| min));
            }
            assert(result@ =~= range_draws(start, min, max, count as nat));
            return result;
        }
        let range: u32 = (max as i64 - min as i64) as u32;
        let mut i: usize = 0;
        while i < count
            invariant
                i <= count,
                min < max,
                range == max - min,
                result@ == range_draws(start, min, max, i as nat),
                self@ == advance(start, i as nat),
            decreases count - i,
        {
            let value: u32 = self.next_u32() % range;
            result.push((min as i64 + value as i64) as i32);
            i = i + 1;
            let ghost prev = draws(start, (i - 1) as nat);
            proof {
                lemma_draws_len(start, (i - 1) as nat);
            }
            assert(draws(start, i as nat) == prev.push(self@.w));
            assert(result@[i - 1] == range_value(self@.w, min, max));
            assert forall|j: int| 0 <= j < i implies #[trigger] result@[j] == range_draws(
                start,
                min,
                max,
                i as nat,
            )[j] by {
                if j < i - 1 {
                    assert(result@[j] == range_value(prev[j], min, max));
                }
            }
            assert(result@ =~= range_draws(start, min, max, i as nat));
        }
        result
    }
}

/// Builds a generator from `seed`, as `Gnrng::new` does.
pub fn gnrng(seed: &str) -> (g: Gnrng)
    ensures
        g@ == seeded_state(seed.spec_bytes()),
{
    Gnrng::new(seed)
}

} // verus!
