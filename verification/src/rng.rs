//! A small deterministic generator (xoshiro256++ seeded through SplitMix64),
//! kept inside the game state so that a game is reproducible from a seed and
//! a move sequence.

use vstd::prelude::*;

verus! {

/// 2^64, the modulus of `u64` arithmetic.
pub open spec fn two64() -> nat {
    0x1_0000_0000_0000_0000nat
}

/// Rotation of a 64-bit word to the left by `k` bits, `0 < k < 64`.
pub open spec fn rotl(x: u64, k: u64) -> u64 {
    (x << k) | (x >> (64 - k) as u64)
}

/// The SplitMix64 increment.
pub open spec fn splitmix_gamma() -> u64 {
    0x9E3779B97F4A7C15
}

/// The SplitMix64 output function applied to an already advanced counter.
pub open spec fn splitmix_mix(z: u64) -> u64 {
    let x1 = ((z ^ (z >> 30u64)) as int * 0xBF58476D1CE4E5B9int) % two64() as int;
    let x2 = (((x1 as u64) ^ ((x1 as u64) >> 27u64)) as int * 0x94D049BB133111EBint)
        % two64() as int;
    (x2 as u64) ^ ((x2 as u64) >> 31u64)
}

/// The SplitMix64 counter after `k` increments from `seed`.
pub open spec fn splitmix_counter(seed: u64, k: nat) -> u64 {
    ((seed as int + k * splitmix_gamma() as int) % two64() as int) as u64
}

/// The generator state that `Rng::new(seed)` starts from: four successive
/// SplitMix64 outputs.
pub open spec fn seeded_state(seed: u64) -> Seq<u64> {
    seq![
        splitmix_mix(splitmix_counter(seed, 1)),
        splitmix_mix(splitmix_counter(seed, 2)),
        splitmix_mix(splitmix_counter(seed, 3)),
        splitmix_mix(splitmix_counter(seed, 4)),
    ]
}

/// The xoshiro256++ output for state `s`.
pub open spec fn xoshiro_out(s: Seq<u64>) -> u64 {
    let sum = ((s[0] as int + s[3] as int) % two64() as int) as u64;
    ((rotl(sum, 23) as int + s[0] as int) % two64() as int) as u64
}

/// The xoshiro256++ state transition.
pub open spec fn xoshiro_step(s: Seq<u64>) -> Seq<u64> {
    let t = s[1] << 17u64;
    let s2 = s[2] ^ s[0];
    let s3 = s[3] ^ s[1];
    let s1 = s[1] ^ s2;
    let s0 = s[0] ^ s3;
    let s2b = s2 ^ t;
    let s3b = rotl(s3, 45);
    seq![s0, s1, s2b, s3b]
}

/// The state after `k` transitions.
pub open spec fn steps(s: Seq<u64>, k: nat) -> Seq<u64>
    decreases k,
{
    if k == 0 {
        s
    } else {
        xoshiro_step(steps(s, (k - 1) as nat))
    }
}

/// Lemire's rejection threshold for a range of size `n`: (2^64 - n) mod n.
pub open spec fn lemire_threshold(n: u64) -> nat {
    ((two64() - n as nat) as nat) % (n as nat)
}

/// Whether a raw draw `x` is accepted for a range of size `n`: the low word of
/// `x * n` is at least the threshold.
pub open spec fn lemire_accepts(x: u64, n: u64) -> bool {
    ((x as nat) * (n as nat)) % two64() >= lemire_threshold(n)
}

/// The value an accepted draw `x` maps to: the high word of `x * n`.
pub open spec fn lemire_value(x: u64, n: u64) -> nat {
    ((x as nat) * (n as nat)) / two64()
}

/// The most draws `below` rejects before it takes the last one regardless.
pub open spec fn max_rejections() -> nat {
    0xFFFF_FFFF_FFFF_FFFFnat
}

/// Whether `k` is the index of the draw `below` stops at from state `s`: the
/// first accepted one, or the last one the rejection budget allows.
pub open spec fn stops_at(s: Seq<u64>, n: u64, k: nat) -> bool {
    &&& lemire_accepts(xoshiro_out(steps(s, k)), n) || k == max_rejections()
    &&& k <= max_rejections()
    &&& forall|j: nat| j < k ==> !lemire_accepts(#[trigger] xoshiro_out(steps(s, j)), n)
}

/// The number of rejected draws before `below` stops.
pub open spec fn below_rejections(s: Seq<u64>, n: u64) -> nat {
    choose|k: nat| stops_at(s, n, k)
}

/// The value `below(n)` returns from state `s`.
pub open spec fn below_value(s: Seq<u64>, n: u64) -> nat {
    lemire_value(xoshiro_out(steps(s, below_rejections(s, n))), n)
}

/// The state `below(n)` leaves behind, starting from `s`.
pub open spec fn below_state(s: Seq<u64>, n: u64) -> Seq<u64> {
    steps(s, below_rejections(s, n) + 1)
}

/// The state and sequence after the Fisher-Yates passes for positions
/// `i`, `i - 1`, ..., `1` (positions above `i` already done).
pub open spec fn shuffle_from<T>(s: Seq<u64>, v: Seq<T>, i: nat) -> (Seq<u64>, Seq<T>)
    decreases i,
{
    if i == 0 || i >= v.len() {
        (s, v)
    } else {
        let j = below_value(s, (i + 1) as u64) as int;
        let v2 = v.update(i as int, v[j]).update(j, v[i as int]);
        shuffle_from(below_state(s, (i + 1) as u64), v2, (i - 1) as nat)
    }
}

/// Xoring a word with itself shifted right by 31 loses nothing.
proof fn lemma_unshift31(a: u64, b: u64)
    by (bit_vector)
    requires
        a ^ (a >> 31u64) == b ^ (b >> 31u64),
    ensures
        a == b,
{
}

/// Xoring a word with itself shifted right by 27 loses nothing.
proof fn lemma_unshift27(a: u64, b: u64)
    by (bit_vector)
    requires
        a ^ (a >> 27u64) == b ^ (b >> 27u64),
    ensures
        a == b,
{
}

/// Xoring a word with itself shifted right by 30 loses nothing.
proof fn lemma_unshift30(a: u64, b: u64)
    by (bit_vector)
    requires
        a ^ (a >> 30u64) == b ^ (b >> 30u64),
    ensures
        a == b,
{
}

/// Multiplying by the first SplitMix64 constant modulo 2^64 loses nothing.
proof fn lemma_times_first(a: u64, b: u64)
    by (bit_vector)
    requires
        (a as int * 0xBF58476D1CE4E5B9int) % 0x1_0000_0000_0000_0000int == (b as int * 0xBF58476D1CE4E5B9int)
            % 0x1_0000_0000_0000_0000int,
    ensures
        a == b,
{
}

/// Multiplying by the second SplitMix64 constant modulo 2^64 loses nothing.
proof fn lemma_times_second(a: u64, b: u64)
    by (bit_vector)
    requires
        (a as int * 0x94D049BB133111EBint) % 0x1_0000_0000_0000_0000int == (b as int * 0x94D049BB133111EBint)
            % 0x1_0000_0000_0000_0000int,
    ensures
        a == b,
{
}

/// The SplitMix64 output function never maps two counters to one output.
proof fn lemma_mix_injective(x: u64, y: u64)
    requires
        splitmix_mix(x) == splitmix_mix(y),
    ensures
        x == y,
{
    let ax = x ^ (x >> 30u64);
    let ay = y ^ (y >> 30u64);
    let x1 = (ax as int * 0xBF58476D1CE4E5B9int) % two64() as int;
    let y1 = (ay as int * 0xBF58476D1CE4E5B9int) % two64() as int;
    let bx = (x1 as u64) ^ ((x1 as u64) >> 27u64);
    let by = (y1 as u64) ^ ((y1 as u64) >> 27u64);
    let x2 = (bx as int * 0x94D049BB133111EBint) % two64() as int;
    let y2 = (by as int * 0x94D049BB133111EBint) % two64() as int;
    assert(0 <= x2 < two64() && 0 <= y2 < two64());
    assert(0 <= x1 < two64() && 0 <= y1 < two64());
    lemma_unshift31(x2 as u64, y2 as u64);
    assert(x2 == y2);
    lemma_times_second(bx, by);
    lemma_unshift27(x1 as u64, y1 as u64);
    assert(x1 == y1);
    lemma_times_first(ax, ay);
    lemma_unshift30(x, y);
}

/// Seeding is injective: two seeds give the same starting state of the
/// generator exactly when they are the same seed.
pub proof fn lemma_seeded_state_injective(a: u64, b: u64)
    ensures
        (seeded_state(a) == seeded_state(b)) <==> (a == b),
{
    if seeded_state(a) == seeded_state(b) {
        let ca = splitmix_counter(a, 1);
        let cb = splitmix_counter(b, 1);
        assert(seeded_state(a)[0] == splitmix_mix(ca));
        assert(seeded_state(b)[0] == splitmix_mix(cb));
        lemma_mix_injective(ca, cb);
        lemma_counter_injective(a, b);
    }
}

/// The first SplitMix64 counter tells the seed.
proof fn lemma_counter_injective(a: u64, b: u64)
    requires
        splitmix_counter(a, 1) == splitmix_counter(b, 1),
    ensures
        a == b,
{
    let ga = (a as int + 0x9E3779B97F4A7C15int) % 0x1_0000_0000_0000_0000int;
    let gb = (b as int + 0x9E3779B97F4A7C15int) % 0x1_0000_0000_0000_0000int;
    assert(splitmix_counter(a, 1) == ga as u64);
    assert(splitmix_counter(b, 1) == gb as u64);
    assert(ga == gb);
    lemma_plus_gamma(a, b);
}

/// Adding the SplitMix64 increment modulo 2^64 loses nothing.
proof fn lemma_plus_gamma(a: u64, b: u64)
    by (bit_vector)
    requires
        (a as int + 0x9E3779B97F4A7C15int) % 0x1_0000_0000_0000_0000int == (b as int + 0x9E3779B97F4A7C15int)
            % 0x1_0000_0000_0000_0000int,
    ensures
        a == b,
{
}

/// Fisher-Yates passes keep the length.
pub proof fn lemma_shuffle_from_len<T>(s: Seq<u64>, v: Seq<T>, i: nat)
    requires
        v.len() <= u64::MAX,
    ensures
        shuffle_from(s, v, i).1.len() == v.len(),
    decreases i,
{
    if !(i == 0 || i >= v.len()) {
        let n = (i + 1) as u64;
        Rng::lemma_value_below(xoshiro_out(steps(s, below_rejections(s, n))), n);
        let j = below_value(s, n) as int;
        let v2 = v.update(i as int, v[j]).update(j, v[i as int]);
        lemma_shuffle_from_len(below_state(s, n), v2, (i - 1) as nat);
    }
}

/// A shuffle keeps the length.
pub proof fn lemma_shuffle_result_len<T>(s: Seq<u64>, v: Seq<T>)
    requires
        v.len() <= u64::MAX,
    ensures
        shuffle_result(s, v).1.len() == v.len(),
{
    if v.len() > 1 {
        lemma_shuffle_from_len(s, v, (v.len() - 1) as nat);
    }
}

/// The state and sequence a full Fisher-Yates shuffle of `v` produces from `s`.
pub open spec fn shuffle_result<T>(s: Seq<u64>, v: Seq<T>) -> (Seq<u64>, Seq<T>) {
    if v.len() <= 1 {
        (s, v)
    } else {
        shuffle_from(s, v, (v.len() - 1) as nat)
    }
}

/// A xoshiro256++ generator.
#[derive(Clone, Copy, PartialEq, Eq, Debug)]
pub struct Rng {
    s: [u64; 4],
}

fn rotate_left(x: u64, k: u64) -> (r: u64)
    requires
        0 < k < 64,
    ensures
        r == rotl(x, k),
{
    (x << k) | (x >> (64 - k))
}

fn splitmix_output(z: u64) -> (r: u64)
    ensures
        r == splitmix_mix(z),
{
    let mut x = z;
    x = (x ^ (x >> 30)).wrapping_mul(0xBF58476D1CE4E5B9);
    x = (x ^ (x >> 27)).wrapping_mul(0x94D049BB133111EB);
    x ^ (x >> 31)
}

impl Rng {
    /// The four state words.
    pub closed spec fn state(&self) -> Seq<u64> {
        self.s@
    }

    /// Seed the generator, spreading the seed over the state with SplitMix64.
    pub fn new(seed: u64) -> (r: Rng)
        ensures
            r.state() == seeded_state(seed),
    {
        let z1 = seed.wrapping_add(0x9E3779B97F4A7C15);
        let z2 = z1.wrapping_add(0x9E3779B97F4A7C15);
        let z3 = z2.wrapping_add(0x9E3779B97F4A7C15);
        let z4 = z3.wrapping_add(0x9E3779B97F4A7C15);
        assert(z1 == splitmix_counter(seed, 1));
        assert(z2 == splitmix_counter(seed, 2));
        assert(z3 == splitmix_counter(seed, 3));
        assert(z4 == splitmix_counter(seed, 4));
        let r = Rng { s: [splitmix_output(z1), splitmix_output(z2), splitmix_output(z3), splitmix_output(z4)] };
        assert(r.s@ =~= seeded_state(seed));
        r
    }

    /// The next raw 64-bit output.
    pub fn next_u64(&mut self) -> (r: u64)
        ensures
            r == xoshiro_out(old(self).state()),
            final(self).state() == xoshiro_step(old(self).state()),
    {
        let s0 = self.s[0];
        let s1 = self.s[1];
        let s2 = self.s[2];
        let s3 = self.s[3];
        let result = rotate_left(s0.wrapping_add(s3), 23).wrapping_add(s0);
        let t = s1 << 17;
        let n2 = s2 ^ s0;
        let n3 = s3 ^ s1;
        let n1 = s1 ^ n2;
        let n0 = s0 ^ n3;
        let n2b = n2 ^ t;
        let n3b = rotate_left(n3, 45);
        self.s = [n0, n1, n2b, n3b];
        assert(self.s@ =~= xoshiro_step(old(self).state()));
        result
    }

    /// Split `x * n` into its low and high 64-bit words.
    fn mul_split(x: u64, n: u64) -> (r: (u64, u64))
        ensures
            r.0 as nat == ((x as nat) * (n as nat)) % two64(),
            r.1 as nat == lemire_value(x, n),
    {
        proof {
            assert((x as nat) * (n as nat) < 0x1_0000_0000_0000_0000_0000_0000_0000_0000nat)
                by (nonlinear_arith)
                requires
                    x < 0x1_0000_0000_0000_0000nat,
                    n < 0x1_0000_0000_0000_0000nat,
            ;
            assert(((x as nat) * (n as nat)) / two64() < two64()) by (nonlinear_arith)
                requires
                    x < two64(),
                    n < two64(),
                    two64() == 0x1_0000_0000_0000_0000nat,
            ;
        }
        let m: u128 = (x as u128) * (n as u128);
        let lo = (m % 0x1_0000_0000_0000_0000u128) as u64;
        let hi = (m / 0x1_0000_0000_0000_0000u128) as u64;
        (lo, hi)
    }

    proof fn lemma_threshold_below(n: u64)
        requires
            n > 0,
        ensures
            lemire_threshold(n) < n,
    {
    }

    proof fn lemma_value_below(x: u64, n: u64)
        requires
            n > 0,
        ensures
            lemire_value(x, n) < n,
    {
        assert(((x as nat) * (n as nat)) / two64() < n as nat) by (nonlinear_arith)
            requires
                x < two64(),
                n > 0,
                two64() > 0,
        ;
    }

    proof fn lemma_stop_unique(s: Seq<u64>, n: u64, k: nat)
        requires
            stops_at(s, n, k),
        ensures
            below_rejections(s, n) == k,
    {
        let k2 = below_rejections(s, n);
        assert(stops_at(s, n, k2));
        if k2 < k {
            assert(!lemire_accepts(xoshiro_out(steps(s, k2)), n));
        } else if k < k2 {
            assert(!lemire_accepts(xoshiro_out(steps(s, k)), n));
        }
    }

    /// A uniform value in `[0, n)`, by Lemire's multiply-and-reject method: the
    /// first draw whose low product word clears the threshold is used (after
    /// 2^64 - 1 rejections, the next draw is used as it is).
    pub fn below(&mut self, n: u64) -> (r: u64)
        requires
            n > 0,
        ensures
            r < n,
            r == below_value(old(self).state(), n),
            final(self).state() == below_state(old(self).state(), n),
    {
        let ghost s0 = self.state();
        let ghost mut k: nat = 0;
        let mut x = self.next_u64();
        assert(steps(s0, 1) == xoshiro_step(steps(s0, 0)));
        let (mut l, mut h) = Self::mul_split(x, n);
        let t: u64 = 0u64.wrapping_sub(n) % n;
        assert(t == lemire_threshold(n));
        proof {
            Self::lemma_threshold_below(n);
        }
        // A low word of at least `n` is always accepted, so the threshold only
        // matters below it.
        let mut done = !(l < n) || !(l < t);
        // The loop stops at the first accepted draw; the counter only bounds
        // the number of iterations for termination.
        let mut budget: u64 = u64::MAX;
        while !done && budget > 0
            invariant
                n > 0,
                k + budget == max_rejections(),
                t == lemire_threshold(n),
                self.state() == steps(s0, k + 1),
                x == xoshiro_out(steps(s0, k)),
                l as nat == ((x as nat) * (n as nat)) % two64(),
                h as nat == lemire_value(x, n),
                done <==> lemire_accepts(x, n),
                forall|j: nat| j < k ==> !lemire_accepts(#[trigger] xoshiro_out(steps(s0, j)), n),
            decreases budget,
        {
            proof {
                k = k + 1;
            }
            x = self.next_u64();
            assert(steps(s0, k + 1) == xoshiro_step(steps(s0, k)));
            let (l2, h2) = Self::mul_split(x, n);
            l = l2;
            h = h2;
            done = !(l < t);
            budget = budget - 1;
        }
        proof {
            Self::lemma_value_below(x, n);
            assert(stops_at(s0, n, k));
            Self::lemma_stop_unique(s0, n, k);
        }
        h
    }

    /// In-place Fisher-Yates shuffle: for each position from the last down to
    /// the second, swap it with a uniformly chosen position at or below it.
    pub fn shuffle<T: Copy>(&mut self, v: &mut Vec<T>)
        ensures
            (final(self).state(), final(v)@) == shuffle_result(old(self).state(), old(v)@),
            final(v)@.len() == old(v)@.len(),
            final(v)@.to_multiset() == old(v)@.to_multiset(),
    {
        let len = v.len();
        if len <= 1 {
            return;
        }
        let ghost s0 = self.state();
        let ghost v0 = v@;
        let mut i: usize = len - 1;
        while i > 0
            invariant
                i < len,
                len == v@.len(),
                v0.len() == len,
                shuffle_from(self.state(), v@, i as nat) == shuffle_result(s0, v0),
                v@.to_multiset() == v0.to_multiset(),
            decreases i,
        {
            proof {
                assert(i + 1 <= u64::MAX);
            }
            let j = self.below((i + 1) as u64) as usize;
            let a = v[i];
            let b = v[j];
            let ghost before = v@;
            v.set(i, b);
            v.set(j, a);
            proof {
                lemma_swap_multiset(before, i as int, j as int);
            }
            i = i - 1;
        }
    }
}

/// Swapping two positions keeps the multiset of a sequence.
pub proof fn lemma_swap_multiset<T>(v: Seq<T>, i: int, j: int)
    requires
        0 <= i < v.len(),
        0 <= j < v.len(),
    ensures
        v.update(i, v[j]).update(j, v[i]).to_multiset() == v.to_multiset(),
        v.update(i, v[j]).update(j, v[i]).len() == v.len(),
{
    broadcast use vstd::seq_lib::group_to_multiset_ensures;
    let w = v.update(i, v[j]);
    assert(w.to_multiset() =~= v.to_multiset().remove(v[i]).insert(v[j]));
    assert(w.update(j, v[i]).to_multiset() =~= w.to_multiset().remove(w[j]).insert(v[i]));
    if i == j {
        assert(w.update(j, v[i]) =~= v);
    } else {
        assert(w[j] == v[j]);
    }
    assert(w.update(j, v[i]).to_multiset() =~= v.to_multiset());
}

} // verus!
