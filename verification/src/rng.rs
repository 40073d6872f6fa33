//! Deterministic pseudo-random numbers: SplitMix64, seeded hierarchically.
//!
//! There is one generator per scope, derived from a parent seed plus a label
//! (identity seed, then section seed, then unit seed). A generator is a counter: every
//! draw moves its state one step on, whatever the draw is used for, so a draw is a
//! function of the state it is made in.

use vstd::prelude::*;

verus! {

/// The increment of the SplitMix64 counter.
pub const GOLDEN_GAMMA: u64 = 0x9e37_79b9_7f4a_7c15;

/// The offset basis of 64-bit FNV-1a.
pub const FNV_OFFSET: u64 = 0xcbf2_9ce4_8422_2325;

/// The prime of 64-bit FNV-1a.
pub const FNV_PRIME: u64 = 0x0000_0100_0000_01b3;

/// The SplitMix64 finalizer.
pub open spec fn mix(z: u64) -> u64 {
    let a = z.wrapping_add(GOLDEN_GAMMA);
    let b = (a ^ (a >> 30)).wrapping_mul(0xbf58_476d_1ce4_e5b9);
    let c = (b ^ (b >> 27)).wrapping_mul(0x94d0_49bb_1331_11eb);
    c ^ (c >> 31)
}

/// The state after one draw.
pub open spec fn advance(state: u64) -> u64 {
    state.wrapping_add(GOLDEN_GAMMA)
}

/// The state after `k` draws.
pub open spec fn advance_by(state: u64, k: nat) -> u64
    decreases k,
{
    if k == 0 {
        state
    } else {
        advance(advance_by(state, (k - 1) as nat))
    }
}

/// The 64 bits that a draw in `state` gives.
pub open spec fn draw(state: u64) -> u64 {
    mix(advance(state))
}

/// The number below `n` that a draw in `state` gives: `n` scaled by the drawn
/// fraction of 2^64.
pub open spec fn draw_below(state: u64, n: int) -> int {
    (draw(state) * n) / 0x1_0000_0000_0000_0000
}

/// The number in `lo..=hi` that a draw in `state` gives.
pub open spec fn draw_range(state: u64, lo: int, hi: int) -> int {
    lo + draw_below(state, hi - lo + 1)
}

/// The fraction in [0, 1), counted in units of 2^-53, that a draw in `state` gives.
pub open spec fn draw_fraction(state: u64) -> u64 {
    draw(state) >> 11
}

/// The sum of the first `k` weights.
pub open spec fn weight_sum(weights: Seq<u32>, k: int) -> int
    decreases k,
{
    if k <= 0 {
        0
    } else {
        weight_sum(weights, k - 1) + weights[k - 1]
    }
}

/// The index whose stretch of the cumulated weights holds `x`, from index `i` on.
pub open spec fn weight_index(weights: Seq<u32>, x: int, i: int) -> int
    decreases weights.len() - i,
{
    if i >= weights.len() || x < weight_sum(weights, i + 1) {
        i
    } else {
        weight_index(weights, x, i + 1)
    }
}

/// The index into `weights` that a draw in `state` gives.
pub open spec fn draw_weighted(state: u64, weights: Seq<u32>) -> int {
    weight_index(weights, draw_below(state, weight_sum(weights, weights.len() as int)), 0)
}

/// FNV-1a over the bytes, continued from the hash `h`.
pub open spec fn fnv_from(h: u64, bytes: Seq<u8>) -> u64
    decreases bytes.len(),
{
    if bytes.len() == 0 {
        h
    } else {
        (fnv_from(h, bytes.drop_last()) ^ (bytes.last() as u64)).wrapping_mul(FNV_PRIME)
    }
}

/// FNV-1a over the bytes.
pub open spec fn fnv(bytes: Seq<u8>) -> u64 {
    fnv_from(FNV_OFFSET, bytes)
}

/// The UTF-8 bytes of a text.
pub open spec fn utf8(text: Seq<char>) -> Seq<u8> {
    vstd::utf8::encode_utf8(text)
}

/// The seed of the scope `label` under a generator in `state`.
pub open spec fn child_seed(state: u64, label: Seq<char>) -> u64 {
    mix(state ^ fnv(utf8(label)))
}

/// The seed of the scope with the numeric `key` under a generator in `state`.
pub open spec fn child_key_seed(state: u64, key: u64) -> u64 {
    mix(state ^ key)
}

/// A scope by its label is the scope by the label's hash.
pub proof fn lemma_child_by_hash(state: u64, label: Seq<char>)
    ensures
        child_seed(state, label) == child_key_seed(state, fnv(utf8(label))),
{
}

/// What was multiplied by a number with an inverse comes back by the inverse.
proof fn lemma_times_back(x: u64, c: u64, inverse: u64)
    requires
        (c * inverse) % 0x1_0000_0000_0000_0000 == 1,
    ensures
        x.wrapping_mul(c).wrapping_mul(inverse) == x,
{
    let m: int = 0x1_0000_0000_0000_0000;
    vstd::arithmetic::div_mod::lemma_mul_mod_noop_left(x * c, inverse as int, m);
    vstd::arithmetic::div_mod::lemma_mul_mod_noop_right(x as int, c * inverse, m);
    assert((x * c) * inverse == x * (c * inverse)) by (nonlinear_arith);
    assert(x as int * 1int == x);
    vstd::arithmetic::div_mod::lemma_small_mod(x as nat, m as nat);
}

/// The finalizer gives different numbers for different ones.
pub proof fn lemma_mix_apart(x: u64, y: u64)
    ensures
        mix(x) == mix(y) ==> x == y,
{
    if mix(x) == mix(y) {
        let a = x.wrapping_add(GOLDEN_GAMMA);
        let b = (a ^ (a >> 30)).wrapping_mul(0xbf58_476d_1ce4_e5b9);
        let c = (b ^ (b >> 27)).wrapping_mul(0x94d0_49bb_1331_11eb);
        let p = y.wrapping_add(GOLDEN_GAMMA);
        let q = (p ^ (p >> 30)).wrapping_mul(0xbf58_476d_1ce4_e5b9);
        let r = (q ^ (q >> 27)).wrapping_mul(0x94d0_49bb_1331_11eb);
        assert(c == r) by (bit_vector)
            requires
                c ^ (c >> 31) == r ^ (r >> 31),
        ;
        lemma_times_back(b ^ (b >> 27), 0x94d0_49bb_1331_11eb, 0x3196_42b2_d24d_8ec3);
        lemma_times_back(q ^ (q >> 27), 0x94d0_49bb_1331_11eb, 0x3196_42b2_d24d_8ec3);
        assert(b == q) by (bit_vector)
            requires
                b ^ (b >> 27) == q ^ (q >> 27),
        ;
        lemma_times_back(a ^ (a >> 30), 0xbf58_476d_1ce4_e5b9, 0x96de_1b17_3f11_9089);
        lemma_times_back(p ^ (p >> 30), 0xbf58_476d_1ce4_e5b9, 0x96de_1b17_3f11_9089);
        assert(a == p) by (bit_vector)
            requires
                a ^ (a >> 30) == p ^ (p >> 30),
        ;
    }
}

/// Scopes are independent: under one generator, scopes whose labels have different hashes
/// have different seeds, and already their first draws differ.
pub proof fn lemma_scopes_apart(state: u64, label: Seq<char>, other: Seq<char>)
    requires
        fnv(utf8(label)) != fnv(utf8(other)),
    ensures
        child_seed(state, label) != child_seed(state, other),
        draw(child_seed(state, label)) != draw(child_seed(state, other)),
{
    let h = fnv(utf8(label));
    let k = fnv(utf8(other));
    assert(state ^ h != state ^ k) by (bit_vector)
        requires
            h != k,
    ;
    lemma_mix_apart(state ^ h, state ^ k);
    lemma_mix_apart(advance(child_seed(state, label)), advance(child_seed(state, other)));
}

/// The sum of the weights up to `k` never falls as `k` grows.
pub proof fn lemma_weight_sum_grows(weights: Seq<u32>, i: int, j: int)
    requires
        0 <= i <= j <= weights.len(),
    ensures
        0 <= weight_sum(weights, i) <= weight_sum(weights, j),
    decreases j,
{
    if i < j {
        lemma_weight_sum_grows(weights, i, j - 1);
    } else if j > 0 {
        lemma_weight_sum_grows(weights, j - 1, j - 1);
    }
}

/// `weight_index` finds the one stretch that holds `x`.
proof fn lemma_weight_index(weights: Seq<u32>, x: int, i: int)
    requires
        0 <= i <= weights.len(),
        weight_sum(weights, i) <= x < weight_sum(weights, weights.len() as int),
    ensures
        i <= weight_index(weights, x, i) < weights.len(),
        weight_sum(weights, weight_index(weights, x, i)) <= x,
        x < weight_sum(weights, weight_index(weights, x, i) + 1),
    decreases weights.len() - i,
{
    if i < weights.len() && x >= weight_sum(weights, i + 1) {
        lemma_weight_index(weights, x, i + 1);
    }
}

/// A scaled draw lies below its bound, if the bound is positive.
pub proof fn lemma_draw_below(state: u64, n: int)
    requires
        n > 0,
    ensures
        0 <= draw_below(state, n) < n,
{
    let d = draw(state) as int;
    assert(0 <= d * n) by (nonlinear_arith)
        requires
            d >= 0,
            n > 0,
    ;
    assert(d * n < n * 0x1_0000_0000_0000_0000) by (nonlinear_arith)
        requires
            d < 0x1_0000_0000_0000_0000,
            n > 0,
    ;
}

/// A weighted draw gives an index whose weight is positive, and the scaled draw falls
/// into that index's stretch of the cumulated weights.
pub proof fn lemma_draw_weighted(state: u64, weights: Seq<u32>)
    requires
        weight_sum(weights, weights.len() as int) > 0,
    ensures
        ({
            let i = draw_weighted(state, weights);
            let x = draw_below(state, weight_sum(weights, weights.len() as int));
            &&& 0 <= i < weights.len()
            &&& weights[i] > 0
            &&& weight_sum(weights, i) <= x < weight_sum(weights, i + 1)
        }),
{
    lemma_draw_below(state, weight_sum(weights, weights.len() as int));
    lemma_weight_index(
        weights,
        draw_below(state, weight_sum(weights, weights.len() as int)),
        0,
    );
}

/// The fraction is below one.
pub proof fn lemma_draw_fraction(state: u64)
    ensures
        draw_fraction(state) < 0x20_0000_0000_0000,
{
    let d = draw(state);
    assert(d >> 11 < 0x20_0000_0000_0000) by (bit_vector);
}

/// A pseudo-random generator.
#[derive(Debug, Clone)]
pub struct Rng {
    state: u64,
}

impl View for Rng {
    type V = u64;

    closed spec fn view(&self) -> u64 {
        self.state
    }
}

impl Rng {
    /// The generator with the given seed.
    pub fn new(seed: u64) -> (r: Rng)
        ensures
            r@ == seed,
    {
        Rng { state: seed }
    }

    /// The generator of a named scope: the same parent and label always give the same
    /// child.
    pub fn child(&self, label: &str) -> (r: Rng)
        ensures
            r@ == child_seed(self@, label@),
    {
        Rng::new(splitmix(self.state ^ fnv1a(label.as_bytes())))
    }

    /// The generator of a scope with a numeric key, such as a content hash.
    pub fn child_u64(&self, key: u64) -> (r: Rng)
        ensures
            r@ == child_key_seed(self@, key),
    {
        Rng::new(splitmix(self.state ^ key))
    }

    /// Draws 64 bits.
    pub fn next_u64(&mut self) -> (r: u64)
        ensures
            final(self)@ == advance(old(self)@),
            r == draw(old(self)@),
    {
        self.state = self.state.wrapping_add(GOLDEN_GAMMA);
        splitmix(self.state)
    }

    /// Draws a number in `0..n`; gives 0 if `n` is 0.
    pub fn below(&mut self, n: u64) -> (r: u64)
        ensures
            final(self)@ == advance(old(self)@),
            r == draw_below(old(self)@, n as int),
            n > 0 ==> r < n,
    {
        let ghost before = self@;
        let bits: u64 = self.next_u64();
        proof {
            if n > 0 {
                lemma_draw_below(before, n as int);
            }
            assert(bits * n <= 0xffff_ffff_ffff_ffff * 0xffff_ffff_ffff_ffff)
                by (nonlinear_arith)
                requires
                    0 <= bits <= 0xffff_ffff_ffff_ffff,
                    0 <= n <= 0xffff_ffff_ffff_ffff,
            ;
        }
        let product: u128 = bits as u128 * n as u128;
        assert(product >> 64 == product / 0x1_0000_0000_0000_0000) by (bit_vector);
        (product >> 64) as u64
    }

    /// Draws a number in `lo..=hi`.
    pub fn range(&mut self, lo: i64, hi: i64) -> (r: i64)
        requires
            lo <= hi,
            hi - lo < i64::MAX,
        ensures
            final(self)@ == advance(old(self)@),
            r == draw_range(old(self)@, lo as int, hi as int),
            lo <= r <= hi,
    {
        lo + self.below((hi - lo + 1) as u64) as i64
    }

    /// Draws a fraction in [0, 1), counted in units of 2^-53.
    pub fn fraction(&mut self) -> (r: u64)
        ensures
            final(self)@ == advance(old(self)@),
            r == draw_fraction(old(self)@),
            r < 0x20_0000_0000_0000,
    {
        proof {
            lemma_draw_fraction(self@);
        }
        self.next_u64() >> 11
    }

    /// Draws an index into `weights`, each as likely as its weight says.
    pub fn weighted(&mut self, weights: &[u32]) -> (r: usize)
        requires
            0 < weight_sum(weights@, weights@.len() as int) <= u64::MAX,
        ensures
            final(self)@ == advance(old(self)@),
            r == draw_weighted(old(self)@, weights@),
            r < weights@.len(),
            weights@[r as int] > 0,
    {
        let ghost before = self@;
        let mut total: u64 = 0;
        for i in 0..weights.len()
            invariant
                total == weight_sum(weights@, i as int),
                weight_sum(weights@, weights@.len() as int) <= u64::MAX,
        {
            proof {
                lemma_weight_sum_grows(weights@, i + 1, weights@.len() as int);
            }
            total = total + weights[i] as u64;
        }
        let drawn: u64 = self.below(total);
        proof {
            lemma_draw_weighted(before, weights@);
        }
        let mut x: u64 = drawn;
        for i in 0..weights.len()
            invariant
                x == drawn - weight_sum(weights@, i as int),
                drawn < weight_sum(weights@, weights@.len() as int),
                drawn == draw_below(before, weight_sum(weights@, weights@.len() as int)),
                weight_index(weights@, drawn as int, i as int) == draw_weighted(before, weights@),
                0 <= draw_weighted(before, weights@) < weights@.len(),
                weights@[draw_weighted(before, weights@)] > 0,
                self@ == advance(before),
                before == old(self)@,
        {
            if x < weights[i] as u64 {
                return i;
            }
            x = x - weights[i] as u64;
        }
        weights.len() - 1
    }
}

/// The SplitMix64 finalizer.
fn splitmix(z: u64) -> (r: u64)
    ensures
        r == mix(z),
{
    let a: u64 = z.wrapping_add(GOLDEN_GAMMA);
    let b: u64 = (a ^ (a >> 30)).wrapping_mul(0xbf58_476d_1ce4_e5b9);
    let c: u64 = (b ^ (b >> 27)).wrapping_mul(0x94d0_49bb_1331_11eb);
    c ^ (c >> 31)
}

/// FNV-1a over arbitrary bytes.
pub fn fnv1a(bytes: &[u8]) -> (r: u64)
    ensures
        r == fnv(bytes@),
{
    let mut h: u64 = FNV_OFFSET;
    for i in 0..bytes.len()
        invariant
            h == fnv(bytes@.take(i as int)),
    {
        assert(bytes@.take(i + 1).drop_last() =~= bytes@.take(i as int));
        h = (h ^ (bytes[i] as u64)).wrapping_mul(FNV_PRIME);
    }
    assert(bytes@.take(bytes@.len() as int) =~= bytes@);
    h
}

} // verus!
