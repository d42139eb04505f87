//! The seeded random stream that the level generator consumes.

use crate::hash::{hash_multiplies_between_folds, hash_u32, hashed};
use vstd::arithmetic::div_mod::lemma_mod_multiples_basic;
use vstd::prelude::*;
use vstd::seq_lib::group_to_multiset_ensures;

verus! {

/// Increment between two states of the stream, before hashing.
pub const INCREMENT: u32 = 0x9E3779B9;

/// The sum of `x` and `y` modulo two to the power 32.
pub open spec fn wrapped_sum(x: u32, y: u32) -> u32 {
    ((x + y) % 0x1_0000_0000) as u32
}

/// The state in which the stream of `seed` starts.
pub open spec fn first_state(seed: u32) -> u32 {
    hashed(wrapped_sum(seed, 1))
}

/// The state that follows `state`; it is also the number drawn.
pub open spec fn next_state(state: u32) -> u32 {
    hashed(wrapped_sum(state, INCREMENT))
}

/// The integer of `[lo, hi]` that the draw `n` selects.
pub open spec fn pick(n: u32, lo: int, hi: int) -> int {
    lo + n as int % (hi - lo + 1)
}

/// Whether the draw `n` counts as heads.
pub open spec fn heads(n: u32) -> bool {
    n % 2 == 0
}

/// `s` with the elements at `i` and `j` exchanged.
pub open spec fn exchanged<T>(s: Seq<T>, i: int, j: int) -> Seq<T> {
    s.update(i, s[j]).update(j, s[i])
}

/// What a shuffle that starts in `state` leaves of `s`, with the state that it
/// ends in, when only the positions up to `i` are still to be settled: each
/// position from `i` down to one is exchanged with a drawn position no higher.
pub open spec fn shuffled_up_to<T>(s: Seq<T>, state: u32, i: int) -> (Seq<T>, u32)
    decreases i,
{
    if i <= 0 {
        (s, state)
    } else {
        let n = next_state(state);
        shuffled_up_to(exchanged(s, i, n as int % (i + 1)), n, i - 1)
    }
}

/// What a whole shuffle leaves of `s`, with the state that it ends in.
pub open spec fn shuffled<T>(s: Seq<T>, state: u32) -> (Seq<T>, u32) {
    shuffled_up_to(s, state, s.len() - 1)
}

/// Tiny seeded random number generator built on [`hash_u32`]. Deterministic
/// per seed, and good enough for level generation; not for cryptography.
pub struct Rng {
    state: u32,
}

impl View for Rng {
    type V = u32;

    closed spec fn view(&self) -> u32 {
        self.state
    }
}

impl Rng {
    /// The stream of `seed`.
    pub fn new(seed: u32) -> (rng: Self)
        ensures
            rng@ == first_state(seed),
    {
        Rng { state: hash_u32(seed.wrapping_add(1)) }
    }

    /// The next number of the stream.
    pub fn next_u32(&mut self) -> (n: u32)
        ensures
            n == next_state(old(self)@),
            final(self)@ == n,
    {
        self.state = hash_u32(self.state.wrapping_add(INCREMENT));
        self.state
    }

    /// A uniform integer in `[lo, hi]`, both inclusive.
    pub fn range(&mut self, lo: i32, hi: i32) -> (r: i32)
        requires
            lo <= hi,
            hi - lo < i32::MAX,
        ensures
            final(self)@ == next_state(old(self)@),
            r == pick(final(self)@, lo as int, hi as int),
            lo <= r <= hi,
            (final(self)@ - (r - lo)) % (hi - lo + 1) == 0,
    {
        let span: u32 = (hi - lo + 1) as u32;
        let n: u32 = self.next_u32();
        let step: u32 = n % span;
        assert(step < span);
        proof {
            picks_are_congruent(n, lo as int, hi as int);
        }
        lo + step as i32
    }

    /// A fair coin.
    pub fn bool(&mut self) -> (b: bool)
        ensures
            final(self)@ == next_state(old(self)@),
            b == heads(final(self)@),
            b == (final(self)@ % 2 == 0),
    {
        let n: u32 = self.next_u32();
        assert((n & 1 == 0) == (n % 2 == 0)) by (bit_vector);
        n & 1 == 0
    }

    /// A uniform fraction of one, as its numerator over two to the power 24.
    pub fn unit_numerator(&mut self) -> (n: u32)
        ensures
            final(self)@ == next_state(old(self)@),
            n == final(self)@ / 256,
            n < 0x100_0000,
    {
        let n: u32 = self.next_u32();
        assert(n >> 8 == n / 256) by (bit_vector);
        n >> 8
    }

    /// In-place Fisher-Yates shuffle.
    pub fn shuffle<T>(&mut self, slice: &mut [T])
        ensures
            (final(slice)@, final(self)@) == shuffled(old(slice)@, old(self)@),
            final(slice)@.to_multiset() == old(slice)@.to_multiset(),
    {
        let mut i: usize = slice.len();
        while i > 1
            invariant
                slice@.len() == old(slice)@.len(),
                i <= slice@.len(),
                shuffled_up_to(slice@, self@, i - 1) == shuffled(old(slice)@, old(self)@),
                slice@.to_multiset() == old(slice)@.to_multiset(),
            decreases i,
        {
            i = i - 1;
            let n: u32 = self.next_u32();
            let j: usize = (n as usize) % (i + 1);
            proof {
                lemma_exchange_keeps_multiset(slice@, i as int, j as int);
            }
            exchange(slice, i, j);
        }
    }
}

/// Exchanges the element at `i` with the one at a position `j` no higher.
fn exchange<T>(slice: &mut [T], i: usize, j: usize)
    requires
        j <= i < old(slice)@.len(),
    ensures
        final(slice)@ == exchanged(old(slice)@, i as int, j as int),
{
    if j < i {
        let (low, high) = slice.split_at_mut(i);
        std::mem::swap(&mut low[j], &mut high[0]);
    }
}

proof fn lemma_exchange_keeps_multiset<T>(s: Seq<T>, i: int, j: int)
    requires
        0 <= j <= i < s.len(),
    ensures
        exchanged(s, i, j).to_multiset() == s.to_multiset(),
{
    broadcast use group_to_multiset_ensures;

    if j == i {
        assert(exchanged(s, i, j) =~= s);
    } else {
        let once = s.update(i, s[j]);
        assert(once.to_multiset() == s.to_multiset().insert(s[j]).remove(s[i]));
        assert(exchanged(s, i, j).to_multiset() == once.to_multiset().insert(s[i]).remove(s[j]));
        assert(exchanged(s, i, j).to_multiset() =~= s.to_multiset());
    }
}

/// A pick lies in its range, and differs from the draw by whole ranges.
pub proof fn picks_are_congruent(n: u32, lo: int, hi: int)
    requires
        lo <= hi,
    ensures
        lo <= pick(n, lo, hi) <= hi,
        (n - (pick(n, lo, hi) - lo)) % (hi - lo + 1) == 0,
{
    let (m, k) = (n as int, hi - lo + 1);
    let q = m / k;
    assert(0 <= m % k < k && m - m % k == k * q) by (nonlinear_arith)
        requires
            k >= 1,
            q == m / k,
    ;
    lemma_mod_multiples_basic(q, k);
    assert(q * k == k * q) by (nonlinear_arith);
}

/// The stream steps by a fixed increment and the hash, and a seed starts it at
/// the hash of its successor, both modulo two to the power 32.
pub proof fn stream_is_hashed_increments(state: u32, x: u32)
    ensures
        x == (state + 0x9E3779B9) % 0x1_0000_0000 ==> next_state(state) == hashed(x) && next_state(
            state,
        ) ^ (next_state(state) >> 16u32) == ((x ^ (x >> 16u32)) * 0x45d9f3b) % 0x1_0000_0000,
        x == (state + 1) % 0x1_0000_0000 ==> first_state(state) == hashed(x) && first_state(state)
            ^ (first_state(state) >> 16u32) == ((x ^ (x >> 16u32)) * 0x45d9f3b) % 0x1_0000_0000,
{
    hash_multiplies_between_folds(x);
}

/// A shuffle settles the last position first, by the first draw: of `n`
/// elements, the one at the draw modulo `n` becomes the last, the last takes its
/// place, and what precedes is shuffled by the draws that follow. Fewer than two
/// elements stay, and take no draw.
pub proof fn shuffle_settles_the_last_position<T>(s: Seq<T>, state: u32)
    ensures
        s.len() < 2 ==> shuffled(s, state) == (s, state),
        s.len() >= 2 ==> ({
            let n = next_state(state);
            let j = n as int % s.len() as int;
            let rest = shuffled(s.update(j, s.last()).drop_last(), n);
            shuffled(s, state) == (rest.0.push(s[j]), rest.1)
        }),
{
    if s.len() >= 2 {
        let n = next_state(state);
        let last = s.len() - 1;
        let j = n as int % s.len() as int;
        let whole = exchanged(s, last, j);
        let front = s.update(j, s.last()).drop_last();
        assert(whole.take(last) =~= front);
        assert(whole.skip(last) =~= seq![s[j]]);
        lemma_shuffle_leaves_the_end(whole, n, last - 1, last);
        let rest = shuffled(front, n);
        assert(rest.0 + seq![s[j]] =~= rest.0.push(s[j]));
    }
}

/// What lies beyond the positions to be settled plays no part.
proof fn lemma_shuffle_leaves_the_end<T>(s: Seq<T>, state: u32, i: int, m: int)
    requires
        i < m <= s.len(),
        0 <= m,
    ensures
        shuffled_up_to(s, state, i).0 == shuffled_up_to(s.take(m), state, i).0 + s.skip(m),
        shuffled_up_to(s, state, i).1 == shuffled_up_to(s.take(m), state, i).1,
    decreases i,
{
    if i <= 0 {
        assert(s.take(m) + s.skip(m) =~= s);
    } else {
        let n = next_state(state);
        let j = n as int % (i + 1);
        let next = exchanged(s, i, j);
        lemma_shuffle_leaves_the_end(next, n, i - 1, m);
        assert(next.take(m) =~= exchanged(s.take(m), i, j));
        assert(next.skip(m) =~= s.skip(m));
    }
}

/// A shuffle rearranges: it neither adds, drops nor repeats an element.
pub proof fn shuffle_permutes<T>(s: Seq<T>, state: u32)
    ensures
        shuffled(s, state).0.len() == s.len(),
        shuffled(s, state).0.to_multiset() == s.to_multiset(),
{
    lemma_shuffle_up_to_permutes(s, state, s.len() - 1);
}

proof fn lemma_shuffle_up_to_permutes<T>(s: Seq<T>, state: u32, i: int)
    requires
        i < s.len(),
    ensures
        shuffled_up_to(s, state, i).0.len() == s.len(),
        shuffled_up_to(s, state, i).0.to_multiset() == s.to_multiset(),
    decreases i,
{
    if i > 0 {
        let n = next_state(state);
        let j = n as int % (i + 1);
        lemma_exchange_keeps_multiset(s, i, j);
        lemma_shuffle_up_to_permutes(exchanged(s, i, j), n, i - 1);
    }
}

/// The state of the stream after `n` more draws.
pub open spec fn after_draws(state: u32, n: nat) -> u32
    decreases n,
{
    if n == 0 {
        state
    } else {
        after_draws(next_state(state), (n - 1) as nat)
    }
}

/// A shuffle of `n` elements takes `n - 1` draws; one of none takes none.
pub proof fn shuffle_draws_once_per_element_but_one<T>(s: Seq<T>, state: u32)
    ensures
        shuffled(s, state).1 == after_draws(
            state,
            if s.len() == 0 {
                0
            } else {
                (s.len() - 1) as nat
            },
        ),
{
    if s.len() > 0 {
        lemma_shuffle_up_to_draws(s, state, s.len() - 1);
    }
}

proof fn lemma_shuffle_up_to_draws<T>(s: Seq<T>, state: u32, i: int)
    requires
        i >= 0,
    ensures
        shuffled_up_to(s, state, i).1 == after_draws(state, i as nat),
    decreases i,
{
    if i > 0 {
        let n = next_state(state);
        lemma_shuffle_up_to_draws(exchanged(s, i, n as int % (i + 1)), n, i - 1);
    }
}

/// A shuffle moves elements by position alone: it commutes with a map.
pub proof fn shuffle_commutes_with_map<T, U>(s: Seq<T>, state: u32, f: spec_fn(T) -> U)
    ensures
        shuffled(s.map_values(f), state) == (
            shuffled(s, state).0.map_values(f),
            shuffled(s, state).1,
        ),
{
    lemma_shuffle_up_to_commutes(s, state, s.len() - 1, f);
}

proof fn lemma_shuffle_up_to_commutes<T, U>(s: Seq<T>, state: u32, i: int, f: spec_fn(T) -> U)
    requires
        i < s.len(),
    ensures
        shuffled_up_to(s.map_values(f), state, i) == (
            shuffled_up_to(s, state, i).0.map_values(f),
            shuffled_up_to(s, state, i).1,
        ),
    decreases i,
{
    if i > 0 {
        let n = next_state(state);
        let j = n as int % (i + 1);
        assert(exchanged(s, i, j).map_values(f) =~= exchanged(s.map_values(f), i, j));
        lemma_shuffle_up_to_commutes(exchanged(s, i, j), n, i - 1, f);
    }
}

} // verus!
