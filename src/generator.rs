use vstd::prelude::*;

use crate::mixing::{mix, squirrel3};

verus! {

/// The largest mixed value, the divisor that maps a draw onto the unit
/// interval: a draw `d` stands for the rational `d / UNIT_DIVISOR` in `[0, 1]`.
pub const UNIT_DIVISOR: u64 = 0xFFFF_FFFF;

/// The position after one more draw: one higher, wrapping from `u32::MAX` to 0.
pub open spec fn next_position(p: u32) -> u32 {
    p.wrapping_add(1)
}

/// The position after `n` draws starting at `p`.
pub open spec fn position_after(p: u32, n: nat) -> u32
    decreases n,
{
    if n == 0 {
        p
    } else {
        next_position(position_after(p, (n - 1) as nat))
    }
}

/// `(draw / UNIT_DIVISOR) * span`, truncated toward zero.
pub open spec fn scale(draw: u32, span: int) -> int {
    if span >= 0 {
        (draw * span) / (UNIT_DIVISOR as int)
    } else {
        -((draw * -span) / (UNIT_DIVISOR as int))
    }
}

/// A draw taken into `[min, max]` for an unsigned type: `min + scale(draw, max - min)`;
/// when `max < min` the truncated product is negative, saturates to zero, and
/// the result is `min`.
pub open spec fn unsigned_in_range(draw: u32, min: int, max: int) -> int {
    if min <= max {
        min + scale(draw, max - min)
    } else {
        min
    }
}

/// A draw taken into the range between `min` and `max` for a signed type:
/// `min + scale(draw, max - min)`, whichever of the two bounds is larger.
pub open spec fn signed_in_range(draw: u32, min: int, max: int) -> int {
    min + scale(draw, max - min)
}

/// Whether a draw stands for a unit value below one half.
pub open spec fn below_half(draw: u32) -> bool {
    2 * draw < UNIT_DIVISOR
}

/// The index that the shuffle of `len` entries swaps with index `n`: a draw
/// taken into `[0, n + 1]`. Only the largest draw reaches `n + 1`; where that
/// lies past the end (at the last index) it is kept at `n`.
pub open spec fn swap_index(draw: u32, n: int, len: int) -> int {
    let k = scale(draw, n + 1);
    if k >= len {
        n
    } else {
        k
    }
}

/// `s` with the entries at `i` and `j` exchanged.
pub open spec fn swapped<T>(s: Seq<T>, i: int, j: int) -> Seq<T> {
    s.update(i, s[j]).update(j, s[i])
}

/// How many draws a shuffle of `len` entries makes: one for each index from
/// 1 to `len - 1`.
pub open spec fn shuffle_draws(len: nat) -> nat {
    if len == 0 {
        0
    } else {
        (len - 1) as nat
    }
}

/// `s` after the first `n` steps of the shuffle from `position` under `seed`:
/// step `i` (from 1) draws at the `i`-th position after `position` and swaps
/// index `i` with the index that draw picks among the `s.len()` entries.
pub open spec fn shuffle_steps<T>(s: Seq<T>, position: u32, seed: u32, n: nat) -> Seq<T>
    decreases n,
{
    if n == 0 {
        s
    } else {
        let prev = shuffle_steps(s, position, seed, (n - 1) as nat);
        swapped(
            prev,
            n as int,
            swap_index(mix(position_after(position, n), seed), n as int, s.len() as int),
        )
    }
}

/// A scaled draw lies between 0 and the span; below the span unless the draw
/// is the largest one.
pub proof fn lemma_scale_bounds(draw: u32, span: int)
    requires
        span >= 0,
    ensures
        0 <= scale(draw, span) <= span,
        draw < UNIT_DIVISOR && span > 0 ==> scale(draw, span) < span,
{
    let d = UNIT_DIVISOR as int;
    let x = draw * span;
    let q = x / d;
    vstd::arithmetic::div_mod::lemma_fundamental_div_mod(x, d);
    assert(0 <= x <= d * span) by (nonlinear_arith)
        requires x == draw * span, 0 <= draw <= d, span >= 0;
    assert(0 <= q <= span) by (nonlinear_arith)
        requires x == d * q + x % d, 0 <= x % d < d, 0 <= x <= d * span, d > 0;
    if draw < d && span > 0 {
        assert(x < d * span) by (nonlinear_arith)
            requires x == draw * span, draw < d, span > 0;
        assert(q < span) by (nonlinear_arith)
            requires x == d * q + x % d, 0 <= x % d, x < d * span, d > 0;
    }
}

/// Exchanging two entries keeps the multiset of entries.
pub proof fn lemma_swapped_multiset<T>(s: Seq<T>, i: int, j: int)
    requires
        0 <= i < s.len(),
        0 <= j < s.len(),
    ensures
        swapped(s, i, j).to_multiset() == s.to_multiset(),
{
    broadcast use vstd::seq_lib::group_to_multiset_ensures;
    broadcast use vstd::seq_lib::to_multiset_update;
    if i == j {
        assert(swapped(s, i, j) =~= s);
    } else {
        let s1 = s.update(i, s[j]);
        assert(s1[j] == s[j]);
        assert(s.to_multiset().count(s[i]) > 0);
        assert(s.to_multiset().insert(s[j]).remove(s[i]).insert(s[i]).remove(s[j])
            =~= s.to_multiset());
    }
}

/// Exchanges the entries at `i` and `j` of a slice.
fn swap_entries<T>(slice: &mut [T], i: usize, j: usize)
    requires
        i < j < old(slice)@.len(),
    ensures
        final(slice)@ == swapped(old(slice)@, i as int, j as int),
{
    let ghost before = slice@;
    let (low, high) = slice.split_at_mut(j);
    let (_, middle) = low.split_at_mut(i);
    match middle.first_mut() {
        Some(a) => match high.first_mut() {
            Some(b) => core::mem::swap(a, b),
            None => {},
        },
        None => {},
    }
    assert(slice@ =~= swapped(before, i as int, j as int));
}

/// A generator: a position that every draw advances by one, and a seed.
/// A draw returns the mixed value of the advanced position under the seed.
pub struct Rng {
    position: u32,
    seed: u32,
}

impl Rng {
    /// How many draws the generator has made, modulo 2^32.
    pub closed spec fn position(&self) -> u32 {
        self.position
    }

    /// The seed that selects the generator's stream.
    pub closed spec fn current_seed(&self) -> u32 {
        self.seed
    }

    /// The value the next draw returns.
    pub open spec fn next_draw(&self) -> u32 {
        mix(next_position(self.position()), self.current_seed())
    }

    /// `next` is this generator after one draw: the position advanced, the seed kept.
    pub open spec fn stepped(&self, next: &Self) -> bool {
        &&& next.position() == next_position(self.position())
        &&& next.current_seed() == self.current_seed()
    }

    /// A generator at position 0 with the given seed.
    pub fn new(seed: u32) -> (r: Self)
        ensures
            r.position() == 0,
            r.current_seed() == seed,
    {
        Rng { position: 0, seed }
    }

    /// Replaces the seed. The position is kept: later draws go on from it
    /// under the new seed.
    pub fn seed(&mut self, value: u32)
        ensures
            final(self).position() == old(self).position(),
            final(self).current_seed() == value,
    {
        self.seed = value;
    }

    /// Advances the position and returns the mixed value of the new position
    /// under the seed. Its unit value is `r / UNIT_DIVISOR`.
    pub fn draw(&mut self) -> (r: u32)
        ensures
            old(self).stepped(final(self)),
            r == old(self).next_draw(),
            r == mix(final(self).position(), final(self).current_seed()),
    {
        self.position = self.position.wrapping_add(1);
        squirrel3(self.position, self.seed)
    }

    /// Draws a value that is `true` when the unit value is below one half.
    pub fn bool(&mut self) -> (r: bool)
        ensures
            old(self).stepped(final(self)),
            r == below_half(old(self).next_draw()),
    {
        let d = self.draw();
        (d as u64) * 2 < UNIT_DIVISOR
    }

    /// Draws an `i32` at `min + scale(draw, max - min)`: in `[min, max]` when
    /// `min <= max`, in `[max, min]` otherwise.
    pub fn range_i32(&mut self, min: i32, max: i32) -> (r: i32)
        ensures
            old(self).stepped(final(self)),
            r == signed_in_range(old(self).next_draw(), min as int, max as int),
            min <= max ==> min <= r <= max,
            max < min ==> max <= r <= min,
            min < max && old(self).next_draw() < UNIT_DIVISOR ==> r < max,
    {
        let d = self.draw();
        let span: i64 = max as i64 - min as i64;
        let magnitude: u64 = if span >= 0 { span as u64 } else { (-span) as u64 };
        proof {
            lemma_scale_bounds(d, magnitude as int);
            assert(d as int * magnitude as int <= u64::MAX) by (nonlinear_arith)
                requires d <= u32::MAX, magnitude <= u32::MAX;
        }
        let q: u64 = (d as u64 * magnitude) / UNIT_DIVISOR;
        let r: i64 = if span >= 0 { min as i64 + q as i64 } else { min as i64 - q as i64 };
        r as i32
    }

    /// Draws a `u8` at `min + scale(draw, max - min)`, or `min` when `max < min`.
    pub fn range_u8(&mut self, min: u8, max: u8) -> (r: u8)
        ensures
            old(self).stepped(final(self)),
            r == unsigned_in_range(old(self).next_draw(), min as int, max as int),
            min <= max ==> min <= r <= max,
            min < max && old(self).next_draw() < UNIT_DIVISOR ==> r < max,
    {
        let d = self.draw();
        if max < min {
            return min;
        }
        let span: u64 = (max - min) as u64;
        proof {
            lemma_scale_bounds(d, span as int);
            assert(d as int * span as int <= u64::MAX) by (nonlinear_arith)
                requires d <= u32::MAX, span <= u8::MAX;
        }
        let q: u64 = (d as u64 * span) / UNIT_DIVISOR;
        min + q as u8
    }

    /// Draws a `usize` at `min + scale(draw, max - min)`, or `min` when `max < min`.
    pub fn range_usize(&mut self, min: usize, max: usize) -> (r: usize)
        ensures
            old(self).stepped(final(self)),
            r == unsigned_in_range(old(self).next_draw(), min as int, max as int),
            min <= max ==> min <= r <= max,
            min < max && old(self).next_draw() < UNIT_DIVISOR ==> r < max,
    {
        let d = self.draw();
        if max < min {
            return min;
        }
        let span: u128 = (max - min) as u128;
        proof {
            lemma_scale_bounds(d, span as int);
            assert(d as int * span as int <= u128::MAX) by (nonlinear_arith)
                requires d <= u32::MAX, span <= u64::MAX;
        }
        let q: u128 = (d as u128 * span) / (UNIT_DIVISOR as u128);
        min + q as usize
    }

    /// Draws a `u32` at `min + scale(draw, max - min)`, or `min` when `max < min`.
    /// With `min < max` the result is below `max` unless the draw is the largest one.
    pub fn range_u32(&mut self, min: u32, max: u32) -> (r: u32)
        ensures
            old(self).stepped(final(self)),
            r == unsigned_in_range(old(self).next_draw(), min as int, max as int),
            min <= max ==> min <= r <= max,
            min < max && old(self).next_draw() < UNIT_DIVISOR ==> r < max,
    {
        let d = self.draw();
        if max < min {
            return min;
        }
        let span: u64 = (max - min) as u64;
        proof {
            lemma_scale_bounds(d, span as int);
            assert(d as int * span as int <= u64::MAX) by (nonlinear_arith)
                requires d <= u32::MAX, span <= u32::MAX;
        }
        let q: u64 = (d as u64 * span) / UNIT_DIVISOR;
        min + q as u32
    }

    /// Draws a `u8` in `[0, max]`: the same as `range_u8(0, max)`.
    pub fn u8(&mut self, max: u8) -> (r: u8)
        ensures
            old(self).stepped(final(self)),
            r == scale(old(self).next_draw(), max as int),
            r <= max,
    {
        self.range_u8(0, max)
    }

    /// Draws a `usize` in `[0, max]`: the same as `range_usize(0, max)`.
    pub fn usize(&mut self, max: usize) -> (r: usize)
        ensures
            old(self).stepped(final(self)),
            r == scale(old(self).next_draw(), max as int),
            r <= max,
    {
        self.range_usize(0, max)
    }

    /// Draws a `u32` in `[0, max]`: the same as `range_u32(0, max)`.
    pub fn u32(&mut self, max: u32) -> (r: u32)
        ensures
            old(self).stepped(final(self)),
            r == scale(old(self).next_draw(), max as int),
            r <= max,
    {
        self.range_u32(0, max)
    }
    /// Shuffles a slice in place: for each index `n` from 1 to `len - 1`, draws
    /// `k = usize(n + 1)` and swaps the entries at `n` and `k`. Only the largest
    /// draw gives `k = n + 1`; at the last index that lies past the end, and
    /// there (a deliberate strengthening, so that no draw can index out of
    /// bounds) the entry at `n` stays where it is. Slices of length 0 or 1 are
    /// kept and make no draw.
    pub fn shuffle<T>(&mut self, slice: &mut [T])
        ensures
            final(slice)@ == shuffle_steps(
                old(slice)@,
                old(self).position(),
                old(self).current_seed(),
                shuffle_draws(old(slice)@.len()),
            ),
            final(self).position() == position_after(
                old(self).position(),
                shuffle_draws(old(slice)@.len()),
            ),
            final(self).current_seed() == old(self).current_seed(),
            final(slice)@.to_multiset() == old(slice)@.to_multiset(),
            old(slice)@.len() <= 1 ==> final(slice)@ == old(slice)@ && final(self).position()
                == old(self).position(),
    {
        let ghost start = *self;
        let ghost original = slice@;
        let len = slice.len();
        let mut n: usize = 1;
        while n < len
            invariant
                1 <= n,
                len == 0 ==> n == 1,
                len == 0 || n <= len,
                len == original.len(),
                slice@.len() == len,
                slice@ == shuffle_steps(
                    original,
                    start.position(),
                    start.current_seed(),
                    (n - 1) as nat,
                ),
                slice@.to_multiset() == original.to_multiset(),
                self.position() == position_after(start.position(), (n - 1) as nat),
                self.current_seed() == start.current_seed(),
            decreases len - n,
        {
            let ghost before = slice@;
            let k = self.usize(n + 1);
            let k = if k >= len { n } else { k };
            proof {
                assert(position_after(start.position(), n as nat) == self.position());
                lemma_swapped_multiset(before, n as int, k as int);
            }
            if k < n {
                swap_entries(slice, k, n);
                assert(swapped(before, k as int, n as int) =~= swapped(before, n as int, k as int));
            } else if k > n {
                swap_entries(slice, n, k);
            } else {
                assert(swapped(before, n as int, n as int) =~= before);
            }
            n = n + 1;
        }
        assert(shuffle_draws(len as nat) == (n - 1) as nat);
    }
}

/// `states` records a generator across draws: each state is the one before
/// after one draw (by any of the drawing methods).
pub open spec fn is_draw_chain(states: Seq<Rng>) -> bool {
    forall|i: int|
        0 <= i < states.len() - 1 ==> #[trigger] states[i].stepped(&states[i + 1])
}

/// The position after one more draw is one higher modulo 2^32.
proof fn lemma_next_position_mod(p: u32, i: int)
    requires
        i >= 1,
        p as int == (i - 1) % 0x1_0000_0000,
    ensures
        next_position(p) as int == i % 0x1_0000_0000,
{
    vstd::arithmetic::div_mod::lemma_add_mod_noop(i - 1, 1, 0x1_0000_0000);
}

/// Along a chain of draws that starts at a fresh generator with `seed`, the
/// state after `i` draws has position `i` modulo 2^32 and still has `seed`.
proof fn lemma_chain_state(states: Seq<Rng>, seed: u32, i: int)
    requires
        is_draw_chain(states),
        states.len() >= 1,
        states[0].position() == 0,
        states[0].current_seed() == seed,
        0 <= i < states.len(),
    ensures
        states[i].position() as int == i % 0x1_0000_0000,
        states[i].current_seed() == seed,
    decreases i,
{
    if i > 0 {
        lemma_chain_state(states, seed, i - 1);
        let j = i - 1;
        assert(states[j].stepped(&states[j + 1]));
        lemma_next_position_mod(states[i - 1].position(), i);
    }
}

/// After `n` draws from a fresh generator its position is `n` modulo 2^32,
/// its seed is unchanged, and the draw made from the state after `i` draws
/// returns the mixed value of `i + 1` (modulo 2^32) under the seed.
pub proof fn lemma_position_counts_draws(states: Seq<Rng>, seed: u32)
    requires
        is_draw_chain(states),
        states.len() >= 1,
        states[0].position() == 0,
        states[0].current_seed() == seed,
    ensures
        forall|i: int|
            0 <= i < states.len() ==> #[trigger] states[i].position() as int == i % 0x1_0000_0000
                && states[i].current_seed() == seed,
        forall|i: int|
            0 <= i < states.len() ==> #[trigger] states[i].next_draw() == mix(
                ((i + 1) % 0x1_0000_0000) as u32,
                seed,
            ),
{
    assert forall|i: int| 0 <= i < states.len() implies #[trigger] states[i].position() as int == i
        % 0x1_0000_0000 && states[i].current_seed() == seed by {
        lemma_chain_state(states, seed, i);
    }
    assert forall|i: int| 0 <= i < states.len() implies #[trigger] states[i].next_draw() == mix(
        ((i + 1) % 0x1_0000_0000) as u32,
        seed,
    ) by {
        lemma_chain_state(states, seed, i);
        lemma_next_position_mod(states[i].position(), i + 1);
    }
}

/// Two generators created with the same seed and drawn from the same number
/// of times are in the same state after every draw, so every draw of the one
/// returns what the same draw of the other returns.
pub proof fn lemma_streams_agree(a: Seq<Rng>, b: Seq<Rng>, seed: u32)
    requires
        is_draw_chain(a),
        is_draw_chain(b),
        a.len() == b.len(),
        a.len() >= 1,
        a[0].position() == 0,
        a[0].current_seed() == seed,
        b[0].position() == 0,
        b[0].current_seed() == seed,
    ensures
        forall|i: int|
            0 <= i < a.len() ==> #[trigger] a[i].position() == b[i].position() && a[i].current_seed()
                == b[i].current_seed() && a[i].next_draw() == b[i].next_draw(),
{
    lemma_position_counts_draws(a, seed);
    lemma_position_counts_draws(b, seed);
    assert forall|i: int| 0 <= i < a.len() implies #[trigger] a[i].position() == b[i].position()
        && a[i].current_seed() == b[i].current_seed() && a[i].next_draw() == b[i].next_draw() by {
        assert(a[i].position() as int == i % 0x1_0000_0000);
        assert(b[i].position() as int == i % 0x1_0000_0000);
    }
}

/// `states` records a generator driven through `ops`: where `ops[i]` is
/// `None`, state `i + 1` is state `i` after one draw (by any of the drawing
/// methods); where it is `Some(v)`, state `i + 1` is state `i` reseeded to `v`.
pub open spec fn is_run(states: Seq<Rng>, ops: Seq<Option<u32>>) -> bool {
    &&& states.len() == ops.len() + 1
    &&& forall|i: int|
        0 <= i < ops.len() ==> match #[trigger] ops[i] {
            None => states[i].stepped(&states[i + 1]),
            Some(v) => states[i + 1].position() == states[i].position()
                && states[i + 1].current_seed() == v,
        }
}

/// Two generators created with the same seed and driven through the same
/// draws and reseeds are in the same state after every operation, so every
/// draw of the one returns what the same draw of the other returns.
pub proof fn lemma_runs_agree(a: Seq<Rng>, b: Seq<Rng>, ops: Seq<Option<u32>>, seed: u32)
    requires
        is_run(a, ops),
        is_run(b, ops),
        a[0].position() == 0,
        a[0].current_seed() == seed,
        b[0].position() == 0,
        b[0].current_seed() == seed,
    ensures
        forall|i: int|
            0 <= i < a.len() ==> #[trigger] a[i].position() == b[i].position() && a[i].current_seed()
                == b[i].current_seed() && a[i].next_draw() == b[i].next_draw(),
{
    assert forall|i: int| 0 <= i < a.len() implies #[trigger] a[i].position() == b[i].position()
        && a[i].current_seed() == b[i].current_seed() && a[i].next_draw() == b[i].next_draw() by {
        lemma_runs_agree_upto(a, b, ops, i);
    }
    assert(a.len() == b.len());
}

/// The two runs of `lemma_runs_agree` agree up to state `i`.
proof fn lemma_runs_agree_upto(a: Seq<Rng>, b: Seq<Rng>, ops: Seq<Option<u32>>, i: int)
    requires
        is_run(a, ops),
        is_run(b, ops),
        a[0].position() == b[0].position(),
        a[0].current_seed() == b[0].current_seed(),
        0 <= i < a.len(),
    ensures
        a[i].position() == b[i].position(),
        a[i].current_seed() == b[i].current_seed(),
    decreases i,
{
    if i > 0 {
        let j = i - 1;
        lemma_runs_agree_upto(a, b, ops, j);
        match ops[j] {
            None => {
                assert(a[j].stepped(&a[j + 1]));
                assert(b[j].stepped(&b[j + 1]));
            },
            Some(_) => {},
        }
    }
}

/// Reseeding keeps the position: a fresh generator with seed `a` that draws
/// once, is reseeded to `b` and draws again makes that second draw at
/// position 2 under `b`.
pub proof fn lemma_reseed_keeps_position(
    fresh: Rng,
    drawn: Rng,
    reseeded: Rng,
    after: Rng,
    a: u32,
    b: u32,
)
    requires
        fresh.position() == 0,
        fresh.current_seed() == a,
        fresh.stepped(&drawn),
        reseeded.position() == drawn.position(),
        reseeded.current_seed() == b,
        reseeded.stepped(&after),
    ensures
        drawn.position() == 1,
        reseeded.position() == 1,
        after.position() == 2,
        reseeded.next_draw() == mix(2, b),
{
}

} // verus!
