//! The musical constraints: scales as steps, contours, the melodic walk, and the places
//! of notes in a bar. The generator selects; these rules constrain.

use vstd::arithmetic::power2::{lemma2_to64, lemma2_to64_rest, pow2};
use vstd::prelude::*;

use crate::binary::{
    double, lemma_double_within_one, lemma_round_exact, lemma_round_multiple, round_double, Real,
    DOUBLE_LIMIT, ONE,
};
use crate::model::{scale_degrees, Key, Scale};
use crate::rng::{advance, draw_range, draw_weighted, lemma_draw_weighted, weight_sum, Rng};

verus! {

/// Contour templates: where in its register a melody wants to be as a phrase goes on.
#[derive(Debug, Clone, Copy, PartialEq, Eq, Structural)]
pub enum Contour {
    Arch,
    Ramp,
    Valley,
    Plateau,
    Zigzag,
}

/// How many contours there are.
pub const CONTOUR_COUNT: u64 = 5;

/// The contours in their order.
pub open spec fn contour_at(i: int) -> Contour {
    if i == 0 {
        Contour::Arch
    } else if i == 1 {
        Contour::Ramp
    } else if i == 2 {
        Contour::Valley
    } else if i == 3 {
        Contour::Plateau
    } else {
        Contour::Zigzag
    }
}

/// 0.2 as a double.
pub const FIFTH: i128 = 3602879701896397 * 0x20_0000_0000_0000;

/// 0.6 as a double.
pub const THREE_FIFTHS: i128 = 5404319552844595 * 0x40_0000_0000_0000;

/// 2 x - 1, rounded.
pub open spec fn centered(x: int) -> int {
    double(2 * x - ONE)
}

/// The square of a multiple of 2^-53, rounded. In those units it is `y / 2^54`.
pub open spec fn square(y: int) -> int {
    let n = y / 0x40_0000_0000_0000;
    double(2 * (n * n))
}

/// Where a contour wants the melody to be at the progress `x`, both in units of 2^-107.
pub open spec fn contour_target(contour: Contour, x: int) -> int {
    match contour {
        Contour::Arch => double(ONE - 2 * square(centered(x))),
        Contour::Ramp => centered(x),
        Contour::Valley => double(2 * square(centered(x)) - ONE),
        Contour::Plateau => FIFTH as int,
        Contour::Zigzag => if ((4 * x) / ONE as int) % 2 == 0 {
            THREE_FIFTHS as int
        } else {
            -THREE_FIFTHS
        },
    }
}

/// The progress of a phrase, centered, is a multiple of 2^-53, so that its square is that of
/// the whole number.
pub proof fn lemma_centered(x: int)
    requires
        0 <= x <= ONE,
        double(x) == x,
    ensures
        centered(x) == (centered(x) / 0x40_0000_0000_0000) * 0x40_0000_0000_0000,
{
    lemma2_to64();
    lemma2_to64_rest();
    let limit = DOUBLE_LIMIT as nat;
    let y = 2 * x - ONE;
    assert(limit * pow2(53) == 0x400_0000_0000_0000_0000_0000_0000);
    assert(limit * pow2(52) == 0x200_0000_0000_0000_0000_0000_0000);
    if y >= limit * pow2(53) || -y >= limit * pow2(53) {
        lemma_round_multiple(y, limit, 53);
        assert(2 * pow2(53) == 0x40_0000_0000_0000);
    } else {
        lemma_round_multiple(x, limit, 52);
        assert(2 * pow2(52) == 0x20_0000_0000_0000);
        assert(x % 0x20_0000_0000_0000 == 0);
        assert(y % 0x40_0000_0000_0000 == 0);
        lemma_round_exact(y, limit, 53);
    }
}

/// The name of a contour.
pub open spec fn contour_name(contour: Contour) -> Seq<char> {
    match contour {
        Contour::Arch => "arch"@,
        Contour::Ramp => "ramp"@,
        Contour::Valley => "valley"@,
        Contour::Plateau => "plateau"@,
        Contour::Zigzag => "zigzag"@,
    }
}

impl Contour {
    /// The contour with the given number.
    pub fn nth(i: u64) -> (r: Contour)
        requires
            i < CONTOUR_COUNT,
        ensures
            r == contour_at(i as int),
    {
        match i {
            0 => Contour::Arch,
            1 => Contour::Ramp,
            2 => Contour::Valley,
            3 => Contour::Plateau,
            _ => Contour::Zigzag,
        }
    }

    /// Where this contour wants the melody to be within its register, in [-1, 1], at the
    /// progress `x` in [0, 1].
    pub fn target(self, x: Real) -> (r: Real)
        requires
            0 <= x.units <= ONE,
        ensures
            r.units == contour_target(self, x.units as int),
            -ONE <= r.units <= ONE,
    {
        proof {
            lemma_double_within_one(2 * x.units - ONE);
        }
        let y: i128 = round_double(2 * x.units - ONE);
        match self {
            Contour::Arch => {
                let s: i128 = squared(y);
                proof {
                    lemma_double_within_one(ONE - 2 * s);
                }
                Real { units: round_double(ONE - 2 * s) }
            },
            Contour::Ramp => Real { units: y },
            Contour::Valley => {
                let s: i128 = squared(y);
                proof {
                    lemma_double_within_one(2 * s - ONE);
                }
                Real { units: round_double(2 * s - ONE) }
            },
            Contour::Plateau => Real { units: FIFTH },
            Contour::Zigzag => {
                let quarter: i128 = (4 * x.units) / ONE;
                if quarter % 2 == 0 {
                    Real { units: THREE_FIFTHS }
                } else {
                    Real { units: -THREE_FIFTHS }
                }
            },
        }
    }

    /// The name of this contour.
    pub fn name(self) -> (r: &'static str)
        ensures
            r@ == contour_name(self),
    {
        match self {
            Contour::Arch => "arch",
            Contour::Ramp => "ramp",
            Contour::Valley => "valley",
            Contour::Plateau => "plateau",
            Contour::Zigzag => "zigzag",
        }
    }
}

/// The square of a multiple of 2^-53, rounded.
fn squared(y: i128) -> (r: i128)
    requires
        -ONE <= y <= ONE,
    ensures
        r == square(y as int),
        0 <= r <= ONE,
{
    let shift: i128 = 0x20_0000_0000_0000;
    let n: i128 = (y + ONE) / 0x40_0000_0000_0000 - shift;
    proof {
        assert(n == y as int / 0x40_0000_0000_0000);
        assert(0 <= n * n <= 0x20_0000_0000_0000 * 0x20_0000_0000_0000) by (nonlinear_arith)
            requires
                -0x20_0000_0000_0000 <= n <= 0x20_0000_0000_0000,
        ;
        lemma_double_within_one(2 * (n * n));
    }
    round_double(2 * (n * n))
}

/// The number of degrees of a scale.
pub open spec fn scale_len(scale: Scale) -> int {
    scale_degrees(scale).len() as int
}

/// The pitch of an absolute scale step, outside the MIDI range too.
pub open spec fn pitch_of(key: Key, scale: Scale, steps: int) -> int {
    key.root + scale_degrees(scale)[steps % scale_len(scale)] + 12 * (steps / scale_len(scale))
}

/// `x`, brought to the nearer end of the range if it lies outside.
pub open spec fn clamp(x: int, lo: int, hi: int) -> int {
    if x < lo {
        lo
    } else if x > hi {
        hi
    } else {
        x
    }
}

/// The MIDI pitch of an absolute scale step.
pub open spec fn midi_of(key: Key, scale: Scale, steps: int) -> int {
    clamp(pitch_of(key, scale, steps), 0, 127)
}

/// The index of the last of the first `k` degrees that is not above `pc`; 0 if there is
/// none.
pub open spec fn degree_below(degrees: Seq<u8>, pc: int, k: int) -> int
    decreases k,
{
    if k <= 0 {
        0
    } else if degrees[k - 1] <= pc {
        k - 1
    } else {
        degree_below(degrees, pc, k - 1)
    }
}

/// The scale step at a MIDI pitch, or the nearest one below it.
pub open spec fn steps_of(key: Key, scale: Scale, midi: int) -> int {
    let rel = midi - key.root;
    (rel / 12) * scale_len(scale) + degree_below(scale_degrees(scale), rel % 12, scale_len(scale))
}

/// Whether a pitch belongs to the scale on the key's tonic.
pub open spec fn in_scale(key: Key, scale: Scale, pitch: int) -> bool {
    exists|i: int|
        0 <= i < scale_len(scale) && #[trigger] scale_degrees(scale)[i] == (pitch - key.root) % 12
}

/// The MIDI pitch of an absolute scale step.
pub fn steps_to_midi(key: Key, scale: Scale, steps: i32) -> (r: u8)
    ensures
        r == midi_of(key, scale, steps as int),
{
    let degrees: &[u8] = scale.degrees();
    let n: i64 = degrees.len() as i64;
    let up: i64 = steps as i64 + n * 0x8000_0000;
    let octave: i64 = up / n - 0x8000_0000;
    let index: i64 = up % n;
    proof {
        if n == 5 {
            assert((steps + 5 * 0x8000_0000) / 5 - 0x8000_0000 == steps as int / 5);
        } else {
            assert((steps + 7 * 0x8000_0000) / 7 - 0x8000_0000 == steps as int / 7);
        }
    }
    let pitch: i64 = key.root as i64 + degrees[index as usize] as i64 + 12 * octave;
    if pitch < 0 {
        0
    } else if pitch > 127 {
        127
    } else {
        pitch as u8
    }
}

/// The scale step at a MIDI pitch, or the nearest one below it.
pub fn midi_to_steps(key: Key, scale: Scale, midi: u8) -> (r: i32)
    ensures
        r == steps_of(key, scale, midi as int),
        -160 <= r <= 160,
{
    let degrees: &[u8] = scale.degrees();
    let n: i32 = degrees.len() as i32;
    let rel: i32 = midi as i32 - key.root as i32;
    let up: i32 = rel + 264;
    let octave: i32 = up / 12 - 22;
    let pc: i32 = up % 12;
    assert(octave == rel as int / 12 && pc == rel as int % 12);
    let mut best: usize = 0;
    for i in 0..degrees.len()
        invariant
            degrees@ == scale_degrees(scale),
            best == degree_below(degrees@, pc as int, i as int),
            best < 7,
            degrees@.len() <= 7,
    {
        if degrees[i] as i32 <= pc {
            best = i;
        }
    }
    proof {
        lemma_steps_bounds(key, scale, midi as int);
        assert(-22 * 7 <= octave * n <= 21 * 7) by (nonlinear_arith)
            requires
                -22 <= octave <= 21,
                0 <= n <= 7,
        ;
    }
    octave * n + best as i32
}

proof fn lemma_degree_below(degrees: Seq<u8>, pc: int, k: int)
    requires
        0 <= k <= degrees.len(),
    ensures
        0 <= degree_below(degrees, pc, k),
        k > 0 ==> degree_below(degrees, pc, k) < k,
    decreases k,
{
    if k > 0 {
        lemma_degree_below(degrees, pc, k - 1);
    }
}

/// The scale steps of the pitches that a byte can hold lie close to zero.
pub proof fn lemma_steps_bounds(key: Key, scale: Scale, midi: int)
    requires
        0 <= midi <= 255,
    ensures
        -160 <= steps_of(key, scale, midi) <= 160,
{
    let rel = midi - key.root;
    let n = scale_len(scale);
    lemma_degree_below(scale_degrees(scale), rel % 12, n);
    assert(-22 * 7 <= (rel / 12) * n <= 21 * 7) by (nonlinear_arith)
        requires
            -22 <= rel / 12 <= 21,
            0 <= n <= 7,
    ;
}

/// A scale step that the MIDI range can hold is found again from its pitch.
pub proof fn lemma_steps_roundtrip(key: Key, scale: Scale, steps: int)
    requires
        0 <= pitch_of(key, scale, steps) <= 127,
    ensures
        steps_of(key, scale, midi_of(key, scale, steps)) == steps,
{
    let degrees = scale_degrees(scale);
    let n = scale_len(scale);
    let i = steps % n;
    let octave = steps / n;
    let rel = pitch_of(key, scale, steps) - key.root;
    vstd::arithmetic::div_mod::lemma_fundamental_div_mod(steps, n);
    assert(octave * n == n * octave) by (nonlinear_arith);
    assert(0 <= degrees[i] < 12);
    assert(rel / 12 == octave && rel % 12 == degrees[i] as int);
    reveal_with_fuel(degree_below, 8);
    assert(degree_below(degrees, degrees[i] as int, n) == i);
}

/// The pitch of a scale step belongs to the scale, unless it had to be brought into the
/// MIDI range.
pub proof fn lemma_pitch_in_scale(key: Key, scale: Scale, steps: int)
    requires
        0 <= pitch_of(key, scale, steps) <= 127,
    ensures
        in_scale(key, scale, midi_of(key, scale, steps)),
{
    let i = steps % scale_len(scale);
    let octave = steps / scale_len(scale);
    assert(0 <= scale_degrees(scale)[i] < 12);
    assert((midi_of(key, scale, steps) - key.root) % 12 == scale_degrees(scale)[i]);
}

/// Around a center in the four middle octaves, a register of one and a half octaves on either
/// side, and two steps more, lies inside the MIDI range.
pub proof fn lemma_register(key: Key, scale: Scale, center_midi: int, steps: int)
    requires
        key.root < 12,
        36 <= center_midi <= 84,
        steps_of(key, scale, center_midi) - (scale_len(scale) * 3) / 2 - 2 <= steps <= steps_of(
            key,
            scale,
            center_midi,
        ) + (scale_len(scale) * 3) / 2 + 2,
    ensures
        0 <= pitch_of(key, scale, steps) <= 126,
{
    let n = scale_len(scale);
    let rel = center_midi - key.root;
    let d = degree_below(scale_degrees(scale), rel % 12, n);
    lemma_degree_below(scale_degrees(scale), rel % 12, n);
    let octave = rel / 12;
    assert(2 <= octave <= 7);
    assert(0 <= scale_degrees(scale)[steps % n] < 12);
    if n == 5 {
        assert(octave * n == 5 * octave) by (nonlinear_arith)
            requires
                n == 5,
        ;
        assert(5 * octave - 9 <= steps <= 5 * octave + 13);
        assert(octave - 2 <= steps / 5 <= octave + 2);
    } else {
        assert(octave * n == 7 * octave) by (nonlinear_arith)
            requires
                n == 7,
        ;
        assert(7 * octave - 12 <= steps <= 7 * octave + 18);
        assert(octave - 2 <= steps / 7 <= octave + 2);
    }
}

/// The state of a melodic walk.
pub struct WalkView {
    pub key: Key,
    pub scale: Scale,
    /// The position, in absolute scale steps.
    pub pos: int,
    pub lo: int,
    pub hi: int,
    /// The step that a leap has yet to be resolved by: -1 or 1, or 0 if there is none.
    pub resolve: int,
}

/// A walk before its first note: one and a half octaves of room on either side of the
/// center.
pub open spec fn walk_start(key: Key, scale: Scale, center_midi: int) -> WalkView {
    let center = steps_of(key, scale, center_midi);
    let span = (scale_len(scale) * 3) / 2;
    WalkView { key, scale, pos: center, lo: center - span, hi: center + span, resolve: 0 }
}

/// Whether the contour's pull, in units of 2^-107, draws the walk up. The place in the
/// register that the pull asks for is computed in half those units.
pub open spec fn drawn_up(w: WalkView, pull: int) -> bool {
    let place = double(w.lo * (2 * ONE) + double(double(pull + ONE) * (w.hi - w.lo)));
    place >= w.pos * (2 * ONE)
}

/// The next interval: its size and direction, the resolution that it leaves to be made,
/// and the generator's state after the choice. A leap is resolved by a step the other
/// way; else the interval is a step in 60 of 100 cases, a third in 30 and a larger leap
/// in 10, and it goes the way the contour pulls in 70 of 100.
pub open spec fn walk_interval(w: WalkView, state: u64, pull: int) -> (int, int, u64) {
    if w.resolve != 0 {
        (w.resolve, 0, state)
    } else {
        let kind = draw_weighted(state, seq![60u32, 30, 10]);
        let s1 = advance(state);
        let size = if kind == 0 {
            1
        } else if kind == 1 {
            2
        } else {
            draw_range(s1, 3, 5)
        };
        let s2 = if kind <= 1 {
            s1
        } else {
            advance(s1)
        };
        let up = drawn_up(w, pull) == (draw_weighted(s2, seq![70u32, 30]) == 0);
        (
            if up {
                size
            } else {
                -size
            },
            if size < 3 {
                0
            } else if up {
                -1
            } else {
                1
            },
            advance(s2),
        )
    }
}

/// The walk after an interval, reflected at the ends of its register. A reflection
/// cancels the resolution.
pub open spec fn walk_moved(w: WalkView, interval: int, resolve: int) -> WalkView {
    let to = w.pos + interval;
    if to > w.hi {
        WalkView { pos: 2 * w.hi - to, resolve: 0, ..w }
    } else if to < w.lo {
        WalkView { pos: 2 * w.lo - to, resolve: 0, ..w }
    } else {
        WalkView { pos: to, resolve, ..w }
    }
}

/// The walk after one note.
pub open spec fn walk_step(w: WalkView, state: u64, pull: int) -> WalkView {
    let (interval, resolve, _) = walk_interval(w, state, pull);
    walk_moved(w, interval, resolve)
}

/// The generator's state after one note of a walk.
pub open spec fn walk_state(w: WalkView, state: u64, pull: int) -> u64 {
    walk_interval(w, state, pull).2
}

/// The pitch of a walk.
pub open spec fn walk_pitch(w: WalkView) -> int {
    midi_of(w.key, w.scale, w.pos)
}

/// Whether a walk stands inside its register, which is wide enough for every interval.
pub open spec fn walk_wf(w: WalkView) -> bool {
    &&& -200 <= w.lo <= w.pos <= w.hi <= 200
    &&& 10 <= w.hi - w.lo <= 20
    &&& -1 <= w.resolve <= 1
}

/// A new walk stands inside its register.
pub proof fn lemma_walk_start(key: Key, scale: Scale, center_midi: int)
    requires
        0 <= center_midi <= 255,
    ensures
        walk_wf(walk_start(key, scale, center_midi)),
{
    lemma_steps_bounds(key, scale, center_midi);
}

/// A walk never leaves its register, and its key, scale and register stay as they are.
pub proof fn lemma_walk_step(w: WalkView, state: u64, pull: int)
    requires
        walk_wf(w),
    ensures
        ({
            let next = walk_step(w, state, pull);
            &&& walk_wf(next)
            &&& next.key == w.key
            &&& next.scale == w.scale
            &&& next.lo == w.lo
            &&& next.hi == w.hi
        }),
        -5 <= walk_interval(w, state, pull).0 <= 5,
{
    lemma_weights_three();
    lemma_draw_weighted(state, seq![60u32, 30, 10]);
    crate::rng::lemma_draw_below(advance(state), 3);
}

/// A leap of the walk is resolved by a step the other way: the note after it moves by one
/// step in the opposite direction, unless the leap was reflected at an end of the
/// register.
pub proof fn lemma_leap_resolves(w: WalkView, s1: u64, p1: int, s2: u64, p2: int)
    requires
        walk_wf(w),
        w.resolve == 0,
    ensures
        ({
            let leap = walk_interval(w, s1, p1).0;
            let next = walk_step(w, s1, p1);
            w.lo <= w.pos + leap <= w.hi && (leap >= 3 || leap <= -3) ==> {
                &&& next.pos == w.pos + leap
                &&& walk_interval(next, s2, p2).0 == (if leap > 0 {
                    -1int
                } else {
                    1int
                })
            }
        }),
{
    lemma_walk_step(w, s1, p1);
    lemma_weights_three();
    lemma_draw_weighted(s1, seq![60u32, 30, 10]);
    crate::rng::lemma_draw_below(advance(s1), 3);
}

proof fn lemma_weights_three()
    ensures
        weight_sum(seq![60u32, 30, 10], 3) == 100,
        weight_sum(seq![70u32, 30], 2) == 100,
{
    reveal_with_fuel(weight_sum, 4);
}

/// A melodic random walk over scale degrees.
pub struct MelodyWalk {
    key: Key,
    scale: Scale,
    pos: i32,
    lo: i32,
    hi: i32,
    resolve: i32,
}

impl View for MelodyWalk {
    type V = WalkView;

    closed spec fn view(&self) -> WalkView {
        WalkView {
            key: self.key,
            scale: self.scale,
            pos: self.pos as int,
            lo: self.lo as int,
            hi: self.hi as int,
            resolve: self.resolve as int,
        }
    }
}

impl MelodyWalk {
    /// A walk around the register center `center_midi`.
    pub fn new(key: Key, scale: Scale, center_midi: u8) -> (r: MelodyWalk)
        ensures
            r@ == walk_start(key, scale, center_midi as int),
            walk_wf(r@),
    {
        let n: i32 = scale.degrees().len() as i32;
        let center: i32 = midi_to_steps(key, scale, center_midi);
        let span: i32 = (n * 3) / 2;
        proof {
            lemma_walk_start(key, scale, center_midi as int);
        }
        MelodyWalk { key, scale, pos: center, lo: center - span, hi: center + span, resolve: 0 }
    }

    /// Moves one note on and gives its MIDI pitch. `pull` in [-1, 1] is the place in the
    /// register that the walk is drawn to.
    pub fn step(&mut self, rng: &mut Rng, pull: Real) -> (r: u8)
        requires
            walk_wf(old(self)@),
            -ONE <= pull.units <= ONE,
        ensures
            final(self)@ == walk_step(old(self)@, old(rng)@, pull.units as int),
            final(rng)@ == walk_state(old(self)@, old(rng)@, pull.units as int),
            r == walk_pitch(final(self)@),
            walk_wf(final(self)@),
    {
        let ghost w = self@;
        let ghost state = rng@;
        proof {
            lemma_walk_step(w, state, pull.units as int);
            lemma_weights_three();
        }
        let interval: i32;
        let resolve: i32;
        if self.resolve != 0 {
            interval = self.resolve;
            resolve = 0;
        } else {
            let kind: usize = rng.weighted(&[60, 30, 10]);
            assert([60u32, 30, 10]@ =~= seq![60u32, 30, 10]);
            let size: i32 = if kind == 0 {
                1
            } else if kind == 1 {
                2
            } else {
                rng.range(3, 5) as i32
            };
            let toward: bool = self.pulled_up(pull);
            let along: usize = rng.weighted(&[70, 30]);
            assert([70u32, 30]@ =~= seq![70u32, 30]);
            let up: bool = toward == (along == 0);
            interval = if up {
                size
            } else {
                -size
            };
            resolve = if size < 3 {
                0
            } else if up {
                -1
            } else {
                1
            };
        }
        assert((interval as int, resolve as int, rng@) == walk_interval(
            w,
            state,
            pull.units as int,
        ));
        let to: i32 = self.pos + interval;
        if to > self.hi {
            self.pos = self.hi - (to - self.hi);
            self.resolve = 0;
        } else if to < self.lo {
            self.pos = self.lo + (self.lo - to);
            self.resolve = 0;
        } else {
            self.pos = to;
            self.resolve = resolve;
        }
        steps_to_midi(self.key, self.scale, self.pos)
    }

    /// Whether the pull draws the walk up.
    fn pulled_up(&self, pull: Real) -> (r: bool)
        requires
            walk_wf(self@),
            -ONE <= pull.units <= ONE,
        ensures
            r == drawn_up(self@, pull.units as int),
    {
        let lifted: i128 = round_double(pull.units + ONE);
        let room: i128 = (self.hi - self.lo) as i128;
        let lo: i128 = self.lo as i128;
        let pos: i128 = self.pos as i128;
        let two: i128 = 2 * ONE;
        proof {
            assert(-200 * two <= lo * two <= 200 * two && -200 * two <= pos * two <= 200 * two)
                by (nonlinear_arith)
                requires
                    -200 <= lo <= 200,
                    -200 <= pos <= 200,
                    two > 0,
            ;
            assert(0 <= lifted * room <= 4 * ONE * 20) by (nonlinear_arith)
                requires
                    0 <= lifted <= 4 * ONE,
                    0 <= room <= 20,
            ;
        }
        let offset: i128 = round_double(lifted * room);
        let place: i128 = round_double(lo * two + offset);
        place >= pos * two
    }
}

/// How much each sixteenth of a bar draws notes to itself: the downbeat most, then the
/// half bar, the beats, the eighths and the rest. The last bar of a phrase leaves its end
/// free.
pub open spec fn slot_pulls(last_bar: bool) -> Seq<u32> {
    if last_bar {
        seq![8u32, 1, 2, 1, 4, 1, 2, 1, 6, 1, 2, 1, 4, 0, 0, 0]
    } else {
        seq![8u32, 1, 2, 1, 4, 1, 2, 1, 6, 1, 2, 1, 4, 1, 2, 1]
    }
}

/// What is left of the weights after `n` draws without replacement, and the generator's
/// state after them. The draws end when no weight is left.
pub open spec fn drawn_out(state: u64, weights: Seq<u32>, n: nat) -> (Seq<u32>, u64)
    decreases n,
{
    if n == 0 || weight_sum(weights, weights.len() as int) == 0 {
        (weights, state)
    } else {
        drawn_out(
            advance(state),
            weights.update(draw_weighted(state, weights), 0),
            (n - 1) as nat,
        )
    }
}

/// The indices below `k` at which two lists of weights differ, in rising order.
pub open spec fn changed(before: Seq<u32>, after: Seq<u32>, k: int) -> Seq<u32>
    decreases k,
{
    if k <= 0 {
        seq![]
    } else if before[k - 1] != after[k - 1] {
        changed(before, after, k - 1).push((k - 1) as u32)
    } else {
        changed(before, after, k - 1)
    }
}

/// The sixteenths of a bar that `density` notes are placed on.
pub open spec fn positions(state: u64, density: nat, last_bar: bool) -> Seq<u32> {
    changed(slot_pulls(last_bar), drawn_out(state, slot_pulls(last_bar), density).0, 16)
}

/// The generator's state after the notes of a bar have been placed.
pub open spec fn positions_state(state: u64, density: nat, last_bar: bool) -> u64 {
    drawn_out(state, slot_pulls(last_bar), density).1
}

/// How many of the first `k` weights are not zero.
pub open spec fn nonzero(weights: Seq<u32>, k: int) -> int
    decreases k,
{
    if k <= 0 {
        0
    } else {
        nonzero(weights, k - 1) + if weights[k - 1] > 0 {
            1int
        } else {
            0
        }
    }
}

/// Whether `after` has kept or lost each of the weights of `before`.
spec fn thinned(before: Seq<u32>, after: Seq<u32>) -> bool {
    &&& before.len() == after.len()
    &&& forall|i: int|
        0 <= i < before.len() ==> #[trigger] after[i] == before[i] || after[i] == 0
}

proof fn lemma_nonzero_update(weights: Seq<u32>, i: int, k: int)
    requires
        0 <= i < weights.len(),
        0 <= k <= weights.len(),
        weights[i] > 0,
    ensures
        nonzero(weights.update(i, 0), k) == nonzero(weights, k) - if i < k {
            1int
        } else {
            0
        },
    decreases k,
{
    if k > 0 {
        lemma_nonzero_update(weights, i, k - 1);
    }
}

proof fn lemma_nonzero_sum(weights: Seq<u32>, k: int)
    requires
        0 <= k <= weights.len(),
    ensures
        0 <= nonzero(weights, k) <= k,
        (weight_sum(weights, k) == 0) == (nonzero(weights, k) == 0),
        weight_sum(weights, k) >= 0,
    decreases k,
{
    if k > 0 {
        lemma_nonzero_sum(weights, k - 1);
    }
}

proof fn lemma_drawn_out(state: u64, weights: Seq<u32>, n: nat)
    ensures
        ({
            let left = drawn_out(state, weights, n).0;
            let full = nonzero(weights, weights.len() as int);
            &&& thinned(weights, left)
            &&& nonzero(left, weights.len() as int) == if full >= n {
                full - n
            } else {
                0
            }
        }),
    decreases n,
{
    let len = weights.len() as int;
    lemma_nonzero_sum(weights, len);
    if n > 0 && weight_sum(weights, len) != 0 {
        lemma_draw_weighted(state, weights);
        let i = draw_weighted(state, weights);
        let next = weights.update(i, 0);
        lemma_nonzero_update(weights, i, len);
        lemma_drawn_out(advance(state), next, (n - 1) as nat);
        let left = drawn_out(advance(state), next, (n - 1) as nat).0;
        assert forall|j: int| 0 <= j < weights.len() implies #[trigger] left[j] == weights[j]
            || left[j] == 0 by {
            assert(left[j] == next[j] || left[j] == 0);
        }
    }
}

proof fn lemma_changed(before: Seq<u32>, after: Seq<u32>, k: int)
    requires
        thinned(before, after),
        0 <= k <= before.len() <= 16,
    ensures
        changed(before, after, k).len() == nonzero(before, k) - nonzero(after, k),
        forall|i: int|
            #![trigger changed(before, after, k)[i]]
            0 <= i < changed(before, after, k).len() ==> changed(before, after, k)[i] < k
                && before[changed(before, after, k)[i] as int] > 0,
        forall|i: int, j: int|
            #![trigger changed(before, after, k)[i], changed(before, after, k)[j]]
            0 <= i < j < changed(before, after, k).len() ==> changed(before, after, k)[i]
                < changed(before, after, k)[j],
    decreases k,
{
    if k > 0 {
        lemma_changed(before, after, k - 1);
        assert(after[k - 1] == before[k - 1] || after[k - 1] == 0);
    }
}

/// The places of a bar's notes: as many as asked for, as far as there is room, in rising
/// order, inside the bar, and before the free end of a phrase's last bar.
#[verifier::rlimit(30)]
pub proof fn lemma_positions(state: u64, density: nat, last_bar: bool)
    ensures
        ({
            let p = positions(state, density, last_bar);
            let room: nat = if last_bar {
                13
            } else {
                16
            };
            &&& p.len() == (if density < room {
                density
            } else {
                room
            })
            &&& forall|i: int| 0 <= i < p.len() ==> #[trigger] p[i] < room
            &&& forall|i: int, j: int| 0 <= i < j < p.len() ==> #[trigger] p[i] < #[trigger] p[j]
        }),
{
    let pulls = slot_pulls(last_bar);
    let left = drawn_out(state, pulls, density).0;
    lemma_drawn_out(state, pulls, density);
    lemma_changed(pulls, left, 16);
    reveal_with_fuel(nonzero, 17);
}

/// Places `density` notes on the sixteenths of a bar, in rising order.
pub fn pick_positions(rng: &mut Rng, density: u32, last_bar: bool) -> (r: Vec<u32>)
    ensures
        r@ == positions(old(rng)@, density as nat, last_bar),
        final(rng)@ == positions_state(old(rng)@, density as nat, last_bar),
        forall|i: int| 0 <= i < r@.len() ==> #[trigger] r@[i] < 16,
        forall|i: int, j: int| 0 <= i < j < r@.len() ==> #[trigger] r@[i] < #[trigger] r@[j],
        r@.len() <= 16,
        density > 0 ==> r@.len() > 0,
{
    let ghost start = rng@;
    let pulls: [u32; 16] = if last_bar {
        [8, 1, 2, 1, 4, 1, 2, 1, 6, 1, 2, 1, 4, 0, 0, 0]
    } else {
        [8, 1, 2, 1, 4, 1, 2, 1, 6, 1, 2, 1, 4, 1, 2, 1]
    };
    assert(pulls@ =~= slot_pulls(last_bar));
    let mut weights: Vec<u32> = Vec::new();
    for i in 0..16usize
        invariant
            weights@ == pulls@.take(i as int),
    {
        assert(pulls@.take(i + 1) =~= pulls@.take(i as int).push(pulls@[i as int]));
        weights.push(pulls[i]);
    }
    assert(weights@ =~= pulls@);
    let mut left: u32 = density;
    let mut open: bool = true;
    while left > 0 && open
        invariant
            weights@.len() == 16,
            forall|i: int| 0 <= i < 16 ==> #[trigger] weights@[i] <= 8,
            drawn_out(start, slot_pulls(last_bar), density as nat) == drawn_out(
                rng@,
                weights@,
                left as nat,
            ),
            !open ==> weight_sum(weights@, 16) == 0,
        decreases left, open as int,
    {
        open = false;
        for i in 0..16usize
            invariant
                weights@.len() == 16,
                open == (weight_sum(weights@, i as int) > 0),
                0 <= weight_sum(weights@, i as int) <= 8 * i,
                forall|i: int| 0 <= i < 16 ==> #[trigger] weights@[i] <= 8,
        {
            if weights[i] > 0 {
                open = true;
            }
        }
        if open {
            let at: usize = rng.weighted(weights.as_slice());
            weights.set(at, 0);
            left = left - 1;
        }
    }
    let ghost end = drawn_out(start, slot_pulls(last_bar), density as nat);
    assert(end == (weights@, rng@));
    let mut out: Vec<u32> = Vec::new();
    for i in 0..16usize
        invariant
            weights@.len() == 16,
            pulls@ == slot_pulls(last_bar),
            out@ == changed(pulls@, weights@, i as int),
    {
        if weights[i] != pulls[i] {
            out.push(i as u32);
        }
    }
    proof {
        lemma_positions(start, density as nat, last_bar);
    }
    out
}

} // verus!
