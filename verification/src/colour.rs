//! Colour palettes: tables of RGB triples, computed in integer arithmetic.
//!
//! Angles are whole numbers of nanoradians and sines whole numbers of
//! billionths, so that every entry of a palette is the same on every machine.
use vstd::prelude::*;

verus! {

/// One, in billionths.
pub const NANO: u64 = 1_000_000_000;

/// Pi, in nanoradians.
pub const PI_NANO: u64 = 3_141_592_654;

/// Half of pi, in nanoradians.
pub const HALF_PI_NANO: u64 = 1_570_796_327;

/// Twice pi, in nanoradians.
pub const TWO_PI_NANO: u64 = 6_283_185_307;

/// The angle that the wave palettes run through from the first entry to the
/// end of the table: 6.28318 radians, in nanoradians.
pub const CYCLE_NANO: u64 = 6_283_180_000;

/// The lesser of two numbers.
pub open spec fn lesser(a: int, b: int) -> int {
    if a <= b {
        a
    } else {
        b
    }
}

/// The sine of `x` nanoradians in billionths, for `x` up to half of pi: the
/// series `x - x^3/3! + x^5/5! - ...` up to the power 11, every division
/// rounded down, and at most one.
pub open spec fn sine_quarter(x: int) -> int {
    let y = x * x / (NANO as int);
    let h5 = NANO - y / 110;
    let h4 = NANO - (y * h5 / (NANO as int)) / 72;
    let h3 = NANO - (y * h4 / (NANO as int)) / 42;
    let h2 = NANO - (y * h3 / (NANO as int)) / 20;
    let h1 = NANO - (y * h2 / (NANO as int)) / 6;
    lesser(x * h1 / (NANO as int), NANO as int)
}

/// The sine of `angle` nanoradians in billionths, `angle` not negative.
pub open spec fn sine(angle: int) -> int {
    let r = angle % (TWO_PI_NANO as int);
    if r <= HALF_PI_NANO {
        sine_quarter(r)
    } else if r <= PI_NANO {
        sine_quarter(PI_NANO - r)
    } else if r <= PI_NANO + HALF_PI_NANO {
        -sine_quarter(r - PI_NANO)
    } else {
        -sine_quarter(TWO_PI_NANO - r)
    }
}

/// One step of the series: `NANO - (y * h / NANO) / d`.
fn series_step(y: u64, h: u64, d: u64) -> (next: u64)
    requires
        y <= 2_467_401_101,
        h <= NANO,
        d >= 6,
    ensures
        next == NANO - (y * h / (NANO as int)) / (d as int),
        next <= NANO,
{
    assert(y * h <= 2_467_401_101 * 1_000_000_000) by (nonlinear_arith)
        requires
            y <= 2_467_401_101,
            h <= 1_000_000_000,
    ;
    let scaled: u64 = y * h / NANO;
    assert(scaled <= 2_467_401_101);
    let part: u64 = scaled / d;
    assert(part <= scaled) by (nonlinear_arith)
        requires
            part == scaled / d,
            d >= 6,
    ;
    assert(part <= NANO) by (nonlinear_arith)
        requires
            part == scaled / d,
            scaled <= 2_467_401_101,
            d >= 6,
    ;
    NANO - part
}

/// The sine of `x` nanoradians in billionths, for `x` up to half of pi.
pub fn sine_of_quarter(x: u64) -> (s: u64)
    requires
        x <= HALF_PI_NANO,
    ensures
        s == sine_quarter(x as int),
        s <= NANO,
{
    assert(x * x <= 1_570_796_327 * 1_570_796_327) by (nonlinear_arith)
        requires
            x <= 1_570_796_327,
    ;
    let y: u64 = x * x / NANO;
    assert(y <= 2_467_401_101);
    let h5: u64 = NANO - y / 110;
    let h4: u64 = series_step(y, h5, 72);
    let h3: u64 = series_step(y, h4, 42);
    let h2: u64 = series_step(y, h3, 20);
    let h1: u64 = series_step(y, h2, 6);
    assert(x * h1 <= 1_570_796_327 * 1_000_000_000) by (nonlinear_arith)
        requires
            x <= 1_570_796_327,
            h1 <= 1_000_000_000,
    ;
    let s: u64 = x * h1 / NANO;
    if s <= NANO {
        s
    } else {
        NANO
    }
}

/// The sine of `angle` nanoradians in billionths.
pub fn sine_of(angle: u64) -> (s: i64)
    ensures
        s == sine(angle as int),
        -NANO <= s <= NANO,
{
    let r: u64 = angle % TWO_PI_NANO;
    if r <= HALF_PI_NANO {
        sine_of_quarter(r) as i64
    } else if r <= PI_NANO {
        sine_of_quarter(PI_NANO - r) as i64
    } else if r <= PI_NANO + HALF_PI_NANO {
        -(sine_of_quarter(r - PI_NANO) as i64)
    } else {
        -(sine_of_quarter(TWO_PI_NANO - r) as i64)
    }
}

/// `r` is the square root of `n`, rounded down.
pub open spec fn is_root(n: int, r: int) -> bool {
    r >= 0 && r * r <= n < (r + 1) * (r + 1)
}

/// The square root of `n`, rounded down.
pub open spec fn root(n: int) -> int {
    choose|r: int| is_root(n, r)
}

/// A number has one square root rounded down.
pub proof fn lemma_root_unique(n: int, a: int, b: int)
    requires
        is_root(n, a),
        is_root(n, b),
    ensures
        a == b,
{
    if a < b {
        assert((a + 1) * (a + 1) <= b * b) by (nonlinear_arith)
            requires
                0 <= a,
                a + 1 <= b,
        ;
    } else if b < a {
        assert((b + 1) * (b + 1) <= a * a) by (nonlinear_arith)
            requires
                0 <= b,
                b + 1 <= a,
        ;
    }
}

/// The square root of `n`, rounded down.
pub fn root_of(n: u64) -> (r: u64)
    ensures
        r == root(n as int),
        is_root(n as int, r as int),
{
    let mut lo: u64 = 0;
    let mut hi: u64 = 0x1_0000_0000;
    assert(0x1_0000_0000int * 0x1_0000_0000int > n) by (nonlinear_arith)
        requires
            n <= u64::MAX,
    ;
    while hi - lo > 1
        invariant
            lo < hi <= 0x1_0000_0000,
            lo * lo <= n < hi * hi,
        decreases hi - lo,
    {
        let mid: u64 = lo + (hi - lo) / 2;
        assert(mid * mid <= 0xFFFF_FFFF * 0xFFFF_FFFF) by (nonlinear_arith)
            requires
                mid <= 0xFFFF_FFFF,
        ;
        if mid * mid <= n {
            lo = mid;
        } else {
            hi = mid;
        }
    }
    proof {
        assert(hi == lo + 1);
        assert(is_root(n as int, lo as int));
        let chosen = root(n as int);
        assert(is_root(n as int, chosen));
        lemma_root_unique(n as int, lo as int, chosen);
    }
    lo
}

/// The angle that entry `i` of a table of `n` has reached, if the whole table
/// runs through `sweep`.
pub open spec fn entry_angle(i: int, n: int, sweep: int) -> int {
    i * sweep / n
}

/// The angle that entry `i` of a table of `n` has reached.
pub fn entry_angle_of(i: usize, n: usize, sweep: u64) -> (angle: u64)
    requires
        i < n,
    ensures
        angle == entry_angle(i as int, n as int, sweep as int),
        angle <= sweep,
{
    assert(i * sweep <= n * sweep <= u64::MAX * u64::MAX && (i * sweep) / (n as int) <= sweep)
        by (nonlinear_arith)
        requires
            0 <= i < n <= u64::MAX,
            0 <= sweep <= u64::MAX,
    ;
    let product: u128 = (i as u128) * (sweep as u128);
    (product / (n as u128)) as u64
}

/// The level `base + amp * sin(angle)` as a colour channel: `base` and `amp`
/// are thousandths, the level is cut to `[0, 1]`, scaled to 255 and rounded
/// down. The angle is the one that entry `i` of `n` has reached, plus `phase`.
pub open spec fn wave(i: int, n: int, sweep: int, phase: int, base: int, amp: int) -> int {
    let level = base * NANO + amp * sine(entry_angle(i, n, sweep) + phase);
    if level <= 0 {
        0
    } else {
        lesser(level * 255 / (1000 * NANO), 255)
    }
}

/// The level `base + amp * sin(angle)` as a colour channel.
pub fn wave_of(i: usize, n: usize, sweep: u64, phase: u64, base: u64, amp: u64) -> (channel: u8)
    requires
        i < n,
        sweep <= 0x100_0000_0000,
        phase <= 0x100_0000_0000,
        base <= 1000,
        amp <= 1000,
    ensures
        channel == wave(i as int, n as int, sweep as int, phase as int, base as int, amp as int),
{
    let angle: u64 = entry_angle_of(i, n, sweep) + phase;
    let s: i64 = sine_of(angle);
    assert(-1000 * NANO <= amp * s <= 1000 * NANO && 0 <= base * NANO <= 1000 * NANO)
        by (nonlinear_arith)
        requires
            0 <= amp <= 1000,
            0 <= base <= 1000,
            -NANO <= s <= NANO,
    ;
    let level: i64 = (base as i64) * (NANO as i64) + (amp as i64) * s;
    if level <= 0 {
        0
    } else {
        let value: i64 = level * 255 / 1_000_000_000_000;
        if value <= 255 {
            value as u8
        } else {
            255
        }
    }
}

/// The fully saturated colour at entry `i` of a table of `n` that runs once
/// round the colour wheel: red, yellow, green, cyan, blue, magenta and back,
/// each sixth of the table a straight ramp of one channel.
pub open spec fn wheel(i: int, n: int) -> (int, int, int) {
    let sector = 6 * i / n;
    let rest = 6 * i % n;
    let up = rest * 255 / n;
    let down = (n - rest) * 255 / n;
    if sector == 0 {
        (255, up, 0)
    } else if sector == 1 {
        (down, 255, 0)
    } else if sector == 2 {
        (0, 255, up)
    } else if sector == 3 {
        (0, down, 255)
    } else if sector == 4 {
        (up, 0, 255)
    } else {
        (255, 0, down)
    }
}

/// The fully saturated colour at entry `i` of a table of `n`.
pub fn wheel_of(i: usize, n: usize) -> (rgb: (u8, u8, u8))
    requires
        i < n,
    ensures
        (rgb.0 as int, rgb.1 as int, rgb.2 as int) == wheel(i as int, n as int),
{
    let six: u128 = 6 * (i as u128);
    let size: u128 = n as u128;
    let sector: u128 = six / size;
    let rest: u128 = six % size;
    assert(rest * 255 / (size as int) <= 255 && (size - rest) * 255 / (size as int) <= 255
        && rest * 255 <= u64::MAX * 255 && (size - rest) * 255 <= u64::MAX * 255)
        by (nonlinear_arith)
        requires
            0 <= rest < size <= u64::MAX,
    ;
    let up: u8 = (rest * 255 / size) as u8;
    let down: u8 = ((size - rest) * 255 / size) as u8;
    if sector == 0 {
        (255, up, 0)
    } else if sector == 1 {
        (down, 255, 0)
    } else if sector == 2 {
        (0, 255, up)
    } else if sector == 3 {
        (0, down, 255)
    } else if sector == 4 {
        (up, 0, 255)
    } else {
        (255, 0, down)
    }
}

/// The lava colour at entry `i` of a table of `n`: with the intensity
/// `sin^2` of three cycles, red is the intensity, green the power 1.5 of half
/// of it, blue the square of a fifth of it.
pub open spec fn lava(i: int, n: int) -> (int, int, int) {
    let s = sine(entry_angle(i, n, 3 * CYCLE_NANO));
    let intensity = s * s / (NANO as int);
    let half = intensity / 2;
    let fifth = intensity / 5;
    (
        intensity * 255 / (NANO as int),
        (half * root(half * NANO) / (NANO as int)) * 255 / (NANO as int),
        (fifth * fifth / (NANO as int)) * 255 / (NANO as int),
    )
}

/// The lava colour at entry `i` of a table of `n`.
pub fn lava_of(i: usize, n: usize) -> (rgb: (u8, u8, u8))
    requires
        i < n,
    ensures
        (rgb.0 as int, rgb.1 as int, rgb.2 as int) == lava(i as int, n as int),
{
    let s: i64 = sine_of(entry_angle_of(i, n, 3 * CYCLE_NANO));
    assert(0 <= s * s <= NANO * NANO) by (nonlinear_arith)
        requires
            -NANO <= s <= NANO,
    ;
    let intensity: u64 = (s * s / (NANO as i64)) as u64;
    assert(intensity <= NANO);
    let half: u64 = intensity / 2;
    let fifth: u64 = intensity / 5;
    let red: u64 = intensity * 255 / NANO;
    let r: u64 = root_of(half * NANO);
    assert(r <= NANO) by (nonlinear_arith)
        requires
            r * r <= half * NANO,
            half <= NANO,
            r >= 0,
    ;
    assert(half * r <= NANO * NANO) by (nonlinear_arith)
        requires
            half <= NANO,
            r <= NANO,
    ;
    let green: u64 = (half * r / NANO) * 255 / NANO;
    assert(fifth * fifth <= NANO * NANO) by (nonlinear_arith)
        requires
            fifth <= NANO,
    ;
    let blue: u64 = (fifth * fifth / NANO) * 255 / NANO;
    (red as u8, green as u8, blue as u8)
}

/// The palettes.
#[derive(Debug, Clone, Copy, PartialEq, Eq, Structural)]
pub enum Palette {
    /// Reds, oranges and yellows.
    Fire,
    /// Blues and cyans.
    Ocean,
    /// The colour wheel at full strength.
    Electric,
    /// Greys.
    Monochrome,
    /// The colour wheel.
    Rainbow,
    /// Purples, pinks and dark blues.
    Twilight,
    /// Greens and browns.
    Forest,
    /// Deep reds and oranges with dark bands.
    Lava,
}

impl Default for Palette {
    fn default() -> (palette: Self)
        ensures
            palette == Palette::Fire,
    {
        Palette::Fire
    }
}

impl Palette {
    /// The three channels of entry `i` of a table of `n` colours.
    pub open spec fn channels(self, i: int, n: int) -> (int, int, int) {
        match self {
            Palette::Fire => (
                wave(i, n, CYCLE_NANO as int, 3_000_000_000, 500, 500),
                wave(i, n, CYCLE_NANO as int, 5_094_000_000, 500, 500),
                wave(i, n, CYCLE_NANO as int, 7_188_000_000, 500, 500),
            ),
            Palette::Ocean => (
                wave(i, n, CYCLE_NANO as int, 4_000_000_000, 100, 200),
                wave(i, n, CYCLE_NANO as int, 2_000_000_000, 300, 400),
                wave(i, n, CYCLE_NANO as int, 0, 500, 500),
            ),
            Palette::Electric => wheel(i, n),
            Palette::Monochrome => (
                wave(i, n, 4 * PI_NANO, 0, 500, 500),
                wave(i, n, 4 * PI_NANO, 0, 500, 500),
                wave(i, n, 4 * PI_NANO, 0, 500, 500),
            ),
            Palette::Rainbow => wheel(i, n),
            Palette::Twilight => (
                wave(i, n, 2 * CYCLE_NANO, 0, 400, 400),
                wave(i, n, 3 * CYCLE_NANO, 1_000_000_000, 100, 150),
                wave(i, n, CYCLE_NANO as int, 500_000_000, 500, 500),
            ),
            Palette::Forest => (
                wave(i, n, 2 * CYCLE_NANO, 2_000_000_000, 300, 250),
                wave(i, n, CYCLE_NANO as int, 0, 400, 400),
                wave(i, n, 9_424_770_000, 1_000_000_000, 150, 150),
            ),
            Palette::Lava => lava(i, n),
        }
    }

    /// Entry `i` of a table of `n` colours.
    pub open spec fn entry(self, i: int, n: int) -> (u8, u8, u8) {
        (
            self.channels(i, n).0 as u8,
            self.channels(i, n).1 as u8,
            self.channels(i, n).2 as u8,
        )
    }

    /// The table of `n` colours.
    pub open spec fn table(self, n: nat) -> Seq<(u8, u8, u8)> {
        Seq::new(n, |i: int| self.entry(i, n as int))
    }

    /// Entry `i` of a table of `n` colours.
    pub fn colour(&self, i: usize, n: usize) -> (rgb: (u8, u8, u8))
        requires
            i < n,
        ensures
            rgb == self.entry(i as int, n as int),
            (rgb.0 as int, rgb.1 as int, rgb.2 as int) == self.channels(i as int, n as int),
    {
        match self {
            Palette::Fire => (
                wave_of(i, n, CYCLE_NANO, 3_000_000_000, 500, 500),
                wave_of(i, n, CYCLE_NANO, 5_094_000_000, 500, 500),
                wave_of(i, n, CYCLE_NANO, 7_188_000_000, 500, 500),
            ),
            Palette::Ocean => (
                wave_of(i, n, CYCLE_NANO, 4_000_000_000, 100, 200),
                wave_of(i, n, CYCLE_NANO, 2_000_000_000, 300, 400),
                wave_of(i, n, CYCLE_NANO, 0, 500, 500),
            ),
            Palette::Electric => wheel_of(i, n),
            Palette::Monochrome => {
                let v = wave_of(i, n, 4 * PI_NANO, 0, 500, 500);
                (v, v, v)
            },
            Palette::Rainbow => wheel_of(i, n),
            Palette::Twilight => (
                wave_of(i, n, 2 * CYCLE_NANO, 0, 400, 400),
                wave_of(i, n, 3 * CYCLE_NANO, 1_000_000_000, 100, 150),
                wave_of(i, n, CYCLE_NANO, 500_000_000, 500, 500),
            ),
            Palette::Forest => (
                wave_of(i, n, 2 * CYCLE_NANO, 2_000_000_000, 300, 250),
                wave_of(i, n, CYCLE_NANO, 0, 400, 400),
                wave_of(i, n, 9_424_770_000, 1_000_000_000, 150, 150),
            ),
            Palette::Lava => lava_of(i, n),
        }
    }

    /// The table of `num_colours` colours of this palette.
    pub fn generate(&self, num_colours: usize) -> (table: Vec<(u8, u8, u8)>)
        ensures
            table@ == self.table(num_colours as nat),
            table@.len() == num_colours,
    {
        let mut table: Vec<(u8, u8, u8)> = Vec::new();
        let mut i: usize = 0;
        while i < num_colours
            invariant
                0 <= i <= num_colours,
                table@.len() == i,
                forall|k: int| 0 <= k < i ==> #[trigger] table@[k] == self.entry(k, num_colours as int),
            decreases num_colours - i,
        {
            let rgb = self.colour(i, num_colours);
            table.push(rgb);
            i += 1;
        }
        assert(table@ =~= self.table(num_colours as nat));
        table
    }

    /// Every palette, once.
    pub fn all() -> (list: &'static [Palette])
        ensures
            list@ == seq![
                Palette::Fire,
                Palette::Ocean,
                Palette::Electric,
                Palette::Monochrome,
                Palette::Rainbow,
                Palette::Twilight,
                Palette::Forest,
                Palette::Lava,
            ],
    {
        &[
            Palette::Fire,
            Palette::Ocean,
            Palette::Electric,
            Palette::Monochrome,
            Palette::Rainbow,
            Palette::Twilight,
            Palette::Forest,
            Palette::Lava,
        ]
    }
}

} // verus!
