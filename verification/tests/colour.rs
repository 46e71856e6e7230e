use fractal_zoomer::colour::{
    entry_angle_of, lava_of, root_of, sine_of, sine_of_quarter, wave_of, wheel_of, Palette,
    CYCLE_NANO, HALF_PI_NANO, NANO, PI_NANO, TWO_PI_NANO,
};

fn to_byte(x: f64) -> u8 {
    x as u8
}

fn hsv_to_rgb(h: f64, s: f64, v: f64) -> (u8, u8, u8) {
    let c = v * s;
    let x = c * (1.0 - ((h / 60.0) % 2.0 - 1.0).abs());
    let m = v - c;
    let (r, g, b) = if h < 60.0 {
        (c, x, 0.0)
    } else if h < 120.0 {
        (x, c, 0.0)
    } else if h < 180.0 {
        (0.0, c, x)
    } else if h < 240.0 {
        (0.0, x, c)
    } else if h < 300.0 {
        (x, 0.0, c)
    } else {
        (c, 0.0, x)
    };
    (to_byte((r + m) * 255.0), to_byte((g + m) * 255.0), to_byte((b + m) * 255.0))
}

/// The palettes as computed with floating point.
fn reference(palette: Palette, i: usize, n: usize) -> (u8, u8, u8) {
    let t = i as f64 / n as f64;
    let level = |base: f64, amp: f64, angle: f64| to_byte(((base + amp * angle.sin()) * 255.0).clamp(0.0, 255.0));
    match palette {
        Palette::Fire => (
            level(0.5, 0.5, 3.0 + t * 6.28318 + 0.0),
            level(0.5, 0.5, 3.0 + t * 6.28318 + 2.094),
            level(0.5, 0.5, 3.0 + t * 6.28318 + 4.188),
        ),
        Palette::Ocean => (
            level(0.1, 0.2, t * 6.28318 + 4.0),
            level(0.3, 0.4, t * 6.28318 + 2.0),
            level(0.5, 0.5, t * 6.28318),
        ),
        Palette::Electric => {
            let phase = t * 6.0;
            let segment = phase.floor() as i32 % 6;
            let frac = phase.fract();
            let (r, g, b) = match segment {
                0 => (255.0, frac * 255.0, 0.0),
                1 => ((1.0 - frac) * 255.0, 255.0, 0.0),
                2 => (0.0, 255.0, frac * 255.0),
                3 => (0.0, (1.0 - frac) * 255.0, 255.0),
                4 => (frac * 255.0, 0.0, 255.0),
                _ => (255.0, 0.0, (1.0 - frac) * 255.0),
            };
            (to_byte(r), to_byte(g), to_byte(b))
        }
        Palette::Monochrome => {
            let v = to_byte(((t * std::f64::consts::PI * 4.0).sin() * 0.5 + 0.5) * 255.0);
            (v, v, v)
        }
        Palette::Rainbow => hsv_to_rgb(t * 360.0, 1.0, 1.0),
        Palette::Twilight => (
            level(0.4, 0.4, t * 6.28318 * 2.0),
            level(0.1, 0.15, t * 6.28318 * 3.0 + 1.0),
            level(0.5, 0.5, t * 6.28318 + 0.5),
        ),
        Palette::Forest => (
            level(0.3, 0.25, t * 6.28318 * 2.0 + 2.0),
            level(0.4, 0.4, t * 6.28318),
            level(0.15, 0.15, t * 6.28318 * 1.5 + 1.0),
        ),
        Palette::Lava => {
            let intensity = (t * 6.28318 * 3.0).sin().powi(2);
            (
                to_byte(intensity * 255.0),
                to_byte((intensity * 0.5).powf(1.5) * 255.0),
                to_byte((intensity * 0.2).powf(2.0) * 255.0),
            )
        }
    }
}

fn near(a: u8, b: u8) -> bool {
    (a as i32 - b as i32).abs() <= 1
}

#[test]
fn all_lists_every_palette_once() {
    assert_eq!(
        Palette::all().to_vec(),
        vec![
            Palette::Fire,
            Palette::Ocean,
            Palette::Electric,
            Palette::Monochrome,
            Palette::Rainbow,
            Palette::Twilight,
            Palette::Forest,
            Palette::Lava,
        ]
    );
    assert_eq!(Palette::default(), Palette::Fire);
}

#[test]
fn generate_gives_a_table_of_the_asked_length() {
    for palette in Palette::all() {
        assert!(palette.generate(0).is_empty());
        assert_eq!(palette.generate(1).len(), 1);
        assert_eq!(palette.generate(2048).len(), 2048);
    }
}

#[test]
fn generate_lists_the_colour_of_each_entry() {
    for palette in Palette::all() {
        let table = palette.generate(100);
        for i in 0..100 {
            assert_eq!(table[i], palette.colour(i, 100));
        }
    }
}

#[test]
fn palettes_agree_with_floating_point() {
    for n in [1usize, 7, 256, 1000, 2048] {
        for palette in Palette::all() {
            let table = palette.generate(n);
            for i in 0..n {
                let (r, g, b) = table[i];
                let (fr, fg, fb) = reference(*palette, i, n);
                assert!(
                    near(r, fr) && near(g, fg) && near(b, fb),
                    "{:?} entry {} of {}: {:?} against {:?}",
                    palette,
                    i,
                    n,
                    (r, g, b),
                    (fr, fg, fb)
                );
            }
        }
    }
}

#[test]
fn entries_of_each_palette() {
    let at = |p: Palette| -> Vec<(u8, u8, u8)> {
        [0usize, 1, 64, 100, 255].iter().map(|i| p.colour(*i, 256)).collect()
    };
    assert_eq!(
        at(Palette::Fire),
        vec![(145, 9, 227), (142, 10, 229), (1, 174, 206), (33, 249, 99), (148, 8, 225)]
    );
    assert_eq!(
        at(Palette::Ocean),
        vec![(0, 169, 127), (0, 168, 130), (0, 34, 254), (34, 0, 208), (0, 170, 124)]
    );
    assert_eq!(
        at(Palette::Electric),
        vec![(255, 0, 0), (255, 5, 0), (127, 255, 0), (0, 255, 87), (255, 0, 5)]
    );
    assert_eq!(
        at(Palette::Monochrome),
        vec![(127, 127, 127), (133, 133, 133), (127, 127, 127), (2, 2, 2), (121, 121, 121)]
    );
    assert_eq!(at(Palette::Rainbow), at(Palette::Electric));
    assert_eq!(
        at(Palette::Twilight),
        vec![(102, 57, 188), (107, 59, 191), (102, 4, 239), (1, 58, 151), (96, 56, 185)]
    );
    assert_eq!(
        at(Palette::Forest),
        vec![(134, 102, 70), (133, 104, 71), (18, 203, 30), (113, 166, 0), (135, 99, 6)]
    );
    assert_eq!(
        at(Palette::Lava),
        vec![(0, 0, 0), (1, 0, 0), (254, 90, 10), (198, 61, 6), (1, 0, 0)]
    );
}

#[test]
fn wheel_runs_through_the_six_colours() {
    let six: Vec<(u8, u8, u8)> = (0..6).map(|i| wheel_of(i, 6)).collect();
    assert_eq!(
        six,
        vec![(255, 0, 0), (255, 255, 0), (0, 255, 0), (0, 255, 255), (0, 0, 255), (255, 0, 255)]
    );
    assert_eq!(wheel_of(1, 12), (255, 127, 0));
    assert_eq!(wheel_of(3, 12), (127, 255, 0));
    assert_eq!(wheel_of(11, 12), (255, 0, 127));
    assert_eq!(wheel_of(usize::MAX - 1, usize::MAX), (255, 0, 0));
}

#[test]
fn sine_in_billionths() {
    assert_eq!(sine_of(0), 0);
    assert_eq!(sine_of(1_000_000_000), 841_470_985);
    assert_eq!(sine_of(500_000_000), 479_425_539);
    assert_eq!(sine_of(HALF_PI_NANO), 999_999_944);
    assert_eq!(sine_of(PI_NANO), 0);
    assert_eq!(sine_of(PI_NANO + HALF_PI_NANO), -999_999_944);
    assert_eq!(sine_of(TWO_PI_NANO), 0);
    assert_eq!(sine_of(TWO_PI_NANO + 1_000_000_000), 841_470_985);
    assert_eq!(sine_of_quarter(HALF_PI_NANO), 999_999_944);
    assert_eq!(sine_of_quarter(0), 0);
    assert_eq!(NANO, 1_000_000_000);
}

#[test]
fn sine_is_close_to_the_sine() {
    let mut angle: u64 = 0;
    while angle < 30_000_000_000 {
        let expected = (angle as f64 / 1e9).sin();
        let got = sine_of(angle) as f64 / 1e9;
        assert!((expected - got).abs() < 1e-7, "sine of {}: {} against {}", angle, got, expected);
        assert!(sine_of(angle).abs() <= 1_000_000_000);
        angle += 7_654_321;
    }
    assert!(sine_of(u64::MAX).abs() <= 1_000_000_000);
}

#[test]
fn square_roots_round_down() {
    assert_eq!(root_of(0), 0);
    assert_eq!(root_of(1), 1);
    assert_eq!(root_of(15), 3);
    assert_eq!(root_of(16), 4);
    assert_eq!(root_of(17), 4);
    assert_eq!(root_of(500_000_000_000_000_000), 707_106_781);
    assert_eq!(root_of(u64::MAX), 4_294_967_295);
}

#[test]
fn angle_and_wave_of_an_entry() {
    assert_eq!(entry_angle_of(0, 4, CYCLE_NANO), 0);
    assert_eq!(entry_angle_of(1, 4, CYCLE_NANO), 1_570_795_000);
    assert_eq!(entry_angle_of(3, 4, 10), 7);
    assert_eq!(entry_angle_of(usize::MAX - 1, usize::MAX, u64::MAX), u64::MAX - 1);
    assert_eq!(wave_of(0, 4, CYCLE_NANO, 0, 500, 500), 127);
    assert_eq!(wave_of(1, 4, CYCLE_NANO, 0, 500, 500), 254);
    assert_eq!(wave_of(3, 4, CYCLE_NANO, 0, 500, 500), 0);
    assert_eq!(wave_of(3, 4, CYCLE_NANO, 0, 100, 200), 0);
    assert_eq!(wave_of(1, 4, CYCLE_NANO, 0, 1000, 1000), 255);
    assert_eq!(wave_of(0, 1, 0, 0, 1000, 0), 255);
    assert_eq!(wave_of(0, 1, 0, 0, 0, 1000), 0);
}

#[test]
fn lava_entries() {
    assert_eq!(lava_of(0, 256), (0, 0, 0));
    assert_eq!(lava_of(64, 256), (254, 90, 10));
    assert_eq!(lava_of(100, 256), (198, 61, 6));
}
