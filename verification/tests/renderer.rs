use fire_cursor::arithmetic::{Arithmetic, Operation};
use fire_cursor::binary32::Binary32;
use fire_cursor::particles::Color;
use fire_cursor::renderer::{self, frame_fits, Instance, Rect, Renderer};

fn b(x: f32) -> Binary32 {
    Binary32::from_bits(x.to_bits())
}

fn f(x: Binary32) -> f32 {
    f32::from_bits(x.bits)
}

fn compute(op: Operation) -> Binary32 {
    match op {
        Operation::Add(x, y) => b(f(x) + f(y)),
        Operation::Sub(x, y) => b(f(x) - f(y)),
        Operation::Mul(x, y) => b(f(x) * f(y)),
        Operation::Div(x, y) => b(f(x) / f(y)),
        Operation::Sqrt(x) => b(f(x).sqrt()),
        Operation::Signed(n) => b(n as f32),
        Operation::Unsigned(n) => b(n as f32),
    }
}

fn hardware() -> Arithmetic<fn(Operation) -> Binary32> {
    Arithmetic { compute }
}

fn disc(x: f32, y: f32, size: f32, rgba: [f32; 4]) -> Instance {
    let color = Color { r: b(rgba[0]), g: b(rgba[1]), b: b(rgba[2]), a: b(rgba[3]) };
    Instance::new([b(x), b(y)], b(size), color)
}

/// The light of every disc added over the whole of its square, on a frame of zeros.
fn painted_directly(discs: &[Instance], width: u32, height: u32) -> Vec<u8> {
    let mut frame = vec![0u8; (width * height * 4) as usize];
    for d in discs {
        let (cx, cy, size) = (f(d.pos[0]), f(d.pos[1]), f(d.size));
        let r = size / 2.0;
        let x0 = (cx - r).max(0.0) as u32;
        let y0 = (cy - r).max(0.0) as u32;
        let x1 = ((cx + r).min(width as f32).ceil() as u32).min(width);
        let y1 = ((cy + r).min(height as f32).ceil() as u32).min(height);
        for y in y0..y1 {
            for x in x0..x1 {
                let dx = x as f32 + 0.5 - cx;
                let dy = y as f32 + 0.5 - cy;
                let d_norm = (dx * dx + dy * dy).sqrt() / size;
                let soft: f32 = if d_norm >= 0.55 {
                    0.0
                } else if d_norm <= 0.10 {
                    1.0
                } else {
                    let edge0: f32 = 0.55;
                    let edge1: f32 = 0.10;
                    let t = (d_norm - edge0) / (edge1 - edge0);
                    t * t * (3.0 - 2.0 * t)
                };
                if soft <= 0.001 {
                    continue;
                }
                let a = f(d.color[3]) * soft;
                let source = [
                    f(d.color[2]) * soft,
                    f(d.color[1]) * soft,
                    f(d.color[0]) * soft,
                    a,
                ];
                let at = ((y * width + x) * 4) as usize;
                for (k, c) in source.iter().enumerate() {
                    let out = c + frame[at + k] as f32 / 255.0;
                    frame[at + k] = (out.clamp(0.0, 1.0) * 255.0) as u8;
                }
            }
        }
    }
    frame
}

fn scattered(count: u32, seed: u32, width: f32, height: f32) -> Vec<Instance> {
    let mut state = seed;
    let mut next = || {
        state = state.wrapping_mul(1_664_525).wrapping_add(1_013_904_223);
        (state >> 8) as f32 / (1u32 << 24) as f32
    };
    (0..count)
        .map(|_| {
            let x = next() * (width + 20.0) - 10.0;
            let y = next() * (height + 20.0) - 10.0;
            let size = 6.0 + next() * 8.0;
            let a = next();
            disc(x, y, size, [next() * a, next() * a, next() * a, a])
        })
        .collect()
}

#[test]
fn renderer_constants_are_the_documented_numbers() {
    let pairs: Vec<(u32, f32)> = vec![
        (renderer::HALF, 0.5),
        (renderer::TWO, 2.0),
        (renderer::THREE, 3.0),
        (renderer::FULL, 255.0),
        (renderer::OUTER_EDGE, 0.55),
        (renderer::INNER_EDGE, 0.10),
        (renderer::FAINT, 0.001),
    ];
    for (pattern, value) in pairs {
        assert_eq!(pattern, value.to_bits(), "{value}");
    }
}

#[test]
fn an_instance_keeps_its_color_order() {
    let d = disc(1.0, 2.0, 3.0, [0.1, 0.2, 0.3, 0.4]);
    assert_eq!(d.pos, [b(1.0), b(2.0)]);
    assert_eq!(d.size, b(3.0));
    assert_eq!(d.color, [b(0.1), b(0.2), b(0.3), b(0.4)]);
}

#[test]
fn a_new_frame_is_blank_and_has_a_pixel() {
    let r = Renderer::new(0, 0);
    assert_eq!((r.width(), r.height()), (1, 1));
    assert_eq!(r.frame(), &[0u8; 4][..]);
    let r = Renderer::new(3, 2);
    assert_eq!((r.width(), r.height()), (3, 2));
    assert_eq!(r.frame(), &[0u8; 24][..]);
}

#[test]
fn resizing_keeps_or_blanks() {
    let ops = hardware();
    let discs = vec![disc(4.0, 4.0, 8.0, [1.0, 1.0, 1.0, 1.0])];
    let mut r = Renderer::new(8, 8);
    r.render(&discs, &ops);
    let shown = r.frame().to_vec();
    r.resize(8, 8);
    assert_eq!(r.frame(), &shown[..]);
    r.resize(8, 9);
    assert_eq!((r.width(), r.height()), (8, 9));
    assert!(r.frame().iter().all(|&x| x == 0));
    assert_eq!(r.frame().len(), 8 * 9 * 4);
    r.resize(0, 0);
    assert_eq!((r.width(), r.height()), (1, 1));
    assert_eq!(r.frame().len(), 4);
    r.resize(0, 1);
    assert_eq!((r.width(), r.height()), (1, 1));
}

#[test]
fn an_opaque_disc_is_full_in_the_middle() {
    let mut r = Renderer::new(9, 9);
    assert!(r.render(&[disc(4.5, 4.5, 8.0, [1.0, 0.5, 0.25, 1.0])], &hardware()));
    let at = (4 * 9 + 4) * 4;
    assert_eq!(&r.frame()[at..at + 4], &[63, 127, 255, 255]);
    assert_eq!(&r.frame()[..4], &[0, 0, 0, 0]);
}

#[test]
fn the_light_of_discs_adds_up() {
    let ops = hardware();
    let mut r = Renderer::new(1, 1);
    let red = disc(0.5, 0.5, 1.0, [0.5, 0.0, 0.0, 0.5]);
    let green = disc(0.5, 0.5, 1.0, [0.0, 0.5, 0.0, 0.5]);
    r.render(&[red], &ops);
    assert_eq!(r.frame(), &[0, 0, 127, 127]);
    r.render(&[red, green], &ops);
    assert_eq!(r.frame(), &[0, 127, 127, 254]);
    r.render(&[red, red, red], &ops);
    assert_eq!(r.frame(), &[0, 0, 255, 255]);
}

#[test]
fn one_disc_more_takes_no_light() {
    let ops = hardware();
    let discs = scattered(60, 5, 32.0, 32.0);
    let mut r = Renderer::new(32, 32);
    let mut last = r.frame().to_vec();
    for n in 1..=discs.len() {
        r.render(&discs[..n], &ops);
        assert!(r.frame().iter().zip(&last).all(|(now, before)| now >= before));
        last = r.frame().to_vec();
    }
}

#[test]
fn every_channel_survives_faint_light() {
    let ops = hardware();
    let mut r = Renderer::new(1, 1);
    let faint = disc(0.5, 0.5, 1.0, [0.0, 0.0, 0.0, 0.0]);
    for level in 0..=255u32 {
        let c = (level as f32 + 0.25) / 255.0;
        let under = disc(0.5, 0.5, 1.0, [c, c, c, c]);
        r.render(&[under], &ops);
        let before = r.frame().to_vec();
        assert_eq!(before, vec![level as u8; 4]);
        r.render(&[under, faint, faint], &ops);
        assert_eq!(r.frame(), &before[..]);
    }
}

#[test]
fn no_channel_is_stronger_than_the_opacity() {
    let ops = hardware();
    let mut r = Renderer::new(64, 48);
    for seed in 1..20 {
        r.render(&scattered(seed * 10, seed, 64.0, 48.0), &ops);
        for p in r.frame().chunks(4) {
            assert!(p[0] <= p[3] && p[1] <= p[3] && p[2] <= p[3]);
        }
    }
    let far = 1.0e30;
    r.render(&[disc(-far, 5.0, 3.0 * far, [0.3, 0.2, 0.1, 0.4])], &ops);
    for p in r.frame().chunks(4) {
        assert!(p[0] <= p[3] && p[1] <= p[3] && p[2] <= p[3]);
    }
}

#[test]
fn frames_fit_up_to_the_largest_allocation() {
    assert!(frame_fits(0, 0));
    assert!(frame_fits(3840, 2160));
    let most = isize::MAX as u128;
    for (w, h) in [(0u32, u32::MAX), (u32::MAX, 0), (u32::MAX, u32::MAX), (1 << 30, 1 << 31)] {
        let bytes = w.max(1) as u128 * h.max(1) as u128 * 4;
        assert_eq!(frame_fits(w, h), bytes <= most);
    }
    assert!(!frame_fits(u32::MAX, u32::MAX));
}

#[test]
fn patterns_of_no_number_make_no_difference() {
    fn negative_nan(op: Operation) -> Binary32 {
        let r = compute(op);
        if f(r).is_nan() {
            Binary32::from_bits(0xffc0_1234)
        } else {
            r
        }
    }
    let odd = Arithmetic { compute: negative_nan };
    let nan = odd.sub(b(f32::INFINITY), b(f32::INFINITY));
    assert_eq!(nan, Binary32::from_bits(0x7fc0_0000));
    assert_eq!(nan, hardware().sub(b(f32::INFINITY), b(f32::INFINITY)));
    let discs =
        vec![disc(f32::NAN, 6.0, 8.0, [1.0; 4]), disc(6.0, 6.0, 8.0, [f32::NAN, 0.5, 0.5, 1.0])];
    let mut r = Renderer::new(12, 12);
    let mut s = Renderer::new(12, 12);
    r.render(&discs, &odd);
    s.render(&discs, &hardware());
    assert_eq!(r.frame(), s.frame());
}

#[test]
fn frames_match_a_direct_painting() {
    let ops = hardware();
    let mut r = Renderer::new(64, 48);
    for seed in 1..30 {
        let discs = scattered(seed * 3, seed, 64.0, 48.0);
        assert!(r.render(&discs, &ops));
        assert_eq!(r.frame(), &painted_directly(&discs, 64, 48)[..], "{seed}");
    }
}

#[test]
fn frames_do_not_remember() {
    let ops = hardware();
    let discs = scattered(40, 7, 40.0, 40.0);
    let mut used = Renderer::new(40, 40);
    used.render(&scattered(60, 8, 40.0, 40.0), &ops);
    used.render(&[], &ops);
    used.render(&scattered(5, 9, 40.0, 40.0), &ops);
    used.render(&discs, &ops);
    let mut fresh = Renderer::new(40, 40);
    fresh.render(&discs, &ops);
    assert_eq!(used.frame(), fresh.frame());
}

#[test]
fn an_empty_frame_is_shown_once() {
    let ops = hardware();
    let discs = scattered(10, 3, 20.0, 20.0);
    let mut r = Renderer::new(20, 20);
    assert!(r.render(&[], &ops));
    assert!(!r.render(&[], &ops));
    assert!(r.render(&discs, &ops));
    assert!(r.render(&discs, &ops));
    assert!(r.render(&[], &ops));
    assert!(r.frame().iter().all(|&x| x == 0));
    assert!(!r.render(&[], &ops));
    r.resize(20, 20);
    assert!(!r.render(&[], &ops));
    r.resize(21, 20);
    assert!(r.render(&[], &ops));
}

#[test]
fn discs_outside_the_frame_leave_it_blank() {
    let ops = hardware();
    let mut r = Renderer::new(16, 16);
    let white = [1.0, 1.0, 1.0, 1.0];
    let discs = vec![
        disc(-1000.0, -1000.0, 10.0, white),
        disc(100.0, 5.0, 10.0, white),
        disc(5.0, 1.0e30, 10.0, white),
        disc(f32::NEG_INFINITY, 5.0, 10.0, white),
    ];
    assert!(r.render(&discs, &ops));
    assert!(r.frame().iter().all(|&x| x == 0));
    assert_eq!(r.frame(), &painted_directly(&discs, 16, 16)[..]);
}

#[test]
fn odd_numbers_are_painted_as_directly() {
    let ops = hardware();
    let mut r = Renderer::new(12, 12);
    for v in [f32::NAN, f32::INFINITY, 0.0, -0.0, -5.0, 1.0e-40] {
        for discs in [
            vec![disc(6.0, 6.0, v, [1.0, 1.0, 1.0, 1.0])],
            vec![disc(v, 6.0, 8.0, [1.0, 1.0, 1.0, 1.0])],
            vec![disc(6.0, 6.0, 8.0, [v, 0.5, 0.5, 1.0])],
            vec![disc(6.0, 6.0, 8.0, [0.5, 0.5, 0.5, v])],
        ] {
            r.render(&discs, &ops);
            assert_eq!(r.frame(), &painted_directly(&discs, 12, 12)[..], "{v}");
        }
    }
}

#[test]
fn rectangles_join() {
    let a = Rect { min_x: 1, min_y: 5, max_x: 4, max_y: 6 };
    let c = Rect { min_x: 2, min_y: 3, max_x: 9, max_y: 4 };
    assert_eq!(a.join(&c), Rect { min_x: 1, min_y: 3, max_x: 9, max_y: 6 });
    assert!(!a.is_empty());
    assert!(Rect { min_x: 4, min_y: 0, max_x: 4, max_y: 9 }.is_empty());
    assert!(Rect { min_x: 0, min_y: 9, max_x: 4, max_y: 8 }.is_empty());
}
