use fire_cursor::arithmetic::{Arithmetic, Operation};
use fire_cursor::binary32::Binary32;
use fire_cursor::particles::{
    self, orange, red, yellow, Color, Draw, Particle, ParticleSystem, Point, Quantity, Randomness,
    Stage,
};
use glam::{Vec2, Vec4};
use std::cell::Cell;

fn b(x: f32) -> Binary32 {
    Binary32::from_bits(x.to_bits())
}

fn f(x: Binary32) -> f32 {
    f32::from_bits(x.bits)
}

fn compute(op: Operation) -> Binary32 {
    match op {
        Operation::Add(x, y) => b(f(x) + f(y)),
        Operation::Sub(x, y) => b(f(x) - f(y)),
        Operation::Mul(x, y) => b(f(x) * f(y)),
        Operation::Div(x, y) => b(f(x) / f(y)),
        Operation::Sqrt(x) => b(f(x).sqrt()),
        Operation::Signed(n) => b(n as f32),
        Operation::Unsigned(n) => b(n as f32),
    }
}

fn hardware() -> Arithmetic<fn(Operation) -> Binary32> {
    Arithmetic { compute }
}

fn point(x: f32, y: f32) -> Point {
    Point { x: b(x), y: b(y) }
}

fn particle(age: f32, lifetime: f32) -> Particle {
    Particle {
        pos: point(10.0, 20.0),
        vel: point(30.0, -150.0),
        age: b(age),
        lifetime: b(lifetime),
        size: b(8.0),
    }
}

fn bits(c: Color) -> [u32; 4] {
    [c.r.bits, c.g.bits, c.b.bits, c.a.bits]
}

#[test]
fn constants_are_the_documented_numbers() {
    let pairs: Vec<(u32, f32)> = vec![
        (particles::LONGEST_STEP, 0.05),
        (particles::DRAG, 1.8),
        (particles::LIFT, -220.0),
        (particles::DEFAULT_SPAWN_RATE, 900.0),
        (particles::JITTER_MIN, -3.0),
        (particles::JITTER_MAX, 3.0),
        (particles::DRIFT_MIN, -55.0),
        (particles::DRIFT_MAX, 55.0),
        (particles::RISE_MIN, -260.0),
        (particles::RISE_MAX, -110.0),
        (particles::LIFETIME_MIN, 0.35),
        (particles::LIFETIME_MAX, 0.85),
        (particles::SIZE_MIN, 6.0),
        (particles::SIZE_MAX, 14.0),
        (particles::ORANGE_AGE, 0.30),
        (particles::ORANGE_SPAN, 0.40),
        (particles::RED_AGE, 0.70),
        (particles::FADE_SPAN, 0.30),
    ];
    for (pattern, value) in pairs {
        assert_eq!(pattern, value.to_bits(), "{value}");
    }
    assert_eq!(bits(yellow()), [1.0f32, 0.95, 0.2, 1.0].map(f32::to_bits));
    assert_eq!(bits(orange()), [1.0f32, 0.45, 0.05, 1.0].map(f32::to_bits));
    assert_eq!(bits(red()), [0.9f32, 0.1, 0.02, 1.0].map(f32::to_bits));
}

#[test]
fn a_particle_dies_when_its_age_reaches_its_lifetime() {
    assert!(!particle(0.0, 0.5).is_dead());
    assert!(!particle(0.499, 0.5).is_dead());
    assert!(particle(0.5, 0.5).is_dead());
    assert!(particle(0.6, 0.5).is_dead());
    assert!(!particle(f32::NAN, 0.5).is_dead());
}

#[test]
fn normalized_age_is_clamped() {
    let ops = hardware();
    assert_eq!(f(particle(0.25, 0.5).normalized_age(&ops)), 0.5);
    assert_eq!(f(particle(0.0, 0.5).normalized_age(&ops)), 0.0);
    assert_eq!(f(particle(2.0, 0.5).normalized_age(&ops)), 1.0);
    assert_eq!(f(particle(-1.0, 0.5).normalized_age(&ops)), 0.0);
    assert_eq!(f(particle(0.1, 0.0).normalized_age(&ops)), 1.0);
    assert_eq!(f(particle(0.1, -2.0).normalized_age(&ops)), 1.0);
    assert!(f(particle(f32::NAN, 1.0).normalized_age(&ops)).is_nan());
}

#[test]
fn stages_follow_each_other() {
    assert_eq!(Stage::of(b(0.0)), Stage::Bright);
    assert_eq!(Stage::of(b(0.299)), Stage::Bright);
    assert_eq!(Stage::of(b(0.30)), Stage::Dim);
    assert_eq!(Stage::of(b(0.699)), Stage::Dim);
    assert_eq!(Stage::of(b(0.70)), Stage::Fading);
    assert_eq!(Stage::of(b(1.0)), Stage::Fading);
    assert_eq!(Stage::of(b(f32::NAN)), Stage::Fading);
}

#[test]
fn color_runs_from_yellow_to_transparent() {
    let ops = hardware();
    assert_eq!(bits(particle(0.0, 1.0).color_premul(&ops)), bits(yellow()));
    assert_eq!(bits(particle(0.30, 1.0).color_premul(&ops)), bits(orange()));
    assert_eq!(bits(particle(0.70, 1.0).color_premul(&ops)), bits(red()));
    let gone = particle(1.0, 1.0).color_premul(&ops);
    assert_eq!(bits(gone), [0, 0, 0, 0]);
}

#[test]
fn color_is_interpolated_and_premultiplied() {
    let ops = hardware();
    let yellow = Vec4::new(1.0, 0.95, 0.2, 1.0);
    let orange = Vec4::new(1.0, 0.45, 0.05, 1.0);
    let red = Vec4::new(0.9, 0.1, 0.02, 1.0);
    for step in 0..=1000 {
        let t = step as f32 / 1000.0;
        let (rgb, alpha) = if t < 0.30 {
            (yellow.lerp(orange, t / 0.30), 1.0)
        } else if t < 0.70 {
            (orange.lerp(red, (t - 0.30) / 0.40), 1.0)
        } else {
            (red, (1.0 - (t - 0.70) / 0.30).clamp(0.0, 1.0))
        };
        let expected = [rgb.x * alpha, rgb.y * alpha, rgb.z * alpha, alpha].map(f32::to_bits);
        assert_eq!(bits(particle(t, 1.0).color_premul(&ops)), expected, "{t}");
    }
}

#[test]
fn opacity_stays_in_range() {
    let ops = hardware();
    for step in 0..=1000 {
        let a = f(particle(step as f32 / 1000.0, 1.0).color_premul(&ops).a);
        assert!((0.0..=1.0).contains(&a));
        if step < 700 {
            assert_eq!(a, 1.0);
        }
    }
}

#[test]
fn a_new_system_is_empty() {
    let s = ParticleSystem::new();
    assert!(s.particles().is_empty());
    assert_eq!(s.max_particles, 8000);
    assert_eq!(f(s.spawn_rate), 900.0);
    assert_eq!(f(s.spawn_accumulator), 0.0);
}

#[test]
fn new_particles_come_from_the_documented_ranges() {
    let ranges: std::cell::RefCell<Vec<(usize, f32, f32)>> = std::cell::RefCell::new(Vec::new());
    let random = Randomness {
        draw: |i: usize, q: Quantity| {
            ranges.borrow_mut().push((i, f(q.least()), f(q.most())));
            q.most()
        },
    };
    let mut s = ParticleSystem::new();
    s.spawn(point(100.0, 200.0), 2, &hardware(), &random);
    let mut expected: Vec<(usize, f32, f32)> = Vec::new();
    for i in 0..2 {
        expected.push((i, -3.0, 3.0));
        expected.push((i, -3.0, 3.0));
        expected.push((i, -55.0, 55.0));
        expected.push((i, -260.0, -110.0));
        expected.push((i, 0.35, 0.85));
        expected.push((i, 6.0, 14.0));
    }
    assert_eq!(*ranges.borrow(), expected);
    let p = s.particles()[0];
    assert_eq!((f(p.pos.x), f(p.pos.y)), (103.0, 203.0));
    assert_eq!((f(p.vel.x), f(p.vel.y)), (55.0, -110.0));
    assert_eq!((f(p.age), f(p.lifetime), f(p.size)), (0.0, 0.85, 14.0));
    assert!(!p.is_dead());
}

fn drawn(n: f32) -> Draw {
    Draw {
        jitter: point(n / 8.0, -n / 4.0),
        vel: point(n, -110.0 - n),
        lifetime: b(0.35 + n / 64.0),
        size: b(6.0 + n),
    }
}

fn fields(p: &Particle) -> [f32; 7] {
    [f(p.pos.x), f(p.pos.y), f(p.vel.x), f(p.vel.y), f(p.age), f(p.lifetime), f(p.size)]
}

#[test]
fn a_draw_becomes_a_particle() {
    let p = Particle::from_draw(point(100.0, 200.0), drawn(2.0), &hardware());
    assert_eq!(fields(&p), [100.25, 199.5, 2.0, -112.0, 0.0, 0.38125, 8.0]);
}

#[test]
fn each_draw_becomes_a_particle_of_its_own() {
    let draws: Vec<Draw> = (0..6).map(|n| drawn(n as f32)).collect();
    let mut s = ParticleSystem::new();
    s.particles.push(particle(0.0, 1.0));
    s.max_particles = 5;
    s.spawn_drawn(point(10.0, 20.0), &draws, &hardware());
    assert_eq!(s.particles().len(), 5);
    assert_eq!(fields(&s.particles()[0]), [10.0, 20.0, 30.0, -150.0, 0.0, 1.0, 8.0]);
    for (n, p) in s.particles()[1..].iter().enumerate() {
        let n = n as f32;
        let expected =
            [10.0 + n / 8.0, 20.0 - n / 4.0, n, -110.0 - n, 0.0, 0.35 + n / 64.0, 6.0 + n];
        assert_eq!(fields(p), expected);
    }
}

#[test]
fn a_step_takes_the_draws_that_it_calls_for() {
    let ops = hardware();
    let draws: Vec<Draw> = (0..20).map(|n| drawn(n as f32)).collect();
    let mut s = ParticleSystem::new();
    assert_eq!(s.count_called_for(b(0.015625), &ops), 14);
    assert_eq!(s.count_called_for(b(9.0), &ops), 45);
    assert_eq!(s.count_called_for(b(-9.0), &ops), 0);
    s.update_and_spawn_drawn(b(0.015625), point(0.0, 0.0), &draws, &ops);
    let sizes: Vec<f32> = s.particles().iter().map(|p| f(p.size)).collect();
    assert_eq!(sizes, (0..14).map(|n| 6.0 + n as f32).collect::<Vec<f32>>());
    assert_eq!(f(s.spawn_accumulator), 0.0625);
    s.max_particles = 20;
    assert_eq!(s.count_called_for(b(0.015625), &ops), 6);
    s.update_and_spawn_drawn(b(0.015625), point(0.0, 0.0), &draws[..4], &ops);
    assert_eq!(s.particles().len(), 18);
    assert_eq!(f(s.spawn_accumulator), 0.125);
}

#[test]
fn drawing_and_taking_draws_lead_to_the_same() {
    let ops = hardware();
    let random = Randomness {
        draw: |i: usize, q: Quantity| {
            let k = ((i * 6 + q as usize) % 29) as f32 / 29.0;
            b(f(q.least()) + (f(q.most()) - f(q.least())) * k)
        },
    };
    let mut s = ParticleSystem::new();
    let mut t = ParticleSystem::new();
    for _ in 0..40 {
        let draws = random.take_all(t.count_called_for(b(0.02), &ops));
        s.update_and_spawn(b(0.02), point(5.0, 6.0), &ops, &random);
        t.update_and_spawn_drawn(b(0.02), point(5.0, 6.0), &draws, &ops);
        assert_eq!(
            s.particles().iter().map(fields).collect::<Vec<_>>(),
            t.particles().iter().map(fields).collect::<Vec<_>>()
        );
    }
}

#[test]
fn new_particles_lie_near_the_emitter() {
    let ops = hardware();
    for x in [0.0, 1919.0, -1280.0, 8_000_000.0] {
        for q in [-3.0, -0.1, 0.7, 3.0] {
            let d = Draw { jitter: point(q, -q), ..drawn(0.0) };
            let p = Particle::from_draw(point(x, x), d, &ops);
            assert!((f(p.pos.x) - x).abs() <= 3.0);
            assert!((f(p.pos.y) - x).abs() <= 3.0);
        }
    }
}

fn lively() -> ParticleSystem {
    let ops = hardware();
    let state = Cell::new(99u32);
    let next = || {
        state.set(state.get().wrapping_mul(1_664_525).wrapping_add(1_013_904_223));
        (state.get() >> 8) as f32 / (1u32 << 24) as f32
    };
    let random = Randomness {
        draw: |_i: usize, q: Quantity| {
            b(f(q.least()) + (f(q.most()) - f(q.least())) * next())
        },
    };
    let mut s = ParticleSystem::new();
    for frame in 0..400 {
        let dt = match frame % 5 {
            0 => 0.0,
            1 => 1.0e-8 * next(),
            2 => 0.07,
            3 => -1.0,
            _ => 0.02 * next(),
        };
        s.update_and_spawn(b(dt), point(frame as f32, 300.0), &ops, &random);
        assert!((0.0..1.0).contains(&f(s.spawn_accumulator)));
        for p in s.particles() {
            assert!(f(p.age) >= 0.0 && f(p.age) < f(p.lifetime));
            assert!((0.35..=0.85).contains(&f(p.lifetime)));
            assert!((6.0..=14.0).contains(&f(p.size)));
            assert!((-55.0..=55.0).contains(&f(p.vel.x)));
            assert!((-1_048_576.0..=-1.0).contains(&f(p.vel.y)));
        }
    }
    s
}

#[test]
fn every_particle_of_a_trail_thrives() {
    let s = lively();
    assert!(s.particles().len() > 100);
}

#[test]
fn no_time_changes_nothing() {
    let ops = hardware();
    let random = Randomness { draw: |_i: usize, q: Quantity| q.least() };
    for dt in [0.0, -0.0, -1.0, f32::NEG_INFINITY] {
        let mut s = lively();
        let before: Vec<[f32; 7]> = s.particles().iter().map(fields).collect();
        let owed = f(s.spawn_accumulator);
        s.update_and_spawn(b(dt), point(1.0, 2.0), &ops, &random);
        assert_eq!(s.particles().iter().map(fields).collect::<Vec<_>>(), before);
        assert_eq!(f(s.spawn_accumulator), owed);
    }
}

#[test]
fn a_normalized_age_of_one_is_death() {
    let ops = hardware();
    for lifetime in [0.35f32, 0.5, 0.85, 1.0e-40, 3.0e38, 0.7000001] {
        let just_before = f32::from_bits(lifetime.to_bits() - 1);
        for age in [0.0, lifetime / 2.0, just_before, lifetime, lifetime * 1.1] {
            let p = particle(age, lifetime);
            assert_eq!(f(p.normalized_age(&ops)) == 1.0, p.is_dead(), "{age} {lifetime}");
            assert_eq!(f(p.color_premul(&ops).a) == 0.0, p.is_dead(), "{age} {lifetime}");
        }
    }
}

#[test]
fn opacity_is_full_up_to_red_and_never_rises() {
    let ops = hardware();
    for lifetime in [0.35f32, 0.6, 0.85] {
        let mut last = 1.0;
        for step in 0..=2000 {
            let p = particle(lifetime * step as f32 / 2000.0, lifetime);
            let a = f(p.color_premul(&ops).a);
            assert_eq!(a == 1.0, f(p.normalized_age(&ops)) <= 0.70);
            assert!(a <= last);
            last = a;
        }
    }
    let after_red = f32::from_bits(0.70f32.to_bits() + 1);
    assert!(f(particle(after_red, 1.0).color_premul(&ops).a) < 1.0);
}

#[test]
fn colors_are_premultiplied_at_every_age() {
    let ops = hardware();
    for lifetime in [-1.0f32, 0.0, 1.0e-45, 0.35, 0.85, 3.0e38] {
        for step in -10..=1010 {
            let c = particle(lifetime * step as f32 / 1000.0, lifetime).color_premul(&ops);
            let a = f(c.a);
            assert!((0.0..=1.0).contains(&a));
            for channel in [c.r, c.g, c.b] {
                assert!((0.0..=a).contains(&f(channel)));
            }
        }
    }
}

#[test]
fn spawning_stops_at_the_limit() {
    let random = Randomness { draw: |_i: usize, q: Quantity| q.most() };
    let mut s = ParticleSystem::new();
    s.max_particles = 5;
    s.spawn(point(0.0, 0.0), 3, &hardware(), &random);
    assert_eq!(s.particles().len(), 3);
    s.spawn(point(0.0, 0.0), 3, &hardware(), &random);
    assert_eq!(s.particles().len(), 5);
    s.spawn(point(0.0, 0.0), 3, &hardware(), &random);
    assert_eq!(s.particles().len(), 5);
    s.max_particles = 2;
    s.spawn(point(0.0, 0.0), 3, &hardware(), &random);
    assert_eq!(s.particles().len(), 5);
}

#[test]
fn spawning_follows_the_rate_and_carries_the_rest() {
    let random = Randomness { draw: |_i: usize, q: Quantity| q.most() };
    let ops = hardware();
    let mut s = ParticleSystem::new();
    // 900 per second for 1/64 of a second: 14.0625 particles.
    s.update_and_spawn(b(0.015625), point(0.0, 0.0), &ops, &random);
    assert_eq!(s.particles().len(), 14);
    assert_eq!(f(s.spawn_accumulator), 0.0625);
    for _ in 0..15 {
        s.update_and_spawn(b(0.015625), point(0.0, 0.0), &ops, &random);
    }
    assert_eq!(s.particles().len(), 225);
    assert_eq!(f(s.spawn_accumulator), 0.0);
}

#[test]
fn long_and_negative_steps_are_clamped() {
    let random = Randomness { draw: |_i: usize, q: Quantity| q.most() };
    let ops = hardware();
    let mut s = ParticleSystem::new();
    s.update_and_spawn(b(10.0), point(0.0, 0.0), &ops, &random);
    assert_eq!(s.particles().len(), 45);
    assert_eq!(f(s.particles()[0].age), 0.05);
    s.update_and_spawn(b(-1.0), point(0.0, 0.0), &ops, &random);
    assert_eq!(s.particles().len(), 45);
    assert_eq!(f(s.particles()[0].age), 0.05);
}

#[test]
fn what_is_owed_is_lost_at_the_limit() {
    let random = Randomness { draw: |_i: usize, q: Quantity| q.most() };
    let ops = hardware();
    let mut s = ParticleSystem::new();
    s.max_particles = 10;
    s.update_and_spawn(b(0.05), point(0.0, 0.0), &ops, &random);
    assert_eq!(s.particles().len(), 10);
    assert!(f(s.spawn_accumulator) < 1.0);
}

#[test]
fn motion_follows_lift_and_drag() {
    let state = Cell::new(1u32);
    let random = Randomness {
        draw: |_i: usize, q: Quantity| {
            state.set(state.get().wrapping_mul(1_664_525).wrapping_add(1_013_904_223));
            let k = (state.get() >> 8) as f32 / (1u32 << 24) as f32;
            b(f(q.least()) + (f(q.most()) - f(q.least())) * k)
        },
    };
    let ops = hardware();
    let mut s = ParticleSystem::new();
    for frame in 0..200 {
        let dt: f32 = 0.004 + (frame % 7) as f32 * 0.003;
        let before: Vec<Particle> = s.particles().to_vec();
        s.update_and_spawn(b(dt), point(frame as f32, 300.0), &ops, &random);
        let mut expected: Vec<[u32; 7]> = Vec::new();
        for p in &before {
            let mut pos = Vec2::new(f(p.pos.x), f(p.pos.y));
            let mut vel = Vec2::new(f(p.vel.x), f(p.vel.y));
            let age = f(p.age) + dt;
            vel += Vec2::new(0.0, -220.0) * dt;
            vel *= (1.0f32 - 1.8 * dt).clamp(0.0, 1.0);
            pos += vel * dt;
            if age < f(p.lifetime) {
                expected.push([
                    pos.x.to_bits(),
                    pos.y.to_bits(),
                    vel.x.to_bits(),
                    vel.y.to_bits(),
                    age.to_bits(),
                    p.lifetime.bits,
                    p.size.bits,
                ]);
            }
        }
        let after: Vec<[u32; 7]> = s
            .particles()
            .iter()
            .map(|p| {
                [
                    p.pos.x.bits,
                    p.pos.y.bits,
                    p.vel.x.bits,
                    p.vel.y.bits,
                    p.age.bits,
                    p.lifetime.bits,
                    p.size.bits,
                ]
            })
            .collect();
        assert_eq!(&after[..expected.len()], &expected[..]);
        assert!(s.particles().iter().all(|p| !p.is_dead()));
    }
    assert!(s.particles().len() > 100);
}

#[test]
fn the_dead_go_and_the_others_keep_their_order() {
    let random = Randomness { draw: |_i: usize, q: Quantity| q.most() };
    let mut s = ParticleSystem::new();
    s.spawn_rate = b(0.0);
    for i in 0..10 {
        let mut p = particle(0.0, if i % 3 == 0 { 0.01 } else { 1.0 });
        p.size = b(i as f32);
        s.particles.push(p);
    }
    s.update_and_spawn(b(0.02), point(0.0, 0.0), &hardware(), &random);
    let sizes: Vec<f32> = s.particles().iter().map(|p| f(p.size)).collect();
    assert_eq!(sizes, vec![1.0, 2.0, 4.0, 5.0, 7.0, 8.0]);
}

#[test]
fn discs_take_place_size_and_color() {
    let ops = hardware();
    let mut s = ParticleSystem::new();
    s.particles.push(particle(0.0, 1.0));
    s.particles.push(particle(0.5, 1.0));
    let discs = s.instances(&ops);
    assert_eq!(discs.len(), 2);
    for (d, p) in discs.iter().zip(s.particles()) {
        assert_eq!(d.pos, [p.pos.x, p.pos.y]);
        assert_eq!(d.size, p.size);
        let c = p.color_premul(&ops);
        assert_eq!(d.color, [c.r, c.g, c.b, c.a]);
    }
}
