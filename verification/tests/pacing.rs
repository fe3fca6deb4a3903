use fire_cursor::pacing::{Action, Event, Pacer, TARGET_FRAME};

#[test]
fn events_ask_for_their_actions() {
    let mut p = Pacer::new(1000, 2000);
    assert_eq!(p.handle(Event::CloseRequested), (2000, Action::Quit));
    assert_eq!(
        p.handle(Event::Resized { width: 3, height: 4 }),
        (2000, Action::Resize { width: 3, height: 4 })
    );
    assert_eq!(p.handle(Event::ScaleFactorChanged), (2000, Action::ResizeToWindow));
    assert_eq!(p.handle(Event::Other), (2000, Action::Nothing));
    assert_eq!(p, Pacer::new(1000, 2000));
}

#[test]
fn a_frame_schedules_the_next_one() {
    let mut p = Pacer::new(1000, 2000);
    assert_eq!(p.handle(Event::RedrawRequested { now: 5000 }), (2000, Action::Draw { elapsed: 4000 }));
    assert_eq!(p, Pacer::new(5000, 5000 + TARGET_FRAME));
    assert_eq!(TARGET_FRAME, 6_060_000);
    let due = 5000 + TARGET_FRAME;
    assert_eq!(
        p.handle(Event::AboutToWait { now: due - 1 }),
        (due, Action::KeepHidden { redraw: false })
    );
    assert_eq!(
        p.handle(Event::AboutToWait { now: due }),
        (due, Action::KeepHidden { redraw: true })
    );
}

#[test]
fn time_never_runs_backwards() {
    let mut p = Pacer::new(1000, 2000);
    assert_eq!(p.handle(Event::RedrawRequested { now: 900 }).1, Action::Draw { elapsed: 0 });
    assert_eq!(p.last_frame, 900);
}

#[test]
fn elapsed_times_add_up() {
    let mut p = Pacer::new(100, 100);
    let mut total = 0;
    for now in [150, 150, 900, 1234] {
        if let Action::Draw { elapsed } = p.handle(Event::RedrawRequested { now }).1 {
            total += elapsed;
        }
    }
    assert_eq!(total, 1134);
}
