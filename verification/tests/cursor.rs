use fire_cursor::cursor::{
    CounterCall, CursorHider, CursorImage, CursorRole, SystemCursorHider, ROLE_COUNT,
};
use windows::Win32::UI::WindowsAndMessaging as Ui;

fn settle(h: &mut CursorHider, count: &mut i32) -> u32 {
    let mut calls = 0;
    while let Some(call) = h.next_call() {
        match call {
            CounterCall::Hide => *count -= 1,
            CounterCall::Show => *count += 1,
        }
        h.counted(*count);
        calls += 1;
    }
    calls
}

#[test]
fn hiding_ends_with_a_negative_counter() {
    for (start, end, calls) in [(0, -1, 1), (3, -1, 4), (-1, -2, 1), (-4, -5, 1)] {
        let mut count = start;
        let mut h = CursorHider::new_hidden();
        assert_eq!(settle(&mut h, &mut count), calls);
        assert_eq!(count, end);
    }
}

#[test]
fn hiding_again_follows_the_counter() {
    let mut count = 0;
    let mut h = CursorHider::new_hidden();
    settle(&mut h, &mut count);
    assert_eq!(h.next_call(), None);
    count += 2;
    h.ensure_hidden();
    assert_eq!(h.next_call(), Some(CounterCall::Hide));
    settle(&mut h, &mut count);
    assert_eq!(count, -1);
}

#[test]
fn restoring_ends_with_a_counter_that_shows() {
    for (start, end, calls) in [(-1, 0, 1), (-5, 0, 5), (0, 1, 1), (2, 3, 1)] {
        let mut count = start;
        let mut h = CursorHider::new_hidden();
        h.restore();
        assert_eq!(settle(&mut h, &mut count), calls);
        assert_eq!(count, end);
    }
}

#[test]
fn roles_are_those_of_the_system() {
    let expected = [
        Ui::OCR_NORMAL,
        Ui::OCR_IBEAM,
        Ui::OCR_WAIT,
        Ui::OCR_CROSS,
        Ui::OCR_UP,
        Ui::OCR_SIZEALL,
        Ui::OCR_SIZENWSE,
        Ui::OCR_SIZENESW,
        Ui::OCR_SIZEWE,
        Ui::OCR_SIZENS,
        Ui::OCR_HAND,
        Ui::OCR_NO,
        Ui::OCR_APPSTARTING,
        Ui::OCR_HELP,
    ];
    assert_eq!(expected.len(), ROLE_COUNT);
    for (i, id) in expected.iter().enumerate() {
        assert_eq!(CursorRole::nth(i).id(), id.0);
    }
}

#[test]
fn every_role_gets_a_cursor() {
    let mut h = SystemCursorHider::new_hidden();
    let mut seen = Vec::new();
    while let Some(role) = h.next_role() {
        seen.push(role);
        assert!(h.created(Some(100)));
    }
    assert_eq!(seen.len(), ROLE_COUNT);
    assert_eq!(seen[0], CursorRole::Normal);
    assert_eq!(seen[13], CursorRole::Help);
    assert!(!h.failed);
}

#[test]
fn an_invalid_cursor_is_passed_over() {
    let mut h = SystemCursorHider::new_hidden();
    assert!(!h.created(Some(0)));
    assert!(!h.created(Some(-1)));
    assert!(h.created(Some(7)));
    assert_eq!(h.next_role(), Some(CursorRole::Cross));
    assert!(!h.failed);
}

#[test]
fn a_failed_creation_ends_the_hiding() {
    let mut h = SystemCursorHider::new_hidden();
    assert!(h.created(Some(7)));
    assert!(!h.created(None));
    assert_eq!(h.next_role(), None);
    assert!(h.failed);
}

#[test]
fn the_blank_cursor_is_transparent() {
    let c = CursorImage::blank();
    assert_eq!((c.width, c.height), (32, 32));
    assert_eq!(c.and_mask, vec![0xff; 128]);
    assert_eq!(c.xor_mask, vec![0; 128]);
}

#[test]
fn cursors_are_restored_at_once_and_for_good() {
    let flags = SystemCursorHider::new_hidden().restore_now();
    assert_eq!(flags, (Ui::SPIF_SENDCHANGE | Ui::SPIF_UPDATEINIFILE).0);
    assert_eq!(flags, 3);
}
