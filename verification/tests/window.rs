use fire_cursor::arithmetic::{Arithmetic, Operation};
use fire_cursor::binary32::Binary32;
use fire_cursor::particles::Point;
use fire_cursor::window::{
    self, apply_click_through, emitter_pos, topmost_flags, virtual_screen_rect, BitmapHeader, Blend,
    LayeredPresenter, OverlayWindow, PixelsStep, PresenterError, Release, SizePlan,
};
use windows::Win32::Graphics::Gdi;
use windows::Win32::UI::WindowsAndMessaging as Ui;

fn b(x: f32) -> Binary32 {
    Binary32::from_bits(x.to_bits())
}

fn whole_numbers() -> Arithmetic<fn(Operation) -> Binary32> {
    fn compute(op: Operation) -> Binary32 {
        match op {
            Operation::Signed(n) => b(n as f32),
            Operation::Unsigned(n) => b(n as f32),
            _ => b(f32::NAN),
        }
    }
    Arithmetic { compute }
}

#[test]
fn numbers_are_those_of_the_system() {
    assert_eq!(window::WS_EX_LAYERED, Ui::WS_EX_LAYERED.0);
    assert_eq!(window::WS_EX_TRANSPARENT, Ui::WS_EX_TRANSPARENT.0);
    assert_eq!(window::WS_EX_TOOLWINDOW, Ui::WS_EX_TOOLWINDOW.0);
    assert_eq!(window::WS_EX_NOACTIVATE, Ui::WS_EX_NOACTIVATE.0);
    assert_eq!(
        topmost_flags(),
        (Ui::SWP_NOMOVE | Ui::SWP_NOSIZE | Ui::SWP_NOACTIVATE | Ui::SWP_SHOWWINDOW).0
    );
    assert_eq!(window::AC_SRC_OVER as u32, Gdi::AC_SRC_OVER);
    assert_eq!(window::AC_SRC_ALPHA as u32, Gdi::AC_SRC_ALPHA);
    assert_eq!(window::BI_RGB, Gdi::BI_RGB.0);
    assert_eq!(window::FAR_AWAY, (-1000.0f32).to_bits());
}

#[test]
fn click_through_adds_four_styles() {
    assert_eq!(apply_click_through(0), 0x0808_00a0);
    assert_eq!(apply_click_through(0x108), 0x0808_01a8);
    assert_eq!(apply_click_through(-1), -1);
    assert_eq!(apply_click_through(i32::MIN), (0x8808_00a0u32) as i32);
    for style in [0, 1, 0x20, -77, i32::MAX] {
        let once = apply_click_through(style);
        assert_eq!(apply_click_through(once), once);
        assert_eq!(once & style, style);
    }
}

#[test]
fn the_screen_has_at_least_a_pixel() {
    assert_eq!(virtual_screen_rect(-1920, 0, 3840, 1080), ((-1920, 0), (3840, 1080)));
    assert_eq!(virtual_screen_rect(1, 2, 0, -5), ((1, 2), (1, 1)));
}

#[test]
fn the_overlay_spans_the_screen() {
    let mut o = OverlayWindow::create(-1920, -200, 3840, 1280);
    assert_eq!(o.origin(), (-1920, -200));
    assert_eq!(o.size(), (3840, 1280));
    o.update_size_from_window(800, 0);
    assert_eq!(o.size(), (800, 1));
    assert_eq!(o.origin(), (-1920, -200));
}

#[test]
fn cursor_positions_are_relative_to_the_origin() {
    let o = OverlayWindow::create(-1920, 40, 3840, 1080);
    let ops = whole_numbers();
    let p = o.cursor_pos_in_window(-1900, 50, &ops);
    assert_eq!((p.x, p.y), (b(20.0), b(10.0)));
    let p = o.cursor_pos_in_window(-1920, 40, &ops);
    assert_eq!((p.x, p.y), (b(0.0), b(0.0)));
    let p = o.cursor_pos_in_window(-2000, 0, &ops);
    assert_eq!((p.x, p.y), (b(-80.0), b(-40.0)));
}

#[test]
fn an_unknown_cursor_is_far_away() {
    let p = emitter_pos(None);
    assert_eq!((p.x, p.y), (b(-1000.0), b(-1000.0)));
    let p = emitter_pos(Some(Point { x: b(3.0), y: b(4.0) }));
    assert_eq!((p.x, p.y), (b(3.0), b(4.0)));
}

#[test]
fn a_presenter_needs_a_context() {
    assert_eq!(LayeredPresenter::new(0).err(), Some(PresenterError::NoContext));
    assert_eq!(LayeredPresenter::new(-1).err(), Some(PresenterError::NoContext));
    assert_eq!(LayeredPresenter::new(9).unwrap().mem_dc(), 9);
}

#[test]
fn a_bitmap_is_kept_while_its_size_is_wanted() {
    let mut p = LayeredPresenter::new(9).unwrap();
    let header = BitmapHeader { width: 30, height: -20, planes: 1, bit_count: 32, compression: 0 };
    assert_eq!(p.ensure_size(30, 20), SizePlan::Recreate { release: None, header });
    assert_eq!(LayeredPresenter::check_bitmap(5, 4096), Ok(()));
    assert_eq!(p.attach(30, 20, 5, 4096, 6), Ok(()));
    assert_eq!(p.ensure_size(30, 20), SizePlan::Keep);
    assert_eq!(p.ensure_size(30, 20), SizePlan::Keep);
    let header = BitmapHeader { width: 30, height: -21, planes: 1, bit_count: 32, compression: 0 };
    let release = Some(Release { old_obj: 6, bitmap: 5 });
    assert_eq!(p.ensure_size(30, 21), SizePlan::Recreate { release, header });
    assert_eq!(p.ensure_size(30, 21), SizePlan::Recreate { release: None, header });
    assert_eq!(p.destroy_bitmap(), None);
}

#[test]
fn an_empty_size_still_needs_a_bitmap() {
    let mut p = LayeredPresenter::new(9).unwrap();
    assert_ne!(p.ensure_size(0, 0), SizePlan::Keep);
    assert_eq!(p.attach(0, 0, 5, 4096, 6), Ok(()));
    assert_eq!(p.ensure_size(0, 0), SizePlan::Keep);
}

#[test]
fn unusable_bitmaps_are_refused() {
    assert_eq!(LayeredPresenter::check_bitmap(0, 4096), Err(PresenterError::NoBitmap));
    assert_eq!(LayeredPresenter::check_bitmap(-1, 0), Err(PresenterError::NoBitmap));
    assert_eq!(LayeredPresenter::check_bitmap(5, 0), Err(PresenterError::NoBits));
    let mut p = LayeredPresenter::new(9).unwrap();
    assert_eq!(p.attach(1, 1, 5, 4096, 0), Err(PresenterError::NotSelected));
    assert_eq!(p.attach(1, 1, 5, 4096, -1), Err(PresenterError::NotSelected));
    assert_ne!(p.ensure_size(1, 1), SizePlan::Keep);
}

#[test]
fn a_bitmap_is_let_go_of_once() {
    let mut p = LayeredPresenter::new(9).unwrap();
    assert_eq!(p.destroy_bitmap(), None);
    assert_eq!(p.attach(1, 1, 5, 4096, 6), Ok(()));
    assert_eq!(p.destroy_bitmap(), Some(Release { old_obj: 6, bitmap: 5 }));
    assert_eq!(p.destroy_bitmap(), None);
}

#[test]
fn steps_lead_to_the_memory() {
    let mut o = OverlayWindow::create(-10, 20, 30, 40);
    assert_eq!(o.present_layered().err(), Some(PresenterError::NotInitialized));
    assert_eq!(o.get_dib_pixels_mut(30, 40), PixelsStep::CreateContext);
    assert_eq!(o.context_created(0), Err(PresenterError::NoContext));
    assert_eq!(o.get_dib_pixels_mut(30, 40), PixelsStep::CreateContext);
    assert_eq!(o.context_created(77), Ok(()));
    let header = BitmapHeader { width: 30, height: -40, planes: 1, bit_count: 32, compression: 0 };
    assert_eq!(
        o.get_dib_pixels_mut(30, 40),
        PixelsStep::CreateBitmap { context: 77, release: None, header }
    );
    assert_eq!(o.bitmap_selected(30, 40, 5, 4096, 0), Err(PresenterError::NotSelected));
    assert_eq!(o.bitmap_selected(30, 40, 5, 4096, 6), Ok(()));
    for _ in 0..3 {
        assert_eq!(o.get_dib_pixels_mut(30, 40), PixelsStep::Ready { bits: 4096, len: 4800 });
    }
    let shown = o.present_layered().unwrap();
    assert_eq!(shown.context, 77);
    assert_eq!(shown.from, (0, 0));
    assert_eq!(shown.to, (-10, 20));
    assert_eq!(shown.size, (30, 40));
    let blend = Blend { op: 0, flags: 0, constant_alpha: 255, alpha_format: 1 };
    assert_eq!(shown.blend, blend);
    assert_eq!(o.close(), Some((Some(Release { old_obj: 6, bitmap: 5 }), 77)));
    assert_eq!(o.close(), None);
}

#[test]
fn errors_have_words() {
    assert_eq!(PresenterError::NoContext.message(), "CreateCompatibleDC failed");
    assert_eq!(PresenterError::NoBitmap.message(), "CreateDIBSection failed");
    assert_eq!(PresenterError::NoBits.message(), "CreateDIBSection bits is null");
    assert_eq!(PresenterError::NotSelected.message(), "SelectObject failed");
    assert_eq!(PresenterError::NotInitialized.message(), "layered presenter not initialized");
}

#[test]
fn handles_are_valid_as_the_system_says() {
    for h in [0isize, -1, 1, 5, -2, isize::MAX] {
        assert_eq!(fire_cursor::handle::valid(h), !Gdi::HBITMAP(h).is_invalid());
        assert_eq!(fire_cursor::handle::valid(h), !Gdi::HDC(h).is_invalid());
        assert_eq!(fire_cursor::handle::valid(h), !Gdi::HGDIOBJ(h).is_invalid());
        assert_eq!(fire_cursor::handle::valid(h), !Ui::HCURSOR(h).is_invalid());
    }
}
