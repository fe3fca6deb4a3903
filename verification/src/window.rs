//! The transparent window that covers the whole desktop.
//!
//! Cursor positions are given in pixels of the virtual screen, and the window spans exactly that
//! screen: a position in the window is the cursor's position less the window's origin.
use vstd::prelude::*;

use crate::arithmetic::{Arithmetic, Model, Operation};
use crate::binary32::Binary32;
use crate::particles::Point;

verus! {

/// The window is composed from a bitmap with opacity.
pub const WS_EX_LAYERED: u32 = 0x8_0000;

/// The window is passed over when the mouse clicks.
pub const WS_EX_TRANSPARENT: u32 = 0x20;

/// The window is left out of the task switcher.
pub const WS_EX_TOOLWINDOW: u32 = 0x80;

/// The window never takes the focus.
pub const WS_EX_NOACTIVATE: u32 = 0x800_0000;

/// Keep the window's size.
pub const SWP_NOSIZE: u32 = 1;

/// Keep the window's position.
pub const SWP_NOMOVE: u32 = 2;

/// Do not give the window the focus.
pub const SWP_NOACTIVATE: u32 = 0x10;

/// Show the window.
pub const SWP_SHOWWINDOW: u32 = 0x40;

/// Blend the bitmap over what lies below.
pub const AC_SRC_OVER: u8 = 0;

/// The bitmap holds an opacity per pixel.
pub const AC_SRC_ALPHA: u8 = 1;

/// The bitmap is not compressed.
pub const BI_RGB: u32 = 0;

/// The pattern of -1000: a coordinate far outside the screen.
pub const FAR_AWAY: u32 = 0xc47a_0000;

/// The four extended styles of a window that lets clicks through.
pub open spec fn click_through_bits() -> u32 {
    WS_EX_LAYERED | WS_EX_TRANSPARENT | WS_EX_TOOLWINDOW | WS_EX_NOACTIVATE
}

/// The extended style of a window with the click-through styles added to it.
pub fn apply_click_through(style: i32) -> (r: i32)
    ensures
        r == ((style as u32) | click_through_bits()) as i32,
{
    let bits = WS_EX_LAYERED | WS_EX_TRANSPARENT | WS_EX_TOOLWINDOW | WS_EX_NOACTIVATE;
    ((style as u32) | bits) as i32
}

/// How to bring the window to the top: nothing else about it changes, and it takes no focus.
pub fn topmost_flags() -> (r: u32)
    ensures
        r == SWP_NOMOVE | SWP_NOSIZE | SWP_NOACTIVATE | SWP_SHOWWINDOW,
{
    SWP_NOMOVE | SWP_NOSIZE | SWP_NOACTIVATE | SWP_SHOWWINDOW
}

/// The styled window has the four styles, keeps those it had, has no others, and styling it again
/// changes nothing.
pub proof fn law_click_through_adds_styles(style: u32)
    ensures
        ({
            let styled = style | click_through_bits();
            &&& styled & WS_EX_LAYERED == WS_EX_LAYERED
            &&& styled & WS_EX_TRANSPARENT == WS_EX_TRANSPARENT
            &&& styled & WS_EX_TOOLWINDOW == WS_EX_TOOLWINDOW
            &&& styled & WS_EX_NOACTIVATE == WS_EX_NOACTIVATE
            &&& styled & style == style
            &&& styled & !click_through_bits() == style & !click_through_bits()
            &&& styled | click_through_bits() == styled
            &&& (styled as i32) as u32 == styled
        }),
{
    let b = click_through_bits();
    assert(b == 0x808_00a0u32) by (bit_vector)
        requires
            b == 0x8_0000u32 | 0x20u32 | 0x80u32 | 0x800_0000u32,
    ;
    let styled = style | b;
    assert(styled & 0x8_0000u32 == 0x8_0000u32 && styled & 0x20u32 == 0x20u32 && styled & 0x80u32
        == 0x80u32 && styled & 0x800_0000u32 == 0x800_0000u32) by (bit_vector)
        requires
            styled == style | 0x808_00a0u32,
    ;
    assert(styled & style == style && styled & !b == style & !b && styled | b == styled && (
    styled as i32) as u32 == styled) by (bit_vector)
        requires
            styled == style | b,
    ;
}

/// A side of the screen as a side of the window: at least one pixel.
pub open spec fn side(n: i32) -> u32 {
    if n < 1 {
        1
    } else {
        n as u32
    }
}

/// The origin and the size of the virtual screen with the given metrics.
pub fn virtual_screen_rect(x: i32, y: i32, w: i32, h: i32) -> (r: ((i32, i32), (u32, u32)))
    ensures
        r.0 == (x, y),
        r.1 == (side(w), side(h)),
        r.1.0 == vstd::math::max(w as int, 1),
        r.1.1 == vstd::math::max(h as int, 1),
{
    let width: u32 = if w < 1 {
        1
    } else {
        w as u32
    };
    let height: u32 = if h < 1 {
        1
    } else {
        h as u32
    };
    ((x, y), (width, height))
}

/// Why a frame cannot be shown.
#[derive(Clone, Copy, Debug, PartialEq, Eq, Structural)]
pub enum PresenterError {
    /// No device context was created.
    NoContext,
    /// No bitmap was created.
    NoBitmap,
    /// The bitmap has no memory.
    NoBits,
    /// The bitmap was not selected into the context.
    NotSelected,
    /// There is nothing to show yet.
    NotInitialized,
}

impl PresenterError {
    /// The error in words.
    pub fn message(&self) -> (r: &'static str)
        ensures
            r@ == (match *self {
                PresenterError::NoContext => "CreateCompatibleDC failed"@,
                PresenterError::NoBitmap => "CreateDIBSection failed"@,
                PresenterError::NoBits => "CreateDIBSection bits is null"@,
                PresenterError::NotSelected => "SelectObject failed"@,
                PresenterError::NotInitialized => "layered presenter not initialized"@,
            }),
    {
        match self {
            PresenterError::NoContext => "CreateCompatibleDC failed",
            PresenterError::NoBitmap => "CreateDIBSection failed",
            PresenterError::NoBits => "CreateDIBSection bits is null",
            PresenterError::NotSelected => "SelectObject failed",
            PresenterError::NotInitialized => "layered presenter not initialized",
        }
    }
}

/// The bitmap to create: rows from top to bottom, 32 bits per pixel.
#[derive(Clone, Copy, Debug, PartialEq, Eq, Structural)]
pub struct BitmapHeader {
    pub width: i32,
    /// Negative: the first row is the top one.
    pub height: i32,
    pub planes: u16,
    pub bit_count: u16,
    pub compression: u32,
}

impl BitmapHeader {
    /// The header of a bitmap of the given sides.
    pub open spec fn of(width: u32, height: u32) -> BitmapHeader {
        BitmapHeader {
            width: width as i32,
            height: (-(height as i32)) as i32,
            planes: 1,
            bit_count: 32,
            compression: BI_RGB,
        }
    }

    /// The header of a bitmap of the given sides.
    pub fn new(width: u32, height: u32) -> (h: Self)
        requires
            height != 0x8000_0000,
        ensures
            h == BitmapHeader::of(width, height),
    {
        assert(height != 0x8000_0000u32 ==> (height as i32) > -0x8000_0000) by (bit_vector);
        BitmapHeader {
            width: width as i32,
            height: -(height as i32),
            planes: 1,
            bit_count: 32,
            compression: BI_RGB,
        }
    }
}

/// A bitmap that is no longer used: select `old_obj` back into the context, then delete `bitmap`.
#[derive(Clone, Copy, Debug, PartialEq, Eq, Structural)]
pub struct Release {
    pub old_obj: isize,
    pub bitmap: isize,
}

/// What is to be done before a frame of a wanted size can be written.
#[derive(Clone, Copy, Debug, PartialEq, Eq, Structural)]
pub enum SizePlan {
    /// The bitmap has the wanted size.
    Keep,
    /// Let go of the old bitmap, if any, and create another one.
    Recreate { release: Option<Release>, header: BitmapHeader },
}

/// The device context and the bitmap that frames are written to.
pub struct LayeredPresenter {
    mem_dc: isize,
    bitmap: isize,
    old_obj: isize,
    bits: usize,
    width: u32,
    height: u32,
}

impl LayeredPresenter {
    /// The device context.
    pub closed spec fn context(&self) -> isize {
        self.mem_dc
    }

    /// The bitmap, what it replaced in the context, and the address of its memory.
    pub closed spec fn surface(&self) -> Option<(isize, isize, usize)> {
        if crate::handle::is_valid(self.bitmap) {
            Some((self.bitmap, self.old_obj, self.bits))
        } else {
            None
        }
    }

    /// The sides of the bitmap.
    pub closed spec fn extent(&self) -> (u32, u32) {
        (self.width, self.height)
    }

    /// The context is there; a bitmap is a valid one with memory, selected into the context; where
    /// there is none, nothing is left of an earlier one.
    pub closed spec fn wf(&self) -> bool {
        &&& crate::handle::is_valid(self.mem_dc)
        &&& if crate::handle::is_valid(self.bitmap) {
            crate::handle::is_valid(self.old_obj) && self.bits != 0
        } else {
            self.bitmap == 0 && self.old_obj == 0 && self.bits == 0 && self.width == 0
                && self.height == 0
        }
    }

    /// What letting go of the bitmap takes.
    pub open spec fn release(&self) -> Option<Release> {
        match self.surface() {
            Some((bitmap, old_obj, _)) => Some(Release { old_obj, bitmap }),
            None => None,
        }
    }

    /// The address of the bitmap's memory.
    pub open spec fn address(&self) -> usize {
        match self.surface() {
            Some((_, _, bits)) => bits,
            None => 0,
        }
    }

    /// There is a bitmap of the given sides.
    pub open spec fn fits(&self, width: u32, height: u32) -> bool {
        self.surface() is Some && self.extent() == (width, height)
    }

    /// A presenter on the device context that was created, without a bitmap.
    pub fn new(mem_dc: isize) -> (r: Result<Self, PresenterError>)
        ensures
            match r {
                Ok(p) => crate::handle::is_valid(mem_dc) && p.wf() && p.context() == mem_dc
                    && p.surface() is None && p.extent() == (0u32, 0u32),
                Err(e) => !crate::handle::is_valid(mem_dc) && e == PresenterError::NoContext,
            },
    {
        if !crate::handle::valid(mem_dc) {
            return Err(PresenterError::NoContext);
        }
        Ok(LayeredPresenter { mem_dc, bitmap: 0, old_obj: 0, bits: 0, width: 0, height: 0 })
    }

    /// Decides what a bitmap of the given sides takes. One of other sides is forgotten.
    pub fn ensure_size(&mut self, width: u32, height: u32) -> (plan: SizePlan)
        requires
            old(self).wf(),
            height != 0x8000_0000,
        ensures
            final(self).wf(),
            final(self).context() == old(self).context(),
            if old(self).fits(width, height) {
                plan == SizePlan::Keep && *final(self) == *old(self)
            } else {
                plan == (SizePlan::Recreate {
                    release: old(self).release(),
                    header: BitmapHeader::of(width, height),
                }) && final(self).surface() is None && final(self).extent() == (0u32, 0u32)
            },
    {
        if self.width == width && self.height == height && crate::handle::valid(self.bitmap) {
            return SizePlan::Keep;
        }
        let release = self.destroy_bitmap();
        SizePlan::Recreate { release, header: BitmapHeader::new(width, height) }
    }

    /// Whether the bitmap that was created, with its memory at `bits`, can be used.
    pub fn check_bitmap(bitmap: isize, bits: usize) -> (r: Result<(), PresenterError>)
        ensures
            r == (if !crate::handle::is_valid(bitmap) {
                Err::<(), PresenterError>(PresenterError::NoBitmap)
            } else if bits == 0 {
                Err(PresenterError::NoBits)
            } else {
                Ok(())
            }),
    {
        if !crate::handle::valid(bitmap) {
            return Err(PresenterError::NoBitmap);
        }
        if bits == 0 {
            return Err(PresenterError::NoBits);
        }
        Ok(())
    }

    /// Takes over a bitmap of the given sides that replaced `old_obj` in the context.
    pub fn attach(
        &mut self,
        width: u32,
        height: u32,
        bitmap: isize,
        bits: usize,
        old_obj: isize,
    ) -> (r: Result<(), PresenterError>)
        requires
            old(self).wf(),
            old(self).surface() is None,
            crate::handle::is_valid(bitmap),
            bits != 0,
        ensures
            final(self).wf(),
            match r {
                Ok(()) => crate::handle::is_valid(old_obj) && final(self).context()
                    == old(self).context() && final(self).surface() == Some(
                    (bitmap, old_obj, bits),
                ) && final(self).extent() == (width, height),
                Err(e) => !crate::handle::is_valid(old_obj) && e == PresenterError::NotSelected
                    && *final(self) == *old(self),
            },
    {
        if !crate::handle::valid(old_obj) {
            return Err(PresenterError::NotSelected);
        }
        self.bitmap = bitmap;
        self.old_obj = old_obj;
        self.bits = bits;
        self.width = width;
        self.height = height;
        Ok(())
    }

    /// Forgets the bitmap, and says what letting go of it takes.
    pub fn destroy_bitmap(&mut self) -> (release: Option<Release>)
        requires
            old(self).wf(),
        ensures
            final(self).wf(),
            release == old(self).release(),
            final(self).context() == old(self).context(),
            final(self).surface() is None,
            final(self).extent() == (0u32, 0u32),
    {
        let release = if crate::handle::valid(self.bitmap) {
            Some(Release { old_obj: self.old_obj, bitmap: self.bitmap })
        } else {
            None
        };
        self.bitmap = 0;
        self.old_obj = 0;
        self.bits = 0;
        self.width = 0;
        self.height = 0;
        release
    }

    /// The device context, to be deleted last.
    pub fn mem_dc(&self) -> (r: isize)
        ensures
            r == self.context(),
    {
        self.mem_dc
    }
}

/// How a frame is blended over the desktop.
#[derive(Clone, Copy, Debug, PartialEq, Eq, Structural)]
pub struct Blend {
    pub op: u8,
    pub flags: u8,
    pub constant_alpha: u8,
    pub alpha_format: u8,
}

/// How a frame is shown: from where in the bitmap, to where on the screen, and how much of it.
#[derive(Clone, Copy, Debug, PartialEq, Eq)]
pub struct Presentation {
    pub context: isize,
    pub from: (i32, i32),
    pub to: (i32, i32),
    pub size: (i32, i32),
    pub blend: Blend,
}

/// The next step towards the memory that a frame is written to.
#[derive(Clone, Copy, Debug, PartialEq, Eq, Structural)]
pub enum PixelsStep {
    /// Create a device context.
    CreateContext,
    /// Let go of the old bitmap, if any, and create another one in the context.
    CreateBitmap { context: isize, release: Option<Release>, header: BitmapHeader },
    /// The frame goes to `len` bytes at `bits`.
    Ready { bits: usize, len: usize },
}

/// The window over the desktop.
pub struct OverlayWindow {
    origin: (i32, i32),
    size: (u32, u32),
    layered: Option<LayeredPresenter>,
}

impl OverlayWindow {
    /// The screen position of the window's corner; negative where a screen lies left of or above
    /// the main one.
    pub closed spec fn corner(&self) -> (i32, i32) {
        self.origin
    }

    /// The sides of the window, in pixels.
    pub closed spec fn sides(&self) -> (u32, u32) {
        self.size
    }

    /// What frames are written to.
    pub closed spec fn presenter(&self) -> Option<LayeredPresenter> {
        self.layered
    }

    /// The window has at least one pixel, and what frames are written to is in order.
    pub open spec fn wf(&self) -> bool {
        &&& self.sides().0 >= 1
        &&& self.sides().1 >= 1
        &&& self.presenter() matches Some(p) ==> p.wf()
    }

    /// The place in the window of the cursor at `x`, `y` on the screen.
    pub open spec fn cursor_place(&self, m: Model, x: i32, y: i32) -> Point {
        Point {
            x: m.signed((x - self.corner().0) as i64),
            y: m.signed((y - self.corner().1) as i64),
        }
    }

    /// The next step towards the memory that a frame of the given sides is written to.
    pub open spec fn pixels_step(&self, width: u32, height: u32) -> PixelsStep {
        match self.presenter() {
            None => PixelsStep::CreateContext,
            Some(p) => if p.fits(width, height) {
                PixelsStep::Ready { bits: p.address(), len: (width * height * 4) as usize }
            } else {
                PixelsStep::CreateBitmap {
                    context: p.context(),
                    release: p.release(),
                    header: BitmapHeader::of(width, height),
                }
            },
        }
    }

    /// `after` is this window once the next step was asked for: a bitmap of other sides is
    /// forgotten.
    pub open spec fn asked(&self, width: u32, height: u32, after: OverlayWindow) -> bool {
        &&& after.corner() == self.corner()
        &&& after.sides() == self.sides()
        &&& match self.presenter() {
            None => after.presenter() is None,
            Some(p) => after.presenter() matches Some(q) && (if p.fits(width, height) {
                q == p
            } else {
                q.context() == p.context() && q.surface() is None && q.extent() == (0u32, 0u32)
            }),
        }
    }

    /// `after` is this window once the device context `mem_dc` was created for it, which `r` judges.
    pub open spec fn context_taken(
        &self,
        mem_dc: isize,
        r: Result<(), PresenterError>,
        after: OverlayWindow,
    ) -> bool {
        &&& after.corner() == self.corner()
        &&& after.sides() == self.sides()
        &&& match r {
            Ok(()) => crate::handle::is_valid(mem_dc) && (after.presenter() matches Some(p)
                && p.context() == mem_dc && p.surface() is None && p.extent() == (0u32, 0u32)),
            Err(e) => !crate::handle::is_valid(mem_dc) && e == PresenterError::NoContext
                && after.presenter() is None,
        }
    }

    /// `after` is this window once a bitmap of the given sides replaced `old_obj` in its device
    /// context, which `r` judges.
    pub open spec fn bitmap_taken(
        &self,
        width: u32,
        height: u32,
        bitmap: isize,
        bits: usize,
        old_obj: isize,
        r: Result<(), PresenterError>,
        after: OverlayWindow,
    ) -> bool {
        &&& after.corner() == self.corner()
        &&& after.sides() == self.sides()
        &&& match r {
            Ok(()) => crate::handle::is_valid(old_obj) && (after.presenter() matches Some(q)
                && q.context() == self.presenter().unwrap().context() && q.surface() == Some(
                (bitmap, old_obj, bits),
            ) && q.extent() == (width, height)),
            Err(e) => !crate::handle::is_valid(old_obj) && e == PresenterError::NotSelected
                && after.presenter() == self.presenter(),
        }
    }

    /// A window over the virtual screen with the given metrics.
    pub fn create(x: i32, y: i32, w: i32, h: i32) -> (r: Self)
        ensures
            r.wf(),
            r.corner() == (x, y),
            r.sides() == (side(w), side(h)),
            r.presenter() is None,
    {
        let (origin, size) = virtual_screen_rect(x, y, w, h);
        OverlayWindow { origin, size, layered: None }
    }

    /// The screen position of the window's corner.
    pub fn origin(&self) -> (r: (i32, i32))
        ensures
            r == self.corner(),
    {
        self.origin
    }

    /// The sides of the window, in pixels.
    pub fn size(&self) -> (r: (u32, u32))
        ensures
            r == self.sides(),
    {
        self.size
    }

    /// Takes over the sides that the window has now, each at least one pixel.
    pub fn update_size_from_window(&mut self, width: u32, height: u32)
        requires
            old(self).wf(),
        ensures
            final(self).wf(),
            final(self).sides() == (
                crate::renderer::positive(width),
                crate::renderer::positive(height),
            ),
            final(self).corner() == old(self).corner(),
            final(self).presenter() == old(self).presenter(),
    {
        let width: u32 = if width == 0 {
            1
        } else {
            width
        };
        let height: u32 = if height == 0 {
            1
        } else {
            height
        };
        self.size = (width, height);
    }

    /// The place in the window of the cursor at `x`, `y` on the screen.
    pub fn cursor_pos_in_window<F: Fn(Operation) -> Binary32>(
        &self,
        x: i32,
        y: i32,
        ops: &Arithmetic<F>,
    ) -> (p: Point)
        requires
            i32::MIN <= x - self.corner().0 <= i32::MAX,
            i32::MIN <= y - self.corner().1 <= i32::MAX,
            ops.total(),
        ensures
            forall|m: Model| #[trigger]
                ops.modelled_by(m) ==> p == self.cursor_place(m, x, y),
            forall|m: Model| #[trigger]
                ops.modelled_by(m) && m.rounds_to_nearest() ==> crate::arithmetic::rounds(
                    p.x,
                    (x - self.corner().0) * Binary32::unit(),
                    1,
                ) && crate::arithmetic::rounds(
                    p.y,
                    (y - self.corner().1) * Binary32::unit(),
                    1,
                ),
    {
        proof {
            reveal(Model::rounds_integers);
        }
        Point {
            x: ops.signed((x - self.origin.0) as i64),
            y: ops.signed((y - self.origin.1) as i64),
        }
    }

    /// The next step towards the memory that a frame of the given sides is written to. It is asked
    /// for again after each step that is taken, until the memory is ready.
    pub fn get_dib_pixels_mut(&mut self, width: u32, height: u32) -> (step: PixelsStep)
        requires
            old(self).wf(),
            height != 0x8000_0000,
            width * height * 4 <= isize::MAX,
        ensures
            final(self).wf(),
            step == old(self).pixels_step(width, height),
            old(self).asked(width, height, *final(self)),
    {
        let mut layered = None;
        std::mem::swap(&mut layered, &mut self.layered);
        match layered {
            None => PixelsStep::CreateContext,
            Some(mut p) => {
                let step = match p.ensure_size(width, height) {
                    SizePlan::Keep => {
                        assert(width * height <= width * height * 4) by (nonlinear_arith)
                            requires
                                width >= 0,
                                height >= 0,
                        ;
                        PixelsStep::Ready {
                            bits: p.bits,
                            len: (width as usize) * (height as usize) * 4,
                        }
                    },
                    SizePlan::Recreate { release, header } => PixelsStep::CreateBitmap {
                        context: p.mem_dc,
                        release,
                        header,
                    },
                };
                self.layered = Some(p);
                step
            },
        }
    }

    /// Takes over the device context that was created.
    pub fn context_created(&mut self, mem_dc: isize) -> (r: Result<(), PresenterError>)
        requires
            old(self).wf(),
            old(self).presenter() is None,
        ensures
            final(self).wf(),
            old(self).context_taken(mem_dc, r, *final(self)),
    {
        match LayeredPresenter::new(mem_dc) {
            Ok(p) => {
                self.layered = Some(p);
                Ok(())
            },
            Err(e) => Err(e),
        }
    }

    /// Takes over a bitmap of the given sides that replaced `old_obj` in the context.
    pub fn bitmap_selected(
        &mut self,
        width: u32,
        height: u32,
        bitmap: isize,
        bits: usize,
        old_obj: isize,
    ) -> (r: Result<(), PresenterError>)
        requires
            old(self).wf(),
            old(self).presenter() matches Some(p) && p.surface() is None,
            crate::handle::is_valid(bitmap),
            bits != 0,
        ensures
            final(self).wf(),
            old(self).bitmap_taken(width, height, bitmap, bits, old_obj, r, *final(self)),
    {
        let mut layered = None;
        std::mem::swap(&mut layered, &mut self.layered);
        match layered {
            None => Err(PresenterError::NotInitialized),
            Some(mut p) => {
                let r = p.attach(width, height, bitmap, bits, old_obj);
                self.layered = Some(p);
                r
            },
        }
    }

    /// How the frame that was written is shown.
    pub fn present_layered(&self) -> (r: Result<Presentation, PresenterError>)
        ensures
            r == (match self.presenter() {
                None => Err::<Presentation, PresenterError>(PresenterError::NotInitialized),
                Some(p) => Ok(
                    Presentation {
                        context: p.context(),
                        from: (0, 0),
                        to: self.corner(),
                        size: (p.extent().0 as i32, p.extent().1 as i32),
                        blend: Blend {
                            op: AC_SRC_OVER,
                            flags: 0,
                            constant_alpha: 255,
                            alpha_format: AC_SRC_ALPHA,
                        },
                    },
                ),
            }),
    {
        match &self.layered {
            None => Err(PresenterError::NotInitialized),
            Some(p) => Ok(
                Presentation {
                    context: p.mem_dc,
                    from: (0, 0),
                    to: self.origin,
                    size: (p.width as i32, p.height as i32),
                    blend: Blend {
                        op: AC_SRC_OVER,
                        flags: 0,
                        constant_alpha: 255,
                        alpha_format: AC_SRC_ALPHA,
                    },
                },
            ),
        }
    }

    /// Forgets what frames were written to: the bitmap to let go of, if any, and then the device
    /// context to delete.
    pub fn close(&mut self) -> (r: Option<(Option<Release>, isize)>)
        requires
            old(self).wf(),
        ensures
            final(self).wf(),
            final(self).corner() == old(self).corner(),
            final(self).sides() == old(self).sides(),
            final(self).presenter() is None,
            r == (match old(self).presenter() {
                None => None::<(Option<Release>, isize)>,
                Some(p) => Some((p.release(), p.context())),
            }),
    {
        let mut layered = None;
        std::mem::swap(&mut layered, &mut self.layered);
        match layered {
            None => None,
            Some(mut p) => {
                let release = p.destroy_bitmap();
                Some((release, p.mem_dc()))
            },
        }
    }
}

/// The steps lead to the memory: without a device context one is asked for, with one that has no
/// bitmap a bitmap is asked for with nothing to let go of, and with a bitmap of the wanted sides
/// its memory is handed out.
pub proof fn law_steps_lead_to_pixels(o: OverlayWindow, width: u32, height: u32)
    requires
        o.wf(),
    ensures
        match o.presenter() {
            None => o.pixels_step(width, height) == PixelsStep::CreateContext,
            Some(p) => match p.surface() {
                None => o.pixels_step(width, height) == (PixelsStep::CreateBitmap {
                    context: p.context(),
                    release: None,
                    header: BitmapHeader::of(width, height),
                }),
                Some((bitmap, old_obj, bits)) => p.extent() == (width, height)
                    ==> o.pixels_step(width, height) == (PixelsStep::Ready {
                    bits,
                    len: (width * height * 4) as usize,
                }) && bits != 0,
            },
        },
{
}

/// Memory that is ready stays ready: it has four bytes for each pixel, asking for it changes
/// nothing, and whoever asks again for the same sides is given the same memory.
pub proof fn law_ready_memory_stays(
    o: OverlayWindow,
    width: u32,
    height: u32,
    after: OverlayWindow,
)
    requires
        o.wf(),
        width * height * 4 <= isize::MAX,
        o.pixels_step(width, height) is Ready,
        o.asked(width, height, after),
    ensures
        o.pixels_step(width, height) matches PixelsStep::Ready { bits, len } && bits != 0 && len
            == width * height * 4,
        after.presenter() == o.presenter(),
        after.pixels_step(width, height) == o.pixels_step(width, height),
{
}

/// A window gets its memory by a device context and a bitmap, and fails to get it only by a failure
/// of one of these: after a context was created, a bitmap for it is asked for, and once that was
/// selected its memory is ready.
pub proof fn law_context_and_bitmap_give_memory(
    o: OverlayWindow,
    width: u32,
    height: u32,
    mem_dc: isize,
    context: Result<(), PresenterError>,
    with_context: OverlayWindow,
    before: OverlayWindow,
    bitmap: isize,
    bits: usize,
    old_obj: isize,
    selected: Result<(), PresenterError>,
    after: OverlayWindow,
)
    requires
        o.presenter() is None,
        o.context_taken(mem_dc, context, with_context),
        with_context.asked(width, height, before),
        before.bitmap_taken(width, height, bitmap, bits, old_obj, selected, after),
    ensures
        context is Ok <==> crate::handle::is_valid(mem_dc),
        selected is Ok <==> crate::handle::is_valid(old_obj),
        context is Ok ==> with_context.pixels_step(width, height) == (PixelsStep::CreateBitmap {
            context: mem_dc,
            release: None,
            header: BitmapHeader::of(width, height),
        }),
        context is Ok && selected is Ok ==> after.pixels_step(width, height)
            == (PixelsStep::Ready { bits, len: (width * height * 4) as usize }),
        context is Ok && selected is Err ==> after.pixels_step(width, height)
            == with_context.pixels_step(width, height),
{
}

/// With rounding to nearest, the place of the cursor in the window is exact on every screen of up to
/// 2^24 pixels.
pub proof fn law_cursor_place_is_exact(m: Model, place: i64)
    requires
        m.rounds_to_nearest(),
        -0x100_0000 < place < 0x100_0000,
    ensures
        m.signed(place).has(place * Binary32::unit()),
{
    let n = if place < 0 {
        -place as int
    } else {
        place as int
    };
    crate::binary32::lemma_representable(n as nat, 149);
    if place < 0 {
        crate::binary32::lemma_representable_opposite(n * Binary32::unit());
        assert(-(n * Binary32::unit()) == place * Binary32::unit()) by (nonlinear_arith)
            requires
                n == -place,
        ;
    }
    m.signed_between(place, place * Binary32::unit(), place * Binary32::unit());
}

/// Where particles are emitted: at the cursor, or far outside the screen where it is not known.
pub fn emitter_pos(cursor: Option<Point>) -> (p: Point)
    ensures
        p == (match cursor {
            Some(c) => c,
            None => Point {
                x: Binary32::from_bits(FAR_AWAY),
                y: Binary32::from_bits(FAR_AWAY),
            },
        }),
{
    match cursor {
        Some(c) => c,
        None => Point { x: Binary32::from_bits(FAR_AWAY), y: Binary32::from_bits(FAR_AWAY) },
    }
}

/// The window is as wide and high as the screen, and at least one pixel.
pub proof fn law_sides(n: i32)
    ensures
        side(n) == vstd::math::max(n as int, 1),
{
}

/// A bitmap has the sides of its frame, its first row is the top one, and it has four bytes for each
/// pixel, not compressed.
pub proof fn law_bitmaps_fit_their_frames(width: u32, height: u32)
    requires
        width <= 0x7fff_ffff,
        height <= 0x7fff_ffff,
    ensures
        BitmapHeader::of(width, height).width == width,
        BitmapHeader::of(width, height).height == -height,
        BitmapHeader::of(width, height).planes == 1,
        BitmapHeader::of(width, height).bit_count == 32,
        BitmapHeader::of(width, height).compression == 0,
{
}

/// A bitmap of other sides than the wanted ones is let go of, with what it replaced, before another
/// one is created in the same context.
pub proof fn law_other_bitmaps_are_let_go_of(
    o: OverlayWindow,
    p: LayeredPresenter,
    bitmap: isize,
    old_obj: isize,
    bits: usize,
    width: u32,
    height: u32,
    after: OverlayWindow,
)
    requires
        o.presenter() == Some(p),
        p.surface() == Some((bitmap, old_obj, bits)),
        p.extent() != (width, height),
        o.asked(width, height, after),
    ensures
        o.pixels_step(width, height) == (PixelsStep::CreateBitmap {
            context: p.context(),
            release: Some(Release { old_obj, bitmap }),
            header: BitmapHeader::of(width, height),
        }),
        after.presenter() matches Some(q) && q.context() == p.context() && q.surface() is None
            && after.pixels_step(width, height) == (PixelsStep::CreateBitmap {
            context: p.context(),
            release: None,
            header: BitmapHeader::of(width, height),
        }),
{
}

/// The place of the cursor in the window is its place on the screen less the window's corner, on each
/// axis the number nearest to that, and exactly that on every screen of up to 2^24 pixels.
pub proof fn law_cursor_place_is_relative(o: OverlayWindow, m: Model, x: i32, y: i32)
    requires
        m.rounds_to_nearest(),
    ensures
        ({
            let p = o.cursor_place(m, x, y);
            let one = Binary32::unit() as int;
            let a = x - o.corner().0;
            let b = y - o.corner().1;
            &&& crate::arithmetic::rounds(p.x, a * one, 1)
            &&& crate::arithmetic::rounds(p.y, b * one, 1)
            &&& -0x100_0000 < a < 0x100_0000 ==> p.x.has(a * one)
            &&& -0x100_0000 < b < 0x100_0000 ==> p.y.has(b * one)
        }),
{
    let a = (x - o.corner().0) as i64;
    let b = (y - o.corner().1) as i64;
    if -0x100_0000 < a < 0x100_0000 {
        law_cursor_place_is_exact(m, a);
    }
    if -0x100_0000 < b < 0x100_0000 {
        law_cursor_place_is_exact(m, b);
    }
    reveal(Model::rounds_integers);
}

} // verus!
