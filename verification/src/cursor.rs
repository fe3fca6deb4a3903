//! Hiding the system cursor while the trail is shown.
//!
//! Both hiders are driven from outside: they say which call is to be made next and are told what
//! it returned.
use vstd::prelude::*;

verus! {

/// A call that changes the cursor's display counter and returns its new value. The cursor is
/// hidden while the counter is negative.
#[derive(Clone, Copy, Debug, PartialEq, Eq, Structural)]
pub enum CounterCall {
    /// Lower the counter by one.
    Hide,
    /// Raise the counter by one.
    Show,
}

/// Hides the cursor by its display counter. Others may change the counter too, so calls are
/// repeated until it has the right sign.
#[derive(Clone, Copy, Debug)]
pub struct CursorHider {
    /// The call to repeat, if any.
    pub pending: Option<CounterCall>,
}

impl CursorHider {
    /// The hider after its call returned `count`.
    pub open spec fn told(self, count: int) -> CursorHider {
        match self.pending {
            Some(CounterCall::Hide) if count < 0 => CursorHider { pending: None },
            Some(CounterCall::Show) if count >= 0 => CursorHider { pending: None },
            _ => self,
        }
    }

    /// The counter once the hider rests, from `count` on and with nobody else changing it.
    pub open spec fn settled(self, count: int) -> int
        decreases
            (if self.pending == Some(CounterCall::Hide) {
                if count >= 0 {
                    count + 1
                } else {
                    0
                }
            } else if count < 0 {
                -count
            } else {
                0
            }),
    {
        match self.pending {
            None => count,
            Some(CounterCall::Hide) => if count - 1 < 0 {
                count - 1
            } else {
                self.settled(count - 1)
            },
            Some(CounterCall::Show) => if count + 1 >= 0 {
                count + 1
            } else {
                self.settled(count + 1)
            },
        }
    }

    /// A hider that sets out to hide the cursor.
    pub fn new_hidden() -> (h: Self)
        ensures
            h.pending == Some(CounterCall::Hide),
    {
        CursorHider { pending: Some(CounterCall::Hide) }
    }

    /// Sets out to hide the cursor again, in case that others have shown it.
    pub fn ensure_hidden(&mut self)
        ensures
            final(self).pending == Some(CounterCall::Hide),
    {
        self.pending = Some(CounterCall::Hide);
    }

    /// Sets out to show the cursor.
    pub fn restore(&mut self)
        ensures
            final(self).pending == Some(CounterCall::Show),
    {
        self.pending = Some(CounterCall::Show);
    }

    /// The call to make next; none when the counter has the right sign.
    pub fn next_call(&self) -> (call: Option<CounterCall>)
        ensures
            call == self.pending,
    {
        self.pending
    }

    /// Takes note of the counter that the call returned.
    pub fn counted(&mut self, count: i32)
        ensures
            *final(self) == old(self).told(count as int),
    {
        let done = match self.pending {
            Some(CounterCall::Hide) => count < 0,
            Some(CounterCall::Show) => count >= 0,
            None => true,
        };
        if done {
            self.pending = None;
        }
    }
}

/// Hiding ends, with the counter negative: at -1 if it was not negative, else one lower.
pub proof fn law_hiding_ends_hidden(h: CursorHider, count: int)
    requires
        h.pending == Some(CounterCall::Hide),
    ensures
        h.settled(count) == (if count >= 0 {
            -1
        } else {
            count - 1
        }),
        h.told(h.settled(count)).pending is None,
    decreases
        (if count >= 0 {
            count + 1
        } else {
            0
        }),
{
    if count - 1 >= 0 {
        law_hiding_ends_hidden(h, count - 1);
    }
}

/// Restoring ends, with the counter not negative: at 0 if it was negative, else one higher.
pub proof fn law_restoring_ends_shown(h: CursorHider, count: int)
    requires
        h.pending == Some(CounterCall::Show),
    ensures
        h.settled(count) == (if count < 0 {
            0
        } else {
            count + 1
        }),
        h.told(h.settled(count)).pending is None,
    decreases
        (if count < 0 {
            -count
        } else {
            0
        }),
{
    if count + 1 < 0 {
        law_restoring_ends_shown(h, count + 1);
    }
}

/// A role that the system has a cursor for.
#[derive(Clone, Copy, Debug, PartialEq, Eq, Structural)]
pub enum CursorRole {
    Normal,
    IBeam,
    Wait,
    Cross,
    Up,
    SizeAll,
    SizeNwse,
    SizeNesw,
    SizeWe,
    SizeNs,
    Hand,
    No,
    AppStarting,
    Help,
}

/// The number of roles whose cursor is replaced.
pub const ROLE_COUNT: usize = 14;

/// The side of the blank cursor, in pixels.
pub const CURSOR_SIDE: i32 = 32;

/// The bytes of one of the blank cursor's masks.
pub const MASK_LEN: usize = 128;

/// Write the restored cursors to the user profile.
pub const UPDATE_INI_FILE: u32 = 1;

/// Tell all windows that the cursors were restored.
pub const SEND_CHANGE: u32 = 2;

impl CursorRole {
    /// The roles in the order in which their cursors are replaced.
    pub open spec fn all() -> Seq<CursorRole> {
        seq![
            CursorRole::Normal,
            CursorRole::IBeam,
            CursorRole::Wait,
            CursorRole::Cross,
            CursorRole::Up,
            CursorRole::SizeAll,
            CursorRole::SizeNwse,
            CursorRole::SizeNesw,
            CursorRole::SizeWe,
            CursorRole::SizeNs,
            CursorRole::Hand,
            CursorRole::No,
            CursorRole::AppStarting,
            CursorRole::Help,
        ]
    }

    /// The number by which the system knows the role.
    pub open spec fn number(self) -> u32 {
        match self {
            CursorRole::Normal => 32512,
            CursorRole::IBeam => 32513,
            CursorRole::Wait => 32514,
            CursorRole::Cross => 32515,
            CursorRole::Up => 32516,
            CursorRole::SizeNwse => 32642,
            CursorRole::SizeNesw => 32643,
            CursorRole::SizeWe => 32644,
            CursorRole::SizeNs => 32645,
            CursorRole::SizeAll => 32646,
            CursorRole::No => 32648,
            CursorRole::Hand => 32649,
            CursorRole::AppStarting => 32650,
            CursorRole::Help => 32651,
        }
    }

    /// The number by which the system knows the role.
    pub fn id(self) -> (r: u32)
        ensures
            r == self.number(),
    {
        match self {
            CursorRole::Normal => 32512,
            CursorRole::IBeam => 32513,
            CursorRole::Wait => 32514,
            CursorRole::Cross => 32515,
            CursorRole::Up => 32516,
            CursorRole::SizeNwse => 32642,
            CursorRole::SizeNesw => 32643,
            CursorRole::SizeWe => 32644,
            CursorRole::SizeNs => 32645,
            CursorRole::SizeAll => 32646,
            CursorRole::No => 32648,
            CursorRole::Hand => 32649,
            CursorRole::AppStarting => 32650,
            CursorRole::Help => 32651,
        }
    }

    /// The role at a place in the order of replacement.
    pub fn nth(place: usize) -> (r: CursorRole)
        requires
            place < ROLE_COUNT,
        ensures
            r == CursorRole::all()[place as int],
    {
        match place {
            0 => CursorRole::Normal,
            1 => CursorRole::IBeam,
            2 => CursorRole::Wait,
            3 => CursorRole::Cross,
            4 => CursorRole::Up,
            5 => CursorRole::SizeAll,
            6 => CursorRole::SizeNwse,
            7 => CursorRole::SizeNesw,
            8 => CursorRole::SizeWe,
            9 => CursorRole::SizeNs,
            10 => CursorRole::Hand,
            11 => CursorRole::No,
            12 => CursorRole::AppStarting,
            _ => CursorRole::Help,
        }
    }
}

/// Every role is replaced, and none twice.
pub proof fn law_every_role_once(role: CursorRole)
    ensures
        CursorRole::all().len() == ROLE_COUNT,
        exists|i: int| 0 <= i < ROLE_COUNT && CursorRole::all()[i] == role,
        forall|i: int, j: int|
            0 <= i < j < ROLE_COUNT ==> (#[trigger] CursorRole::all()[i]).number() != (
            #[trigger] CursorRole::all()[j]).number(),
{
    let place: int = match role {
        CursorRole::Normal => 0,
        CursorRole::IBeam => 1,
        CursorRole::Wait => 2,
        CursorRole::Cross => 3,
        CursorRole::Up => 4,
        CursorRole::SizeAll => 5,
        CursorRole::SizeNwse => 6,
        CursorRole::SizeNesw => 7,
        CursorRole::SizeWe => 8,
        CursorRole::SizeNs => 9,
        CursorRole::Hand => 10,
        CursorRole::No => 11,
        CursorRole::AppStarting => 12,
        CursorRole::Help => 13,
    };
    assert(CursorRole::all()[place] == role);
}

/// A cursor of one bit per pixel, as two masks.
pub struct CursorImage {
    pub width: i32,
    pub height: i32,
    pub and_mask: Vec<u8>,
    pub xor_mask: Vec<u8>,
}

impl CursorImage {
    /// The bit of a mask for the pixel at `x`, `y`.
    pub open spec fn mask_bit(mask: Seq<u8>, x: int, y: int) -> bool {
        (mask[(y * CURSOR_SIDE + x) / 8] >> ((7 - x % 8) as u8)) & 1 == 1
    }

    /// The screen shows through at the pixel at `x`, `y`, and is not inverted.
    pub open spec fn transparent_at(&self, x: int, y: int) -> bool {
        Self::mask_bit(self.and_mask@, x, y) && !Self::mask_bit(self.xor_mask@, x, y)
    }

    /// A cursor that shows nothing.
    pub fn blank() -> (c: Self)
        ensures
            c.width == CURSOR_SIDE,
            c.height == CURSOR_SIDE,
            c.and_mask@ == Seq::new(MASK_LEN as nat, |i: int| 0xffu8),
            c.xor_mask@ == Seq::new(MASK_LEN as nat, |i: int| 0u8),
            forall|x: int, y: int|
                0 <= x < CURSOR_SIDE && 0 <= y < CURSOR_SIDE ==> #[trigger] c.transparent_at(x, y),
    {
        let c = CursorImage {
            width: CURSOR_SIDE,
            height: CURSOR_SIDE,
            and_mask: vec![0xffu8; MASK_LEN],
            xor_mask: vec![0u8; MASK_LEN],
        };
        assert(c.and_mask@ =~= Seq::new(MASK_LEN as nat, |i: int| 0xffu8));
        assert(c.xor_mask@ =~= Seq::new(MASK_LEN as nat, |i: int| 0u8));
        proof {
            assert forall|x: int, y: int|
                0 <= x < CURSOR_SIDE && 0 <= y < CURSOR_SIDE implies #[trigger] c.transparent_at(
                x,
                y,
            ) by {
                let s = (7 - x % 8) as u8;
                assert((0xffu8 >> s) & 1 == 1 && (0u8 >> s) & 1 == 0) by (bit_vector)
                    requires
                        s < 8,
                ;
            }
        }
        c
    }
}

/// Hides the cursor everywhere by replacing the system's cursors with a blank one, role by role.
/// The system takes each cursor over, so every role gets one of its own.
#[derive(Clone, Copy, Debug)]
pub struct SystemCursorHider {
    /// The roles done.
    pub done: usize,
    /// A cursor could not be created, and the hiding was given up.
    pub failed: bool,
}

impl SystemCursorHider {
    /// No more roles are done than there are.
    pub open spec fn wf(&self) -> bool {
        self.done <= ROLE_COUNT
    }

    /// The role that a cursor is to be created for.
    pub open spec fn next(&self) -> Option<CursorRole> {
        if self.failed || self.done >= ROLE_COUNT {
            None
        } else {
            Some(CursorRole::all()[self.done as int])
        }
    }

    /// The hider after a cursor was created for the next role, or creating it failed.
    pub open spec fn told(self, cursor: Option<isize>) -> SystemCursorHider {
        match cursor {
            None => SystemCursorHider { done: self.done, failed: true },
            Some(_) => SystemCursorHider { done: (self.done + 1) as usize, failed: self.failed },
        }
    }

    /// The hider after cursors were created one after the other.
    pub open spec fn told_all(self, cursors: Seq<Option<isize>>) -> SystemCursorHider
        decreases cursors.len(),
    {
        if cursors.len() == 0 {
            self
        } else {
            self.told_all(cursors.drop_last()).told(cursors.last())
        }
    }

    /// A hider with all roles ahead of it.
    pub fn new_hidden() -> (h: Self)
        ensures
            h == (SystemCursorHider { done: 0, failed: false }),
            h.wf(),
    {
        SystemCursorHider { done: 0, failed: false }
    }

    /// The role to create a blank cursor for; none when all are done or the hiding was given up.
    pub fn next_role(&self) -> (role: Option<CursorRole>)
        requires
            self.wf(),
        ensures
            role == self.next(),
    {
        if self.failed || self.done >= ROLE_COUNT {
            None
        } else {
            Some(CursorRole::nth(self.done))
        }
    }

    /// Takes note of the cursor created for the next role, or that creating it failed. Returns
    /// whether the cursor is to take the role: a cursor that is none is passed over.
    pub fn created(&mut self, cursor: Option<isize>) -> (install: bool)
        requires
            old(self).wf(),
            old(self).next() is Some,
        ensures
            final(self).wf(),
            install == (cursor matches Some(c) && crate::handle::is_valid(c)),
            *final(self) == old(self).told(cursor),
    {
        match cursor {
            None => {
                self.failed = true;
                false
            },
            Some(c) => {
                self.done = self.done + 1;
                crate::handle::valid(c)
            },
        }
    }

    /// How to restore the system's cursors: at once, and for good.
    pub fn restore_now(&self) -> (flags: u32)
        ensures
            flags == SEND_CHANGE | UPDATE_INI_FILE,
    {
        SEND_CHANGE | UPDATE_INI_FILE
    }
}

/// As long as no creation fails, the `n`-th cursor created is for the `n`-th role, and after the
/// last role there is none; the first failure ends the hiding.
pub proof fn law_roles_in_order(cursors: Seq<Option<isize>>)
    requires
        cursors.len() <= ROLE_COUNT,
        forall|i: int| 0 <= i < cursors.len() ==> (#[trigger] cursors[i]) is Some,
    ensures
        ({
            let h = (SystemCursorHider { done: 0, failed: false }).told_all(cursors);
            &&& h == (SystemCursorHider { done: cursors.len() as usize, failed: false })
            &&& h.next() == (if cursors.len() < ROLE_COUNT {
                Some(CursorRole::all()[cursors.len() as int])
            } else {
                None
            })
            &&& h.told(None).next() is None
        }),
    decreases cursors.len(),
{
    if cursors.len() > 0 {
        law_roles_in_order(cursors.drop_last());
    }
}

/// A hider repeats its call until the counter has the right sign, and then rests: negative for a
/// cursor that is hidden, and not negative for one that is shown. What it is told while it rests
/// changes nothing.
pub proof fn law_calls_are_repeated_until_done(count: int)
    ensures
        ({
            let hiding = CursorHider { pending: Some(CounterCall::Hide) };
            let showing = CursorHider { pending: Some(CounterCall::Show) };
            let resting = CursorHider { pending: None };
            &&& hiding.told(count).pending is None <==> count < 0
            &&& count >= 0 ==> hiding.told(count).pending == Some(CounterCall::Hide)
            &&& showing.told(count).pending is None <==> count >= 0
            &&& count < 0 ==> showing.told(count).pending == Some(CounterCall::Show)
            &&& resting.told(count).pending is None
        }),
{
}

/// The cursor created for a role, whatever it is, leads to the next role; a failure ends the hiding
/// at the role it was for.
pub proof fn law_roles_one_by_one(h: SystemCursorHider, cursor: isize)
    requires
        h.done < ROLE_COUNT,
        !h.failed,
    ensures
        h.next() is Some,
        h.told(Some(cursor)).done == h.done + 1,
        !h.told(Some(cursor)).failed,
        h.told(None).done == h.done,
        h.told(None).failed,
        h.told(None).next() is None,
{
}

} // verus!
