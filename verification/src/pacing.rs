//! The pace of the frames, and what each event of the window asks for.
//!
//! Times are nanoseconds since some fixed start.
use vstd::prelude::*;

verus! {

/// The time between two frames, in nanoseconds: about 165 frames per second.
pub const TARGET_FRAME: u64 = 6_060_000;

/// What happened to the window.
#[derive(Clone, Copy, Debug, PartialEq, Eq, Structural)]
pub enum Event {
    /// The window is to be closed.
    CloseRequested,
    /// The window has new sides.
    Resized { width: u32, height: u32 },
    /// The scale of the screen has changed, and the window's sides with it.
    ScaleFactorChanged,
    /// A frame is to be drawn.
    RedrawRequested { now: u64 },
    /// There is nothing left to do for the moment.
    AboutToWait { now: u64 },
    /// Anything else.
    Other,
}

/// What is to be done.
#[derive(Clone, Copy, Debug, PartialEq, Eq, Structural)]
pub enum Action {
    /// Restore the system's cursors and leave.
    Quit,
    /// Measure the window, and give the frame the given sides.
    Resize { width: u32, height: u32 },
    /// Measure the window, and give the frame its sides.
    ResizeToWindow,
    /// Draw a frame, `elapsed` nanoseconds after the one before.
    Draw { elapsed: u64 },
    /// Hide the cursor again, and ask for a frame if `redraw` says so.
    KeepHidden { redraw: bool },
    /// Nothing.
    Nothing,
}

/// When the last frame was drawn, and when the next one is due.
#[derive(Clone, Copy, Debug, PartialEq, Eq, Structural)]
pub struct Pacer {
    pub last_frame: u64,
    pub next_frame_time: u64,
}

impl Pacer {
    /// What an event asks for.
    pub open spec fn action(self, event: Event) -> Action {
        match event {
            Event::CloseRequested => Action::Quit,
            Event::Resized { width, height } => Action::Resize { width, height },
            Event::ScaleFactorChanged => Action::ResizeToWindow,
            Event::RedrawRequested { now } => Action::Draw {
                elapsed: if now >= self.last_frame {
                    (now - self.last_frame) as u64
                } else {
                    0
                },
            },
            Event::AboutToWait { now } => Action::KeepHidden {
                redraw: now >= self.next_frame_time,
            },
            Event::Other => Action::Nothing,
        }
    }

    /// The pacer after an event: only a frame moves it on.
    pub open spec fn after(self, event: Event) -> Pacer {
        match event {
            Event::RedrawRequested { now } => Pacer {
                last_frame: now,
                next_frame_time: (now + TARGET_FRAME) as u64,
            },
            _ => self,
        }
    }

    /// A pacer with the given times for the last frame and the next one.
    pub fn new(last_frame: u64, next_frame_time: u64) -> (p: Self)
        ensures
            p == (Pacer { last_frame, next_frame_time }),
    {
        Pacer { last_frame, next_frame_time }
    }

    /// Takes an event. Returns until when to wait for the next one, and what the event asks for.
    pub fn handle(&mut self, event: Event) -> (r: (u64, Action))
        requires
            event matches Event::RedrawRequested { now } ==> now + TARGET_FRAME <= u64::MAX,
        ensures
            r.0 == old(self).next_frame_time,
            r.1 == old(self).action(event),
            *final(self) == old(self).after(event),
            event is CloseRequested ==> r.1 == Action::Quit && *final(self) == *old(self),
            event matches Event::Resized { width, height } ==> r.1 == (Action::Resize {
                width,
                height,
            }) && *final(self) == *old(self),
            event is ScaleFactorChanged ==> r.1 == Action::ResizeToWindow && *final(self)
                == *old(self),
            event matches Event::RedrawRequested { now } ==> (r.1 matches Action::Draw { elapsed }
                && elapsed == vstd::math::max(now - old(self).last_frame, 0)),
            event matches Event::RedrawRequested { now } ==> final(self).last_frame == now
                && final(self).next_frame_time == now + 6_060_000,
            event matches Event::AboutToWait { now } ==> r.1 == (Action::KeepHidden {
                redraw: now >= old(self).next_frame_time,
            }) && *final(self) == *old(self),
            event is Other ==> r.1 == Action::Nothing && *final(self) == *old(self),
    {
        let wait_until = self.next_frame_time;
        let action = match event {
            Event::CloseRequested => Action::Quit,
            Event::Resized { width, height } => Action::Resize { width, height },
            Event::ScaleFactorChanged => Action::ResizeToWindow,
            Event::RedrawRequested { now } => {
                let elapsed: u64 = if now >= self.last_frame {
                    now - self.last_frame
                } else {
                    0
                };
                self.last_frame = now;
                self.next_frame_time = now + TARGET_FRAME;
                Action::Draw { elapsed }
            },
            Event::AboutToWait { now } => Action::KeepHidden {
                redraw: now >= self.next_frame_time,
            },
            Event::Other => Action::Nothing,
        };
        (wait_until, action)
    }
}

/// After a frame, the next one is asked for as soon as the time between two frames has passed, and
/// no sooner.
pub proof fn law_frames_keep_their_distance(p: Pacer, drawn: u64, now: u64)
    requires
        drawn + TARGET_FRAME <= u64::MAX,
    ensures
        p.after(Event::RedrawRequested { now: drawn }).action(Event::AboutToWait { now }) == (
        Action::KeepHidden { redraw: now >= drawn + TARGET_FRAME }),
{
}

/// No time is lost between frames: what two frames take adds up to the time that passed.
pub proof fn law_elapsed_times_add_up(p: Pacer, first: u64, second: u64)
    requires
        p.last_frame <= first <= second,
        second + TARGET_FRAME <= u64::MAX,
    ensures
        ({
            let a = p.action(Event::RedrawRequested { now: first });
            let b = p.after(Event::RedrawRequested { now: first }).action(
                Event::RedrawRequested { now: second },
            );
            a matches Action::Draw { elapsed: x } && b matches Action::Draw { elapsed: y } && x + y
                == second - p.last_frame
        }),
{
}

/// A window of new sides gets a frame of exactly these sides: its width is the width reported, and
/// its height the height reported. The pace stays as it was.
pub proof fn law_frames_get_the_sides_of_the_window(p: Pacer, width: u32, height: u32)
    ensures
        p.action(Event::Resized { width, height }) matches Action::Resize { width: w, height: h }
            && w == width && h == height,
        p.after(Event::Resized { width, height }) == p,
{
}

/// Two resizes are told apart by their sides.
pub proof fn law_sides_are_told_apart(p: Pacer, a: u32, b: u32, c: u32, d: u32)
    ensures
        p.action(Event::Resized { width: a, height: b }) == p.action(
            Event::Resized { width: c, height: d },
        ) <==> a == c && b == d,
{
}

/// A frame is drawn for the time since the one before, none if the clock went back; it becomes the
/// one before, and the next one is due 6.06 milliseconds later.
pub proof fn law_frames_follow_the_clock(p: Pacer, now: u64)
    requires
        now + TARGET_FRAME <= u64::MAX,
    ensures
        p.action(Event::RedrawRequested { now }) matches Action::Draw { elapsed } && elapsed
            == vstd::math::max(now - p.last_frame, 0),
        p.after(Event::RedrawRequested { now }).last_frame == now,
        p.after(Event::RedrawRequested { now }).next_frame_time == now + 6_060_000,
{
}

/// Closing quits, a change of scale has the window measured, waiting keeps the cursor hidden and
/// asks for a frame exactly when it is due, and no other event asks for anything; none of them
/// changes the pace.
pub proof fn law_other_events_keep_the_pace(p: Pacer, now: u64)
    ensures
        p.action(Event::CloseRequested) == Action::Quit,
        p.action(Event::ScaleFactorChanged) == Action::ResizeToWindow,
        p.action(Event::AboutToWait { now }) == (Action::KeepHidden {
            redraw: now >= p.next_frame_time,
        }),
        p.action(Event::Other) == Action::Nothing,
        p.after(Event::CloseRequested) == p,
        p.after(Event::ScaleFactorChanged) == p,
        p.after(Event::AboutToWait { now }) == p,
        p.after(Event::Other) == p,
{
}

} // verus!
