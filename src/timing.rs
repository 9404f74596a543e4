use vstd::prelude::*;

verus! {

/// Nanoseconds in one second.
pub const NANOS_PER_SEC: u64 = 1_000_000_000;

/// The length of the last frame, in nanoseconds.
#[derive(Clone, Copy, Debug, PartialEq, Eq, Structural)]
pub struct Time {
    pub delta: u64,
}

impl Default for Time {
    /// One second, as `new`.
    fn default() -> (r: Time)
        ensures
            r.delta == NANOS_PER_SEC,
    {
        Time::new()
    }
}

impl Time {
    /// Before the first frame the delta is one second.
    pub fn new() -> (r: Time)
        ensures
            r.delta == NANOS_PER_SEC,
    {
        Time { delta: NANOS_PER_SEC }
    }
}

/// Caps the frame rate at `fps` frames per second.
#[derive(Clone, Copy, Debug, PartialEq, Eq, Structural)]
pub struct FrameLimiter {
    pub fps: u32,
    pub frame_duration: u64,
}

impl Default for FrameLimiter {
    /// Sixty frames per second.
    fn default() -> (r: FrameLimiter)
        ensures
            r.fps == 60,
            r.frame_duration == NANOS_PER_SEC / 60,
    {
        FrameLimiter::new(60)
    }
}

impl FrameLimiter {
    /// A limiter whose frames last a second divided by `fps`, rounded down
    /// to whole nanoseconds.
    pub fn new(fps: u32) -> (r: FrameLimiter)
        requires
            fps > 0,
        ensures
            r.fps == fps,
            r.frame_duration == NANOS_PER_SEC / (fps as u64),
    {
        FrameLimiter { fps, frame_duration: NANOS_PER_SEC / (fps as u64) }
    }
}

/// Measures frame lengths against a clock read by the host, in nanoseconds,
/// and tells the host how long to sleep to respect a frame limiter.
#[derive(Debug)]
pub struct TimingSystem {
    pub last_call: u64,
    pub limiter: Option<FrameLimiter>,
}

/// `a - b`, or zero when `b` is later.
pub open spec fn since(a: u64, b: u64) -> u64 {
    if a >= b {
        (a - b) as u64
    } else {
        0
    }
}

/// `a + b`, or the largest value when that overflows.
pub open spec fn sum_capped(a: u64, b: u64) -> u64 {
    if a + b > u64::MAX {
        u64::MAX
    } else {
        (a + b) as u64
    }
}

impl TimingSystem {
    /// No limiter; the clock starts at `now`.
    pub fn new(now: u64) -> (r: TimingSystem)
        ensures
            r.last_call == now,
            r.limiter == None::<FrameLimiter>,
    {
        TimingSystem { last_call: now, limiter: None }
    }

    /// The same system, capped by `limiter`.
    pub fn with_limiter(self, limiter: FrameLimiter) -> (r: TimingSystem)
        ensures
            r.last_call == self.last_call,
            r.limiter == Some(limiter),
    {
        TimingSystem { last_call: self.last_call, limiter: Some(limiter) }
    }

    /// Restarts the clock at `now`.
    pub fn init(&mut self, now: u64)
        ensures
            final(self).last_call == now,
            final(self).limiter == old(self).limiter,
    {
        self.last_call = now;
    }

    /// How long to sleep when the frame ends at `now`: what is left of the
    /// limiter's frame, if the frame was shorter.
    pub fn sleep_needed(&self, now: u64) -> (r: Option<u64>)
        ensures
            r == (match self.limiter {
                Some(l) => if since(now, self.last_call) < l.frame_duration {
                    Some((l.frame_duration - since(now, self.last_call)) as u64)
                } else {
                    None::<u64>
                },
                None => None::<u64>,
            }),
    {
        let elapsed = if now >= self.last_call { now - self.last_call } else { 0 };
        match self.limiter {
            Some(l) => if elapsed < l.frame_duration {
                Some(l.frame_duration - elapsed)
            } else {
                None
            },
            None => None,
        }
    }

    /// Closes the frame measured at `now`; `resumed` is the clock after the
    /// sleep, if the host slept. Returns the frame's delta: the time until
    /// `now`, plus, after a sleep, the time from the frame's start to
    /// `resumed`. The next frame starts at `resumed`, or at `now`.
    pub fn finish(&mut self, now: u64, resumed: Option<u64>) -> (delta: u64)
        ensures
            final(self).limiter == old(self).limiter,
            match resumed {
                Some(t) => delta == sum_capped(since(now, old(self).last_call), since(t, old(self).last_call))
                    && final(self).last_call == t,
                None => delta == since(now, old(self).last_call) && final(self).last_call == now,
            },
    {
        let last = self.last_call;
        let elapsed = if now >= last { now - last } else { 0 };
        match resumed {
            Some(t) => {
                let more = if t >= last { t - last } else { 0 };
                self.last_call = t;
                if elapsed > u64::MAX - more { u64::MAX } else { elapsed + more }
            },
            None => {
                self.last_call = now;
                elapsed
            },
        }
    }
}

} // verus!
