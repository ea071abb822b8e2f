//! A frame ticker for cycling through reified meshes.
//!
//! For a fixed window duration, the ticker counts how many whole windows
//! have elapsed since it was created or last cleared. Time is carried in
//! integer microseconds.

use vstd::prelude::*;

verus! {

/// Counts elapsed whole windows of a fixed duration.
pub struct Ticker {
    window_duration: i64,
    microseconds_elapsed_since_window_start: i64,
    num_windows_elapsed: usize,
}

/// How many whole windows a total of `total` microseconds spans, counting
/// a window as passed only once it is strictly exceeded.
pub open spec fn windows_spanned(total: int, window: int) -> int {
    if total <= window {
        0
    } else {
        (total - 1) / window
    }
}

impl Ticker {
    /// The fixed window duration, in microseconds.
    pub closed spec fn window(&self) -> int {
        self.window_duration as int
    }

    /// Microseconds accumulated since the current window started.
    pub closed spec fn elapsed(&self) -> int {
        self.microseconds_elapsed_since_window_start as int
    }

    /// Whole windows elapsed so far.
    pub closed spec fn windows(&self) -> int {
        self.num_windows_elapsed as int
    }

    /// A ticker's running state: a positive window, and a non-negative
    /// remainder that never exceeds the window.
    pub open spec fn wf(&self) -> bool {
        1 <= self.window() && 0 <= self.elapsed() <= self.window()
    }

    pub fn new(window_duration: i64) -> (t: Ticker)
        requires
            window_duration >= 1,
        ensures
            t.wf(),
            t.window() == window_duration,
            t.elapsed() == 0,
            t.windows() == 0,
    {
        Ticker {
            window_duration,
            microseconds_elapsed_since_window_start: 0,
            num_windows_elapsed: 0,
        }
    }

    /// Advances time by `dt` microseconds, rolling the accumulated time
    /// over into whole elapsed windows.
    pub fn update(&mut self, dt: i64)
        requires
            old(self).wf(),
            dt >= 0,
            old(self).elapsed() + dt <= i64::MAX,
            old(self).windows() + windows_spanned(old(self).elapsed() + dt, old(self).window())
                <= usize::MAX,
        ensures
            final(self).wf(),
            final(self).window() == old(self).window(),
            final(self).windows() == old(self).windows() + windows_spanned(
                old(self).elapsed() + dt,
                old(self).window(),
            ),
            final(self).elapsed() == old(self).elapsed() + dt - old(self).window() * windows_spanned(
                old(self).elapsed() + dt,
                old(self).window(),
            ),
    {
        let ghost total = old(self).elapsed() + dt;
        let ghost w = old(self).window();
        self.microseconds_elapsed_since_window_start =
            self.microseconds_elapsed_since_window_start + dt;
        proof {
            let done = self.num_windows_elapsed - old(self).num_windows_elapsed;
            assert(done == 0);
            assert(w * done == 0) by (nonlinear_arith)
                requires
                    done == 0,
            ;
        }
        while self.microseconds_elapsed_since_window_start > self.window_duration
            invariant
                self.window_duration == old(self).window_duration,
                w == self.window_duration,
                1 <= w,
                0 <= self.microseconds_elapsed_since_window_start,
                total == self.microseconds_elapsed_since_window_start + w * (
                self.num_windows_elapsed - old(self).num_windows_elapsed),
                old(self).num_windows_elapsed <= self.num_windows_elapsed,
                self.num_windows_elapsed - old(self).num_windows_elapsed <= windows_spanned(
                    total,
                    w,
                ),
                windows_spanned(total, w) <= usize::MAX - old(self).num_windows_elapsed,
            decreases self.microseconds_elapsed_since_window_start,
        {
            proof {
                let done = self.num_windows_elapsed - old(self).num_windows_elapsed;
                assert(self.microseconds_elapsed_since_window_start == total - w * done);
                assert(total - w * done > w);
                // another whole window fits, so `done` undercounts
                assert(done + 1 <= windows_spanned(total, w)) by (nonlinear_arith)
                    requires
                        1 <= w,
                        total - w * done > w,
                        windows_spanned(total, w) == (if total <= w {
                            0int
                        } else {
                            (total - 1) / w
                        }),
                ;
            }
            let ghost done_before = self.num_windows_elapsed - old(self).num_windows_elapsed;
            self.microseconds_elapsed_since_window_start =
                self.microseconds_elapsed_since_window_start - self.window_duration;
            self.num_windows_elapsed = self.num_windows_elapsed + 1;
            proof {
                assert(w * (done_before + 1) == w * done_before + w) by (nonlinear_arith);
            }
        }
        proof {
            let done = self.num_windows_elapsed - old(self).num_windows_elapsed;
            assert(self.microseconds_elapsed_since_window_start == total - w * done);
            assert(total - w * done <= w);
            assert(done == windows_spanned(total, w)) by (nonlinear_arith)
                requires
                    1 <= w,
                    0 <= total - w * done <= w,
                    0 <= done <= windows_spanned(total, w),
                    windows_spanned(total, w) == (if total <= w {
                        0int
                    } else {
                        (total - 1) / w
                    }),
            ;
        }
    }

    /// The number of whole windows elapsed.
    pub fn get_tick(&self) -> (t: usize)
        ensures
            t == self.windows(),
    {
        self.num_windows_elapsed
    }

    /// Restarts the count from the beginning of a window.
    pub fn clear(&mut self)
        ensures
            final(self).wf() == (final(self).window() >= 1),
            final(self).window() == old(self).window(),
            final(self).elapsed() == 0,
            final(self).windows() == 0,
    {
        self.microseconds_elapsed_since_window_start = 0;
        self.num_windows_elapsed = 0;
    }
}

} // verus!
