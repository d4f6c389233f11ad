//! Progress reports, at most one per interval. Times are nanoseconds on a
//! clock that the caller reads.
use vstd::prelude::*;

verus! {

#[derive(Debug, Clone)]
pub struct ScanProgress {
    pub files_scanned: u64,
    pub dirs_scanned: u64,
    pub bytes_scanned: u64,
    pub errors: u64,
    pub current_path: Option<String>,
    pub elapsed_nanos: u64,
}

#[derive(Debug)]
pub struct ProgressTracker {
    pub files: u64,
    pub dirs: u64,
    pub bytes: u64,
    pub errors: u64,
    pub current_path: Option<String>,
    pub start: u64,
    pub last_update: u64,
    pub update_interval_ms: u64,
}

pub const NANOS_PER_MILLI: u64 = 1_000_000;

/// The time between two readings of the clock: none if it went backwards.
pub open spec fn time_since(earlier: u64, now: u64) -> u64 {
    if now >= earlier {
        (now - earlier) as u64
    } else {
        0
    }
}

fn elapsed(earlier: u64, now: u64) -> (nanos: u64)
    ensures
        nanos == time_since(earlier, now),
{
    if now >= earlier {
        now - earlier
    } else {
        0
    }
}

impl ProgressTracker {
    /// Whether the interval has passed since the last report, in whole
    /// milliseconds.
    pub open spec fn due(&self, now: u64) -> bool {
        time_since(self.last_update, now) / NANOS_PER_MILLI >= self.update_interval_ms
    }

    /// The report on the numbers of the tracker.
    pub open spec fn report(&self, path: Option<String>, now: u64) -> ScanProgress {
        ScanProgress {
            files_scanned: self.files,
            dirs_scanned: self.dirs,
            bytes_scanned: self.bytes,
            errors: self.errors,
            current_path: path,
            elapsed_nanos: time_since(self.start, now),
        }
    }

    /// The tracker once it has reported, if a report was due.
    pub open spec fn reported(&self, now: u64) -> ProgressTracker {
        if self.due(now) {
            ProgressTracker { current_path: None, last_update: now, ..*self }
        } else {
            *self
        }
    }

    /// The report that is due, if any.
    pub open spec fn due_report(&self, now: u64) -> Option<ScanProgress> {
        if self.due(now) {
            Some(self.report(self.current_path, now))
        } else {
            None
        }
    }

    pub fn new(now: u64) -> (tracker: Self)
        ensures
            tracker == (ProgressTracker {
                files: 0,
                dirs: 0,
                bytes: 0,
                errors: 0,
                current_path: None,
                start: now,
                last_update: now,
                update_interval_ms: 100,
            }),
    {
        ProgressTracker {
            files: 0,
            dirs: 0,
            bytes: 0,
            errors: 0,
            current_path: None,
            start: now,
            last_update: now,
            update_interval_ms: 100,
        }
    }

    pub fn record_file(&mut self, size: u64, now: u64) -> (update: Option<ScanProgress>)
        requires
            old(self).files < u64::MAX,
            old(self).bytes + size <= u64::MAX,
        ensures
            ({
                let counted = ProgressTracker {
                    files: (old(self).files + 1) as u64,
                    bytes: (old(self).bytes + size) as u64,
                    ..*old(self)
                };
                &&& update == counted.due_report(now)
                &&& *final(self) == counted.reported(now)
            }),
    {
        self.files = self.files + 1;
        self.bytes = self.bytes + size;
        self.maybe_send_update(now)
    }

    pub fn record_dir(&mut self, now: u64) -> (update: Option<ScanProgress>)
        requires
            old(self).dirs < u64::MAX,
        ensures
            ({
                let counted = ProgressTracker {
                    dirs: (old(self).dirs + 1) as u64,
                    ..*old(self)
                };
                &&& update == counted.due_report(now)
                &&& *final(self) == counted.reported(now)
            }),
    {
        self.dirs = self.dirs + 1;
        self.maybe_send_update(now)
    }

    pub fn record_error(&mut self, now: u64) -> (update: Option<ScanProgress>)
        requires
            old(self).errors < u64::MAX,
        ensures
            ({
                let counted = ProgressTracker {
                    errors: (old(self).errors + 1) as u64,
                    ..*old(self)
                };
                &&& update == counted.due_report(now)
                &&& *final(self) == counted.reported(now)
            }),
    {
        self.errors = self.errors + 1;
        self.maybe_send_update(now)
    }

    pub fn set_current_path(&mut self, path: String)
        ensures
            *final(self) == (ProgressTracker { current_path: Some(path), ..*old(self) }),
    {
        self.current_path = Some(path);
    }

    pub fn should_update(&self, now: u64) -> (due: bool)
        ensures
            due == self.due(now),
    {
        elapsed(self.last_update, now) / NANOS_PER_MILLI >= self.update_interval_ms
    }

    fn maybe_send_update(&mut self, now: u64) -> (update: Option<ScanProgress>)
        ensures
            update == old(self).due_report(now),
            *final(self) == old(self).reported(now),
    {
        if self.should_update(now) {
            let path = self.current_path.take();
            self.last_update = now;
            Some(
                ScanProgress {
                    files_scanned: self.files,
                    dirs_scanned: self.dirs,
                    bytes_scanned: self.bytes,
                    errors: self.errors,
                    current_path: path,
                    elapsed_nanos: elapsed(self.start, now),
                },
            )
        } else {
            None
        }
    }

    /// The last report, which comes whether or not one is due.
    pub fn finish(&self, now: u64) -> (report: ScanProgress)
        ensures
            report == self.report(None, now),
    {
        ScanProgress {
            files_scanned: self.files,
            dirs_scanned: self.dirs,
            bytes_scanned: self.bytes,
            errors: self.errors,
            current_path: None,
            elapsed_nanos: elapsed(self.start, now),
        }
    }
}

/// Reports are throttled: after a report, none is due until the interval has
/// passed.
pub proof fn law_reports_are_throttled(tracker: ProgressTracker, at: u64, now: u64)
    requires
        tracker.due(at),
        now < at + tracker.update_interval_ms * NANOS_PER_MILLI,
    ensures
        !tracker.reported(at).due(now) || tracker.update_interval_ms == 0,
{
    let after = tracker.reported(at);
    let passed = time_since(at, now);
    let interval = tracker.update_interval_ms;
    assert(passed / NANOS_PER_MILLI < interval || interval == 0) by {
        if interval > 0 {
            assert(passed < interval * NANOS_PER_MILLI);
            vstd::arithmetic::div_mod::lemma_multiply_divide_lt(
                passed as int,
                NANOS_PER_MILLI as int,
                interval as int,
            );
        }
    }
}

/// The time of the last report, where something was recorded at each of the
/// first `n` times.
pub open spec fn last_report(tracker: ProgressTracker, times: Seq<u64>, n: int) -> u64
    decreases n,
{
    if n <= 0 {
        tracker.last_update
    } else {
        let before = ProgressTracker {
            last_update: last_report(tracker, times, n - 1),
            ..tracker
        };
        before.reported(times[n - 1]).last_update
    }
}

/// The number of reports, where something was recorded at each of the first
/// `n` times.
pub open spec fn report_count(tracker: ProgressTracker, times: Seq<u64>, n: int) -> nat
    decreases n,
{
    if n <= 0 {
        0
    } else {
        let before = ProgressTracker {
            last_update: last_report(tracker, times, n - 1),
            ..tracker
        };
        report_count(tracker, times, n - 1) + if before.due(times[n - 1]) {
            1nat
        } else {
            0
        }
    }
}

/// However often something is recorded, there are no more reports than whole
/// intervals have passed from the start to the last report.
pub proof fn law_report_rate(tracker: ProgressTracker, times: Seq<u64>, n: int)
    requires
        tracker.update_interval_ms > 0,
        0 <= n <= times.len(),
    ensures
        report_count(tracker, times, n) * (tracker.update_interval_ms * NANOS_PER_MILLI)
            <= last_report(tracker, times, n) - tracker.last_update,
    decreases n,
{
    let step = tracker.update_interval_ms * NANOS_PER_MILLI;
    if n == 0 {
        assert(0 * step == 0) by (nonlinear_arith);
    } else {
        law_report_rate(tracker, times, n - 1);
        let last = last_report(tracker, times, n - 1);
        let now = times[n - 1];
        let count = report_count(tracker, times, n - 1) as int;
        if (ProgressTracker { last_update: last, ..tracker }).due(now) {
            assert(time_since(last, now) >= step);
            assert((count + 1) * step == count * step + step) by (nonlinear_arith);
            assert(report_count(tracker, times, n) == count + 1);
        } else {
            assert(report_count(tracker, times, n) == count);
        }
    }
}

/// Whether the interval between reports has passed since the last one.
pub open spec fn interval_has_passed(tracker: ProgressTracker, now: u64) -> bool {
    if now >= tracker.last_update {
        now - tracker.last_update >= tracker.update_interval_ms * 1_000_000
    } else {
        tracker.update_interval_ms == 0
    }
}

/// A report is due once the interval has passed since the last one: never before,
/// and always from then on.
pub proof fn law_reports_are_due_after_the_interval(
    tracker: &ProgressTracker,
    now: u64,
    due: bool,
)
    requires
        call_ensures(ProgressTracker::should_update, (tracker, now), due),
    ensures
        due == interval_has_passed(*tracker, now),
{
}

/// Whether something was recorded with a report on it exactly if one was due: the
/// report has the numbers of the tracker afterwards, the path that was set before
/// and the time since the start, and the next interval starts with it.
pub open spec fn reports_if_due(
    before: ProgressTracker,
    after: ProgressTracker,
    now: u64,
    update: Option<ScanProgress>,
) -> bool {
    &&& update is Some == interval_has_passed(before, now)
    &&& after.start == before.start
    &&& after.update_interval_ms == before.update_interval_ms
    &&& match update {
        Some(report) => {
            &&& report.files_scanned == after.files
            &&& report.dirs_scanned == after.dirs
            &&& report.bytes_scanned == after.bytes
            &&& report.errors == after.errors
            &&& report.current_path == before.current_path
            &&& now >= before.start ==> report.elapsed_nanos == now - before.start
            &&& after.last_update == now
            &&& after.current_path is None
        },
        None => after.last_update == before.last_update && after.current_path
            == before.current_path,
    }
}

/// Recording a file counts it and its size, and reports if that is due.
pub proof fn law_files_are_recorded(
    tracker: &mut ProgressTracker,
    size: u64,
    now: u64,
    update: Option<ScanProgress>,
)
    requires
        old(tracker).files < u64::MAX,
        old(tracker).bytes + size <= u64::MAX,
        call_ensures(ProgressTracker::record_file, (tracker, size, now), update),
    ensures
        final(tracker).files == old(tracker).files + 1,
        final(tracker).bytes == old(tracker).bytes + size,
        final(tracker).dirs == old(tracker).dirs,
        final(tracker).errors == old(tracker).errors,
        reports_if_due(*old(tracker), *final(tracker), now, update),
{
}

/// Recording a directory counts it, and reports if that is due.
pub proof fn law_dirs_are_recorded(
    tracker: &mut ProgressTracker,
    now: u64,
    update: Option<ScanProgress>,
)
    requires
        old(tracker).dirs < u64::MAX,
        call_ensures(ProgressTracker::record_dir, (tracker, now), update),
    ensures
        final(tracker).dirs == old(tracker).dirs + 1,
        final(tracker).files == old(tracker).files,
        final(tracker).bytes == old(tracker).bytes,
        final(tracker).errors == old(tracker).errors,
        reports_if_due(*old(tracker), *final(tracker), now, update),
{
}

/// Recording an error counts it, and reports if that is due.
pub proof fn law_errors_are_recorded(
    tracker: &mut ProgressTracker,
    now: u64,
    update: Option<ScanProgress>,
)
    requires
        old(tracker).errors < u64::MAX,
        call_ensures(ProgressTracker::record_error, (tracker, now), update),
    ensures
        final(tracker).errors == old(tracker).errors + 1,
        final(tracker).files == old(tracker).files,
        final(tracker).dirs == old(tracker).dirs,
        final(tracker).bytes == old(tracker).bytes,
        reports_if_due(*old(tracker), *final(tracker), now, update),
{
}

/// The last report comes whether or not one is due, and has all the numbers.
pub proof fn law_last_report_has_the_numbers(
    tracker: &ProgressTracker,
    now: u64,
    report: ScanProgress,
)
    requires
        call_ensures(ProgressTracker::finish, (tracker, now), report),
    ensures
        report.files_scanned == tracker.files,
        report.dirs_scanned == tracker.dirs,
        report.bytes_scanned == tracker.bytes,
        report.errors == tracker.errors,
        report.current_path is None,
        now >= tracker.start ==> report.elapsed_nanos == now - tracker.start,
{
}

} // verus!
