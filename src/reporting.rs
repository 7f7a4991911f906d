//! Progress reporting, implemented by front-ends: spinners, bars, and a display that holds several.
use vstd::prelude::*;

verus! {

/// A display that holds several reporters at once.
pub trait ReportingMultiWrapper: Sized {
    fn new() -> Self;

    /// Runs `f` with the display paused, so that it can print.
    fn suspend<F: FnOnce() -> R, R>(&self, f: F) -> R;
}

/// A progress reporter for one task, such as a spinner.
pub trait Reporter: Sized {
    fn new(msg: &str) -> Self;

    fn incr(&self, n: usize);

    fn count(&self) -> usize;

    fn tick(&self);

    /// Finishes and removes the reporter from the display.
    fn done_clear(&self);

    /// Finishes and leaves the reporter on the display.
    fn done(&self);

    /// Runs `f` with the reporter paused, so that it can print.
    fn suspend<F: FnOnce() -> R, R>(&self, f: F) -> R;
}

/// A progress reporter with a known amount of work, such as a bar.
pub trait ReporterSized: Reporter {
    fn new(msg: &str, len: usize) -> Self;

    fn set_len(&self, len: usize);

    fn length(&self) -> usize;
}

/// A reporter that can be placed in a multi-reporter display.
pub trait CanBeWrappedBy<W: ReportingMultiWrapper>: Reporter {
    fn add_to(self, w: &W) -> Self;
}

} // verus!
