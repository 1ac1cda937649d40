//! A progress-bar counter: the state behind a console progress bar. Drawing
//! is left to the embedding program; this tracks the counts and computes the
//! bar geometry.

use vstd::prelude::*;

verus! {

/// Fixed appearance settings of a progress bar.
pub struct ProgressBarStyle {
    /// Width of the bar in character cells.
    pub width: usize,
}

/// A counter from zero up to a maximum.
pub struct ProgressBar {
    /// Appearance settings.
    pub style: ProgressBarStyle,
    /// The label shown beside the bar.
    pub message: String,
    /// Work done so far.
    pub current_progress: usize,
    /// Total work.
    pub max_progress: usize,
}

impl ProgressBar {
    /// A fresh bar at zero progress.
    pub fn new(style: ProgressBarStyle, max_progress: usize, message: String) -> (r: ProgressBar)
        ensures
            r.current_progress == 0,
            r.max_progress == max_progress,
            r.style.width == style.width,
    {
        ProgressBar { style, message, current_progress: 0, max_progress }
    }

    /// One more unit of work done; the counter saturates at the type's
    /// ceiling rather than wrapping.
    pub fn inc(&mut self)
        ensures
            final(self).current_progress == (if old(self).current_progress < usize::MAX {
                old(self).current_progress + 1
            } else {
                old(self).current_progress as int
            }),
            final(self).max_progress == old(self).max_progress,
            final(self).style.width == old(self).style.width,
            final(self).message == old(self).message,
    {
        if self.current_progress < usize::MAX {
            self.current_progress = self.current_progress + 1;
        }
    }

}

} // verus!
