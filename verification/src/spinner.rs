//! A spinner counter: the state behind a console spinner. Drawing is left to
//! the embedding program; this cycles through the animation stages.

use vstd::prelude::*;

verus! {

/// The animation stages of a spinner.
pub struct SpinnerStyle {
    /// The glyphs to cycle through.
    pub stages: Vec<&'static str>,
}

impl SpinnerStyle {
    /// The stock thirteen-stage dot animation.
    pub fn const_default() -> (r: SpinnerStyle)
        ensures
            r.stages@.len() == 13,
    {
        let mut stages: Vec<&'static str> = Vec::new();
        stages.push("a");
        stages.push("b");
        stages.push("c");
        stages.push("d");
        stages.push("e");
        stages.push("f");
        stages.push("g");
        stages.push("h");
        stages.push("g");
        stages.push("f");
        stages.push("e");
        stages.push("d");
        stages.push("c");
        SpinnerStyle { stages }
    }
}

/// A counter cycling through a spinner's stages.
pub struct Spinner {
    /// The animation stages.
    pub style: SpinnerStyle,
    /// The label shown beside the spinner.
    pub message: String,
    /// The current stage index.
    pub current: usize,
}

impl Spinner {
    /// A fresh spinner at its first stage.
    pub fn new(style: SpinnerStyle, message: String) -> (r: Spinner)
        ensures
            r.current == 0,
            r.style.stages@ == style.stages@,
    {
        Spinner { style, message, current: 0 }
    }

    /// Advances to the next stage, wrapping around.
    pub fn inc(&mut self)
        requires
            0 < old(self).style.stages@.len(),
        ensures
            final(self).current == (old(self).current + 1) % (old(self).style.stages@.len() as int),
            final(self).style.stages@ == old(self).style.stages@,
            final(self).message == old(self).message,
    {
        let n: usize = self.style.stages.len();
        let ghost c: int = self.current as int;
        let m: usize = self.current % n;
        proof {
            assert((c + 1) % (n as int) == (c % (n as int) + 1) % (n as int)) by (nonlinear_arith)
                requires
                    0 < n,
            ;
        }
        if m + 1 >= n {
            self.current = 0;
            proof {
                assert((c % (n as int) + 1) % (n as int) == 0) by (nonlinear_arith)
                    requires
                        c % (n as int) + 1 == n && 0 < n,
                ;
            }
        } else {
            self.current = m + 1;
            proof {
                assert((c % (n as int) + 1) % (n as int) == c % (n as int) + 1)
                    by (nonlinear_arith)
                    requires
                        0 <= c % (n as int) + 1 < n,
                ;
            }
        }
    }
}

} // verus!
