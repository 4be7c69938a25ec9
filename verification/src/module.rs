//! Pipeline stage interfaces, and the two stock stages.
//!
//! A transform stage consumes one frame and produces exactly one frame; a
//! start stage produces frames until it signals exhaustion. Each trait
//! carries a specification model, so that a pipeline run can be reasoned
//! about whatever stages it was built from.

use vstd::prelude::*;
use crate::frame::Frame;

verus! {

/// A transform stage: takes one frame by ownership, hands one back.
///
/// A stage cannot drop, duplicate or split frames: one in, one out.
pub trait Module: Sized {
    /// Which frames this stage accepts. A stage that declares no model of
    /// its own accepts every well-formed frame.
    open spec fn ready(&self, f: Frame) -> bool {
        f.wf()
    }

    /// Which outputs this stage may produce from a given input. A stage
    /// that declares no model of its own promises nothing of its output.
    open spec fn post(&self, input: Frame, output: Frame) -> bool {
        true
    }

    /// Transform one frame.
    fn process(&self, f: Frame) -> (r: Frame)
        requires
            self.ready(f),
        ensures
            r.wf(),
            self.post(f, r),
    ;
}

/// Adapts a plain function (or any callable) from frame to frame to the
/// [`Module`] interface.
pub struct SimpleModule<F> where F: Fn(Frame) -> Frame {
    func: F,
}

impl<F> SimpleModule<F> where F: Fn(Frame) -> Frame {
    /// The wrapped function.
    pub closed spec fn func_of(&self) -> F {
        self.func
    }

    /// Wrap a function as a transform stage.
    pub fn new(f: F) -> (m: SimpleModule<F>)
        ensures
            m.func_of() == f,
    {
        SimpleModule { func: f }
    }
}

impl<F> Module for SimpleModule<F> where F: Fn(Frame) -> Frame {
    /// The function must accept the frame, and may only ever hand back
    /// well-formed frames.
    open spec fn ready(&self, f: Frame) -> bool {
        &&& call_requires(self.func_of(), (f,))
        &&& forall|x: Frame, y: Frame| #[trigger] call_ensures(self.func_of(), (x,), y) ==> y.wf()
    }

    open spec fn post(&self, input: Frame, output: Frame) -> bool {
        call_ensures(self.func_of(), (input,), output)
    }

    fn process(&self, f: Frame) -> (r: Frame) {
        (self.func)(f)
    }
}

/// A start stage: produces the next frame, or signals the end of the
/// sequence.
pub trait StartModule: Sized {
    /// How many frames have been pulled from this stage so far. A stage
    /// that declares no model of its own does not count its pulls.
    open spec fn pulls(&self) -> nat {
        0
    }

    /// Whether this stage will keep producing forever.
    open spec fn perpetual(&self) -> bool {
        false
    }

    /// Produce the next frame, or `None` once the sequence has ended.
    fn start(&mut self) -> (r: Option<Frame>)
        ensures
            final(self).pulls() == old(self).pulls() + 1,
            r is Some ==> (r->0).wf(),
            old(self).perpetual() ==> r is Some && final(self).perpetual(),
    ;
}

/// A start stage that never ends: every pull yields a fresh empty frame.
pub struct InfiniteSource {
    pulls: Ghost<nat>,
}

impl InfiniteSource {
    /// Create an infinite source.
    pub fn new() -> (s: InfiniteSource)
        ensures
            s.pulls() == 0,
    {
        InfiniteSource { pulls: Ghost(0) }
    }
}

impl StartModule for InfiniteSource {
    closed spec fn pulls(&self) -> nat {
        self.pulls@
    }

    open spec fn perpetual(&self) -> bool {
        true
    }

    fn start(&mut self) -> (r: Option<Frame>)
        ensures
            r is Some && (r->0).local() == Map::<Seq<char>, crate::frame::ValueModel>::empty(),
    {
        proof {
            self.pulls@ = self.pulls@ + 1;
        }
        Some(Frame::new())
    }
}

} // verus!
