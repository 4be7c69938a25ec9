//! The pipeline runner.
//!
//! A tray owns one start stage and an ordered, append-only list of
//! transform stages. Each run iteration pulls one frame from the start
//! stage and threads it through every transform stage in registration
//! order; the final frame is discarded (persisting it is a stage's job).

use vstd::prelude::*;
use crate::frame::Frame;
use crate::module::{Module, SimpleModule, StartModule};

verus! {

/// Whether `links` is a valid record of one frame's trip through `mods`:
/// `links[i]` enters stage `i`, which may produce `links[i + 1]`. The
/// stages act in exactly their listed order.
pub open spec fn chain_ok<M: Module>(mods: Seq<M>, links: Seq<Frame>) -> bool {
    forall|i: int| 0 <= i < mods.len() ==> #[trigger] mods[i].post(links[i], links[i + 1])
}

/// Every stage in the list accepts every well-formed frame.
pub open spec fn stages_ready<M: Module>(mods: Seq<M>) -> bool {
    forall|i: int, f: Frame| 0 <= i < mods.len() && f.wf() ==> #[trigger] mods[i].ready(f)
}

/// The pipeline runner: one start stage, plus transform stages in the
/// order they were registered.
pub struct Tray<S: StartModule, M: Module> {
    start_module: S,
    modules: Vec<M>,
}

impl<S: StartModule, M: Module> Tray<S, M> {
    /// The start stage.
    pub closed spec fn start_of(&self) -> S {
        self.start_module
    }

    /// The transform stages, in registration order.
    pub closed spec fn modules_of(&self) -> Seq<M> {
        self.modules@
    }

    /// Create a tray around a start stage, with no transform stages yet.
    pub fn new(s: S) -> (t: Tray<S, M>)
        ensures
            t.start_of() == s,
            t.modules_of() == Seq::<M>::empty(),
    {
        Tray { start_module: s, modules: Vec::new() }
    }

    /// Register a transform stage after those already registered.
    pub fn add(&mut self, m: M)
        ensures
            final(self).start_of() == old(self).start_of(),
            final(self).modules_of() == old(self).modules_of().push(m),
    {
        self.modules.push(m);
    }

    /// Thread one frame through every stage, in registration order.
    pub fn process_frame(&self, frame: Frame) -> (r: Frame)
        requires
            frame.wf(),
            stages_ready(self.modules_of()),
        ensures
            r.wf(),
            exists|links: Seq<Frame>|
                {
                    &&& links.len() == self.modules_of().len() + 1
                    &&& links.first() == frame
                    &&& links.last() == r
                    &&& chain_ok(self.modules_of(), links)
                },
    {
        let ghost f0 = frame;
        let ghost mods = self.modules@;
        let ghost links: Seq<Frame> = seq![frame];
        let mut cur = frame;
        let mut i: usize = 0;
        while i < self.modules.len()
            invariant
                stages_ready(mods),
                mods == self.modules@,
                i <= mods.len(),
                links.len() == i + 1,
                links.first() == f0,
                links.last() == cur,
                cur.wf(),
                chain_ok(mods.take(i as int), links),
            decreases mods.len() - i,
        {
            proof {
                assert(mods[i as int].ready(cur));
            }
            cur = self.modules[i].process(cur);
            proof {
                links = links.push(cur);
            }
            i += 1;
        }
        proof {
            assert(mods.take(mods.len() as int) =~= mods);
        }
        cur
    }

    /// Run the tray for up to `num` frames.
    ///
    /// Each iteration pulls one frame from the start stage; if the stage
    /// signals exhaustion the run stops at once, otherwise the frame goes
    /// through every transform stage in order and its final form is
    /// discarded. Returns how many frames were processed; a start stage
    /// that never ends makes that exactly `num`.
    pub fn run_bounded(&mut self, num: u64) -> (count: u64)
        requires
            stages_ready(old(self).modules_of()),
        ensures
            count <= num,
            final(self).modules_of() == old(self).modules_of(),
            count == num ==> final(self).start_of().pulls() == old(self).start_of().pulls()
                + count,
            count < num ==> final(self).start_of().pulls() == old(self).start_of().pulls() + count
                + 1,
            old(self).start_of().perpetual() ==> count == num,
    {
        let mut count: u64 = 0;
        while count < num
            invariant
                count <= num,
                self.modules@ == old(self).modules@,
                stages_ready(self.modules@),
                self.start_module.pulls() == old(self).start_module.pulls() + count,
                old(self).start_module.perpetual() ==> self.start_module.perpetual(),
            decreases num - count,
        {
            match self.start_module.start() {
                Some(f) => {
                    let _threaded = self.process_frame(f);
                    count = count + 1;
                },
                None => {
                    return count;
                },
            }
        }
        count
    }

    /// Run the tray until the start stage is exhausted.
    ///
    /// Equivalent to a run bounded only by the largest possible count.
    pub fn run(&mut self) -> (count: u64)
        requires
            stages_ready(old(self).modules_of()),
        ensures
            final(self).modules_of() == old(self).modules_of(),
            count == u64::MAX ==> final(self).start_of().pulls() == old(self).start_of().pulls()
                + count,
            count < u64::MAX ==> final(self).start_of().pulls() == old(self).start_of().pulls()
                + count + 1,
            old(self).start_of().perpetual() ==> count == u64::MAX,
    {
        self.run_bounded(u64::MAX)
    }
}

impl<S: StartModule, F> Tray<S, SimpleModule<F>> where F: Fn(Frame) -> Frame {
    /// Register a plain function as a transform stage.
    pub fn add_fn(&mut self, m: F)
        ensures
            final(self).start_of() == old(self).start_of(),
            final(self).modules_of().len() == old(self).modules_of().len() + 1,
            final(self).modules_of().drop_last() == old(self).modules_of(),
            final(self).modules_of().last().func_of() == m,
    {
        self.add(SimpleModule::new(m));
        proof {
            assert(self.modules_of().drop_last() =~= old(self).modules_of());
        }
    }
}

} // verus!
