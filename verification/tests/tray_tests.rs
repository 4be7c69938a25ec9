use std::cell::RefCell;
use std::rc::Rc;

use icetray::{Frame, InfiniteSource, Module, SimpleModule, StartModule, Tray};

/// A transform stage that appends its label to a shared log.
struct LabelStage {
    label: &'static str,
    log: Rc<RefCell<Vec<&'static str>>>,
}

impl Module for LabelStage {
    fn process(&self, f: Frame) -> Frame {
        self.log.borrow_mut().push(self.label);
        f
    }
}

/// A stage that either writes a value into the frame, or reads the value
/// an earlier stage wrote into a shared cell.
struct PipeStage {
    produce: bool,
    seen: Rc<RefCell<Vec<u8>>>,
}

impl Module for PipeStage {
    fn process(&self, mut f: Frame) -> Frame {
        if self.produce {
            f.set("x", 42u8);
        } else {
            self.seen.borrow_mut().push(*f.get::<u8>("x").unwrap());
        }
        f
    }
}

/// A start stage that produces a fixed number of frames, then ends.
struct FiniteSource {
    remaining: u8,
}

impl StartModule for FiniteSource {
    fn start(&mut self) -> Option<Frame> {
        if self.remaining == 0 {
            None
        } else {
            self.remaining -= 1;
            let mut f = Frame::new();
            f.set("left", self.remaining);
            Some(f)
        }
    }
}

#[test]
fn run_bounded_executes_exactly_k_times() {
    let log = Rc::new(RefCell::new(Vec::new()));
    let mut tray = Tray::new(InfiniteSource::new());
    tray.add(LabelStage { label: "S", log: Rc::clone(&log) });
    let count = tray.run_bounded(5);
    assert_eq!(count, 5);
    assert_eq!(log.borrow().len(), 5);
}

#[test]
fn run_bounded_zero_does_nothing() {
    let log = Rc::new(RefCell::new(Vec::new()));
    let mut tray = Tray::new(InfiniteSource::new());
    tray.add(LabelStage { label: "S", log: Rc::clone(&log) });
    assert_eq!(tray.run_bounded(0), 0);
    assert_eq!(log.borrow().len(), 0);
}

#[test]
fn pipeline_order_is_registration_order() {
    let log = Rc::new(RefCell::new(Vec::new()));
    let mut tray = Tray::new(InfiniteSource::new());
    tray.add(LabelStage { label: "S1", log: Rc::clone(&log) });
    tray.add(LabelStage { label: "S2", log: Rc::clone(&log) });
    tray.add(LabelStage { label: "S3", log: Rc::clone(&log) });
    tray.run_bounded(2);
    assert_eq!(*log.borrow(), vec!["S1", "S2", "S3", "S1", "S2", "S3"]);
}

#[test]
fn finite_source_stops_the_run() {
    let log = Rc::new(RefCell::new(Vec::new()));
    let mut tray = Tray::new(FiniteSource { remaining: 2 });
    tray.add(LabelStage { label: "S", log: Rc::clone(&log) });
    let count = tray.run_bounded(10);
    assert_eq!(count, 2);
    assert_eq!(log.borrow().len(), 2);
}

#[test]
fn run_drains_a_finite_source() {
    let log = Rc::new(RefCell::new(Vec::new()));
    let mut tray = Tray::new(FiniteSource { remaining: 3 });
    tray.add(LabelStage { label: "S", log: Rc::clone(&log) });
    let count = tray.run();
    assert_eq!(count, 3);
    assert_eq!(log.borrow().len(), 3);
}

fn tag_frame(mut f: Frame) -> Frame {
    f.set("tag", 1u8);
    f
}

#[test]
fn add_fn_wraps_a_plain_function() {
    let mut tray = Tray::new(FiniteSource { remaining: 1 });
    tray.add_fn(tag_frame as fn(Frame) -> Frame);
    assert_eq!(tray.run_bounded(4), 1);
}

#[test]
fn simple_module_forwards_to_its_function() {
    let module = SimpleModule::new(tag_frame as fn(Frame) -> Frame);
    let out = module.process(Frame::new());
    assert_eq!(*out.get::<u8>("tag").unwrap(), 1u8);
}

#[test]
fn frames_carry_data_between_stages() {
    let seen = Rc::new(RefCell::new(Vec::new()));
    let mut tray = Tray::new(InfiniteSource::new());
    tray.add(PipeStage { produce: true, seen: Rc::clone(&seen) });
    tray.add(PipeStage { produce: false, seen: Rc::clone(&seen) });
    tray.run_bounded(2);
    assert_eq!(*seen.borrow(), vec![42u8, 42u8]);
}
