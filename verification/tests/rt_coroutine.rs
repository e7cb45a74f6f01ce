use forge::rt::coroutine::{Body, Gen, GenState, Generator, HandGen, TwoYields, YieldSlot};
use forge::rt::future::Poll;

struct TwoYieldsGen {
    step: u8,
}

impl Body for TwoYieldsGen {
    type Yield = u32;
    type Return = String;

    fn poll(&mut self, slot: &mut YieldSlot<u32>) -> Poll<String> {
        match self.step {
            0 => {
                slot.set(1);
                self.step = 1;
                Poll::Pending
            }
            1 => {
                slot.set(2);
                self.step = 2;
                Poll::Pending
            }
            _ => Poll::Ready("fin".to_string()),
        }
    }
}

fn collect<B: Body>(mut gen: Gen<B>) -> Vec<B::Yield> {
    let mut all = Vec::new();
    while let Some(v) = gen.next() {
        all.push(v);
    }
    all
}

#[test]
fn gen_yields_values_then_completes() {
    let mut gen = Gen::new(|_| TwoYieldsGen { step: 0 });
    assert_eq!(gen.resume(), Some(GenState::Yielded(1)));
    assert_eq!(gen.resume(), Some(GenState::Yielded(2)));
    assert_eq!(gen.resume(), Some(GenState::Complete("fin".to_string())));
    assert_eq!(gen.resume(), None);
    assert_eq!(gen.resume(), None);
}

#[test]
fn handgen_matches_gen_state_machine() {
    let mut g = HandGen::new();
    assert_eq!(g.resume(), Some(GenState::Yielded(1)));
    assert_eq!(g.resume(), Some(GenState::Yielded(2)));
    assert_eq!(g.resume(), Some(GenState::Complete(())));
    assert_eq!(g.resume(), None);
}

#[test]
fn hand_gen_and_gen_stay_in_step() {
    let mut h = HandGen::default();
    let mut g = Gen::new(|_| TwoYields::new());
    for _ in 0..6 {
        assert_eq!(h.resume(), g.resume());
    }
}

struct Count {
    n: u32,
}

impl Body for Count {
    type Yield = u32;
    type Return = ();

    fn poll(&mut self, slot: &mut YieldSlot<u32>) -> Poll<()> {
        if self.n < 3 {
            self.n += 1;
            slot.set(self.n * 10);
            Poll::Pending
        } else {
            Poll::Ready(())
        }
    }
}

#[test]
fn gen_can_be_used_as_iterator() {
    let gen = Gen::new(|_| Count { n: 0 });
    let collected: Vec<u32> = collect(gen);
    assert_eq!(collected, vec![10, 20, 30]);
}

struct Counter {
    n: u32,
}

impl Body for Counter {
    type Yield = u32;
    type Return = u32;

    fn poll(&mut self, slot: &mut YieldSlot<u32>) -> Poll<u32> {
        if self.n < 3 {
            self.n += 1;
            slot.set(self.n);
            Poll::Pending
        } else {
            Poll::Ready(self.n)
        }
    }
}

#[test]
fn gen_then_then_combinator_end_to_end() {
    let mut gen = Gen::new(|_| Counter { n: 0 });
    let mut sum: u32 = 0;
    while let Some(state) = gen.resume() {
        match state {
            GenState::Yielded(v) => sum += v,
            GenState::Complete(fin) => sum += fin,
        }
    }
    assert_eq!(sum, 9);
}

struct LineReader {
    lines: Vec<String>,
    pos: usize,
}

impl Body for LineReader {
    type Yield = String;
    type Return = ();

    fn poll(&mut self, slot: &mut YieldSlot<String>) -> Poll<()> {
        if self.pos < self.lines.len() {
            let line = self.lines[self.pos].clone();
            self.pos += 1;
            slot.set(line);
            Poll::Pending
        } else {
            Poll::Ready(())
        }
    }
}

#[test]
fn gen_streams_lines_one_at_a_time() {
    let data = vec!["first".to_string(), "second".to_string(), "third".to_string()];
    let mut gen = Gen::new(|_| LineReader { lines: data.clone(), pos: 0 });
    assert_eq!(gen.resume(), Some(GenState::Yielded("first".to_string())));
    assert_eq!(gen.resume(), Some(GenState::Yielded("second".to_string())));
    assert_eq!(gen.resume(), Some(GenState::Yielded("third".to_string())));
    assert_eq!(gen.resume(), Some(GenState::Complete(())));
    assert_eq!(gen.resume(), None);
}

#[test]
fn gen_as_iterator_yields_all_lines() {
    let data: Vec<String> = (0..5).map(|i| format!("line-{i}")).collect();
    let gen = Gen::new(|_| LineReader { lines: data.clone(), pos: 0 });
    let collected: Vec<String> = collect(gen);
    assert_eq!(collected, data);
}

struct ImmediatelyDone;

impl Body for ImmediatelyDone {
    type Yield = u32;
    type Return = u32;

    fn poll(&mut self, _slot: &mut YieldSlot<u32>) -> Poll<u32> {
        Poll::Ready(42)
    }
}

#[test]
fn gen_with_no_yields_completes_immediately() {
    let mut gen = Gen::new(|_| ImmediatelyDone);
    assert_eq!(gen.resume(), Some(GenState::Complete(42)));
    assert_eq!(gen.resume(), None);
}

#[test]
fn a_slot_keeps_the_last_value_and_gives_it_once() {
    let mut slot: YieldSlot<u8> = YieldSlot { inner: None };
    slot.set(1);
    slot.set(2);
    assert_eq!(slot.take(), Some(2));
    assert_eq!(slot.take(), None);
}

#[test]
fn a_generator_has_its_body_made_once_and_polls_it_only_when_resumed() {
    let mut made = 0;
    let mut gen = Gen::new(|slot| {
        made += 1;
        assert_eq!(slot.take(), None);
        Count { n: 0 }
    });
    assert_eq!(gen.body.n, 0);
    assert_eq!(gen.resume(), Some(GenState::Yielded(10)));
    assert_eq!(made, 1);
}

struct Silent;

impl Body for Silent {
    type Yield = u32;
    type Return = ();

    fn poll(&mut self, slot: &mut YieldSlot<u32>) -> Poll<()> {
        if slot.inner.is_some() {
            Poll::Pending
        } else {
            Poll::Ready(())
        }
    }
}

#[test]
fn what_the_factory_leaves_in_the_slot_is_yielded_first() {
    let mut gen = Gen::new(|slot| {
        slot.set(7);
        Silent
    });
    assert_eq!(gen.resume(), Some(GenState::Yielded(7)));
    assert_eq!(gen.resume(), Some(GenState::Complete(())));
    assert_eq!(gen.resume(), None);
}
