use std::cell::RefCell;
use std::rc::Rc;
use synth_core::dsp::schedule::{AudioGraph, Processor, Sample};

#[derive(Clone, Copy, Debug, PartialEq)]
struct Mono(f32);

impl Sample for Mono {
    fn spec_mix(self, other: Self) -> Self {
        self.mix(other)
    }

    fn spec_zero() -> Self {
        Self::zero()
    }

    fn zero() -> Self {
        Mono(0.0)
    }

    fn mix(self, other: Self) -> Self {
        Mono(self.0 + other.0)
    }
}

type Log = Rc<RefCell<Vec<Vec<f32>>>>;

/// Records the buffer it is given, then writes `emit` (if any) into every
/// voice, or else leaves the buffer as it is. Keeps one value per voice, set
/// from the voice's frequency, when `per_voice` is on.
struct Node {
    log: Log,
    emit: Option<f32>,
    per_voice: bool,
    voices: Vec<f32>,
}

impl Node {
    fn new(log: &Log, emit: Option<f32>) -> Self {
        Node { log: log.clone(), emit, per_voice: false, voices: Vec::new() }
    }

    fn oscillator(log: &Log) -> Self {
        Node { log: log.clone(), emit: None, per_voice: true, voices: Vec::new() }
    }
}

impl Processor<Mono> for Node {
    type Frequency = f32;

    fn spec_output(&self, voice: usize, input: Mono) -> Mono {
        if self.per_voice {
            Mono(self.voices[voice])
        } else if let Some(v) = self.emit {
            Mono(v)
        } else {
            input
        }
    }

    fn add_voice(&mut self, norm_freq: f32) {
        self.voices.push(norm_freq);
    }

    fn remove_voice(&mut self, voice_idx: usize) {
        self.voices.swap_remove(voice_idx);
    }

    fn process(&mut self, inputs: &mut [Mono]) {
        self.log.borrow_mut().push(inputs.iter().map(|m| m.0).collect());
        for (k, x) in inputs.iter_mut().enumerate() {
            if self.per_voice {
                *x = Mono(self.voices[k]);
            } else if let Some(v) = self.emit {
                *x = Mono(v);
            }
        }
    }
}

fn log() -> Log {
    Rc::new(RefCell::new(Vec::new()))
}

#[test]
fn sink_adds_into_host_buffer() {
    let l = log();
    let mut graph: AudioGraph<Node, Mono> = AudioGraph::default();
    graph.push(Node::new(&l, Some(0.5)), vec![]);
    graph.add_voice(0.01);
    graph.add_voice(0.02);
    let mut host = [Mono(1.0), Mono(2.0)];
    graph.process(&mut host);
    assert_eq!(host, [Mono(1.5), Mono(2.5)]);
}

#[test]
fn feedback_block_ordering() {
    // A emits 1.0 into B, B into C, and C feeds back into A.
    let (la, lb, lc) = (log(), log(), log());
    let mut graph: AudioGraph<Node, Mono> = AudioGraph::default();
    graph.push(Node::new(&la, Some(1.0)), vec![1]);
    graph.push(Node::new(&lb, None), vec![2]);
    graph.push(Node::new(&lc, None), vec![0]);
    graph.add_voice(0.1);
    let mut host = [Mono(0.0)];
    graph.process(&mut host);
    // C receives A's 1.0 within the same block; A saw nothing yet.
    assert_eq!(*lc.borrow(), vec![vec![1.0]]);
    assert_eq!(*la.borrow(), vec![vec![0.0]]);
    graph.process(&mut host);
    // In the next block A reads its own last output plus C's 1.0.
    assert_eq!(la.borrow()[1], vec![2.0]);
    // No node is a sink.
    assert_eq!(host, [Mono(0.0)]);
}

#[test]
fn feedback_value_is_one_block_late() {
    let (la, lb) = (log(), log());
    let mut graph: AudioGraph<Node, Mono> = AudioGraph::default();
    // A passes its input on to B; B emits 3.0 back into A and is heard.
    graph.push(Node::new(&la, None), vec![1]);
    graph.push(Node::new(&lb, Some(3.0)), vec![0]);
    graph.add_voice(0.1);
    let mut host = [Mono(0.0)];
    graph.process(&mut host);
    graph.process(&mut host);
    assert_eq!(*la.borrow(), vec![vec![0.0], vec![3.0]]);
}

#[test]
fn add_voice_appends_silence() {
    let l = log();
    let mut graph: AudioGraph<Node, Mono> = AudioGraph::default();
    graph.push(Node::new(&l, None), vec![]);
    graph.add_voice(0.1);
    graph.add_voice(0.2);
    let mut host = [Mono(0.0); 2];
    graph.process(&mut host);
    assert_eq!(*l.borrow(), vec![vec![0.0, 0.0]]);
}

#[test]
fn voice_swap_remove() {
    let (lo, lp) = (log(), log());
    let mut graph: AudioGraph<Node, Mono> = AudioGraph::default();
    // The oscillator writes each voice's value into the pass-through sink,
    // whose buffer is never cleared.
    graph.push(Node::oscillator(&lo), vec![1]);
    graph.push(Node::new(&lp, None), vec![]);
    graph.add_voice(1.0);
    graph.add_voice(2.0);
    graph.add_voice(3.0);
    let mut host = [Mono(0.0); 3];
    graph.process(&mut host);
    assert_eq!(host, [Mono(1.0), Mono(2.0), Mono(3.0)]);
    graph.remove_voice(0);
    let mut host = [Mono(0.0); 2];
    graph.process(&mut host);
    // The last voice took slot 0 in the carried-over buffer; slot 1 kept its voice.
    assert_eq!(host, [Mono(6.0), Mono(4.0)]);
}

/// Writes its fixed value into every voice.
struct Fixed(i32);

impl Processor<i32> for Fixed {
    type Frequency = u32;
    fn spec_output(&self, _voice: usize, _input: i32) -> i32 {
        self.0
    }
    fn add_voice(&mut self, _norm_freq: u32) {}
    fn remove_voice(&mut self, _voice_idx: usize) {}
    fn process(&mut self, inputs: &mut [i32]) {
        for x in inputs.iter_mut() {
            *x = self.0;
        }
    }
}

#[test]
fn fixed_point_samples_saturate() {
    let mut graph: AudioGraph<Fixed, i32> = AudioGraph::default();
    graph.push(Fixed(i32::MAX - 5), vec![]);
    graph.push(Fixed(100), vec![]);
    graph.add_voice(1);
    let mut host = [0i32];
    graph.process(&mut host);
    assert_eq!(host, [i32::MAX]);
    let mut low = [i32::MIN + 1];
    let mut graph2: AudioGraph<Fixed, i32> = AudioGraph::default();
    graph2.push(Fixed(-7), vec![]);
    graph2.add_voice(1);
    graph2.process(&mut low);
    assert_eq!(low, [i32::MIN]);
}

/// Leaves its summed input as its output.
struct Pass;

impl Processor<i32> for Pass {
    type Frequency = u32;
    fn spec_output(&self, _voice: usize, input: i32) -> i32 {
        input
    }
    fn add_voice(&mut self, _norm_freq: u32) {}
    fn remove_voice(&mut self, _voice_idx: usize) {}
    fn process(&mut self, _inputs: &mut [i32]) {}
}

enum Fx {
    Fixed(Fixed),
    Pass(Pass),
}

impl Processor<i32> for Fx {
    type Frequency = u32;
    fn spec_output(&self, voice: usize, input: i32) -> i32 {
        match self {
            Fx::Fixed(f) => f.spec_output(voice, input),
            Fx::Pass(p) => p.spec_output(voice, input),
        }
    }
    fn add_voice(&mut self, _norm_freq: u32) {}
    fn remove_voice(&mut self, _voice_idx: usize) {}
    fn process(&mut self, inputs: &mut [i32]) {
        match self {
            Fx::Fixed(f) => f.process(inputs),
            Fx::Pass(p) => p.process(inputs),
        }
    }
}

#[test]
fn fan_out_sums_each_edge() {
    // Two sources feed one pass-through sink, which hands the sum to the host.
    let mut graph: AudioGraph<Fx, i32> = AudioGraph::default();
    graph.push(Fx::Fixed(Fixed(3)), vec![2]);
    graph.push(Fx::Fixed(Fixed(4)), vec![2]);
    graph.push(Fx::Pass(Pass), vec![]);
    graph.add_voice(1);
    graph.add_voice(2);
    let mut host = [1, 10];
    graph.process(&mut host);
    assert_eq!(host, [8, 17]);
    assert_eq!(synth_core::dsp::schedule::MAX_VOICES, 16);
}

#[test]
fn schedules_nest() {
    let mut inner: AudioGraph<Fixed, i32> = AudioGraph::default();
    inner.push(Fixed(5), vec![]);
    let mut outer: AudioGraph<AudioGraph<Fixed, i32>, i32> = AudioGraph::default();
    outer.push(inner, vec![]);
    outer.add_voice(1);
    outer.add_voice(2);
    let mut host = [1, 2];
    outer.process(&mut host);
    // The inner sink adds 5 into the outer node's silent buffer, which the
    // outer sink then adds into the host buffer.
    assert_eq!(host, [6, 7]);
}

#[test]
fn nested_schedule_refuses_voice_beyond_capacity() {
    let mut inner: AudioGraph<Fixed, i32> = AudioGraph::default();
    inner.push(Fixed(1), vec![]);
    for _ in 0..16 {
        Processor::add_voice(&mut inner, 0);
    }
    Processor::add_voice(&mut inner, 0);
    let mut buf = [0i32; 17];
    Processor::process(&mut inner, &mut buf);
    // Sixteen voices were taken; the seventeenth slot was left alone.
    assert_eq!(&buf[..16], &[1; 16]);
    assert_eq!(buf[16], 0);
}
