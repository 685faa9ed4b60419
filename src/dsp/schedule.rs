use vstd::prelude::*;

verus! {

/// Most voices a node's buffer holds.
pub const MAX_VOICES: usize = 16;

/// A per-voice value that flows along the edges of the schedule.
pub trait Sample: Copy {
    /// The value that `mix` returns. Outside verified code it is never
    /// called; implement it there as `self.mix(other)`.
    spec fn spec_mix(self, other: Self) -> Self;

    /// The value that `zero` returns. Outside verified code implement it as
    /// `Self::zero()`.
    spec fn spec_zero() -> Self;

    /// The silent value.
    fn zero() -> (r: Self)
        ensures
            r == Self::spec_zero(),
    ;

    /// The sum of two contributions: a function of the two values alone.
    fn mix(self, other: Self) -> (r: Self)
        ensures
            r == self.spec_mix(other),
    ;
}

/// Fixed-point samples: contributions add up, saturating at the bounds.
impl Sample for i32 {
    open spec fn spec_mix(self, other: i32) -> i32 {
        let s = self + other;
        if s > i32::MAX {
            i32::MAX
        } else if s < i32::MIN {
            i32::MIN
        } else {
            s as i32
        }
    }

    open spec fn spec_zero() -> i32 {
        0
    }

    fn zero() -> (r: i32) {
        0
    }

    fn mix(self, other: i32) -> (r: i32) {
        let s = self as i64 + other as i64;
        if s > i32::MAX as i64 {
            i32::MAX
        } else if s < i32::MIN as i64 {
            i32::MIN
        } else {
            s as i32
        }
    }
}

/// `a` with `b` added voice by voice.
pub open spec fn mix_all<S: Sample>(a: Seq<S>, b: Seq<S>) -> Seq<S> {
    Seq::new(a.len(), |k: int| a[k].spec_mix(b[k]))
}

/// The buffers after node `i` has added its buffer into those of its first
/// `x` successors `succ`, one after the other.
pub open spec fn fan_out<S: Sample>(bufs: Seq<Seq<S>>, i: int, succ: Seq<usize>, x: int) -> Seq<
    Seq<S>,
>
    decreases x,
{
    if x <= 0 {
        bufs
    } else {
        let b = fan_out(bufs, i, succ, x - 1);
        let j = succ[x - 1] as int;
        b.update(j, mix_all(b[j], b[i]))
    }
}

/// The host buffer after a sink has added `out` into it.
pub open spec fn sink_out<S: Sample>(inputs: Seq<S>, out: Seq<S>) -> Seq<S> {
    Seq::new(
        inputs.len(),
        |k: int|
            if k < out.len() {
                inputs[k].spec_mix(out[k])
            } else {
                inputs[k]
            },
    )
}

/// The node buffers and the host buffer once the first `m` nodes of a block
/// have run, node `i` having produced `outs[i]`: each node overwrites its own
/// buffer with its output, then a node without successors adds it into the
/// host buffer, and any other adds it into each successor's buffer.
pub open spec fn run<S: Sample>(
    bufs: Seq<Seq<S>>,
    inputs: Seq<S>,
    outs: Seq<Seq<S>>,
    edges: Seq<Seq<usize>>,
    m: int,
) -> (Seq<Seq<S>>, Seq<S>)
    decreases m,
{
    if m <= 0 {
        (bufs, inputs)
    } else {
        let prev = run(bufs, inputs, outs, edges, m - 1);
        let i = m - 1;
        let b = prev.0.update(i, outs[i]);
        let inp = if edges[i].len() == 0 {
            sink_out(prev.1, outs[i])
        } else {
            prev.1
        };
        (fan_out(b, i, edges[i], edges[i].len() as int), inp)
    }
}

/// A participant of the schedule, processing per-voice values of type `S`.
pub trait Processor<S> {
    /// What a new voice is started with: its normalized frequency.
    type Frequency: Copy;

    /// What this processor, in its present state, writes for voice `voice`
    /// when that voice's input is `input`. Outside verified code it is never
    /// called; implement it there as the processor's per-voice output rule.
    spec fn spec_output(&self, voice: usize, input: S) -> S;

    /// Allocates state for one more voice.
    fn add_voice(&mut self, norm_freq: Self::Frequency);

    /// Releases the state of voice `voice_idx`; the last voice takes its place.
    fn remove_voice(&mut self, voice_idx: usize);

    /// Consumes the summed inputs in `inputs` and overwrites them with this
    /// node's outputs, one per voice.
    fn process(&mut self, inputs: &mut [S])
        ensures
            final(inputs)@.len() == old(inputs)@.len(),
            forall|k: int|
                0 <= k < old(inputs)@.len() ==> #[trigger] final(inputs)@[k] == old(self).spec_output(
                    k as usize,
                    old(inputs)@[k],
                ),
    ;
}

/// The outputs of `p` for the per-voice inputs `inputs`.
pub open spec fn outputs<P: Processor<S>, S>(p: P, inputs: Seq<S>) -> Seq<S> {
    Seq::new(inputs.len(), |k: int| p.spec_output(k as usize, inputs[k]))
}

/// An entry of the schedule: a processor and its per-voice buffer.
pub struct AudioGraphNode<P, S> {
    processor: P,
    sample_buffer: Vec<S>,
}

impl<P, S> AudioGraphNode<P, S> {
    pub closed spec fn spec_processor(self) -> P {
        self.processor
    }

    pub closed spec fn spec_buffer(self) -> Seq<S> {
        self.sample_buffer@
    }

    /// An entry with an empty buffer.
    pub fn from(processor: P) -> (r: Self)
        ensures
            r.spec_processor() == processor,
            r.spec_buffer() == Seq::<S>::empty(),
    {
        Self { processor, sample_buffer: Vec::new() }
    }
}

impl<P: Processor<S>, S: Sample> AudioGraphNode<P, S> {
    /// Runs the processor on the buffer, which then holds its outputs.
    pub fn process(&mut self)
        ensures
            final(self).spec_buffer() == outputs(old(self).spec_processor(), old(self).spec_buffer()),
    {
        self.processor.process(self.sample_buffer.as_mut_slice());
        proof {
            assert(self.sample_buffer@ =~= outputs(old(self).spec_processor(), old(self).spec_buffer()));
        }
    }

    /// Adds the buffer into `inputs`, voice by voice, as far as both reach.
    pub fn output_to_buffer(&mut self, inputs: &mut [S])
        ensures
            *final(self) == *old(self),
            final(inputs)@ == sink_out(old(inputs)@, old(self).spec_buffer()),
    {
        let n = if self.sample_buffer.len() < inputs.len() {
            self.sample_buffer.len()
        } else {
            inputs.len()
        };
        let ghost inputs0 = inputs@;
        let mut k: usize = 0;
        while k < n
            invariant
                n <= self.sample_buffer@.len(),
                n <= inputs0.len(),
                n == self.sample_buffer@.len() || n == inputs0.len(),
                0 <= k <= n,
                inputs@.len() == inputs0.len(),
                forall|q: int|
                    0 <= q < inputs0.len() ==> #[trigger] inputs@[q] == if q < k {
                        inputs0[q].spec_mix(self.sample_buffer@[q])
                    } else {
                        inputs0[q]
                    },
            decreases n - k,
        {
            inputs[k] = inputs[k].mix(self.sample_buffer[k]);
            k = k + 1;
        }
        proof {
            assert(inputs@ =~= sink_out(inputs0, self.sample_buffer@));
        }
    }
}

/// The processing schedule: entries in processing order, each with the
/// indices of its successors. An index not above the entry's own denotes a
/// feedback edge, whose contribution is read in the next block.
pub struct AudioGraph<P, S> {
    nodes: Vec<AudioGraphNode<P, S>>,
    edges: Vec<Vec<usize>>,
}

impl<P, S> Default for AudioGraph<P, S> {
    /// An empty schedule.
    fn default() -> (r: Self)
        ensures
            r.wf(),
            r.spec_nodes().len() == 0,
    {
        AudioGraph { nodes: Vec::new(), edges: Vec::new() }
    }
}

impl<P, S> AudioGraph<P, S> {
    pub closed spec fn spec_nodes(self) -> Seq<AudioGraphNode<P, S>> {
        self.nodes@
    }

    pub closed spec fn spec_edges(self) -> Seq<Seq<usize>> {
        Seq::new(self.edges@.len(), |i: int| self.edges@[i]@)
    }

    /// The per-voice buffers of the entries.
    pub open spec fn buffers(self) -> Seq<Seq<S>> {
        Seq::new(self.spec_nodes().len(), |i: int| self.spec_nodes()[i].spec_buffer())
    }

    /// Number of voices: the length of every buffer.
    pub open spec fn voices(self) -> nat {
        if self.spec_nodes().len() == 0 {
            0
        } else {
            self.spec_nodes()[0].spec_buffer().len()
        }
    }

    /// Every successor index names an entry, and all buffers hold one value
    /// per voice.
    pub open spec fn wf(self) -> bool {
        &&& self.spec_edges().len() == self.spec_nodes().len()
        &&& forall|i: int, x: int|
            0 <= i < self.spec_edges().len() && 0 <= x < self.spec_edges()[i].len()
                ==> #[trigger] self.spec_edges()[i][x] < self.spec_nodes().len()
        &&& forall|i: int|
            0 <= i < self.spec_nodes().len() ==> (#[trigger] self.spec_nodes()[i]).spec_buffer().len()
                == self.voices()
    }

    /// Appends an entry for `processor` with the given successors and an
    /// empty buffer.
    pub fn push(&mut self, processor: P, successors: Vec<usize>)
        ensures
            final(self).spec_nodes() == old(self).spec_nodes().push(final(self).spec_nodes().last()),
            final(self).spec_nodes().last().spec_processor() == processor,
            final(self).spec_nodes().last().spec_buffer() == Seq::<S>::empty(),
            final(self).spec_edges() == old(self).spec_edges().push(successors@),
    {
        self.nodes.push(AudioGraphNode::from(processor));
        self.edges.push(successors);
        proof {
            assert(self.spec_edges() =~= old(self).spec_edges().push(successors@));
        }
    }
}

impl<P: Processor<S>, S: Sample> AudioGraph<P, S> {
    /// Gives every entry one more voice, with a silent buffer value, and
    /// starts the voice in every processor.
    pub fn add_voice(&mut self, norm_freq: P::Frequency)
        requires
            old(self).wf(),
            old(self).voices() < MAX_VOICES,
        ensures
            final(self).wf(),
            final(self).spec_edges() == old(self).spec_edges(),
            final(self).spec_nodes().len() == old(self).spec_nodes().len(),
            forall|i: int|
                0 <= i < old(self).spec_nodes().len() ==> #[trigger] final(self).buffers()[i]
                    == old(self).buffers()[i].push(S::spec_zero()),
    {
        let z = S::zero();
        let n = self.nodes.len();
        let mut i: usize = 0;
        while i < n
            invariant
                n == self.nodes@.len(),
                0 <= i <= n,
                self.edges == old(self).edges,
                old(self).wf(),
                forall|p: int|
                    0 <= p < n ==> #[trigger] self.nodes@[p].spec_buffer() == if p < i {
                        old(self).buffers()[p].push(z)
                    } else {
                        old(self).buffers()[p]
                    },
            decreases n - i,
        {
            let ghost before = self.nodes@;
            self.nodes[i].sample_buffer.push(z);
            let ghost mid = self.nodes@;
            self.nodes[i].processor.add_voice(norm_freq);
            proof {
                assert(mid[i as int].spec_buffer() == before[i as int].spec_buffer().push(z));
                assert(self.nodes@[i as int].spec_buffer() == mid[i as int].spec_buffer());
                assert(old(self).buffers()[i as int] == before[i as int].spec_buffer());
                assert forall|p: int| 0 <= p < n && p != i implies #[trigger] self.nodes@[p] == before[p] by {}
            }
            i = i + 1;
        }
        proof {
            if n > 0 {
                assert(self.voices() == old(self).voices() + 1);
            }
        }
    }

    /// Removes voice `voice_idx` from every entry: in each buffer the last
    /// voice takes its place, and each processor is told to do the same.
    pub fn remove_voice(&mut self, voice_idx: usize)
        requires
            old(self).wf(),
            voice_idx < old(self).voices(),
        ensures
            final(self).wf(),
            final(self).spec_edges() == old(self).spec_edges(),
            final(self).spec_nodes().len() == old(self).spec_nodes().len(),
            forall|i: int|
                0 <= i < old(self).spec_nodes().len() ==> #[trigger] final(self).buffers()[i]
                    == old(self).buffers()[i].update(
                    voice_idx as int,
                    old(self).buffers()[i].last(),
                ).drop_last(),
    {
        let n = self.nodes.len();
        let mut i: usize = 0;
        while i < n
            invariant
                n == self.nodes@.len(),
                0 <= i <= n,
                self.edges == old(self).edges,
                old(self).wf(),
                n == old(self).spec_nodes().len(),
                voice_idx < old(self).voices(),
                forall|p: int|
                    0 <= p < n ==> #[trigger] self.nodes@[p].spec_buffer() == if p < i {
                        old(self).buffers()[p].update(voice_idx as int, old(self).buffers()[p].last()).drop_last()
                    } else {
                        old(self).buffers()[p]
                    },
            decreases n - i,
        {
            let ghost before = self.nodes@;
            proof {
                assert(old(self).buffers()[i as int] == before[i as int].spec_buffer());
                assert(old(self).spec_nodes()[i as int].spec_buffer().len() == old(self).voices());
            }
            let _ = self.nodes[i].sample_buffer.swap_remove(voice_idx);
            let ghost mid = self.nodes@;
            self.nodes[i].processor.remove_voice(voice_idx);
            proof {
                assert(mid[i as int].spec_buffer() == before[i as int].spec_buffer().update(voice_idx as int, before[i as int].spec_buffer().last()).drop_last());
                assert(self.nodes@[i as int].spec_buffer() == mid[i as int].spec_buffer());
                assert forall|p: int| 0 <= p < n && p != i implies #[trigger] self.nodes@[p] == before[p] by {}
            }
            i = i + 1;
        }
        proof {
            if n > 0 {
                assert(self.voices() + 1 == old(self).voices());
            }
        }
    }

    /// Runs one block: each entry in order processes its buffer, then a
    /// sink adds its output into `inputs` and any other entry adds it into
    /// the buffers of its successors. Buffers are not cleared, so what an
    /// entry adds into an earlier one is read in the next block.
    pub fn process(&mut self, inputs: &mut [S])
        requires
            old(self).wf(),
        ensures
            final(self).wf(),
            final(self).spec_edges() == old(self).spec_edges(),
            final(self).voices() == old(self).voices(),
            exists|outs: Seq<Seq<S>>|
                {
                    &&& outs.len() == old(self).spec_nodes().len()
                    &&& (final(self).buffers(), final(inputs)@) == run(
                        old(self).buffers(),
                        old(inputs)@,
                        outs,
                        old(self).spec_edges(),
                        old(self).spec_nodes().len() as int,
                    )
                    &&& forall|j: int|
                        0 <= j < outs.len() ==> #[trigger] outs[j] == outputs(
                            old(self).spec_nodes()[j].spec_processor(),
                            run(old(self).buffers(), old(inputs)@, outs, old(self).spec_edges(), j).0[j],
                        )
                },
    {
        let ghost bufs0 = self.buffers();
        let ghost inputs0 = inputs@;
        let ghost edges = self.spec_edges();
        let ghost voices = self.voices();
        let ghost mut outs: Seq<Seq<S>> = Seq::empty();
        let n = self.nodes.len();
        let mut i: usize = 0;
        while i < n
            invariant
                n == self.nodes@.len(),
                n == old(self).spec_nodes().len(),
                self.edges == old(self).edges,
                old(self).wf(),
                edges == old(self).spec_edges(),
                bufs0 == old(self).buffers(),
                voices == old(self).voices(),
                0 <= i <= n,
                outs.len() == i,
                forall|p: int| 0 <= p < n ==> (#[trigger] self.nodes@[p]).spec_buffer().len() == voices,
                (self.buffers(), inputs@) == run(bufs0, inputs0, outs, edges, i as int),
                forall|p: int|
                    i <= p < n ==> (#[trigger] self.nodes@[p]).spec_processor()
                        == old(self).spec_nodes()[p].spec_processor(),
                forall|p: int|
                    0 <= p < i ==> #[trigger] outs[p] == outputs(
                        old(self).spec_nodes()[p].spec_processor(),
                        run(bufs0, inputs0, outs, edges, p).0[p],
                    ),
            decreases n - i,
        {
            let ghost before = self.buffers();
            let ghost nodes_before = self.nodes@;
            let ghost inp_before = inputs@;
            self.nodes[i].process();
            proof {
                let outs_old = outs;
                outs = outs.push(self.nodes@[i as int].spec_buffer());
                assert(outs.drop_last() =~= outs_old);
                assert forall|p: int| 0 <= p < i + 1 implies #[trigger] outs[p] == outputs(
                    old(self).spec_nodes()[p].spec_processor(),
                    run(bufs0, inputs0, outs, edges, p).0[p],
                ) by {
                    assert(outs.take(p) =~= outs_old.take(p));
                    lemma_run_prefix(bufs0, inputs0, outs, outs_old, edges, p);
                    if p < i {
                        assert(outs[p] == outs_old[p]);
                    } else {
                        assert(outs_old.take(i as int) =~= outs_old);
                        assert(before[i as int] == nodes_before[i as int].spec_buffer());
                    }
                }
                assert forall|p: int| 0 <= p < n && p != i implies #[trigger] self.nodes@[p] == nodes_before[p] by {}
                assert(self.buffers() =~= before.update(i as int, outs[i as int]));
                assert(outs.take(i as int) =~= outs.drop_last().take(i as int));
                lemma_run_prefix(bufs0, inputs0, outs, outs.drop_last(), edges, i as int);
                assert(before == run(bufs0, inputs0, outs, edges, i as int).0);
                assert(inp_before == run(bufs0, inputs0, outs, edges, i as int).1);
            }
            if self.edges[i].len() == 0 {
                self.nodes[i].output_to_buffer(inputs);
            }
            let m = self.edges[i].len();
            let mut x: usize = 0;
            while x < m
                invariant
                    n == self.nodes@.len(),
                    n == old(self).spec_nodes().len(),
                    self.edges == old(self).edges,
                    old(self).wf(),
                    edges == old(self).spec_edges(),
                    voices == old(self).voices(),
                    0 <= i < n,
                    m == edges[i as int].len(),
                    0 <= x <= m,
                    outs.len() == i + 1,
                    forall|p: int|
                        i < p < n ==> (#[trigger] self.nodes@[p]).spec_processor()
                            == old(self).spec_nodes()[p].spec_processor(),
                    forall|p: int| 0 <= p < n ==> (#[trigger] self.nodes@[p]).spec_buffer().len() == voices,
                    self.buffers() == fan_out(before.update(i as int, outs[i as int]), i as int, edges[i as int], x as int),
                    inputs@ == if edges[i as int].len() == 0 {
                        sink_out(inp_before, outs[i as int])
                    } else {
                        inp_before
                    },
                decreases m - x,
            {
                let j = self.edges[i][x];
                proof {
                    assert(edges[i as int][x as int] == j);
                }
                let len = self.nodes[i].sample_buffer.len();
                let ghost b = self.buffers();
                let mut k: usize = 0;
                while k < len
                    invariant
                        self.edges == old(self).edges,
                        n == self.nodes@.len(),
                        forall|p: int|
                            i < p < n ==> (#[trigger] self.nodes@[p]).spec_processor()
                                == old(self).spec_nodes()[p].spec_processor(),
                        n == old(self).spec_nodes().len(),
                        i < n,
                        j < n,
                        len == voices,
                        0 <= k <= len,
                        b.len() == n,
                        forall|p: int| 0 <= p < n ==> (#[trigger] b[p]).len() == voices,
                        forall|p: int| 0 <= p < n && p != j ==> #[trigger] self.nodes@[p].spec_buffer() == b[p],
                        self.nodes@[j as int].spec_buffer().len() == voices,
                        self.nodes@[i as int].spec_buffer().len() == voices,
                        forall|q: int| 0 <= q < voices ==> #[trigger] self.nodes@[j as int].spec_buffer()[q] == if q < k {
                            b[j as int][q].spec_mix(b[i as int][q])
                        } else {
                            b[j as int][q]
                        },
                    decreases len - k,
                {
                    let sample = self.nodes[i].sample_buffer[k];
                    let cur = self.nodes[j].sample_buffer[k];
                    let ghost nb = self.nodes@;
                    proof {
                        if i != j {
                            assert(self.nodes@[i as int].spec_buffer() == b[i as int]);
                        }
                        assert(sample == b[i as int][k as int]);
                        assert(cur == b[j as int][k as int]);
                    }
                    let mixed = cur.mix(sample);
                    self.nodes[j].sample_buffer[k] = mixed;
                    proof {
                        assert(self.nodes@[j as int].spec_buffer() == nb[j as int].spec_buffer().update(k as int, mixed));
                        assert forall|p: int| 0 <= p < n && p != j implies #[trigger] self.nodes@[p] == nb[p] by {}
                        assert(self.nodes@[j as int].spec_processor() == nb[j as int].spec_processor());
                    }
                    k = k + 1;
                }
                proof {
                    assert(self.nodes@[j as int].spec_buffer() =~= mix_all(b[j as int], b[i as int]));
                    assert(self.buffers() =~= b.update(j as int, mix_all(b[j as int], b[i as int])));
                    assert(fan_out(before.update(i as int, outs[i as int]), i as int, edges[i as int], x + 1)
                        == b.update(j as int, mix_all(b[j as int], b[i as int])));
                }
                x = x + 1;
            }
            proof {
                let r = run(bufs0, inputs0, outs, edges, (i + 1) as int);
                assert(r.0 == fan_out(before.update(i as int, outs[i as int]), i as int, edges[i as int], edges[i as int].len() as int));
                assert(r.1 == inputs@);
            }
            i = i + 1;
        }
        proof {
            if n > 0 {
                assert(self.spec_nodes()[0].spec_buffer().len() == voices);
            }
        }
    }
}

impl<P, S> AudioGraph<P, S> {
    /// Whether the schedule is well formed (see `wf`).
    pub fn is_well_formed(&self) -> (r: bool)
        ensures
            r == self.wf(),
    {
        let n = self.nodes.len();
        if self.edges.len() != n {
            return false;
        }
        if n == 0 {
            return true;
        }
        let voices = self.nodes[0].sample_buffer.len();
        let mut i: usize = 0;
        while i < n
            invariant
                n == self.nodes@.len(),
                n == self.edges@.len(),
                n > 0,
                voices == self.voices(),
                0 <= i <= n,
                forall|p: int, x: int|
                    0 <= p < i && 0 <= x < self.spec_edges()[p].len() ==> #[trigger] self.spec_edges()[p][x]
                        < n,
                forall|p: int| 0 <= p < i ==> (#[trigger] self.spec_nodes()[p]).spec_buffer().len() == voices,
            decreases n - i,
        {
            if self.nodes[i].sample_buffer.len() != voices {
                return false;
            }
            let m = self.edges[i].len();
            let mut x: usize = 0;
            while x < m
                invariant
                    n == self.nodes@.len(),
                    n == self.edges@.len(),
                    0 <= i < n,
                    m == self.spec_edges()[i as int].len(),
                    0 <= x <= m,
                    forall|y: int| 0 <= y < x ==> #[trigger] self.spec_edges()[i as int][y] < n,
                decreases m - x,
            {
                if self.edges[i][x] >= n {
                    return false;
                }
                x = x + 1;
            }
            i = i + 1;
        }
        true
    }
}

/// A schedule is itself a processor, so that schedules nest: it adds the
/// outputs of its sinks into the buffer it is given. A schedule that is not
/// well formed, or a voice that it cannot take, leaves it as it is.
impl<P: Processor<S>, S: Sample> Processor<S> for AudioGraph<P, S> {
    type Frequency = P::Frequency;

    open spec fn spec_output(&self, voice: usize, input: S) -> S {
        if self.wf() {
            host_at(*self, voice as int, input, self.spec_nodes().len() as int)
        } else {
            input
        }
    }

    fn add_voice(&mut self, norm_freq: P::Frequency) {
        if self.is_well_formed() && self.nodes.len() > 0 && self.nodes[0].sample_buffer.len() < MAX_VOICES {
            AudioGraph::add_voice(self, norm_freq);
        }
    }

    fn remove_voice(&mut self, voice_idx: usize) {
        if self.is_well_formed() && self.nodes.len() > 0 && voice_idx < self.nodes[0].sample_buffer.len() {
            AudioGraph::remove_voice(self, voice_idx);
        }
    }

    fn process(&mut self, inputs: &mut [S]) {
        if self.is_well_formed() {
            let ghost g = *self;
            let len = inputs.len();
            AudioGraph::process(self, inputs);
            proof {
                let outs = choose|outs: Seq<Seq<S>>|
                    {
                        &&& outs.len() == g.spec_nodes().len()
                        &&& (self.buffers(), inputs@) == run(
                            g.buffers(),
                            old(inputs)@,
                            outs,
                            g.spec_edges(),
                            g.spec_nodes().len() as int,
                        )
                        &&& forall|j: int|
                            0 <= j < outs.len() ==> #[trigger] outs[j] == outputs(
                                g.spec_nodes()[j].spec_processor(),
                                run(g.buffers(), old(inputs)@, outs, g.spec_edges(), j).0[j],
                            )
                    };
                let n = g.spec_nodes().len() as int;
                lemma_outs_unique(g, old(inputs)@, outs, n);
                assert(outs.take(n) =~= outs);
                assert(outs == block_outs(g, n));
                assert(inputs@ == run(g.buffers(), old(inputs)@, block_outs(g, n), g.spec_edges(), n).1);
                lemma_run_host(g, old(inputs)@, 0, n);
                assert forall|k: int| 0 <= k < old(inputs)@.len() implies #[trigger] inputs@[k]
                    == g.spec_output(k as usize, old(inputs)@[k]) by {
                    lemma_run_host(g, old(inputs)@, k, n);
                    assert(k < len);
                }
            }
        }
    }
}

/// The outputs of the first `m` entries of `g` in one block: each processor
/// is given the buffer that `run` hands it. The entries' buffers do not
/// depend on the host buffer, so an empty one stands for it.
pub open spec fn block_outs<P: Processor<S>, S: Sample>(g: AudioGraph<P, S>, m: int) -> Seq<Seq<S>>
    decreases m,
{
    if m <= 0 {
        Seq::empty()
    } else {
        let o = block_outs(g, m - 1);
        o.push(
            outputs(
                g.spec_nodes()[m - 1].spec_processor(),
                run(g.buffers(), Seq::empty(), o, g.spec_edges(), m - 1).0[m - 1],
            ),
        )
    }
}

/// Voice `voice` of the host buffer after the first `m` entries of a block
/// of `g` have run, starting from `input`: each sink adds its output there.
pub open spec fn host_at<P: Processor<S>, S: Sample>(
    g: AudioGraph<P, S>,
    voice: int,
    input: S,
    m: int,
) -> S
    decreases m,
{
    if m <= 0 {
        input
    } else {
        let h = host_at(g, voice, input, m - 1);
        let out = block_outs(g, g.spec_nodes().len() as int)[m - 1];
        if g.spec_edges()[m - 1].len() == 0 && voice < out.len() {
            h.spec_mix(out[voice])
        } else {
            h
        }
    }
}

/// The entries' buffers in `run` never depend on the host buffer.
proof fn lemma_run_buffers_ignore_inputs<S: Sample>(
    bufs: Seq<Seq<S>>,
    inputs1: Seq<S>,
    inputs2: Seq<S>,
    outs: Seq<Seq<S>>,
    edges: Seq<Seq<usize>>,
    m: int,
)
    ensures
        run(bufs, inputs1, outs, edges, m).0 == run(bufs, inputs2, outs, edges, m).0,
    decreases m,
{
    if m > 0 {
        lemma_run_buffers_ignore_inputs(bufs, inputs1, inputs2, outs, edges, m - 1);
    }
}

/// The outputs that `process` reports are those of `block_outs`.
proof fn lemma_outs_unique<P: Processor<S>, S: Sample>(
    g: AudioGraph<P, S>,
    inputs: Seq<S>,
    outs: Seq<Seq<S>>,
    m: int,
)
    requires
        0 <= m <= outs.len(),
        outs.len() == g.spec_nodes().len(),
        forall|j: int|
            0 <= j < outs.len() ==> #[trigger] outs[j] == outputs(
                g.spec_nodes()[j].spec_processor(),
                run(g.buffers(), inputs, outs, g.spec_edges(), j).0[j],
            ),
    ensures
        outs.take(m) == block_outs(g, m),
    decreases m,
{
    if m > 0 {
        lemma_outs_unique(g, inputs, outs, m - 1);
        let o = block_outs(g, m - 1);
        assert(outs.take(m - 1) =~= o.take(m - 1));
        lemma_run_prefix(g.buffers(), inputs, outs, o, g.spec_edges(), m - 1);
        lemma_run_buffers_ignore_inputs(g.buffers(), inputs, Seq::empty(), o, g.spec_edges(), m - 1);
        assert(outs.take(m) =~= outs.take(m - 1).push(outs[m - 1]));
    }
}

/// In `run`, voice `k` of the host buffer is `host_at` of its input.
proof fn lemma_run_host<P: Processor<S>, S: Sample>(
    g: AudioGraph<P, S>,
    inputs: Seq<S>,
    k: int,
    m: int,
)
    requires
        0 <= k,
        0 <= m <= g.spec_nodes().len(),
    ensures
        run(g.buffers(), inputs, block_outs(g, g.spec_nodes().len() as int), g.spec_edges(), m).1.len()
            == inputs.len(),
        k < inputs.len() ==> run(
            g.buffers(),
            inputs,
            block_outs(g, g.spec_nodes().len() as int),
            g.spec_edges(),
            m,
        ).1[k] == host_at(g, k, inputs[k], m),
    decreases m,
{
    if m > 0 {
        lemma_run_host(g, inputs, k, m - 1);
    }
}

/// Feedback latency: the buffer that entry `j` processes in a block,
/// `run(bufs, inputs, outs, edges, j).0[j]`, is the same whatever the entries
/// from `j` on produce in that block. So what a later entry `i >= j` sends to
/// `j` over a feedback edge is not seen in the block that computes it; it
/// stays in `j`'s buffer, which `process` carries over, and is read in the
/// next block.
pub proof fn lemma_feedback_arrives_next_block<S: Sample>(
    bufs: Seq<Seq<S>>,
    inputs: Seq<S>,
    outs: Seq<Seq<S>>,
    other_outs: Seq<Seq<S>>,
    edges: Seq<Seq<usize>>,
    j: int,
)
    requires
        0 <= j < bufs.len(),
        outs.len() == bufs.len(),
        other_outs.len() == bufs.len(),
        forall|i: int| 0 <= i < j ==> #[trigger] outs[i] == other_outs[i],
    ensures
        run(bufs, inputs, outs, edges, j).0[j] == run(bufs, inputs, other_outs, edges, j).0[j],
{
    assert(outs.take(j) =~= other_outs.take(j));
    lemma_run_prefix(bufs, inputs, outs, other_outs, edges, j);
}

/// An entry that is fed by feedback edges only processes, in a block,
/// exactly the buffer that the previous block left behind: its own last
/// output with what the later entries added into it.
pub proof fn lemma_feedback_only_input<S: Sample>(
    bufs: Seq<Seq<S>>,
    inputs: Seq<S>,
    outs: Seq<Seq<S>>,
    edges: Seq<Seq<usize>>,
    j: int,
)
    requires
        0 <= j < bufs.len(),
        outs.len() == bufs.len(),
        edges.len() == bufs.len(),
        forall|i: int, x: int|
            0 <= i < edges.len() && 0 <= x < edges[i].len() ==> (#[trigger] edges[i][x]) < bufs.len(),
        forall|i: int| 0 <= i < j ==> !(#[trigger] edges[i]).contains(j as usize),
    ensures
        run(bufs, inputs, outs, edges, j).0[j] == bufs[j],
{
    lemma_run_untouched(bufs, inputs, outs, edges, j, j);
}

proof fn lemma_run_untouched<S: Sample>(
    bufs: Seq<Seq<S>>,
    inputs: Seq<S>,
    outs: Seq<Seq<S>>,
    edges: Seq<Seq<usize>>,
    j: int,
    m: int,
)
    requires
        0 <= m <= j < bufs.len(),
        outs.len() == bufs.len(),
        edges.len() == bufs.len(),
        forall|i: int, x: int|
            0 <= i < edges.len() && 0 <= x < edges[i].len() ==> (#[trigger] edges[i][x]) < bufs.len(),
        forall|i: int| 0 <= i < j ==> !(#[trigger] edges[i]).contains(j as usize),
    ensures
        run(bufs, inputs, outs, edges, m).0.len() == bufs.len(),
        run(bufs, inputs, outs, edges, m).0[j] == bufs[j],
    decreases m,
{
    if m > 0 {
        lemma_run_untouched(bufs, inputs, outs, edges, j, m - 1);
        let prev = run(bufs, inputs, outs, edges, m - 1);
        let i = m - 1;
        let b = prev.0.update(i, outs[i]);
        lemma_fan_out_untouched(b, i, edges[i], edges[i].len() as int, j);
    }
}

proof fn lemma_fan_out_untouched<S: Sample>(bufs: Seq<Seq<S>>, i: int, succ: Seq<usize>, x: int, j: int)
    requires
        0 <= x <= succ.len(),
        0 <= j < bufs.len(),
        j != i,
        !succ.contains(j as usize),
        forall|y: int| 0 <= y < succ.len() ==> (#[trigger] succ[y]) < bufs.len(),
    ensures
        fan_out(bufs, i, succ, x).len() == bufs.len(),
        fan_out(bufs, i, succ, x)[j] == bufs[j],
    decreases x,
{
    if x > 0 {
        lemma_fan_out_untouched(bufs, i, succ, x - 1, j);
        assert(succ[x - 1] != j as usize);
    }
}

/// `run` over the first `m` nodes reads only the outputs of those nodes.
pub proof fn lemma_run_prefix<S: Sample>(
    bufs: Seq<Seq<S>>,
    inputs: Seq<S>,
    outs1: Seq<Seq<S>>,
    outs2: Seq<Seq<S>>,
    edges: Seq<Seq<usize>>,
    m: int,
)
    requires
        0 <= m <= outs1.len(),
        m <= outs2.len(),
        outs1.take(m) == outs2.take(m),
    ensures
        run(bufs, inputs, outs1, edges, m) == run(bufs, inputs, outs2, edges, m),
    decreases m,
{
    if m > 0 {
        assert(outs1.take(m - 1) == outs2.take(m - 1)) by {
            assert(outs1.take(m - 1) =~= outs1.take(m).take(m - 1));
            assert(outs2.take(m - 1) =~= outs2.take(m).take(m - 1));
        }
        assert(outs1[m - 1] == outs1.take(m)[m - 1]);
        assert(outs2[m - 1] == outs2.take(m)[m - 1]);
        lemma_run_prefix(bufs, inputs, outs1, outs2, edges, m - 1);
    }
}

} // verus!
