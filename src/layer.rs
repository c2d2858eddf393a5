//! A recurrent layer of neurons, stepped synchronously through a fixed
//! number of timesteps while it records the full history of the run.
use vstd::prelude::*;
use crate::fixed::{clamp, saturate, scale_wide, scaled, ONE};
use crate::grid::{at, cols, dims_of, rows, well_shaped, Matrix};
use crate::neuron::{next_potential, spike_of, LeakyIntegrateAndFireNeuron};

verus! {

/// What a [`Layer`] holds, as Verus sees it.
///
/// `weights` is `n` by `n`: element `(i, j)` scales neuron `i`'s spike into
/// neuron `j`'s drive on the next step. `memory`, `spikes_in` and
/// `spikes_out` are `n_steps` by `n`, indexed `[time, neuron]`: the potential,
/// the drive received and the spike emitted.
pub struct LayerView {
    pub neurons: Seq<LeakyIntegrateAndFireNeuron>,
    pub weights: Matrix,
    pub memory: Matrix,
    pub spikes_in: Matrix,
    pub spikes_out: Matrix,
    pub n_steps: nat,
    pub i_step: nat,
}

/// A layer of neurons with fixed recurrent weights and the history buffers
/// of one run.
pub struct Layer {
    neurons: Vec<LeakyIntegrateAndFireNeuron>,
    internal_weights: Matrix,
    memory: Matrix,
    spikes_in: Matrix,
    spikes_out: Matrix,
    n_steps: usize,
    i_step: usize,
}

/// Why a [`Layer`] could not be built.
#[derive(Clone, Copy, Debug, PartialEq, Eq, Structural)]
pub enum LayerError {
    /// The horizon has no timestep at all.
    NoSteps,
    /// The weight matrix is not `n` by `n` for `n` neurons.
    WeightShape,
    /// The spike schedule is not `n_steps` by `n` for `n` neurons.
    ScheduleShape,
}

impl View for Layer {
    type V = LayerView;

    closed spec fn view(&self) -> LayerView {
        LayerView {
            neurons: self.neurons@,
            weights: self.internal_weights,
            memory: self.memory,
            spikes_in: self.spikes_in,
            spikes_out: self.spikes_out,
            n_steps: self.n_steps as nat,
            i_step: self.i_step as nat,
        }
    }
}

/// A matrix of `r` rows and `c` columns whose elements match its shape.
pub open spec fn shaped(m: Matrix, r: nat, c: nat) -> bool {
    dims_of(m) == (r, c) && well_shaped(m)
}

/// The layer's invariant: every buffer has the shape of the run, the cursor
/// lies inside the horizon, and each neuron holds the potential recorded for
/// it at the cursor.
pub open spec fn layer_wf(v: LayerView) -> bool {
    let n = v.neurons.len();
    &&& v.n_steps >= 1
    &&& v.i_step < v.n_steps
    &&& shaped(v.weights, n, n)
    &&& shaped(v.memory, v.n_steps, n)
    &&& shaped(v.spikes_in, v.n_steps, n)
    &&& shaped(v.spikes_out, v.n_steps, n)
    &&& forall|i: int| 0 <= i < n ==> (#[trigger] v.neurons[i]).u == at(v.memory, v.i_step as int, i)
}

/// The exact sum of the spikes of neurons `0 .. k`, each scaled by its
/// weight into neuron `j`.
pub open spec fn contributions(spikes: Seq<i64>, w: Matrix, j: int, k: nat) -> int
    decreases k,
{
    if k == 0 {
        0
    } else {
        contributions(spikes, w, j, (k - 1) as nat) + scaled(spikes[k - 1] as int, at(w, k - 1, j) as int)
    }
}

/// Drive `base` plus the weighted spikes of neurons `0 .. k` into neuron
/// `j`: an exact sum, clamped once, so the order of the neurons does not
/// matter.
pub open spec fn propagated(base: i64, spikes: Seq<i64>, w: Matrix, j: int, k: nat) -> i64 {
    clamp(base + contributions(spikes, w, j, k))
}

/// A spike is `0` or `1.0`, so the weighted spike is `0` or the weight.
proof fn lemma_spike_term(s: i64, x: i64)
    requires
        s == 0 || s == ONE,
    ensures
        s == 0 ==> scaled(s as int, x as int) == 0,
        s == ONE ==> scaled(s as int, x as int) == x,
{
    if s == ONE {
        vstd::arithmetic::div_mod::lemma_div_multiples_vanish(x as int, ONE as int);
    } else {
        assert(s * x == 0);
    }
}

/// Neuron `i` of a layer, holding the potential recorded at time `t`.
pub open spec fn neuron_at(v: LayerView, t: int, i: int) -> LeakyIntegrateAndFireNeuron {
    LeakyIntegrateAndFireNeuron { u: at(v.memory, t, i), ..v.neurons[i] }
}

/// The spikes that the neurons of a layer emit on the step taken at time `t`.
pub open spec fn spikes_at(v: LayerView, t: int) -> Seq<i64> {
    Seq::new(v.neurons.len(), |i: int| spike_of(neuron_at(v, t, i)))
}

/// Row `t + 1` of `v` follows from its row `t` by one synchronous step, the
/// drive of row `t + 1` starting from `seed`'s.
pub open spec fn row_follows(v: LayerView, seed: Matrix, t: int) -> bool {
    let n = v.neurons.len();
    &&& forall|i: int|
        0 <= i < n ==> at(v.memory, t + 1, i) == #[trigger] next_potential(
            neuron_at(v, t, i),
            at(v.spikes_in, t, i),
        )
    &&& forall|i: int| 0 <= i < n ==> #[trigger] at(v.spikes_out, t + 1, i) == spike_of(neuron_at(v, t, i))
    &&& forall|j: int|
        0 <= j < n ==> #[trigger] at(v.spikes_in, t + 1, j) == propagated(
            at(seed, t + 1, j),
            spikes_at(v, t),
            v.weights,
            j,
            n,
        )
}

/// `a` and `b` agree on every element of a `r` by `c` matrix outside row `t`.
pub open spec fn same_outside_row(a: Matrix, b: Matrix, r: nat, c: nat, t: int) -> bool {
    forall|x: int, y: int|
        0 <= x < r && 0 <= y < c && x != t ==> #[trigger] at(a, x, y) == at(b, x, y)
}

/// `a` and `b` agree on rows `lo ..= hi` of `c` columns.
pub open spec fn rows_agree(a: Matrix, b: Matrix, lo: int, hi: int, c: nat) -> bool {
    forall|x: int, y: int| lo <= x <= hi && 0 <= y < c ==> #[trigger] at(a, x, y) == at(b, x, y)
}

/// `a` and `b` agree on rows `lo ..= hi` of all three history buffers.
pub open spec fn history_agrees(a: LayerView, b: LayerView, lo: int, hi: int) -> bool {
    let n = a.neurons.len();
    &&& rows_agree(a.memory, b.memory, lo, hi, n)
    &&& rows_agree(a.spikes_in, b.spikes_in, lo, hi, n)
    &&& rows_agree(a.spikes_out, b.spikes_out, lo, hi, n)
}

/// The same layer parameters: neurons but for their potentials, weights and
/// horizon.
pub open spec fn same_parameters(a: LayerView, b: LayerView) -> bool {
    &&& a.neurons.len() == b.neurons.len()
    &&& a.weights == b.weights
    &&& a.n_steps == b.n_steps
    &&& forall|i: int|
        0 <= i < a.neurons.len() ==> (#[trigger] a.neurons[i]).beta == b.neurons[i].beta
            && a.neurons[i].u_threshold == b.neurons[i].u_threshold && a.neurons[i].u_min
            == b.neurons[i].u_min
}

/// `post` is `pre` advanced by one step: the cursor moves on by one, row
/// `pre.i_step + 1` of each buffer is filled from row `pre.i_step`, and
/// nothing else changes.
pub open spec fn step_relation(pre: LayerView, post: LayerView) -> bool {
    let n = pre.neurons.len();
    let t = pre.i_step as int;
    &&& layer_wf(post)
    &&& same_parameters(pre, post)
    &&& post.i_step == pre.i_step + 1
    &&& row_follows(post, pre.spikes_in, t)
    &&& same_outside_row(post.memory, pre.memory, pre.n_steps, n, t + 1)
    &&& same_outside_row(post.spikes_in, pre.spikes_in, pre.n_steps, n, t + 1)
    &&& same_outside_row(post.spikes_out, pre.spikes_out, pre.n_steps, n, t + 1)
}

/// `post` is `pre` run to the end of its horizon: rows up to the cursor of
/// `pre` are kept, and every later row follows from the one before it by one
/// step, with the drive that `pre` had scheduled for it as the starting point.
pub open spec fn run_relation(pre: LayerView, post: LayerView) -> bool {
    let n = pre.neurons.len();
    &&& layer_wf(post)
    &&& same_parameters(pre, post)
    &&& post.i_step == pre.n_steps - 1
    &&& history_agrees(pre, post, 0, pre.i_step as int)
    &&& forall|t: int| pre.i_step <= t < pre.n_steps - 1 ==> #[trigger] row_follows(post, pre.spikes_in, t)
}

/// Whether `row_follows` holds depends only on the layer's parameters and on
/// rows `t` and `t + 1` of its buffers, and on row `t + 1` of the seed.
proof fn lemma_row_follows_frame(a: LayerView, b: LayerView, seed_a: Matrix, seed_b: Matrix, t: int)
    requires
        row_follows(a, seed_a, t),
        layer_wf(a),
        layer_wf(b),
        same_parameters(a, b),
        0 <= t,
        t + 1 < a.n_steps,
        history_agrees(a, b, t, t + 1),
        rows_agree(seed_a, seed_b, t + 1, t + 1, a.neurons.len()),
    ensures
        row_follows(b, seed_b, t),
{
    let n = a.neurons.len();
    assert forall|i: int| 0 <= i < n implies neuron_at(b, t, i) == neuron_at(a, t, i) by {
        assert(at(b.memory, t, i) == at(a.memory, t, i));
        assert(a.neurons[i].beta == b.neurons[i].beta);
    }
    assert(spikes_at(b, t) =~= spikes_at(a, t));
    assert forall|i: int|
        0 <= i < n implies at(b.memory, t + 1, i) == #[trigger] next_potential(
            neuron_at(b, t, i),
            at(b.spikes_in, t, i),
        ) by {
        assert(at(b.memory, t + 1, i) == at(a.memory, t + 1, i));
        assert(at(b.spikes_in, t, i) == at(a.spikes_in, t, i));
        assert(next_potential(neuron_at(a, t, i), at(a.spikes_in, t, i)) == at(a.memory, t + 1, i));
    }
    assert forall|i: int| 0 <= i < n implies #[trigger] at(b.spikes_out, t + 1, i) == spike_of(
        neuron_at(b, t, i),
    ) by {
        assert(at(b.spikes_out, t + 1, i) == at(a.spikes_out, t + 1, i));
    }
    assert forall|j: int| 0 <= j < n implies #[trigger] at(b.spikes_in, t + 1, j) == propagated(
        at(seed_b, t + 1, j),
        spikes_at(b, t),
        b.weights,
        j,
        n,
    ) by {
        assert(at(b.spikes_in, t + 1, j) == at(a.spikes_in, t + 1, j));
    }
}

/// The layer that [`Layer::new`] builds: row 0 of `memory` holds each
/// neuron's starting potential, every other element of `memory` and
/// `spikes_out` is zero, `spikes_in` is the schedule, and the cursor is 0.
pub open spec fn fresh_layer(
    v: LayerView,
    neurons: Seq<LeakyIntegrateAndFireNeuron>,
    weights: Matrix,
    schedule: Matrix,
    n_steps: nat,
) -> bool {
    let n = neurons.len();
    &&& layer_wf(v)
    &&& v.neurons == neurons
    &&& v.weights == weights
    &&& v.spikes_in == schedule
    &&& v.n_steps == n_steps
    &&& v.i_step == 0
    &&& forall|i: int| 0 <= i < n ==> #[trigger] at(v.memory, 0, i) == neurons[i].u
    &&& forall|x: int, y: int| 1 <= x < n_steps && 0 <= y < n ==> #[trigger] at(v.memory, x, y) == 0
    &&& forall|x: int, y: int| 0 <= x < n_steps && 0 <= y < n ==> #[trigger] at(v.spikes_out, x, y) == 0
}

impl Layer {
    /// A layer of `neurons` with recurrent weights `internal_weights`, ready
    /// to run for `n_steps` timesteps with the drives scheduled in
    /// `spikes_in` (`n_steps` by `n`; injected spikes are its nonzero
    /// elements).
    ///
    /// Fails with `NoSteps` when `n_steps` is 0, else with `WeightShape` when
    /// the weights are not `n` by `n`, else with `ScheduleShape` when the
    /// schedule is not `n_steps` by `n`.
    pub fn new(
        neurons: Vec<LeakyIntegrateAndFireNeuron>,
        internal_weights: Matrix,
        spikes_in: Matrix,
        n_steps: usize,
    ) -> (r: Result<Layer, LayerError>)
        ensures
            n_steps == 0 ==> r == Err::<Layer, LayerError>(LayerError::NoSteps),
            n_steps > 0 && dims_of(internal_weights) != (neurons@.len(), neurons@.len()) ==> r
                == Err::<Layer, LayerError>(LayerError::WeightShape),
            n_steps > 0 && dims_of(internal_weights) == (neurons@.len(), neurons@.len()) && dims_of(
                spikes_in,
            ) != (n_steps as nat, neurons@.len()) ==> r == Err::<Layer, LayerError>(
                LayerError::ScheduleShape,
            ),
            n_steps > 0 && dims_of(internal_weights) == (neurons@.len(), neurons@.len()) && dims_of(
                spikes_in,
            ) == (n_steps as nat, neurons@.len()) ==> r is Ok && fresh_layer(
                r->Ok_0@,
                neurons@,
                internal_weights,
                spikes_in,
                n_steps as nat,
            ),
    {
        let n = neurons.len();
        if n_steps == 0 {
            return Err(LayerError::NoSteps);
        }
        let (wr, wc) = internal_weights.dim();
        if wr != n || wc != n {
            return Err(LayerError::WeightShape);
        }
        let (sr, sc) = spikes_in.dim();
        if sr != n_steps || sc != n {
            return Err(LayerError::ScheduleShape);
        }
        let mut memory = Matrix::zeros(n_steps, n);
        let spikes_out = Matrix::zeros(n_steps, n);
        let mut idx: usize = 0;
        while idx < n
            invariant
                0 <= idx <= n,
                n == neurons@.len(),
                n_steps >= 1,
                shaped(memory, n_steps as nat, n as nat),
                forall|i: int| 0 <= i < idx ==> #[trigger] at(memory, 0, i) == neurons@[i].u,
                forall|x: int, y: int|
                    0 <= x < n_steps && 0 <= y < n && (x != 0 || y >= idx) ==> #[trigger] at(
                        memory,
                        x,
                        y,
                    ) == 0,
            decreases n - idx,
        {
            memory.set(0, idx, neurons[idx].u);
            idx += 1;
        }
        Ok(Layer { neurons, internal_weights, memory, spikes_in, spikes_out, n_steps, i_step: 0 })
    }

    /// The neurons, holding the potentials reached at the cursor.
    pub fn neurons(&self) -> (r: &Vec<LeakyIntegrateAndFireNeuron>)
        ensures
            r@ == self@.neurons,
    {
        &self.neurons
    }

    /// The recurrent weights, `[from, to]`.
    pub fn internal_weights(&self) -> (r: &Matrix)
        ensures
            *r == self@.weights,
    {
        &self.internal_weights
    }

    /// The potential history, `[time, neuron]`.
    pub fn memory(&self) -> (r: &Matrix)
        ensures
            *r == self@.memory,
    {
        &self.memory
    }

    /// The drive history, `[time, neuron]`.
    pub fn spikes_in(&self) -> (r: &Matrix)
        ensures
            *r == self@.spikes_in,
    {
        &self.spikes_in
    }

    /// The spike history, `[time, neuron]`.
    pub fn spikes_out(&self) -> (r: &Matrix)
        ensures
            *r == self@.spikes_out,
    {
        &self.spikes_out
    }

    /// The horizon: the number of rows of each history buffer.
    pub fn n_steps(&self) -> (r: usize)
        ensures
            r == self@.n_steps,
    {
        self.n_steps
    }

    /// The cursor: the last row that has been filled in.
    pub fn i_step(&self) -> (r: usize)
        ensures
            r == self@.i_step,
    {
        self.i_step
    }

    /// The number of neurons.
    pub fn n_neurons(&self) -> (r: usize)
        ensures
            r == self@.neurons.len(),
    {
        self.neurons.len()
    }

    /// Runs the layer to the end of its horizon: steps until the cursor
    /// reaches the last row, `n_steps - 1`. Started on a new layer, it makes
    /// exactly `n_steps - 1` steps and fills rows `1 .. n_steps` of every
    /// buffer.
    pub fn run(&mut self)
        requires
            layer_wf(old(self)@),
        ensures
            run_relation(old(self)@, final(self)@),
    {
        let ghost pre = self@;
        let n = self.neurons.len();
        while self.i_step + 1 < self.n_steps
            invariant
                layer_wf(pre),
                layer_wf(self@),
                n == pre.neurons.len(),
                same_parameters(pre, self@),
                pre.i_step <= self@.i_step,
                history_agrees(pre, self@, 0, pre.i_step as int),
                rows_agree(pre.spikes_in, self@.spikes_in, self@.i_step + 1int, pre.n_steps - 1int, n as nat),
                forall|t: int|
                    pre.i_step <= t < self@.i_step ==> #[trigger] row_follows(self@, pre.spikes_in, t),
            decreases self.n_steps - self.i_step,
        {
            let ghost cur = self@;
            self.step();
            proof {
                let next = self@;
                let c = cur.i_step as int;
                assert forall|t: int| pre.i_step <= t < next.i_step implies #[trigger] row_follows(
                    next,
                    pre.spikes_in,
                    t,
                ) by {
                    if t < c {
                        lemma_row_follows_frame(cur, next, pre.spikes_in, pre.spikes_in, t);
                    } else {
                        lemma_row_follows_frame(next, next, cur.spikes_in, pre.spikes_in, t);
                    }
                }
            }
        }
    }

    /// Advances the run by one timestep, from the cursor `t` to `t + 1`.
    ///
    /// Each neuron steps on its drive `spikes_in[t, i]`; its new potential is
    /// kept and recorded in `memory[t + 1, i]`, its spike in
    /// `spikes_out[t + 1, i]`, and each spike, scaled by `weights[i, j]`, is
    /// added onto `spikes_in[t + 1, j]` on top of what is already there. The
    /// additions into one element are summed exactly and clamped once, so
    /// their order does not matter.
    pub fn step(&mut self)
        requires
            layer_wf(old(self)@),
            old(self)@.i_step + 1 < old(self)@.n_steps,
        ensures
            step_relation(old(self)@, final(self)@),
    {
        let ghost pre = self@;
        let t = self.i_step;
        let n = self.neurons.len();
        let ghost spikes = Seq::new(n as nat, |i: int| spike_of(pre.neurons[i]));
        let mut fired: Vec<i64> = Vec::new();
        let mut idx: usize = 0;
        while idx < n
            invariant
                0 <= idx <= n,
                n == pre.neurons.len(),
                t == pre.i_step,
                t + 1 < pre.n_steps,
                layer_wf(pre),
                spikes == Seq::new(n as nat, |i: int| spike_of(pre.neurons[i])),
                fired@ == spikes.take(idx as int),
                self.neurons@.len() == n,
                self.internal_weights == pre.weights,
                self.spikes_in == pre.spikes_in,
                self.n_steps == pre.n_steps,
                self.i_step == t,
                shaped(self.memory, pre.n_steps, n as nat),
                shaped(self.spikes_out, pre.n_steps, n as nat),
                forall|i: int|
                    0 <= i < idx ==> #[trigger] self.neurons@[i] == (LeakyIntegrateAndFireNeuron {
                        u: next_potential(pre.neurons[i], at(pre.spikes_in, t as int, i)),
                        ..pre.neurons[i]
                    }),
                forall|i: int| idx <= i < n ==> #[trigger] self.neurons@[i] == pre.neurons[i],
                forall|i: int|
                    0 <= i < idx ==> #[trigger] at(self.memory, t + 1, i) == next_potential(
                        pre.neurons[i],
                        at(pre.spikes_in, t as int, i),
                    ),
                forall|i: int|
                    0 <= i < idx ==> #[trigger] at(self.spikes_out, t + 1, i) == spikes[i],
                same_outside_row(self.memory, pre.memory, pre.n_steps, n as nat, t + 1),
                same_outside_row(self.spikes_out, pre.spikes_out, pre.n_steps, n as nat, t + 1),
            decreases n - idx,
        {
            let neuron = self.neurons[idx];
            let drive = self.spikes_in.get(t, idx);
            let (u_next, spike_out) = neuron.step(drive);
            let updated = LeakyIntegrateAndFireNeuron { u: u_next, ..neuron };
            self.neurons.set(idx, updated);
            self.memory.set(t + 1, idx, u_next);
            self.spikes_out.set(t + 1, idx, spike_out);
            fired.push(spike_out);
            proof {
                assert(fired@ =~= spikes.take(idx + 1));
            }
            idx += 1;
        }
        assert(fired@ =~= spikes);
        let ghost mid = self@;
        let mut jdx: usize = 0;
        while jdx < n
            invariant
                0 <= jdx <= n,
                n == pre.neurons.len(),
                n <= isize::MAX,
                t + 1 < pre.n_steps,
                fired@ == spikes,
                spikes.len() == n,
                forall|i: int| 0 <= i < n ==> #[trigger] spikes[i] == 0 || spikes[i] == ONE,
                self.neurons@ == mid.neurons,
                self.memory == mid.memory,
                self.spikes_out == mid.spikes_out,
                self.n_steps == pre.n_steps,
                self.i_step == t,
                self.internal_weights == pre.weights,
                shaped(pre.weights, n as nat, n as nat),
                shaped(self.spikes_in, pre.n_steps, n as nat),
                shaped(pre.spikes_in, pre.n_steps, n as nat),
                forall|j: int|
                    0 <= j < jdx ==> #[trigger] at(self.spikes_in, t + 1, j) == propagated(
                        at(pre.spikes_in, t + 1, j),
                        spikes,
                        pre.weights,
                        j,
                        n as nat,
                    ),
                forall|j: int|
                    jdx <= j < n ==> #[trigger] at(self.spikes_in, t + 1, j) == at(
                        pre.spikes_in,
                        t + 1,
                        j,
                    ),
                same_outside_row(self.spikes_in, pre.spikes_in, pre.n_steps, n as nat, t + 1),
            decreases n - jdx,
        {
            let mut total: i128 = self.spikes_in.get(t + 1, jdx) as i128;
            let ghost base = at(pre.spikes_in, t + 1, jdx as int);
            let mut i: usize = 0;
            while i < n
                invariant
                    0 <= i <= n,
                    jdx < n,
                    n <= isize::MAX,
                    fired@ == spikes,
                    spikes.len() == n,
                    forall|a: int| 0 <= a < n ==> #[trigger] spikes[a] == 0 || spikes[a] == ONE,
                    self.internal_weights == pre.weights,
                    shaped(pre.weights, n as nat, n as nat),
                    total == base + contributions(spikes, pre.weights, jdx as int, i as nat),
                    -(i as int) * 0x8000_0000_0000_0000 <= contributions(spikes, pre.weights, jdx as int, i as nat)
                        <= (i as int) * 0x8000_0000_0000_0000,
                decreases n - i,
            {
                let weight = self.internal_weights.get(i, jdx);
                let spike = fired[i];
                proof {
                    lemma_spike_term(spike, weight);
                }
                total = total + scale_wide(spike, weight);
                i += 1;
            }
            self.spikes_in.set(t + 1, jdx, saturate(total));
            jdx += 1;
        }
        self.i_step = t + 1;
        proof {
            let post = self@;
            assert(spikes_at(post, t as int) =~= spikes);
            assert forall|i: int| 0 <= i < n implies neuron_at(post, t as int, i) == pre.neurons[i] by {
                assert(at(post.memory, t as int, i) == at(pre.memory, t as int, i));
            }
            assert forall|i: int| 0 <= i < n implies (#[trigger] post.neurons[i]).u == at(
                post.memory,
                post.i_step as int,
                i,
            ) by {}
            assert forall|i: int|
                0 <= i < n implies at(post.memory, t + 1, i) == #[trigger] next_potential(
                    neuron_at(post, t as int, i),
                    at(post.spikes_in, t as int, i),
                ) by {
                assert(neuron_at(post, t as int, i) == pre.neurons[i]);
                assert(at(post.spikes_in, t as int, i) == at(pre.spikes_in, t as int, i));
            }
        }
    }
}

} // verus!
