//! Facts about whole runs of a layer, proved from the contracts of
//! `Layer::run` and `LeakyIntegrateAndFireNeuron::step`.
use vstd::prelude::*;
use crate::fixed::{clamp, scaled, ONE};
use crate::grid::{at, Matrix};
use crate::layer::{
    history_agrees, layer_wf, neuron_at, propagated, rows_agree, row_follows, run_relation,
    same_parameters, spikes_at, step_relation, LayerView,
};
use crate::neuron::{fires, next_potential, spike_of};

verus! {

/// Every weight of an `n` by `n` matrix is zero.
pub open spec fn all_zero(w: Matrix, n: nat) -> bool {
    forall|a: int, b: int| 0 <= a < n && 0 <= b < n ==> #[trigger] at(w, a, b) == 0
}

/// Every weight of an `n` by `n` matrix is at least zero.
pub open spec fn all_nonnegative(w: Matrix, n: nat) -> bool {
    forall|a: int, b: int| 0 <= a < n && 0 <= b < n ==> #[trigger] at(w, a, b) >= 0
}

/// With no weight into neuron `j`, propagation leaves its drive as it was.
pub proof fn lemma_zero_weights_propagate_nothing(base: i64, spikes: Seq<i64>, w: Matrix, j: int, k: nat)
    requires
        forall|a: int| 0 <= a < k ==> #[trigger] at(w, a, j) == 0,
    ensures
        propagated(base, spikes, w, j, k) == base,
    decreases k,
{
    if k > 0 {
        lemma_zero_weights_propagate_nothing(base, spikes, w, j, (k - 1) as nat);
        assert(at(w, k - 1, j) == 0);
        assert(spikes[k - 1] as int * 0 == 0);
    }
}

/// With nonnegative spikes and weights into neuron `j`, propagation never
/// lowers its drive.
pub proof fn lemma_nonnegative_weights_only_add(base: i64, spikes: Seq<i64>, w: Matrix, j: int, k: nat)
    requires
        k <= spikes.len(),
        forall|a: int| 0 <= a < k ==> #[trigger] at(w, a, j) >= 0,
        forall|a: int| 0 <= a < k ==> #[trigger] spikes[a] >= 0,
    ensures
        propagated(base, spikes, w, j, k) >= base,
    decreases k,
{
    if k > 0 {
        lemma_nonnegative_weights_only_add(base, spikes, w, j, (k - 1) as nat);
        let s = spikes[k - 1] as int;
        let x = at(w, k - 1, j) as int;
        assert(s * x >= 0) by (nonlinear_arith)
            requires
                s >= 0,
                x >= 0,
        ;
        vstd::arithmetic::div_mod::lemma_div_pos_is_pos(s * x, ONE as int);
    }
}

/// A decay factor in `(0, 1]` moves a potential toward zero without
/// crossing it.
pub proof fn lemma_decay_shrinks(beta: int, u: int)
    requires
        0 < beta <= ONE,
    ensures
        u >= 0 ==> 0 <= scaled(beta, u) <= u,
        u < 0 ==> u <= scaled(beta, u) < 0,
{
    let p = beta * u;
    vstd::arithmetic::div_mod::lemma_fundamental_div_mod(p, ONE as int);
    vstd::arithmetic::div_mod::lemma_mod_bound(p, ONE as int);
    if u >= 0 {
        assert(0 <= p <= ONE * u) by (nonlinear_arith)
            requires
                0 < beta <= ONE,
                u >= 0,
                p == beta * u,
        ;
    } else {
        assert(ONE * u <= p <= -1) by (nonlinear_arith)
            requires
                0 < beta <= ONE,
                u < 0,
                p == beta * u,
        ;
    }
}

/// With every weight zero, a run leaves the drive history exactly as it was
/// scheduled: propagation adds nothing to injected spikes and removes none of
/// them.
pub proof fn lemma_isolated_run_keeps_schedule(pre: LayerView, post: LayerView)
    requires
        layer_wf(pre),
        run_relation(pre, post),
        all_zero(pre.weights, pre.neurons.len()),
    ensures
        rows_agree(post.spikes_in, pre.spikes_in, 0, pre.n_steps - 1, pre.neurons.len()),
{
    let n = pre.neurons.len();
    assert forall|x: int, y: int| 0 <= x <= pre.n_steps - 1 && 0 <= y < n implies #[trigger] at(
        post.spikes_in,
        x,
        y,
    ) == at(pre.spikes_in, x, y) by {
        if x <= pre.i_step {
            assert(rows_agree(pre.spikes_in, post.spikes_in, 0, pre.i_step as int, n));
        } else {
            assert(row_follows(post, pre.spikes_in, x - 1));
            assert(post.weights == pre.weights);
            assert(post.neurons.len() == n);
            assert(at(post.spikes_in, (x - 1) + 1, y) == propagated(
                at(pre.spikes_in, (x - 1) + 1, y),
                spikes_at(post, x - 1),
                post.weights,
                y,
                n,
            ));
            assert forall|a: int| 0 <= a < n implies #[trigger] at(post.weights, a, y) == 0 by {}
            lemma_zero_weights_propagate_nothing(at(pre.spikes_in, x, y), spikes_at(post, x - 1), post.weights, y, n);
        }
    }
}

/// With every weight at least zero, a run never lowers a scheduled drive:
/// each element of the drive history ends at or above its scheduled value.
pub proof fn lemma_run_only_adds_drive(pre: LayerView, post: LayerView)
    requires
        layer_wf(pre),
        run_relation(pre, post),
        all_nonnegative(pre.weights, pre.neurons.len()),
    ensures
        forall|x: int, y: int|
            0 <= x < pre.n_steps && 0 <= y < pre.neurons.len() ==> #[trigger] at(post.spikes_in, x, y) >= at(
                pre.spikes_in,
                x,
                y,
            ),
{
    let n = pre.neurons.len();
    assert forall|x: int, y: int| 0 <= x < pre.n_steps && 0 <= y < n implies #[trigger] at(
        post.spikes_in,
        x,
        y,
    ) >= at(pre.spikes_in, x, y) by {
        if x <= pre.i_step {
            assert(rows_agree(pre.spikes_in, post.spikes_in, 0, pre.i_step as int, n));
        } else {
            assert(row_follows(post, pre.spikes_in, x - 1));
            assert(post.weights == pre.weights);
            assert(post.neurons.len() == n);
            let spikes = spikes_at(post, x - 1);
            assert(at(post.spikes_in, (x - 1) + 1, y) == propagated(
                at(pre.spikes_in, (x - 1) + 1, y),
                spikes,
                post.weights,
                y,
                n,
            ));
            assert forall|a: int| 0 <= a < n implies #[trigger] at(post.weights, a, y) >= 0 by {}
            assert forall|a: int| 0 <= a < n implies #[trigger] spikes[a] >= 0 by {}
            lemma_nonnegative_weights_only_add(at(pre.spikes_in, x, y), spikes, post.weights, y, n);
        }
    }
}

/// A neuron that receives no drive at all (no weights, nothing scheduled)
/// and starts below a threshold of at least zero never fires: on every step
/// its potential is multiplied by its decay factor in `(0, 1]`, so it moves
/// toward zero and never grows in magnitude.
pub proof fn lemma_isolated_neuron_decays(pre: LayerView, post: LayerView, i: int)
    requires
        layer_wf(pre),
        run_relation(pre, post),
        pre.i_step == 0,
        0 <= i < pre.neurons.len(),
        all_zero(pre.weights, pre.neurons.len()),
        forall|t: int| 0 <= t < pre.n_steps ==> #[trigger] at(pre.spikes_in, t, i) == 0,
        0 < pre.neurons[i].beta <= ONE,
        0 <= pre.neurons[i].u_threshold,
        pre.neurons[i].u < pre.neurons[i].u_threshold,
    ensures
        forall|t: int|
            0 <= t < pre.n_steps - 1 ==> {
                let u = at(post.memory, t, i) as int;
                let v = at(post.memory, t + 1, i) as int;
                &&& #[trigger] at(post.spikes_out, t + 1, i) == 0
                &&& v == scaled(pre.neurons[i].beta as int, u)
                &&& (u >= 0 ==> 0 <= v <= u)
                &&& (u < 0 ==> u <= v < 0)
            },
{
    let n = pre.neurons.len();
    let beta = pre.neurons[i].beta as int;
    let thr = pre.neurons[i].u_threshold as int;
    lemma_isolated_run_keeps_schedule(pre, post);
    assert(at(post.memory, 0, i) == pre.neurons[i].u);
    assert forall|t: int| 0 <= t < pre.n_steps - 1 implies {
        let u = at(post.memory, t, i) as int;
        let v = at(post.memory, t + 1, i) as int;
        &&& #[trigger] at(post.spikes_out, t + 1, i) == 0
        &&& v == scaled(beta, u)
        &&& (u >= 0 ==> 0 <= v <= u)
        &&& (u < 0 ==> u <= v < 0)
    } by {
        lemma_below_threshold_forever(pre, post, i, t);
    }
}

/// The induction behind `lemma_isolated_neuron_decays`: up to step `t` the
/// neuron stays below its threshold and decays at each step.
proof fn lemma_below_threshold_forever(pre: LayerView, post: LayerView, i: int, t: int)
    requires
        layer_wf(pre),
        run_relation(pre, post),
        pre.i_step == 0,
        0 <= i < pre.neurons.len(),
        rows_agree(post.spikes_in, pre.spikes_in, 0, pre.n_steps - 1, pre.neurons.len()),
        forall|s: int| 0 <= s < pre.n_steps ==> #[trigger] at(pre.spikes_in, s, i) == 0,
        0 < pre.neurons[i].beta <= ONE,
        0 <= pre.neurons[i].u_threshold,
        pre.neurons[i].u < pre.neurons[i].u_threshold,
        0 <= t < pre.n_steps - 1,
    ensures
        at(post.memory, t, i) < pre.neurons[i].u_threshold,
        at(post.memory, t + 1, i) < pre.neurons[i].u_threshold,
        at(post.spikes_out, t + 1, i) == 0,
        at(post.memory, t + 1, i) == scaled(pre.neurons[i].beta as int, at(post.memory, t, i) as int),
        at(post.memory, t, i) >= 0 ==> 0 <= at(post.memory, t + 1, i) <= at(post.memory, t, i),
        at(post.memory, t, i) < 0 ==> at(post.memory, t, i) <= at(post.memory, t + 1, i) < 0,
    decreases t,
{
    let n = pre.neurons.len();
    if t > 0 {
        lemma_below_threshold_forever(pre, post, i, t - 1);
    } else {
        assert(at(post.memory, 0, i) == at(pre.memory, 0, i));
    }
    assert(row_follows(post, pre.spikes_in, t));
    let u = at(post.memory, t, i);
    let nt = crate::layer::neuron_at(post, t, i);
    assert(nt.beta == pre.neurons[i].beta && nt.u_threshold == pre.neurons[i].u_threshold);
    assert(!fires(nt));
    assert(at(post.spikes_in, t, i) == 0);
    lemma_decay_shrinks(nt.beta as int, u as int);
    assert(next_potential(nt, 0) == clamp(scaled(nt.beta as int, u as int)));
    assert(spike_of(nt) == 0);
}

/// Two layers with the same parameters that agree on row `t` (potentials and
/// drives), and whose rows `t + 1` both follow from row `t` with the same
/// seeded drives, agree on row `t + 1` of every history buffer.
proof fn lemma_next_rows_agree(a: LayerView, b: LayerView, seed_a: Matrix, seed_b: Matrix, t: int)
    requires
        layer_wf(a),
        layer_wf(b),
        same_parameters(a, b),
        0 <= t,
        t + 1 < a.n_steps,
        row_follows(a, seed_a, t),
        row_follows(b, seed_b, t),
        rows_agree(a.memory, b.memory, t, t, a.neurons.len()),
        rows_agree(a.spikes_in, b.spikes_in, t, t, a.neurons.len()),
        rows_agree(seed_a, seed_b, t + 1, t + 1, a.neurons.len()),
    ensures
        history_agrees(a, b, t + 1, t + 1),
{
    let n = a.neurons.len();
    assert forall|i: int| 0 <= i < n implies neuron_at(a, t, i) == neuron_at(b, t, i) by {
        assert(at(a.memory, t, i) == at(b.memory, t, i));
        assert(a.neurons[i].beta == b.neurons[i].beta);
    }
    assert(spikes_at(a, t) =~= spikes_at(b, t));
    assert forall|x: int, y: int| t + 1 <= x <= t + 1 && 0 <= y < n implies #[trigger] at(a.memory, x, y)
        == at(b.memory, x, y) by {
        assert(at(a.spikes_in, t, y) == at(b.spikes_in, t, y));
        assert(at(a.memory, t + 1, y) == next_potential(neuron_at(a, t, y), at(a.spikes_in, t, y)));
        assert(at(b.memory, t + 1, y) == next_potential(neuron_at(b, t, y), at(b.spikes_in, t, y)));
    }
    assert forall|x: int, y: int| t + 1 <= x <= t + 1 && 0 <= y < n implies #[trigger] at(
        a.spikes_out,
        x,
        y,
    ) == at(b.spikes_out, x, y) by {
        assert(at(a.spikes_out, t + 1, y) == spike_of(neuron_at(a, t, y)));
        assert(at(b.spikes_out, t + 1, y) == spike_of(neuron_at(b, t, y)));
    }
    assert forall|x: int, y: int| t + 1 <= x <= t + 1 && 0 <= y < n implies #[trigger] at(
        a.spikes_in,
        x,
        y,
    ) == at(b.spikes_in, x, y) by {
        assert(at(seed_a, t + 1, y) == at(seed_b, t + 1, y));
        assert(at(a.spikes_in, t + 1, y) == propagated(at(seed_a, t + 1, y), spikes_at(a, t), a.weights, y, n));
        assert(at(b.spikes_in, t + 1, y) == propagated(at(seed_b, t + 1, y), spikes_at(b, t), b.weights, y, n));
    }
}

/// A sequence of layer states, each one step after the one before it,
/// starting from `pre`.
pub open spec fn step_chain(pre: LayerView, chain: Seq<LayerView>) -> bool {
    &&& chain.len() >= 1
    &&& chain[0] == pre
    &&& forall|m: int| 0 <= m < chain.len() - 1 ==> #[trigger] step_relation(chain[m], chain[m + 1])
}

/// The induction behind `lemma_run_is_repeated_steps`: after `m` steps the
/// chain agrees with the run on rows `0 ..= m`, and still holds the seeded
/// drives on the later rows.
proof fn lemma_chain_agrees_with_run(pre: LayerView, post: LayerView, chain: Seq<LayerView>, m: int)
    requires
        layer_wf(pre),
        pre.i_step == 0,
        run_relation(pre, post),
        step_chain(pre, chain),
        0 <= m < chain.len(),
        chain.len() <= pre.n_steps,
    ensures
        layer_wf(chain[m]),
        same_parameters(pre, chain[m]),
        chain[m].i_step == m,
        history_agrees(chain[m], post, 0, m),
        rows_agree(chain[m].spikes_in, pre.spikes_in, m + 1, pre.n_steps - 1, pre.neurons.len()),
    decreases m,
{
    let n = pre.neurons.len();
    if m == 0 {
        assert(rows_agree(pre.memory, post.memory, 0, 0, n));
        assert forall|x: int, y: int| 0 <= x <= 0 && 0 <= y < n implies #[trigger] at(chain[0].memory, x, y)
            == at(post.memory, x, y) by {}
        assert forall|x: int, y: int| 0 <= x <= 0 && 0 <= y < n implies #[trigger] at(chain[0].spikes_in, x, y)
            == at(post.spikes_in, x, y) by {}
        assert forall|x: int, y: int| 0 <= x <= 0 && 0 <= y < n implies #[trigger] at(chain[0].spikes_out, x, y)
            == at(post.spikes_out, x, y) by {}
    } else {
        lemma_chain_agrees_with_run(pre, post, chain, m - 1);
        let a = chain[m - 1];
        let b = chain[m];
        assert(step_relation(a, b));
        assert(row_follows(post, pre.spikes_in, m - 1));
        assert forall|x: int, y: int| 0 <= x <= m - 1 && 0 <= y < n implies #[trigger] at(b.memory, x, y)
            == at(post.memory, x, y) && at(b.spikes_in, x, y) == at(post.spikes_in, x, y) && at(
            b.spikes_out,
            x,
            y,
        ) == at(post.spikes_out, x, y) by {
            assert(at(b.memory, x, y) == at(a.memory, x, y));
            assert(at(b.spikes_in, x, y) == at(a.spikes_in, x, y));
            assert(at(b.spikes_out, x, y) == at(a.spikes_out, x, y));
            assert(at(a.memory, x, y) == at(post.memory, x, y));
            assert(at(a.spikes_in, x, y) == at(post.spikes_in, x, y));
            assert(at(a.spikes_out, x, y) == at(post.spikes_out, x, y));
        }
        assert(rows_agree(b.memory, post.memory, m - 1, m - 1, n));
        assert(rows_agree(b.spikes_in, post.spikes_in, m - 1, m - 1, n));
        assert forall|x: int, y: int| m <= x <= m && 0 <= y < n implies #[trigger] at(a.spikes_in, x, y)
            == at(pre.spikes_in, x, y) by {}
        assert forall|i: int| 0 <= i < n implies (#[trigger] b.neurons[i]).beta == post.neurons[i].beta
            && b.neurons[i].u_threshold == post.neurons[i].u_threshold && b.neurons[i].u_min
            == post.neurons[i].u_min by {
            assert(pre.neurons[i].beta == b.neurons[i].beta);
            assert(pre.neurons[i].beta == post.neurons[i].beta);
        }
        assert(same_parameters(b, post));
        lemma_next_rows_agree(b, post, a.spikes_in, pre.spikes_in, m - 1);
        assert forall|x: int, y: int| 0 <= x <= m && 0 <= y < n implies #[trigger] at(b.memory, x, y) == at(
            post.memory,
            x,
            y,
        ) by {
            if x < m {
            }
        }
        assert forall|x: int, y: int| 0 <= x <= m && 0 <= y < n implies #[trigger] at(b.spikes_in, x, y)
            == at(post.spikes_in, x, y) by {
            if x < m {
            }
        }
        assert forall|x: int, y: int| 0 <= x <= m && 0 <= y < n implies #[trigger] at(b.spikes_out, x, y)
            == at(post.spikes_out, x, y) by {
            if x < m {
            }
        }
        assert forall|x: int, y: int| m + 1 <= x <= pre.n_steps - 1 && 0 <= y < n implies #[trigger] at(
            b.spikes_in,
            x,
            y,
        ) == at(pre.spikes_in, x, y) by {
            assert(at(b.spikes_in, x, y) == at(a.spikes_in, x, y));
        }
    }
}

/// Running a new layer of horizon `K` gives what `K - 1` calls of `step`
/// give, one for each cursor `0 .. K - 1` in order: the same histories, cell
/// for cell, the same neurons and the same final cursor.
pub proof fn lemma_run_is_repeated_steps(pre: LayerView, post: LayerView, chain: Seq<LayerView>)
    requires
        layer_wf(pre),
        pre.i_step == 0,
        run_relation(pre, post),
        step_chain(pre, chain),
        chain.len() == pre.n_steps,
    ensures
        history_agrees(chain.last(), post, 0, pre.n_steps - 1),
        chain.last().i_step == post.i_step,
        chain.last().neurons == post.neurons,
{
    let k = pre.n_steps - 1;
    lemma_chain_agrees_with_run(pre, post, chain, k);
    let last = chain[k];
    assert forall|i: int| 0 <= i < pre.neurons.len() implies last.neurons[i] == post.neurons[i] by {
        assert(at(last.memory, k, i) == at(post.memory, k, i));
        assert(pre.neurons[i].beta == last.neurons[i].beta);
        assert(pre.neurons[i].beta == post.neurons[i].beta);
    }
    assert(last.neurons =~= post.neurons);
}

} // verus!
