use lif_network::fixed::ONE;
use lif_network::grid::Matrix;
use lif_network::layer::{Layer, LayerError};
use lif_network::neuron::LeakyIntegrateAndFireNeuron;

fn zeros(rows: usize, cols: usize) -> Matrix {
    Matrix::zeros(rows, cols)
}

fn weights(rows: Vec<Vec<i64>>) -> Matrix {
    let n = rows.len();
    Matrix::from_rows(&rows, n).unwrap()
}

fn neuron(u: i64, beta: i64, threshold: i64, floor: i64) -> LeakyIntegrateAndFireNeuron {
    LeakyIntegrateAndFireNeuron::new(u, beta, threshold, floor)
}

fn column(m: &Matrix, j: usize) -> Vec<i64> {
    m.to_rows().iter().map(|r| r[j]).collect()
}

#[test]
fn new_rejects_zero_steps() {
    let r = Layer::new(vec![neuron(ONE, 900_000, 1_500_000, 0)], zeros(1, 1), zeros(0, 1), 0);
    assert!(matches!(r, Err(LayerError::NoSteps)));
}

#[test]
fn new_rejects_weight_shape() {
    let ns = vec![neuron(ONE, 900_000, 1_500_000, 0); 2];
    let r = Layer::new(ns, zeros(2, 3), zeros(4, 2), 4);
    assert!(matches!(r, Err(LayerError::WeightShape)));
}

#[test]
fn new_rejects_schedule_shape() {
    let ns = vec![neuron(ONE, 900_000, 1_500_000, 0); 2];
    let r = Layer::new(ns.clone(), zeros(2, 2), zeros(5, 2), 4);
    assert!(matches!(r, Err(LayerError::ScheduleShape)));
    let r = Layer::new(ns, zeros(2, 2), zeros(4, 3), 4);
    assert!(matches!(r, Err(LayerError::ScheduleShape)));
}

#[test]
fn new_seeds_row_zero_with_each_potential() {
    let ns = vec![
        neuron(100_000, 900_000, 1_500_000, 0),
        neuron(200_000, 900_000, 1_500_000, 0),
        neuron(300_000, 900_000, 1_500_000, 0),
    ];
    let mut schedule = zeros(4, 3);
    schedule.set(2, 1, 700_000);
    let layer = Layer::new(ns, zeros(3, 3), schedule, 4).unwrap();
    assert_eq!(layer.n_neurons(), 3);
    assert_eq!(layer.n_steps(), 4);
    assert_eq!(layer.i_step(), 0);
    assert_eq!(
        layer.memory().to_rows(),
        vec![vec![100_000, 200_000, 300_000], vec![0; 3], vec![0; 3], vec![0; 3]]
    );
    assert_eq!(layer.spikes_out().to_rows(), vec![vec![0; 3]; 4]);
    assert_eq!(layer.spikes_in().get(2, 1), 700_000);
    assert_eq!(layer.internal_weights().dim(), (3, 3));
}

#[test]
fn one_step_fills_the_next_row_only() {
    let ns = vec![neuron(ONE, 900_000, 1_500_000, 0), neuron(2 * ONE, 500_000, 1_500_000, 0)];
    let w = weights(vec![vec![0, 0], vec![700_000, 300_000]]);
    let mut schedule = zeros(3, 2);
    schedule.set(0, 0, 100_000);
    schedule.set(1, 1, 50_000);
    let mut layer = Layer::new(ns, w, schedule, 3).unwrap();
    layer.step();
    assert_eq!(layer.i_step(), 1);
    // neuron 0: 0.9 + 0.1 = 1.0, no spike; neuron 1 fires: 1.0 - 1.5 -> floor 0
    assert_eq!(layer.memory().to_rows()[1], vec![ONE, 0]);
    assert_eq!(layer.spikes_out().to_rows()[1], vec![0, ONE]);
    // neuron 1's spike is added onto row 1, on top of the scheduled 0.05
    assert_eq!(layer.spikes_in().to_rows()[1], vec![700_000, 350_000]);
    assert_eq!(layer.spikes_in().to_rows()[2], vec![0, 0]);
    assert_eq!(layer.memory().to_rows()[2], vec![0, 0]);
    assert_eq!(layer.neurons()[0].u, ONE);
    assert_eq!(layer.neurons()[1].u, 0);
}

#[test]
fn propagation_reaches_the_target_one_step_later() {
    let ns = vec![neuron(ONE, 900_000, 1_500_000, 200_000); 2];
    let w = weights(vec![vec![0, 1_500_000], vec![500_000, 0]]);
    let mut schedule = zeros(10, 2);
    schedule.set(4, 0, ONE);
    let mut layer = Layer::new(ns, w, schedule, 10).unwrap();
    layer.run();
    let spikes_in = layer.spikes_in().to_rows();
    let spikes_out = layer.spikes_out().to_rows();
    // neuron 0 reaches 1.5905 at step 5 and fires on that step
    assert_eq!(layer.memory().get(5, 0), 1_590_490);
    assert_eq!(spikes_out[6], vec![ONE, 0]);
    assert_eq!(spikes_in[6], vec![0, 1_500_000]);
    // neuron 1 then fires on step 7, which drives neuron 0 by 0.5 on step 8
    assert_eq!(spikes_out[8], vec![0, ONE]);
    assert_eq!(spikes_in[8], vec![500_000, 0]);
    assert_eq!(column(layer.spikes_out(), 0), vec![0, 0, 0, 0, 0, 0, ONE, 0, 0, 0]);
}

#[test]
fn run_fills_every_row() {
    let ns = vec![neuron(ONE, 900_000, 1_500_000, 0), neuron(ONE, 800_000, 1_500_000, 0)];
    let mut layer = Layer::new(ns, zeros(2, 2), zeros(5, 2), 5).unwrap();
    layer.run();
    assert_eq!(layer.i_step(), 4);
    assert_eq!(column(layer.memory(), 0), vec![ONE, 900_000, 810_000, 729_000, 656_100]);
    assert_eq!(column(layer.memory(), 1), vec![ONE, 800_000, 640_000, 512_000, 409_600]);
    assert_eq!(layer.neurons()[0].u, 656_100);
    assert_eq!(layer.neurons()[1].u, 409_600);
}

#[test]
fn run_with_a_single_row_takes_no_step() {
    let ns = vec![neuron(1_234_567, 900_000, 1_500_000, 0)];
    let mut layer = Layer::new(ns, zeros(1, 1), zeros(1, 1), 1).unwrap();
    layer.run();
    assert_eq!(layer.i_step(), 0);
    assert_eq!(layer.memory().to_rows(), vec![vec![1_234_567]]);
}

#[test]
fn zero_weights_keep_the_schedule() {
    let ns = vec![neuron(2 * ONE, 900_000, 1_500_000, 0); 3];
    let rows = vec![
        vec![0, ONE, 0],
        vec![2 * ONE, 0, 0],
        vec![0, 0, 3 * ONE],
        vec![ONE, ONE, ONE],
        vec![0, 0, 0],
        vec![0, 500_000, 0],
    ];
    let schedule = Matrix::from_rows(&rows, 3).unwrap();
    let mut layer = Layer::new(ns, zeros(3, 3), schedule, 6).unwrap();
    layer.run();
    assert_eq!(layer.spikes_in().to_rows(), rows);
    // the neurons did fire, yet nothing was propagated
    assert!(layer.spikes_out().to_rows().iter().flatten().any(|&s| s == ONE));
}

#[test]
fn nonnegative_weights_only_add_to_the_schedule() {
    let ns = vec![neuron(2 * ONE, 900_000, 1_500_000, 0); 2];
    let rows = vec![vec![0, 0], vec![ONE, 0], vec![0, 0], vec![0, ONE]];
    let schedule = Matrix::from_rows(&rows, 2).unwrap();
    let w = weights(vec![vec![400_000, 100_000], vec![0, 200_000]]);
    let mut layer = Layer::new(ns, w, schedule, 4).unwrap();
    layer.run();
    let after = layer.spikes_in().to_rows();
    for t in 0..4 {
        for j in 0..2 {
            assert!(after[t][j] >= rows[t][j]);
        }
    }
    // both neurons fire on step 0: row 1 gets 1.0 + 0.4 and 0.1 + 0.2
    assert_eq!(after[1], vec![1_400_000, 300_000]);
}

#[test]
fn isolated_neuron_decays_without_spiking() {
    let ns = vec![neuron(1_400_000, 900_000, 1_500_000, 0)];
    let mut layer = Layer::new(ns, zeros(1, 1), zeros(30, 1), 30).unwrap();
    layer.run();
    let memory = column(layer.memory(), 0);
    for t in 0..29 {
        assert_eq!(memory[t + 1], memory[t] * 900_000 / ONE);
        assert!(memory[t + 1] <= memory[t]);
        assert!(memory[t + 1] >= 0);
    }
    assert!(column(layer.spikes_out(), 0).iter().all(|&s| s == 0));
}

#[test]
fn isolated_negative_neuron_rises_toward_zero() {
    let ns = vec![neuron(-ONE, 500_000, 0, 0)];
    let mut layer = Layer::new(ns, zeros(1, 1), zeros(6, 1), 6).unwrap();
    layer.run();
    assert_eq!(column(layer.memory(), 0), vec![-ONE, -500_000, -250_000, -125_000, -62_500, -31_250]);
    assert!(column(layer.spikes_out(), 0).iter().all(|&s| s == 0));
}

#[test]
fn single_neuron_spike_train() {
    let n_steps = 200;
    let ns = vec![neuron(ONE, 980_000, 1_500_000, 0)];
    let mut schedule = zeros(n_steps, 1);
    for t in [5, 9, 20] {
        schedule.set(t, 0, 1_900_000);
    }
    let mut layer = Layer::new(ns, zeros(1, 1), schedule, n_steps).unwrap();
    layer.run();
    let memory = column(layer.memory(), 0);
    let spikes = column(layer.spikes_out(), 0);
    // the step after each injection takes the neuron over its threshold
    for t in [6, 10, 21] {
        assert!(memory[t] >= 1_500_000);
        assert!(memory[t - 1] < 1_500_000);
    }
    // the step taken at time t records its spike in row t + 1; after the
    // third injection the residual charge is still over threshold once more
    let fired: Vec<usize> = (0..n_steps).filter(|&t| spikes[t] == ONE).collect();
    assert_eq!(fired, vec![7, 11, 22, 23]);
    // between spikes the potential decays by 0.98 per step
    for t in 0..5 {
        assert_eq!(memory[t + 1], memory[t] * 980_000 / ONE);
    }
    for t in 7..9 {
        assert_eq!(memory[t + 1], memory[t] * 980_000 / ONE);
    }
    for t in 24..199 {
        assert_eq!(memory[t + 1], memory[t] * 980_000 / ONE);
    }
    assert_eq!(memory[6], 2_785_841);
    assert_eq!(memory[7], 1_230_124);
}

#[test]
fn drive_is_clamped_once_after_all_additions() {
    let ns = vec![neuron(2 * ONE, 900_000, 1_500_000, 0); 2];
    let w = weights(vec![vec![0, ONE], vec![0, -ONE]]);
    let mut schedule = zeros(2, 2);
    schedule.set(1, 1, i64::MAX);
    let mut layer = Layer::new(ns, w, schedule, 2).unwrap();
    layer.step();
    // +1.0 and -1.0 cancel exactly, whatever their order
    assert_eq!(layer.spikes_in().get(1, 1), i64::MAX);
    assert_eq!(layer.spikes_in().get(1, 0), 0);
}
