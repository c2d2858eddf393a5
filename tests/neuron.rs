use lif_network::fixed::ONE;
use lif_network::neuron::LeakyIntegrateAndFireNeuron;

#[test]
fn below_threshold_decays_and_adds_drive() {
    let n = LeakyIntegrateAndFireNeuron::new(ONE, 900_000, 1_500_000, 200_000);
    assert_eq!(n.step(300_000), (1_200_000, 0));
    assert_eq!(n.step(0), (900_000, 0));
}

#[test]
fn below_threshold_is_not_clipped() {
    // The floor applies only to a firing neuron.
    let n = LeakyIntegrateAndFireNeuron::new(100_000, 500_000, 1_500_000, 200_000);
    assert_eq!(n.step(0), (50_000, 0));
}

#[test]
fn at_threshold_fires_and_clips_to_floor() {
    let n = LeakyIntegrateAndFireNeuron::new(1_500_000, 900_000, 1_500_000, 200_000);
    // 1.35 + 0.2 - 1.5 = 0.05, clipped up to 0.2
    assert_eq!(n.step(200_000), (200_000, ONE));
}

#[test]
fn above_threshold_keeps_residual_charge() {
    let n = LeakyIntegrateAndFireNeuron::new(2_000_000, 900_000, 1_500_000, 200_000);
    // 1.8 + 1.0 - 1.5 = 1.3
    assert_eq!(n.step(ONE), (1_300_000, ONE));
}

#[test]
fn step_leaves_neuron_unchanged() {
    let n = LeakyIntegrateAndFireNeuron::new(ONE, 900_000, 1_500_000, 0);
    let _ = n.step(ONE);
    assert_eq!(n.u, ONE);
    assert_eq!(n, LeakyIntegrateAndFireNeuron::new(ONE, 900_000, 1_500_000, 0));
}

#[test]
fn negative_potential_rounds_down() {
    let n = LeakyIntegrateAndFireNeuron::new(-1, 500_000, ONE, 0);
    assert_eq!(n.step(0), (-1, 0));
    let m = LeakyIntegrateAndFireNeuron::new(-3_000_000, 500_000, ONE, 0);
    assert_eq!(m.step(0), (-1_500_000, 0));
}

#[test]
fn potential_saturates_at_i64_range() {
    let n = LeakyIntegrateAndFireNeuron::new(i64::MAX - 1, ONE, i64::MAX, 0);
    assert_eq!(n.step(i64::MAX), (i64::MAX, 0));
    let m = LeakyIntegrateAndFireNeuron::new(i64::MIN, ONE, 0, i64::MIN);
    assert_eq!(m.step(i64::MIN), (i64::MIN, 0));
}
