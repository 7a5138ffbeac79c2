use tdoa_solver::ranking::shortlist;
use tdoa_solver::scalar::Scalar;

fn scalar(x: f32) -> Scalar {
    Scalar::from_bits(x.to_bits())
}

fn scalars(xs: &[f32]) -> Vec<Scalar> {
    xs.iter().map(|x| scalar(*x)).collect()
}

fn mean(xs: &[f32]) -> f32 {
    xs.iter().sum::<f32>() / xs.len() as f32
}

#[test]
fn clusters_above_the_mean_come_heaviest_first() {
    let weights = [1.0f32, 9.0, 2.0, 7.0, 3.0, 8.0];
    assert_eq!(mean(&weights), 5.0);
    assert_eq!(shortlist(&scalars(&weights), scalar(5.0)), vec![1, 5, 3]);
}

#[test]
fn a_weight_at_the_mean_is_dropped() {
    let weights = [2.0f32, 4.0, 6.0];
    assert_eq!(shortlist(&scalars(&weights), scalar(mean(&weights))), vec![2]);
}

#[test]
fn a_single_cluster_is_dropped() {
    let weights = [12.5f32];
    assert_eq!(mean(&weights), 12.5);
    assert_eq!(shortlist(&scalars(&weights), scalar(mean(&weights))), Vec::<usize>::new());
    let infinite = [f32::INFINITY];
    assert_eq!(mean(&infinite), f32::INFINITY);
    assert_eq!(shortlist(&scalars(&infinite), scalar(mean(&infinite))), Vec::<usize>::new());
    assert_eq!(shortlist(&scalars(&[f32::NAN]), scalar(f32::NAN)), Vec::<usize>::new());
}

#[test]
fn a_single_weight_is_held_against_the_mean_it_is_given() {
    assert_eq!(shortlist(&scalars(&[1.0]), scalar(2.0)), Vec::<usize>::new());
    assert_eq!(shortlist(&scalars(&[2.0]), scalar(1.0)), vec![0]);
}

#[test]
fn two_clusters_of_one_weight_are_dropped() {
    let weights = [12.5f32, 12.5];
    assert_eq!(shortlist(&scalars(&weights), scalar(mean(&weights))), Vec::<usize>::new());
}

#[test]
fn clusters_of_one_weight_are_all_dropped() {
    let weights = [3.0f32, 3.0, 3.0, 3.0];
    assert_eq!(shortlist(&scalars(&weights), scalar(mean(&weights))), Vec::<usize>::new());
}

#[test]
fn no_cluster_gives_no_report() {
    let none: Vec<f32> = Vec::new();
    assert!(mean(&none).is_nan());
    assert_eq!(shortlist(&scalars(&none), scalar(mean(&none))), Vec::<usize>::new());
}

#[test]
fn equal_weights_keep_their_order() {
    let weights = [5.0f32, 1.0, 5.0, 9.0, 5.0, 1.0];
    assert_eq!(shortlist(&scalars(&weights), scalar(2.0)), vec![3, 0, 2, 4]);
}

#[test]
fn an_infinite_weight_leaves_nothing_above_the_mean() {
    let weights = [f32::INFINITY, 4.0, 100.0];
    assert_eq!(mean(&weights), f32::INFINITY);
    assert_eq!(shortlist(&scalars(&weights), scalar(mean(&weights))), Vec::<usize>::new());
    assert_eq!(shortlist(&scalars(&weights), scalar(50.0)), vec![0, 2]);
}

#[test]
fn a_mean_that_is_not_a_number_leaves_nothing() {
    let weights = [1.0f32, f32::NAN, 3.0];
    assert!(mean(&weights).is_nan());
    assert_eq!(shortlist(&scalars(&weights), scalar(mean(&weights))), Vec::<usize>::new());
    assert_eq!(shortlist(&scalars(&weights), scalar(-f32::NAN)), Vec::<usize>::new());
}

#[test]
fn a_weight_that_is_not_a_number_is_dropped() {
    let weights = [1.0f32, f32::NAN, 3.0, -f32::NAN];
    assert_eq!(shortlist(&scalars(&weights), scalar(0.5)), vec![2, 0]);
}

#[test]
fn the_shortlist_is_that_of_a_stable_sort() {
    let weights = [
        0.5f32, 7.25, 3.0, 7.25, 1.0e9, 0.0, 3.0, 2.0, f32::INFINITY, 1.0e9, 44.0, 3.0,
    ];
    let threshold = 1.5f32;
    let mut expected: Vec<usize> =
        (0..weights.len()).filter(|i| weights[*i] > threshold).collect();
    expected.sort_by(|l, r| weights[*l].total_cmp(&weights[*r]).reverse());
    assert_eq!(shortlist(&scalars(&weights), scalar(threshold)), expected);
    assert_eq!(expected, vec![8, 4, 9, 10, 1, 3, 2, 6, 11, 7]);
}
