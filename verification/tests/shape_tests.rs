use reduct_kernels::batch::{batch_plan, vector_length, Batch};
use reduct_kernels::error::KernelError;
use reduct_kernels::learning::{
    cluster_sizes, clustering_points, projection_points, reassign, regression_samples, ClusterRun,
};
use reduct_kernels::matrix::{cell_index, matrix_product_shape};
use reduct_kernels::network::{
    layer_count, layer_features, parse_activation, same_text, training_features, weight_count,
    weight_index, ActivationFunction,
};
use reduct_kernels::select::keep_flagged;
use reduct_kernels::signal::{check_signal_length, convolution_length, decimate, interleave};
use reduct_kernels::stats::{
    interpolation_plan, median_positions, weight_total, window_count, Fill,
};

#[test]
fn batches_cover_the_buffer() {
    assert_eq!(batch_plan(0, 1024), Vec::<Batch>::new());
    assert_eq!(batch_plan(1, 1024), vec![Batch { offset: 0, length: 1 }]);
    assert_eq!(batch_plan(1024, 1024), vec![Batch { offset: 0, length: 1024 }]);
    assert_eq!(
        batch_plan(2500, 1024),
        vec![
            Batch { offset: 0, length: 1024 },
            Batch { offset: 1024, length: 1024 },
            Batch { offset: 2048, length: 452 },
        ]
    );
    for (length, size) in [(10usize, 3usize), (9, 3), (4097, 4096), (100, 1), (5, 7)] {
        let plan = batch_plan(length, size);
        let mut next = 0;
        for batch in &plan {
            assert_eq!(batch.offset, next);
            assert!(batch.length >= 1 && batch.length <= size);
            next += batch.length;
        }
        assert_eq!(next, length);
    }
}

#[test]
fn vector_length_is_a_multiple_of_four() {
    assert_eq!(vector_length(0), 0);
    assert_eq!(vector_length(3), 0);
    assert_eq!(vector_length(4), 4);
    assert_eq!(vector_length(1023), 1020);
}

#[test]
fn signal_length_must_be_a_power_of_two() {
    for n in [1usize, 2, 4, 8, 1024, 1 << 20] {
        assert_eq!(check_signal_length(n), Ok(()));
    }
    for n in [0usize, 3, 5, 6, 7, 12, 1000, 1023, 1025] {
        assert_eq!(check_signal_length(n), Err(KernelError::NotPowerOfTwo));
    }
}

#[test]
fn convolution_length_is_one_less_than_the_sum() {
    assert_eq!(convolution_length(3, 4, 3, 4), Ok(6));
    assert_eq!(convolution_length(1, 1, 1, 1), Ok(1));
    assert_eq!(convolution_length(0, 5, 0, 5), Ok(4));
    assert_eq!(convolution_length(0, 0, 0, 0), Err(KernelError::EmptyData));
    assert_eq!(convolution_length(3, 4, 3, 5), Err(KernelError::ShapeMismatch));
    assert_eq!(
        convolution_length(usize::MAX, 2, usize::MAX, 2),
        Err(KernelError::SizeOverflow)
    );
}

#[test]
fn matrix_shapes() {
    assert_eq!(matrix_product_shape(6, 12, 2, 3, 3, 4), Ok(8));
    assert_eq!(matrix_product_shape(6, 12, 2, 3, 4, 3), Err(KernelError::IncompatibleMatrices));
    assert_eq!(matrix_product_shape(5, 12, 2, 3, 3, 4), Err(KernelError::ShapeMismatch));
    assert_eq!(matrix_product_shape(6, 11, 2, 3, 3, 4), Err(KernelError::ShapeMismatch));
    assert_eq!(
        matrix_product_shape(0, 0, usize::MAX, 0, 0, 2),
        Err(KernelError::SizeOverflow)
    );
    assert_eq!(cell_index(1, 2, 2, 3), 5);
    assert_eq!(cell_index(0, 0, 1, 1), 0);
}

#[test]
fn regression_needs_two_points() {
    assert_eq!(regression_samples(5, 3), Ok(3));
    assert_eq!(regression_samples(2, 2), Ok(2));
    assert_eq!(regression_samples(1, 9), Err(KernelError::TooFewPoints));
    assert_eq!(regression_samples(0, 0), Err(KernelError::TooFewPoints));
}

#[test]
fn clustering_parameters() {
    assert_eq!(clustering_points(10, 3), Ok(5));
    assert_eq!(clustering_points(11, 5), Ok(5));
    assert_eq!(clustering_points(10, 6), Err(KernelError::FewerPointsThanClusters));
    assert_eq!(clustering_points(10, 0), Err(KernelError::NoClusters));
    assert_eq!(clustering_points(0, 0), Err(KernelError::NoClusters));
}

#[test]
fn projection_parameters() {
    assert_eq!(projection_points(10, 1), Ok(5));
    assert_eq!(projection_points(10, 2), Ok(5));
    assert_eq!(projection_points(1, 1), Err(KernelError::EmptyData));
    assert_eq!(projection_points(10, 0), Err(KernelError::InvalidComponentCount));
    assert_eq!(projection_points(10, 3), Err(KernelError::InvalidComponentCount));
}

#[test]
fn one_cluster_never_changes_an_assignment() {
    let mut assignments = vec![0usize; 6];
    let nearest = vec![0usize; 6];
    assert!(!reassign(&mut assignments, &nearest));
    assert_eq!(cluster_sizes(&assignments, 1), vec![6]);
}

#[test]
fn one_cluster_takes_one_round() {
    let mut assignments = vec![0usize; 4];
    let mut run = ClusterRun::start();
    let mut rounds = 0;
    while run.goes_on(100) {
        let changed = reassign(&mut assignments, &vec![0, 0, 0, 0]);
        run = run.after_round(changed);
        rounds += 1;
    }
    assert_eq!(rounds, 1);
    assert_eq!(run, ClusterRun { iterations: 1, converged: true });
}

#[test]
fn a_run_stops_at_the_last_round() {
    let mut run = ClusterRun::start();
    assert!(!run.goes_on(0));
    while run.goes_on(3) {
        run = run.after_round(true);
    }
    assert_eq!(run, ClusterRun { iterations: 3, converged: false });
}

#[test]
fn reassign_reports_a_change() {
    let mut assignments = vec![0, 0, 0, 0];
    assert!(reassign(&mut assignments, &vec![0, 1, 2, 1]));
    assert_eq!(assignments, vec![0, 1, 2, 1]);
    assert!(!reassign(&mut assignments, &vec![0, 1, 2, 1]));
    assert_eq!(cluster_sizes(&assignments, 4), vec![1, 2, 1, 0]);
}

#[test]
fn layer_shapes() {
    assert_eq!(layer_features(3, 6, 2), Ok(3));
    assert_eq!(layer_features(0, 6, 2), Err(KernelError::EmptyLayer));
    assert_eq!(layer_features(3, 6, 0), Err(KernelError::EmptyLayer));
    assert_eq!(layer_features(3, 7, 2), Err(KernelError::InvalidWeights));
    assert_eq!(layer_features(2, 6, 2), Err(KernelError::InvalidWeights));
    assert_eq!(training_features(3, 6, 2, 2), Ok(3));
    assert_eq!(training_features(3, 6, 2, 3), Err(KernelError::TargetsMismatch));
    assert_eq!(training_features(0, 6, 2, 3), Err(KernelError::EmptyLayer));
    assert_eq!(training_features(3, 5, 2, 2), Err(KernelError::InvalidWeights));
    assert_eq!(weight_index(1, 2, 3, 2), 5);
    assert_eq!(layer_count(3, 3, 3), Ok(3));
    assert_eq!(layer_count(3, 2, 3), Err(KernelError::InconsistentLayers));
    assert_eq!(layer_count(3, 3, 4), Err(KernelError::InconsistentLayers));
    assert_eq!(weight_count(3, 4), Ok(12));
    assert_eq!(weight_count(0, 4), Err(KernelError::EmptyLayerSize));
    assert_eq!(weight_count(usize::MAX, 2), Err(KernelError::SizeOverflow));
}

#[test]
fn activation_names() {
    assert_eq!(parse_activation("sigmoid"), Ok(ActivationFunction::Sigmoid));
    assert_eq!(parse_activation("relu"), Ok(ActivationFunction::ReLU));
    assert_eq!(parse_activation("tanh"), Ok(ActivationFunction::Tanh));
    assert_eq!(parse_activation("leaky_relu"), Ok(ActivationFunction::LeakyReLU));
    assert_eq!(parse_activation("ReLU"), Err(KernelError::InvalidActivation));
    assert_eq!(parse_activation(""), Err(KernelError::InvalidActivation));
    assert!(same_text("tanh", "tanh"));
    assert!(!same_text("tanh", "tanhh"));
    assert!(!same_text("tanh", "tank"));
}

#[test]
fn median_places() {
    assert_eq!(median_positions(0), None);
    assert_eq!(median_positions(1), Some((0, 0)));
    assert_eq!(median_positions(2), Some((0, 1)));
    assert_eq!(median_positions(5), Some((2, 2)));
    assert_eq!(median_positions(6), Some((2, 3)));
}

#[test]
fn moving_windows() {
    assert_eq!(window_count(5, 3), Ok(3));
    assert_eq!(window_count(5, 5), Ok(1));
    assert_eq!(window_count(5, 0), Err(KernelError::WindowSizeZero));
    assert_eq!(window_count(5, 6), Err(KernelError::WindowTooLarge));
    assert_eq!(window_count(0, 0), Err(KernelError::WindowSizeZero));
    assert_eq!(weight_total(0), 0);
    assert_eq!(weight_total(1), 1);
    assert_eq!(weight_total(4), 10);
    assert_eq!(weight_total(100), 5050);
}

#[test]
fn gaps_are_filled_from_their_neighbours() {
    let valid = vec![false, false, true, false, false, true, true, false];
    assert_eq!(
        interpolation_plan(&valid),
        vec![
            Fill::Copy { from: 2 },
            Fill::Copy { from: 2 },
            Fill::Keep,
            Fill::Between { left: 2, right: 5 },
            Fill::Between { left: 2, right: 5 },
            Fill::Keep,
            Fill::Keep,
            Fill::Copy { from: 6 },
        ]
    );
    assert_eq!(interpolation_plan(&vec![false, false]), vec![Fill::Keep, Fill::Keep]);
    assert_eq!(interpolation_plan(&Vec::new()), Vec::<Fill>::new());
    assert_eq!(
        interpolation_plan(&vec![true, false, false]),
        vec![Fill::Keep, Fill::Copy { from: 0 }, Fill::Copy { from: 0 }]
    );
}

#[test]
fn flagged_elements_are_kept_in_order() {
    assert_eq!(
        keep_flagged(&vec![1.0, 2.0, 3.0, 4.0], &vec![true, false, false, true]),
        vec![1.0, 4.0]
    );
    assert_eq!(keep_flagged(&vec![7u8, 8], &vec![false, false]), Vec::<u8>::new());
}

#[test]
fn decimate_and_interleave() {
    assert_eq!(decimate(&vec![0.5, 1.5, 2.5, 3.5]), (vec![0.5, 2.5], vec![1.5, 3.5]));
    assert_eq!(decimate(&vec![1, 2, 3]), (vec![1], vec![2]));
    assert_eq!(decimate(&Vec::<u8>::new()), (vec![], vec![]));
    assert_eq!(interleave(&vec![1.0, 2.0], &vec![-1.0, -2.0]), vec![1.0, -1.0, 2.0, -2.0]);
    let (even, odd) = decimate(&vec![9, 8, 7, 6, 5, 4]);
    assert_eq!(interleave(&even, &odd), vec![9, 8, 7, 6, 5, 4]);
}
