use bubble_lib::config::ClusteringWindow;
use bubble_lib::wavelets::Morlet;

#[test]
fn morlet_has_no_parameters() {
    assert_eq!(Morlet::new(), Morlet {});
}

#[test]
fn circular_window_takes_one_bandwidth_others_two() {
    assert_eq!(ClusteringWindow::Circular.bandwidth_count(), 1);
    assert_eq!(ClusteringWindow::Ellipse.bandwidth_count(), 2);
    assert_eq!(ClusteringWindow::Gaussian.bandwidth_count(), 2);
    assert_eq!(ClusteringWindow::GaussianEllipse.bandwidth_count(), 2);
    assert!(ClusteringWindow::Circular.accepts_bandwidths(1));
    assert!(!ClusteringWindow::Circular.accepts_bandwidths(2));
    assert!(ClusteringWindow::Ellipse.accepts_bandwidths(2));
    assert!(!ClusteringWindow::Ellipse.accepts_bandwidths(1));
}
