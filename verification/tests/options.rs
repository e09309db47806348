use std::path::PathBuf;
use ttc::cli::CliOpt;

fn opts(max: usize, step: usize) -> CliOpt {
    CliOpt {
        plot: None,
        plot_width: None,
        plot_height: Some(300),
        max_cache_size: max,
        cache_size_step: step,
        input: PathBuf::from("in.txt"),
        output: None,
        bitmap: false,
    }
}

#[test]
fn cache_sizes_follow_the_step() {
    assert_eq!(opts(10, 3).cache_sizes(), vec![2, 5, 8]);
    assert_eq!(opts(11, 3).cache_sizes(), vec![2, 5, 8, 11]);
    assert_eq!(opts(2, 1).cache_sizes(), vec![2]);
    assert_eq!(opts(1, 1).cache_sizes(), Vec::<usize>::new());
    assert_eq!(opts(64, 1).cache_sizes(), (2..=64).collect::<Vec<usize>>());
}

#[test]
fn plot_size_defaults() {
    assert_eq!(opts(10, 1).plot_size(), (640, 300));
}
