use fruit_net::eval::{argmax_row, count_correct};

#[test]
fn argmax_picks_largest() {
    assert_eq!(argmax_row(&vec![3, 9, 1]), 1);
    assert_eq!(argmax_row(&vec![-5, -2, -9]), 1);
    assert_eq!(argmax_row(&vec![42]), 0);
}

#[test]
fn argmax_tie_breaks_toward_lowest_index() {
    assert_eq!(argmax_row(&vec![3, 7, 7]), 1);
    assert_eq!(argmax_row(&vec![0, 0, 0]), 0);
}

#[test]
fn exact_output_scores_every_row() {
    let targets = vec![vec![0i64, 1, 0], vec![1, 0, 0], vec![0, 0, 1]];
    let outputs = targets.clone();
    assert_eq!(count_correct(&outputs, &targets), 3);
}

#[test]
fn fixed_wrong_class_scores_nothing() {
    // The output always selects class 0; no target row does.
    let outputs = vec![vec![9i64, 1, 1], vec![8, 2, 2], vec![7, 3, 3]];
    let targets = vec![vec![0i64, 1, 0], vec![0, 0, 1], vec![0, 1, 0]];
    assert_eq!(count_correct(&outputs, &targets), 0);
}

#[test]
fn scores_survive_scaling() {
    // Class scores in a fixed-point scale: argmax is unchanged.
    let outputs = vec![
        vec![120_000i64, 850_000, 30_000],
        vec![700_000, 200_000, 100_000],
    ];
    let targets = vec![vec![0i64, 1, 0], vec![0, 0, 1]];
    assert_eq!(count_correct(&outputs, &targets), 1);
}
