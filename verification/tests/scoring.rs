use metadata_engine::scoring::{merge_terms, TermStep};

#[test]
fn common_terms_are_met_together() {
    assert_eq!(
        merge_terms(&[1, 3, 7], &[3, 5, 7, 9]),
        vec![
            TermStep::Left(0),
            TermStep::Both(1, 0),
            TermStep::Right(1),
            TermStep::Both(2, 2),
            TermStep::Right(3),
        ]
    );
}

#[test]
fn swapping_the_rows_mirrors_the_walk() {
    assert_eq!(
        merge_terms(&[3, 5, 7, 9], &[1, 3, 7]),
        vec![
            TermStep::Right(0),
            TermStep::Both(0, 1),
            TermStep::Left(1),
            TermStep::Both(2, 2),
            TermStep::Left(3),
        ]
    );
}

#[test]
fn the_rest_of_a_longer_row_follows_alone() {
    assert_eq!(merge_terms(&[], &[]), vec![]);
    assert_eq!(
        merge_terms(&[4, 6], &[]),
        vec![TermStep::Left(0), TermStep::Left(1)]
    );
}
