use config_precedence::attrs::{AttrFlag, AttrIdName, MatrixRow};
use config_precedence::errors::PrecedenceError;
use config_precedence::ranks::validate_ranks_contiguous_and_triangular;
use config_precedence::to_matrix::tall_to_matrix_rows;
use config_precedence::to_tall::matrix_to_tall;
use config_precedence::ConfigPrecedenceRule;

fn row(rank: i32, cells: &[(&str, u8)]) -> MatrixRow {
    MatrixRow {
        rank,
        attrs: cells
            .iter()
            .map(|(n, f)| AttrFlag { name: n.to_string(), flag: *f })
            .collect(),
    }
}

fn table(entries: &[(i32, &str)]) -> Vec<AttrIdName> {
    entries
        .iter()
        .map(|(id, n)| AttrIdName { id: *id, name: n.to_string() })
        .collect()
}

fn rule(cvid: i32, rank: i32, attr_id: i32, match_type: u8) -> ConfigPrecedenceRule {
    ConfigPrecedenceRule { config_version_id: cvid, rank, attr_id, match_type }
}

#[test]
fn matrix_to_tall_basic() {
    let rows = vec![
        row(1, &[("col_a", 1), ("col_b", 1)]),
        row(2, &[("col_a", 0), ("col_b", 1)]),
    ];
    let map = table(&[(10, "col_a"), (20, "col_b")]);
    let tall = matrix_to_tall(&rows, 7, &map).unwrap();
    assert_eq!(
        tall,
        vec![rule(7, 1, 10, 1), rule(7, 1, 20, 1), rule(7, 2, 10, 0), rule(7, 2, 20, 1)]
    );
}

#[test]
fn matrix_to_tall_skips_unresolved_names() {
    let rows = vec![row(1, &[("known", 1), ("mystery", 1)])];
    let map = table(&[(5, "known")]);
    let tall = matrix_to_tall(&rows, 1, &map).unwrap();
    assert_eq!(tall, vec![rule(1, 1, 5, 1)]);
}

#[test]
fn matrix_to_tall_all_unresolved_is_empty_result() {
    let rows = vec![row(1, &[("mystery", 1)])];
    let map = table(&[(5, "known")]);
    assert_eq!(matrix_to_tall(&rows, 1, &map), Err(PrecedenceError::EmptyResult));
}

#[test]
fn matrix_to_tall_empty_input_is_empty_result() {
    let rows: Vec<MatrixRow> = Vec::new();
    let map = table(&[(5, "known")]);
    assert_eq!(matrix_to_tall(&rows, 1, &map), Err(PrecedenceError::EmptyResult));
}

#[test]
fn rank_zero_fails_invalid_rank_forward() {
    let rows = vec![row(0, &[("col_a", 1)])];
    let map = table(&[(10, "col_a")]);
    assert_eq!(matrix_to_tall(&rows, 1, &map), Err(PrecedenceError::InvalidRank { rank: 0 }));
}

#[test]
fn negative_rank_fails_invalid_rank_forward() {
    let rows = vec![row(1, &[("col_a", 1)]), row(-3, &[("col_a", 1)])];
    let map = table(&[(10, "col_a")]);
    assert_eq!(matrix_to_tall(&rows, 1, &map), Err(PrecedenceError::InvalidRank { rank: -3 }));
}

#[test]
fn rank_zero_fails_invalid_rank_backward() {
    let tall = vec![rule(1, 0, 10, 1)];
    let map = table(&[(10, "col_a")]);
    assert_eq!(
        tall_to_matrix_rows(&tall, &map),
        Err(PrecedenceError::InvalidRank { rank: 0 })
    );
}

#[test]
fn flag_two_fails_invalid_match_type_forward() {
    let rows = vec![row(1, &[("col_a", 2)])];
    let map = table(&[(10, "col_a")]);
    assert_eq!(
        matrix_to_tall(&rows, 1, &map),
        Err(PrecedenceError::InvalidMatchType { rank: 1, attr_id: 10, match_type: 2 })
    );
}

#[test]
fn flag_two_fails_invalid_match_type_backward() {
    let tall = vec![rule(1, 1, 10, 2)];
    let map = table(&[(10, "col_a")]);
    assert_eq!(
        tall_to_matrix_rows(&tall, &map),
        Err(PrecedenceError::InvalidMatchType { rank: 1, attr_id: 10, match_type: 2 })
    );
}

#[test]
fn duplicate_pair_fails_forward() {
    // The same (rank, attr) pair in two different rows of the same rank.
    let rows = vec![row(1, &[("col_a", 1)]), row(1, &[("col_a", 0)])];
    let map = table(&[(10, "col_a")]);
    assert_eq!(
        matrix_to_tall(&rows, 1, &map),
        Err(PrecedenceError::DuplicateKey { rank: 1, attr_id: 10 })
    );
}

#[test]
fn duplicate_pair_fails_backward() {
    let tall = vec![rule(1, 1, 10, 1), rule(1, 1, 10, 0)];
    let map = table(&[(10, "col_a")]);
    assert_eq!(
        tall_to_matrix_rows(&tall, &map),
        Err(PrecedenceError::DuplicateKey { rank: 1, attr_id: 10 })
    );
}

#[test]
fn duplicate_name_after_resolution_fails_backward() {
    // Two distinct ids resolving to the same name collide per (rank, name).
    let tall = vec![rule(1, 1, 10, 1), rule(1, 1, 11, 0)];
    let map = table(&[(10, "col_a"), (11, "col_a")]);
    assert_eq!(
        tall_to_matrix_rows(&tall, &map),
        Err(PrecedenceError::DuplicateKey { rank: 1, attr_id: 11 })
    );
}

#[test]
fn tall_to_matrix_groups_sorts_and_orders_names() {
    let tall = vec![
        rule(1, 2, 20, 1),
        rule(1, 1, 20, 1),
        rule(1, 2, 10, 0),
        rule(1, 1, 10, 1),
    ];
    let map = table(&[(10, "alpha"), (20, "beta")]);
    let rows = tall_to_matrix_rows(&tall, &map).unwrap();
    assert_eq!(rows.len(), 2);
    assert_eq!(rows[0].rank, 1);
    assert_eq!(rows[1].rank, 2);
    assert_eq!(
        rows[0].attrs,
        vec![
            AttrFlag { name: "alpha".to_string(), flag: 1 },
            AttrFlag { name: "beta".to_string(), flag: 1 }
        ]
    );
    assert_eq!(
        rows[1].attrs,
        vec![
            AttrFlag { name: "alpha".to_string(), flag: 0 },
            AttrFlag { name: "beta".to_string(), flag: 1 }
        ]
    );
}

#[test]
fn tall_to_matrix_skips_unresolved_ids() {
    let tall = vec![rule(1, 1, 10, 1), rule(1, 1, 99, 1)];
    let map = table(&[(10, "col_a")]);
    let rows = tall_to_matrix_rows(&tall, &map).unwrap();
    assert_eq!(rows.len(), 1);
    assert_eq!(rows[0].attrs.len(), 1);
    assert_eq!(rows[0].attrs[0].name, "col_a");
}

#[test]
fn tall_to_matrix_all_unresolved_is_empty_result() {
    let tall = vec![rule(1, 1, 99, 1)];
    let map = table(&[(10, "col_a")]);
    assert_eq!(tall_to_matrix_rows(&tall, &map), Err(PrecedenceError::EmptyResult));
}

#[test]
fn round_trip_reproduces_content_regardless_of_order() {
    // Same content, rows and cells deliberately out of order.
    let rows = vec![
        row(3, &[("col_c", 1), ("col_a", 0)]),
        row(1, &[("col_b", 1), ("col_a", 1), ("col_c", 1)]),
        row(2, &[("col_b", 0)]),
    ];
    let fwd = table(&[(1, "col_a"), (2, "col_b"), (3, "col_c")]);
    let tall = matrix_to_tall(&rows, 42, &fwd).unwrap();
    let back = tall_to_matrix_rows(&tall, &fwd).unwrap();
    assert_eq!(back.len(), 3);
    assert_eq!(back[0].rank, 1);
    assert_eq!(
        back[0].attrs,
        vec![
            AttrFlag { name: "col_a".to_string(), flag: 1 },
            AttrFlag { name: "col_b".to_string(), flag: 1 },
            AttrFlag { name: "col_c".to_string(), flag: 1 }
        ]
    );
    assert_eq!(back[1].rank, 2);
    assert_eq!(back[1].attrs, vec![AttrFlag { name: "col_b".to_string(), flag: 0 }]);
    assert_eq!(back[2].rank, 3);
    assert_eq!(
        back[2].attrs,
        vec![
            AttrFlag { name: "col_a".to_string(), flag: 0 },
            AttrFlag { name: "col_c".to_string(), flag: 1 }
        ]
    );
}

fn ranks_as_rules(ranks: &[i32]) -> Vec<ConfigPrecedenceRule> {
    ranks.iter().map(|r| rule(1, *r, 10, 1)).collect()
}

#[test]
fn triangular_check_passes_for_three_attributes() {
    let tall = ranks_as_rules(&[1, 2, 3, 4, 5, 6]);
    assert_eq!(validate_ranks_contiguous_and_triangular(&tall, 3), Ok(()));
}

#[test]
fn triangular_check_reports_gap() {
    // Six distinct ranks, but 4 is missing from the contiguous run.
    let tall = ranks_as_rules(&[1, 2, 3, 5, 6, 7]);
    assert_eq!(
        validate_ranks_contiguous_and_triangular(&tall, 3),
        Err(PrecedenceError::RankGap { found: 5, expected: 4 })
    );
}

#[test]
fn triangular_check_reports_wrong_count() {
    let tall = ranks_as_rules(&[1, 2, 3, 4, 5, 6, 7]);
    assert_eq!(
        validate_ranks_contiguous_and_triangular(&tall, 3),
        Err(PrecedenceError::WrongRankCount { found: 7, expected: 6 })
    );
}

#[test]
fn triangular_check_counts_distinct_ranks_only() {
    // Repeated rank values collapse; order does not matter.
    let tall = ranks_as_rules(&[6, 3, 1, 2, 2, 5, 4, 1]);
    assert_eq!(validate_ranks_contiguous_and_triangular(&tall, 3), Ok(()));
}

#[test]
fn triangular_check_empty_input() {
    let tall: Vec<ConfigPrecedenceRule> = Vec::new();
    assert_eq!(
        validate_ranks_contiguous_and_triangular(&tall, 3),
        Err(PrecedenceError::EmptyInput)
    );
}

#[test]
fn triangular_check_run_must_start_at_one() {
    let tall = ranks_as_rules(&[2, 3, 4, 5, 6, 7]);
    assert_eq!(
        validate_ranks_contiguous_and_triangular(&tall, 3),
        Err(PrecedenceError::RankGap { found: 2, expected: 1 })
    );
}

#[test]
fn rows_sharing_a_rank_merge_into_one_row() {
    // Two rows of the same rank with disjoint attributes are one row of
    // merged content after a round trip.
    let rows = vec![row(1, &[("col_b", 1)]), row(1, &[("col_a", 0)])];
    let map = table(&[(1, "col_a"), (2, "col_b")]);
    let tall = matrix_to_tall(&rows, 9, &map).unwrap();
    assert_eq!(tall.len(), 2);
    let back = tall_to_matrix_rows(&tall, &map).unwrap();
    assert_eq!(back.len(), 1);
    assert_eq!(back[0].rank, 1);
    assert_eq!(
        back[0].attrs,
        vec![
            AttrFlag { name: "col_a".to_string(), flag: 0 },
            AttrFlag { name: "col_b".to_string(), flag: 1 }
        ]
    );
}

#[test]
fn rows_with_no_attributes_give_empty_result() {
    let rows = vec![row(1, &[]), row(2, &[])];
    let map = table(&[(1, "col_a")]);
    assert_eq!(matrix_to_tall(&rows, 1, &map), Err(PrecedenceError::EmptyResult));
}
