use breakpoints::decoder::{decode_breakpoints, posterior_weights, split_scores_at};
use breakpoints::engine::{stage_zero, stages};
use breakpoints::error::BreakpointError;
use breakpoints::find_breakpoints;
use breakpoints::tables::{most_breakpoints, Tables};

/// Tables in double precision: factorials, `0.5 / (k + 1)`, and one over the binomial
/// coefficients from Pascal's triangle.
fn double_tables(n: usize, kmax: usize) -> Tables<f64> {
    let mut gamma = vec![f64::INFINITY, 1.0];
    for i in 2..n + 3 {
        let last = gamma[i - 1];
        gamma.push(last * (i - 1) as f64);
    }
    let top = most_breakpoints(n, kmax);
    let num_breaks = (0..top + 1).map(|k| 0.5 / (k + 1) as f64).collect();
    let mut choose: Vec<Vec<f64>> = Vec::new();
    for len in 0..n {
        let mut row = vec![1.0];
        for k in 1..len + 1 {
            let left = choose[len - 1][k - 1];
            let right = if k < len { choose[len - 1][k] } else { 0.0 };
            row.push(left + right);
        }
        choose.push(row);
    }
    let segmentation = choose
        .iter()
        .map(|row| row.iter().take(top + 1).map(|c| 1.0 / c).collect())
        .collect();
    Tables { gamma, num_breaks, segmentation }
}

fn detect(seq: &[usize], kmax: usize) -> Vec<usize> {
    let tables = double_tables(seq.len(), kmax);
    assert!(tables.covers(seq.len(), kmax));
    let mut buf = vec![usize::MAX; kmax];
    let count = find_breakpoints(seq, &mut buf, kmax, &tables).unwrap();
    assert!(buf[count..].iter().all(|slot| *slot == usize::MAX));
    buf.truncate(count);
    buf
}

fn step() -> Vec<usize> {
    let mut seq = vec![0; 20];
    seq.extend(vec![1; 20]);
    seq
}

#[test]
fn no_breakpoint_is_found_when_none_is_allowed() {
    assert_eq!(detect(&step(), 0), vec![]);
    assert_eq!(detect(&[0, 1, 0, 1, 1, 1], 0), vec![]);
    assert_eq!(detect(&[1], 0), vec![]);
    assert_eq!(detect(&[], 0), vec![]);
}

#[test]
fn constant_sequence_has_no_breakpoint() {
    for kmax in [1, 3, 11, 12, 20] {
        assert_eq!(detect(&[0; 12], kmax), vec![]);
    }
    for kmax in [1, 4, 9] {
        assert_eq!(detect(&[1; 9], kmax), vec![]);
    }
    assert_eq!(detect(&[0], 3), vec![]);
}

#[test]
fn step_is_found_at_the_change() {
    for kmax in [1, 2, 3, 5] {
        let found = detect(&step(), kmax);
        assert!(found.len() >= 1);
        assert!(found.iter().any(|b| 19 <= *b && *b <= 21));
        assert_eq!(found, vec![20]);
    }
}

#[test]
fn two_steps_are_found_in_ascending_order() {
    let mut seq = vec![0; 15];
    seq.extend(vec![1; 15]);
    seq.extend(vec![0; 15]);
    assert_eq!(detect(&seq, 1), vec![30]);
    assert_eq!(detect(&seq, 2), vec![15, 30]);
    assert_eq!(detect(&seq, 3), vec![15, 30]);
    assert_eq!(detect(&seq, 4), vec![15, 30]);
}

#[test]
fn short_and_noisy_sequences_have_no_breakpoint() {
    assert_eq!(detect(&[0, 1], 1), vec![]);
    assert_eq!(detect(&[0, 1, 0, 1, 0, 1], 3), vec![]);
    assert_eq!(detect(&[1, 0, 0, 0, 0, 0, 0, 0], 3), vec![]);
}

#[test]
fn more_breakpoints_than_symbols_allow_are_not_considered() {
    assert_eq!(most_breakpoints(0, 4), 0);
    assert_eq!(most_breakpoints(6, 4), 4);
    assert_eq!(most_breakpoints(6, 5), 5);
    assert_eq!(most_breakpoints(6, 6), 5);
    assert_eq!(most_breakpoints(6, 60), 5);
    assert_eq!(detect(&[0, 1], 5), vec![]);
    assert_eq!(detect(&step(), 100), vec![20]);
}

#[test]
fn symbol_other_than_zero_and_one_is_refused() {
    let tables = double_tables(4, 2);
    let mut buf = vec![9, 9];
    assert_eq!(
        find_breakpoints(&[0, 1, 2, 0], &mut buf, 2, &tables),
        Err(BreakpointError::InvalidInput)
    );
    assert_eq!(buf, vec![9, 9]);
}

#[test]
fn invalid_symbol_is_reported_before_a_small_region() {
    let tables = double_tables(3, 2);
    let mut buf = vec![9];
    assert_eq!(
        find_breakpoints(&[5, 1, 1], &mut buf, 2, &tables),
        Err(BreakpointError::InvalidInput)
    );
}

#[test]
fn region_smaller_than_the_maximum_is_refused() {
    let seq = step();
    let tables = double_tables(seq.len(), 3);
    let mut buf = vec![9, 9];
    assert_eq!(find_breakpoints(&seq, &mut buf, 3, &tables), Err(BreakpointError::CapacityError));
    assert_eq!(buf, vec![9, 9]);
    let mut none: Vec<usize> = Vec::new();
    assert_eq!(find_breakpoints(&[], &mut none, 1, &tables), Err(BreakpointError::CapacityError));
}

#[test]
fn region_larger_than_needed_keeps_its_other_slots() {
    let seq = step();
    let tables = double_tables(seq.len(), 2);
    let mut buf = vec![7, 8, 9];
    assert_eq!(find_breakpoints(&seq, &mut buf, 2, &tables), Ok(1));
    assert_eq!(buf, vec![20, 8, 9]);
}

#[test]
fn weights_that_cannot_be_compared_are_refused() {
    let seq = step();
    let mut tables = double_tables(seq.len(), 2);
    tables.num_breaks[1] = f64::NAN;
    let mut buf = vec![9, 9];
    assert_eq!(
        find_breakpoints(&seq, &mut buf, 2, &tables),
        Err(BreakpointError::NumericDegeneracy)
    );
    assert_eq!(buf, vec![9, 9]);
}

#[test]
fn scores_that_cannot_be_compared_are_refused() {
    let seq = step();
    let mut tables = double_tables(seq.len(), 1);
    // read by the scores of the first breakpoint only
    tables.segmentation[5][0] = f64::NAN;
    let mut buf = vec![9];
    assert_eq!(
        find_breakpoints(&seq, &mut buf, 1, &tables),
        Err(BreakpointError::NumericDegeneracy)
    );
    assert_eq!(buf, vec![9]);
}

#[test]
fn single_weight_is_selected_without_comparison() {
    let mut tables = double_tables(3, 0);
    tables.num_breaks[0] = f64::NAN;
    let mut buf: Vec<usize> = Vec::new();
    assert_eq!(find_breakpoints(&[0, 1, 1], &mut buf, 0, &tables), Ok(0));
}

#[test]
fn detection_is_repeatable() {
    let seq = [0, 0, 0, 1, 0, 0, 1, 1, 1, 1, 1, 0, 1, 1, 1, 1, 0, 0, 0, 0, 0, 0, 0, 0];
    let first = detect(&seq, 4);
    for _ in 0..3 {
        assert_eq!(detect(&seq, 4), first);
    }
    let mut last = 0;
    for b in first {
        assert!(last < b && b <= seq.len() - 1);
        last = b;
    }
}

#[test]
fn tied_weights_select_the_larger_number_of_breakpoints() {
    // with equal symbols at both ends and priors that cancel the evidences, every weight is 1
    let seq = [0, 1];
    let mut tables = double_tables(2, 1);
    let base = stage_zero(&seq, &tables.gamma);
    let edges = stages(&base, 1);
    tables.num_breaks = vec![1.0 / edges[0][0], 1.0 / edges[1][0]];
    assert_eq!(posterior_weights(&edges, &tables, 2), vec![1.0, 1.0]);
    let mut buf = vec![9];
    assert_eq!(find_breakpoints(&seq, &mut buf, 1, &tables), Ok(1));
    assert_eq!(buf, vec![1]);
}

#[test]
fn posterior_weights_of_two_symbols() {
    let tables = double_tables(2, 1);
    let base = stage_zero(&[1, 0], &tables.gamma);
    let edges = stages(&base, 1);
    assert_eq!(edges, vec![vec![1.0 / 6.0, 0.5], vec![0.25]]);
    assert_eq!(posterior_weights(&edges, &tables, 2), vec![1.0 / 12.0, 0.0625]);
}

#[test]
fn split_scores_cover_every_split_that_leaves_room() {
    let seq = [0, 0, 1, 1, 1];
    let tables = double_tables(5, 2);
    let base = stage_zero(&seq, &tables.gamma);
    let edges = stages(&base, 2);
    // the first of two breakpoints lies in 1 ..= 3
    let first = split_scores_at(&base, &edges[1], &tables, 0, 2);
    assert_eq!(first.len(), 3);
    for (i, score) in first.iter().enumerate() {
        let j = i + 1;
        assert_eq!(*score, *base.get(0, j) * edges[1][j] * tables.segmentation[5 - j - 1][1]);
    }
    // the last breakpoint to the right of 2 lies in 3 ..= 4
    let last = split_scores_at(&base, &edges[0], &tables, 2, 1);
    assert_eq!(last, vec![*base.get(2, 3) * edges[0][3], *base.get(2, 4) * edges[0][4]]);
}

#[test]
fn decoded_positions_leave_room_for_the_rest() {
    let seq = [0, 0, 1, 1, 1];
    let tables = double_tables(5, 4);
    let base = stage_zero(&seq, &tables.gamma);
    let edges = stages(&base, 4);
    assert_eq!(decode_breakpoints(&base, &edges, &tables, 0), Ok(vec![]));
    assert_eq!(decode_breakpoints(&base, &edges, &tables, 1), Ok(vec![2]));
    assert_eq!(decode_breakpoints(&base, &edges, &tables, 4), Ok(vec![1, 2, 3, 4]));
    let three = decode_breakpoints(&base, &edges, &tables, 3).unwrap();
    assert_eq!(three.len(), 3);
    assert!(0 < three[0] && three[0] < three[1] && three[1] < three[2] && three[2] <= 4);
}

#[test]
fn tables_cover_what_a_detection_reads() {
    let tables = double_tables(6, 2);
    assert!(tables.covers(6, 2));
    assert!(tables.covers(5, 2));
    assert!(tables.covers(6, 1));
    assert!(tables.covers(0, 9));
    assert!(!tables.covers(7, 2));
    assert!(!tables.covers(6, 3));
    let mut short = double_tables(6, 2);
    short.gamma.pop();
    assert!(!short.covers(6, 2));
    let mut narrow = double_tables(6, 2);
    narrow.segmentation[4].pop();
    assert!(!narrow.covers(6, 2));
    let empty: Tables<f64> = Tables { gamma: vec![], num_breaks: vec![], segmentation: vec![] };
    assert!(empty.covers(0, 0));
    assert!(!empty.covers(1, 0));
}
