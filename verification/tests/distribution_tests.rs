use nonogram_solver::calculator::{DistributeNumberCalculator, NumberDistributionCalculator};
use nonogram_solver::cell::Cell::{Blank, Block};

fn calc_distribute_number_temp(
    amount: usize,
    count: usize,
    index: usize,
) -> Result<Vec<usize>, &'static str> {
    let mut distribute_number = NumberDistributionCalculator::new();
    distribute_number.calc_distribute_number(amount, count, index)
}

#[test]
fn test_calc_distribute_number_1() {
    let result = calc_distribute_number_temp(5, 3, 0);
    assert_eq!(result, Ok(vec![0, 0, 5]));
}

#[test]
fn test_calc_distribute_number_2() {
    let result = calc_distribute_number_temp(5, 3, 1);
    assert_eq!(result, Ok(vec![0, 1, 4]));
}

#[test]
fn test_calc_distribute_number_3() {
    let result = calc_distribute_number_temp(5, 3, 2);
    assert_eq!(result, Ok(vec![0, 2, 3]));
}

#[test]
fn test_calc_distribute_number_4() {
    let result = calc_distribute_number_temp(5, 3, 3);
    assert_eq!(result, Ok(vec![0, 3, 2]));
}

#[test]
fn test_calc_distribute_number_5() {
    let result = calc_distribute_number_temp(6, 4, 0);
    assert_eq!(result, Ok(vec![0, 0, 0, 6]));
}

#[test]
fn test_calc_distribute_number_6() {
    let result = calc_distribute_number_temp(6, 4, 1);
    assert_eq!(result, Ok(vec![0, 0, 1, 5]));
}

#[test]
fn test_calc_distribute_number_7() {
    let result = calc_distribute_number_temp(6, 4, 2);
    assert_eq!(result, Ok(vec![0, 0, 2, 4]));
}

#[test]
fn test_calc_distribute_number_8() {
    let result = calc_distribute_number_temp(6, 4, 3);
    assert_eq!(result, Ok(vec![0, 0, 3, 3]));
}

#[test]
fn test_calc_distribute_number_9() {
    let result = calc_distribute_number_temp(6, 4, 4);
    assert_eq!(result, Ok(vec![0, 0, 4, 2]));
}

#[test]
fn test_calc_distribute_number_10() {
    let result = calc_distribute_number_temp(0, 4, 0);
    assert_eq!(result, Ok(vec![0, 0, 0, 0]));
}

#[test]
fn test_calc_distribute_max_bound() {
    let result = calc_distribute_number_temp(5, 3, 20);
    assert_eq!(result, Ok(vec![5, 0, 0]));
}

#[test]
fn test_index_out_of_range() {
    let result = calc_distribute_number_temp(5, 3, 50);
    assert_eq!(result, Err("Index out of range"));
}

#[test]
fn test_calc_distribute_number_line_hint_1() {
    let mut calculator = DistributeNumberCalculator::new();
    let result = calculator.calc_distribute_number_line_hint(&vec![2, 2], 7, 0);
    assert_eq!(
        result,
        Ok(vec![Block, Block, Blank, Block, Block, Blank, Blank])
    );
}

#[test]
fn test_calc_distribute_number_line_hint_2() {
    let mut calculator = DistributeNumberCalculator::new();
    let result = calculator.calc_distribute_number_line_hint(&vec![2, 3, 3], 10, 0);
    assert_eq!(
        result,
        Ok(vec![
            Block, Block, Blank, Block, Block, Block, Blank, Block, Block, Block
        ])
    );
}

#[test]
fn test_calc_distribute_number_line_hint_high_index() {
    let mut calculator = DistributeNumberCalculator::new();
    let result = calculator.calc_distribute_number_line_hint(&vec![2, 2], 10, 10);
    assert_eq!(
        result,
        Ok(vec![
            Blank, Block, Block, Blank, Blank, Blank, Blank, Blank, Block, Block
        ])
    );
}

#[test]
fn materialized_line_hint_is_empty_for_empty_hint() {
    let mut calculator = NumberDistributionCalculator::new();
    let mut result = Vec::new();
    assert_eq!(
        calculator.calc_distribute_number_line_hint(&vec![], 4, 0, &mut result),
        Ok(())
    );
    assert_eq!(result, vec![Blank, Blank, Blank, Blank]);
}

#[test]
fn every_arrangement_index_gives_a_distinct_pattern() {
    // as many distinct patterns as the candidate count
    let mut calculator = NumberDistributionCalculator::new();
    let hint = vec![2, 2];
    let length = 7;
    let count = calculator.calc_distribute_count_line_hint(&hint, length);
    assert_eq!(count, 6);
    let mut seen: Vec<Vec<nonogram_solver::cell::Cell>> = Vec::new();
    for i in 0..count {
        let mut pattern = Vec::new();
        calculator
            .calc_distribute_number_line_hint(&hint, length, i, &mut pattern)
            .unwrap();
        assert_eq!(pattern.len(), length);
        assert!(!seen.contains(&pattern));
        seen.push(pattern);
    }
}

#[test]
fn forced_hints_have_exactly_one_arrangement() {
    let mut calculator = NumberDistributionCalculator::new();
    // the footprint exactly fills the line
    assert_eq!(calculator.calc_distribute_count_line_hint(&vec![2, 2], 5), 1);
    // an empty hint has the single all-blank arrangement
    assert_eq!(calculator.calc_distribute_count_line_hint(&vec![], 9), 1);
    // one free blank leaves more than one arrangement
    assert!(calculator.calc_distribute_count_line_hint(&vec![2, 2], 6) > 1);
}

#[test]
fn materialized_runs_read_back_as_the_hint() {
    let mut calculator = NumberDistributionCalculator::new();
    let hint = vec![1, 3, 2];
    let length = 10;
    let count = calculator.calc_distribute_count_line_hint(&hint, length);
    for i in 0..count {
        let mut pattern = Vec::new();
        calculator
            .calc_distribute_number_line_hint(&hint, length, i, &mut pattern)
            .unwrap();
        // read the runs of filled cells back off the pattern
        let mut runs: Vec<usize> = Vec::new();
        let mut current = 0usize;
        for cell in &pattern {
            if *cell == Block {
                current += 1;
            } else if current > 0 {
                runs.push(current);
                current = 0;
            }
        }
        if current > 0 {
            runs.push(current);
        }
        assert_eq!(runs, hint);
    }
}

#[test]
fn value_returning_materializer_handles_empty_hints() {
    let mut calculator = DistributeNumberCalculator::new();
    // an empty hint is an entirely blank line, whatever the index
    assert_eq!(
        calculator.calc_distribute_number_line_hint(&vec![], 3, 0),
        Ok(vec![Blank, Blank, Blank])
    );
    assert_eq!(
        calculator.calc_distribute_number_line_hint(&vec![], 3, 7),
        Ok(vec![Blank, Blank, Blank])
    );
}
