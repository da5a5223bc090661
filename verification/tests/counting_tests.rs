use nonogram_solver::calculator::DistributeNumberCalculator;
use nonogram_solver::comb_counter::CombCounter;

fn calc_distribute_number_temp(
    amount: usize,
    count: usize,
    index: usize,
) -> Result<Vec<usize>, &'static str> {
    let mut distribute_number = DistributeNumberCalculator::new();
    distribute_number.calc_distribute_number(amount, count, index)
}

#[test]
fn calculator_test_calc_distribute_number_1() {
    let result = calc_distribute_number_temp(5, 3, 0);
    assert_eq!(result, Ok(vec![0, 0, 5]));
}

#[test]
fn calculator_test_calc_distribute_number_2() {
    let result = calc_distribute_number_temp(5, 3, 1);
    assert_eq!(result, Ok(vec![0, 1, 4]));
}

#[test]
fn calculator_test_calc_distribute_number_3() {
    let result = calc_distribute_number_temp(5, 3, 2);
    assert_eq!(result, Ok(vec![0, 2, 3]));
}

#[test]
fn calculator_test_calc_distribute_number_4() {
    let result = calc_distribute_number_temp(5, 3, 3);
    assert_eq!(result, Ok(vec![0, 3, 2]));
}

#[test]
fn calculator_test_calc_distribute_number_5() {
    let result = calc_distribute_number_temp(6, 4, 0);
    assert_eq!(result, Ok(vec![0, 0, 0, 6]));
}

#[test]
fn calculator_test_calc_distribute_number_6() {
    let result = calc_distribute_number_temp(6, 4, 1);
    assert_eq!(result, Ok(vec![0, 0, 1, 5]));
}

#[test]
fn calculator_test_calc_distribute_number_7() {
    let result = calc_distribute_number_temp(6, 4, 2);
    assert_eq!(result, Ok(vec![0, 0, 2, 4]));
}

#[test]
fn calculator_test_calc_distribute_number_8() {
    let result = calc_distribute_number_temp(6, 4, 3);
    assert_eq!(result, Ok(vec![0, 0, 3, 3]));
}

#[test]
fn calculator_test_calc_distribute_number_9() {
    let result = calc_distribute_number_temp(6, 4, 4);
    assert_eq!(result, Ok(vec![0, 0, 4, 2]));
}

#[test]
fn calculator_test_calc_distribute_max_bound() {
    let result = calc_distribute_number_temp(5, 3, 20);
    assert_eq!(result, Ok(vec![5, 0, 0]));
}

#[test]
fn calculator_test_index_out_of_range() {
    let result = calc_distribute_number_temp(5, 3, 50);
    assert_eq!(result, Err("Index out of range"));
}

#[test]
fn test_whole_iterate() {
    let mut comb_counter = CombCounter::new();

    let amount = 20;
    let bins = 5;

    let count = comb_counter.calc_comb_count(amount, bins);

    let mut distribute_number = DistributeNumberCalculator::new();
    for i in 0..count {
        distribute_number.calc_distribute_number(amount, bins, i).unwrap();
    }
}

#[test]
fn test_calc_comb_count() {
    let mut comb_counter = CombCounter::new();
    let result = comb_counter.calc_comb_count(20, 5);
    assert_eq!(result, 10626);
}

#[test]
fn test_calc_comb_count_2() {
    let mut comb_counter = CombCounter::new();
    let result = comb_counter.calc_comb_count(10, 1);
    assert_eq!(result, 1);
}

#[test]
fn comb_count_recurrence_holds_on_values() {
    // the counter recurrence: C(a, k) equals the sum of C(x, k - 1)
    let mut c = CombCounter::new();
    for a in 0..8usize {
        for k in 2..6usize {
            let mut sum = 0usize;
            for x in 0..=a {
                sum += c.calc_comb_count(x, k - 1);
            }
            assert_eq!(c.calc_comb_count(a, k), sum);
        }
    }
}

#[test]
fn comb_count_overflow_is_reported() {
    let mut c = CombCounter::new();
    // a huge arrangement space cannot be counted in usize
    assert_eq!(c.try_calc_comb_count(usize::MAX, 2), None);
    assert_eq!(c.try_calc_comb_count(20, 5), Some(10626));
}
