use matmul::matrix::{Matrix, MatrixError};
use matmul::multiplication::{
    generate_indexes_for_threads, multiply, run, Config, ConfigError, FailureCause,
    MultiplyError, RunError,
};
use matmul::numtext::{parse_i64, parse_usize};

fn scenario_a() -> Matrix {
    Matrix::new(3, 2, vec![1, 2, 3, 4, 5, 6]).unwrap()
}

fn scenario_b() -> Matrix {
    Matrix::new(2, 4, vec![7, 8, 9, 10, 11, 12, 13, 14]).unwrap()
}

fn scenario_c() -> Matrix {
    Matrix::new(3, 4, vec![29, 32, 35, 38, 65, 72, 79, 86, 101, 112, 123, 134]).unwrap()
}

#[test]
fn scenario_identical_for_every_worker_count() {
    let a = scenario_a();
    let b = scenario_b();
    let expected = scenario_c();
    for t in 1..=3usize {
        let result = multiply(&a, &b, t).unwrap();
        assert_eq!(result, expected);
        assert_eq!(result.to_text(), expected.to_text());
    }
}

#[test]
fn max_parallelism_one_row_per_worker() {
    let a = scenario_a();
    let b = scenario_b();
    let result = multiply(&a, &b, 3).unwrap();
    assert_eq!(result, scenario_c());
}

#[test]
fn repeated_calls_are_byte_identical() {
    let a = scenario_a();
    let b = scenario_b();
    let first = multiply(&a, &b, 2).unwrap();
    let second = multiply(&a, &b, 2).unwrap();
    assert_eq!(first, second);
    assert_eq!(first.to_text(), second.to_text());
}

#[test]
fn dimension_mismatch_exact_error() {
    let a = scenario_a();
    let b = Matrix::new(3, 4, vec![0; 12]).unwrap();
    let result = multiply(&a, &b, 1);
    assert_eq!(result.unwrap_err(), MultiplyError::DimensionMismatch(2, 3));
}

#[test]
fn zero_workers_rejected() {
    let a = scenario_a();
    let b = scenario_b();
    let result = multiply(&a, &b, 0);
    assert_eq!(result.unwrap_err(), MultiplyError::InvalidWorkerCount(0, 3));
}

#[test]
fn more_workers_than_rows_rejected() {
    let a = scenario_a();
    let b = scenario_b();
    let result = multiply(&a, &b, 4);
    assert_eq!(result.unwrap_err(), MultiplyError::InvalidWorkerCount(4, 3));
}

#[test]
fn overflow_fails_first_worker() {
    let a = Matrix::new(2, 1, vec![i64::MAX, 1]).unwrap();
    let b = Matrix::new(1, 1, vec![2]).unwrap();
    let result = multiply(&a, &b, 2);
    assert_eq!(
        result.unwrap_err(),
        MultiplyError::TaskFailure(0, FailureCause::ArithmeticOverflow)
    );
}

#[test]
fn overflow_in_second_range_names_second_worker() {
    let a = Matrix::new(2, 1, vec![1, i64::MAX]).unwrap();
    let b = Matrix::new(1, 1, vec![2]).unwrap();
    let result = multiply(&a, &b, 2);
    assert_eq!(
        result.unwrap_err(),
        MultiplyError::TaskFailure(1, FailureCause::ArithmeticOverflow)
    );
}

#[test]
fn partition_boundaries_concrete() {
    assert_eq!(generate_indexes_for_threads(3, 10), vec![0, 4, 7, 10]);
    assert_eq!(generate_indexes_for_threads(4, 4), vec![0, 1, 2, 3, 4]);
    assert_eq!(generate_indexes_for_threads(2, 5), vec![0, 3, 5]);
    assert_eq!(generate_indexes_for_threads(1, 7), vec![0, 7]);
}

#[test]
fn partition_sizes_balanced() {
    for t in 1..=8usize {
        for rows in t..=20usize {
            let bounds = generate_indexes_for_threads(t, rows);
            assert_eq!(bounds.len(), t + 1);
            assert_eq!(bounds[0], 0);
            assert_eq!(bounds[t], rows);
            let base = rows / t;
            let rest = rows % t;
            let mut total = 0;
            for w in 0..t {
                let size = bounds[w + 1] - bounds[w];
                let expected = if w < rest { base + 1 } else { base };
                assert_eq!(size, expected);
                total += size;
            }
            assert_eq!(total, rows);
        }
    }
}

#[test]
fn numeral_parsing_edges() {
    assert_eq!(parse_usize("+12"), Some(12));
    assert_eq!(parse_usize(""), None);
    assert_eq!(parse_usize("+"), None);
    assert_eq!(parse_usize("99999999999999999999999"), None);
    assert_eq!(parse_i64("-9223372036854775808"), Some(i64::MIN));
    assert_eq!(parse_i64("9223372036854775807"), Some(i64::MAX));
    assert_eq!(parse_i64("9223372036854775808"), None);
    assert_eq!(parse_i64("-0"), Some(0));
    assert_eq!(parse_i64("1.5"), None);
}

#[test]
fn parse_errors_name_the_offence() {
    assert_eq!(
        Matrix::from_vec(vec![]).unwrap_err(),
        MatrixError::MissingRowCount
    );
    assert_eq!(
        Matrix::from_vec(vec![""]).unwrap_err(),
        MatrixError::InvalidRowCount
    );
    assert_eq!(
        Matrix::from_vec(vec!["2"]).unwrap_err(),
        MatrixError::MissingColumnCount
    );
    assert_eq!(
        Matrix::from_vec(vec!["2", "x"]).unwrap_err(),
        MatrixError::InvalidColumnCount
    );
    assert_eq!(
        Matrix::from_vec(vec!["2", "1", "5"]).unwrap_err(),
        MatrixError::MissingRow(1)
    );
    assert_eq!(
        Matrix::from_vec(vec!["1", "2", "3 y"]).unwrap_err(),
        MatrixError::InvalidNumber(0)
    );
    assert_eq!(
        Matrix::from_vec(vec!["1", "2", "3 4 5"]).unwrap_err(),
        MatrixError::WrongRowLength { row: 0, found: 3, expected: 2 }
    );
}

#[test]
fn new_rejects_wrong_buffer_length() {
    let result = Matrix::new(2, 2, vec![1, 2, 3]);
    assert_eq!(
        result.unwrap_err(),
        MatrixError::SizeMismatch { len: 3, rows: 2, columns: 2 }
    );
}

#[test]
fn getters_report_construction_values() {
    let m = scenario_a();
    assert_eq!(m.get_rows(), 3);
    assert_eq!(m.get_columns(), 2);
    assert_eq!(m.get_numbers(), &vec![1, 2, 3, 4, 5, 6]);
}

#[test]
fn empty_width_matrix_renders_blank_rows() {
    let m = Matrix::new(2, 0, vec![]).unwrap();
    assert_eq!(m.to_text(), "2\n0\n\n\n");
}

#[test]
fn run_multiplies_and_renders() {
    let lines_a = vec![
        "10", "1", "1", "2", "3", "4", "5", "6", "7", "8", "9", "10",
    ];
    let lines_b = vec!["1", "2", "3 4"];
    let result = run(lines_a, lines_b).unwrap();
    let expected = "10\n2\n3 4\n6 8\n9 12\n12 16\n15 20\n18 24\n21 28\n24 32\n27 36\n30 40\n";
    assert_eq!(result, expected);
}

#[test]
fn run_needs_ten_rows() {
    let lines_a = vec!["3", "2", "1 2", "3 4", "5 6"];
    let lines_b = vec!["2", "4", "7 8 9 10", "11 12 13 14"];
    let result = run(lines_a, lines_b);
    assert_eq!(
        result.unwrap_err(),
        RunError::Multiply(MultiplyError::InvalidWorkerCount(10, 3))
    );
}

#[test]
fn run_reports_parse_errors_by_side() {
    let good = vec!["1", "1", "5"];
    let bad = vec!["1", "1", "x"];
    assert_eq!(
        run(bad.clone(), good.clone()).unwrap_err(),
        RunError::ParseA(MatrixError::InvalidNumber(0))
    );
    assert_eq!(
        run(good, bad).unwrap_err(),
        RunError::ParseB(MatrixError::InvalidNumber(0))
    );
}

#[test]
fn config_reads_three_file_names() {
    let args = vec![
        String::from("matmul"),
        String::from("a.txt"),
        String::from("b.txt"),
        String::from("c.txt"),
    ];
    let config = Config::from_iter(args).unwrap();
    assert_eq!(config.matrix_a_file_name, "a.txt");
    assert_eq!(config.matrix_b_file_name, "b.txt");
    assert_eq!(config.matrix_c_file_name, "c.txt");
}

#[test]
fn config_names_the_missing_argument() {
    assert_eq!(
        Config::from_iter(vec![String::from("matmul")]).unwrap_err(),
        ConfigError::MissingMatrixAFileName
    );
    assert_eq!(
        Config::from_iter(vec![String::from("matmul"), String::from("a.txt")]).unwrap_err(),
        ConfigError::MissingMatrixBFileName
    );
    assert_eq!(
        Config::from_iter(vec![
            String::from("matmul"),
            String::from("a.txt"),
            String::from("b.txt"),
        ])
        .unwrap_err(),
        ConfigError::MissingMatrixCFileName
    );
}
