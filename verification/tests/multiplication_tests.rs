use matmul::matrix::Matrix;
use matmul::multiplication::multiply;

#[test]
fn multiplication_correct() {
    let matrix_a = Matrix::from_vec(vec!["3", "2", "1 2", "3 4", "5 6"]).unwrap();

    let matrix_b = Matrix::from_vec(vec!["2", "4", "7 8 9 10", "11 12 13 14"]).unwrap();

    let expected =
        Matrix::from_vec(vec!["3", "4", "29 32 35 38", "65 72 79 86", "101 112 123 134"]).unwrap();

    let result = multiply(&matrix_a, &matrix_b, 1).unwrap();

    assert_eq!(result, expected);
}

#[test]
fn multiplication_incorrect_matrix_dimensions() {
    let matrix_a = Matrix::from_vec(vec!["3", "2", "1 2", "3 4", "5 6"]).unwrap();

    let matrix_b =
        Matrix::from_vec(vec!["3", "4", "7 8 9 10", "11 12 13 14", "15 16 17 18"]).unwrap();

    let result = multiply(&matrix_a, &matrix_b, 1);

    assert!(result.is_err());
}

#[test]
fn parallel_multiplication_correct() {
    let matrix_a = Matrix::from_vec(vec!["3", "2", "1 2", "3 4", "5 6"]).unwrap();

    let matrix_b = Matrix::from_vec(vec!["2", "4", "7 8 9 10", "11 12 13 14"]).unwrap();

    let expected =
        Matrix::from_vec(vec!["3", "4", "29 32 35 38", "65 72 79 86", "101 112 123 134"]).unwrap();

    let max_threads: usize = 3;

    for num_of_threads in 1..max_threads {
        let result = multiply(&matrix_a, &matrix_b, num_of_threads).unwrap();

        assert_eq!(result, expected);
    }
}
