use matmul::matrix::Matrix;

#[test]
fn iter_read_correct_ints() {
    let contents = vec!["3", "2", " 1 2", "3 4", "5 6"];

    let matrix = Matrix::from_iterator(contents);

    match matrix {
        Ok(matrix) => assert_eq!(
            matrix,
            Matrix::new(3, 2, vec![1, 2, 3, 4, 5, 6]).unwrap()
        ),
        Err(_) => assert!(false),
    }
}

#[test]
fn iter_read_floats_as_ints() {
    let contents = vec!["3", "2", "1.2 2.567", "3.45 4.2", "5.0 6.0"];

    let matrix = Matrix::from_iterator(contents);

    assert!(matrix.is_err());
}

#[test]
fn iter_read_blank() {
    let contents = vec![""];

    let matrix = Matrix::from_iterator(contents);

    assert!(matrix.is_err());
}

#[test]
fn iter_read_no_columns() {
    let contents = vec!["2"];

    let matrix = Matrix::from_iterator(contents);

    assert!(matrix.is_err());
}

#[test]
fn iter_read_no_matrix() {
    let contents = vec!["3", "2"];

    let matrix = Matrix::from_iterator(contents);

    assert!(matrix.is_err());
}

#[test]
fn iter_read_wrong_rows() {
    let contents = vec!["a"];

    let matrix = Matrix::from_iterator(contents);

    assert!(matrix.is_err());
}

#[test]
fn iter_read_wrong_columns() {
    let contents = vec!["2", "a"];

    let matrix = Matrix::from_iterator(contents);

    assert!(matrix.is_err());
}

#[test]
fn iter_read_incorrect_rows_in_matrix_data() {
    let contents = vec!["3", "2", "1 2", "3 4"];

    let matrix = Matrix::from_iterator(contents);

    assert!(matrix.is_err());
}

#[test]
fn iter_read_incorrect_columns_in_matrix_data() {
    let contents = vec!["3", "2", "1 2 3", "4 5 6", "7 8 9"];

    let matrix = Matrix::from_iterator(contents);

    assert!(matrix.is_err());
}

#[test]
fn iter_read_wrong_data_in_matrix_data() {
    let contents = vec!["3", "2", "1 2 3", "a 5 6", "7 8 9"];

    let matrix = Matrix::from_iterator(contents);

    assert!(matrix.is_err());
}

#[test]
fn to_string_correct() {
    let matrix = Matrix::from_vec(vec!["3", "2", "1 2", "3 4", "5 6"]).unwrap();

    let result = matrix.to_text();

    let expected = String::from("3\n2\n1 2\n3 4\n5 6\n");

    assert_eq!(expected, result);
}
