use cormen_rust::dynamic::{idx, longest_common_substring, matrix_mul, MatrixSize};

#[test]
fn matrix_mul_test() {
    let data = vec![
        MatrixSize { rows: 30, cols: 35 },
        MatrixSize { rows: 35, cols: 15 },
        MatrixSize { rows: 15, cols: 5 },
        MatrixSize { rows: 5, cols: 10 },
        MatrixSize { rows: 10, cols: 20 },
        MatrixSize { rows: 20, cols: 25 },
    ];

    let result = matrix_mul(&data);

    assert_eq!(15125, result.multiplications);
    assert_eq!("((A0*(A1*A2))*((A3*A4)*A5))", result.to_string())
}

#[test]
fn matrix_mul_single_and_pair() {
    let single = matrix_mul(&vec![MatrixSize { rows: 4, cols: 7 }]);
    assert_eq!(0, single.multiplications);
    assert_eq!(1, single.matrices_count);
    assert_eq!("A0", single.to_string());

    let pair = matrix_mul(&vec![MatrixSize { rows: 2, cols: 3 }, MatrixSize { rows: 3, cols: 4 }]);
    assert_eq!(24, pair.multiplications);
    assert_eq!("(A0*A1)", pair.to_string());
}

#[test]
fn matrix_mul_three() {
    let data = vec![
        MatrixSize { rows: 10, cols: 100 },
        MatrixSize { rows: 100, cols: 5 },
        MatrixSize { rows: 5, cols: 50 },
    ];
    let result = matrix_mul(&data);
    assert_eq!(7500, result.multiplications);
    assert_eq!("((A0*A1)*A2)", result.to_string());
}

#[test]
fn matrix_mul_names_beyond_nine() {
    let data: Vec<MatrixSize> = (0..12).map(|_| MatrixSize { rows: 1, cols: 1 }).collect();
    let result = matrix_mul(&data);
    assert_eq!(11, result.multiplications);
    let text = result.to_string();
    assert!(text.contains("A10"));
    assert!(text.contains("A11"));
}

#[test]
fn matrix_mul_cost_saturates() {
    let big = usize::MAX / 2;
    let data = vec![
        MatrixSize { rows: big, cols: big },
        MatrixSize { rows: big, cols: big },
    ];
    let result = matrix_mul(&data);
    assert_eq!(usize::MAX, result.multiplications);
    assert_eq!("(A0*A1)", result.to_string());
}

#[test]
fn idx_is_row_major() {
    assert_eq!(0, idx(0, 0, 5));
    assert_eq!(3, idx(3, 0, 5));
    assert_eq!(13, idx(3, 2, 5));
}

#[test]
fn longest_common_substring_1_test() {
    let x = String::from("abcbdab");
    let y = String::from("bdcaba");

    let result = longest_common_substring(&x, &y);
    assert_eq!(String::from("bdab"), result);
}

#[test]
fn longest_common_substring_edges() {
    assert_eq!("", longest_common_substring(&String::new(), &String::from("abc")));
    assert_eq!("", longest_common_substring(&String::from("abc"), &String::from("xyz")));
    assert_eq!("abc", longest_common_substring(&String::from("abc"), &String::from("abc")));
    assert_eq!("ace", longest_common_substring(&String::from("abcde"), &String::from("ace")));
}

#[test]
fn longest_common_substring_counts_characters() {
    let x = String::from("ñaßb");
    let y = String::from("xñyßz");
    assert_eq!(String::from("ñß"), longest_common_substring(&x, &y));
}
