use spmc::{code_2_vec, vec_2_code, CatalogError, CODE_LEN, LEVELS};

#[test]
fn test_vec_2_code() {
    let c = vec_2_code(&vec![]);
    println!("c: {}", c);
}

#[test]
fn empty_path_gives_empty_code() {
    assert_eq!(vec_2_code(&vec![]), "");
    assert_eq!(vec_2_code(&Vec::new()).len(), 0);
}

#[test]
fn single_slot_codes() {
    assert_eq!(vec_2_code(&vec![0]), "1000000000000000000");
    assert_eq!(vec_2_code(&vec![1]), "2000000000000000000");
    assert_eq!(vec_2_code(&vec![8]), "9000000000000000000");
}

#[test]
fn nested_path_code() {
    assert_eq!(vec_2_code(&vec![2, 0, 5]), "3010600000000000000");
    assert_eq!(vec_2_code(&vec![0, 0]), "1010000000000000000");
    assert_eq!(vec_2_code(&vec![0, 9, 98]), "1109900000000000000");
}

#[test]
fn full_depth_path_needs_no_padding() {
    let path = vec![0, 1, 2, 3, 4, 5, 6, 7, 8, 9];
    assert_eq!(vec_2_code(&path), "1020304050607080910");
}

#[test]
fn code_of_any_short_path_has_code_length() {
    let paths: Vec<Vec<usize>> = vec![
        vec![0],
        vec![98],
        vec![3, 4],
        vec![0, 0, 0, 0, 0],
        vec![98, 98, 98, 98, 98, 98, 98, 98, 98, 98],
        vec![99],
        vec![12345],
    ];
    for path in paths.iter() {
        assert_eq!(vec_2_code(path).chars().count(), CODE_LEN);
    }
}

#[test]
fn first_slot_of_two_digits_loses_its_tens() {
    assert_eq!(vec_2_code(&vec![9]), "0000000000000000000");
    assert_eq!(vec_2_code(&vec![41]), "2000000000000000000");
    assert_eq!(vec_2_code(&vec![9, 0]), "0010000000000000000");
}

#[test]
fn slot_number_of_three_digits_is_written_out() {
    assert_eq!(vec_2_code(&vec![99]), "0000000000000000000");
    assert_eq!(vec_2_code(&vec![0, 99]), "1100000000000000000");
    assert_eq!(vec_2_code(&vec![0, 122]), "1123000000000000000");
}

#[test]
fn long_path_is_not_cut() {
    let path = vec![0, 0, 0, 0, 0, 0, 0, 0, 0, 0, 0];
    let code = vec_2_code(&path);
    assert_eq!(code, "101010101010101010101");
    assert_eq!(code.len(), 21);
}

#[test]
fn largest_slot_does_not_overflow() {
    let code = vec_2_code(&vec![0, usize::MAX]);
    let number = (usize::MAX as u128 + 1).to_string();
    assert_eq!(code, format!("1{}", number));
}

#[test]
fn segments_of_a_code() {
    let code = String::from("3010600000000000000");
    assert_eq!(code_2_vec(&code), Ok(vec![3, 1, 6, 0, 0, 0, 0, 0, 0, 0]));
    let code = String::from("1020304050607080910");
    assert_eq!(code_2_vec(&code), Ok(vec![1, 2, 3, 4, 5, 6, 7, 8, 9, 10]));
    let code = String::from("9999999999999999999");
    assert_eq!(code_2_vec(&code), Ok(vec![9, 99, 99, 99, 99, 99, 99, 99, 99, 99]));
    let code = String::from("0000000000000000000");
    assert_eq!(code_2_vec(&code), Ok(vec![0; 10]));
}

#[test]
fn segments_are_one_per_level() {
    let code = String::from("1010000000000000000");
    assert_eq!(code_2_vec(&code).unwrap().len(), LEVELS);
}

#[test]
fn code_of_wrong_length_is_malformed() {
    assert_eq!(code_2_vec(&String::new()), Err(CatalogError::MalformedCode));
    assert_eq!(code_2_vec(&String::from("101")), Err(CatalogError::MalformedCode));
    assert_eq!(
        code_2_vec(&String::from("101000000000000000")),
        Err(CatalogError::MalformedCode)
    );
    assert_eq!(
        code_2_vec(&String::from("10100000000000000000")),
        Err(CatalogError::MalformedCode)
    );
}

#[test]
fn code_with_a_non_digit_is_malformed() {
    assert_eq!(
        code_2_vec(&String::from("10100000000000000x0")),
        Err(CatalogError::MalformedCode)
    );
    assert_eq!(
        code_2_vec(&String::from("+010000000000000000")),
        Err(CatalogError::MalformedCode)
    );
    assert_eq!(
        code_2_vec(&String::from("1 10000000000000000")),
        Err(CatalogError::MalformedCode)
    );
    assert_eq!(
        code_2_vec(&String::from("１010000000000000000")),
        Err(CatalogError::MalformedCode)
    );
}

#[test]
fn path_comes_back_from_its_code() {
    let paths: Vec<Vec<usize>> = vec![
        vec![0],
        vec![8],
        vec![2, 0, 5],
        vec![8, 98, 0, 98],
        vec![0, 1, 2, 3, 4, 5, 6, 7, 8, 9],
        vec![8, 98, 98, 98, 98, 98, 98, 98, 98, 98],
    ];
    for path in paths.iter() {
        let segments = code_2_vec(&vec_2_code(path)).unwrap();
        for level in 0..LEVELS {
            if level < path.len() {
                assert_eq!(segments[level] as usize, path[level] + 1);
            } else {
                assert_eq!(segments[level], 0);
            }
        }
    }
}

#[test]
fn code_comes_back_from_the_path_it_spells() {
    let codes = [
        "1000000000000000000",
        "9000000000000000000",
        "3010600000000000000",
        "1109900000000000000",
        "1020304050607080910",
        "9999999999999999999",
    ];
    for code in codes {
        let segments = code_2_vec(&String::from(code)).unwrap();
        let path: Vec<usize> =
            segments.iter().take_while(|s| **s != 0).map(|s| *s as usize - 1).collect();
        assert!(segments[path.len()..].iter().all(|s| *s == 0));
        assert_eq!(vec_2_code(&path), code);
    }
}
