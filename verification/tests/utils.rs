use irisc_asm::utils::{
    cartesian_product, expand, parse_number, parse_parameter, parse_ranges, parse_term,
    parse_terms, push_drawn, ParameterErrorKind, Shape,
};

#[test]
fn test_parse_number() {
    assert_eq!(parse_number("0").unwrap(), 0);
    assert_eq!(parse_number("1").unwrap(), 1);
    assert_eq!(parse_number("1234").unwrap(), 1234);
    assert_eq!(parse_number("0x8000000000000000").unwrap(), 0x8000000000000000);
    assert_eq!(parse_number("0xffffffffffffffff").unwrap(), 0xffffffffffffffff);

    assert_eq!(parse_number("-0").unwrap(), 0);
    assert_eq!(parse_number("-1").unwrap(), 0xffffffffffffffff);
    assert_eq!(parse_number("-16").unwrap(), 0xfffffffffffffff0);
    assert_eq!(parse_number("-0x10").unwrap(), 0xfffffffffffffff0);
    assert_eq!(parse_number("-0x7fffffffffffffff").unwrap(), 0x8000000000000001);
    assert!(parse_number("-0x8000000000000000").is_err());

    assert_eq!(parse_number("-1").unwrap(), parse_number("0xffffffffffffffff").unwrap());
}

#[test]
fn test_parse_ranges() {
    assert_eq!(parse_ranges("1,2,3").unwrap(), vec![1,2,3]);
    assert_eq!(parse_ranges("0..5").unwrap(), vec![0,1,2,3,4]);
    assert_eq!(parse_ranges("0..2,3..5").unwrap(), vec![0,1,3,4]);
    assert_eq!(parse_ranges("-1..2").unwrap(), vec![-1i64 as u64, 0, 1]);
    assert_eq!(parse_ranges("-10..10").unwrap(), (-10..10).map(|x| x as u64).collect::<Vec<_>>());
    assert_eq!(parse_ranges("0xfffffffffffffff0..0xffffffffffffffff").unwrap(), (-16..-1).map(|x| x as u64).collect::<Vec<_>>());
}

#[test]
fn test_parse_ranges_random() {
    assert_eq!(parse_ranges("rand8:16").unwrap().len(), 16);
    assert_ne!(parse_ranges("rand8:16").unwrap(), vec![0; 16]);
    assert_eq!(parse_ranges("rand8:16").unwrap().into_iter().map(|x| x & 0xffffffffffffff00).collect::<Vec<_>>(), vec![0u64; 16]);

    assert_eq!(parse_ranges("rand16:16").unwrap().len(), 16);
    assert_ne!(parse_ranges("rand16:16").unwrap(), vec![0; 16]);
    assert_eq!(parse_ranges("rand16:16").unwrap().into_iter().map(|x| x & 0xffffffffffff0000).collect::<Vec<_>>(), vec![0u64; 16]);

    assert_eq!(parse_ranges("rand32:16").unwrap().len(), 16);
    assert_ne!(parse_ranges("rand32:16").unwrap(), vec![0; 16]);
    assert_eq!(parse_ranges("rand32:16").unwrap().into_iter().map(|x| x & 0xffffffff00000000).collect::<Vec<_>>(), vec![0u64; 16]);

    assert_eq!(parse_ranges("rand64:16").unwrap().len(), 16);
    assert_ne!(parse_ranges("rand64:16").unwrap(), vec![0; 16]);
}

#[test]
fn test_parse_ranges_bits() {
    assert_eq!(parse_ranges("bits:16").unwrap(), vec![1, 2, 4, 8, 16, 32, 64, 128, 256, 512, 1024, 2048, 4096, 8192, 16384, 32768]);
}

#[test]
fn test_parse_parameter() {
    assert_eq!(parse_parameter("r5=1,2,3,10..20,-10..-5,0xfedcba9876543210").unwrap(), (
        "r5".to_string(),
        vec![
            1,2,3,
            10,11,12,13,14,15,16,17,18,19,
            -10i64 as u64, -9i64 as u64, -8i64 as u64, -7i64 as u64, -6i64 as u64,
            0xfedcba9876543210,
        ]
    ));
}

#[test]
fn numbers_that_are_refused() {
    for text in ["", "-", "0x", "-0x", "abc", "1 ", " 1", "1_000", "0b11", "18446744073709551616",
        "-9223372036854775808", "0x10000000000000000", "1.5"] {
        assert_eq!(parse_number(text), Err(ParameterErrorKind::InvalidNumber), "{}", text);
    }
}

#[test]
fn numbers_take_one_leading_minus_and_no_other_sign() {
    for text in ["+5", "0x+5", "-+5", "--5", "-0x-5", "0x-5", "--9223372036854775808", "- 5"] {
        assert_eq!(parse_number(text), Err(ParameterErrorKind::InvalidNumber), "{}", text);
    }
    assert_eq!(parse_number("-9223372036854775807"), Ok(0x8000000000000001));
    assert_eq!(parse_number("9223372036854775808"), Ok(0x8000000000000000));
    assert_eq!(parse_number("0xAbC"), Ok(0xabc));
    assert_eq!(parse_number("-0xAbC"), Ok(0xfffffffffffff544));
    assert_eq!(parse_number("007"), Ok(7));
}

#[test]
fn ranges_wrap_and_may_be_empty() {
    assert_eq!(parse_ranges("5..5").unwrap(), Vec::<u64>::new());
    assert_eq!(parse_ranges("3..4").unwrap(), vec![3]);
    assert_eq!(
        parse_ranges("0xfffffffffffffffe..1").unwrap(),
        vec![0xfffffffffffffffe, 0xffffffffffffffff, 0]
    );
    assert_eq!(parse_ranges("-2..-1,7").unwrap(), vec![0xfffffffffffffffe, 7]);
}

#[test]
fn bits_gives_one_hot_values() {
    assert_eq!(parse_ranges("bits:4").unwrap(), vec![1, 2, 4, 8]);
    assert_eq!(parse_ranges("bits:0").unwrap(), Vec::<u64>::new());
    let all = parse_ranges("bits:64").unwrap();
    assert_eq!(all.len(), 64);
    for (i, value) in all.iter().enumerate() {
        assert_eq!(*value, 1u64 << i);
    }
    let error = parse_ranges("bits:65").unwrap_err();
    assert_eq!(error.kind, ParameterErrorKind::TooManyBits);
    assert_eq!(error.term, "bits:65");
}

#[test]
fn random_values_keep_their_width() {
    let values = parse_ranges("1,rand8:16,2").unwrap();
    assert_eq!(values.len(), 18);
    assert_eq!(values[0], 1);
    assert_eq!(values[17], 2);
    assert!(values[1..17].iter().all(|v| *v < 256));
    assert!(parse_ranges("rand16:64").unwrap().iter().all(|v| *v < 0x1_0000));
    assert!(parse_ranges("rand32:64").unwrap().iter().all(|v| *v < 0x1_0000_0000));
    let wide = parse_ranges("rand64:64").unwrap();
    assert!(wide.iter().any(|v| *v != wide[0]));
    assert_eq!(parse_ranges("rand8:0").unwrap(), Vec::<u64>::new());
}

#[test]
fn terms_that_are_refused() {
    let cases = [
        ("", ParameterErrorKind::InvalidNumber, ""),
        ("1,,2", ParameterErrorKind::InvalidNumber, ""),
        ("1,x,y", ParameterErrorKind::InvalidNumber, "x"),
        ("1..", ParameterErrorKind::InvalidNumber, "1.."),
        ("..5", ParameterErrorKind::InvalidNumber, "..5"),
        ("1...5", ParameterErrorKind::InvalidNumber, "1...5"),
        ("1.5", ParameterErrorKind::InvalidNumber, "1.5"),
        ("rand7:3", ParameterErrorKind::UnknownGenerator, "rand7:3"),
        (":3", ParameterErrorKind::UnknownGenerator, ":3"),
        ("rand8:", ParameterErrorKind::InvalidCount, "rand8:"),
        ("rand8:-1", ParameterErrorKind::InvalidCount, "rand8:-1"),
        ("rand8:+1", ParameterErrorKind::InvalidCount, "rand8:+1"),
        ("+1", ParameterErrorKind::InvalidNumber, "+1"),
        ("1..+3", ParameterErrorKind::InvalidNumber, "1..+3"),
        ("nothing:x", ParameterErrorKind::InvalidCount, "nothing:x"),
        ("rand8:1:2", ParameterErrorKind::InvalidCount, "rand8:1:2"),
        ("3, 4", ParameterErrorKind::InvalidNumber, " 4"),
    ];
    for (text, kind, term) in cases {
        let error = parse_ranges(text).unwrap_err();
        assert_eq!(error.kind, kind, "{}", text);
        assert_eq!(error.term, term, "{}", text);
    }
}

#[test]
fn parameters_need_a_name_and_values() {
    assert_eq!(
        parse_parameter("a=1").unwrap(),
        ("a".to_string(), vec![1])
    );
    assert_eq!(
        parse_parameter("=1,2").unwrap(),
        (String::new(), vec![1, 2])
    );
    assert_eq!(
        parse_parameter("a=b=1").unwrap_err().kind,
        ParameterErrorKind::InvalidNumber
    );
    let error = parse_parameter("a").unwrap_err();
    assert_eq!(error.kind, ParameterErrorKind::MissingEquals);
    assert_eq!(error.term, "a");
    let error = parse_parameter("a=1,bits:99").unwrap_err();
    assert_eq!(error.kind, ParameterErrorKind::TooManyBits);
}

#[test]
fn product_of_no_sets_is_one_empty_row() {
    assert_eq!(cartesian_product(vec![]), vec![Vec::<(String, u64)>::new()]);
}

#[test]
fn product_of_two_sets_has_every_pairing_once() {
    let a = vec![1u64, 2, 3];
    let b = vec![10u64, 20];
    let rows = cartesian_product(vec![("a".to_string(), a.clone()), ("b".to_string(), b.clone())]);
    assert_eq!(rows.len(), a.len() * b.len());
    for (i, x) in a.iter().enumerate() {
        for (j, y) in b.iter().enumerate() {
            let expected = vec![("b".to_string(), *y), ("a".to_string(), *x)];
            assert_eq!(rows[i * b.len() + j], expected);
            assert_eq!(rows.iter().filter(|row| **row == expected).count(), 1);
        }
    }
}

#[test]
fn product_varies_the_first_set_slowest() {
    let rows = cartesian_product(vec![
        ("x".to_string(), vec![0, 1]),
        ("y".to_string(), vec![5]),
        ("z".to_string(), vec![7, 8]),
    ]);
    let picked: Vec<Vec<u64>> = rows
        .iter()
        .map(|row| row.iter().rev().map(|(_, v)| *v).collect())
        .collect();
    assert_eq!(
        picked,
        vec![vec![0, 5, 7], vec![0, 5, 8], vec![1, 5, 7], vec![1, 5, 8]]
    );
    assert!(rows.iter().all(|row| row[0].0 == "z" && row[1].0 == "y" && row[2].0 == "x"));
}

#[test]
fn product_with_an_empty_set_is_empty() {
    let rows = cartesian_product(vec![
        ("x".to_string(), vec![0, 1]),
        ("y".to_string(), vec![]),
    ]);
    assert!(rows.is_empty());
    let rows = cartesian_product(vec![("x".to_string(), vec![])]);
    assert!(rows.is_empty());
}

#[test]
fn product_keeps_repeated_values() {
    let rows = cartesian_product(vec![("x".to_string(), vec![4, 4])]);
    assert_eq!(
        rows,
        vec![vec![("x".to_string(), 4)], vec![("x".to_string(), 4)]]
    );
}

#[test]
fn a_drawn_value_is_appended_as_it_is() {
    let mut values = vec![3u64, 3];
    push_drawn(&mut values, 3);
    push_drawn(&mut values, 0);
    push_drawn(&mut values, u64::MAX);
    assert_eq!(values, vec![3, 3, 3, 0, u64::MAX]);
}

#[test]
fn terms_are_read_before_anything_is_drawn() {
    assert_eq!(
        parse_terms("1,rand8:2,0..3,bits:2,-1"),
        Ok(vec![
            Shape::Single(1),
            Shape::Random(8, 2),
            Shape::Range(0, 3),
            Shape::Bits(2),
            Shape::Single(u64::MAX),
        ])
    );
    assert_eq!(parse_term("rand64:0"), Ok(Shape::Random(64, 0)));
    assert_eq!(parse_term("rand16:7"), Ok(Shape::Random(16, 7)));
    assert_eq!(parse_term("rand32:7"), Ok(Shape::Random(32, 7)));
    assert_eq!(parse_term("5..2"), Ok(Shape::Range(5, 2)));
    assert_eq!(parse_term("bits:65"), Err(ParameterErrorKind::TooManyBits));
    let error = parse_terms("rand8:1000000,oops").unwrap_err();
    assert_eq!(error.kind, ParameterErrorKind::InvalidNumber);
    assert_eq!(error.term, "oops");
}

#[test]
fn random_terms_take_the_draws_as_they_come() {
    let shapes = vec![
        Shape::Random(8, 3),
        Shape::Single(7),
        Shape::Random(16, 2),
        Shape::Bits(3),
        Shape::Range(u64::MAX, 1),
    ];
    let draws = vec![9, 9, 0, 0xffff, 9];
    assert_eq!(
        expand(&shapes, &draws),
        Some(vec![9, 9, 0, 7, 0xffff, 9, 1, 2, 4, u64::MAX, 0])
    );
    assert_eq!(expand(&shapes, &vec![9, 9, 0, 0xffff]), None);
    assert_eq!(expand(&shapes, &vec![9, 9, 0, 0xffff, 9, 1]), None);
    assert_eq!(expand(&vec![], &vec![]), Some(vec![]));
    assert_eq!(expand(&vec![], &vec![1]), None);
    assert_eq!(expand(&vec![Shape::Random(8, 16)], &vec![5; 16]), Some(vec![5; 16]));
    assert_eq!(expand(&vec![Shape::Random(7, 1)], &vec![1]), None);
    assert_eq!(expand(&vec![Shape::Bits(65)], &vec![]), None);
    assert_eq!(expand(&vec![Shape::Random(8, u64::MAX)], &vec![1]), None);
}

#[test]
fn rows_and_choices_correspond_for_three_sets() {
    let sets = vec![
        ("a".to_string(), vec![10u64, 11]),
        ("b".to_string(), vec![20u64, 21, 22]),
        ("c".to_string(), vec![30u64, 31, 32, 33]),
    ];
    let rows = cartesian_product(sets.clone());
    assert_eq!(rows.len(), 2 * 3 * 4);
    for i in 0..2 {
        for j in 0..3 {
            for k in 0..4 {
                let row = &rows[i * 12 + j * 4 + k];
                assert_eq!(
                    *row,
                    vec![
                        ("c".to_string(), sets[2].1[k]),
                        ("b".to_string(), sets[1].1[j]),
                        ("a".to_string(), sets[0].1[i]),
                    ]
                );
            }
        }
    }
    for (r, row) in rows.iter().enumerate() {
        assert_eq!(row.len(), 3);
        assert_eq!(rows.iter().filter(|other| *other == row).count(), 1, "{}", r);
    }
}
