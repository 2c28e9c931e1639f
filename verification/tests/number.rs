use qchem_g16::document::{text, zero_value, Piece};
use qchem_g16::layout::hessian_index;
use qchem_g16::number::{integer_chars, real_literal, Real, Scalar};

fn chars(s: &str) -> Vec<char> {
    s.chars().collect()
}

#[test]
fn integers_are_written_as_the_standard_library_writes_them() {
    for v in -999i16..=999 {
        let got: String = integer_chars(v).iter().collect();
        assert_eq!(got, v.to_string());
    }
}

#[test]
fn small_integers_are_read_as_the_standard_library_reads_them() {
    let mut tokens: Vec<String> = Vec::new();
    for v in -300i32..=300 {
        tokens.push(v.to_string());
        tokens.push(format!("+{}", v));
        tokens.push(format!("0{}", v));
        tokens.push(format!("{}0", v));
        tokens.push(format!("{} ", v));
        tokens.push(format!("{}.", v));
    }
    for extra in ["", "+", "-", "--1", "+-1", "1e2", "0x1", "١", "１", " 1", "1_0", "-0", "+0", "00", "-00128", "-000129"] {
        tokens.push(extra.to_string());
    }
    for token in tokens {
        let cs = chars(&token);
        assert_eq!(<i8 as Scalar>::parse(&cs), token.parse::<i8>().ok(), "{:?}", token);
        assert_eq!(<u8 as Scalar>::parse(&cs), token.parse::<u8>().ok(), "{:?}", token);
    }
}

#[test]
fn a_number_keeps_its_literal() {
    let r = Real::new("-76.123456789012").unwrap();
    assert_eq!(r.chars(), &chars("-76.123456789012")[..]);
    assert_eq!(r.duplicate(), r);
    assert_eq!(Real::from_chars(&chars("1e-3")), Real::new("1e-3"));
    assert_eq!(<Real as Scalar>::parse(&chars("1e-3")), Real::new("1e-3"));
    assert_eq!(<Real as Scalar>::parse(&chars("1e-")), None);
    assert_ne!(Real::new("1.0"), Real::new("1.00"));
}

#[test]
fn literals_of_real_numbers() {
    assert!(real_literal(&chars("6.02e+23")));
    assert!(real_literal(&chars("-INFINITY")));
    assert!(!real_literal(&chars("infinite")));
    assert!(!real_literal(&chars("1.0E")));
}

#[test]
fn zero_and_text_pieces() {
    let zero: String = zero_value().chars().iter().collect();
    assert_eq!(zero, "0.0");
    assert_eq!(text("a\nb"), Piece::Text(chars("a\nb")));
}

#[test]
fn hessian_places_follow_the_bands() {
    // A matrix of size 8: the first band holds 1 + 2 + 3 + 4 + 5 + 6 + 6 + 6
    // values, the second one 1 + 2.
    assert_eq!(hessian_index(8, 0, 0), 0);
    assert_eq!(hessian_index(8, 1, 0), 1);
    assert_eq!(hessian_index(8, 1, 1), 2);
    assert_eq!(hessian_index(8, 5, 5), 20);
    assert_eq!(hessian_index(8, 6, 0), 21);
    assert_eq!(hessian_index(8, 6, 5), 26);
    assert_eq!(hessian_index(8, 7, 5), 32);
    assert_eq!(hessian_index(8, 6, 6), 33);
    assert_eq!(hessian_index(8, 7, 6), 34);
    assert_eq!(hessian_index(8, 7, 7), 35);
    // Every place of the lower triangle has a position of its own.
    for n in 1..=20usize {
        let mut seen = vec![false; n * (n + 1) / 2];
        for row in 0..n {
            for col in 0..=row {
                let at = hessian_index(n, row, col);
                assert!(!seen[at]);
                seen[at] = true;
            }
        }
        assert!(seen.iter().all(|s| *s));
    }
}
