use qchem_g16::fields::FieldError;
use qchem_g16::number::Real;
use qchem_g16::request::{Calculation, RequestFormatError};

fn lit(r: &Real) -> String {
    r.chars().iter().collect()
}

fn position(v: &[Real; 3]) -> Vec<String> {
    v.iter().map(lit).collect()
}

const WATER: &str = "         3         1         0         1\n         8      0.000000000000      0.000000000000      0.221664874411      0.000000000000\n         1      0.000000000000      1.430900622159     -0.886659497646      0.000000000000\n         1      0.000000000000     -1.430900622159     -0.886659497646      0.000000000000\n";

#[test]
fn reads_a_request_for_water() {
    let calc = Calculation::from_ext(WATER).unwrap();
    assert_eq!(calc.natoms, 3);
    assert_eq!(calc.nder, 1);
    assert_eq!(calc.charge, 0);
    assert_eq!(calc.spin, 1);
    assert_eq!(calc.z, vec![8u8, 1, 1]);
    assert_eq!(calc.coords.len(), 3);
    assert_eq!(position(&calc.coords[0]), vec!["0.000000000000", "0.000000000000", "0.221664874411"]);
    assert_eq!(position(&calc.coords[2]), vec!["0.000000000000", "-1.430900622159", "-0.886659497646"]);
}

#[test]
fn header_two_one_zero_one_with_oxygen_and_hydrogen() {
    let text = "2 1 0 1\n         8 0.0 0.0 0.0 15.9\n         1 0.0 0.0 1.8 1.0\n";
    let calc = Calculation::from_ext(text).unwrap();
    assert_eq!((calc.natoms, calc.nder, calc.charge, calc.spin), (2, 1, 0, 1));
    assert_eq!(calc.z, vec![8u8, 1]);
    assert_eq!(position(&calc.coords[1]), vec!["0.0", "0.0", "1.8"]);
}

#[test]
fn empty_request_has_no_header() {
    assert_eq!(Calculation::from_ext(""), Err(RequestFormatError::TruncatedHeader));
}

#[test]
fn header_with_three_integers_is_a_count_mismatch() {
    assert_eq!(
        Calculation::from_ext("2 1 0\n         8 0.0 0.0 0.0 0.0\n         1 0.0 0.0 1.8 0.0\n"),
        Err(RequestFormatError::CountMismatch { expected: 4, actual: 3 })
    );
}

#[test]
fn blank_first_line_is_a_count_mismatch() {
    assert_eq!(
        Calculation::from_ext("\n2 1 0 1\n"),
        Err(RequestFormatError::CountMismatch { expected: 4, actual: 0 })
    );
}

#[test]
fn header_with_a_word_is_malformed() {
    assert_eq!(Calculation::from_ext("2 one 0 1\n"), Err(RequestFormatError::MalformedToken));
    assert_eq!(Calculation::from_ext("2 1 0 1.0\n"), Err(RequestFormatError::MalformedToken));
    assert_eq!(Calculation::from_ext("200 1 0 1\n"), Err(RequestFormatError::MalformedToken));
}

#[test]
fn negative_counts_are_malformed() {
    assert_eq!(Calculation::from_ext("-1 0 0 1\n"), Err(RequestFormatError::MalformedToken));
    assert_eq!(
        Calculation::from_ext("1 -1 0 1\n         8 0.0 0.0 0.0 0.0\n"),
        Err(RequestFormatError::MalformedToken)
    );
}

#[test]
fn negative_charge_and_spin_are_read() {
    let calc = Calculation::from_ext("0 0 -2 -3\n").unwrap();
    assert_eq!((calc.natoms, calc.nder, calc.charge, calc.spin), (0, 0, -2, -3));
    assert!(calc.z.is_empty());
    assert!(calc.coords.is_empty());
}

#[test]
fn missing_atom_line_truncates_the_body() {
    assert_eq!(
        Calculation::from_ext("2 0 0 1\n         8 0.0 0.0 0.0 0.0\n"),
        Err(RequestFormatError::TruncatedBody)
    );
    assert_eq!(Calculation::from_ext("1 0 0 1"), Err(RequestFormatError::TruncatedBody));
}

#[test]
fn atom_line_errors_carry_the_index_and_the_cause() {
    assert_eq!(
        Calculation::from_ext("2 0 0 1\n         8 0.0 0.0 0.0 0.0\n         H 0.0 0.0 1.8 0.0\n"),
        Err(RequestFormatError::MalformedAtomLine { index: 1, cause: FieldError::MalformedToken })
    );
    assert_eq!(
        Calculation::from_ext("1 0 0 1\n         8 0.0 0.0 0.0\n"),
        Err(RequestFormatError::MalformedAtomLine {
            index: 0,
            cause: FieldError::CountMismatch { expected: 4, actual: 3 }
        })
    );
    assert_eq!(
        Calculation::from_ext("1 0 0 1\n         8 0.0 0.0 zero 0.0\n"),
        Err(RequestFormatError::MalformedAtomLine { index: 0, cause: FieldError::MalformedToken })
    );
    assert_eq!(
        Calculation::from_ext("1 0 0 1\n           0.0 0.0 0.0 0.0\n"),
        Err(RequestFormatError::MalformedAtomLine {
            index: 0,
            cause: FieldError::CountMismatch { expected: 1, actual: 0 }
        })
    );
}

#[test]
fn the_number_column_is_eleven_characters_wide() {
    // The twelfth character begins the coordinates, white space or not.
    let calc = Calculation::from_ext("1 0 0 1\n         121.5 2.5 3.5 0\n").unwrap();
    assert_eq!(calc.z, vec![12u8]);
    assert_eq!(position(&calc.coords[0]), vec!["1.5", "2.5", "3.5"]);
    // A number that reaches into the column of the coordinates is cut.
    assert_eq!(
        Calculation::from_ext("1 0 0 1\n 8 1.5 2.5 3.5 0\n"),
        Err(RequestFormatError::MalformedAtomLine { index: 0, cause: FieldError::MalformedToken })
    );
}

#[test]
fn a_short_atom_line_holds_no_coordinates() {
    assert_eq!(
        Calculation::from_ext("1 0 0 1\n8\n"),
        Err(RequestFormatError::MalformedAtomLine {
            index: 0,
            cause: FieldError::CountMismatch { expected: 4, actual: 0 }
        })
    );
}

#[test]
fn zero_is_a_placeholder_atom() {
    let calc = Calculation::from_ext("1 2 1 2\r\n         0 1e0 -.5 +5. 0\r\n").unwrap();
    assert_eq!(calc.z, vec![0u8]);
    assert_eq!(calc.nder, 2);
    assert_eq!(position(&calc.coords[0]), vec!["1e0", "-.5", "+5."]);
}

#[test]
fn lines_after_the_atoms_are_ignored() {
    let calc = Calculation::from_ext("1 3 0 1\n         8 0.0 0.0 0.0 0.0\nwhatever follows\n").unwrap();
    assert_eq!(calc.natoms, 1);
    assert_eq!(calc.nder, 3);
}
