use qchem_g16::document::Piece;
use qchem_g16::driver::EncodingError;
use qchem_g16::number::Real;
use qchem_g16::report::{ParsedResult, ReportParseError};
use qchem_g16::request::Calculation;

fn number(r: &Real) -> f64 {
    r.chars().iter().collect::<String>().parse().unwrap()
}

fn make(x: f64) -> Real {
    Real::new(&format!("{}", x)).unwrap()
}

/// Renders a document as a program would print it.
fn render(pieces: &[Piece]) -> String {
    let mut out = String::new();
    for piece in pieces {
        match piece {
            Piece::Text(text) => out.extend(text.iter()),
            Piece::Plain(r) => out.push_str(&format!("{}", number(r))),
            Piece::Fixed(r) => out.push_str(&format!("{:+20.12}", number(r))),
        }
    }
    out
}

fn calculation(natoms: usize, nder: usize) -> Calculation {
    Calculation {
        natoms,
        nder,
        charge: 0,
        spin: 1,
        z: vec![1; natoms],
        coords: (0..natoms).map(|i| [make(i as f64), make(0.0), make(0.0)]).collect(),
    }
}

fn grad(atom: usize, coord: usize) -> f64 {
    ((atom * 3 + coord) as f64) * 0.001953125 - 0.75
}

fn hess(row: usize, col: usize) -> f64 {
    let (r, c) = if col <= row { (row, col) } else { (col, row) };
    (r as f64) * 0.5 - (c as f64) * 0.0078125 + 0.25
}

fn synthetic(natoms: usize, nder: usize) -> ParsedResult {
    let n = 3 * natoms;
    ParsedResult {
        energy: make(-76.123456789012),
        gradient: if nder >= 1 {
            Some((0..natoms).map(|a| [make(grad(a, 0)), make(grad(a, 1)), make(grad(a, 2))]).collect())
        } else {
            None
        },
        hessian: if nder >= 2 {
            Some((0..n).map(|r| (0..n).map(|c| make(hess(r, c))).collect()).collect())
        } else {
            None
        },
    }
}

/// The numbers of a rendered report, field after field.
fn fields(text: &str) -> Vec<f64> {
    let mut out = Vec::new();
    for line in text.lines() {
        assert_eq!(line.len() % 20, 0, "{:?}", line);
        for i in 0..line.len() / 20 {
            out.push(line[20 * i..20 * i + 20].trim().parse().unwrap());
        }
    }
    out
}

const ZERO_LINE: &str = "     +0.000000000000     +0.000000000000     +0.000000000000\n";

#[test]
fn one_atom_energy_only_is_one_line() {
    let calc = calculation(1, 0);
    let pieces = calc.encode_report(&synthetic(1, 0));
    assert_eq!(pieces.len(), 5);
    assert_eq!(
        render(&pieces),
        "    -76.123456789012     +0.000000000000     +0.000000000000     +0.000000000000\n"
    );
}

#[test]
fn energy_only_ignores_what_else_was_parsed() {
    let calc = calculation(1, 0);
    assert_eq!(calc.encode_report(&synthetic(1, 2)), calc.encode_report(&synthetic(1, 0)));
}

#[test]
fn first_order_has_gradient_and_placeholder_lines() {
    let calc = calculation(2, 1);
    let text = render(&calc.encode_report(&synthetic(2, 1)));
    let lines: Vec<&str> = text.lines().collect();
    assert_eq!(lines.len(), 1 + 2 + 8);
    assert!(text.ends_with('\n'));
    assert_eq!(lines[1], "     -0.750000000000     -0.748046875000     -0.746093750000");
    assert_eq!(lines[2], "     -0.744140625000     -0.742187500000     -0.740234375000");
    for line in &lines[3..] {
        assert_eq!(format!("{}\n", line), ZERO_LINE);
    }
}

#[test]
fn hessian_fields_are_wrapped_three_on_a_line() {
    // One atom: six values, two full lines.
    let calc = calculation(1, 2);
    let text = render(&calc.encode_report(&synthetic(1, 2)));
    let lines: Vec<&str> = text.lines().collect();
    assert_eq!(lines.len(), 1 + 1 + 5 + 2);
    assert!(text.ends_with('\n'));
    assert_eq!(lines[7], "     +0.250000000000     +0.750000000000     +0.742187500000");
    assert_eq!(lines[8], "     +1.250000000000     +1.242187500000     +1.234375000000");
}

#[test]
fn hessian_block_ends_with_a_full_line() {
    // The lower triangle of a matrix of three rows for each atom always has
    // a multiple of three places, so no line of the block is left open.
    for natoms in [1usize, 2, 3, 4] {
        let calc = calculation(natoms, 2);
        let text = render(&calc.encode_report(&synthetic(natoms, 2)));
        assert!(text.ends_with('\n'));
        let n = 3 * natoms;
        assert_eq!(fields(&text).len(), 4 + 3 * natoms + 3 * (2 + 3 * natoms) + n * (n + 1) / 2);
        for line in text.lines().skip(1) {
            assert_eq!(line.len(), 60);
        }
    }
}

#[test]
fn hessian_values_come_from_the_lower_triangle() {
    let calc = calculation(1, 2);
    let mut parsed = synthetic(1, 2);
    // What stands above the diagonal is not written.
    parsed.hessian.as_mut().unwrap()[0][2] = make(9.5);
    assert_eq!(calc.encode_report(&parsed), calc.encode_report(&synthetic(1, 2)));
    parsed.hessian.as_mut().unwrap()[2][0] = make(9.5);
    let text = render(&calc.encode_report(&parsed));
    assert_eq!(fields(&text)[4 + 3 + 15 + 3], 9.5);
}

#[test]
fn round_trip_recovers_the_values() {
    for nder in 0..3usize {
        for natoms in [1usize, 5, 6, 7, 12] {
            let calc = calculation(natoms, nder);
            let text = render(&calc.encode_report(&synthetic(natoms, nder)));
            let got = fields(&text);
            let n = 3 * natoms;
            let mut want = vec![-76.123456789012, 0.0, 0.0, 0.0];
            if nder >= 1 {
                for a in 0..natoms {
                    for k in 0..3 {
                        want.push(grad(a, k));
                    }
                }
                want.extend(std::iter::repeat(0.0).take(3 * (2 + 3 * natoms)));
            }
            if nder >= 2 {
                for r in 0..n {
                    for c in 0..=r {
                        want.push(hess(r, c));
                    }
                }
            }
            assert_eq!(got.len(), want.len(), "{} {}", nder, natoms);
            for (g, w) in got.iter().zip(want.iter()) {
                assert!((g - w).abs() < 1e-12, "{} {}: {} {}", nder, natoms, g, w);
            }
            if nder >= 2 {
                assert_eq!(got.len() - (4 + 3 * natoms + 3 * (2 + 3 * natoms)), n * (n + 1) / 2);
            }
        }
    }
}

#[test]
fn water_dimer_scenario() {
    let calc = Calculation::from_ext("2 1 0 1\n         8 0.0 0.0 0.0 15.9\n         1 0.0 0.0 1.8 1.0\n").unwrap();
    let report = "some banner\n Total energy in the final basis set = -76.123456789012\n Gradient of SCF Energy\n            1           2\n    1   0.0000000  -0.0000000\n    2   0.0123456  -0.0123456\n    3  -0.0500000   0.0500000\n Max gradient component =       5.000E-02\n";
    let text = render(&calc.translate_qchem(report).unwrap());
    assert_eq!(&text[..20], "    -76.123456789012");
    let lines: Vec<&str> = text.lines().collect();
    assert_eq!(lines.len(), 1 + 2 + 8);
    assert_eq!(
        lines[0],
        "    -76.123456789012     +0.000000000000     +0.000000000000     +0.000000000000"
    );
    assert_eq!(lines[1], "     +0.000000000000     +0.012345600000     -0.050000000000");
    assert_eq!(lines[2], "     -0.000000000000     -0.012345600000     +0.050000000000");
    for line in &lines[3..] {
        assert_eq!(format!("{}\n", line), ZERO_LINE);
    }
}

#[test]
fn translation_fails_as_the_report_does() {
    let calc = calculation(1, 1);
    assert_eq!(calc.translate_qchem("nothing\n"), Err(ReportParseError::EnergyTagNotFound));
    assert_eq!(
        calc.translate_qchem("Total energy in the final basis set = x\n"),
        Err(ReportParseError::EnergyParseError)
    );
}

#[test]
fn translation_of_a_gradient_in_two_blocks() {
    let natoms = 7;
    let mut report = String::from(" Total energy in the final basis set = -1.25\n Gradient of SCF Energy\n");
    for first in [0usize, 6] {
        let last = (first + 6).min(natoms);
        for coord in 0..3 {
            report.push_str(&format!("{:5}", coord + 1));
            for atom in first..last {
                report.push_str(&format!(" {:.7}", grad(atom, coord)));
            }
            report.push('\n');
        }
    }
    report.push_str(" Max gradient component = 0.1\n");
    let calc = calculation(natoms, 1);
    let text = render(&calc.translate_qchem(&report).unwrap());
    let got = fields(&text);
    for atom in 0..natoms {
        for coord in 0..3 {
            let want: f64 = format!("{:.7}", grad(atom, coord)).parse().unwrap();
            assert_eq!(got[4 + 3 * atom + coord], want);
        }
    }
}

#[test]
fn a_result_of_the_wrong_size_is_not_encoded() {
    let calc = calculation(2, 2);
    assert_eq!(calc.try_encode_report(&synthetic(2, 2)), Ok(calc.encode_report(&synthetic(2, 2))));
    assert!(synthetic(2, 2).fits(2, 2));
    assert!(synthetic(2, 2).fits(2, 1));
    assert!(synthetic(2, 2).fits(5, 0));
    // The gradient is missing, or has another size.
    assert_eq!(calc.try_encode_report(&synthetic(2, 0)), Err(EncodingError));
    assert_eq!(calc.try_encode_report(&synthetic(1, 2)), Err(EncodingError));
    assert_eq!(calc.try_encode_report(&synthetic(3, 2)), Err(EncodingError));
    // The Hessian is missing, or has another size, or a row of another length.
    assert_eq!(calc.try_encode_report(&synthetic(2, 1)), Err(EncodingError));
    let mut parsed = synthetic(2, 2);
    parsed.hessian.as_mut().unwrap().pop();
    assert_eq!(calc.try_encode_report(&parsed), Err(EncodingError));
    let mut parsed = synthetic(2, 2);
    parsed.hessian.as_mut().unwrap()[5].pop();
    assert_eq!(calc.try_encode_report(&parsed), Err(EncodingError));
    assert!(!synthetic(2, 2).fits(usize::MAX, 2));
    // For the energy alone nothing else is asked for.
    assert!(calculation(2, 0).try_encode_report(&synthetic(7, 0)).is_ok());
}
