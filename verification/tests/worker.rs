use qchem_g16::worker::{extract_rem, job_flags, job_type};
use qchem_g16::{Calculation, Piece, Real};

fn number(r: &Real) -> f64 {
    r.chars().iter().collect::<String>().parse().unwrap()
}

fn render(pieces: &[Piece]) -> String {
    let mut out = String::new();
    for piece in pieces {
        match piece {
            Piece::Text(text) => out.extend(text.iter()),
            Piece::Plain(r) => out.push_str(&format!("{}", number(r))),
            Piece::Fixed(r) => out.push_str(&format!("{:+20.12}", number(r))),
        }
    }
    out
}

fn water() -> Calculation {
    Calculation::from_ext(
        "         3         2        -1         2\n         8      0.000000000000      0.000000000000      0.221664874411      0.000000000000\n         1      0.000000000000      1.430900622159     -0.886659497646      0.000000000000\n         1      0.000000000000     -1.430900622159     -0.886659497646      0.000000000000\n",
    )
    .unwrap()
}

#[test]
fn geometry_has_one_line_for_each_atom() {
    assert_eq!(
        render(&water().geometry()),
        "8   0   0   0.221664874411\n1   0   1.430900622159   -0.886659497646\n1   0   -1.430900622159   -0.886659497646"
    );
}

#[test]
fn geometry_of_no_atoms_is_empty() {
    let calc = Calculation::from_ext("0 0 0 1\n").unwrap();
    assert!(calc.geometry().is_empty());
    assert_eq!(render(&calc.qchem_molecule()), "$molecule\n0 1\n\n$end\n");
}

#[test]
fn geometry_of_one_atom_has_no_line_end() {
    let calc = Calculation::from_ext("1 0 0 1\n       118 1.5 -2.25 1e2 0\n").unwrap();
    assert_eq!(calc.geometry().len(), 7);
    assert_eq!(render(&calc.geometry()), "118   1.5   -2.25   100");
}

#[test]
fn molecule_has_charge_and_spin() {
    assert_eq!(
        render(&water().qchem_molecule()),
        "$molecule\n-1 2\n8   0   0   0.221664874411\n1   0   1.430900622159   -0.886659497646\n1   0   -1.430900622159   -0.886659497646\n$end\n"
    );
    let calc = Calculation::from_ext("1 0 -128 127\n       255 0 0 0 0\n").unwrap();
    assert_eq!(render(&calc.qchem_molecule()), "$molecule\n-128 127\n255   0   0   0\n$end\n");
    let calc = Calculation::from_ext("1 0 10 -7\n        99 0 0 0 0\n").unwrap();
    assert_eq!(render(&calc.qchem_molecule()), "$molecule\n10 -7\n99   0   0   0\n$end\n");
}

#[test]
fn rem_group_is_cut_out() {
    let (rem, rest) = extract_rem("$rem\nmethod hf\nbasis sto-3g\n$end");
    assert_eq!(rem, "$rem\nmethod hf\nbasis sto-3g\n");
    assert_eq!(rest, "$end\n");
}

#[test]
fn what_stands_before_the_rem_group_comes_last() {
    let (rem, rest) = extract_rem("$comment\nhello\n$end\n$rem\nmethod hf\n$end\n$basis\nx\n$end");
    assert_eq!(rem, "$rem\nmethod hf\n");
    assert_eq!(rest, "$end\n$basis\nx\n$end\n$comment\nhello\n$end\n");
}

#[test]
fn rem_group_with_letters_of_more_than_one_byte() {
    let (rem, rest) = extract_rem("é$rem ü $endß");
    assert_eq!(rem, "$rem ü ");
    assert_eq!(rest, "$endß\né");
}

#[test]
fn job_types_by_order() {
    assert_eq!(job_type(0), "sp");
    assert_eq!(job_type(1), "force");
    assert_eq!(job_type(2), "freq");
    assert_eq!(job_type(3), "");
    assert_eq!(job_flags(1), "");
    assert_eq!(job_flags(2), "hess_and_grad true\nvibman_print 6\n");
    assert_eq!(job_flags(3), "");
}

#[test]
fn input_for_a_frequency_job() {
    let (rem, extras) = extract_rem("$rem\nmethod hf\n$end");
    let input = render(&water().qchem_input(&rem, &extras, true));
    assert_eq!(
        input,
        "$molecule\n-1 2\n8   0   0   0.221664874411\n1   0   1.430900622159   -0.886659497646\n1   0   -1.430900622159   -0.886659497646\n$end\n\n$rem\nmethod hf\nscf_guess read\njobtype freq\ninput_bohr true\nsym_ignore true\ngui 2\nhess_and_grad true\nvibman_print 6\n$end\n"
    );
}

#[test]
fn input_for_a_single_point_without_restart() {
    let calc = Calculation::from_ext("1 0 0 1\n         2 0 0 0 0\n").unwrap();
    let input = render(&calc.qchem_input("$rem\n", "$end\n", false));
    assert_eq!(
        input,
        "$molecule\n0 1\n2   0   0   0\n$end\n\n$rem\njobtype sp\ninput_bohr true\nsym_ignore true\ngui 2\n$end\n"
    );
}
