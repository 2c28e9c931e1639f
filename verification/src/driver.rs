//! Writing the report that the driver reads: fields of fixed width in a
//! fixed order, with zeros where the driver's format has a place for a value
//! that the worker does not give.
use crate::document::{
    lemma_numbers_add, line_end, numbers, text, zero, zero_value, Piece, PieceView,
};
use crate::layout::{
    lemma_triangle, lemma_unwrap_wrap_gradient, shown_matrix, shown_vectors, triangle,
    unwrap_gradient, wrap_gradient,
};
use crate::number::{shown, Real};
use crate::report::{
    gradient_of, parse_report, report_of, section_of, ParsedResult, ParsedView, ReportParseError,
    Section,
};
use crate::request::Calculation;
use vstd::prelude::*;

verus! {

/// A line of fields: each value in a field of fixed width, then the end of
/// the line.
pub open spec fn field_line(values: Seq<Seq<char>>) -> Seq<PieceView> {
    Seq::new(
        values.len() + 1,
        |i: int|
            if i < values.len() {
                PieceView::Fixed(values[i])
            } else {
                line_end()
            },
    )
}

/// A line of three zeros.
pub open spec fn zero_line() -> Seq<PieceView> {
    field_line(seq![zero(), zero(), zero()])
}

/// `count` lines of three zeros.
pub open spec fn zero_lines(count: int) -> Seq<PieceView>
    decreases count,
{
    if count <= 0 {
        Seq::empty()
    } else {
        zero_lines(count - 1) + zero_line()
    }
}

/// The first `count` vectors, each on a line of its own.
pub open spec fn vector_lines(vectors: Seq<Seq<Seq<char>>>, count: int) -> Seq<PieceView>
    decreases count,
{
    if count <= 0 {
        Seq::empty()
    } else {
        vector_lines(vectors, count - 1) + field_line(vectors[count - 1])
    }
}

/// The coordinates of the first `count` vectors, atom after atom.
pub open spec fn flattened<A>(vectors: Seq<Seq<A>>, count: int) -> Seq<A>
    decreases count,
{
    if count <= 0 {
        Seq::empty()
    } else {
        flattened(vectors, count - 1) + vectors[count - 1]
    }
}

/// The lower triangle of the first `rows` rows of a matrix, row after row:
/// of the row `i` the entries up to the one on the diagonal.
pub open spec fn lower_triangle<A>(matrix: Seq<Seq<A>>, rows: int) -> Seq<A>
    decreases rows,
{
    if rows <= 0 {
        Seq::empty()
    } else {
        lower_triangle(matrix, rows - 1) + matrix[rows - 1].take(rows)
    }
}

/// The values in fields of fixed width, three on a line: the end of a line
/// follows every third field, so a last line of one or two fields is left
/// open.
pub open spec fn wrapped(values: Seq<Seq<char>>) -> Seq<PieceView>
    decreases values.len(),
{
    if values.len() == 0 {
        Seq::empty()
    } else if values.len() % 3 == 0 {
        wrapped(values.drop_last()).push(PieceView::Fixed(values.last())).push(line_end())
    } else {
        wrapped(values.drop_last()).push(PieceView::Fixed(values.last()))
    }
}

/// The block of the first derivatives: the gradient, one line for each
/// atom, and then the lines of zeros that stand for the polarizability and
/// the derivatives of the dipole.
pub open spec fn gradient_block(natoms: int, gradient: Seq<Seq<Seq<char>>>) -> Seq<PieceView> {
    vector_lines(gradient, natoms) + zero_lines(2 + 3 * natoms)
}

/// The report for the driver: the energy and a dipole of zeros on the first
/// line; from the first derivative order on the block of the first
/// derivatives; from the second on the lower triangle of the Hessian.
pub open spec fn driver_report(natoms: int, nder: int, parsed: ParsedView) -> Seq<PieceView> {
    seq![PieceView::Fixed(parsed.energy)] + zero_line() + (if nder >= 1 {
        gradient_block(natoms, parsed.gradient->0)
    } else {
        Seq::empty()
    }) + (if nder >= 2 {
        wrapped(lower_triangle(parsed.hessian->0, 3 * natoms))
    } else {
        Seq::empty()
    })
}

/// `count` zeros.
pub open spec fn zeros(count: int) -> Seq<Seq<char>> {
    Seq::new(
        if count < 0 {
            0
        } else {
            count as nat
        },
        |i: int| zero(),
    )
}

/// The numbers that the report for the driver states, in their order: the
/// energy and the three zeros of the dipole; from the first derivative order
/// on the gradient, atom after atom, and three zeros for each of the lines
/// that stand for what is not computed; from the second on the lower
/// triangle of the Hessian.
pub open spec fn report_values(natoms: int, nder: int, parsed: ParsedView) -> Seq<Seq<char>> {
    seq![parsed.energy] + zeros(3) + (if nder >= 1 {
        flattened(parsed.gradient->0, natoms) + zeros(3 * (2 + 3 * natoms))
    } else {
        Seq::empty()
    }) + (if nder >= 2 {
        lower_triangle(parsed.hessian->0, 3 * natoms)
    } else {
        Seq::empty()
    })
}

impl ParsedView {
    /// Whether the result holds what the derivative order `nder` asks for,
    /// in the sizes that `natoms` atoms call for.
    pub open spec fn fits(self, natoms: int, nder: int) -> bool {
        &&& nder >= 1 ==> {
            &&& self.gradient is Some
            &&& self.gradient->0.len() == natoms
        }
        &&& nder >= 2 ==> {
            &&& self.hessian is Some
            &&& self.hessian->0.len() == 3 * natoms
            &&& forall|i: int|
                0 <= i < 3 * natoms ==> (#[trigger] self.hessian->0[i]).len() == 3 * natoms
        }
    }
}

/// A result does not hold what a calculation asks for, or holds it in
/// another size than the calculation's atoms call for: no report can be
/// written from it.
#[derive(Debug, Clone, Copy, PartialEq, Eq)]
pub struct EncodingError;

impl ParsedResult {
    /// Whether the result holds what the derivative order `nder` asks for,
    /// in the sizes that `natoms` atoms call for.
    pub fn fits(&self, natoms: usize, nder: usize) -> (b: bool)
        ensures
            b == self@.fits(natoms as int, nder as int),
    {
        if nder >= 1 {
            match &self.gradient {
                Some(gradient) => {
                    if gradient.len() != natoms {
                        return false;
                    }
                },
                None => {
                    return false;
                },
            }
        }
        if nder >= 2 {
            match &self.hessian {
                Some(hessian) => {
                    let ghost matrix = shown_matrix(hessian@);
                    assert(matrix.len() == hessian@.len());
                    assert(self@.hessian == Some(matrix));
                    let size = hessian.len();
                    if natoms > usize::MAX / 3 || size != 3 * natoms {
                        return false;
                    }
                    let mut row: usize = 0;
                    while row < hessian.len()
                        invariant
                            row <= hessian@.len(),
                            hessian@.len() == 3 * natoms,
                            matrix == shown_matrix(hessian@),
                            self@.hessian == Some(matrix),
                            nder >= 2,
                            nder >= 1 ==> self@.gradient is Some && self@.gradient->0.len()
                                == natoms,
                            forall|i: int|
                                0 <= i < row ==> (#[trigger] matrix[i]).len() == 3 * natoms,
                        decreases hessian@.len() - row,
                    {
                        if hessian[row].len() != hessian.len() {
                            assert(matrix[row as int].len() != 3 * natoms);
                            return false;
                        }
                        assert(matrix[row as int].len() == 3 * natoms);
                        row += 1;
                    }
                },
                None => {
                    return false;
                },
            }
        }
        true
    }
}

/// What a report states holds what the derivative order asks for.
pub proof fn lemma_report_fits(natoms: int, nder: int, text: Seq<char>)
    requires
        0 <= natoms,
        report_of(natoms, nder, text) is Ok,
    ensures
        report_of(natoms, nder, text)->Ok_0.fits(natoms, nder),
{
}

/// Law: the numbers on a line of fields are the values of the line.
pub proof fn lemma_numbers_of_line(values: Seq<Seq<char>>)
    ensures
        numbers(field_line(values)) == values,
    decreases values.len(),
{
    let line = field_line(values);
    assert(line.last() == line_end());
    let fields = line.drop_last();
    lemma_numbers_of_fields(values, fields);
}

/// The numbers of a run of fields are the values in the fields.
proof fn lemma_numbers_of_fields(values: Seq<Seq<char>>, fields: Seq<PieceView>)
    requires
        fields.len() == values.len(),
        forall|i: int| 0 <= i < values.len() ==> fields[i] == PieceView::Fixed(values[i]),
    ensures
        numbers(fields) == values,
    decreases values.len(),
{
    if values.len() > 0 {
        lemma_numbers_of_fields(values.drop_last(), fields.drop_last());
        assert(fields.last() == PieceView::Fixed(values.last()));
        assert(values.drop_last().push(values.last()) =~= values);
    } else {
        assert(values =~= Seq::<Seq<char>>::empty());
    }
}

/// Law: the numbers on the lines of the vectors are the coordinates of the
/// vectors, atom after atom.
pub proof fn lemma_numbers_of_vector_lines(vectors: Seq<Seq<Seq<char>>>, count: int)
    ensures
        numbers(vector_lines(vectors, count)) == flattened(vectors, count),
    decreases count,
{
    if count > 0 {
        lemma_numbers_of_vector_lines(vectors, count - 1);
        lemma_numbers_add(vector_lines(vectors, count - 1), field_line(vectors[count - 1]));
        lemma_numbers_of_line(vectors[count - 1]);
    }
}

/// Law: the numbers of fields that are wrapped three on a line are the
/// values in the fields, as many as there were.
pub proof fn lemma_numbers_of_wrapped(values: Seq<Seq<char>>)
    ensures
        numbers(wrapped(values)) == values,
    decreases values.len(),
{
    if values.len() > 0 {
        lemma_numbers_of_wrapped(values.drop_last());
        let front = wrapped(values.drop_last());
        let with = front.push(PieceView::Fixed(values.last()));
        assert(with.drop_last() =~= front);
        assert(numbers(with) =~= values);
        if values.len() % 3 == 0 {
            assert(with.push(line_end()).drop_last() =~= with);
        }
    } else {
        assert(values =~= Seq::<Seq<char>>::empty());
    }
}

/// The numbers on lines of zeros are three zeros for each line.
proof fn lemma_numbers_of_zero_lines(count: int)
    ensures
        numbers(zero_lines(count)) == zeros(3 * count),
    decreases count,
{
    if count > 0 {
        lemma_numbers_of_zero_lines(count - 1);
        lemma_numbers_add(zero_lines(count - 1), zero_line());
        lemma_numbers_of_line(seq![zero(), zero(), zero()]);
        assert(zeros(3 * (count - 1)) + seq![zero(), zero(), zero()] =~= zeros(3 * count));
    } else {
        assert(zeros(3 * count) =~= Seq::<Seq<char>>::empty());
    }
}

/// Law: the numbers of the report for the driver are the values that were
/// read from the worker's report, each where the driver looks for it, and
/// zeros in the places of what is not computed.
pub proof fn lemma_numbers_of_report(natoms: int, nder: int, parsed: ParsedView)
    ensures
        numbers(driver_report(natoms, nder, parsed)) == report_values(natoms, nder, parsed),
{
    let first = seq![PieceView::Fixed(parsed.energy)];
    let gradient = if nder >= 1 {
        gradient_block(natoms, parsed.gradient->0)
    } else {
        Seq::empty()
    };
    let hessian = if nder >= 2 {
        wrapped(lower_triangle(parsed.hessian->0, 3 * natoms))
    } else {
        Seq::empty()
    };
    lemma_numbers_add(first + zero_line() + gradient, hessian);
    lemma_numbers_add(first + zero_line(), gradient);
    lemma_numbers_add(first, zero_line());
    lemma_numbers_of_line(seq![zero(), zero(), zero()]);
    assert(zeros(3) =~= seq![zero(), zero(), zero()]);
    assert(numbers(first) == seq![parsed.energy]) by {
        assert(first =~= field_line(seq![parsed.energy]).drop_last());
        lemma_numbers_of_line(seq![parsed.energy]);
        assert(field_line(seq![parsed.energy]).last() == line_end());
    }
    assert(numbers(Seq::<PieceView>::empty()) =~= Seq::<Seq<char>>::empty());
    if nder >= 1 {
        lemma_numbers_add(
            vector_lines(parsed.gradient->0, natoms),
            zero_lines(2 + 3 * natoms),
        );
        lemma_numbers_of_vector_lines(parsed.gradient->0, natoms);
        lemma_numbers_of_zero_lines(2 + 3 * natoms);
    }
    if nder >= 2 {
        lemma_numbers_of_wrapped(lower_triangle(parsed.hessian->0, 3 * natoms));
    }
}

/// Law: the lower triangle of a matrix whose first `rows` rows reach to the
/// diagonal has as many entries as a triangle of that size has places.
pub proof fn lemma_lower_triangle_len<A>(matrix: Seq<Seq<A>>, rows: int)
    requires
        0 <= rows <= matrix.len(),
        forall|i: int| 0 <= i < rows ==> (#[trigger] matrix[i]).len() > i,
    ensures
        lower_triangle(matrix, rows).len() == triangle(rows),
    decreases rows,
{
    lemma_triangle(rows);
    if rows > 0 {
        lemma_lower_triangle_len(matrix, rows - 1);
        assert(matrix[rows - 1].len() > rows - 1);
        assert(matrix[rows - 1].take(rows).len() == rows);
    }
}

/// Law: the block that the report holds for the Hessian of `natoms` atoms
/// states as many numbers as the lower triangle of the Hessian has places.
pub proof fn lemma_hessian_fields(natoms: int, hessian: Seq<Seq<Seq<char>>>)
    requires
        0 <= natoms,
        hessian.len() == 3 * natoms,
        forall|i: int| 0 <= i < 3 * natoms ==> (#[trigger] hessian[i]).len() == 3 * natoms,
    ensures
        numbers(wrapped(lower_triangle(hessian, 3 * natoms))).len() == triangle(3 * natoms),
{
    lemma_lower_triangle_len(hessian, 3 * natoms);
    lemma_numbers_of_wrapped(lower_triangle(hessian, 3 * natoms));
}

/// Law: a gradient that the worker prints in its blocks of six atoms, that
/// is read back and written for the driver, comes out as it was, field for
/// field and atom after atom.
pub proof fn lemma_gradient_round_trip(natoms: int, gradient: Seq<Seq<Seq<char>>>)
    requires
        gradient.len() == natoms,
        forall|i: int| 0 <= i < natoms ==> (#[trigger] gradient[i]).len() == 3,
    ensures
        numbers(vector_lines(unwrap_gradient(natoms, wrap_gradient(natoms, gradient)), natoms))
            == flattened(gradient, natoms),
{
    lemma_unwrap_wrap_gradient(natoms, gradient);
    lemma_numbers_of_vector_lines(gradient, natoms);
}

/// Law: where the gradient block of a report holds the literals of a
/// gradient in the worker's layout, that gradient is what is read from the
/// report, and its coordinates, atom after atom, are the numbers of the
/// gradient's lines in the report for the driver.
pub proof fn lemma_gradient_through_report(
    natoms: int,
    lines: Seq<Seq<char>>,
    gradient: Seq<Seq<Seq<char>>>,
)
    requires
        gradient.len() == natoms,
        forall|i: int| 0 <= i < natoms ==> (#[trigger] gradient[i]).len() == 3,
        section_of(lines, Section::Gradient, 3 * natoms) == Ok::<
            Seq<Seq<char>>,
            ReportParseError,
        >(wrap_gradient(natoms, gradient)),
    ensures
        gradient_of(natoms, lines) == Ok::<Seq<Seq<Seq<char>>>, ReportParseError>(gradient),
        numbers(vector_lines(gradient_of(natoms, lines)->Ok_0, natoms)) == flattened(
            gradient,
            natoms,
        ),
{
    lemma_unwrap_wrap_gradient(natoms, gradient);
    lemma_gradient_round_trip(natoms, gradient);
    assert(gradient_of(natoms, lines)->Ok_0 == unwrap_gradient(
        natoms,
        wrap_gradient(natoms, gradient),
    ));
}

/// Adds a line of fields that hold the values of `vector`.
fn push_line(out: &mut Vec<Piece>, vector: &[Real; 3])
    ensures
        shown(final(out)@) == shown(old(out)@) + field_line(shown(vector@)),
{
    let ghost before = shown(out@);
    out.push(Piece::Fixed(vector[0].duplicate()));
    out.push(Piece::Fixed(vector[1].duplicate()));
    out.push(Piece::Fixed(vector[2].duplicate()));
    out.push(text("\n"));
    assert(shown(out@) =~= before + field_line(shown(vector@)));
}

/// Adds a line of three zeros.
fn push_zero_line(out: &mut Vec<Piece>)
    ensures
        shown(final(out)@) == shown(old(out)@) + zero_line(),
{
    let ghost before = shown(out@);
    out.push(Piece::Fixed(zero_value()));
    out.push(Piece::Fixed(zero_value()));
    out.push(Piece::Fixed(zero_value()));
    out.push(text("\n"));
    assert(shown(out@) =~= before + zero_line());
}

impl Calculation {
    /// Writes the report for the driver from what the worker reported.
    pub fn encode_report(&self, parsed: &ParsedResult) -> (out: Vec<Piece>)
        requires
            parsed@.fits(self.natoms as int, self.nder as int),
        ensures
            shown(out@) == driver_report(self.natoms as int, self.nder as int, parsed@),
    {
        let ghost natoms = self.natoms as int;
        let mut out: Vec<Piece> = Vec::new();
        out.push(Piece::Fixed(parsed.energy.duplicate()));
        assert(shown(out@) =~= seq![PieceView::Fixed(parsed@.energy)]);
        push_zero_line(&mut out);
        let ghost head = shown(out@);
        if self.nder >= 1 {
            match &parsed.gradient {
                Some(gradient) => {
                    let ghost vectors = shown_vectors(gradient@);
                    let mut atom: usize = 0;
                    assert(head + vector_lines(vectors, 0) =~= head);
                    while atom < gradient.len()
                        invariant
                            atom <= gradient@.len(),
                            vectors == shown_vectors(gradient@),
                            shown(out@) == head + vector_lines(vectors, atom as int),
                        decreases gradient@.len() - atom,
                    {
                        push_line(&mut out, &gradient[atom]);
                        atom += 1;
                        assert(shown(out@) =~= head + vector_lines(vectors, atom as int));
                    }
                    let ghost lines = shown(out@);
                    push_zero_line(&mut out);
                    push_zero_line(&mut out);
                    assert(zero_lines(2) =~= zero_lines(0) + zero_line() + zero_line()) by {
                        assert(zero_lines(1) == zero_lines(0) + zero_line());
                    }
                    assert(shown(out@) =~= lines + zero_lines(2));
                    let mut atom: usize = 0;
                    while atom < gradient.len()
                        invariant
                            atom <= gradient@.len(),
                            shown(out@) == lines + zero_lines(2 + 3 * atom),
                        decreases gradient@.len() - atom,
                    {
                        push_zero_line(&mut out);
                        push_zero_line(&mut out);
                        push_zero_line(&mut out);
                        proof {
                            let n = 2 + 3 * atom;
                            assert(zero_lines(n + 1) == zero_lines(n) + zero_line());
                            assert(zero_lines(n + 2) == zero_lines(n + 1) + zero_line());
                            assert(zero_lines(n + 3) == zero_lines(n + 2) + zero_line());
                            assert(shown(out@) =~= lines + zero_lines(n + 3));
                        }
                        atom += 1;
                    }
                    assert(shown(out@) =~= head + gradient_block(natoms, vectors));
                },
                None => {},
            }
        }
        let ghost middle = shown(out@);
        if self.nder >= 2 {
            match &parsed.hessian {
                Some(hessian) => {
                    let ghost matrix = shown_matrix(hessian@);
                    let mut count: usize = 0;
                    let mut row: usize = 0;
                    assert(middle + wrapped(lower_triangle(matrix, 0)) =~= middle);
                    while row < hessian.len()
                        invariant
                            row <= hessian@.len(),
                            hessian@.len() == 3 * natoms,
                            parsed@.hessian == Some(matrix),
                            parsed@.fits(natoms, self.nder as int),
                            self.nder >= 2,
                            matrix == shown_matrix(hessian@),
                            count < 3,
                            count == lower_triangle(matrix, row as int).len() % 3,
                            shown(out@) == middle + wrapped(lower_triangle(matrix, row as int)),
                        decreases hessian@.len() - row,
                    {
                        let entries = &hessian[row];
                        let ghost above = lower_triangle(matrix, row as int);
                        assert(matrix[row as int].len() == 3 * natoms);
                        assert(matrix[row as int] == shown(entries@));
                        let mut col: usize = 0;
                        assert(above + matrix[row as int].take(0) =~= above);
                        while col <= row
                            invariant
                                col <= row + 1,
                                row < entries@.len() <= usize::MAX,
                                row < matrix.len(),
                                matrix[row as int] == shown(entries@),
                                count < 3,
                                count == (above + matrix[row as int].take(col as int)).len() % 3,
                                shown(out@) == middle + wrapped(
                                    above + matrix[row as int].take(col as int),
                                ),
                            decreases row + 1 - col,
                        {
                            let ghost sofar = above + matrix[row as int].take(col as int);
                            let ghost next = above + matrix[row as int].take(col + 1);
                            let ghost before = shown(out@);
                            proof {
                                assert(next.drop_last() =~= sofar);
                                assert(next.last() == entries@[col as int]@);
                            }
                            out.push(Piece::Fixed(entries[col].duplicate()));
                            count += 1;
                            if count == 3 {
                                out.push(text("\n"));
                                count = 0;
                                assert(shown(out@) =~= before.push(
                                    PieceView::Fixed(next.last()),
                                ).push(line_end()));
                            } else {
                                assert(shown(out@) =~= before.push(PieceView::Fixed(next.last())));
                            }
                            assert(shown(out@) =~= middle + wrapped(next));
                            col += 1;
                        }
                        row += 1;
                    }
                },
                None => {},
            }
        }
        out
    }

    /// Writes the report for the driver from what the worker reported, if
    /// that holds what this calculation asks for.
    pub fn try_encode_report(&self, parsed: &ParsedResult) -> (r: Result<
        Vec<Piece>,
        EncodingError,
    >)
        ensures
            match r {
                Ok(out) => parsed@.fits(self.natoms as int, self.nder as int) && shown(out@)
                    == driver_report(self.natoms as int, self.nder as int, parsed@),
                Err(_) => !parsed@.fits(self.natoms as int, self.nder as int),
            },
    {
        if parsed.fits(self.natoms, self.nder) {
            Ok(self.encode_report(parsed))
        } else {
            Err(EncodingError)
        }
    }

    /// Translates the worker's report into the report for the driver: reads
    /// what the derivative order asks for, and writes it in the driver's
    /// layout.
    pub fn translate_qchem(&self, qchem_out: &str) -> (r: Result<Vec<Piece>, ReportParseError>)
        ensures
            match report_of(self.natoms as int, self.nder as int, qchem_out@) {
                Ok(parsed) => r is Ok && shown(r->Ok_0@) == driver_report(
                    self.natoms as int,
                    self.nder as int,
                    parsed,
                ),
                Err(e) => r == Err::<Vec<Piece>, ReportParseError>(e),
            },
    {
        match parse_report(self.natoms, self.nder, qchem_out) {
            Ok(parsed) => {
                proof {
                    lemma_report_fits(self.natoms as int, self.nder as int, qchem_out@);
                }
                Ok(self.encode_report(&parsed))
            },
            Err(e) => Err(e),
        }
    }
}

} // verus!
