//! Reading the worker's report: the energy line, the gradient block and the
//! Hessian block, each found by the text that marks it.
use crate::layout::{
    gradient_position, hessian_index, lemma_gradient_position, lemma_hessian_position,
    lemma_triangle, lemma_unwrap_hessian_symmetric, shown_matrix, shown_vectors, triangle,
    unwrap_gradient, unwrap_hessian,
};
use crate::number::{is_real_literal, shown, Real};
use crate::text::{
    after_tag, holds, lines, split_lines, split_whitespace, strip_tag, to_chars, tokens, trim,
    trimmed, views,
};
use vstd::prelude::*;

verus! {

/// The blocks of the report that hold more than one number.
#[derive(Debug, Clone, Copy, PartialEq, Eq)]
pub enum Section {
    /// The gradient of the energy.
    Gradient,
    /// The matrix of second derivatives of the energy.
    Hessian,
}

/// Why a report could not be read.
#[derive(Debug, Clone, Copy, PartialEq, Eq)]
pub enum ReportParseError {
    /// No line begins with the text that marks the energy.
    EnergyTagNotFound,
    /// What follows the text that marks the energy is no number.
    EnergyParseError,
    /// The line that opens the block is missing, or no line after it closes
    /// the block.
    SectionNotFound { section: Section },
    /// The block holds only `found` numbers, fewer than the atoms call for.
    SectionTruncated { section: Section, found: usize },
    /// A token of the block that holds a point is no number.
    SectionMalformed { section: Section },
}

/// What the worker reported, as far as the derivative order asks for it.
#[derive(Debug, PartialEq, Eq)]
pub struct ParsedResult {
    /// The total energy.
    pub energy: Real,
    /// The gradient, one vector for each atom.
    pub gradient: Option<Vec<[Real; 3]>>,
    /// The Hessian, in full: both triangles are there.
    pub hessian: Option<Vec<Vec<Real>>>,
}

/// What a `ParsedResult` shows: the literal of each of its numbers.
pub struct ParsedView {
    pub energy: Seq<char>,
    pub gradient: Option<Seq<Seq<Seq<char>>>>,
    pub hessian: Option<Seq<Seq<Seq<char>>>>,
}

impl View for ParsedResult {
    type V = ParsedView;

    open spec fn view(&self) -> ParsedView {
        ParsedView {
            energy: self.energy@,
            gradient: match self.gradient {
                Some(vectors) => Some(shown_vectors(vectors@)),
                None => None,
            },
            hessian: match self.hessian {
                Some(rows) => Some(shown_matrix(rows@)),
                None => None,
            },
        }
    }
}

/// The text that marks the line of the total energy.
pub open spec fn energy_tag() -> Seq<char> {
    "Total energy in the final basis set ="@
}

/// The text that marks the line on which a block opens.
pub open spec fn start_tag(section: Section) -> Seq<char> {
    match section {
        Section::Gradient => "Gradient of SCF Energy"@,
        Section::Hessian => "Hessian of the SCF Energy"@,
    }
}

/// The text that marks the line before which a block closes.
pub open spec fn end_tag(section: Section) -> Seq<char> {
    match section {
        Section::Gradient => "Max gradient"@,
        Section::Hessian => "Mass-Weighted Hessian Matrix"@,
    }
}

/// The index of the first line from `from` on that begins with `tag`,
/// leading white space aside; the number of lines, if there is none.
pub open spec fn first_tagged(lines: Seq<Seq<char>>, tag: Seq<char>, from: int) -> int
    decreases lines.len() - from,
{
    if from >= lines.len() {
        lines.len() as int
    } else if after_tag(lines[from], tag) is Some {
        from
    } else {
        first_tagged(lines, tag, from + 1)
    }
}

/// The tokens that hold a point, in their order: the values of a block,
/// without the labels of rows and columns that stand among them.
pub open spec fn dotted(tokens: Seq<Seq<char>>) -> Seq<Seq<char>>
    decreases tokens.len(),
{
    if tokens.len() == 0 {
        Seq::empty()
    } else if tokens.last().contains('.') {
        dotted(tokens.drop_last()).push(tokens.last())
    } else {
        dotted(tokens.drop_last())
    }
}

/// The tokens that hold a point of the lines from `from` up to, and without,
/// `to`.
pub open spec fn values_between(lines: Seq<Seq<char>>, from: int, to: int) -> Seq<Seq<char>>
    decreases to - from,
{
    if from >= to {
        Seq::empty()
    } else {
        values_between(lines, from, to - 1) + dotted(tokens(lines[to - 1]))
    }
}

/// Whether every text is the literal of a real number.
pub open spec fn all_real(texts: Seq<Seq<char>>) -> bool {
    forall|i: int| 0 <= i < texts.len() ==> is_real_literal(#[trigger] texts[i])
}

/// The energy that a report states: the number that follows the energy's
/// mark on the first line that begins with it.
pub open spec fn energy_of(lines: Seq<Seq<char>>) -> Result<Seq<char>, ReportParseError> {
    let at = first_tagged(lines, energy_tag(), 0);
    if at >= lines.len() {
        Err(ReportParseError::EnergyTagNotFound)
    } else {
        let token = trimmed(after_tag(lines[at], energy_tag())->0);
        if is_real_literal(token) {
            Ok(token)
        } else {
            Err(ReportParseError::EnergyParseError)
        }
    }
}

/// The numbers of a block: the tokens with a point from the first line that
/// opens the block up to the first line, from that one on, that closes it.
/// A missing line is reported before a token that is no number.
pub open spec fn section_values(lines: Seq<Seq<char>>, section: Section) -> Result<
    Seq<Seq<char>>,
    ReportParseError,
> {
    let start = first_tagged(lines, start_tag(section), 0);
    let end = first_tagged(lines, end_tag(section), start);
    if start >= lines.len() || end >= lines.len() {
        Err(ReportParseError::SectionNotFound { section })
    } else if !all_real(values_between(lines, start, end)) {
        Err(ReportParseError::SectionMalformed { section })
    } else {
        Ok(values_between(lines, start, end))
    }
}

/// The first `count` numbers of a block. Too few numbers are reported after
/// a missing line and a token that is no number.
pub open spec fn section_of(lines: Seq<Seq<char>>, section: Section, count: int) -> Result<
    Seq<Seq<char>>,
    ReportParseError,
> {
    match section_values(lines, section) {
        Err(e) => Err(e),
        Ok(found) => if found.len() < count {
            Err(ReportParseError::SectionTruncated { section, found: found.len() as usize })
        } else {
            Ok(found.take(count))
        },
    }
}

/// The gradient that a report states for `natom` atoms.
pub open spec fn gradient_of(natom: int, lines: Seq<Seq<char>>) -> Result<
    Seq<Seq<Seq<char>>>,
    ReportParseError,
> {
    match section_of(lines, Section::Gradient, 3 * natom) {
        Err(e) => Err(e),
        Ok(stream) => Ok(unwrap_gradient(natom, stream)),
    }
}

/// The Hessian that a report states for `natom` atoms.
pub open spec fn hessian_of(natom: int, lines: Seq<Seq<char>>) -> Result<
    Seq<Seq<Seq<char>>>,
    ReportParseError,
> {
    match section_of(lines, Section::Hessian, triangle(3 * natom)) {
        Err(e) => Err(e),
        Ok(stream) => Ok(unwrap_hessian(3 * natom, stream)),
    }
}

/// What a report states for `natoms` atoms and the derivative order `nder`:
/// the energy, from the first order on the gradient, and from the second on
/// the Hessian. The first part that cannot be read decides the error.
pub open spec fn report_of(natoms: int, nder: int, text: Seq<char>) -> Result<
    ParsedView,
    ReportParseError,
> {
    let lines = lines(text);
    match energy_of(lines) {
        Err(e) => Err(e),
        Ok(energy) => if nder < 1 {
            Ok(ParsedView { energy, gradient: None, hessian: None })
        } else {
            match gradient_of(natoms, lines) {
                Err(e) => Err(e),
                Ok(gradient) => if nder < 2 {
                    Ok(ParsedView { energy, gradient: Some(gradient), hessian: None })
                } else {
                    match hessian_of(natoms, lines) {
                        Err(e) => Err(e),
                        Ok(hessian) => Ok(
                            ParsedView { energy, gradient: Some(gradient), hessian: Some(hessian) },
                        ),
                    }
                },
            }
        },
    }
}

/// The index of the first line from `from` on that begins with `tag`.
fn find_tagged(lines: &Vec<&[char]>, tag: &[char], from: usize) -> (at: usize)
    ensures
        at == first_tagged(views(lines@), tag@, from as int),
        at <= lines@.len(),
        at < lines@.len() ==> from <= at && after_tag(lines@[at as int]@, tag@) is Some,
{
    let mut at: usize = from;
    while at < lines.len()
        invariant
            from <= at,
            first_tagged(views(lines@), tag@, from as int) == first_tagged(
                views(lines@),
                tag@,
                at as int,
            ),
        decreases lines@.len() - at,
    {
        assert(views(lines@)[at as int] == lines@[at as int]@);
        if strip_tag(lines[at], tag).is_some() {
            return at;
        }
        at += 1;
    }
    lines.len()
}

/// The numbers of a block, or the reason why it holds none.
fn read_section(lines: &Vec<&[char]>, section: Section) -> (r: Result<Vec<Real>, ReportParseError>)
    ensures
        match section_values(views(lines@), section) {
            Ok(found) => r is Ok && shown(r->Ok_0@) == found,
            Err(e) => r == Err::<Vec<Real>, ReportParseError>(e),
        },
{
    let (opens, closes) = match section {
        Section::Gradient => (to_chars("Gradient of SCF Energy"), to_chars("Max gradient")),
        Section::Hessian => (
            to_chars("Hessian of the SCF Energy"),
            to_chars("Mass-Weighted Hessian Matrix"),
        ),
    };
    let start = find_tagged(lines, opens.as_slice(), 0);
    let end = find_tagged(lines, closes.as_slice(), start);
    if start >= lines.len() || end >= lines.len() {
        return Err(ReportParseError::SectionNotFound { section });
    }
    let ghost all = views(lines@);
    let mut values: Vec<Real> = Vec::new();
    let mut at: usize = start;
    assert(shown(values@) =~= values_between(all, start as int, start as int));
    while at < end
        invariant
            start <= at <= end < lines@.len(),
            all == views(lines@),
            shown(values@) == values_between(all, start as int, at as int),
            all_real(shown(values@)),
            first_tagged(all, start_tag(section), 0) == start,
            first_tagged(all, end_tag(section), start as int) == end,
        decreases end - at,
    {
        assert(all[at as int] == lines@[at as int]@);
        let found = split_whitespace(lines[at]);
        let ghost before = shown(values@);
        let ghost line = tokens(all[at as int]);
        let mut i: usize = 0;
        assert(line.take(0) =~= Seq::<Seq<char>>::empty());
        assert(before + dotted(line.take(0)) =~= before);
        while i < found.len()
            invariant
                i <= found@.len(),
                start <= at < end < lines@.len(),
                views(found@) == line,
                all == views(lines@),
                before == values_between(all, start as int, at as int),
                line == tokens(all[at as int]),
                shown(values@) == before + dotted(line.take(i as int)),
                all_real(shown(values@)),
                first_tagged(all, start_tag(section), 0) == start,
                first_tagged(all, end_tag(section), start as int) == end,
            decreases found@.len() - i,
        {
            let token = found[i];
            let ghost next = line.take(i + 1);
            proof {
                assert(views(found@)[i as int] == token@);
                assert(next.drop_last() =~= line.take(i as int));
                assert(next.last() == token@);
            }
            if holds(token, '.') {
                match Real::from_chars(token) {
                    Some(value) => {
                        let ghost old_values = values@;
                        values.push(value);
                        assert(shown(values@) =~= shown(old_values).push(token@));
                        assert(shown(values@) =~= before + dotted(next));
                    },
                    None => {
                        proof {
                            lemma_values_hold(all, start as int, at as int, end as int, i as int);
                            let block = values_between(all, start as int, end as int);
                            let k = choose|k: int| 0 <= k < block.len() && block[k] == line[i as int];
                            assert(!is_real_literal(block[k]));
                        }
                        return Err(ReportParseError::SectionMalformed { section });
                    },
                }
            }
            i += 1;
        }
        proof {
            assert(line.take(i as int) =~= line);
            assert(values_between(all, start as int, at + 1) == values_between(
                all,
                start as int,
                at as int,
            ) + dotted(tokens(all[at as int])));
        }
        at += 1;
    }
    Ok(values)
}

/// A token with a point on a line of a block is one of the block's values.
proof fn lemma_values_hold(lines: Seq<Seq<char>>, start: int, at: int, end: int, i: int)
    requires
        0 <= start <= at < end <= lines.len(),
        0 <= i < tokens(lines[at]).len(),
        tokens(lines[at])[i].contains('.'),
    ensures
        values_between(lines, start, end).contains(tokens(lines[at])[i]),
    decreases end - at,
{
    let line = tokens(lines[at]);
    let upto = values_between(lines, start, end - 1);
    let last = dotted(tokens(lines[end - 1]));
    if at == end - 1 {
        lemma_dotted_holds(line, i);
        let k = choose|k: int| 0 <= k < last.len() && last[k] == line[i];
        assert((upto + last)[upto.len() + k] == line[i]);
    } else {
        lemma_values_hold(lines, start, at, end - 1, i);
        let k = choose|k: int| 0 <= k < upto.len() && upto[k] == line[i];
        assert((upto + last)[k] == line[i]);
    }
}

/// A token with a point is among the tokens with a point.
proof fn lemma_dotted_holds(tokens: Seq<Seq<char>>, i: int)
    requires
        0 <= i < tokens.len(),
        tokens[i].contains('.'),
    ensures
        dotted(tokens).contains(tokens[i]),
    decreases tokens.len(),
{
    let front = dotted(tokens.drop_last());
    if i == tokens.len() - 1 {
        assert(dotted(tokens)[front.len() as int] == tokens[i]);
    } else {
        lemma_dotted_holds(tokens.drop_last(), i);
        let k = choose|k: int| 0 <= k < front.len() && front[k] == tokens.drop_last()[i];
        assert(dotted(tokens)[k] == tokens[i]);
    }
}

/// The energy that the lines of a report state.
fn read_energy(lines: &Vec<&[char]>) -> (r: Result<Real, ReportParseError>)
    ensures
        match energy_of(views(lines@)) {
            Ok(energy) => r is Ok && r->Ok_0@ == energy,
            Err(e) => r == Err::<Real, ReportParseError>(e),
        },
{
    let tag = to_chars("Total energy in the final basis set =");
    let at = find_tagged(lines, tag.as_slice(), 0);
    if at >= lines.len() {
        return Err(ReportParseError::EnergyTagNotFound);
    }
    assert(views(lines@)[at as int] == lines@[at as int]@);
    match strip_tag(lines[at], tag.as_slice()) {
        Some(rest) => match Real::from_chars(trim(rest)) {
            Some(energy) => Ok(energy),
            None => Err(ReportParseError::EnergyParseError),
        },
        None => Err(ReportParseError::EnergyTagNotFound),
    }
}

/// The gradient that the lines of a report state for `natom` atoms.
fn read_gradient(natom: usize, lines: &Vec<&[char]>) -> (r: Result<
    Vec<[Real; 3]>,
    ReportParseError,
>)
    ensures
        match gradient_of(natom as int, views(lines@)) {
            Ok(gradient) => r is Ok && shown_vectors(r->Ok_0@) == gradient,
            Err(e) => r == Err::<Vec<[Real; 3]>, ReportParseError>(e),
        },
{
    let values = match read_section(lines, Section::Gradient) {
        Ok(values) => values,
        Err(e) => {
            return Err(e);
        },
    };
    if natom > usize::MAX / 3 || values.len() < 3 * natom {
        return Err(
            ReportParseError::SectionTruncated { section: Section::Gradient, found: values.len() },
        );
    }
    let ghost stream = shown(values@).take(3 * natom);
    let mut out: Vec<[Real; 3]> = Vec::new();
    let mut atom: usize = 0;
    while atom < natom
        invariant
            atom <= natom,
            3 * natom <= values@.len() <= usize::MAX,
            stream == shown(values@).take(3 * natom),
            out@.len() == atom,
            forall|a: int|
                0 <= a < atom ==> shown((#[trigger] out@[a])@) == unwrap_gradient(
                    natom as int,
                    stream,
                )[a],
        decreases natom - atom,
    {
        let block = atom / 6;
        let left = natom - 6 * block;
        let width = if left < 6 {
            left
        } else {
            6
        };
        proof {
            lemma_gradient_position(natom as int, atom as int, 0);
            lemma_gradient_position(natom as int, atom as int, 1);
            lemma_gradient_position(natom as int, atom as int, 2);
            assert(gradient_position(natom as int, atom as int, 1) == gradient_position(
                natom as int,
                atom as int,
                0,
            ) + width) by (nonlinear_arith)
                requires
                    gradient_position(natom as int, atom as int, 1) == 18 * block + 1 * width
                        + atom % 6,
                    gradient_position(natom as int, atom as int, 0) == 18 * block + 0 * width
                        + atom % 6,
            ;
            assert(gradient_position(natom as int, atom as int, 2) == gradient_position(
                natom as int,
                atom as int,
                0,
            ) + 2 * width) by (nonlinear_arith)
                requires
                    gradient_position(natom as int, atom as int, 2) == 18 * block + 2 * width
                        + atom % 6,
                    gradient_position(natom as int, atom as int, 0) == 18 * block + 0 * width
                        + atom % 6,
            ;
        }
        assert(18 * block <= 3 * atom);
        let x = 18 * block + atom % 6;
        let y = x + width;
        let z = y + width;
        let vector = [values[x].duplicate(), values[y].duplicate(), values[z].duplicate()];
        proof {
            let wanted = unwrap_gradient(natom as int, stream)[atom as int];
            assert(shown(vector@) =~= wanted);
        }
        out.push(vector);
        atom += 1;
    }
    assert(shown_vectors(out@) =~= unwrap_gradient(natom as int, stream));
    Ok(out)
}

/// The Hessian that the lines of a report state for `natom` atoms.
fn read_hessian(natom: usize, lines: &Vec<&[char]>) -> (r: Result<
    Vec<Vec<Real>>,
    ReportParseError,
>)
    ensures
        match hessian_of(natom as int, views(lines@)) {
            Ok(hessian) => r is Ok && shown_matrix(r->Ok_0@) == hessian,
            Err(e) => r == Err::<Vec<Vec<Real>>, ReportParseError>(e),
        },
{
    let values = match read_section(lines, Section::Hessian) {
        Ok(values) => values,
        Err(e) => {
            return Err(e);
        },
    };
    let truncated = ReportParseError::SectionTruncated {
        section: Section::Hessian,
        found: values.len(),
    };
    proof {
        lemma_triangle(3 * natom);
        if 3 * natom > usize::MAX {
            assert(triangle(3 * natom) >= 3 * natom) by (nonlinear_arith)
                requires
                    2 * triangle(3 * natom) == (3 * natom) * (3 * natom + 1),
                    3 * natom >= 1,
            ;
        }
    }
    if natom > usize::MAX / 3 {
        return Err(truncated);
    }
    let n = 3 * natom;
    let wide: u128 = n as u128;
    assert(wide * (wide + 1) <= u128::MAX) by (nonlinear_arith)
        requires
            wide <= 0xffff_ffff_ffff_ffff,
    ;
    let needed: u128 = wide * (wide + 1) / 2;
    if (values.len() as u128) < needed {
        return Err(truncated);
    }
    let ghost stream = shown(values@).take(triangle(n as int));
    let mut out: Vec<Vec<Real>> = Vec::new();
    let mut row: usize = 0;
    assert(values@.len() <= usize::MAX);
    while row < n
        invariant
            row <= n,
            values@.len() <= usize::MAX,
            n == 3 * natom,
            triangle(n as int) <= values@.len(),
            stream == shown(values@).take(triangle(n as int)),
            out@.len() == row,
            forall|r: int|
                0 <= r < row ==> shown((#[trigger] out@[r])@) == unwrap_hessian(n as int, stream)[r],
        decreases n - row,
    {
        let mut entries: Vec<Real> = Vec::new();
        let mut col: usize = 0;
        while col < n
            invariant
                col <= n,
                row < n,
                values@.len() <= usize::MAX,
                triangle(n as int) <= values@.len(),
                stream == shown(values@).take(triangle(n as int)),
                entries@.len() == col,
                forall|c: int|
                    0 <= c < col ==> (#[trigger] entries@[c])@ == unwrap_hessian(
                        n as int,
                        stream,
                    )[row as int][c],
            decreases n - col,
        {
            let at = if col <= row {
                proof {
                    lemma_hessian_position(n as int, row as int, col as int);
                }
                hessian_index(n, row, col)
            } else {
                proof {
                    lemma_hessian_position(n as int, col as int, row as int);
                }
                hessian_index(n, col, row)
            };
            entries.push(values[at].duplicate());
            col += 1;
        }
        assert(shown(entries@) =~= unwrap_hessian(n as int, stream)[row as int]);
        out.push(entries);
        row += 1;
    }
    assert(shown_matrix(out@) =~= unwrap_hessian(n as int, stream));
    Ok(out)
}

/// The total energy that a report states: the number that follows the
/// energy's mark on the first line that begins with it.
pub fn parse_energy(qchem_out: &str) -> (r: Result<Real, ReportParseError>)
    ensures
        match energy_of(lines(qchem_out@)) {
            Ok(energy) => r is Ok && r->Ok_0@ == energy,
            Err(e) => r == Err::<Real, ReportParseError>(e),
        },
{
    let chars = to_chars(qchem_out);
    let lines = split_lines(chars.as_slice());
    read_energy(&lines)
}

/// The gradient that a report states for `natom` atoms: one vector for each
/// atom, read back from the worker's blocks of six atoms.
pub fn parse_gradient(natom: usize, qchem_out: &str) -> (r: Result<
    Vec<[Real; 3]>,
    ReportParseError,
>)
    ensures
        match gradient_of(natom as int, lines(qchem_out@)) {
            Ok(gradient) => r is Ok && shown_vectors(r->Ok_0@) == gradient,
            Err(e) => r == Err::<Vec<[Real; 3]>, ReportParseError>(e),
        },
{
    let chars = to_chars(qchem_out);
    let lines = split_lines(chars.as_slice());
    read_gradient(natom, &lines)
}

/// The Hessian that a report states for `natom` atoms: the full symmetric
/// matrix, read back from the worker's bands of six columns.
pub fn parse_hessian(natom: usize, qchem_out: &str) -> (r: Result<
    Vec<Vec<Real>>,
    ReportParseError,
>)
    ensures
        match hessian_of(natom as int, lines(qchem_out@)) {
            Ok(hessian) => r is Ok && shown_matrix(r->Ok_0@) == hessian,
            Err(e) => r == Err::<Vec<Vec<Real>>, ReportParseError>(e),
        },
        r is Ok ==> forall|i: int, j: int|
            0 <= i < 3 * natom && 0 <= j < 3 * natom ==> shown_matrix(r->Ok_0@)[i][j]
                == shown_matrix(r->Ok_0@)[j][i],
{
    let chars = to_chars(qchem_out);
    let lines = split_lines(chars.as_slice());
    let r = read_hessian(natom, &lines);
    proof {
        if r is Ok {
            let matrix = shown_matrix(r->Ok_0@);
            assert forall|i: int, j: int|
                0 <= i < 3 * natom && 0 <= j < 3 * natom implies matrix[i][j] == matrix[j][i] by {
                lemma_unwrap_hessian_symmetric(3 * natom, section_of(
                    crate::text::lines(qchem_out@),
                    Section::Hessian,
                    triangle(3 * natom),
                )->Ok_0, i, j);
            }
        }
    }
    r
}

/// What a report states for `natoms` atoms at the derivative order `nder`.
pub fn parse_report(natoms: usize, nder: usize, qchem_out: &str) -> (r: Result<
    ParsedResult,
    ReportParseError,
>)
    ensures
        match report_of(natoms as int, nder as int, qchem_out@) {
            Ok(parsed) => r is Ok && r->Ok_0@ == parsed,
            Err(e) => r == Err::<ParsedResult, ReportParseError>(e),
        },
{
    let chars = to_chars(qchem_out);
    let lines = split_lines(chars.as_slice());
    let energy = match read_energy(&lines) {
        Ok(energy) => energy,
        Err(e) => {
            return Err(e);
        },
    };
    if nder < 1 {
        return Ok(ParsedResult { energy, gradient: None, hessian: None });
    }
    let gradient = match read_gradient(natoms, &lines) {
        Ok(gradient) => gradient,
        Err(e) => {
            return Err(e);
        },
    };
    if nder < 2 {
        return Ok(ParsedResult { energy, gradient: Some(gradient), hessian: None });
    }
    let hessian = match read_hessian(natoms, &lines) {
        Ok(hessian) => hessian,
        Err(e) => {
            return Err(e);
        },
    };
    Ok(ParsedResult { energy, gradient: Some(gradient), hessian: Some(hessian) })
}

} // verus!
