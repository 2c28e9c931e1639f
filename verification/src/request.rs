//! Reading the driver's request: a header of four integers, then one line
//! in fixed columns for each atom.
use crate::fields::{fields, parse_fields, FieldError};
use crate::layout::shown_vectors;
use crate::number::{shown, Real};
use crate::text::{lines, split_lines, to_chars, views};
use vstd::prelude::*;
use vstd::slice::slice_subrange;

verus! {

/// One request of the driver: what is to be computed, and for which
/// molecule.
#[derive(Debug, PartialEq, Eq)]
pub struct Calculation {
    /// The number of atoms.
    pub natoms: usize,
    /// The order of the derivatives asked for: 0 for the energy alone, 1 for
    /// the gradient too, 2 for the Hessian too.
    pub nder: usize,
    /// The net charge of the molecule.
    pub charge: i8,
    /// The spin multiplicity of the molecule.
    pub spin: i8,
    /// The atomic number of each atom.
    pub z: Vec<u8>,
    /// The Cartesian coordinates of each atom.
    pub coords: Vec<[Real; 3]>,
}

/// What a `Calculation` holds, its numbers shown as literals.
pub struct CalculationView {
    pub natoms: nat,
    pub nder: nat,
    pub charge: int,
    pub spin: int,
    pub z: Seq<u8>,
    pub coords: Seq<Seq<Seq<char>>>,
}

impl View for Calculation {
    type V = CalculationView;

    open spec fn view(&self) -> CalculationView {
        CalculationView {
            natoms: self.natoms as nat,
            nder: self.nder as nat,
            charge: self.charge as int,
            spin: self.spin as int,
            z: self.z@,
            coords: shown_vectors(self.coords@),
        }
    }
}

impl Calculation {
    /// Whether there is one atomic number and one position for each atom.
    pub open spec fn well_formed(&self) -> bool {
        self.z@.len() == self.natoms && self.coords@.len() == self.natoms
    }
}

/// Why a request could not be read.
#[derive(Debug, Clone, Copy, PartialEq, Eq)]
pub enum RequestFormatError {
    /// The request has no first line.
    TruncatedHeader,
    /// The request has fewer lines of atoms than its header announces.
    TruncatedBody,
    /// The line of the atom `index`, counted from 0, cannot be read.
    MalformedAtomLine { index: usize, cause: FieldError },
    /// The header holds `actual` tokens, not `expected`.
    CountMismatch { expected: usize, actual: usize },
    /// A token of the header is no small integer, or the number of atoms or
    /// the derivative order is negative.
    MalformedToken,
}

/// The width of the column that holds the atomic number.
pub const NUMBER_COLUMN: usize = 11;

/// Where a line of an atom is cut: after the number's column, or at the end
/// of a shorter line.
pub open spec fn cut_of(line: Seq<char>) -> int {
    if line.len() < NUMBER_COLUMN {
        line.len() as int
    } else {
        NUMBER_COLUMN as int
    }
}

/// The atom that a line describes: the atomic number from the first column,
/// and the position from the first three of the four numbers after it.
pub open spec fn atom_of(line: Seq<char>) -> Result<(u8, Seq<Seq<char>>), FieldError> {
    match fields::<u8>(line.take(cut_of(line)), 1) {
        Err(e) => Err(e),
        Ok(number) => match fields::<Real>(line.skip(cut_of(line)), 4) {
            Err(e) => Err(e),
            Ok(values) => Ok((number[0], values.take(3))),
        },
    }
}

/// The first `count` atoms of a request, one from each line after the
/// header. The first atom whose line is missing or cannot be read decides
/// the error.
pub open spec fn atoms_of(lines: Seq<Seq<char>>, count: int) -> Result<
    Seq<(u8, Seq<Seq<char>>)>,
    RequestFormatError,
>
    decreases count,
{
    if count <= 0 {
        Ok(Seq::empty())
    } else {
        match atoms_of(lines, count - 1) {
            Err(e) => Err(e),
            Ok(before) => if count >= lines.len() {
                Err(RequestFormatError::TruncatedBody)
            } else {
                match atom_of(lines[count]) {
                    Err(cause) => Err(
                        RequestFormatError::MalformedAtomLine {
                            index: (count - 1) as usize,
                            cause,
                        },
                    ),
                    Ok(atom) => Ok(before.push(atom)),
                }
            },
        }
    }
}

/// The calculation that a request describes. The header is read first,
/// then the atoms in their order.
pub open spec fn request_of(text: Seq<char>) -> Result<CalculationView, RequestFormatError> {
    let lines = lines(text);
    if lines.len() == 0 {
        Err(RequestFormatError::TruncatedHeader)
    } else {
        match fields::<i8>(lines[0], 4) {
            Err(FieldError::MalformedToken) => Err(RequestFormatError::MalformedToken),
            Err(FieldError::CountMismatch { expected, actual }) => Err(
                RequestFormatError::CountMismatch { expected, actual },
            ),
            Ok(header) => if header[0] < 0 || header[1] < 0 {
                Err(RequestFormatError::MalformedToken)
            } else {
                match atoms_of(lines, header[0] as int) {
                    Err(e) => Err(e),
                    Ok(atoms) => Ok(
                        CalculationView {
                            natoms: header[0] as nat,
                            nder: header[1] as nat,
                            charge: header[2] as int,
                            spin: header[3] as int,
                            z: Seq::new(atoms.len(), |i: int| atoms[i].0),
                            coords: Seq::new(atoms.len(), |i: int| atoms[i].1),
                        },
                    ),
                }
            },
        }
    }
}

/// The atom that a line describes.
fn read_atom(line: &[char]) -> (r: Result<(u8, [Real; 3]), FieldError>)
    ensures
        match atom_of(line@) {
            Ok(atom) => r is Ok && r->Ok_0.0 == atom.0 && shown(r->Ok_0.1@) == atom.1,
            Err(e) => r == Err::<(u8, [Real; 3]), FieldError>(e),
        },
{
    let cut = if line.len() < NUMBER_COLUMN {
        line.len()
    } else {
        NUMBER_COLUMN
    };
    assert(line@.take(cut as int) =~= line@.subrange(0, cut as int));
    assert(line@.skip(cut as int) =~= line@.subrange(cut as int, line@.len() as int));
    let number = match parse_fields::<u8>(slice_subrange(line, 0, cut), 1) {
        Ok(number) => number,
        Err(e) => {
            return Err(e);
        },
    };
    let values = match parse_fields::<Real>(slice_subrange(line, cut, line.len()), 4) {
        Ok(values) => values,
        Err(e) => {
            return Err(e);
        },
    };
    let position = [values[0].duplicate(), values[1].duplicate(), values[2].duplicate()];
    assert(shown(position@) =~= shown(values@).take(3));
    assert(shown(number@)[0] == number@[0]);
    Ok((number[0], position))
}

impl Calculation {
    /// Reads a request of the driver: the first line holds the number of
    /// atoms, the derivative order, the charge and the spin; each of the
    /// lines after it holds one atom.
    pub fn from_ext(gaussfile: &str) -> (r: Result<Calculation, RequestFormatError>)
        ensures
            match request_of(gaussfile@) {
                Ok(calculation) => r is Ok && r->Ok_0@ == calculation && r->Ok_0.well_formed(),
                Err(e) => r == Err::<Calculation, RequestFormatError>(e),
            },
    {
        let chars = to_chars(gaussfile);
        let lines = split_lines(chars.as_slice());
        if lines.len() == 0 {
            return Err(RequestFormatError::TruncatedHeader);
        }
        assert(views(lines@)[0] == lines@[0]@);
        let header = match parse_fields::<i8>(lines[0], 4) {
            Ok(header) => header,
            Err(FieldError::MalformedToken) => {
                return Err(RequestFormatError::MalformedToken);
            },
            Err(FieldError::CountMismatch { expected, actual }) => {
                return Err(RequestFormatError::CountMismatch { expected, actual });
            },
        };
        assert(shown(header@)[0] == header@[0] && shown(header@)[1] == header@[1] && shown(
            header@,
        )[2] == header@[2] && shown(header@)[3] == header@[3]);
        if header[0] < 0 || header[1] < 0 {
            return Err(RequestFormatError::MalformedToken);
        }
        let natoms = header[0] as usize;
        let nder = header[1] as usize;
        let ghost all = views(lines@);
        let ghost head = shown(header@);
        let mut z: Vec<u8> = Vec::new();
        let mut coords: Vec<[Real; 3]> = Vec::new();
        let mut i: usize = 0;
        while i < natoms
            invariant
                i <= natoms <= 127,
                all == views(lines@),
                all == crate::text::lines(gaussfile@),
                all.len() > 0,
                fields::<i8>(all[0], 4) == Ok::<Seq<i8>, FieldError>(head),
                head[0] == natoms,
                head[1] >= 0,
                z@.len() == i,
                coords@.len() == i,
                atoms_of(all, i as int) is Ok,
                atoms_of(all, i as int)->Ok_0.len() == i,
                forall|k: int|
                    0 <= k < i ==> (#[trigger] atoms_of(all, i as int)->Ok_0[k]) == (
                        z@[k],
                        shown(coords@[k]@),
                    ),
            decreases natoms - i,
        {
            let ghost before = atoms_of(all, i as int)->Ok_0;
            if i + 1 >= lines.len() {
                proof {
                    lemma_atoms_of_stays(all, i + 1, natoms as int);
                }
                return Err(RequestFormatError::TruncatedBody);
            }
            assert(all[i + 1] == lines@[i + 1]@);
            match read_atom(lines[i + 1]) {
                Ok((number, position)) => {
                    z.push(number);
                    coords.push(position);
                },
                Err(cause) => {
                    proof {
                        lemma_atoms_of_stays(all, i + 1, natoms as int);
                    }
                    return Err(RequestFormatError::MalformedAtomLine { index: i, cause });
                },
            }
            i += 1;
            proof {
                let after = atoms_of(all, i as int)->Ok_0;
                assert forall|k: int| 0 <= k < i implies (#[trigger] after[k]) == (
                    z@[k],
                    shown(coords@[k]@),
                ) by {
                    if k < i - 1 {
                        assert(after[k] == before[k]);
                    }
                }
            }
        }
        let r = Calculation { natoms, nder, charge: header[2], spin: header[3], z, coords };
        proof {
            let atoms = atoms_of(all, natoms as int)->Ok_0;
            assert(r@.z =~= Seq::new(atoms.len(), |i: int| atoms[i].0));
            assert(r@.coords =~= Seq::new(atoms.len(), |i: int| atoms[i].1));
        }
        Ok(r)
    }
}

/// An error among the first atoms is the error of every longer run of
/// atoms.
proof fn lemma_atoms_of_stays(lines: Seq<Seq<char>>, count: int, more: int)
    requires
        0 <= count <= more,
        atoms_of(lines, count) is Err,
    ensures
        atoms_of(lines, more) == atoms_of(lines, count),
    decreases more - count,
{
    if count < more {
        lemma_atoms_of_stays(lines, count, more - 1);
    }
}

} // verus!
