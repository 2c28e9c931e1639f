//! Writing the worker's input: the molecule, and the parameters of the job
//! with the keywords that the request calls for.
use crate::document::{line_end, text, Piece, PieceView};
use crate::number::{integer_chars, integer_text, shown};
use crate::request::{Calculation, CalculationView};
use crate::text::{find_from, first_match, first_match_from, to_chars};
use vstd::pervasive::unreached;
use vstd::prelude::*;
use vstd::string::{StrSliceExecFns, StringExecFns};

verus! {

/// The line of one atom: its atomic number and its three coordinates, with
/// three spaces between them.
pub open spec fn atom_line(number: u8, position: Seq<Seq<char>>) -> Seq<PieceView> {
    seq![
        PieceView::Text(integer_text(number as int)),
        PieceView::Text("   "@),
        PieceView::Plain(position[0]),
        PieceView::Text("   "@),
        PieceView::Plain(position[1]),
        PieceView::Text("   "@),
        PieceView::Plain(position[2]),
    ]
}

/// The lines of the first `count` atoms, with the end of a line between
/// one atom and the next.
pub open spec fn geometry_of(calculation: CalculationView, count: int) -> Seq<PieceView>
    decreases count,
{
    if count <= 0 {
        Seq::empty()
    } else if count == 1 {
        atom_line(calculation.z[0], calculation.coords[0])
    } else {
        geometry_of(calculation, count - 1) + seq![line_end()] + atom_line(
            calculation.z[count - 1],
            calculation.coords[count - 1],
        )
    }
}

/// The molecule as the worker reads it: charge and spin on the first line,
/// then the atoms.
pub open spec fn molecule_of(calculation: CalculationView) -> Seq<PieceView> {
    seq![
        PieceView::Text("$molecule\n"@),
        PieceView::Text(integer_text(calculation.charge)),
        PieceView::Text(" "@),
        PieceView::Text(integer_text(calculation.spin)),
        PieceView::Text("\n"@),
    ] + geometry_of(calculation, calculation.natoms as int) + seq![PieceView::Text("\n$end\n"@)]
}

/// The kind of job that yields the derivatives of the order `nder`: a
/// single point, forces, or frequencies; no kind for a higher order.
pub open spec fn job_type_of(nder: int) -> Seq<char> {
    if nder == 0 {
        "sp"@
    } else if nder == 1 {
        "force"@
    } else if nder == 2 {
        "freq"@
    } else {
        ""@
    }
}

/// The keywords that make a job of the order `nder` print what is read
/// from its report: for the second order the gradient beside the Hessian.
pub open spec fn job_flags_of(nder: int) -> Seq<char> {
    if nder == 2 {
        "hess_and_grad true\nvibman_print 6\n"@
    } else {
        ""@
    }
}

/// The keyword that makes the worker start from what an earlier run left.
pub open spec fn restart_flag_of(restart: bool) -> Seq<char> {
    if restart {
        "scf_guess read\n"@
    } else {
        ""@
    }
}

/// The worker's input: the molecule, the parameters up to the end of their
/// `$rem` group with the keywords of the job added to the group, and then
/// the rest of the parameters.
pub open spec fn input_of(
    calculation: CalculationView,
    rem: Seq<char>,
    extras: Seq<char>,
    restart: bool,
) -> Seq<PieceView> {
    molecule_of(calculation) + seq![
        PieceView::Text("\n"@),
        PieceView::Text(rem),
        PieceView::Text(restart_flag_of(restart)),
        PieceView::Text("jobtype "@),
        PieceView::Text(job_type_of(calculation.nder as int)),
        PieceView::Text("\ninput_bohr true\nsym_ignore true\ngui 2\n"@),
        PieceView::Text(job_flags_of(calculation.nder as int)),
        PieceView::Text(extras),
    ]
}

/// Where the `$rem` group of the parameters begins.
pub open spec fn rem_start(input: Seq<char>) -> Option<int> {
    first_match(input, "$rem"@)
}

/// Where the `$rem` group of the parameters ends: at the first `$end` from
/// its beginning on.
pub open spec fn rem_end(input: Seq<char>) -> Option<int> {
    match rem_start(input) {
        Some(start) => first_match_from(input, "$end"@, start),
        None => None,
    }
}

/// The parameters of a job, cut in two: the `$rem` group without the `$end`
/// that closes it, and the rest, that is what follows the group, the end of
/// a line, and what stands before the group.
pub fn extract_rem(input: &str) -> (r: (String, String))
    requires
        rem_end(input@) is Some,
    ensures
        r.0@ == input@.subrange(rem_start(input@)->0, rem_end(input@)->0),
        r.1@ == input@.skip(rem_end(input@)->0) + "\n"@ + input@.take(rem_start(input@)->0),
{
    let chars = to_chars(input);
    let opens = to_chars("$rem");
    let closes = to_chars("$end");
    let start = match find_from(chars.as_slice(), opens.as_slice(), 0) {
        Some(start) => start,
        None => unreached(),
    };
    let end = match find_from(chars.as_slice(), closes.as_slice(), start) {
        Some(end) => end,
        None => unreached(),
    };
    proof {
        lemma_match_bounds(input@, "$rem"@, 0);
        lemma_match_bounds(input@, "$end"@, start as int);
        assert(input@.skip(end as int) =~= input@.subrange(end as int, input@.len() as int));
        assert(input@.take(start as int) =~= input@.subrange(0, start as int));
    }
    let rem = String::from_str(input.substring_char(start, end));
    let after = String::from_str(input.substring_char(end, chars.len()));
    let rest = after.concat("\n").concat(input.substring_char(0, start));
    (rem, rest)
}

/// A match lies where the search began or after it, and within the text.
proof fn lemma_match_bounds(s: Seq<char>, pattern: Seq<char>, from: int)
    requires
        first_match_from(s, pattern, from) is Some,
    ensures
        from <= first_match_from(s, pattern, from)->0 <= s.len(),
    decreases s.len() - from,
{
    if !(from < 0 || from + pattern.len() > s.len()) && !crate::text::occurs_at(s, pattern, from) {
        lemma_match_bounds(s, pattern, from + 1);
    }
}

/// The kind of job that yields the derivatives of the order `nder`.
pub fn job_type(nder: usize) -> (r: &'static str)
    ensures
        r@ == job_type_of(nder as int),
{
    if nder == 0 {
        "sp"
    } else if nder == 1 {
        "force"
    } else if nder == 2 {
        "freq"
    } else {
        ""
    }
}

/// The keywords that make a job of the order `nder` print what is read
/// from its report.
pub fn job_flags(nder: usize) -> (r: &'static str)
    ensures
        r@ == job_flags_of(nder as int),
{
    if nder == 2 {
        "hess_and_grad true\nvibman_print 6\n"
    } else {
        ""
    }
}

/// Adds the pieces of `more` to `out`, which takes them over.
fn append(out: &mut Vec<Piece>, more: Vec<Piece>)
    ensures
        shown(final(out)@) == shown(old(out)@) + shown(more@),
{
    let ghost before = shown(out@);
    let ghost added = shown(more@);
    let mut more = more;
    out.append(&mut more);
    assert(shown(out@) =~= before + added);
}

impl Calculation {
    /// The atoms as the worker reads them, one on a line: the atomic number
    /// and the three coordinates.
    pub fn geometry(&self) -> (out: Vec<Piece>)
        requires
            self.well_formed(),
        ensures
            shown(out@) == geometry_of(self@, self.natoms as int),
    {
        let mut out: Vec<Piece> = Vec::new();
        let mut i: usize = 0;
        assert(shown(out@) =~= geometry_of(self@, 0));
        while i < self.natoms
            invariant
                i <= self.natoms,
                self.well_formed(),
                shown(out@) == geometry_of(self@, i as int),
            decreases self.natoms - i,
        {
            let ghost start = out@;
            let ghost before = shown(out@);
            if i > 0 {
                out.push(text("\n"));
            }
            let position = &self.coords[i];
            out.push(Piece::Text(integer_chars(self.z[i] as i16)));
            out.push(text("   "));
            out.push(Piece::Plain(position[0].duplicate()));
            out.push(text("   "));
            out.push(Piece::Plain(position[1].duplicate()));
            out.push(text("   "));
            out.push(Piece::Plain(position[2].duplicate()));
            proof {
                let line = atom_line(self@.z[i as int], self@.coords[i as int]);
                assert(self@.coords[i as int] == shown(position@));
                if i > 0 {
                    assert(shown(out@) =~= before + seq![line_end()] + line);
                } else {
                    assert(shown(start).len() == 0);
                    assert(shown(out@) =~= line);
                }
            }
            i += 1;
        }
        out
    }

    /// The molecule as the worker reads it: between `$molecule` and `$end`
    /// the charge and the spin on one line, then the atoms.
    pub fn qchem_molecule(&self) -> (out: Vec<Piece>)
        requires
            self.well_formed(),
        ensures
            shown(out@) == molecule_of(self@),
    {
        let mut out: Vec<Piece> = Vec::new();
        out.push(text("$molecule\n"));
        out.push(Piece::Text(integer_chars(self.charge as i16)));
        out.push(text(" "));
        out.push(Piece::Text(integer_chars(self.spin as i16)));
        out.push(text("\n"));
        let ghost head = shown(out@);
        append(&mut out, self.geometry());
        let ghost body = shown(out@);
        out.push(text("\n$end\n"));
        assert(shown(out@) =~= body + seq![PieceView::Text("\n$end\n"@)]);
        assert(head =~= seq![
            PieceView::Text("$molecule\n"@),
            PieceView::Text(integer_text(self@.charge)),
            PieceView::Text(" "@),
            PieceView::Text(integer_text(self@.spin)),
            PieceView::Text("\n"@),
        ]);
        out
    }

    /// The worker's input for this calculation, from the two parts of the
    /// job's parameters: the molecule, the `$rem` group with the keywords
    /// of the job added to it, and the rest. `restart` says whether the
    /// worker is to start from what an earlier run left.
    pub fn qchem_input(&self, rem: &str, extras: &str, restart: bool) -> (out: Vec<Piece>)
        requires
            self.well_formed(),
        ensures
            shown(out@) == input_of(self@, rem@, extras@, restart),
    {
        let mut out = self.qchem_molecule();
        out.push(text("\n"));
        out.push(text(rem));
        out.push(
            text(
                if restart {
                    "scf_guess read\n"
                } else {
                    ""
                },
            ),
        );
        out.push(text("jobtype "));
        out.push(text(job_type(self.nder)));
        out.push(text("\ninput_bohr true\nsym_ignore true\ngui 2\n"));
        out.push(text(job_flags(self.nder)));
        out.push(text(extras));
        assert(shown(out@) =~= input_of(self@, rem@, extras@, restart));
        out
    }
}

} // verus!
