//! The layouts in which the worker prints a gradient and a Hessian, and the
//! way back from the stream of printed values to vectors and a matrix.
//!
//! The worker prints a gradient as a table of three rows (x, y, z) with one
//! column for each atom, cut into blocks of six columns: the three rows of
//! the first six atoms, then the three rows of the next six, and so on. It
//! prints the lower triangle of a Hessian in bands of six columns: for each
//! band every row in turn, and of a row the places of the band that lie at
//! or below the diagonal.
use crate::number::{shown, Real};
use vstd::prelude::*;

verus! {

/// How many atoms the block `block` of a gradient holds: six, or what is
/// left of `natom` atoms.
pub open spec fn block_width(natom: int, block: int) -> int {
    if natom - 6 * block < 6 {
        natom - 6 * block
    } else {
        6
    }
}

/// Where in the stream the coordinate `coord` of the atom `atom` stands.
pub open spec fn gradient_position(natom: int, atom: int, coord: int) -> int {
    18 * (atom / 6) + coord * block_width(natom, atom / 6) + atom % 6
}

/// The atom whose value stands at `at` in the stream.
pub open spec fn stream_atom(natom: int, at: int) -> int {
    6 * (at / 18) + (at % 18) % block_width(natom, at / 18)
}

/// The coordinate whose value stands at `at` in the stream.
pub open spec fn stream_coord(natom: int, at: int) -> int {
    (at % 18) / block_width(natom, at / 18)
}

/// The gradient vectors, one of three coordinates for each atom, that a
/// stream in the worker's layout holds.
pub open spec fn unwrap_gradient<A>(natom: int, stream: Seq<A>) -> Seq<Seq<A>> {
    Seq::new(
        natom as nat,
        |atom: int| Seq::new(3, |coord: int| stream[gradient_position(natom, atom, coord)]),
    )
}

/// The stream in which the worker prints the gradient vectors of `natom`
/// atoms.
pub open spec fn wrap_gradient<A>(natom: int, vectors: Seq<Seq<A>>) -> Seq<A> {
    Seq::new(
        (3 * natom) as nat,
        |at: int| vectors[stream_atom(natom, at)][stream_coord(natom, at)],
    )
}

/// The number of places in the lower triangle of a square matrix of size
/// `n`, the diagonal included.
pub open spec fn triangle(n: int) -> int {
    n * (n + 1) / 2
}

/// How many values of a Hessian of size `n` stand before the band `band`.
/// Every band before it is cut off by the diagonal in its first five rows
/// only, so it holds `6 * (n - first) - 15` values, `first` being its first
/// column.
pub open spec fn band_start(n: int, band: int) -> int {
    3 * band * (2 * n - 6 * band + 1)
}

/// How many values a band holds for the rows that lie less than `depth`
/// below its first row: one for the first row, one more for each row down to
/// the sixth, and six for each row after that.
pub open spec fn rows_above(depth: int) -> int {
    if depth <= 6 {
        triangle(depth)
    } else {
        6 * depth - 15
    }
}

/// Where in the stream the value of the place (`row`, `col`) of the lower
/// triangle stands.
pub open spec fn hessian_position(n: int, row: int, col: int) -> int {
    band_start(n, col / 6) + rows_above(row - 6 * (col / 6)) + col % 6
}

/// The full symmetric matrix of size `n` that a stream in the worker's
/// layout holds: a place above the diagonal has the value of its mirror
/// image below.
pub open spec fn unwrap_hessian<A>(n: int, stream: Seq<A>) -> Seq<Seq<A>> {
    Seq::new(
        n as nat,
        |row: int|
            Seq::new(
                n as nat,
                |col: int|
                    stream[if col <= row {
                        hessian_position(n, row, col)
                    } else {
                        hessian_position(n, col, row)
                    }],
            ),
    )
}

/// The places whose values a band holds for one row, from left to right:
/// those of the band's six columns that lie at or below the diagonal.
pub open spec fn band_row(band: int, row: int) -> Seq<(int, int)> {
    let reach = row - 6 * band + 1;
    Seq::new(
        if reach <= 0 {
            0
        } else if reach < 6 {
            reach as nat
        } else {
            6
        },
        |j: int| (row, 6 * band + j),
    )
}

/// The places whose values a band holds for the first `rows` rows, row
/// after row.
pub open spec fn band_rows(band: int, rows: int) -> Seq<(int, int)>
    decreases rows,
{
    if rows <= 0 {
        Seq::empty()
    } else {
        band_rows(band, rows - 1) + band_row(band, rows - 1)
    }
}

/// The places of the lower triangle of a matrix of size `n` in the order in
/// which the worker prints the values of the first `bands` bands: band
/// after band, and for each band every row of the matrix.
pub open spec fn hessian_order(n: int, bands: int) -> Seq<(int, int)>
    decreases bands,
{
    if bands <= 0 {
        Seq::empty()
    } else {
        hessian_order(n, bands - 1) + band_rows(bands - 1, n)
    }
}

/// The number of bands of six columns that a matrix of size `n` is cut
/// into.
pub open spec fn band_count(n: int) -> int {
    (n + 5) / 6
}

/// The stream in which the worker prints the lower triangle of a matrix of
/// size `n`.
pub open spec fn wrap_hessian<A>(n: int, matrix: Seq<Seq<A>>) -> Seq<A> {
    let order = hessian_order(n, band_count(n));
    Seq::new(order.len(), |at: int| matrix[order[at].0][order[at].1])
}

/// What a sequence of vectors of numbers shows: the literal of each
/// coordinate.
pub open spec fn shown_vectors(vectors: Seq<[Real; 3]>) -> Seq<Seq<Seq<char>>> {
    Seq::new(vectors.len(), |i: int| shown(vectors[i]@))
}

/// What a matrix of numbers shows: the literal of each entry.
pub open spec fn shown_matrix(rows: Seq<Vec<Real>>) -> Seq<Seq<Seq<char>>> {
    Seq::new(rows.len(), |i: int| shown(rows[i]@))
}

/// Every coordinate of every atom has a place of its own in the stream, and
/// the stream's layout leads from that place back to the atom and the
/// coordinate.
pub proof fn lemma_gradient_position(natom: int, atom: int, coord: int)
    requires
        0 <= atom < natom,
        0 <= coord < 3,
    ensures
        0 <= gradient_position(natom, atom, coord) < 3 * natom,
        stream_atom(natom, gradient_position(natom, atom, coord)) == atom,
        stream_coord(natom, gradient_position(natom, atom, coord)) == coord,
{
    let block = atom / 6;
    let width = block_width(natom, block);
    let within = coord * width + atom % 6;
    assert(1 <= width <= 6);
    assert(atom % 6 < width);
    assert(0 <= within < 18) by {
        assert(coord == 0 || coord == 1 || coord == 2);
    }
    assert((18 * block + within) / 18 == block);
    assert((18 * block + within) % 18 == within);
    assert(within % width == atom % 6 && within / width == coord) by {
        lemma_split(coord, width, atom % 6);
    }
}

/// Every place of the stream holds one coordinate of one atom, and that
/// coordinate's place is this one.
pub proof fn lemma_stream_place(natom: int, at: int)
    requires
        0 <= at < 3 * natom,
    ensures
        0 <= stream_atom(natom, at) < natom,
        0 <= stream_coord(natom, at) < 3,
        gradient_position(natom, stream_atom(natom, at), stream_coord(natom, at)) == at,
{
    let block = at / 18;
    let within = at % 18;
    let width = block_width(natom, block);
    assert(1 <= width <= 6);
    assert(within < 3 * width);
    let coord = within / width;
    let inner = within % width;
    lemma_join(within, width);
    assert(0 <= coord < 3) by (nonlinear_arith)
        requires
            within == coord * width + inner,
            0 <= inner < width,
            0 <= within < 3 * width,
    ;
    let atom = 6 * block + inner;
    assert(atom / 6 == block);
    assert(atom % 6 == inner);
}

/// Division with remainder undoes `q * d + r`.
proof fn lemma_split(q: int, d: int, r: int)
    requires
        0 <= r < d,
        0 <= q,
    ensures
        (q * d + r) / d == q,
        (q * d + r) % d == r,
{
    vstd::arithmetic::div_mod::lemma_fundamental_div_mod_converse(q * d + r, d, q, r);
}

/// A number is its quotient times the divisor plus its remainder.
proof fn lemma_join(x: int, d: int)
    requires
        0 < d,
        0 <= x,
    ensures
        x == (x / d) * d + x % d,
        0 <= x % d < d,
        0 <= x / d,
{
    vstd::arithmetic::div_mod::lemma_fundamental_div_mod(x, d);
    vstd::arithmetic::div_mod::lemma_mod_bound(x, d);
    vstd::arithmetic::div_mod::lemma_div_pos_is_pos(x, d);
    assert(d * (x / d) == (x / d) * d) by (nonlinear_arith);
}

/// Law: a gradient that is printed in the worker's layout and read back is
/// the gradient that was printed.
pub proof fn lemma_unwrap_wrap_gradient<A>(natom: int, vectors: Seq<Seq<A>>)
    requires
        vectors.len() == natom,
        forall|i: int| 0 <= i < natom ==> (#[trigger] vectors[i]).len() == 3,
    ensures
        unwrap_gradient(natom, wrap_gradient(natom, vectors)) == vectors,
{
    let stream = wrap_gradient(natom, vectors);
    let back = unwrap_gradient(natom, stream);
    assert forall|i: int| 0 <= i < natom implies #[trigger] back[i] == vectors[i] by {
        assert forall|k: int| 0 <= k < 3 implies back[i][k] == vectors[i][k] by {
            lemma_gradient_position(natom, i, k);
        }
        assert(back[i] =~= vectors[i]);
    }
    assert(back =~= vectors);
}

/// Law: a stream of three values for each atom that is read as a gradient
/// and printed again in the worker's layout is the stream that was read.
pub proof fn lemma_wrap_unwrap_gradient<A>(natom: int, stream: Seq<A>)
    requires
        0 <= natom,
        stream.len() == 3 * natom,
    ensures
        wrap_gradient(natom, unwrap_gradient(natom, stream)) == stream,
{
    let vectors = unwrap_gradient(natom, stream);
    let back = wrap_gradient(natom, vectors);
    assert forall|at: int| 0 <= at < 3 * natom implies back[at] == stream[at] by {
        lemma_stream_place(natom, at);
    }
    assert(back =~= stream);
}

/// Twice the number of places in a triangle, and how the number grows with
/// the size.
pub proof fn lemma_triangle(n: int)
    requires
        0 <= n,
    ensures
        2 * triangle(n) == n * (n + 1),
        n >= 1 ==> triangle(n) == triangle(n - 1) + n,
        n == 0 ==> triangle(n) == 0,
        0 <= triangle(n),
    decreases n,
{
    if n == 0 {
        assert(n * (n + 1) == 0) by (nonlinear_arith)
            requires
                n == 0,
        ;
    } else {
        lemma_triangle(n - 1);
        assert(n * (n + 1) == (n - 1) * n + 2 * n) by (nonlinear_arith);
        assert((n - 1) * (n - 1 + 1) == (n - 1) * n);
    }
}

/// The values that a band holds above a depth: how they grow from one depth
/// to the next, and that they stay within the triangle of that depth.
proof fn lemma_rows_above(depth: int)
    requires
        0 <= depth,
    ensures
        0 <= rows_above(depth) <= triangle(depth),
        rows_above(depth + 1) == rows_above(depth) + if depth < 6 {
            depth + 1
        } else {
            6
        },
    decreases depth,
{
    lemma_triangle(depth);
    lemma_triangle(depth + 1);
    if depth == 6 {
        lemma_rows_above(5);
        lemma_rows_above(4);
        lemma_rows_above(3);
        lemma_rows_above(2);
        lemma_rows_above(1);
        lemma_rows_above(0);
    } else if depth > 6 {
        assert(2 * (6 * depth - 15) <= depth * (depth + 1)) by (nonlinear_arith)
            requires
                depth >= 7,
        ;
    } else if depth > 0 {
        lemma_rows_above(depth - 1);
    }
}

/// A band holds no fewer values above a greater depth.
proof fn lemma_rows_above_grows(a: int, b: int)
    requires
        0 <= a <= b,
    ensures
        rows_above(a) <= rows_above(b),
    decreases b - a,
{
    if a < b {
        lemma_rows_above(a);
        lemma_rows_above_grows(a + 1, b);
    }
}

/// The values before a band and the triangle that begins with the band make
/// up the whole triangle.
proof fn lemma_band_start(n: int, band: int)
    requires
        0 <= band,
        6 * band <= n,
    ensures
        0 <= band_start(n, band),
        triangle(n) == band_start(n, band) + triangle(n - 6 * band),
{
    let rest = n - 6 * band;
    let span = 2 * n - 6 * band + 1;
    lemma_triangle(n);
    lemma_triangle(rest);
    assert(band_start(n, band) == 3 * band * span);
    assert(n * (n + 1) == 2 * (3 * band * span) + rest * (rest + 1)) by (nonlinear_arith)
        requires
            rest == n - 6 * band,
            span == 2 * n - 6 * band + 1,
    ;
    assert(0 <= 3 * band * span) by (nonlinear_arith)
        requires
            0 <= band,
            1 <= span,
    ;
}

/// The lower triangle of a matrix of size `n` has room for each of its
/// places in the stream, and the parts of a place's position are not
/// negative.
pub proof fn lemma_hessian_position(n: int, row: int, col: int)
    requires
        0 <= col <= row < n,
    ensures
        0 <= band_start(n, col / 6),
        0 <= rows_above(row - 6 * (col / 6)),
        0 <= hessian_position(n, row, col) < triangle(n),
{
    let band = col / 6;
    let depth = row - 6 * band;
    let rest = n - 6 * band;
    assert(0 <= col % 6 <= depth < rest);
    lemma_band_start(n, band);
    lemma_rows_above(depth);
    lemma_rows_above(rest);
    lemma_rows_above_grows(depth + 1, rest);
}

/// How many places a band holds for the first `rows` rows, and where among
/// them the place (`row`, `col`) of the band stands.
proof fn lemma_band_rows(band: int, rows: int, row: int, col: int)
    requires
        0 <= band,
        0 <= rows,
    ensures
        rows <= 6 * band ==> band_rows(band, rows).len() == 0,
        rows >= 6 * band ==> band_rows(band, rows).len() == rows_above(rows - 6 * band),
        6 * band <= col <= row < rows && col < 6 * band + 6 ==> {
            &&& rows_above(row - 6 * band) + col - 6 * band < band_rows(band, rows).len()
            &&& band_rows(band, rows)[rows_above(row - 6 * band) + col - 6 * band] == (row, col)
        },
    decreases rows,
{
    lemma_triangle(0);
    if rows > 0 {
        lemma_band_rows(band, rows - 1, row, col);
        let before = band_rows(band, rows - 1);
        let last = band_row(band, rows - 1);
        if rows - 1 >= 6 * band {
            lemma_rows_above(rows - 1 - 6 * band);
        }
        if 6 * band <= col <= row < rows && col < 6 * band + 6 {
            let at = rows_above(row - 6 * band) + col - 6 * band;
            lemma_rows_above(row - 6 * band);
            if row == rows - 1 {
                assert(last[col - 6 * band] == (row, col));
                assert((before + last)[at] == last[at - before.len()]);
            } else {
                assert((before + last)[at] == before[at]);
            }
        }
    }
}

/// How many places the first `bands` bands hold, and that more bands leave
/// the places of the first ones where they are.
proof fn lemma_hessian_order(n: int, bands: int, more: int)
    requires
        0 <= bands <= more <= band_count(n),
        0 <= n,
    ensures
        6 * bands <= n ==> hessian_order(n, bands).len() == band_start(n, bands),
        6 * bands > n ==> hessian_order(n, bands).len() == triangle(n),
        hessian_order(n, bands).len() <= hessian_order(n, more).len(),
        forall|at: int|
            0 <= at < hessian_order(n, bands).len() ==> hessian_order(n, more)[at]
                == #[trigger] hessian_order(n, bands)[at],
    decreases more,
{
    if bands < more {
        lemma_hessian_order(n, bands, more - 1);
        lemma_order_len(n, more - 1);
        lemma_order_len(n, more);
        assert forall|at: int| 0 <= at < hessian_order(n, bands).len() implies hessian_order(
            n,
            more,
        )[at] == #[trigger] hessian_order(n, bands)[at] by {
            assert(hessian_order(n, more)[at] == hessian_order(n, more - 1)[at]);
        }
    }
    lemma_order_len(n, bands);
}

/// How many places the first `bands` bands hold.
proof fn lemma_order_len(n: int, bands: int)
    requires
        0 <= bands <= band_count(n),
        0 <= n,
    ensures
        6 * bands <= n ==> hessian_order(n, bands).len() == band_start(n, bands),
        6 * bands > n ==> hessian_order(n, bands).len() == triangle(n),
        bands >= 1 ==> hessian_order(n, bands).len() >= hessian_order(n, bands - 1).len(),
    decreases bands,
{
    if bands == 0 {
        assert(3 * bands * (2 * n - 6 * bands + 1) == 0) by (nonlinear_arith)
            requires
                bands == 0,
        ;
    } else {
        let band = bands - 1;
        lemma_order_len(n, band);
        lemma_band_rows(band, n, 0, 0);
        lemma_band_start(n, band);
        let rest = n - 6 * band;
        assert(hessian_order(n, bands).len() == band_start(n, band) + rows_above(rest));
        if rest >= 6 {
            lemma_triangle(6);
            lemma_rows_above(6);
            lemma_rows_above(5);
            lemma_rows_above(4);
            lemma_rows_above(3);
            lemma_rows_above(2);
            lemma_rows_above(1);
            lemma_rows_above(0);
            assert(rows_above(rest) == 6 * rest - 15);
            assert(band_start(n, bands) == band_start(n, band) + 6 * rest - 15)
                by (nonlinear_arith)
                requires
                    rest == n - 6 * band,
                    bands == band + 1,
                    band_start(n, bands) == 3 * bands * (2 * n - 6 * bands + 1),
                    band_start(n, band) == 3 * band * (2 * n - 6 * band + 1),
            ;
            if rest == 6 {
                lemma_band_start(n, bands);
                lemma_triangle(0);
            }
        }
    }
}

/// Law: the worker prints the value of every place of the lower triangle
/// just where that place's position in the stream says.
pub proof fn lemma_hessian_order_at(n: int, row: int, col: int)
    requires
        0 <= col <= row < n,
    ensures
        hessian_position(n, row, col) < hessian_order(n, band_count(n)).len(),
        hessian_order(n, band_count(n))[hessian_position(n, row, col)] == (row, col),
        hessian_order(n, band_count(n)).len() == triangle(n),
{
    let band = col / 6;
    lemma_hessian_position(n, row, col);
    lemma_hessian_order(n, band + 1, band_count(n));
    lemma_hessian_order(n, band, band + 1);
    lemma_band_rows(band, n, row, col);
    lemma_order_len(n, band_count(n));
    let before = hessian_order(n, band);
    let rows = band_rows(band, n);
    let at = hessian_position(n, row, col);
    assert(hessian_order(n, band + 1) == before + rows);
    assert((before + rows)[at] == rows[at - before.len()]);
    if 6 * band_count(n) <= n {
        lemma_band_start(n, band_count(n));
        lemma_triangle(0);
    }
}

/// Law: the stream that the worker prints for a matrix of size `n` holds one
/// value for each place of the lower triangle.
pub proof fn lemma_wrap_hessian_len<A>(n: int, matrix: Seq<Seq<A>>)
    requires
        0 <= n,
    ensures
        wrap_hessian(n, matrix).len() == triangle(n),
{
    lemma_order_len(n, band_count(n));
    if 6 * band_count(n) <= n {
        lemma_band_start(n, band_count(n));
        lemma_triangle(0);
    }
}

/// Law: a symmetric matrix whose lower triangle is printed in the worker's
/// layout and read back is the matrix that was printed.
pub proof fn lemma_unwrap_wrap_hessian<A>(n: int, matrix: Seq<Seq<A>>)
    requires
        matrix.len() == n,
        forall|i: int| 0 <= i < n ==> (#[trigger] matrix[i]).len() == n,
        forall|i: int, j: int| 0 <= i < n && 0 <= j < n ==> matrix[i][j] == matrix[j][i],
    ensures
        unwrap_hessian(n, wrap_hessian(n, matrix)) == matrix,
{
    let stream = wrap_hessian(n, matrix);
    let back = unwrap_hessian(n, stream);
    assert forall|i: int| 0 <= i < n implies #[trigger] back[i] == matrix[i] by {
        assert forall|j: int| 0 <= j < n implies back[i][j] == matrix[i][j] by {
            if j <= i {
                lemma_hessian_order_at(n, i, j);
            } else {
                lemma_hessian_order_at(n, j, i);
            }
        }
        assert(back[i] =~= matrix[i]);
    }
    assert(back =~= matrix);
}

/// Law: the matrix that is read from a stream is symmetric.
pub proof fn lemma_unwrap_hessian_symmetric<A>(n: int, stream: Seq<A>, i: int, j: int)
    requires
        0 <= i < n,
        0 <= j < n,
    ensures
        unwrap_hessian(n, stream)[i][j] == unwrap_hessian(n, stream)[j][i],
{
}

/// Where in the stream the value of the place (`row`, `col`) of the lower
/// triangle stands.
pub fn hessian_index(n: usize, row: usize, col: usize) -> (at: usize)
    requires
        col <= row < n,
        triangle(n as int) <= usize::MAX,
    ensures
        at == hessian_position(n as int, row as int, col as int),
{
    let band = col / 6;
    let first = 6 * band;
    let depth = row - first;
    proof {
        lemma_hessian_position(n as int, row as int, col as int);
        lemma_rows_above(depth as int);
    }
    let above = if depth <= 6 {
        assert(depth * (depth + 1) <= 42) by (nonlinear_arith)
            requires
                depth <= 6,
        ;
        depth * (depth + 1) / 2
    } else {
        6 * (depth - 6) + 21
    };
    let ghost width = 2 * n - 6 * band + 1;
    let start = if band == 0 {
        assert(3 * band * width == 0) by (nonlinear_arith)
            requires
                band == 0,
        ;
        0
    } else {
        assert(3 * band <= 3 * band * width && width <= 3 * band * width) by (nonlinear_arith)
            requires
                band >= 1,
                width >= 1,
        ;
        let span = (n - first) + n + 1;
        3 * band * span
    };
    start + above + col % 6
}

} // verus!
