//! CSV input and output.

use vstd::prelude::*;
use vstd::string::StringExecFns;

use crate::arith::{Arithmetic, Op};
use crate::data::{finite_points, finite_values, PointSet};
use crate::double::Double;
use crate::error::invalid;
use crate::grid::Grid2D;
use crate::ik::CcdfEstimate;
use crate::interpolation::CvResult;
use crate::kriging::KrigingEstimate;
use crate::table::{
    columns, gathered, header_of, numbers, parses, read_columns, records_of, row_values, table_read,
    Table, TableError,
};
use crate::text::{concat2, decimal, decimal_sum, digits, texts_of};

verus! {

/// One lag bin of an experimental variogram.
#[derive(Clone, Copy, Debug, PartialEq, Eq, Structural)]
pub struct VariogramBin {
    /// Mean pair distance.
    pub h: Double,
    /// Semivariance.
    pub gamma: Double,
    /// Number of pairs.
    pub n_pairs: usize,
}

/// `show` writes every double in one way.
pub open spec fn shows<S: Fn(Double) -> String>(show: S) -> bool {
    &&& forall|v: Double| #[trigger] call_requires(show, (v,))
    &&& forall|v: Double, a: String, b: String| #[trigger]
        call_ensures(show, (v,), a) && #[trigger] call_ensures(show, (v,), b) ==> a@ == b@
}

/// How `show` writes `v`.
pub open spec fn shown<S: Fn(Double) -> String>(show: S, v: Double) -> Seq<char> {
    (choose|s: String| call_ensures(show, (v,), s))@
}

pub(crate) fn show_number<S: Fn(Double) -> String>(v: Double, show: &S) -> (s: String)
    requires
        shows(*show),
    ensures
        s@ == shown(*show, v),
{
    let s: String = show(v);
    proof {
        let t = choose|t: String| call_ensures(show, (v,), t);
        assert(call_ensures(show, (v,), s) && call_ensures(show, (v,), t));
    }
    s
}

/// How `show` writes each of several doubles.
pub open spec fn all_shown<S: Fn(Double) -> String>(show: S, vs: Seq<Double>) -> Seq<Seq<char>> {
    Seq::new(vs.len(), |i: int| shown(show, vs[i]))
}

fn show_numbers<S: Fn(Double) -> String>(vs: &Vec<Double>, show: &S) -> (out: Vec<String>)
    requires
        shows(*show),
    ensures
        texts_of(out@) == all_shown(*show, vs@),
{
    let mut out: Vec<String> = Vec::new();
    for i in 0..vs.len()
        invariant
            shows(*show),
            out@.len() == i,
            forall|k: int| 0 <= k < i ==> (#[trigger] out@[k])@ == shown(*show, vs@[k]),
    {
        out.push(show_number(vs[i], show));
    }
    assert(texts_of(out@) =~= all_shown(*show, vs@));
    out
}

/// Fields of a line, separated by commas.
pub open spec fn comma_separated(fields: Seq<Seq<char>>) -> Seq<char>
    decreases fields.len(),
{
    if fields.len() == 0 {
        Seq::empty()
    } else if fields.len() == 1 {
        fields[0]
    } else {
        comma_separated(fields.drop_last()) + seq![','] + fields.last()
    }
}

/// The lines of a CSV text, each ended by a newline.
pub open spec fn csv_text(lines: Seq<Seq<Seq<char>>>) -> Seq<char>
    decreases lines.len(),
{
    if lines.len() == 0 {
        Seq::empty()
    } else {
        csv_text(lines.drop_last()) + comma_separated(lines.last()) + seq!['\n']
    }
}

fn join_fields(fields: &Vec<String>) -> (out: String)
    ensures
        out@ == comma_separated(texts_of(fields@)),
{
    let ghost all = texts_of(fields@);
    let mut out: String = String::new();
    for i in 0..fields.len()
        invariant
            all == texts_of(fields@),
            out@ == comma_separated(all.take(i as int)),
    {
        if i > 0 {
            out.append(",");
            proof {
                reveal_strlit(",");
                assert(","@ =~= seq![',']);
            }
        }
        out.append(fields[i].as_str());
        proof {
            assert(all.take(i + 1).drop_last() =~= all.take(i as int));
            assert(all.take(i + 1).last() == fields@[i as int]@);
            assert(out@ =~= comma_separated(all.take(i + 1)));
        }
    }
    assert(all.take(fields.len() as int) =~= all);
    out
}

/// Lines by their characters.
pub open spec fn line_texts(lines: Seq<Vec<String>>) -> Seq<Seq<Seq<char>>> {
    Seq::new(lines.len(), |i: int| texts_of(lines[i]@))
}

pub(crate) fn join_lines(lines: &Vec<Vec<String>>) -> (out: String)
    ensures
        out@ == csv_text(line_texts(lines@)),
{
    let ghost all = line_texts(lines@);
    let mut out: String = String::new();
    for i in 0..lines.len()
        invariant
            all == line_texts(lines@),
            out@ == csv_text(all.take(i as int)),
    {
        out.append(join_fields(&lines[i]).as_str());
        out.append("\n");
        proof {
            reveal_strlit("\n");
            assert("\n"@ =~= seq!['\n']);
            assert(all.take(i + 1).drop_last() =~= all.take(i as int));
            assert(all.take(i + 1).last() == texts_of(lines@[i as int]@));
            assert(out@ =~= csv_text(all.take(i + 1)));
        }
    }
    assert(all.take(lines.len() as int) =~= all);
    out
}

pub(crate) fn line4(a: String, b: String, c: String, d: String) -> (line: Vec<String>)
    ensures
        texts_of(line@) == seq![a@, b@, c@, d@],
{
    let ghost want = seq![a@, b@, c@, d@];
    let mut line: Vec<String> = Vec::new();
    line.push(a);
    line.push(b);
    line.push(c);
    line.push(d);
    assert(texts_of(line@) =~= want);
    line
}

fn line5(a: String, b: String, c: String, d: String, e: String) -> (line: Vec<String>)
    ensures
        texts_of(line@) == seq![a@, b@, c@, d@, e@],
{
    let ghost want = seq![a@, b@, c@, d@, e@];
    let mut line: Vec<String> = Vec::new();
    line.push(a);
    line.push(b);
    line.push(c);
    line.push(d);
    line.push(e);
    assert(texts_of(line@) =~= want);
    line
}

/// Line `i` of the CSV of an experimental variogram.
pub open spec fn variogram_line<S: Fn(Double) -> String>(
    bins: Seq<VariogramBin>,
    show: S,
    i: int,
) -> Seq<Seq<char>> {
    seq![digits((i + 1) as nat), shown(show, bins[i].h), shown(
        show,
        bins[i].gamma,
    ), digits(bins[i].n_pairs as nat)]
}

/// The lines of the CSV of an experimental variogram: the header, then the rows.
pub open spec fn variogram_lines<S: Fn(Double) -> String>(
    bins: Seq<VariogramBin>,
    show: S,
) -> Seq<Seq<Seq<char>>> {
    seq![seq!["lag"@, "h"@, "gamma"@, "n_pairs"@]] + Seq::new(
        bins.len(),
        |i: int| variogram_line(bins, show, i),
    )
}

/// Experimental variogram bins as CSV text; lags count from 1.
pub fn write_variogram_csv<S: Fn(Double) -> String>(bins: &Vec<VariogramBin>, show: &S) -> (out: String)
    requires
        shows(*show),
    ensures
        out@ == csv_text(variogram_lines(bins@, *show)),
{
    let ghost want = variogram_lines(bins@, *show);
    let mut lines: Vec<Vec<String>> = Vec::new();
    lines.push(line4("lag".to_owned(), "h".to_owned(), "gamma".to_owned(), "n_pairs".to_owned()));
    let n: usize = bins.len();
    for i in 0..n
        invariant
            shows(*show),
            n == bins@.len(),
            want == variogram_lines(bins@, *show),
            lines@.len() == i + 1,
            forall|k: int| 0 <= k <= i ==> texts_of((#[trigger] lines@[k])@) == want[k],
    {
        let ghost before = lines@;
        lines.push(
            line4(
                decimal_sum(i, 1),
                show_number(bins[i].h, show),
                show_number(bins[i].gamma, show),
                decimal(bins[i].n_pairs),
            ),
        );
        proof {
            assert(texts_of(lines@[i + 1]@) =~= variogram_line(bins@, *show, i as int));
            assert(want[i + 1] == variogram_line(bins@, *show, i as int));
            assert forall|k: int| 0 <= k <= i implies texts_of((#[trigger] lines@[k])@)
                == want[k] by {
                assert(lines@[k] == before[k]);
            }
        }
    }
    assert(line_texts(lines@) =~= want);
    join_lines(&lines)
}

/// Line `i` of the CSV of declustering weights.
pub open spec fn weights_line<S: Fn(Double) -> String>(
    data: &PointSet<2>,
    weights: Seq<Double>,
    show: S,
    i: int,
) -> Seq<Seq<char>> {
    seq![shown(show, data.places()[i]@[0]), shown(show, data.places()[i]@[1]), shown(
        show,
        data.attributes()[i],
    ), shown(show, weights[i])]
}

/// The lines of the CSV of declustering weights: the header, then the rows.
pub open spec fn weights_lines<S: Fn(Double) -> String>(
    data: &PointSet<2>,
    weights: Seq<Double>,
    show: S,
) -> Seq<Seq<Seq<char>>> {
    seq![seq!["x"@, "y"@, "value"@, "weight"@]] + Seq::new(
        data.places().len(),
        |i: int| weights_line(data, weights, show, i),
    )
}

/// Declustering weights as CSV text.
pub fn write_weights_csv<S: Fn(Double) -> String>(
    data: &PointSet<2>,
    weights: &Vec<Double>,
    show: &S,
) -> (out: String)
    requires
        shows(*show),
        data.well_formed(),
        data.places().len() <= weights@.len(),
    ensures
        out@ == csv_text(weights_lines(data, weights@, *show)),
{
    let ghost want = weights_lines(data, weights@, *show);
    let mut lines: Vec<Vec<String>> = Vec::new();
    lines.push(line4("x".to_owned(), "y".to_owned(), "value".to_owned(), "weight".to_owned()));
    let n: usize = data.coords().len();
    for i in 0..n
        invariant
            shows(*show),
            data.well_formed(),
            data.places().len() <= weights@.len(),
            n == data.places().len(),
            want == weights_lines(data, weights@, *show),
            lines@.len() == i + 1,
            forall|k: int| 0 <= k <= i ==> texts_of((#[trigger] lines@[k])@) == want[k],
    {
        let ghost before = lines@;
        lines.push(
            line4(
                show_number(data.coord(i)[0], show),
                show_number(data.coord(i)[1], show),
                show_number(data.value(i), show),
                show_number(weights[i], show),
            ),
        );
        proof {
            assert(texts_of(lines@[i + 1]@) =~= weights_line(data, weights@, *show, i as int));
            assert(want[i + 1] == weights_line(data, weights@, *show, i as int));
            assert forall|k: int| 0 <= k <= i implies texts_of((#[trigger] lines@[k])@)
                == want[k] by {
                assert(lines@[k] == before[k]);
            }
        }
    }
    assert(line_texts(lines@) =~= want);
    join_lines(&lines)
}

/// The smaller of two numbers.
pub open spec fn smaller(a: nat, b: nat) -> nat {
    if a <= b {
        a
    } else {
        b
    }
}

/// Line `i` of the CSV of predictions.
pub open spec fn estimates_line<S: Fn(Double) -> String>(
    coords: Seq<[Double; 2]>,
    estimates: Seq<KrigingEstimate>,
    show: S,
    i: int,
) -> Seq<Seq<char>> {
    seq![shown(show, coords[i]@[0]), shown(show, coords[i]@[1]), shown(
        show,
        estimates[i].value,
    ), shown(show, estimates[i].variance)]
}

/// The lines of the CSV of predictions: the header, then the rows.
pub open spec fn estimates_lines<S: Fn(Double) -> String>(
    coords: Seq<[Double; 2]>,
    estimates: Seq<KrigingEstimate>,
    show: S,
) -> Seq<Seq<Seq<char>>> {
    seq![seq!["x"@, "y"@, "prediction"@, "variance"@]] + Seq::new(
        smaller(coords.len(), estimates.len()),
        |i: int| estimates_line(coords, estimates, show, i),
    )
}

/// Predictions at points as CSV text; points without a prediction are left out.
pub fn write_estimates_csv<S: Fn(Double) -> String>(
    coords: &Vec<[Double; 2]>,
    estimates: &Vec<KrigingEstimate>,
    show: &S,
) -> (out: String)
    requires
        shows(*show),
    ensures
        out@ == csv_text(estimates_lines(coords@, estimates@, *show)),
{
    let ghost want = estimates_lines(coords@, estimates@, *show);
    let mut lines: Vec<Vec<String>> = Vec::new();
    lines.push(line4("x".to_owned(), "y".to_owned(), "prediction".to_owned(), "variance".to_owned()));
    let n: usize = if coords.len() <= estimates.len() { coords.len() } else { estimates.len() };
    for i in 0..n
        invariant
            shows(*show),
            n == smaller(coords@.len(), estimates@.len()),
            want == estimates_lines(coords@, estimates@, *show),
            lines@.len() == i + 1,
            forall|k: int| 0 <= k <= i ==> texts_of((#[trigger] lines@[k])@) == want[k],
    {
        let ghost before = lines@;
        lines.push(
            line4(
                show_number(coords[i][0], show),
                show_number(coords[i][1], show),
                show_number(estimates[i].value, show),
                show_number(estimates[i].variance, show),
            ),
        );
        proof {
            assert(texts_of(lines@[i + 1]@) =~= estimates_line(coords@, estimates@, *show, i as int));
            assert(want[i + 1] == estimates_line(coords@, estimates@, *show, i as int));
            assert forall|k: int| 0 <= k <= i implies texts_of((#[trigger] lines@[k])@)
                == want[k] by {
                assert(lines@[k] == before[k]);
            }
        }
    }
    assert(line_texts(lines@) =~= want);
    join_lines(&lines)
}

/// Line `i` of the CSV of predictions in space.
pub open spec fn estimates3_line<S: Fn(Double) -> String>(
    coords: Seq<[Double; 3]>,
    estimates: Seq<KrigingEstimate>,
    show: S,
    i: int,
) -> Seq<Seq<char>> {
    seq![shown(show, coords[i]@[0]), shown(show, coords[i]@[1]), shown(show, coords[i]@[2]), shown(
        show,
        estimates[i].value,
    ), shown(show, estimates[i].variance)]
}

/// The lines of the CSV of predictions in space: the header, then the rows.
pub open spec fn estimates3_lines<S: Fn(Double) -> String>(
    coords: Seq<[Double; 3]>,
    estimates: Seq<KrigingEstimate>,
    show: S,
) -> Seq<Seq<Seq<char>>> {
    seq![seq!["x"@, "y"@, "z"@, "prediction"@, "variance"@]] + Seq::new(
        smaller(coords.len(), estimates.len()),
        |i: int| estimates3_line(coords, estimates, show, i),
    )
}

/// Predictions at points in space as CSV text; points without a prediction are left
/// out.
pub fn write_estimates3_csv<S: Fn(Double) -> String>(
    coords: &Vec<[Double; 3]>,
    estimates: &Vec<KrigingEstimate>,
    show: &S,
) -> (out: String)
    requires
        shows(*show),
    ensures
        out@ == csv_text(estimates3_lines(coords@, estimates@, *show)),
{
    let ghost want = estimates3_lines(coords@, estimates@, *show);
    let mut lines: Vec<Vec<String>> = Vec::new();
    lines.push(
        line5("x".to_owned(), "y".to_owned(), "z".to_owned(), "prediction".to_owned(), "variance".to_owned()),
    );
    let n: usize = if coords.len() <= estimates.len() { coords.len() } else { estimates.len() };
    for i in 0..n
        invariant
            shows(*show),
            n == smaller(coords@.len(), estimates@.len()),
            want == estimates3_lines(coords@, estimates@, *show),
            lines@.len() == i + 1,
            forall|k: int| 0 <= k <= i ==> texts_of((#[trigger] lines@[k])@) == want[k],
    {
        let ghost before = lines@;
        lines.push(
            line5(
                show_number(coords[i][0], show),
                show_number(coords[i][1], show),
                show_number(coords[i][2], show),
                show_number(estimates[i].value, show),
                show_number(estimates[i].variance, show),
            ),
        );
        proof {
            assert(texts_of(lines@[i + 1]@) =~= estimates3_line(coords@, estimates@, *show, i as int));
            assert(want[i + 1] == estimates3_line(coords@, estimates@, *show, i as int));
            assert forall|k: int| 0 <= k <= i implies texts_of((#[trigger] lines@[k])@)
                == want[k] by {
                assert(lines@[k] == before[k]);
            }
        }
    }
    assert(line_texts(lines@) =~= want);
    join_lines(&lines)
}

/// A word with each of the numbers from 1 to `n` behind it.
pub open spec fn numbered(word: Seq<char>, n: nat) -> Seq<Seq<char>> {
    Seq::new(n, |i: int| word + digits((i + 1) as nat))
}

fn number_words(word: &str, n: usize) -> (out: Vec<String>)
    ensures
        texts_of(out@) == numbered(word@, n as nat),
{
    let mut out: Vec<String> = Vec::new();
    for i in 0..n
        invariant
            out@.len() == i,
            forall|k: int|
                0 <= k < i ==> (#[trigger] out@[k])@ == word@ + digits((k + 1) as nat),
    {
        out.push(concat2(word, decimal_sum(i, 1).as_str()));
    }
    assert(texts_of(out@) =~= numbered(word@, n as nat));
    out
}

/// Line `i` of the CSV of local distributions.
pub open spec fn ik_line<S: Fn(Double) -> String>(
    coords: Seq<[Double; 2]>,
    estimates: Seq<CcdfEstimate>,
    n_cutoffs: nat,
    show: S,
    i: int,
) -> Seq<Seq<char>> {
    seq![shown(show, coords[i]@[0]), shown(show, coords[i]@[1]), comma_separated(all_shown(show, estimates[i].ccdf@)), shown(
        show,
        estimates[i].e_type,
    ), shown(show, estimates[i].cond_var)]
}

/// The lines of the CSV of local distributions: the header, then the rows.
pub open spec fn ik_lines<S: Fn(Double) -> String>(
    coords: Seq<[Double; 2]>,
    estimates: Seq<CcdfEstimate>,
    n_cutoffs: nat,
    show: S,
) -> Seq<Seq<Seq<char>>> {
    seq![seq!["x"@, "y"@, comma_separated(numbered("F"@, n_cutoffs)), "e_type"@, "cond_var"@]] + Seq::new(
        smaller(coords.len(), estimates.len()),
        |i: int| ik_line(coords, estimates, n_cutoffs, show, i),
    )
}

/// Local distributions of indicator kriging as CSV text: value of the distribution
/// at each cutoff, then mean and variance.
pub fn write_ik_csv<S: Fn(Double) -> String>(
    coords: &Vec<[Double; 2]>,
    estimates: &Vec<CcdfEstimate>,
    n_cutoffs: usize,
    show: &S,
) -> (out: String)
    requires
        shows(*show),
    ensures
        out@ == csv_text(ik_lines(coords@, estimates@, n_cutoffs as nat, *show)),
{
    let ghost want = ik_lines(coords@, estimates@, n_cutoffs as nat, *show);
    let mut lines: Vec<Vec<String>> = Vec::new();
    lines.push(
        line5(
            "x".to_owned(),
            "y".to_owned(),
            join_fields(&number_words("F", n_cutoffs)),
            "e_type".to_owned(),
            "cond_var".to_owned(),
        ),
    );
    let n: usize = if coords.len() <= estimates.len() { coords.len() } else { estimates.len() };
    for i in 0..n
        invariant
            shows(*show),
            n == smaller(coords@.len(), estimates@.len()),
            want == ik_lines(coords@, estimates@, n_cutoffs as nat, *show),
            lines@.len() == i + 1,
            forall|k: int| 0 <= k <= i ==> texts_of((#[trigger] lines@[k])@) == want[k],
    {
        let ghost before = lines@;
        lines.push(
            line5(
                show_number(coords[i][0], show),
                show_number(coords[i][1], show),
                join_fields(&show_numbers(&estimates[i].ccdf, show)),
                show_number(estimates[i].e_type, show),
                show_number(estimates[i].cond_var, show),
            ),
        );
        proof {
            assert(
                texts_of(lines@[i + 1]@) =~= ik_line(coords@, estimates@, n_cutoffs as nat, *show, i as int)
            );
            assert(want[i + 1] == ik_line(coords@, estimates@, n_cutoffs as nat, *show, i as int));
            assert forall|k: int| 0 <= k <= i implies texts_of((#[trigger] lines@[k])@)
                == want[k] by {
                assert(lines@[k] == before[k]);
            }
        }
    }
    assert(line_texts(lines@) =~= want);
    join_lines(&lines)
}

/// Line `i` of the CSV of gridded predictions.
pub open spec fn grid_line<S: Fn(Double) -> String>(
    coords: Seq<[Double; 2]>,
    values: Seq<Double>,
    variances: Seq<Double>,
    show: S,
    i: int,
) -> Seq<Seq<char>> {
    seq![shown(show, coords[i]@[0]), shown(show, coords[i]@[1]), shown(
        show,
        values[i],
    ), shown(show, variances[i])]
}

/// The lines of the CSV of gridded predictions: the header, then the rows.
pub open spec fn grid_lines<S: Fn(Double) -> String>(
    coords: Seq<[Double; 2]>,
    values: Seq<Double>,
    variances: Seq<Double>,
    show: S,
) -> Seq<Seq<Seq<char>>> {
    seq![seq!["x"@, "y"@, "prediction"@, "variance"@]] + Seq::new(
        coords.len(),
        |i: int| grid_line(coords, values, variances, show, i),
    )
}

fn write_cells<S: Fn(Double) -> String>(
    coords: &Vec<[Double; 2]>,
    values: &Vec<Double>,
    variances: &Vec<Double>,
    show: &S,
) -> (out: String)
    requires
        shows(*show),
        coords@.len() <= values@.len(),
        coords@.len() <= variances@.len(),
    ensures
        out@ == csv_text(grid_lines(coords@, values@, variances@, *show)),
{
    let ghost want = grid_lines(coords@, values@, variances@, *show);
    let mut lines: Vec<Vec<String>> = Vec::new();
    lines.push(line4("x".to_owned(), "y".to_owned(), "prediction".to_owned(), "variance".to_owned()));
    let n: usize = coords.len();
    for i in 0..n
        invariant
            shows(*show),
            coords@.len() <= values@.len(),
            coords@.len() <= variances@.len(),
            n == coords@.len(),
            want == grid_lines(coords@, values@, variances@, *show),
            lines@.len() == i + 1,
            forall|k: int| 0 <= k <= i ==> texts_of((#[trigger] lines@[k])@) == want[k],
    {
        let ghost before = lines@;
        lines.push(
            line4(
                show_number(coords[i][0], show),
                show_number(coords[i][1], show),
                show_number(values[i], show),
                show_number(variances[i], show),
            ),
        );
        proof {
            assert(texts_of(lines@[i + 1]@) =~= grid_line(coords@, values@, variances@, *show, i as int));
            assert(want[i + 1] == grid_line(coords@, values@, variances@, *show, i as int));
            assert forall|k: int| 0 <= k <= i implies texts_of((#[trigger] lines@[k])@)
                == want[k] by {
                assert(lines@[k] == before[k]);
            }
        }
    }
    assert(line_texts(lines@) =~= want);
    join_lines(&lines)
}

/// Values of a cell in each of several grids.
pub open spec fn cell_values(realizations: Seq<Vec<Double>>, i: int) -> Seq<Double> {
    Seq::new(realizations.len(), |r: int| realizations[r]@[i])
}

fn find_cell_values(realizations: &Vec<Vec<Double>>, i: usize) -> (out: Vec<Double>)
    requires
        forall|r: int| 0 <= r < realizations@.len() ==> i < (#[trigger] realizations@[r])@.len(),
    ensures
        out@ == cell_values(realizations@, i as int),
{
    let mut out: Vec<Double> = Vec::new();
    for r in 0..realizations.len()
        invariant
            forall|k: int|
                0 <= k < realizations@.len() ==> i < (#[trigger] realizations@[k])@.len(),
            out@ =~= cell_values(realizations@, i as int).take(r as int),
    {
        assert(i < realizations@[r as int]@.len());
        out.push(realizations[r][i]);
    }
    assert(out@ =~= cell_values(realizations@, i as int));
    out
}

pub(crate) fn line3(a: String, b: String, c: String) -> (line: Vec<String>)
    ensures
        texts_of(line@) == seq![a@, b@, c@],
{
    let ghost want = seq![a@, b@, c@];
    let mut line: Vec<String> = Vec::new();
    line.push(a);
    line.push(b);
    line.push(c);
    assert(texts_of(line@) =~= want);
    line
}

/// Line `i` of the CSV of simulated grids.
pub open spec fn sims_line<S: Fn(Double) -> String>(
    coords: Seq<[Double; 2]>,
    realizations: Seq<Vec<Double>>,
    show: S,
    i: int,
) -> Seq<Seq<char>> {
    seq![shown(show, coords[i]@[0]), shown(show, coords[i]@[1]), comma_separated(
        all_shown(show, cell_values(realizations, i)),
    )]
}

/// The lines of the CSV of simulated grids: the header, then the rows.
pub open spec fn sims_lines<S: Fn(Double) -> String>(
    coords: Seq<[Double; 2]>,
    realizations: Seq<Vec<Double>>,
    show: S,
) -> Seq<Seq<Seq<char>>> {
    seq![seq!["x"@, "y"@, comma_separated(numbered("sim"@, realizations.len()))]] + Seq::new(
        coords.len(),
        |i: int| sims_line(coords, realizations, show, i),
    )
}

fn write_simulated_cells<S: Fn(Double) -> String>(
    coords: &Vec<[Double; 2]>,
    realizations: &Vec<Vec<Double>>,
    show: &S,
) -> (out: String)
    requires
        shows(*show),
        forall|r: int| 0 <= r < realizations@.len() ==> coords@.len() <= (#[trigger] realizations@[r])@.len(),
    ensures
        out@ == csv_text(sims_lines(coords@, realizations@, *show)),
{
    let ghost want = sims_lines(coords@, realizations@, *show);
    let mut lines: Vec<Vec<String>> = Vec::new();
    lines.push(line3("x".to_owned(), "y".to_owned(), join_fields(&number_words("sim", realizations.len()))));
    let n: usize = coords.len();
    for i in 0..n
        invariant
            shows(*show),
            forall|r: int| 0 <= r < realizations@.len() ==> coords@.len() <= (#[trigger] realizations@[r])@.len(),
            n == coords@.len(),
            want == sims_lines(coords@, realizations@, *show),
            lines@.len() == i + 1,
            forall|k: int| 0 <= k <= i ==> texts_of((#[trigger] lines@[k])@) == want[k],
    {
        let ghost before = lines@;
        lines.push(
            line3(
                show_number(coords[i][0], show),
                show_number(coords[i][1], show),
                join_fields(&show_numbers(&find_cell_values(realizations, i), show)),
            ),
        );
        proof {
            assert(texts_of(lines@[i + 1]@) =~= sims_line(coords@, realizations@, *show, i as int));
            assert(want[i + 1] == sims_line(coords@, realizations@, *show, i as int));
            assert forall|k: int| 0 <= k <= i implies texts_of((#[trigger] lines@[k])@)
                == want[k] by {
                assert(lines@[k] == before[k]);
            }
        }
    }
    assert(line_texts(lines@) =~= want);
    join_lines(&lines)
}

/// The text is the CSV of predictions at the centers of the grid.
pub open spec fn grid_text<F: Fn(Op, Double, Double) -> Double, S: Fn(Double) -> String>(
    ar: Arithmetic<F>,
    grid: Grid2D,
    values: Seq<Double>,
    variances: Seq<Double>,
    show: S,
    out: Seq<char>,
) -> bool {
    exists|coords: Seq<[Double; 2]>| #[trigger]
        grid.are_centers(ar, coords) && out == csv_text(
            grid_lines(coords, values, variances, show),
        )
}

/// Gridded predictions as CSV text.
pub fn write_grid_csv<F: Fn(Op, Double, Double) -> Double, S: Fn(Double) -> String>(
    grid: &Grid2D,
    values: &Vec<Double>,
    variances: &Vec<Double>,
    show: &S,
    ar: &Arithmetic<F>,
) -> (out: String)
    requires
        shows(*show),
        ar.total(),
        grid.listable(),
        grid.cells() <= values@.len(),
        grid.cells() <= variances@.len(),
    ensures
        grid_text(*ar, *grid, values@, variances@, *show, out@),
{
    let coords: Vec<[Double; 2]> = grid.centers(ar);
    write_cells(&coords, values, variances, show)
}

/// The text is the CSV of simulated values at the centers of the grid.
pub open spec fn sims_text<F: Fn(Op, Double, Double) -> Double, S: Fn(Double) -> String>(
    ar: Arithmetic<F>,
    grid: Grid2D,
    realizations: Seq<Vec<Double>>,
    show: S,
    out: Seq<char>,
) -> bool {
    exists|coords: Seq<[Double; 2]>| #[trigger]
        grid.are_centers(ar, coords) && out == csv_text(sims_lines(coords, realizations, show))
}

/// Simulated grids as CSV text, one column for each.
pub fn write_sims_csv<F: Fn(Op, Double, Double) -> Double, S: Fn(Double) -> String>(
    grid: &Grid2D,
    realizations: &Vec<Vec<Double>>,
    show: &S,
    ar: &Arithmetic<F>,
) -> (out: String)
    requires
        shows(*show),
        ar.total(),
        grid.listable(),
        forall|r: int|
            0 <= r < realizations@.len() ==> grid.cells() <= (#[trigger] realizations@[r])@.len(),
    ensures
        sims_text(*ar, *grid, realizations@, *show, out@),
{
    let coords: Vec<[Double; 2]> = grid.centers(ar);
    write_simulated_cells(&coords, realizations, show)
}

fn line6(a: String, b: String, c: String, d: String, e: String, f: String) -> (line: Vec<String>)
    ensures
        texts_of(line@) == seq![a@, b@, c@, d@, e@, f@],
{
    let ghost want = seq![a@, b@, c@, d@, e@, f@];
    let mut line: Vec<String> = line5(a, b, c, d, e);
    let ghost before = texts_of(line@);
    let ghost last = f@;
    line.push(f);
    assert(texts_of(line@) =~= before.push(last));
    assert(texts_of(line@) =~= want);
    line
}

/// Line `i` of the CSV of leave-one-out residuals.
pub open spec fn cv_line<F: Fn(Op, Double, Double) -> Double, S: Fn(Double) -> String>(
    ar: Arithmetic<F>,
    data: &PointSet<2>,
    cv: CvResult,
    show: S,
    i: int,
) -> Seq<Seq<char>> {
    seq![shown(show, data.places()[i]@[0]), shown(show, data.places()[i]@[1]), shown(show, cv.observed@[i]), shown(show, cv.predicted@[i]), shown(show, cv.variance@[i]), shown(
        show,
        ar.minus(cv.predicted@[i], cv.observed@[i]),
    )]
}

/// The lines of the CSV of leave-one-out residuals: the header, then the rows.
pub open spec fn cv_lines<F: Fn(Op, Double, Double) -> Double, S: Fn(Double) -> String>(
    ar: Arithmetic<F>,
    data: &PointSet<2>,
    cv: CvResult,
    show: S,
) -> Seq<Seq<Seq<char>>> {
    seq![seq!["x"@, "y"@, "observed"@, "predicted"@, "variance"@, "residual"@]] + Seq::new(
        data.places().len(),
        |i: int| cv_line(ar, data, cv, show, i),
    )
}

/// Leave-one-out residuals as CSV text.
pub fn write_cv_csv<F: Fn(Op, Double, Double) -> Double, S: Fn(Double) -> String>(
    data: &PointSet<2>,
    cv: &CvResult,
    show: &S,
    ar: &Arithmetic<F>,
) -> (out: String)
    requires
        shows(*show),
        ar.total(),
        data.well_formed(),
        data.places().len() <= cv.observed@.len(),
        data.places().len() <= cv.predicted@.len(),
        data.places().len() <= cv.variance@.len(),
    ensures
        out@ == csv_text(cv_lines(*ar, data, *cv, *show)),
{
    let ghost want = cv_lines(*ar, data, *cv, *show);
    let mut lines: Vec<Vec<String>> = Vec::new();
    lines.push(
        line6(
            "x".to_owned(),
            "y".to_owned(),
            "observed".to_owned(),
            "predicted".to_owned(),
            "variance".to_owned(),
            "residual".to_owned(),
        ),
    );
    let n: usize = data.coords().len();
    for i in 0..n
        invariant
            shows(*show),
            ar.total(),
            data.well_formed(),
            data.places().len() <= cv.observed@.len(),
            data.places().len() <= cv.predicted@.len(),
            data.places().len() <= cv.variance@.len(),
            n == data.places().len(),
            want == cv_lines(*ar, data, *cv, *show),
            lines@.len() == i + 1,
            forall|k: int| 0 <= k <= i ==> texts_of((#[trigger] lines@[k])@) == want[k],
    {
        let ghost before = lines@;
        lines.push(
            line6(
                show_number(data.coord(i)[0], show),
                show_number(data.coord(i)[1], show),
                show_number(cv.observed[i], show),
                show_number(cv.predicted[i], show),
                show_number(cv.variance[i], show),
                show_number(ar.minus(cv.predicted[i], cv.observed[i]), show),
            ),
        );
        proof {
            assert(texts_of(lines@[i + 1]@) =~= cv_line(*ar, data, *cv, *show, i as int));
            assert(want[i + 1] == cv_line(*ar, data, *cv, *show, i as int));
            assert forall|k: int| 0 <= k <= i implies texts_of((#[trigger] lines@[k])@)
                == want[k] by {
                assert(lines@[k] == before[k]);
            }
        }
    }
    assert(line_texts(lines@) =~= want);
    join_lines(&lines)
}

/// Points with a value, and further numbers of each.
#[derive(Debug)]
pub struct Points {
    /// The points.
    pub data: PointSet<2>,
    /// Further numbers of each point.
    pub extras: Vec<Vec<Double>>,
    /// Number of rows left out.
    pub skipped: usize,
}

/// The points are the first numbers of the rows.
pub open spec fn leads<const D: usize>(rows: Seq<Seq<Double>>, coords: Seq<[Double; D]>) -> bool {
    &&& coords.len() == rows.len()
    &&& forall|i: int| 0 <= i < rows.len() ==> (#[trigger] coords[i])@ == rows[i].take(D as int)
}

/// Number `k` of each row.
pub open spec fn column(rows: Seq<Seq<Double>>, k: int) -> Seq<Double> {
    Seq::new(rows.len(), |i: int| rows[i][k])
}

/// The numbers of each row from `k` on.
pub open spec fn rest_from(rows: Seq<Seq<Double>>, k: int) -> Seq<Seq<Double>> {
    Seq::new(rows.len(), |i: int| rows[i].skip(k))
}

/// The first `k` numbers of each row are finite.
pub open spec fn finite_columns(rows: Seq<Seq<Double>>, k: int) -> bool {
    forall|i: int, j: int|
        0 <= i < rows.len() && 0 <= j < k ==> (#[trigger] rows[i][j]).finite()
}

/// What rows of x, y, value and further numbers give.
pub open spec fn points_made(
    path: Seq<char>,
    rows: Seq<Seq<Double>>,
    skipped: nat,
    r: Result<Points, TableError>,
) -> bool {
    if rows.len() == 0 {
        r matches Err(e) && e.says("no valid data rows in "@ + path, None)
    } else if !finite_columns(rows, 2) {
        r matches Err(TableError::Data(e)) && invalid(e, "non-finite coordinate"@)
    } else if !finite_values(column(rows, 2)) {
        r matches Err(TableError::Data(e)) && invalid(e, "non-finite value"@)
    } else {
        r matches Ok(p) && {
            &&& p.data.well_formed()
            &&& leads(rows, p.data.places())
            &&& p.data.attributes() == column(rows, 2)
            &&& numbers(p.extras@) == rest_from(rows, 3)
            &&& p.skipped == skipped
        }
    }
}

/// What a table of x, y, value and further numbers gives.
pub open spec fn points_of(
    path: Seq<char>,
    table: Result<Table, TableError>,
    r: Result<Points, TableError>,
) -> bool {
    match table {
        Err(e) => r == Err::<Points, TableError>(e),
        Ok(t) => points_made(path, numbers(t.rows@), t.skipped as nat, r),
    }
}

/// What reading points from a CSV text gives.
pub open spec fn points_read<P: Fn(&str) -> Option<Double>>(
    parse: P,
    bytes: Seq<u8>,
    names: Seq<Seq<char>>,
    path: Seq<char>,
    r: Result<Points, TableError>,
) -> bool {
    exists|t: Result<Table, TableError>| #[trigger]
        table_read(parse, header_of(bytes), records_of(bytes), names, t) && points_of(path, t, r)
}

/// Every row has this many numbers.
pub open spec fn wide(rows: Seq<Seq<Double>>, n: int) -> bool {
    forall|i: int| 0 <= i < rows.len() ==> (#[trigger] rows[i]).len() == n
}

proof fn lemma_columns_len(header: Seq<Seq<char>>, names: Seq<Seq<char>>)
    ensures
        columns(header, names) matches Ok(idx) ==> idx.len() == names.len(),
    decreases names.len(),
{
    if names.len() > 0 {
        lemma_columns_len(header, names.drop_last());
    }
}

proof fn lemma_row_len<P: Fn(&str) -> Option<Double>>(
    parse: P,
    record: Seq<Seq<char>>,
    idx: Seq<usize>,
)
    ensures
        row_values(parse, record, idx) matches Some(row) ==> row.len() == idx.len(),
    decreases idx.len(),
{
    if idx.len() > 0 {
        lemma_row_len(parse, record, idx.drop_last());
    }
}

proof fn lemma_gathered_wide<P: Fn(&str) -> Option<Double>>(
    parse: P,
    records: Seq<Result<Seq<Seq<char>>, Seq<char>>>,
    idx: Seq<usize>,
)
    ensures
        gathered(parse, records, idx) matches Ok(g) ==> wide(g.rows, idx.len() as int),
    decreases records.len(),
{
    if records.len() > 0 {
        lemma_gathered_wide(parse, records.drop_last(), idx);
        if let Ok(record) = records.last() {
            lemma_row_len(parse, record, idx);
        }
    }
}

/// A table has a number in every row for every column asked for.
pub proof fn table_is_full<P: Fn(&str) -> Option<Double>>(
    parse: P,
    header: Result<Seq<Seq<char>>, Seq<char>>,
    records: Seq<Result<Seq<Seq<char>>, Seq<char>>>,
    names: Seq<Seq<char>>,
    r: Result<Table, TableError>,
)
    requires
        table_read(parse, header, records, names, r),
    ensures
        r matches Ok(t) ==> wide(numbers(t.rows@), names.len() as int),
{
    if let Ok(h) = header {
        lemma_columns_len(h, names);
        if let Ok(idx) = columns(h, names) {
            lemma_gathered_wide(parse, records, idx);
        }
    }
}

fn rest_of(row: &Vec<Double>, k: usize) -> (out: Vec<Double>)
    requires
        k <= row@.len(),
    ensures
        out@ == row@.skip(k as int),
{
    let mut out: Vec<Double> = Vec::new();
    for i in k..row.len()
        invariant
            k <= row@.len(),
            out@ =~= row@.subrange(k as int, i as int),
    {
        out.push(row[i]);
    }
    assert(out@ =~= row@.skip(k as int));
    out
}

/// Points from a table of x, y, value and further numbers.
pub fn make_points(path: &str, table: Result<Table, TableError>) -> (r: Result<Points, TableError>)
    requires
        table matches Ok(t) ==> exists|n: int| n >= 3 && #[trigger] wide(numbers(t.rows@), n),
    ensures
        points_of(path@, table, r),
{
    let t: Table = match table {
        Err(e) => {
            return Err(e);
        },
        Ok(t) => t,
    };
    let ghost rows = numbers(t.rows@);
    let ghost n = choose|n: int| n >= 3 && #[trigger] wide(rows, n);
    let mut coords: Vec<[Double; 2]> = Vec::new();
    let mut values: Vec<Double> = Vec::new();
    let mut extras: Vec<Vec<Double>> = Vec::new();
    for i in 0..t.rows.len()
        invariant
            rows == numbers(t.rows@),
            n >= 3,
            wide(rows, n),
            coords@.len() == i,
            forall|k: int| 0 <= k < i ==> (#[trigger] coords@[k])@ == rows[k].take(2),
            values@ =~= column(rows, 2).take(i as int),
            extras@.len() == i,
            forall|k: int| 0 <= k < i ==> (#[trigger] extras@[k])@ == rows[k].skip(3),
    {
        let row: &Vec<Double> = &t.rows[i];
        assert(rows[i as int] == row@);
        let c: [Double; 2] = [row[0], row[1]];
        assert(c@ =~= row@.take(2));
        coords.push(c);
        values.push(row[2]);
        extras.push(rest_of(row, 3));
    }
    assert(values@ =~= column(rows, 2));
    if coords.len() == 0 {
        return Err(TableError::Table(concat2("no valid data rows in ", path), None));
    }
    proof {
        lemma_finite_leads(rows, coords@);
        assert(numbers(extras@) =~= rest_from(rows, 3));
    }
    match PointSet::new(coords, values) {
        Err(e) => Err(TableError::Data(e)),
        Ok(data) => Ok(Points { data, extras, skipped: t.skipped }),
    }
}

/// Points are finite exactly where the numbers that they consist of are.
proof fn lemma_finite_leads<const D: usize>(rows: Seq<Seq<Double>>, coords: Seq<[Double; D]>)
    requires
        leads(rows, coords),
        forall|i: int| 0 <= i < rows.len() ==> D <= (#[trigger] rows[i]).len(),
    ensures
        finite_points(coords) == finite_columns(rows, D as int),
{
    if finite_points(coords) {
        assert forall|i: int, j: int| 0 <= i < rows.len() && 0 <= j < D implies (
        #[trigger] rows[i][j]).finite() by {
            assert(crate::data::finite_point(coords[i]));
            assert(coords[i]@[j] == rows[i][j]);
        }
    }
    if finite_columns(rows, D as int) {
        assert forall|i: int| 0 <= i < coords.len() implies crate::data::finite_point(
            #[trigger] coords[i],
        ) by {
            assert forall|j: int| 0 <= j < D implies (#[trigger] coords[i]@[j]).finite() by {
                assert(rows[i][j].finite());
            }
        }
    }
}

fn names_of(first: &Vec<String>, more: &Vec<String>) -> (names: Vec<String>)
    ensures
        texts_of(names@) == texts_of(first@) + texts_of(more@),
{
    let mut names: Vec<String> = Vec::new();
    for i in 0..first.len()
        invariant
            texts_of(names@) =~= texts_of(first@).take(i as int),
    {
        let ghost before = texts_of(names@);
        names.push(first[i].as_str().to_owned());
        assert(texts_of(names@) =~= before.push(first@[i as int]@));
    }
    for i in 0..more.len()
        invariant
            texts_of(names@) =~= texts_of(first@) + texts_of(more@).take(i as int),
    {
        let ghost before = texts_of(names@);
        names.push(more[i].as_str().to_owned());
        assert(texts_of(names@) =~= before.push(more@[i as int]@));
    }
    assert(texts_of(names@) =~= texts_of(first@) + texts_of(more@));
    names
}

/// Reads points with a value, and further numeric columns (such as drift covariates
/// or a secondary variable), from a CSV text with named columns. Rows without a
/// number in one of the columns are left out and counted.
pub fn read_points_with_extras<P: Fn(&str) -> Option<Double>>(
    bytes: &[u8],
    path: &str,
    x_col: &str,
    y_col: &str,
    value_col: &str,
    extra_cols: &Vec<String>,
    parse: &P,
) -> (r: Result<Points, TableError>)
    requires
        parses(*parse),
    ensures
        points_read(
            *parse,
            bytes@,
            seq![x_col@, y_col@, value_col@] + texts_of(extra_cols@),
            path@,
            r,
        ),
{
    let first: Vec<String> = line3(x_col.to_owned(), y_col.to_owned(), value_col.to_owned());
    let names: Vec<String> = names_of(&first, extra_cols);
    let table: Result<Table, TableError> = read_columns(bytes, &names, parse);
    proof {
        table_is_full(
            *parse,
            header_of(bytes@),
            records_of(bytes@),
            texts_of(names@),
            table,
        );
        assert(table matches Ok(t) ==> wide(numbers(t.rows@), texts_of(names@).len() as int));
        assert(texts_of(names@).len() >= 3);
    }
    make_points(path, table)
}

/// What reading points without further numbers from a CSV text gives.
pub open spec fn plain_points_read<P: Fn(&str) -> Option<Double>>(
    parse: P,
    bytes: Seq<u8>,
    names: Seq<Seq<char>>,
    path: Seq<char>,
    r: Result<(PointSet<2>, usize), TableError>,
) -> bool {
    exists|p: Result<Points, TableError>| #[trigger]
        points_read(parse, bytes, names, path, p) && match p {
            Ok(q) => r == Ok::<(PointSet<2>, usize), TableError>((q.data, q.skipped)),
            Err(e) => r == Err::<(PointSet<2>, usize), TableError>(e),
        }
}

/// Reads points with a value from a CSV text with named columns. Rows without a
/// number in one of the columns are left out and counted.
pub fn read_points<P: Fn(&str) -> Option<Double>>(
    bytes: &[u8],
    path: &str,
    x_col: &str,
    y_col: &str,
    value_col: &str,
    parse: &P,
) -> (r: Result<(PointSet<2>, usize), TableError>)
    requires
        parses(*parse),
    ensures
        plain_points_read(*parse, bytes@, seq![x_col@, y_col@, value_col@], path@, r),
{
    let none: Vec<String> = Vec::new();
    let p: Result<Points, TableError> = read_points_with_extras(
        bytes,
        path,
        x_col,
        y_col,
        value_col,
        &none,
        parse,
    );
    proof {
        assert(seq![x_col@, y_col@, value_col@] + texts_of(none@) =~= seq![
            x_col@,
            y_col@,
            value_col@,
        ]);
        assert(points_read(*parse, bytes@, seq![x_col@, y_col@, value_col@], path@, p));
    }
    match p {
        Ok(q) => Ok((q.data, q.skipped)),
        Err(e) => Err(e),
    }
}

/// What points with x, y and z and a further number give in space.
pub open spec fn lifted(
    p: Result<Points, TableError>,
    r: Result<(PointSet<3>, usize), TableError>,
) -> bool {
    match p {
        Err(e) => r == Err::<(PointSet<3>, usize), TableError>(e),
        Ok(q) => if !finite_values(column(numbers(q.extras@), 0)) {
            r matches Err(TableError::Data(e)) && invalid(e, "non-finite value"@)
        } else {
            r matches Ok((s, skipped)) && {
                &&& s.well_formed()
                &&& s.places().len() == q.data.places().len()
                &&& forall|i: int|
                    0 <= i < s.places().len() ==> (#[trigger] s.places()[i])@
                        == q.data.places()[i]@.push(q.data.attributes()[i])
                &&& s.attributes() == column(numbers(q.extras@), 0)
                &&& skipped == q.skipped
            }
        },
    }
}

/// Points in space: the value of each point is its third coordinate, and its first
/// further number is its value.
pub fn lift_points(p: Result<Points, TableError>) -> (r: Result<(PointSet<3>, usize), TableError>)
    requires
        p matches Ok(q) ==> q.data.well_formed() && q.data.places().len() == q.extras@.len()
            && q.extras@.len() > 0 && forall|i: int|
            0 <= i < q.extras@.len() ==> (#[trigger] q.extras@[i])@.len() > 0,
    ensures
        lifted(p, r),
{
    let q: Points = match p {
        Err(e) => {
            return Err(e);
        },
        Ok(q) => q,
    };
    let mut coords: Vec<[Double; 3]> = Vec::new();
    let mut values: Vec<Double> = Vec::new();
    for i in 0..q.extras.len()
        invariant
            q.data.well_formed(),
            q.data.places().len() == q.extras@.len(),
            forall|k: int| 0 <= k < q.extras@.len() ==> (#[trigger] q.extras@[k])@.len() > 0,
            coords@.len() == i,
            forall|k: int|
                0 <= k < i ==> (#[trigger] coords@[k])@ == q.data.places()[k]@.push(
                    q.data.attributes()[k],
                ),
            values@ =~= column(numbers(q.extras@), 0).take(i as int),
    {
        let c: [Double; 2] = q.data.coord(i);
        let xyz: [Double; 3] = [c[0], c[1], q.data.value(i)];
        assert(xyz@ =~= c@.push(q.data.attributes()[i as int]));
        coords.push(xyz);
        assert(q.extras@[i as int]@.len() > 0);
        values.push(q.extras[i][0]);
    }
    proof {
        assert(values@ =~= column(numbers(q.extras@), 0));
        assert forall|i: int| 0 <= i < coords@.len() implies crate::data::finite_point(
            #[trigger] coords@[i],
        ) by {
            assert(crate::data::finite_point(q.data.places()[i]));
            assert forall|d: int| 0 <= d < 3 implies (#[trigger] coords@[i]@[d]).finite() by {
                if d < 2 {
                    assert(coords@[i]@[d] == q.data.places()[i]@[d]);
                } else {
                    assert(coords@[i]@[d] == q.data.attributes()[i]);
                }
            }
        }
    }
    match PointSet::new(coords, values) {
        Err(e) => Err(TableError::Data(e)),
        Ok(s) => Ok((s, q.skipped)),
    }
}

/// What reading points in space from a CSV text gives.
pub open spec fn points3_read<P: Fn(&str) -> Option<Double>>(
    parse: P,
    bytes: Seq<u8>,
    names: Seq<Seq<char>>,
    path: Seq<char>,
    r: Result<(PointSet<3>, usize), TableError>,
) -> bool {
    exists|p: Result<Points, TableError>| #[trigger]
        points_read(parse, bytes, names, path, p) && lifted(p, r)
}

/// Reads points in space with a value from a CSV text with named columns. Rows
/// without a number in one of the columns are left out and counted.
pub fn read_points3<P: Fn(&str) -> Option<Double>>(
    bytes: &[u8],
    path: &str,
    x_col: &str,
    y_col: &str,
    z_col: &str,
    value_col: &str,
    parse: &P,
) -> (r: Result<(PointSet<3>, usize), TableError>)
    requires
        parses(*parse),
    ensures
        points3_read(*parse, bytes@, seq![x_col@, y_col@, z_col@, value_col@], path@, r),
{
    let mut more: Vec<String> = Vec::new();
    more.push(value_col.to_owned());
    let ghost names = seq![x_col@, y_col@, z_col@, value_col@];
    let p: Result<Points, TableError> = read_points_with_extras(
        bytes,
        path,
        x_col,
        y_col,
        z_col,
        &more,
        parse,
    );
    proof {
        assert(seq![x_col@, y_col@, z_col@] + texts_of(more@) =~= names);
        assert(points_read(*parse, bytes@, names, path@, p));
        lemma_extras_wide(*parse, bytes@, names, path@, p);
        if p is Ok {
            let extras = p->Ok_0.extras@;
            assert forall|i: int| 0 <= i < extras.len() implies (#[trigger] extras[i])@.len()
                > 0 by {
                assert(numbers(extras)[i] == extras[i]@);
            }
        }
    }
    lift_points(p)
}

/// Points that were read have as many further numbers as there were further names.
proof fn lemma_extras_wide<P: Fn(&str) -> Option<Double>>(
    parse: P,
    bytes: Seq<u8>,
    names: Seq<Seq<char>>,
    path: Seq<char>,
    p: Result<Points, TableError>,
)
    requires
        points_read(parse, bytes, names, path, p),
        names.len() >= 3,
    ensures
        p matches Ok(q) ==> q.data.places().len() == q.extras@.len() && q.extras@.len() > 0 && wide(
            numbers(q.extras@),
            names.len() - 3,
        ),
{
    let t = choose|t: Result<Table, TableError>| #[trigger]
        table_read(parse, header_of(bytes), records_of(bytes), names, t) && points_of(path, t, p);
    table_is_full(parse, header_of(bytes), records_of(bytes), names, t);
    if let (Ok(t), Ok(q)) = (t, p) {
        let rows = numbers(t.rows@);
        assert(numbers(q.extras@) == rest_from(rows, 3));
        assert(numbers(q.extras@).len() == q.extras@.len());
        assert forall|i: int| 0 <= i < q.extras@.len() implies (#[trigger] numbers(
            q.extras@,
        )[i]).len() == names.len() - 3 by {
            assert(rows[i].len() == names.len());
        }
    }
}

/// Prediction targets, and further numbers of each.
#[derive(Debug)]
pub struct Targets {
    /// The targets.
    pub coords: Vec<[Double; 2]>,
    /// Further numbers of each target.
    pub extras: Vec<Vec<Double>>,
    /// Number of rows left out.
    pub skipped: usize,
}

/// What a table of x, y and further numbers gives.
pub open spec fn targets_of(
    path: Seq<char>,
    table: Result<Table, TableError>,
    r: Result<Targets, TableError>,
) -> bool {
    match table {
        Err(e) => r == Err::<Targets, TableError>(e),
        Ok(t) => if t.rows@.len() == 0 {
            r matches Err(e) && e.says("no valid target rows in "@ + path, None)
        } else {
            r matches Ok(q) && {
                &&& leads(numbers(t.rows@), q.coords@)
                &&& numbers(q.extras@) == rest_from(numbers(t.rows@), 2)
                &&& q.skipped == t.skipped
            }
        },
    }
}

/// What reading targets from a CSV text gives.
pub open spec fn targets_read<P: Fn(&str) -> Option<Double>>(
    parse: P,
    bytes: Seq<u8>,
    names: Seq<Seq<char>>,
    path: Seq<char>,
    r: Result<Targets, TableError>,
) -> bool {
    exists|t: Result<Table, TableError>| #[trigger]
        table_read(parse, header_of(bytes), records_of(bytes), names, t) && targets_of(path, t, r)
}

/// Targets from a table of x, y and further numbers.
pub fn make_targets(path: &str, table: Result<Table, TableError>) -> (r: Result<
    Targets,
    TableError,
>)
    requires
        table matches Ok(t) ==> exists|n: int| n >= 2 && #[trigger] wide(numbers(t.rows@), n),
    ensures
        targets_of(path@, table, r),
{
    let t: Table = match table {
        Err(e) => {
            return Err(e);
        },
        Ok(t) => t,
    };
    let ghost rows = numbers(t.rows@);
    let ghost n = choose|n: int| n >= 2 && #[trigger] wide(rows, n);
    let mut coords: Vec<[Double; 2]> = Vec::new();
    let mut extras: Vec<Vec<Double>> = Vec::new();
    for i in 0..t.rows.len()
        invariant
            rows == numbers(t.rows@),
            n >= 2,
            wide(rows, n),
            coords@.len() == i,
            forall|k: int| 0 <= k < i ==> (#[trigger] coords@[k])@ == rows[k].take(2),
            extras@.len() == i,
            forall|k: int| 0 <= k < i ==> (#[trigger] extras@[k])@ == rows[k].skip(2),
    {
        let row: &Vec<Double> = &t.rows[i];
        assert(rows[i as int] == row@);
        let c: [Double; 2] = [row[0], row[1]];
        assert(c@ =~= row@.take(2));
        coords.push(c);
        extras.push(rest_of(row, 2));
    }
    if coords.len() == 0 {
        return Err(TableError::Table(concat2("no valid target rows in ", path), None));
    }
    assert(numbers(extras@) =~= rest_from(rows, 2));
    Ok(Targets { coords, extras, skipped: t.skipped })
}

/// Reads prediction targets, and further numeric columns, from a CSV text with
/// named columns. Rows without a number in one of the columns are left out and
/// counted.
pub fn read_targets<P: Fn(&str) -> Option<Double>>(
    bytes: &[u8],
    path: &str,
    x_col: &str,
    y_col: &str,
    extra_cols: &Vec<String>,
    parse: &P,
) -> (r: Result<Targets, TableError>)
    requires
        parses(*parse),
    ensures
        targets_read(*parse, bytes@, seq![x_col@, y_col@] + texts_of(extra_cols@), path@, r),
{
    let mut first: Vec<String> = Vec::new();
    first.push(x_col.to_owned());
    first.push(y_col.to_owned());
    assert(texts_of(first@) =~= seq![x_col@, y_col@]);
    let names: Vec<String> = names_of(&first, extra_cols);
    let table: Result<Table, TableError> = read_columns(bytes, &names, parse);
    proof {
        table_is_full(
            *parse,
            header_of(bytes@),
            records_of(bytes@),
            texts_of(names@),
            table,
        );
        assert(table matches Ok(t) ==> wide(numbers(t.rows@), texts_of(names@).len() as int));
        assert(texts_of(names@).len() >= 2);
    }
    make_targets(path, table)
}

/// What targets with a further number give in space.
pub open spec fn targets_lifted(
    p: Result<Targets, TableError>,
    r: Result<(Vec<[Double; 3]>, usize), TableError>,
) -> bool {
    match p {
        Err(e) => r == Err::<(Vec<[Double; 3]>, usize), TableError>(e),
        Ok(q) => r matches Ok((coords, skipped)) && {
            &&& coords@.len() == q.coords@.len()
            &&& forall|i: int|
                0 <= i < coords@.len() ==> (#[trigger] coords@[i])@ == q.coords@[i]@.push(
                    q.extras@[i]@[0],
                )
            &&& skipped == q.skipped
        },
    }
}

/// What reading targets in space from a CSV text gives.
pub open spec fn targets3_read<P: Fn(&str) -> Option<Double>>(
    parse: P,
    bytes: Seq<u8>,
    names: Seq<Seq<char>>,
    path: Seq<char>,
    r: Result<(Vec<[Double; 3]>, usize), TableError>,
) -> bool {
    exists|p: Result<Targets, TableError>| #[trigger]
        targets_read(parse, bytes, names, path, p) && targets_lifted(p, r)
}

/// Reads prediction targets in space from a CSV text with named columns. Rows
/// without a number in one of the columns are left out and counted.
pub fn read_targets3<P: Fn(&str) -> Option<Double>>(
    bytes: &[u8],
    path: &str,
    x_col: &str,
    y_col: &str,
    z_col: &str,
    parse: &P,
) -> (r: Result<(Vec<[Double; 3]>, usize), TableError>)
    requires
        parses(*parse),
    ensures
        targets3_read(*parse, bytes@, seq![x_col@, y_col@, z_col@], path@, r),
{
    let mut more: Vec<String> = Vec::new();
    more.push(z_col.to_owned());
    let ghost names = seq![x_col@, y_col@, z_col@];
    let p: Result<Targets, TableError> = read_targets(bytes, path, x_col, y_col, &more, parse);
    proof {
        assert(seq![x_col@, y_col@] + texts_of(more@) =~= names);
        assert(targets_read(*parse, bytes@, names, path@, p));
        lemma_targets_wide(*parse, bytes@, names, path@, p);
    }
    let ghost whole = p;
    let q: Targets = match p {
        Err(e) => {
            return Err(e);
        },
        Ok(q) => q,
    };
    let mut coords: Vec<[Double; 3]> = Vec::new();
    for i in 0..q.coords.len()
        invariant
            q.coords@.len() == q.extras@.len(),
            forall|k: int| 0 <= k < q.extras@.len() ==> (#[trigger] q.extras@[k])@.len() > 0,
            coords@.len() == i,
            forall|k: int|
                0 <= k < i ==> (#[trigger] coords@[k])@ == q.coords@[k]@.push(q.extras@[k]@[0]),
    {
        let c: [Double; 2] = q.coords[i];
        assert(q.extras@[i as int]@.len() > 0);
        let xyz: [Double; 3] = [c[0], c[1], q.extras[i][0]];
        assert(xyz@ =~= c@.push(q.extras@[i as int]@[0]));
        coords.push(xyz);
    }
    Ok((coords, q.skipped))
}

/// Targets that were read have as many further numbers as there were further names.
proof fn lemma_targets_wide<P: Fn(&str) -> Option<Double>>(
    parse: P,
    bytes: Seq<u8>,
    names: Seq<Seq<char>>,
    path: Seq<char>,
    p: Result<Targets, TableError>,
)
    requires
        targets_read(parse, bytes, names, path, p),
        names.len() >= 3,
    ensures
        p matches Ok(q) ==> q.coords@.len() == q.extras@.len() && forall|i: int|
            0 <= i < q.extras@.len() ==> (#[trigger] q.extras@[i])@.len() == names.len() - 2,
{
    let t = choose|t: Result<Table, TableError>| #[trigger]
        table_read(parse, header_of(bytes), records_of(bytes), names, t) && targets_of(path, t, p);
    table_is_full(parse, header_of(bytes), records_of(bytes), names, t);
    if let (Ok(t), Ok(q)) = (t, p) {
        let rows = numbers(t.rows@);
        assert(numbers(q.extras@).len() == q.extras@.len());
        assert forall|i: int| 0 <= i < q.extras@.len() implies (#[trigger] q.extras@[i])@.len()
            == names.len() - 2 by {
            assert(rows[i].len() == names.len());
            assert(numbers(q.extras@)[i] == rest_from(rows, 2)[i]);
        }
    }
}

} // verus!
