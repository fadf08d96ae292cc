//! What the command line asks for: lists of numbers and names, grids, methods and
//! cutoffs.

use vstd::prelude::*;

use crate::arith::{num, Arithmetic, Op};
use crate::bucket_grid::cells_across;
use crate::data::{highest, lowest, PointSet};
use crate::double::{Double, HIDDEN, ONE};
use crate::error::{invalid, invalid_of, GeostatError};
use crate::grid::{countable, nth_part, proper_box, Grid2D};
use crate::kriging::KrigingMethod;
use crate::order::{sort_positions, stable_order};
use crate::table::{parse_text, parsed, parses};
use crate::text::{
    chars_of, concat3, is_text, piece_texts, pieces, same_ignoring_case, split, string_of, texts_of,
    to_lower, trim, trimmed,
};
use crate::transform::{arranged, total_keys};

verus! {

/// Why a command stops.
#[derive(Debug)]
pub enum Refusal {
    /// The request is refused with this text; `{}` stands for the double, where
    /// there is one.
    Request(String, Option<Double>),
    /// The computation refuses.
    Core(GeostatError),
}

impl Refusal {
    /// The request is refused with this text.
    pub open spec fn says(self, text: Seq<char>) -> bool {
        self matches Refusal::Request(t, None) && t@ == text
    }

    /// The request is refused with this text about a double.
    pub open spec fn says_of(self, text: Seq<char>, double: Double) -> bool {
        self matches Refusal::Request(t, Some(d)) && t@ == text && d == double
    }
}

/// Refuses a request.
pub fn refuse(text: &str) -> (r: Refusal)
    ensures
        r.says(text@),
{
    Refusal::Request(text.to_owned(), None)
}

/// Whether a file extension is that of a GeoPackage, in upper or lower case.
pub fn is_gpkg(extension: Option<&str>) -> (b: bool)
    ensures
        b == (extension matches Some(e) && same_ignoring_case(e@, "gpkg"@)),
{
    match extension {
        None => false,
        Some(e) => {
            proof {
                reveal_strlit("gpkg");
                assert(crate::text::lowered("gpkg"@) =~= "gpkg"@);
            }
            is_text(&to_lower(&chars_of(e)), "gpkg")
        },
    }
}

/// Names of model families in a list, read by `list`.
pub fn parse_kinds<K, E, L: Fn(&str) -> Result<Vec<K>, E>>(spec: &str, list: &L) -> (r: Result<
    Vec<K>,
    E,
>)
    requires
        call_requires(list, (spec,)),
    ensures
        call_ensures(list, (spec,), r),
{
    list(spec)
}

/// The pieces between commas, without white space around them.
pub open spec fn listed_names(spec: Seq<char>) -> Seq<Seq<char>> {
    Seq::new(pieces(spec, ',').len(), |i: int| trimmed(pieces(spec, ',')[i]))
}

/// Names separated by commas.
pub fn split_names(spec: &str) -> (names: Vec<String>)
    ensures
        texts_of(names@) == listed_names(spec@),
        names@.len() > 0,
{
    let parts: Vec<Vec<char>> = split(&chars_of(spec), ',');
    let mut names: Vec<String> = Vec::new();
    for i in 0..parts.len()
        invariant
            piece_texts(parts@) == pieces(spec@, ','),
            texts_of(names@) =~= listed_names(spec@).take(i as int),
    {
        let ghost before = texts_of(names@);
        assert(piece_texts(parts@)[i as int] == parts@[i as int]@);
        names.push(string_of(&trim(&parts[i])));
        assert(texts_of(names@) =~= before.push(trimmed(parts@[i as int]@)));
    }
    assert(names@.len() == texts_of(names@).len());
    assert(texts_of(names@) =~= listed_names(spec@));
    names
}

/// Numbers that names stand for, or the text about the first that is no number.
pub open spec fn floats<P: Fn(&str) -> Option<Double>>(
    parse: P,
    names: Seq<Seq<char>>,
) -> Result<Seq<Double>, Seq<char>>
    decreases names.len(),
{
    if names.len() == 0 {
        Ok(Seq::empty())
    } else {
        match floats(parse, names.drop_last()) {
            Err(e) => Err(e),
            Ok(before) => match parsed(parse, names.last()) {
                Some(v) => Ok(before.push(v)),
                None => Err("invalid number '"@ + names.last() + "'"@),
            },
        }
    }
}

/// Numbers separated by commas, or the text about the first that is no number.
pub open spec fn numbers_in<P: Fn(&str) -> Option<Double>>(
    parse: P,
    spec: Seq<char>,
) -> Result<Seq<Double>, Seq<char>> {
    floats(parse, listed_names(spec))
}

/// A name that is no number, among the first, is the first among all.
proof fn lemma_floats_fail<P: Fn(&str) -> Option<Double>>(parse: P, names: Seq<Seq<char>>, n: int)
    requires
        0 <= n <= names.len(),
        floats(parse, names.take(n)) is Err,
    ensures
        floats(parse, names) == floats(parse, names.take(n)),
    decreases names.len() - n,
{
    if n == names.len() {
        assert(names.take(n) =~= names);
    } else {
        assert(names.take(n + 1).drop_last() =~= names.take(n));
        lemma_floats_fail(parse, names, n + 1);
    }
}

/// Numbers separated by commas.
pub fn parse_floats<P: Fn(&str) -> Option<Double>>(spec: &str, parse: &P) -> (r: Result<Vec<Double>, Refusal>)
    requires
        parses(*parse),
    ensures
        match numbers_in(*parse, spec@) {
            Ok(v) => r matches Ok(w) && w@ == v,
            Err(e) => r matches Err(f) && f.says(e),
        },
{
    let names: Vec<String> = split_names(spec);
    let ghost all = listed_names(spec@);
    let mut values: Vec<Double> = Vec::new();
    for i in 0..names.len()
        invariant
            parses(*parse),
            all == listed_names(spec@),
            texts_of(names@) == all,
            floats(*parse, all.take(i as int)) == Ok::<Seq<Double>, Seq<char>>(values@),
    {
        assert(all[i as int] == names@[i as int]@);
        assert(all.take(i + 1).drop_last() =~= all.take(i as int));
        assert(all.take(i + 1).last() == all[i as int]);
        match parse_text(names[i].as_str(), parse) {
            Some(v) => {
                values.push(v);
            },
            None => {
                proof {
                    lemma_floats_fail(*parse, all, i + 1);
                }
                return Err(
                    Refusal::Request(concat3("invalid number '", names[i].as_str(), "'"), None),
                );
            },
        }
    }
    assert(all.take(names.len() as int) =~= all);
    Ok(values)
}

/// What reading a box gives.
pub open spec fn box_read<P: Fn(&str) -> Option<Double>>(
    parse: P,
    s: Seq<char>,
    r: Result<([Double; 2], [Double; 2]), Refusal>,
) -> bool {
    match numbers_in(parse, s) {
        Err(e) => r matches Err(f) && f.says(e),
        Ok(v) => if v.len() != 4 {
            r matches Err(f) && f.says(
                "bbox must be \"xmin,ymin,xmax,ymax\", got '"@ + s + "'"@,
            )
        } else {
            r matches Ok(b) && b.0@ == v.take(2) && b.1@ == v.skip(2)
        },
    }
}

/// Corners of a box, from four numbers separated by commas.
pub fn parse_bbox<P: Fn(&str) -> Option<Double>>(
    s: &str,
    parse: &P,
) -> (r: Result<([Double; 2], [Double; 2]), Refusal>)
    requires
        parses(*parse),
    ensures
        box_read(*parse, s@, r),
{
    let parts: Vec<Double> = match parse_floats(s, parse) {
        Err(e) => {
            return Err(e);
        },
        Ok(v) => v,
    };
    if parts.len() != 4 {
        return Err(
            Refusal::Request(
                concat3("bbox must be \"xmin,ymin,xmax,ymax\", got '", s, "'"),
                None,
            ),
        );
    }
    let min: [Double; 2] = [parts[0], parts[1]];
    let max: [Double; 2] = [parts[2], parts[3]];
    assert(min@ =~= parts@.take(2));
    assert(max@ =~= parts@.skip(2));
    Ok((min, max))
}

/// Corners that a grid is asked to cover: those given, otherwise those of the data.
pub open spec fn corners<P: Fn(&str) -> Option<Double>>(
    parse: P,
    bbox: Option<Seq<char>>,
    data: &PointSet<2>,
    r: Result<([Double; 2], [Double; 2]), Refusal>,
) -> bool {
    match bbox {
        Some(s) => box_read(parse, s, r),
        None => r matches Ok(b) && (forall|d: int|
            0 <= d < 2 ==> lowest(#[trigger] b.0@[d], data.places(), d)) && (forall|d: int|
            0 <= d < 2 ==> highest(#[trigger] b.1@[d], data.places(), d)),
    }
}

/// What a grid with these corners gives.
pub open spec fn grid_made<F: Fn(Op, Double, Double) -> Double>(
    ar: Arithmetic<F>,
    min: Seq<Double>,
    max: Seq<Double>,
    nx: usize,
    ny: usize,
    res: Option<Double>,
    r: Result<Grid2D, Refusal>,
) -> bool {
    match res {
        Some(side) => if !side.positive() {
            r matches Err(Refusal::Core(e)) && invalid_of(
                e,
                "resolution must be positive, got {}"@,
                seq![side],
            )
        } else if !proper_box(min, max) {
            r matches Err(Refusal::Core(e)) && invalid_of(
                e,
                "degenerate bbox: min [{:?}, {:?}], max [{:?}, {:?}]"@,
                min + max,
            )
        } else {
            r == Ok::<Grid2D, Refusal>(
                Grid2D {
                    x0: min[0],
                    y0: min[1],
                    dx: side,
                    dy: side,
                    nx: cells_across(ar.over(ar.minus(max[0], min[0]), side)) as usize,
                    ny: cells_across(ar.over(ar.minus(max[1], min[1]), side)) as usize,
                },
            )
        },
        None => if nx == 0 || ny == 0 {
            r matches Err(Refusal::Core(e)) && invalid(
                e,
                "grid must have at least one cell per axis"@,
            )
        } else if !proper_box(min, max) {
            r matches Err(Refusal::Core(e)) && invalid_of(
                e,
                "degenerate bbox: min [{:?}, {:?}], max [{:?}, {:?}]"@,
                min + max,
            )
        } else {
            r == Ok::<Grid2D, Refusal>(
                Grid2D {
                    x0: min[0],
                    y0: min[1],
                    dx: nth_part(ar, min[0], max[0], nx as nat),
                    dy: nth_part(ar, min[1], max[1], ny as nat),
                    nx,
                    ny,
                },
            )
        },
    }
}

/// What the grid options give.
pub open spec fn grid_built<F: Fn(Op, Double, Double) -> Double, P: Fn(&str) -> Option<Double>>(
    ar: Arithmetic<F>,
    parse: P,
    bbox: Option<Seq<char>>,
    data: &PointSet<2>,
    nx: usize,
    ny: usize,
    res: Option<Double>,
    r: Result<Grid2D, Refusal>,
) -> bool {
    exists|b: Result<([Double; 2], [Double; 2]), Refusal>| #[trigger]
        corners(parse, bbox, data, b) && match b {
            Err(e) => r == Err::<Grid2D, Refusal>(e),
            Ok(c) => grid_made(ar, c.0@, c.1@, nx, ny, res, r),
        }
}

/// With a resolution, the cells that the box takes can be counted.
pub open spec fn resolvable<F: Fn(Op, Double, Double) -> Double, P: Fn(&str) -> Option<Double>>(
    ar: Arithmetic<F>,
    parse: P,
    bbox: Option<Seq<char>>,
    data: &PointSet<2>,
    res: Option<Double>,
) -> bool {
    forall|b: Result<([Double; 2], [Double; 2]), Refusal>| #[trigger]
        corners(parse, bbox, data, b) && b is Ok && res is Some ==> countable(
            ar,
            (b->Ok_0).0@[0],
            (b->Ok_0).1@[0],
            res->0,
        ) && countable(ar, (b->Ok_0).0@[1], (b->Ok_0).1@[1], res->0)
}

/// The given text, by its characters.
pub open spec fn text_view(s: Option<&str>) -> Option<Seq<char>> {
    match s {
        Some(t) => Some(t@),
        None => None,
    }
}

/// Builds the grid that is asked for: over a given box or that of the data, with
/// cells of a given side or a given number of cells.
pub fn build_grid<F: Fn(Op, Double, Double) -> Double, P: Fn(&str) -> Option<Double>>(
    bbox: Option<&str>,
    data: &PointSet<2>,
    nx: usize,
    ny: usize,
    res: Option<Double>,
    parse: &P,
    ar: &Arithmetic<F>,
) -> (r: Result<Grid2D, Refusal>)
    requires
        parses(*parse),
        ar.total(),
        data.well_formed(),
        data.places().len() > 0,
        nx < 2 * HIDDEN,
        ny < 2 * HIDDEN,
        resolvable(*ar, *parse, text_view(bbox), data, res),
    ensures
        grid_built(*ar, *parse, text_view(bbox), data, nx, ny, res, r),
{
    let b: Result<([Double; 2], [Double; 2]), Refusal> = match bbox {
        Some(s) => parse_bbox(s, parse),
        None => Ok(data.bbox()),
    };
    assert(corners(*parse, text_view(bbox), data, b));
    let (min, max): ([Double; 2], [Double; 2]) = match b {
        Err(e) => {
            return Err(e);
        },
        Ok(c) => c,
    };
    let made: Result<Grid2D, GeostatError> = match res {
        Some(side) => Grid2D::with_resolution(min, max, side, ar),
        None => Grid2D::from_bbox(min, max, nx, ny, ar),
    };
    match made {
        Err(e) => Err(Refusal::Core(e)),
        Ok(g) => Ok(g),
    }
}

/// Kriging method that is asked for.
#[derive(Debug, Clone, Copy, PartialEq, Eq, Structural)]
pub enum MethodChoice {
    /// Ordinary kriging.
    Ordinary,
    /// Simple kriging.
    Simple,
    /// Universal kriging.
    Universal,
}

/// The method that a choice stands for; without a known mean, simple kriging takes
/// that of the data.
pub open spec fn method_of<const D: usize, F: Fn(Op, Double, Double) -> Double>(
    ar: Arithmetic<F>,
    choice: MethodChoice,
    degree: u8,
    mean: Option<Double>,
    data: &PointSet<D>,
) -> KrigingMethod {
    match choice {
        MethodChoice::Ordinary => KrigingMethod::Ordinary,
        MethodChoice::Simple => KrigingMethod::Simple {
            mean: match mean {
                Some(m) => m,
                None => ar.average_of(data.attributes()),
            },
        },
        MethodChoice::Universal => KrigingMethod::Universal { degree },
    }
}

/// The method that a choice stands for.
pub fn build_method<const D: usize, F: Fn(Op, Double, Double) -> Double>(
    choice: MethodChoice,
    degree: u8,
    mean: Option<Double>,
    data: &PointSet<D>,
    ar: &Arithmetic<F>,
) -> (m: KrigingMethod)
    requires
        ar.total(),
        data.well_formed(),
        data.places().len() < 2 * HIDDEN,
    ensures
        m == method_of(*ar, choice, degree, mean, data),
{
    match choice {
        MethodChoice::Ordinary => KrigingMethod::Ordinary,
        MethodChoice::Simple => match mean {
            Some(mean) => KrigingMethod::Simple { mean },
            None => KrigingMethod::Simple { mean: ar.mean(data.values()) },
        },
        MethodChoice::Universal => KrigingMethod::Universal { degree },
    }
}

/// `sorted` holds the values in ascending order.
pub open spec fn in_order(values: Seq<Double>, sorted: Seq<Double>) -> bool {
    exists|order: Seq<usize>| #[trigger]
        stable_order(total_keys(values), order) && sorted == arranged(values, order)
}

/// The value at a quantile: that of the rank that the quantile cuts off, the last
/// at most.
pub open spec fn quantile_of<F: Fn(Op, Double, Double) -> Double>(
    ar: Arithmetic<F>,
    sorted: Seq<Double>,
    q: Double,
) -> Double {
    let x = ar.times(q, Double::count(sorted.len()));
    let i = x.saturated(x.truncated());
    sorted[if i < 0 {
        0
    } else if i > sorted.len() - 1 {
        sorted.len() - 1
    } else {
        i
    }]
}

/// The quantile lies between zero and one.
pub open spec fn quantile_ok(q: Double) -> bool {
    num(0).le(q) && q.le(num(ONE))
}

/// What cutoffs at quantiles give.
pub open spec fn quantiles_cut<F: Fn(Op, Double, Double) -> Double>(
    ar: Arithmetic<F>,
    values: Seq<Double>,
    qs: Seq<Double>,
    r: Result<Vec<Double>, Refusal>,
) -> bool {
    match r {
        Err(e) => exists|i: int|
            0 <= i < qs.len() && !quantile_ok(#[trigger] qs[i]) && (forall|j: int|
                0 <= j < i ==> quantile_ok(#[trigger] qs[j])) && e.says_of(
                "quantile {} outside [0, 1]"@,
                qs[i],
            ),
        Ok(v) => (forall|i: int| 0 <= i < qs.len() ==> quantile_ok(#[trigger] qs[i]))
            && exists|sorted: Seq<Double>| #[trigger]
            in_order(values, sorted) && v@ == Seq::new(
                qs.len(),
                |i: int| quantile_of(ar, sorted, qs[i]),
            ),
    }
}

/// What the cutoff options give: explicit cutoffs, otherwise data quantiles.
pub open spec fn cutoffs_chosen<F: Fn(Op, Double, Double) -> Double, P: Fn(&str) -> Option<Double>>(
    ar: Arithmetic<F>,
    parse: P,
    cutoffs: Option<Seq<char>>,
    quantiles: Seq<char>,
    values: Seq<Double>,
    r: Result<Vec<Double>, Refusal>,
) -> bool {
    match cutoffs {
        Some(spec) => match numbers_in(parse, spec) {
            Ok(v) => r matches Ok(w) && w@ == v,
            Err(e) => r matches Err(f) && f.says(e),
        },
        None => match numbers_in(parse, quantiles) {
            Err(e) => r matches Err(f) && f.says(e),
            Ok(qs) => quantiles_cut(ar, values, qs, r),
        },
    }
}

fn sort_values(values: &Vec<Double>) -> (sorted: Vec<Double>)
    ensures
        in_order(values@, sorted@),
        sorted@.len() == values@.len(),
{
    let mut keys: Vec<i64> = Vec::new();
    for i in 0..values.len()
        invariant
            keys@ =~= total_keys(values@).take(i as int),
    {
        keys.push(values[i].total_key());
    }
    assert(keys@ =~= total_keys(values@));
    let order: Vec<usize> = sort_positions(keys.as_slice());
    let mut sorted: Vec<Double> = Vec::new();
    for i in 0..order.len()
        invariant
            stable_order(total_keys(values@), order@),
            order@.len() == values@.len(),
            sorted@ =~= arranged(values@, order@).take(i as int),
    {
        assert(0 <= order@[i as int] < values@.len());
        sorted.push(values[order[i]]);
    }
    assert(sorted@ =~= arranged(values@, order@));
    sorted
}

/// Cutoffs at data quantiles.
pub fn cut_at_quantiles<F: Fn(Op, Double, Double) -> Double>(
    values: &Vec<Double>,
    qs: &Vec<Double>,
    ar: &Arithmetic<F>,
) -> (r: Result<
    Vec<Double>,
    Refusal,
>)
    requires
        ar.total(),
        0 < values@.len() < 2 * HIDDEN,
    ensures
        quantiles_cut(*ar, values@, qs@, r),
{
    let sorted: Vec<Double> = sort_values(values);
    let n: usize = sorted.len();
    let mut out: Vec<Double> = Vec::new();
    for i in 0..qs.len()
        invariant
            ar.total(),
            n == sorted@.len(),
            0 < n < 2 * HIDDEN,
            forall|j: int| 0 <= j < i ==> quantile_ok(#[trigger] qs@[j]),
            out@ =~= Seq::new(qs@.len(), |k: int| quantile_of(*ar, sorted@, qs@[k])).take(i as int),
    {
        let q: Double = qs[i];
        if !num(0).le(q) || !q.le(num(ONE)) {
            assert(!quantile_ok(qs@[i as int]));
            return Err(
                Refusal::Request("quantile {} outside [0, 1]".to_owned(), Some(q)),
            );
        }
        let k: i64 = ar.times(q, Double::from_count(n)).trunc();
        let at: usize = if k < 0 {
            0
        } else if k as u64 > (n - 1) as u64 {
            n - 1
        } else {
            k as usize
        };
        out.push(sorted[at]);
    }
    assert(out@ =~= Seq::new(qs@.len(), |k: int| quantile_of(*ar, sorted@, qs@[k])));
    Ok(out)
}

/// Cutoffs that are asked for: explicit ones, otherwise those at data quantiles.
pub fn choose_cutoffs<F: Fn(Op, Double, Double) -> Double, P: Fn(&str) -> Option<Double>>(
    cutoffs: Option<&str>,
    quantiles: &str,
    values: &Vec<Double>,
    parse: &P,
    ar: &Arithmetic<F>,
) -> (r: Result<Vec<Double>, Refusal>)
    requires
        parses(*parse),
        ar.total(),
        0 < values@.len() < 2 * HIDDEN,
    ensures
        cutoffs_chosen(*ar, *parse, text_view(cutoffs), quantiles@, values@, r),
{
    match cutoffs {
        Some(spec) => parse_floats(spec, parse),
        None => match parse_floats(quantiles, parse) {
            Err(e) => Err(e),
            Ok(qs) => cut_at_quantiles(values, &qs, ar),
        },
    }
}

/// `parse` reads every text as a count in one way.
pub open spec fn counts<C: Fn(&str) -> Option<usize>>(parse: C) -> bool {
    &&& forall|s: &str| #[trigger] call_requires(parse, (s,))
    &&& forall|s: &str, u: &str, a: Option<usize>, b: Option<usize>| #[trigger]
        call_ensures(parse, (s,), a) && #[trigger] call_ensures(parse, (u,), b) && s@ == u@ ==> a
            == b
}

/// `parse` reads the text as this count.
pub open spec fn counts_as<C: Fn(&str) -> Option<usize>>(
    parse: C,
    text: Seq<char>,
    n: Option<usize>,
) -> bool {
    exists|s: &str| s@ == text && #[trigger] call_ensures(parse, (s,), n)
}

/// Name `i` is no count.
pub open spec fn lacks_count<C: Fn(&str) -> Option<usize>>(
    parse: C,
    names: Seq<Seq<char>>,
    i: int,
) -> bool {
    0 <= i < names.len() && counts_as(parse, names[i], None)
}

/// Some name is no count.
pub open spec fn some_no_count<C: Fn(&str) -> Option<usize>>(parse: C, names: Seq<Seq<char>>) -> bool {
    exists|i: int| lacks_count(parse, names, i)
}

/// What a list of counts gives: those that are listed, otherwise the usual ones.
pub open spec fn counts_read<C: Fn(&str) -> Option<usize>>(
    parse: C,
    spec: Option<Seq<char>>,
    usual: Seq<usize>,
    r: Result<Vec<usize>, Refusal>,
) -> bool {
    match spec {
        None => r matches Ok(v) && v@ == usual,
        Some(s) => match r {
            Ok(v) => v@.len() == listed_names(s).len() && forall|i: int|
                0 <= i < v@.len() ==> counts_as(parse, listed_names(s)[i], Some(#[trigger] v@[i])),
            Err(e) => e.says("invalid integer in --grid"@) && some_no_count(
                parse,
                listed_names(s),
            ),
        },
    }
}

/// Counts to try: those that are listed, otherwise the usual ones.
pub fn parse_counts<C: Fn(&str) -> Option<usize>>(
    spec: Option<&str>,
    usual: Vec<usize>,
    parse: &C,
) -> (r: Result<Vec<usize>, Refusal>)
    requires
        counts(*parse),
    ensures
        counts_read(*parse, text_view(spec), usual@, r),
{
    let s: &str = match spec {
        None => {
            return Ok(usual);
        },
        Some(s) => s,
    };
    let names: Vec<String> = split_names(s);
    let ghost all = listed_names(s@);
    let mut out: Vec<usize> = Vec::new();
    for i in 0..names.len()
        invariant
            counts(*parse),
            spec == Some(s),
            all == listed_names(s@),
            texts_of(names@) == all,
            out@.len() == i,
            forall|k: int| 0 <= k < i ==> counts_as(*parse, all[k], Some(#[trigger] out@[k])),
    {
        assert(all[i as int] == names@[i as int]@);
        let text: &str = names[i].as_str();
        let n: Option<usize> = parse(text);
        assert(counts_as(*parse, all[i as int], n));
        match n {
            Some(n) => {
                out.push(n);
            },
            None => {
                assert(text_view(spec) == Some(s@));
                assert(lacks_count(*parse, listed_names(s@), i as int));
                assert(some_no_count(*parse, listed_names(s@)));
                return Err(refuse("invalid integer in --grid"));
            },
        }
    }
    Ok(out)
}

} // verus!
