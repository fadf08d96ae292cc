//! Tables of numbers in CSV: named columns are looked up in the header, and rows
//! in which one of them has no number are left out.

use vstd::prelude::*;
use vstd::string::StringExecFns;

use crate::double::Double;
use crate::error::GeostatError;
use crate::tails::reads;
use crate::text::{
    chars_of, concat2, concat4, decimal_sum, digits, is_text, list, listed, lowered, same_ignoring_case,
    same_text, string_of, texts_of, to_lower, trim, trimmed,
};

verus! {

/// What a CSV reader finds in the first row: its fields, or the text of the error.
pub uninterp spec fn header_of(bytes: Seq<u8>) -> Result<Seq<Seq<char>>, Seq<char>>;

/// What a CSV reader finds in the rows after the first: the fields of each, or the
/// text of the error.
pub uninterp spec fn records_of(bytes: Seq<u8>) -> Seq<Result<Seq<Seq<char>>, Seq<char>>>;

/// A row of fields, or the text of an error, by their characters.
pub open spec fn row_view(row: Result<Vec<String>, String>) -> Result<Seq<Seq<char>>, Seq<char>> {
    match row {
        Ok(fields) => Ok(texts_of(fields@)),
        Err(e) => Err(e@),
    }
}

/// Rows by their characters.
pub open spec fn rows_view(rows: Seq<Result<Vec<String>, String>>) -> Seq<
    Result<Seq<Seq<char>>, Seq<char>>,
> {
    Seq::new(rows.len(), |i: int| row_view(rows[i]))
}

/// `csv::Reader::headers` of a reader over the bytes: the fields of the first row.
/// What they are is a matter of the CSV format alone.
#[verifier::external_body]
fn csv_header(bytes: &[u8]) -> (r: Result<Vec<String>, String>)
    ensures
        row_view(r) == header_of(bytes@),
{
    match csv::Reader::from_reader(bytes).headers() {
        Ok(fields) => Ok(fields.iter().map(str::to_owned).collect()),
        Err(e) => Err(e.to_string()),
    }
}

/// `csv::Reader::records` of a reader over the bytes: the rows after the first.
/// What they are is a matter of the CSV format alone.
#[verifier::external_body]
fn csv_records(bytes: &[u8]) -> (r: Vec<Result<Vec<String>, String>>)
    ensures
        rows_view(r@) == records_of(bytes@),
{
    let mut reader = csv::Reader::from_reader(bytes);
    let mut rows = Vec::new();
    for row in reader.records() {
        rows.push(
            match row {
                Ok(fields) => Ok(fields.iter().map(str::to_owned).collect()),
                Err(e) => Err(e.to_string()),
            },
        );
    }
    rows
}

/// `parse` reads every text in one way.
pub open spec fn parses<P: Fn(&str) -> Option<Double>>(parse: P) -> bool {
    &&& forall|s: &str| #[trigger] call_requires(parse, (s,))
    &&& forall|s: &str, u: &str, a: Option<Double>, b: Option<Double>| #[trigger]
        call_ensures(parse, (s,), a) && #[trigger] call_ensures(parse, (u,), b) && s@ == u@ ==> a
            == b
}

/// How `parse` reads the text.
pub open spec fn parsed<P: Fn(&str) -> Option<Double>>(parse: P, text: Seq<char>) -> Option<
    Double,
> {
    choose|v: Option<Double>| reads(parse, text, v)
}

pub(crate) fn parse_text<P: Fn(&str) -> Option<Double>>(text: &str, parse: &P) -> (v: Option<Double>)
    requires
        parses(*parse),
    ensures
        v == parsed(*parse, text@),
{
    let v: Option<Double> = parse(text);
    proof {
        assert(reads(*parse, text@, v));
        let w = parsed(*parse, text@);
        assert(reads(*parse, text@, w));
        let s = choose|s: &str| s@ == text@ && #[trigger] call_ensures(parse, (s,), w);
        assert(call_ensures(parse, (text,), v) && call_ensures(parse, (s,), w));
    }
    v
}

/// Number in field `i` of a row: none where there is no such field, or where it is
/// blank, `na`, `nan` or no number.
pub open spec fn field_value<P: Fn(&str) -> Option<Double>>(
    parse: P,
    record: Seq<Seq<char>>,
    i: int,
) -> Option<Double> {
    let t = trimmed(record[i]);
    if i >= record.len() || t.len() == 0 || same_ignoring_case(t, "na"@) || same_ignoring_case(
        t,
        "nan"@,
    ) {
        None
    } else {
        parsed(parse, t)
    }
}

/// Number in field `i` of a row.
pub fn parse_field<P: Fn(&str) -> Option<Double>>(
    record: &Vec<String>,
    i: usize,
    parse: &P,
) -> (v: Option<Double>)
    requires
        parses(*parse),
    ensures
        v == field_value(*parse, texts_of(record@), i as int),
{
    if i >= record.len() {
        return None;
    }
    let t: Vec<char> = trim(&chars_of(record[i].as_str()));
    let low: Vec<char> = to_lower(&t);
    proof {
        assert(texts_of(record@)[i as int] == record@[i as int]@);
        reveal_strlit("na");
        reveal_strlit("nan");
        assert(lowered("na"@) =~= "na"@);
        assert(lowered("nan"@) =~= "nan"@);
    }
    if t.len() == 0 || is_text(&low, "na") || is_text(&low, "nan") {
        return None;
    }
    parse_text(string_of(&t).as_str(), parse)
}

/// First position of a name.
pub open spec fn position(names: Seq<Seq<char>>, name: Seq<char>) -> Option<usize>
    decreases names.len(),
{
    if names.len() == 0 {
        None
    } else {
        match position(names.drop_last(), name) {
            Some(i) => Some(i),
            None => if names.last() == name {
                Some((names.len() - 1) as usize)
            } else {
                None
            },
        }
    }
}

/// A first position holds the name, and none before it does; without one, no
/// position holds the name.
pub proof fn position_is_first(names: Seq<Seq<char>>, name: Seq<char>)
    requires
        names.len() <= usize::MAX,
    ensures
        match position(names, name) {
            Some(i) => i < names.len() && names[i as int] == name && forall|j: int|
                0 <= j < i ==> #[trigger] names[j] != name,
            None => forall|j: int| 0 <= j < names.len() ==> #[trigger] names[j] != name,
        },
    decreases names.len(),
{
    if names.len() > 0 {
        let before = names.drop_last();
        position_is_first(before, name);
        assert forall|j: int| 0 <= j < before.len() implies #[trigger] names[j] == before[j] by {}
    }
}

/// Text about a column that is not there.
pub open spec fn missing_text(name: Seq<char>, header: Seq<Seq<char>>) -> Seq<char> {
    "column '"@ + name + "' not found; available columns: "@ + listed(header)
}

/// Positions of the columns, or the text about the first that is not there.
pub open spec fn columns(header: Seq<Seq<char>>, names: Seq<Seq<char>>) -> Result<
    Seq<usize>,
    Seq<char>,
>
    decreases names.len(),
{
    if names.len() == 0 {
        Ok(Seq::empty())
    } else {
        match columns(header, names.drop_last()) {
            Err(e) => Err(e),
            Ok(found) => match position(header, names.last()) {
                Some(i) => Ok(found.push(i)),
                None => Err(missing_text(names.last(), header)),
            },
        }
    }
}

fn find_position(names: &Vec<String>, name: &str) -> (r: Option<usize>)
    ensures
        r == position(texts_of(names@), name@),
{
    let ghost all = texts_of(names@);
    for i in 0..names.len()
        invariant
            all == texts_of(names@),
            position(all.take(i as int), name@) is None,
    {
        assert(all.take(i + 1).drop_last() =~= all.take(i as int));
        assert(all.take(i + 1).last() == names@[i as int]@);
        if same_text(names[i].as_str(), name) {
            proof {
                assert(position(all.take(i + 1), name@) == Some(i));
                lemma_position_stays(all, i + 1, name@);
            }
            return Some(i);
        }
    }
    assert(all.take(names.len() as int) =~= all);
    None
}

/// A position found among the first names is the position among all.
proof fn lemma_position_stays(names: Seq<Seq<char>>, n: int, name: Seq<char>)
    requires
        0 <= n <= names.len(),
        position(names.take(n), name) is Some,
    ensures
        position(names, name) == position(names.take(n), name),
    decreases names.len() - n,
{
    if n == names.len() {
        assert(names.take(n) =~= names);
    } else {
        assert(names.take(n + 1).drop_last() =~= names.take(n));
        lemma_position_stays(names, n + 1, name);
    }
}

/// Positions of the columns with these names.
pub fn column_indices(header: &Vec<String>, names: &Vec<String>) -> (r: Result<Vec<usize>, String>)
    ensures
        match r {
            Ok(v) => columns(texts_of(header@), texts_of(names@)) == Ok::<Seq<usize>, Seq<char>>(
                v@,
            ),
            Err(e) => columns(texts_of(header@), texts_of(names@)) == Err::<
                Seq<usize>,
                Seq<char>,
            >(e@),
        },
{
    let ghost all = texts_of(names@);
    let mut found: Vec<usize> = Vec::new();
    for i in 0..names.len()
        invariant
            all == texts_of(names@),
            columns(texts_of(header@), all.take(i as int)) == Ok::<Seq<usize>, Seq<char>>(found@),
    {
        assert(all.take(i + 1).drop_last() =~= all.take(i as int));
        assert(all.take(i + 1).last() == names@[i as int]@);
        match find_position(header, names[i].as_str()) {
            Some(p) => {
                found.push(p);
            },
            None => {
                proof {
                    lemma_columns_fail(texts_of(header@), all, i + 1);
                }
                return Err(
                    concat4(
                        "column '",
                        names[i].as_str(),
                        "' not found; available columns: ",
                        list(header).as_str(),
                    ),
                );
            },
        }
    }
    assert(all.take(names.len() as int) =~= all);
    Ok(found)
}

/// A column missed among the first names is the one missed among all.
proof fn lemma_columns_fail(header: Seq<Seq<char>>, names: Seq<Seq<char>>, n: int)
    requires
        0 <= n <= names.len(),
        columns(header, names.take(n)) is Err,
    ensures
        columns(header, names) == columns(header, names.take(n)),
    decreases names.len() - n,
{
    if n == names.len() {
        assert(names.take(n) =~= names);
    } else {
        assert(names.take(n + 1).drop_last() =~= names.take(n));
        lemma_columns_fail(header, names, n + 1);
    }
}

/// Numbers in the chosen fields of a row; nothing where one is missing.
pub open spec fn row_values<P: Fn(&str) -> Option<Double>>(
    parse: P,
    record: Seq<Seq<char>>,
    idx: Seq<usize>,
) -> Option<Seq<Double>>
    decreases idx.len(),
{
    if idx.len() == 0 {
        Some(Seq::empty())
    } else {
        match (
            row_values(parse, record, idx.drop_last()),
            field_value(parse, record, idx.last() as int),
        ) {
            (Some(before), Some(v)) => Some(before.push(v)),
            _ => None,
        }
    }
}

/// Rows that were read, and how many were left out.
pub struct Gathered {
    /// Numbers of each row.
    pub rows: Seq<Seq<Double>>,
    /// Number of rows left out.
    pub skipped: nat,
}

/// The rows in which no chosen field lacks a number, or position and text of the
/// first row that is no row.
pub open spec fn gathered<P: Fn(&str) -> Option<Double>>(
    parse: P,
    records: Seq<Result<Seq<Seq<char>>, Seq<char>>>,
    idx: Seq<usize>,
) -> Result<Gathered, (nat, Seq<char>)>
    decreases records.len(),
{
    if records.len() == 0 {
        Ok(Gathered { rows: Seq::empty(), skipped: 0 })
    } else {
        match gathered(parse, records.drop_last(), idx) {
            Err(e) => Err(e),
            Ok(g) => match records.last() {
                Err(e) => Err(((records.len() - 1) as nat, e)),
                Ok(record) => match row_values(parse, record, idx) {
                    Some(row) => Ok(Gathered { rows: g.rows.push(row), skipped: g.skipped }),
                    None => Ok(Gathered { rows: g.rows, skipped: g.skipped + 1 }),
                },
            },
        }
    }
}

/// Numbers read from a table.
#[derive(Debug)]
pub struct Table {
    /// Numbers of each row, in the order of the columns asked for.
    pub rows: Vec<Vec<Double>>,
    /// Number of rows left out.
    pub skipped: usize,
}

/// Why a table cannot be read.
#[derive(Debug)]
pub enum TableError {
    /// What is wrong, and what lies behind it.
    Table(String, Option<String>),
    /// The numbers are refused as data.
    Data(GeostatError),
}

impl TableError {
    /// The error says this.
    pub open spec fn says(self, text: Seq<char>, cause: Option<Seq<char>>) -> bool {
        self matches TableError::Table(t, c) && t@ == text && match (c, cause) {
            (Some(a), Some(b)) => a@ == b,
            (None, None) => true,
            _ => false,
        }
    }
}

/// Rows by their numbers.
pub open spec fn numbers(rows: Seq<Vec<Double>>) -> Seq<Seq<Double>> {
    Seq::new(rows.len(), |i: int| rows[i]@)
}

/// What reading the named columns gives.
pub open spec fn table_read<P: Fn(&str) -> Option<Double>>(
    parse: P,
    header: Result<Seq<Seq<char>>, Seq<char>>,
    records: Seq<Result<Seq<Seq<char>>, Seq<char>>>,
    names: Seq<Seq<char>>,
    r: Result<Table, TableError>,
) -> bool {
    match header {
        Err(e) => r matches Err(f) && f.says("cannot read CSV header"@, Some(e)),
        Ok(h) => match columns(h, names) {
            Err(e) => r matches Err(f) && f.says(e, None),
            Ok(idx) => match gathered(parse, records, idx) {
                Err((row, e)) => r matches Err(f) && f.says(
                    "cannot parse CSV row "@ + digits(row + 2),
                    Some(e),
                ),
                Ok(g) => r matches Ok(t) && numbers(t.rows@) == g.rows && t.skipped == g.skipped,
            },
        },
    }
}

fn find_row<P: Fn(&str) -> Option<Double>>(
    record: &Vec<String>,
    idx: &Vec<usize>,
    parse: &P,
) -> (r: Option<Vec<Double>>)
    requires
        parses(*parse),
    ensures
        match r {
            Some(v) => row_values(*parse, texts_of(record@), idx@) == Some(v@),
            None => row_values(*parse, texts_of(record@), idx@) is None,
        },
{
    let mut row: Vec<Double> = Vec::new();
    for i in 0..idx.len()
        invariant
            parses(*parse),
            row_values(*parse, texts_of(record@), idx@.take(i as int)) == Some(row@),
    {
        assert(idx@.take(i + 1).drop_last() =~= idx@.take(i as int));
        match parse_field(record, idx[i], parse) {
            Some(v) => {
                row.push(v);
            },
            None => {
                proof {
                    lemma_row_lacks(*parse, texts_of(record@), idx@, i + 1);
                }
                return None;
            },
        }
    }
    assert(idx@.take(idx.len() as int) =~= idx@);
    Some(row)
}

/// A row that lacks one of the first chosen numbers lacks a chosen number.
proof fn lemma_row_lacks<P: Fn(&str) -> Option<Double>>(
    parse: P,
    record: Seq<Seq<char>>,
    idx: Seq<usize>,
    n: int,
)
    requires
        0 <= n <= idx.len(),
        row_values(parse, record, idx.take(n)) is None,
    ensures
        row_values(parse, record, idx) is None,
    decreases idx.len() - n,
{
    if n == idx.len() {
        assert(idx.take(n) =~= idx);
    } else {
        assert(idx.take(n + 1).drop_last() =~= idx.take(n));
        lemma_row_lacks(parse, record, idx, n + 1);
    }
}

/// A row that is no row, among the first ones, is the first among all.
proof fn lemma_gathering_fails<P: Fn(&str) -> Option<Double>>(
    parse: P,
    records: Seq<Result<Seq<Seq<char>>, Seq<char>>>,
    idx: Seq<usize>,
    n: int,
)
    requires
        0 <= n <= records.len(),
        gathered(parse, records.take(n), idx) is Err,
    ensures
        gathered(parse, records, idx) == gathered(parse, records.take(n), idx),
    decreases records.len() - n,
{
    if n == records.len() {
        assert(records.take(n) =~= records);
    } else {
        assert(records.take(n + 1).drop_last() =~= records.take(n));
        lemma_gathering_fails(parse, records, idx, n + 1);
    }
}

fn copy_text(s: &String) -> (r: String)
    ensures
        r@ == s@,
{
    s.as_str().to_owned()
}

/// Reads the named columns of a table that was split into fields.
pub fn select_columns<P: Fn(&str) -> Option<Double>>(
    header: &Result<Vec<String>, String>,
    records: &Vec<Result<Vec<String>, String>>,
    names: &Vec<String>,
    parse: &P,
) -> (r: Result<Table, TableError>)
    requires
        parses(*parse),
    ensures
        table_read(*parse, row_view(*header), rows_view(records@), texts_of(names@), r),
{
    let fields: &Vec<String> = match header {
        Err(e) => {
            return Err(
                TableError::Table("cannot read CSV header".to_owned(), Some(copy_text(e))),
            );
        },
        Ok(fields) => fields,
    };
    let idx: Vec<usize> = match column_indices(fields, names) {
        Err(e) => {
            return Err(TableError::Table(e, None));
        },
        Ok(idx) => idx,
    };
    let ghost all = rows_view(records@);
    let mut rows: Vec<Vec<Double>> = Vec::new();
    let mut skipped: usize = 0;
    assert(numbers(rows@) =~= Seq::<Seq<Double>>::empty());
    for i in 0..records.len()
        invariant
            parses(*parse),
                all == rows_view(records@),
            row_view(*header) == Ok::<Seq<Seq<char>>, Seq<char>>(texts_of(fields@)),
            columns(texts_of(fields@), texts_of(names@)) == Ok::<Seq<usize>, Seq<char>>(idx@),
            skipped <= i,
            gathered(*parse, all.take(i as int), idx@) == Ok::<Gathered, (nat, Seq<char>)>(
                Gathered { rows: numbers(rows@), skipped: skipped as nat },
            ),
    {
        proof {
            assert(all.take(i + 1).drop_last() =~= all.take(i as int));
            assert(all.take(i + 1).last() == row_view(records@[i as int]));
            assert(all.take(i + 1).len() == i + 1);
        }
        let ghost before = rows@;
        match &records[i] {
            Err(e) => {
                proof {
                    lemma_gathering_fails(*parse, all, idx@, i + 1);
                }
                return Err(
                    TableError::Table(
                        concat2("cannot parse CSV row ", decimal_sum(i, 2).as_str()),
                        Some(copy_text(e)),
                    ),
                );
            },
            Ok(record) => match find_row(record, &idx, parse) {
                Some(row) => {
                    rows.push(row);
                    assert(numbers(rows@) =~= numbers(before).push(row@));
                },
                None => {
                    skipped = skipped + 1;
                },
            },
        }
    }
    assert(all.take(records.len() as int) =~= all);
    Ok(Table { rows, skipped })
}

/// Reads the named columns of a CSV table.
pub fn read_columns<P: Fn(&str) -> Option<Double>>(
    bytes: &[u8],
    names: &Vec<String>,
    parse: &P,
) -> (r: Result<Table, TableError>)
    requires
        parses(*parse),
    ensures
        table_read(*parse, header_of(bytes@), records_of(bytes@), texts_of(names@), r),
{
    let header: Result<Vec<String>, String> = csv_header(bytes);
    let records: Vec<Result<Vec<String>, String>> = csv_records(bytes);
    select_columns(&header, &records, names, parse)
}

} // verus!
