//! GeoPackage framing: geometry blobs, SQL text and layer choice. The database
//! itself is the caller's.

use vstd::prelude::*;
use vstd::string::{StrSliceExecFns, StringExecFns};

use crate::data::PointSet;
use crate::double::{Double, INFINITE};
use crate::error::GeostatError;
use crate::text::{
    concat2, concat3, concat4, concat5, contains_text, decimal, digits, list, listed, occurs,
    push_char, same_text, signed_decimal, signed_digits,
};

verus! {

/// Summary of a vector feature layer in a GeoPackage.
#[derive(Debug)]
pub struct LayerInfo {
    /// Feature-table (layer) name.
    pub name: String,
    /// Name of the geometry column.
    pub geometry_column: String,
    /// Declared geometry type (e.g. `POINT`).
    pub geometry_type: String,
    /// Spatial reference system id (as recorded in `gpkg_contents`).
    pub srs_id: i64,
    /// Number of features in the layer.
    pub n_features: i64,
}

/// `s` with every double quote doubled.
pub open spec fn doubled_quotes(s: Seq<char>) -> Seq<char>
    decreases s.len(),
{
    if s.len() == 0 {
        s
    } else {
        doubled_quotes(s.drop_last()) + (if s.last() == '"' {
            seq!['"', '"']
        } else {
            seq![s.last()]
        })
    }
}

/// A quoted SQL identifier.
pub open spec fn quoted(s: Seq<char>) -> Seq<char> {
    seq!['"'] + doubled_quotes(s) + seq!['"']
}

/// Quotes a SQL identifier (table/column) by doubling embedded double quotes.
pub fn quote_ident(ident: &str) -> (s: String)
    ensures
        s@ == quoted(ident@),
{
    let mut s: String = String::new();
    push_char(&mut s, '"');
    let n: usize = ident.unicode_len();
    for i in 0..n
        invariant
            n == ident@.len(),
            s@ == seq!['"'] + doubled_quotes(ident@.take(i as int)),
    {
        let c: char = ident.get_char(i);
        if c == '"' {
            push_char(&mut s, '"');
        }
        push_char(&mut s, c);
        proof {
            assert(ident@.take(i + 1).drop_last() =~= ident@.take(i as int));
            assert(s@ =~= seq!['"'] + doubled_quotes(ident@.take(i + 1)));
        }
    }
    push_char(&mut s, '"');
    assert(ident@.take(n as int) =~= ident@);
    assert(s@ =~= quoted(ident@));
    s
}

/// Byte order of a number: little-endian bytes as they are, big-endian bytes
/// reversed.
pub open spec fn in_order(b: Seq<u8>, le: bool) -> Seq<u8> {
    if le {
        b
    } else {
        b.reverse()
    }
}

/// The number that four little-endian bytes make.
pub open spec fn number32(a: u8, b: u8, c: u8, d: u8) -> u32 {
    (a as u32) | (b as u32) << 8 | (c as u32) << 16 | (d as u32) << 24
}

/// The number that four bytes make.
pub open spec fn u32_of(b: Seq<u8>, le: bool) -> u32 {
    let o = in_order(b, le);
    number32(o[0], o[1], o[2], o[3])
}

/// The number that eight little-endian bytes make.
pub open spec fn number64(a: u8, b: u8, c: u8, d: u8, e: u8, f: u8, g: u8, h: u8) -> u64 {
    (a as u64) | (b as u64) << 8 | (c as u64) << 16 | (d as u64) << 24 | (e as u64) << 32 | (
    f as u64) << 40 | (g as u64) << 48 | (h as u64) << 56
}

/// The bit pattern that eight bytes make.
pub open spec fn u64_of(b: Seq<u8>, le: bool) -> u64 {
    let o = in_order(b, le);
    number64(o[0], o[1], o[2], o[3], o[4], o[5], o[6], o[7])
}

/// Reads a number of four bytes.
pub fn rd_u32(b: &[u8], le: bool) -> (n: u32)
    requires
        b@.len() >= 4,
    ensures
        n == u32_of(b@.take(4), le),
{
    let ghost four = b@.take(4);
    if le {
        (b[0] as u32) | (b[1] as u32) << 8 | (b[2] as u32) << 16 | (b[3] as u32) << 24
    } else {
        (b[3] as u32) | (b[2] as u32) << 8 | (b[1] as u32) << 16 | (b[0] as u32) << 24
    }
}

/// Reads a double of eight bytes.
pub fn rd_f64(b: &[u8], le: bool) -> (d: Double)
    requires
        b@.len() >= 8,
    ensures
        d == (Double { bits: u64_of(b@.take(8), le) }),
{
    let ghost eight = b@.take(8);
    let bits: u64 = if le {
        (b[0] as u64) | (b[1] as u64) << 8 | (b[2] as u64) << 16 | (b[3] as u64) << 24 | (
        b[4] as u64) << 32 | (b[5] as u64) << 40 | (b[6] as u64) << 48 | (b[7] as u64) << 56
    } else {
        (b[7] as u64) | (b[6] as u64) << 8 | (b[5] as u64) << 16 | (b[4] as u64) << 24 | (
        b[3] as u64) << 32 | (b[2] as u64) << 40 | (b[1] as u64) << 48 | (b[0] as u64) << 56
    };
    Double { bits }
}

/// The four bytes of a number, little end first.
pub open spec fn le_bytes32(n: u32) -> Seq<u8> {
    seq![n as u8, (n >> 8) as u8, (n >> 16) as u8, (n >> 24) as u8]
}

/// The eight bytes of a bit pattern, little end first.
pub open spec fn le_bytes64(n: u64) -> Seq<u8> {
    seq![
        n as u8,
        (n >> 8) as u8,
        (n >> 16) as u8,
        (n >> 24) as u8,
        (n >> 32) as u8,
        (n >> 40) as u8,
        (n >> 48) as u8,
        (n >> 56) as u8,
    ]
}

/// Reading the bytes of a number gives the number back.
pub proof fn bytes_of_u32_read_back(n: u32)
    ensures
        u32_of(le_bytes32(n), true) == n,
{
    assert((((n as u8) as u32) | (((n >> 8) as u8) as u32) << 8 | (((n >> 16) as u8) as u32) << 16
        | (((n >> 24) as u8) as u32) << 24) == n) by (bit_vector);
}

/// Reading the bytes of a double gives the double back.
pub proof fn bytes_of_double_read_back(n: u64)
    ensures
        u64_of(le_bytes64(n), true) == n,
{
    assert((((n as u8) as u64) | (((n >> 8) as u8) as u64) << 8 | (((n >> 16) as u8) as u64) << 16
        | (((n >> 24) as u8) as u64) << 24 | (((n >> 32) as u8) as u64) << 32 | (((n >> 40) as u8)
        as u64) << 40 | (((n >> 48) as u8) as u64) << 48 | (((n >> 56) as u8) as u64) << 56) == n)
        by (bit_vector);
}

/// Bytes of a point: the header of a blob without an envelope, then well-known
/// binary, all of it little-endian.
pub open spec fn point_blob(x: Double, y: Double, srs_id: i32) -> Seq<u8> {
    seq![0x47u8, 0x50u8, 0u8, 1u8] + le_bytes32(srs_id as u32) + seq![1u8] + le_bytes32(1)
        + le_bytes64(x.bits) + le_bytes64(y.bits)
}

fn push_u32(b: &mut Vec<u8>, n: u32)
    ensures
        final(b)@ == old(b)@ + le_bytes32(n),
{
    b.push(#[verifier::truncate] (n as u8));
    b.push(#[verifier::truncate] ((n >> 8) as u8));
    b.push(#[verifier::truncate] ((n >> 16) as u8));
    b.push(#[verifier::truncate] ((n >> 24) as u8));
    assert(b@ =~= old(b)@ + le_bytes32(n));
}

fn push_double(b: &mut Vec<u8>, d: Double)
    ensures
        final(b)@ == old(b)@ + le_bytes64(d.bits),
{
    let n: u64 = d.bits;
    b.push(#[verifier::truncate] (n as u8));
    b.push(#[verifier::truncate] ((n >> 8) as u8));
    b.push(#[verifier::truncate] ((n >> 16) as u8));
    b.push(#[verifier::truncate] ((n >> 24) as u8));
    b.push(#[verifier::truncate] ((n >> 32) as u8));
    b.push(#[verifier::truncate] ((n >> 40) as u8));
    b.push(#[verifier::truncate] ((n >> 48) as u8));
    b.push(#[verifier::truncate] ((n >> 56) as u8));
    assert(b@ =~= old(b)@ + le_bytes64(n));
}

/// Encodes a point as a GeoPackage geometry blob: a little-endian header without
/// an envelope, followed by little-endian well-known binary.
pub fn encode_point(x: Double, y: Double, srs_id: i32) -> (b: Vec<u8>)
    ensures
        b@ == point_blob(x, y, srs_id),
{
    let mut b: Vec<u8> = Vec::new();
    b.push(0x47);
    b.push(0x50);
    b.push(0);
    b.push(1);
    assert(b@ =~= seq![0x47u8, 0x50u8, 0u8, 1u8]);
    push_u32(&mut b, #[verifier::truncate] (srs_id as u32));
    b.push(1);
    push_u32(&mut b, 1);
    push_double(&mut b, x);
    push_double(&mut b, y);
    assert(b@ =~= point_blob(x, y, srs_id));
    b
}

/// Code of the envelope in the flags of a header.
pub open spec fn envelope_code(flags: u8) -> u8 {
    (flags >> 1) & 7
}

/// Length of an envelope, by its code.
pub open spec fn envelope_length(code: u8) -> Option<nat> {
    if code == 0 {
        Some(0nat)
    } else if code == 1 {
        Some(32nat)
    } else if code == 2 || code == 3 {
        Some(48nat)
    } else if code == 4 {
        Some(64nat)
    } else {
        None
    }
}

/// Base type of a geometry, without its flags for further coordinates.
pub open spec fn base_type(n: u32) -> u32 {
    (n & 0x1FFF_FFFF) % 1000
}

/// What decoding a blob gives: the point, or the first thing that is wrong.
pub open spec fn decoded(blob: Seq<u8>, r: Result<(Double, Double), String>) -> bool {
    if blob.len() < 8 || blob[0] != 0x47 || blob[1] != 0x50 {
        r matches Err(e) && e@ == "not a GeoPackage geometry blob"@
    } else if (blob[3] >> 4) & 1 == 1 {
        r matches Err(e) && e@ == "empty geometry"@
    } else if envelope_length(envelope_code(blob[3])) is None {
        r matches Err(e) && e@ == "invalid GPB envelope code "@ + digits(
            envelope_code(blob[3]) as nat,
        )
    } else {
        let at = 8 + envelope_length(envelope_code(blob[3]))->0;
        if blob.len() < at {
            r matches Err(e) && e@ == "GPB blob truncated before WKB"@
        } else {
            let wkb = blob.skip(at as int);
            let le = wkb[0] == 1;
            if wkb.len() < 21 {
                r matches Err(e) && e@ == "WKB too short for a point"@
            } else if base_type(u32_of(wkb.subrange(1, 5), le)) != 1 {
                r matches Err(e) && e@ == "geometry is not a POINT (WKB base type "@ + digits(
                    base_type(u32_of(wkb.subrange(1, 5), le)) as nat,
                ) + ")"@
            } else {
                r matches Ok(p) && p.0 == (Double { bits: u64_of(wkb.subrange(5, 13), le) })
                    && p.1 == (Double { bits: u64_of(wkb.subrange(13, 21), le) })
            }
        }
    }
}

/// Bytes `lo` up to `hi`.
fn bytes(b: &[u8], lo: usize, hi: usize) -> (v: Vec<u8>)
    requires
        lo <= hi <= b@.len(),
    ensures
        v@ == b@.subrange(lo as int, hi as int),
{
    let mut v: Vec<u8> = Vec::new();
    for i in lo..hi
        invariant
            lo <= hi <= b@.len(),
            v@ =~= b@.subrange(lo as int, i as int),
    {
        v.push(b[i]);
    }
    v
}

/// Decodes the coordinates of a point from a GeoPackage geometry blob: a header
/// with an optional envelope, followed by well-known binary. Further coordinates
/// are skipped.
pub fn decode_point(blob: &[u8]) -> (r: Result<(Double, Double), String>)
    ensures
        decoded(blob@, r),
{
    if blob.len() < 8 || blob[0] != 0x47 || blob[1] != 0x50 {
        return Err("not a GeoPackage geometry blob".to_owned());
    }
    let flags: u8 = blob[3];
    if (flags >> 4) & 1 == 1 {
        return Err("empty geometry".to_owned());
    }
    let code: u8 = (flags >> 1) & 7;
    let envelope: usize = if code == 0 {
        0
    } else if code == 1 {
        32
    } else if code == 2 || code == 3 {
        48
    } else if code == 4 {
        64
    } else {
        return Err(concat2("invalid GPB envelope code ", decimal(code as usize).as_str()));
    };
    let at: usize = 8 + envelope;
    if blob.len() < at {
        return Err("GPB blob truncated before WKB".to_owned());
    }
    let ghost wkb = blob@.skip(at as int);
    if blob.len() - at < 21 {
        return Err("WKB too short for a point".to_owned());
    }
    let le: bool = blob[at] == 1;
    let kind: Vec<u8> = bytes(blob, at + 1, at + 5);
    assert(kind@ =~= wkb.subrange(1, 5));
    assert(kind@.take(4) =~= kind@);
    let base: u32 = (rd_u32(kind.as_slice(), le) & 0x1FFF_FFFF) % 1000;
    if base != 1 {
        return Err(
            concat3(
                "geometry is not a POINT (WKB base type ",
                decimal(base as usize).as_str(),
                ")",
            ),
        );
    }
    let xs: Vec<u8> = bytes(blob, at + 5, at + 13);
    let ys: Vec<u8> = bytes(blob, at + 13, at + 21);
    assert(xs@ =~= wkb.subrange(5, 13));
    assert(ys@ =~= wkb.subrange(13, 21));
    assert(xs@.take(8) =~= xs@);
    assert(ys@.take(8) =~= ys@);
    Ok((rd_f64(xs.as_slice(), le), rd_f64(ys.as_slice(), le)))
}

/// Decoding an encoded point gives the point back, bit for bit.
pub proof fn encoded_point_decodes(
    x: Double,
    y: Double,
    srs_id: i32,
    r: Result<(Double, Double), String>,
)
    requires
        decoded(point_blob(x, y, srs_id), r),
    ensures
        r == Ok::<(Double, Double), String>((x, y)),
{
    let b = point_blob(x, y, srs_id);
    assert(b.len() == 29);
    assert(b[0] == 0x47 && b[1] == 0x50 && b[3] == 1);
    assert((1u8 >> 4) & 1 == 0) by (bit_vector);
    assert((1u8 >> 1) & 7 == 0) by (bit_vector);
    let wkb = b.skip(8);
    assert(wkb[0] == 1);
    assert(wkb.subrange(1, 5) =~= le_bytes32(1));
    assert(wkb.subrange(5, 13) =~= le_bytes64(x.bits));
    assert(wkb.subrange(13, 21) =~= le_bytes64(y.bits));
    bytes_of_u32_read_back(1);
    bytes_of_double_read_back(x.bits);
    bytes_of_double_read_back(y.bits);
    assert((1u32 & 0x1FFF_FFFF) % 1000 == 1) by (bit_vector);
}

/// Name `i` is the first that equals `name`.
pub open spec fn first_named(names: Seq<Seq<char>>, name: Seq<char>, i: int) -> bool {
    &&& 0 <= i < names.len()
    &&& names[i] == name
    &&& forall|j: int| 0 <= j < i ==> #[trigger] names[j] != name
}

/// No name equals `name`.
pub open spec fn none_named(names: Seq<Seq<char>>, name: Seq<char>) -> bool {
    forall|j: int| 0 <= j < names.len() ==> #[trigger] names[j] != name
}

/// Wording of the messages about one sort of layers.
pub struct Wording<'a> {
    /// "no ... found in".
    pub none: &'a str,
    /// "... '" before the name that is missing.
    pub missing: &'a str,
    /// " has multiple ..., choose one ...".
    pub several: &'a str,
}

/// What choosing a layer gives: the one that is named, or the only one.
pub open spec fn layer_chosen(
    names: Seq<Seq<char>>,
    layer: Option<Seq<char>>,
    path: Seq<char>,
    none: Seq<char>,
    missing: Seq<char>,
    several: Seq<char>,
    r: Result<usize, String>,
) -> bool {
    if names.len() == 0 {
        r matches Err(e) && e@ == none + path
    } else {
        match layer {
            Some(name) => if none_named(names, name) {
                r matches Err(e) && e@ == missing + name + "' not found in "@ + path
            } else {
                r matches Ok(i) && first_named(names, name, i as int)
            },
            None => if names.len() > 1 {
                r matches Err(e) && e@ == path + several + listed(names) + ")"@
            } else {
                r == Ok::<usize, String>(0)
            },
        }
    }
}

/// Chooses a layer by name, or the only one. `path` is the file as the messages
/// show it.
pub fn choose_layer(names: &Vec<String>, layer: Option<&str>, path: &str, words: &Wording) -> (r: Result<
    usize,
    String,
>)
    ensures
        layer_chosen(
            crate::text::texts_of(names@),
            (match layer {
                Some(l) => Some(l@),
                None => None,
            }),
            path@,
            words.none@,
            words.missing@,
            words.several@,
            r,
        ),
{
    let ghost all = crate::text::texts_of(names@);
    if names.len() == 0 {
        return Err(concat2(words.none, path));
    }
    match layer {
        Some(name) => {
            for i in 0..names.len()
                invariant
                    all == crate::text::texts_of(names@),
                    names.len() > 0,
                    layer == Some(name),
                    forall|j: int| 0 <= j < i ==> #[trigger] all[j] != name@,
            {
                if same_text(names[i].as_str(), name) {
                    assert(all[i as int] == name@);
                    assert(first_named(all, name@, i as int));
                    return Ok(i);
                }
                assert(all[i as int] != name@);
            }
            Err(concat4(words.missing, name, "' not found in ", path))
        },
        None => {
            if names.len() > 1 {
                return Err(concat4(path, words.several, list(names).as_str(), ")"));
            }
            Ok(0)
        },
    }
}

/// The upper case of a text.
pub uninterp spec fn uppercase(s: Seq<char>) -> Seq<char>;

/// std's `str::to_uppercase`: the uppercase equivalent of the text. It is a
/// function of the text alone.
#[verifier::external_body]
fn to_uppercase(s: &str) -> (u: String)
    ensures
        u@ == uppercase(s@),
{
    s.to_uppercase()
}

/// The declared geometry type, in upper case, is one of points.
pub open spec fn says_point(upper: Seq<char>) -> bool {
    occurs("POINT"@, upper)
}

/// Whether a geometry type, in upper case, is one of points.
pub fn is_point_type(upper: &str) -> (b: bool)
    ensures
        b == says_point(upper@),
{
    contains_text(upper, "POINT")
}

/// Text that refuses a layer that is not one of points.
pub open spec fn not_points_text(info: LayerInfo) -> Seq<char> {
    "layer '"@ + info.name@ + "' is "@ + info.geometry_type@ + " — only point layers are supported"@
}

/// Refuses a layer that is not one of points.
pub fn check_points(info: &LayerInfo) -> (r: Result<(), String>)
    ensures
        match r {
            Ok(_) => says_point(uppercase(info.geometry_type@)),
            Err(e) => !says_point(uppercase(info.geometry_type@)) && e@ == not_points_text(*info),
        },
{
    if is_point_type(to_uppercase(info.geometry_type.as_str()).as_str()) {
        return Ok(());
    }
    Err(
        concat5(
            "layer '",
            info.name.as_str(),
            "' is ",
            info.geometry_type.as_str(),
            " — only point layers are supported",
        ),
    )
}

/// Why reading a layer failed.
#[derive(Debug)]
pub enum ReadError {
    /// The file does not hold what is asked for.
    Content(String),
    /// The points cannot be used.
    Points(GeostatError),
}

/// A row of a point layer: geometry and value, where they are set.
pub type PointRow = (Option<Vec<u8>>, Option<Double>);

/// The row has a geometry and a value.
pub open spec fn is_full(row: PointRow) -> bool {
    row.0 is Some && row.1 is Some
}

/// The rows that have both, in order.
pub open spec fn full_rows(rows: Seq<PointRow>) -> Seq<PointRow>
    decreases rows.len(),
{
    if rows.len() == 0 {
        Seq::empty()
    } else if is_full(rows.last()) {
        full_rows(rows.drop_last()).push(rows.last())
    } else {
        full_rows(rows.drop_last())
    }
}

/// The geometry of a row decodes to the point.
pub open spec fn row_at(row: PointRow, p: [Double; 2]) -> bool {
    decoded(row.0->0@, Ok((p@[0], p@[1])))
}

/// `coords` and `values` are those of the rows.
pub open spec fn rows_read(rows: Seq<PointRow>, coords: Seq<[Double; 2]>, values: Seq<Double>) -> bool {
    &&& coords.len() == rows.len()
    &&& values.len() == rows.len()
    &&& forall|i: int| 0 <= i < rows.len() ==> row_at(#[trigger] rows[i], coords[i])
    &&& forall|i: int| 0 <= i < rows.len() ==> (#[trigger] rows[i]).1 == Some(values[i])
}

/// Some row fails to decode: the first one, with this text.
pub open spec fn row_fails(rows: Seq<PointRow>, e: String) -> bool {
    exists|i: int|
        0 <= i < rows.len() && #[trigger] decoded(rows[i].0->0@, Err(e)) && forall|j: int|
            0 <= j < i ==> decodes((#[trigger] rows[j]).0->0@)
}

/// The blob decodes to a point.
pub open spec fn decodes(blob: Seq<u8>) -> bool {
    exists|x: Double, y: Double| #[trigger] decoded(blob, Ok((x, y)))
}

/// What the rows of a layer make.
pub open spec fn points_read(
    rows: Seq<PointRow>,
    name: Seq<char>,
    r: Result<PointSet<2>, ReadError>,
) -> bool {
    let full = full_rows(rows);
    ||| r matches Err(ReadError::Content(e)) && row_fails(full, e)
    ||| full.len() == 0 && (r matches Err(ReadError::Content(e)) && e@ == "layer '"@ + name
        + "' yielded no usable point/value rows"@)
    ||| full.len() > 0 && exists|coords: Seq<[Double; 2]>, values: Seq<Double>| #[trigger]
        rows_read(full, coords, values) && match r {
            Ok(p) => p.well_formed() && p.places() == coords && p.attributes() == values,
            Err(ReadError::Points(e)) => if !crate::data::finite_points(coords) {
                crate::error::invalid(e, "non-finite coordinate"@)
            } else {
                &&& !crate::data::finite_values(values)
                &&& crate::error::invalid(e, "non-finite value"@)
            },
            _ => false,
        }
}

/// Makes a point set of the rows of a layer. Rows without a geometry or a value
/// are skipped.
pub fn read_points(rows: &Vec<PointRow>, name: &str) -> (r: Result<PointSet<2>, ReadError>)
    ensures
        points_read(rows@, name@, r),
{
    let ghost full = full_rows(rows@);
    let mut coords: Vec<[Double; 2]> = Vec::new();
    let mut values: Vec<Double> = Vec::new();
    for i in 0..rows.len()
        invariant
            full == full_rows(rows@),
            rows_read(full_rows(rows@.take(i as int)), coords@, values@),
    {
        let ghost before = full_rows(rows@.take(i as int));
        assert(rows@.take(i + 1).drop_last() =~= rows@.take(i as int));
        match (&rows[i].0, &rows[i].1) {
            (Some(blob), Some(v)) => {
                let p: Result<(Double, Double), String> = decode_point(blob.as_slice());
                match p {
                    Err(e) => {
                        proof {
                            lemma_full_prefix(rows@, i as int);
                            let k = before.len() as int;
                            assert(full[k] == rows@[i as int]);
                            assert(decoded(full[k].0->0@, Err(e)));
                            assert forall|j: int| 0 <= j < k implies decodes(
                                (#[trigger] full[j]).0->0@,
                            ) by {
                                assert(full[j] == before[j]);
                                assert(row_at(before[j], coords@[j]));
                                assert(decoded(
                                    before[j].0->0@,
                                    Ok((coords@[j]@[0], coords@[j]@[1])),
                                ));
                            }
                            assert(row_fails(full, e));
                        }
                        return Err(ReadError::Content(e));
                    },
                    Ok(xy) => {
                        let c: [Double; 2] = [xy.0, xy.1];
                        assert(row_at(rows@[i as int], c));
                        coords.push(c);
                        values.push(*v);
                    },
                }
            },
            _ => {},
        }
    }
    assert(rows@.take(rows.len() as int) =~= rows@);
    if coords.len() == 0 {
        return Err(
            ReadError::Content(
                concat3("layer '", name, "' yielded no usable point/value rows"),
            ),
        );
    }
    assert(rows_read(full, coords@, values@));
    match PointSet::new(coords, values) {
        Ok(p) => Ok(p),
        Err(e) => Err(ReadError::Points(e)),
    }
}

/// The full rows of a beginning are a beginning of the full rows.
proof fn lemma_full_prefix(rows: Seq<PointRow>, i: int)
    requires
        0 <= i < rows.len(),
    ensures
        full_rows(rows.take(i)).len() <= full_rows(rows).len(),
        forall|j: int|
            0 <= j < full_rows(rows.take(i)).len() ==> full_rows(rows.take(i))[j] == #[trigger] full_rows(
                rows,
            )[j],
        is_full(rows[i]) ==> full_rows(rows.take(i)).len() < full_rows(rows).len() && full_rows(
            rows,
        )[full_rows(rows.take(i)).len() as int] == rows[i],
    decreases rows.len(),
{
    let rest = rows.drop_last();
    if i == rows.len() - 1 {
        assert(rows.take(i) =~= rest);
    } else {
        lemma_full_prefix(rest, i);
        assert(rest.take(i) =~= rows.take(i));
    }
}

/// The rows of a layer to which these points and values were written.
pub open spec fn written_rows(
    coords: Seq<[Double; 2]>,
    values: Seq<Double>,
    srs_id: i32,
    rows: Seq<PointRow>,
) -> bool {
    &&& rows.len() == coords.len()
    &&& values.len() == coords.len()
    &&& forall|i: int|
        0 <= i < rows.len() ==> {
            &&& (#[trigger] rows[i]).0 matches Some(blob)
            &&& blob@ == point_blob(coords[i]@[0], coords[i]@[1], srs_id)
            &&& rows[i].1 == Some(values[i])
        }
}

/// A layer of finite points and values reads back: the points and values that were
/// written, bit for bit and in order.
pub proof fn written_points_read_back(
    coords: Seq<[Double; 2]>,
    values: Seq<Double>,
    srs_id: i32,
    rows: Seq<PointRow>,
    name: Seq<char>,
    r: Result<PointSet<2>, ReadError>,
)
    requires
        coords.len() > 0,
        crate::data::finite_points(coords),
        crate::data::finite_values(values),
        written_rows(coords, values, srs_id, rows),
        points_read(rows, name, r),
    ensures
        r matches Ok(p) && p.places() == coords && p.attributes() == values,
{
    lemma_all_full(rows);
    let full = full_rows(rows);
    if r is Err && r->Err_0 is Content && row_fails(full, r->Err_0->Content_0) {
        let e = r->Err_0->Content_0;
        let i = choose|i: int|
            0 <= i < full.len() && #[trigger] decoded(full[i].0->0@, Err(e));
        assert(rows[i].0 is Some);
        encoded_point_decodes(coords[i]@[0], coords[i]@[1], srs_id, Err(e));
    }
    assert forall|c: Seq<[Double; 2]>, v: Seq<Double>| #[trigger] rows_read(full, c, v) implies c
        == coords && v == values by {
        assert forall|i: int| 0 <= i < c.len() implies #[trigger] c[i] == coords[i] by {
            assert(row_at(rows[i], c[i]));
            encoded_point_decodes(
                coords[i]@[0],
                coords[i]@[1],
                srs_id,
                Ok((c[i]@[0], c[i]@[1])),
            );
            assert(c[i]@ =~= coords[i]@);
            assert(c[i] =~= coords[i]);
        }
        assert(c =~= coords);
        assert forall|i: int| 0 <= i < v.len() implies #[trigger] v[i] == values[i] by {
            assert(rows[i].1 == Some(v[i]));
        }
        assert(v =~= values);
    }
}

proof fn lemma_all_full(rows: Seq<PointRow>)
    requires
        forall|i: int| 0 <= i < rows.len() ==> is_full(#[trigger] rows[i]),
    ensures
        full_rows(rows) == rows,
    decreases rows.len(),
{
    if rows.len() > 0 {
        lemma_all_full(rows.drop_last());
        assert(rows.drop_last().push(rows.last()) =~= rows);
    }
}

/// Query for the number of features of a layer.
pub fn count_sql(name: &str) -> (s: String)
    ensures
        s@ == "SELECT COUNT(*) FROM "@ + quoted(name@),
{
    concat2("SELECT COUNT(*) FROM ", quote_ident(name).as_str())
}

/// Query for the geometries and values of a layer.
pub fn select_sql(info: &LayerInfo, value_col: &str) -> (s: String)
    ensures
        s@ == "SELECT "@ + quoted(info.geometry_column@) + ", "@ + quoted(value_col@) + " FROM "@
            + quoted(info.name@),
{
    concat2(
        concat5(
            "SELECT ",
            quote_ident(info.geometry_column.as_str()).as_str(),
            ", ",
            quote_ident(value_col).as_str(),
            " FROM ",
        ).as_str(),
        quote_ident(info.name.as_str()).as_str(),
    )
}

/// A column to write: its name and one value per point.
#[derive(Debug)]
pub struct Column {
    /// Name.
    pub name: String,
    /// Values.
    pub values: Vec<Double>,
}

/// Definitions of columns in the statement that makes a table.
pub open spec fn column_defs(columns: Seq<Column>) -> Seq<char>
    decreases columns.len(),
{
    if columns.len() == 0 {
        Seq::empty()
    } else {
        column_defs(columns.drop_last()) + ", "@ + quoted(columns.last().name@) + " REAL"@
    }
}

/// Names of columns in the statement that inserts a row.
pub open spec fn column_names(columns: Seq<Column>) -> Seq<char>
    decreases columns.len(),
{
    if columns.len() == 0 {
        Seq::empty()
    } else {
        column_names(columns.drop_last()) + ", "@ + quoted(columns.last().name@)
    }
}

/// Placeholders of `n` columns, counted from two.
pub open spec fn placeholders(n: nat) -> Seq<char>
    decreases n,
{
    if n == 0 {
        Seq::empty()
    } else {
        placeholders((n - 1) as nat) + ", ?"@ + digits(n + 1)
    }
}

/// Statement that makes the feature table of a layer.
pub open spec fn create_text(layer: Seq<char>, columns: Seq<Column>) -> Seq<char> {
    "CREATE TABLE "@ + quoted(layer) + " (fid INTEGER PRIMARY KEY AUTOINCREMENT, geom BLOB"@
        + column_defs(columns) + ")"@
}

/// Statement that inserts a feature.
pub open spec fn insert_text(layer: Seq<char>, columns: Seq<Column>) -> Seq<char> {
    "INSERT INTO "@ + quoted(layer) + " (geom"@ + column_names(columns) + ") VALUES (?1"@
        + placeholders(columns.len()) + ")"@
}

/// The reference system is not one that every GeoPackage has.
pub open spec fn needs_srs(srs_id: i32) -> bool {
    srs_id != -1 && srs_id != 0 && srs_id != 4326
}

/// Name for a reference system that a GeoPackage does not have.
pub fn srs_name(srs_id: i32) -> (r: Option<String>)
    ensures
        match r {
            Some(s) => needs_srs(srs_id) && s@ == "SRS "@ + signed_digits(srs_id as int),
            None => !needs_srs(srs_id),
        },
{
    if srs_id == -1 || srs_id == 0 || srs_id == 4326 {
        None
    } else {
        Some(concat2("SRS ", signed_decimal(srs_id as i64).as_str()))
    }
}

/// Least coordinate along an axis, by comparison; infinite of no points.
pub open spec fn least_along(coords: Seq<[Double; 2]>, d: int) -> Double
    decreases coords.len(),
{
    if coords.len() == 0 {
        Double { bits: INFINITE }
    } else {
        least_along(coords.drop_last(), d).min(coords.last()@[d])
    }
}

/// Greatest coordinate along an axis, by comparison; minus infinity of no
/// points.
pub open spec fn greatest_along(coords: Seq<[Double; 2]>, d: int) -> Double
    decreases coords.len(),
{
    if coords.len() == 0 {
        (Double { bits: INFINITE }).neg()
    } else {
        greatest_along(coords.drop_last(), d).max(coords.last()@[d])
    }
}

/// All that is written for a point layer.
#[derive(Debug)]
pub struct PointPlan {
    /// Statement that makes the feature table.
    pub create: String,
    /// Statement that inserts a feature: its blob, then its values.
    pub insert: String,
    /// Name of the reference system, where it has to be registered.
    pub srs_name: Option<String>,
    /// Least x, least y, greatest x, greatest y.
    pub extent: [Double; 4],
    /// Geometry of each point.
    pub blobs: Vec<Vec<u8>>,
}

/// Column `i` does not have one value per point.
pub open spec fn uneven(columns: Seq<Column>, n: nat, i: int) -> bool {
    0 <= i < columns.len() && columns[i].values@.len() != n
}

/// Column `i` is the first that does not have one value per point.
pub open spec fn first_uneven(columns: Seq<Column>, n: nat, i: int) -> bool {
    uneven(columns, n, i) && forall|j: int| 0 <= j < i ==> !#[trigger] uneven(columns, n, j)
}

/// What planning a point layer gives.
pub open spec fn points_planned(
    layer: Seq<char>,
    srs_id: i32,
    coords: Seq<[Double; 2]>,
    columns: Seq<Column>,
    r: Result<PointPlan, String>,
) -> bool {
    match r {
        Err(e) => exists|i: int| #[trigger]
            first_uneven(columns, coords.len(), i) && e@ == "column '"@ + columns[i].name@
                + "' has "@ + digits(columns[i].values@.len()) + " values but there are "@ + digits(
                coords.len(),
            ) + " points"@,
        Ok(p) => {
            &&& forall|i: int| !#[trigger] uneven(columns, coords.len(), i)
            &&& p.create@ == create_text(layer, columns)
            &&& p.insert@ == insert_text(layer, columns)
            &&& match p.srs_name {
                Some(s) => needs_srs(srs_id) && s@ == "SRS "@ + signed_digits(srs_id as int),
                None => !needs_srs(srs_id),
            }
            &&& p.extent@ == seq![
                least_along(coords, 0),
                least_along(coords, 1),
                greatest_along(coords, 0),
                greatest_along(coords, 1),
            ]
            &&& p.blobs@.len() == coords.len()
            &&& forall|i: int|
                0 <= i < coords.len() ==> (#[trigger] p.blobs@[i])@ == point_blob(
                    coords[i]@[0],
                    coords[i]@[1],
                    srs_id,
                )
        },
    }
}

/// Plans what is written for a point layer with one column per variable.
pub fn plan_points(
    layer: &str,
    srs_id: i32,
    coords: &Vec<[Double; 2]>,
    columns: &Vec<Column>,
) -> (r: Result<PointPlan, String>)
    requires
        columns@.len() < usize::MAX - 1,
    ensures
        points_planned(layer@, srs_id, coords@, columns@, r),
{
    for i in 0..columns.len()
        invariant
            forall|j: int| 0 <= j < i ==> !#[trigger] uneven(columns@, coords@.len(), j),
    {
        if columns[i].values.len() != coords.len() {
            assert(first_uneven(columns@, coords@.len(), i as int));
            return Err(
                concat3(
                    concat5(
                        "column '",
                        columns[i].name.as_str(),
                        "' has ",
                        decimal(columns[i].values.len()).as_str(),
                        " values but there are ",
                    ).as_str(),
                    decimal(coords.len()).as_str(),
                    " points",
                ),
            );
        }
    }
    let mut defs: String = String::new();
    let mut names: String = String::new();
    let mut marks: String = String::new();
    for i in 0..columns.len()
        invariant
            columns@.len() < usize::MAX - 1,
            defs@ == column_defs(columns@.take(i as int)),
            names@ == column_names(columns@.take(i as int)),
            marks@ == placeholders(i as nat),
    {
        assert(columns@.take(i + 1).drop_last() =~= columns@.take(i as int));
        let name: String = quote_ident(columns[i].name.as_str());
        defs.append(", ");
        defs.append(name.as_str());
        defs.append(" REAL");
        names.append(", ");
        names.append(name.as_str());
        marks.append(", ?");
        marks.append(decimal(i + 2).as_str());
    }
    assert(columns@.take(columns.len() as int) =~= columns@);
    let table: String = quote_ident(layer);
    let create: String = concat5(
        "CREATE TABLE ",
        table.as_str(),
        " (fid INTEGER PRIMARY KEY AUTOINCREMENT, geom BLOB",
        defs.as_str(),
        ")",
    );
    let insert: String = concat3(
        concat5("INSERT INTO ", table.as_str(), " (geom", names.as_str(), ") VALUES (?1").as_str(),
        marks.as_str(),
        ")",
    );
    let mut lo_x: Double = Double::infinity();
    let mut lo_y: Double = Double::infinity();
    let mut hi_x: Double = Double::infinity().neg();
    let mut hi_y: Double = Double::infinity().neg();
    let mut blobs: Vec<Vec<u8>> = Vec::new();
    for i in 0..coords.len()
        invariant
            lo_x == least_along(coords@.take(i as int), 0),
            lo_y == least_along(coords@.take(i as int), 1),
            hi_x == greatest_along(coords@.take(i as int), 0),
            hi_y == greatest_along(coords@.take(i as int), 1),
            blobs.len() == i,
            forall|j: int|
                0 <= j < i ==> (#[trigger] blobs@[j])@ == point_blob(
                    coords@[j]@[0],
                    coords@[j]@[1],
                    srs_id,
                ),
    {
        assert(coords@.take(i + 1).drop_last() =~= coords@.take(i as int));
        let c: [Double; 2] = coords[i];
        lo_x = lo_x.min(c[0]);
        lo_y = lo_y.min(c[1]);
        hi_x = hi_x.max(c[0]);
        hi_y = hi_y.max(c[1]);
        blobs.push(encode_point(c[0], c[1], srs_id));
    }
    assert(coords@.take(coords.len() as int) =~= coords@);
    let extent: [Double; 4] = [lo_x, lo_y, hi_x, hi_y];
    assert(extent@ =~= seq![
        least_along(coords@, 0),
        least_along(coords@, 1),
        greatest_along(coords@, 0),
        greatest_along(coords@, 1),
    ]);
    assert forall|i: int| !#[trigger] uneven(columns@, coords@.len(), i) by {}
    Ok(PointPlan { create, insert, srs_name: srs_name(srs_id), extent, blobs })
}

/// A planned layer reads back: from rows that hold the planned geometries and the values of
/// one column, the points and values that were planned, bit for bit and in order.
pub proof fn planned_points_read_back(
    layer: Seq<char>,
    srs_id: i32,
    coords: Seq<[Double; 2]>,
    columns: Seq<Column>,
    plan: PointPlan,
    k: int,
    rows: Seq<PointRow>,
    name: Seq<char>,
    r: Result<PointSet<2>, ReadError>,
)
    requires
        points_planned(layer, srs_id, coords, columns, Ok(plan)),
        0 <= k < columns.len(),
        coords.len() > 0,
        crate::data::finite_points(coords),
        crate::data::finite_values(columns[k].values@),
        rows.len() == coords.len(),
        forall|i: int|
            0 <= i < rows.len() ==> {
                &&& (#[trigger] rows[i]).0 matches Some(blob)
                &&& blob@ == plan.blobs@[i]@
                &&& rows[i].1 == Some(columns[k].values@[i])
            },
        points_read(rows, name, r),
    ensures
        r matches Ok(p) && p.places() == coords && p.attributes() == columns[k].values@,
{
    assert(!uneven(columns, coords.len(), k));
    assert forall|i: int| 0 <= i < rows.len() implies {
        &&& (#[trigger] rows[i]).0 matches Some(blob)
        &&& blob@ == point_blob(coords[i]@[0], coords[i]@[1], srs_id)
        &&& rows[i].1 == Some(columns[k].values@[i])
    } by {
        assert(plan.blobs@[i]@ == point_blob(coords[i]@[0], coords[i]@[1], srs_id));
    }
    written_points_read_back(coords, columns[k].values@, srs_id, rows, name, r);
}

} // verus!
