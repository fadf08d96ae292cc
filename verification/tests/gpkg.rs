use geostat::gpkg::{
    check_points, choose_layer, read_points, count_sql, decode_point, encode_point, plan_points,
    quote_ident, rd_f64, rd_u32, select_sql, srs_name, Column, LayerInfo, ReadError, Wording,
};
use geostat::arith::{Arithmetic, Op};
use geostat::double::Double;

fn double(x: f64) -> Double {
    Double::from_bits(x.to_bits())
}

fn float(v: Double) -> f64 {
    f64::from_bits(v.bits)
}

type Calc = Arithmetic<fn(Op, Double, Double) -> Double>;

fn apply(op: Op, a: Double, b: Double) -> Double {
    let (x, y) = (float(a), float(b));
    double(match op {
        Op::Plus => x + y,
        Op::Minus => x - y,
        Op::Times => x * y,
        Op::Over => x / y,
        Op::Power => x.powf(y),
        Op::Root => x.sqrt(),
        Op::Exp => x.exp(),
        Op::Ln => x.ln(),
        Op::Sin => x.sin(),
        Op::Cos => x.cos(),
        Op::Sinh => x.sinh(),
        Op::Cosh => x.cosh(),
        Op::Asinh => x.asinh(),
    })
}

fn ar() -> Calc {
    Arithmetic::new(apply as fn(Op, Double, Double) -> Double)
}

fn doubles(xs: &[f64]) -> Vec<Double> {
    xs.iter().map(|x| double(*x)).collect()
}

fn floats(vs: &[Double]) -> Vec<f64> {
    vs.iter().map(|v| float(*v)).collect()
}

fn gpb_point(x: f64, y: f64) -> Vec<u8> {
    let mut b = vec![b'G', b'P', 0x00, 0x01];
    b.extend_from_slice(&4326i32.to_le_bytes());
    b.push(0x01);
    b.extend_from_slice(&1u32.to_le_bytes());
    b.extend_from_slice(&x.to_le_bytes());
    b.extend_from_slice(&y.to_le_bytes());
    b
}

fn decoded(blob: &[u8]) -> (f64, f64) {
    let (x, y) = decode_point(blob).unwrap();
    (float(x), float(y))
}

#[test]
fn decodes_a_point_blob() {
    assert_eq!(decoded(&gpb_point(123.5, -45.25)), (123.5, -45.25));
}

#[test]
fn decodes_point_with_envelope() {
    let mut b = vec![b'G', b'P', 0x00, 0x03];
    b.extend_from_slice(&4326i32.to_le_bytes());
    for v in [10.0f64, 20.0, 30.0, 40.0] {
        b.extend_from_slice(&v.to_le_bytes());
    }
    b.push(0x01);
    b.extend_from_slice(&1u32.to_le_bytes());
    b.extend_from_slice(&15.0f64.to_le_bytes());
    b.extend_from_slice(&25.0f64.to_le_bytes());
    assert_eq!(decoded(&b), (15.0, 25.0));
}

#[test]
fn rejects_non_gpb() {
    assert!(decode_point(b"not a blob at all").is_err());
}

#[test]
fn quotes_identifiers_safely() {
    assert_eq!(quote_ident("zinc"), "\"zinc\"");
    assert_eq!(quote_ident("a\"b"), "\"a\"\"b\"");
}

#[test]
fn encoded_points_decode() {
    let blob = encode_point(double(1.5), double(-2.25), 28992);
    assert_eq!(blob, {
        let mut b = gpb_point(1.5, -2.25);
        b[4..8].copy_from_slice(&28992i32.to_le_bytes());
        b
    });
    assert_eq!(decoded(&blob), (1.5, -2.25));
}

#[test]
fn numbers_are_read_in_either_byte_order() {
    assert_eq!(rd_u32(&[1, 2, 3, 4], true), 0x0403_0201);
    assert_eq!(rd_u32(&[1, 2, 3, 4], false), 0x0102_0304);
    assert_eq!(float(rd_f64(&2.5f64.to_be_bytes(), false)), 2.5);
    assert_eq!(float(rd_f64(&2.5f64.to_le_bytes(), true)), 2.5);
}

fn words() -> Wording<'static> {
    Wording {
        none: "no vector feature layers found in ",
        missing: "layer '",
        several: " has multiple layers; choose one with --layer (available: ",
    }
}

#[test]
fn layers_are_chosen_by_name_or_alone() {
    let one = vec!["a".to_string()];
    let two = vec!["a".to_string(), "b".to_string()];
    assert_eq!(choose_layer(&one, None, "f.gpkg", &words()), Ok(0));
    assert_eq!(choose_layer(&two, Some("b"), "f.gpkg", &words()), Ok(1));
    let none = choose_layer(&vec![], None, "f.gpkg", &words()).unwrap_err();
    assert!(none.contains("no vector feature layers found in f.gpkg"), "{none}");
    let missing = choose_layer(&two, Some("c"), "f.gpkg", &words()).unwrap_err();
    assert_eq!(missing, "layer 'c' not found in f.gpkg");
    let several = choose_layer(&two, None, "f.gpkg", &words()).unwrap_err();
    assert!(several.contains("choose one with --layer (available: a, b"), "{several}");
}

fn layer(geometry_type: &str) -> LayerInfo {
    LayerInfo {
        name: "wells".to_string(),
        geometry_column: "geom".to_string(),
        geometry_type: geometry_type.to_string(),
        srs_id: 4326,
        n_features: 3,
    }
}

#[test]
fn only_point_layers_are_read() {
    assert!(check_points(&layer("point")).is_ok());
    assert!(check_points(&layer("Point Z")).is_ok());
    assert!(check_points(&layer("POINT")).is_ok());
    assert!(check_points(&layer("POLYGON")).is_err());
}

#[test]
fn rows_without_geometry_or_value_are_skipped() {
    let rows = vec![
        (Some(gpb_point(1.0, 2.0)), Some(double(5.0))),
        (None, Some(double(6.0))),
        (Some(gpb_point(3.0, 4.0)), None),
        (Some(gpb_point(7.0, 8.0)), Some(double(9.0))),
    ];
    let ps = read_points(&rows, "wells").unwrap();
    assert_eq!(ps.len(), 2);
    assert_eq!(float(ps.coord(1)[0]), 7.0);
    assert_eq!(float(ps.value(1)), 9.0);
    match read_points(&vec![(None, None)], "wells") {
        Err(ReadError::Content(e)) => {
            assert_eq!(e, "layer 'wells' yielded no usable point/value rows")
        }
        other => panic!("{other:?}"),
    }
    let infinite = vec![(Some(gpb_point(1.0, 2.0)), Some(double(f64::INFINITY)))];
    assert!(matches!(read_points(&infinite, "wells"), Err(ReadError::Points(_))));
}

#[test]
fn statements_quote_their_names() {
    assert_eq!(count_sql("a\"b"), "SELECT COUNT(*) FROM \"a\"\"b\"");
    let select = select_sql(&layer("POINT"), "zinc");
    assert!(select.contains("\"geom\"") && select.contains("\"zinc\""), "{select}");
    assert!(select.contains("\"wells\""), "{select}");
}

#[test]
fn written_points_read_back() {
    let coords = vec![
        [double(10.0), double(20.0)],
        [double(30.5), double(40.25)],
        [double(-5.0), double(0.0)],
    ];
    let columns = vec![Column { name: "pred".to_string(), values: doubles(&[1.5, 2.5, 3.5]) }];
    let plan = plan_points("kriging", 28992, &coords, &columns).unwrap();
    assert_eq!(floats(&plan.extent), vec![-5.0, 0.0, 30.5, 40.25]);
    assert!(plan.create.contains("\"kriging\"") && plan.create.contains("\"pred\""));
    assert!(plan.insert.contains("\"pred\""));
    let rows = plan
        .blobs
        .iter()
        .zip(&columns[0].values)
        .map(|(b, v)| (Some(b.clone()), Some(*v)))
        .collect();
    let ps = read_points(&rows, "kriging").unwrap();
    assert_eq!(ps.coords(), &coords);
    assert_eq!(ps.values(), &columns[0].values);
    assert_eq!(srs_name(28992), Some("SRS 28992".to_string()));
}
