use geostat::data::PointSet;
use geostat::grid::Grid2D;
use geostat::ik::CcdfEstimate;
use geostat::interpolation::CvResult;
use geostat::io_utils::{
    read_points, read_points3, read_points_with_extras, read_targets, read_targets3, write_cv_csv,
    write_estimates3_csv, write_estimates_csv, write_grid_csv, write_ik_csv, write_sims_csv,
    write_variogram_csv, write_weights_csv, VariogramBin,
};
use geostat::kriging::KrigingEstimate;
use geostat::table::{column_indices, parse_field, TableError};
use geostat::arith::{Arithmetic, Op};
use geostat::double::Double;

fn double(x: f64) -> Double {
    Double::from_bits(x.to_bits())
}

fn float(v: Double) -> f64 {
    f64::from_bits(v.bits)
}

type Calc = Arithmetic<fn(Op, Double, Double) -> Double>;

fn apply(op: Op, a: Double, b: Double) -> Double {
    let (x, y) = (float(a), float(b));
    double(match op {
        Op::Plus => x + y,
        Op::Minus => x - y,
        Op::Times => x * y,
        Op::Over => x / y,
        Op::Power => x.powf(y),
        Op::Root => x.sqrt(),
        Op::Exp => x.exp(),
        Op::Ln => x.ln(),
        Op::Sin => x.sin(),
        Op::Cos => x.cos(),
        Op::Sinh => x.sinh(),
        Op::Cosh => x.cosh(),
        Op::Asinh => x.asinh(),
    })
}

fn ar() -> Calc {
    Arithmetic::new(apply as fn(Op, Double, Double) -> Double)
}

fn doubles(xs: &[f64]) -> Vec<Double> {
    xs.iter().map(|x| double(*x)).collect()
}

fn floats(vs: &[Double]) -> Vec<f64> {
    vs.iter().map(|v| float(*v)).collect()
}

fn at(p: [f64; 2]) -> [Double; 2] {
    [double(p[0]), double(p[1])]
}

fn place(p: [Double; 2]) -> [f64; 2] {
    [float(p[0]), float(p[1])]
}

fn point_set(coords: &[[f64; 2]], values: &[f64]) -> PointSet<2> {
    PointSet::new(
        coords.iter().map(|p| at(*p)).collect(),
        values.iter().map(|v| double(*v)).collect(),
    )
    .unwrap()
}

fn parse(s: &str) -> Option<Double> {
    s.parse::<f64>().ok().map(double)
}

fn show(v: Double) -> String {
    float(v).to_string()
}

fn text(e: TableError) -> String {
    match e {
        TableError::Table(t, None) => t,
        TableError::Table(t, Some(c)) => format!("{t}: {c}"),
        TableError::Data(e) => format!("{e:?}"),
    }
}

fn points(csv: &str, value: &str) -> Result<(PointSet<2>, usize), TableError> {
    read_points(csv.as_bytes(), "points.csv", "x", "y", value, &parse)
}

#[test]
fn read_points_happy_path() {
    let (data, skipped) = points("x,y,z\n0,0,1.0\n1,0,2.0\n0,1,1.5\n", "z").unwrap();
    assert_eq!(data.len(), 3);
    assert_eq!(place(data.coord(1)), [1.0, 0.0]);
    assert_eq!(float(data.value(1)), 2.0);
    assert_eq!(skipped, 0);
}

#[test]
fn read_points_reports_missing_column_and_lists_available() {
    let msg = text(points("east,north,val\n0,0,1.0\n", "val").unwrap_err());
    assert!(msg.contains("column 'x' not found"), "{msg}");
    assert!(msg.contains("east"), "should list available columns: {msg}");
    assert_eq!(msg, "column 'x' not found; available columns: east, north, val");
}

#[test]
fn read_points_skips_missing_or_non_numeric_rows() {
    let csv = "x,y,z\n0,0,1.0\n1,0,\n2,0,NaN\n3,0,na\n4,0,not_a_number\n5,0,2.0\n";
    let (data, skipped) = points(csv, "z").unwrap();
    assert_eq!(data.len(), 2);
    assert_eq!(float(data.value(0)), 1.0);
    assert_eq!(float(data.value(1)), 2.0);
    assert_eq!(skipped, 4);
}

#[test]
fn read_points_errors_when_every_row_is_skipped() {
    let msg = text(points("x,y,z\n0,0,\n1,0,na\n", "z").unwrap_err());
    assert!(msg.contains("no valid data rows"));
    assert_eq!(msg, "no valid data rows in points.csv");
}

#[test]
fn read_points_with_extras_reads_drift_columns() {
    let p = read_points_with_extras(
        b"x,y,z,sdist\n0,0,1.0,0.1\n1,0,2.0,0.2\n",
        "points.csv",
        "x",
        "y",
        "z",
        &vec!["sdist".to_string()],
        &parse,
    )
    .unwrap();
    assert_eq!(p.data.len(), 2);
    assert_eq!(p.extras, vec![doubles(&[0.1]), doubles(&[0.2])]);
}

#[test]
fn read_points3_assembles_xyz_and_value_correctly() {
    let csv = b"x,y,z,grade\n0,0,5,1.0\n1,2,3,2.5\n";
    let (data, _) = read_points3(csv, "points.csv", "x", "y", "z", "grade", &parse).unwrap();
    assert_eq!(data.len(), 2);
    assert_eq!(floats(&data.coord(0)), vec![0.0, 0.0, 5.0]);
    assert_eq!(float(data.value(0)), 1.0);
    assert_eq!(floats(&data.coord(1)), vec![1.0, 2.0, 3.0]);
    assert_eq!(float(data.value(1)), 2.5);
}

#[test]
fn read_targets_and_targets3_round_trip_coordinates_and_extras() {
    let csv = b"x,y,sdist\n0,0,0.1\n1,1,0.2\n";
    let extra = vec!["sdist".to_string()];
    let t = read_targets(csv, "targets.csv", "x", "y", &extra, &parse).unwrap();
    assert_eq!(t.coords, vec![at([0.0, 0.0]), at([1.0, 1.0])]);
    assert_eq!(t.extras, vec![doubles(&[0.1]), doubles(&[0.2])]);
    let csv = b"x,y,z\n0,0,5\n1,2,3\n";
    let (targets, _) = read_targets3(csv, "targets.csv", "x", "y", "z", &parse).unwrap();
    assert_eq!(floats(&targets[0]), vec![0.0, 0.0, 5.0]);
    assert_eq!(floats(&targets[1]), vec![1.0, 2.0, 3.0]);
    let none = read_targets(b"x,y\n", "t.csv", "x", "y", &vec![], &parse).unwrap_err();
    assert_eq!(text(none), "no valid target rows in t.csv");
}

#[test]
fn rows_of_another_length_stop_the_reading() {
    let msg = text(points("x,y,z\n0,0,1\n1,0\n", "z").unwrap_err());
    assert!(msg.starts_with("cannot parse CSV row 3: "), "{msg}");
    let broken = read_points(b"x,\xff,z\n0,0,1\n", "p.csv", "x", "y", "z", &parse).unwrap_err();
    assert!(text(broken).starts_with("cannot read CSV header: "));
}

#[test]
fn infinite_numbers_are_refused_as_data() {
    let e = points("x,y,z\n0,0,inf\n", "z").unwrap_err();
    assert!(matches!(e, TableError::Data(_)));
}

#[test]
fn quoted_fields_are_one_field() {
    let (data, _) = points("\"x\",y,\"a, b\"\n1,\" 2 \",3\n", "a, b").unwrap();
    assert_eq!(place(data.coord(0)), [1.0, 2.0]);
    assert_eq!(float(data.value(0)), 3.0);
}

#[test]
fn fields_and_columns_are_looked_up() {
    let row = vec![" 1.5 ".to_string(), "NA".to_string(), "".to_string()];
    assert_eq!(parse_field(&row, 0, &parse), Some(double(1.5)));
    assert_eq!(parse_field(&row, 1, &parse), None);
    assert_eq!(parse_field(&row, 2, &parse), None);
    assert_eq!(parse_field(&row, 3, &parse), None);
    let header = vec!["a".to_string(), "b".to_string(), "a".to_string()];
    let names = vec!["b".to_string(), "a".to_string()];
    assert_eq!(column_indices(&header, &names), Ok(vec![1, 0]));
}

#[test]
fn write_grid_csv_matches_grid_cell_count_and_order() {
    let grid = Grid2D::from_bbox(at([0.0, 0.0]), at([1.0, 1.0]), 2, 2, &ar()).unwrap();
    let values = doubles(&[1.0, 2.0, 3.0, 4.0]);
    let variances = doubles(&[0.1, 0.2, 0.3, 0.4]);
    let contents = write_grid_csv(&grid, &values, &variances, &show, &ar());
    let lines: Vec<&str> = contents.lines().collect();
    assert_eq!(lines[0], "x,y,prediction,variance");
    assert_eq!(lines.len(), 1 + grid.n_cells());
    assert_eq!(lines[2], "0.75,0.25,2,0.2");
}

fn estimate(value: f64, variance: f64) -> KrigingEstimate {
    KrigingEstimate { value: double(value), variance: double(variance), lagrange: None }
}

#[test]
fn tables_are_written_line_by_line() {
    let bins = vec![VariogramBin { h: double(1.5), gamma: double(0.25), n_pairs: 7 }];
    assert_eq!(write_variogram_csv(&bins, &show), "lag,h,gamma,n_pairs\n1,1.5,0.25,7\n");
    let data = point_set(&[[1.0, 2.0]], &[3.0]);
    assert_eq!(
        write_weights_csv(&data, &doubles(&[0.5]), &show),
        "x,y,value,weight\n1,2,3,0.5\n"
    );
    let coords = vec![at([1.0, 2.0]), at([3.0, 4.0])];
    assert_eq!(
        write_estimates_csv(&coords, &vec![estimate(5.0, 0.5)], &show),
        "x,y,prediction,variance\n1,2,5,0.5\n"
    );
    let space = vec![[double(1.0), double(2.0), double(3.0)]];
    assert_eq!(
        write_estimates3_csv(&space, &vec![estimate(5.0, 0.5)], &show),
        "x,y,z,prediction,variance\n1,2,3,5,0.5\n"
    );
    let ccdf = CcdfEstimate {
        ccdf: doubles(&[0.25, 0.75]),
        e_type: double(6.0),
        cond_var: double(1.5),
    };
    assert_eq!(
        write_ik_csv(&coords, &vec![ccdf], 2, &show),
        "x,y,F1,F2,e_type,cond_var\n1,2,0.25,0.75,6,1.5\n"
    );
    let cv = CvResult {
        observed: doubles(&[3.0]),
        predicted: doubles(&[2.5]),
        variance: doubles(&[0.25]),
    };
    assert_eq!(
        write_cv_csv(&data, &cv, &show, &ar()),
        "x,y,observed,predicted,variance,residual\n1,2,3,2.5,0.25,-0.5\n"
    );
    let grid = Grid2D::from_bbox(at([0.0, 0.0]), at([1.0, 1.0]), 1, 1, &ar()).unwrap();
    let sims = vec![doubles(&[1.0]), doubles(&[2.0])];
    assert_eq!(write_sims_csv(&grid, &sims, &show, &ar()), "x,y,sim1,sim2\n0.5,0.5,1,2\n");
    assert_eq!(write_sims_csv(&grid, &vec![], &show, &ar()), "x,y,\n0.5,0.5,\n");
}
