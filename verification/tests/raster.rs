use geostat::raster::{
    assemble, check_datatype, decode_png_u16, encode_raster, plan_raster, read_frame, tiles_sql,
    PixelMap, PngFrame, RasterGrid, Tile, TileMatrix,
};
use geostat::arith::{Arithmetic, Op};
use geostat::double::Double;

fn double(x: f64) -> Double {
    Double::from_bits(x.to_bits())
}

fn float(v: Double) -> f64 {
    f64::from_bits(v.bits)
}

type Calc = Arithmetic<fn(Op, Double, Double) -> Double>;

fn apply(op: Op, a: Double, b: Double) -> Double {
    let (x, y) = (float(a), float(b));
    double(match op {
        Op::Plus => x + y,
        Op::Minus => x - y,
        Op::Times => x * y,
        Op::Over => x / y,
        Op::Power => x.powf(y),
        Op::Root => x.sqrt(),
        Op::Exp => x.exp(),
        Op::Ln => x.ln(),
        Op::Sin => x.sin(),
        Op::Cos => x.cos(),
        Op::Sinh => x.sinh(),
        Op::Cosh => x.cosh(),
        Op::Asinh => x.asinh(),
    })
}

fn ar() -> Calc {
    Arithmetic::new(apply as fn(Op, Double, Double) -> Double)
}

fn doubles(xs: &[f64]) -> Vec<Double> {
    xs.iter().map(|x| double(*x)).collect()
}

fn floats(vs: &[Double]) -> Vec<f64> {
    vs.iter().map(|v| float(*v)).collect()
}

#[test]
fn encode_raster_reconstructs_values() {
    let nx = 2;
    let ny = 3;
    let values = [1.0, 2.0, 3.0, 4.0, f64::NAN, 6.0];
    let enc = encode_raster(nx, ny, &doubles(&values), &ar()).unwrap();
    assert_eq!(float(enc.min), 1.0);
    assert_eq!(float(enc.max), 6.0);
    let dec = png::Decoder::new(std::io::Cursor::new(&enc.png));
    let mut reader = dec.read_info().unwrap();
    let mut buf = vec![0u8; reader.output_buffer_size()];
    let info = reader.next_frame(&mut buf).unwrap();
    assert_eq!((info.width, info.height), (nx as u32, ny as u32));
    let pixel = |r: usize, c: usize| -> u16 {
        let i = (r * nx + c) * 2;
        u16::from_be_bytes([buf[i], buf[i + 1]])
    };
    for r in 0..ny {
        let iy = ny - 1 - r;
        for c in 0..nx {
            let v = values[iy * nx + c];
            let px = pixel(r, c);
            if v.is_finite() {
                let recon = px as f64 * float(enc.scale) + float(enc.offset);
                assert!((recon - v).abs() <= float(enc.scale), "{v} -> {recon}");
            } else {
                assert_eq!(px, 0, "NaN must map to nodata pixel 0");
            }
        }
    }
}

#[test]
fn statistics_cover_the_finite_values() {
    let enc = encode_raster(3, 1, &doubles(&[1.0, f64::INFINITY, 3.0]), &ar()).unwrap();
    assert_eq!(float(enc.mean), 2.0);
    assert_eq!(float(enc.std_dev), 1.0);
    assert_eq!(float(enc.scale), 2.0 / 65534.0);
    assert_eq!(float(enc.offset), 1.0 - 2.0 / 65534.0);
    let err = encode_raster(1, 1, &doubles(&[f64::NAN]), &ar()).unwrap_err();
    assert_eq!(err, "raster has no finite values");
}

fn written(values: &[f64], nx: usize, ny: usize, bbox: [f64; 4]) -> (RasterGrid, f64) {
    let corners = bbox.map(double);
    let plan = plan_raster("dem", 32719, nx, ny, corners, &doubles(values), &ar()).unwrap();
    let step = float(plan.encoding.scale);
    let map = PixelMap {
        scale: plan.encoding.scale,
        offset: plan.encoding.offset,
        null: double(0.0),
    };
    let tiles = vec![Tile { column: 0, row: 0, png: plan.encoding.png }];
    let matrix = TileMatrix { columns: 1, rows: 1, width: nx, height: ny };
    let values = assemble(&tiles, matrix, map, &ar()).unwrap();
    let name = "dem".to_string();
    (RasterGrid { name, srs_id: 32719, nx, ny, bbox: corners, values }, step)
}

#[test]
fn written_rasters_read_back() {
    let (nx, ny) = (5, 4);
    let mut values: Vec<f64> = (0..nx * ny).map(|i| 2.0 + 0.5 * i as f64).collect();
    values[7] = f64::NAN;
    let bbox = [100.0, 200.0, 150.0, 240.0];
    let (g, step) = written(&values, nx, ny, bbox);
    for (i, v) in values.iter().enumerate() {
        if v.is_finite() {
            assert!((float(g.values[i]) - v).abs() <= step + 1e-9, "cell {i}");
        } else {
            assert!(float(g.values[i]).is_nan(), "cell {i} should be NaN");
        }
    }
    let px = (bbox[2] - bbox[0]) / nx as f64;
    let py = (bbox[3] - bbox[1]) / ny as f64;
    let sample = |x: f64, y: f64| g.sample(double(x), double(y), &ar());
    let inside = sample(bbox[0] + 0.5 * px, bbox[1] + 0.5 * py).unwrap();
    assert_eq!(inside, g.values[0]);
    assert!(sample(bbox[0] - 1.0, bbox[1]).is_none());
    assert!(sample(bbox[0] + 2.5 * px, bbox[1] + 1.5 * py).is_none());
    assert_eq!(sample(bbox[2], bbox[3]).unwrap(), g.values[nx * ny - 1]);
}

#[test]
fn raster_plans_name_their_table() {
    let values = doubles(&[1.0, 2.0]);
    let bbox = [0.0, 0.0, 4.0, 3.0].map(double);
    let plan = plan_raster("a\"b", 4326, 2, 1, bbox, &values, &ar()).unwrap();
    assert_eq!(floats(&plan.pixel), vec![2.0, 3.0]);
    assert!(plan.create.starts_with("CREATE TABLE \"a\"\"b\" (id INTEGER PRIMARY KEY"));
    assert_eq!(plan.select_id, "SELECT id FROM \"a\"\"b\" WHERE zoom_level=0");
    let err = plan_raster("k", 4326, 2, 2, bbox, &values, &ar()).unwrap_err();
    assert_eq!(err, "2 values for an 2x2 grid");
}

#[test]
fn tiles_are_put_side_by_side() {
    let tile = |v: f64| encode_raster(1, 1, &doubles(&[v]), &ar()).unwrap().png;
    let tiles = vec![
        Tile { column: 0, row: 0, png: tile(1.0) },
        Tile { column: 1, row: 1, png: tile(1.0) },
        Tile { column: 9, row: 9, png: tile(1.0) },
    ];
    let matrix = TileMatrix { columns: 2, rows: 2, width: 1, height: 1 };
    let map = PixelMap { scale: double(2.0), offset: double(0.5), null: double(0.0) };
    let values = floats(&assemble(&tiles, matrix, map, &ar()).unwrap());
    assert_eq!(values[1], 2.5);
    assert_eq!(values[2], 2.5);
    assert!(values[0].is_nan() && values[3].is_nan());
    let null = PixelMap { scale: double(2.0), offset: double(0.5), null: double(1.0) };
    let values = floats(&assemble(&tiles, matrix, null, &ar()).unwrap());
    assert!(values.iter().all(|v| v.is_nan()));
}

#[test]
fn tiles_are_held_to_their_declared_form() {
    let png = encode_raster(2, 1, &doubles(&[0.0, 1.0]), &ar()).unwrap().png;
    assert_eq!(decode_png_u16(&png, 2, 1).unwrap(), vec![1, 65535]);
    assert_eq!(
        decode_png_u16(&png, 3, 1).unwrap_err(),
        "tile is 2x1 but the tile matrix declares 3x1"
    );
    assert!(decode_png_u16(b"no png", 1, 1).unwrap_err().starts_with("PNG header: "));
    let frame = PngFrame {
        width: 1,
        height: 1,
        depth: "Eight".to_string(),
        color: "Rgb".to_string(),
        bytes: vec![0, 0, 0],
    };
    assert_eq!(
        read_frame(&frame, 1, 1).unwrap_err(),
        "tile is Eight/Rgb; expected 16-bit grayscale"
    );
}

#[test]
fn coverages_other_than_png_are_refused() {
    assert!(check_datatype("dem", "integer").is_ok());
    assert_eq!(
        check_datatype("dem", "float").unwrap_err(),
        "coverage 'dem' has datatype 'float'; only 'integer' (PNG) is supported"
    );
    assert_eq!(
        tiles_sql("dem"),
        "SELECT tile_column, tile_row, tile_data FROM \"dem\" WHERE zoom_level = ?1"
    );
}

#[test]
fn finite_values_have_a_pixel_where_their_extent_overflows() {
    let enc = encode_raster(3, 1, &doubles(&[-1e308, 1e308, f64::NAN]), &ar()).unwrap();
    assert_eq!(decode_png_u16(&enc.png, 3, 1).unwrap(), vec![1, 65535, 0]);
}
