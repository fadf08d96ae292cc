use geostat::error::GeostatError;
use geostat::parallel::{n_chunks, par_map, par_try_map};
#[test]
fn results_come_in_index_order() {
    assert_eq!(par_map(1000, |i| i * i), (0..1000).map(|i| i * i).collect::<Vec<_>>());
    assert_eq!(par_map(0, |i| i), Vec::<usize>::new());
    assert_eq!(n_chunks(), 256);
}

#[test]
fn one_failure_fails_the_whole() {
    let all = par_try_map(10, |i| Ok::<usize, GeostatError>(i + 1));
    assert_eq!(all, Ok((1..11).collect()));
    let one = par_try_map(10, |i| {
        if i == 7 {
            Err(GeostatError::DuplicatePoints(i, i))
        } else {
            Ok(i)
        }
    });
    assert_eq!(one, Err(GeostatError::DuplicatePoints(7, 7)));
}
