use geo::{ConvexHull, Intersects, MultiPoint, Point};
use investments::frontier::{point_source, recover_splits};
use investments::ieee::Binary64;

fn b(x: f64) -> Binary64 {
    Binary64::from_bits(x.to_bits())
}

fn v(xs: &[f64]) -> Vec<Binary64> {
    xs.iter().map(|x| b(*x)).collect()
}

#[test]
fn vertices_map_back_to_their_splits() {
    let xs = v(&[0.1, 0.2, 0.3, 0.2]);
    let ys = v(&[1.0, 2.0, 1.5, 0.5]);
    let splits = vec![vec![10, 0], vec![7, 3], vec![5, 5], vec![0, 10]];
    let hx = v(&[0.3, 0.1, 0.2, 0.3]);
    let hy = v(&[1.5, 1.0, 0.5, 1.5]);
    let r = recover_splits(&xs, &ys, &splits, &hx, &hy);
    assert_eq!(r, vec![vec![5, 5], vec![10, 0], vec![0, 10], vec![5, 5]]);
}

#[test]
fn unknown_vertex_is_skipped() {
    let xs = v(&[0.1, 0.2]);
    let ys = v(&[1.0, 2.0]);
    let splits = vec![vec![1, 0], vec![0, 1]];
    let hx = v(&[0.15, 0.2]);
    let hy = v(&[1.5, 2.0]);
    assert_eq!(recover_splits(&xs, &ys, &splits, &hx, &hy), vec![vec![0, 1]]);
    assert_eq!(point_source(&xs, &ys, b(0.15), b(1.5)), None);
}

#[test]
fn repeated_point_takes_the_last_source() {
    let xs = v(&[0.1, 0.1, 0.4]);
    let ys = v(&[1.0, 1.0, 2.0]);
    assert_eq!(point_source(&xs, &ys, b(0.1), b(1.0)), Some(1));
}

#[test]
fn zeros_and_nans_match_as_keys() {
    let xs = v(&[0.0, f64::NAN]);
    let ys = v(&[1.0, 2.0]);
    assert_eq!(point_source(&xs, &ys, b(-0.0), b(1.0)), Some(0));
    assert_eq!(point_source(&xs, &ys, b(-f64::NAN), b(2.0)), Some(1));
}

#[test]
fn hull_of_a_cloud_is_recovered_whole() {
    let mut xs = Vec::new();
    let mut ys = Vec::new();
    let mut splits = Vec::new();
    for k in 0..=20u64 {
        let w = k as f64 / 20.0;
        xs.push(((w * 0.3).powi(2) + ((1.0 - w) * 0.1).powi(2)).sqrt());
        ys.push(0.02 * w + 0.01 * (1.0 - w));
        splits.push(vec![k, 20 - k]);
    }
    let points: Vec<Point<f64>> = xs.iter().zip(&ys).map(|(x, y)| Point::new(*x, *y)).collect();
    let hull = MultiPoint::new(points.clone()).convex_hull();
    for p in &points {
        assert!(hull.intersects(p));
    }
    let (hx, hy): (Vec<f64>, Vec<f64>) = hull.exterior().points().map(|p| p.x_y()).unzip();
    let r = recover_splits(&v(&xs), &v(&ys), &splits, &v(&hx), &v(&hy));
    assert_eq!(r.len(), hx.len());
    for (i, split) in r.iter().enumerate() {
        let k = split[0] as usize;
        assert_eq!(xs[k], hx[i]);
        assert_eq!(ys[k], hy[i]);
    }
}
