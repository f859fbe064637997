use approx::RelativeEq;
use fluid_grid::{corner_bit, CoordInt, Grid};

const TOLERANCE: f64 = 1e-10;

fn close(a: f64, b: f64) -> bool {
    a.relative_eq(&b, TOLERANCE, f64::default_max_relative())
}

/// Central difference along `axis` from the grid's stencil values.
fn central_difference(grid: &Grid<f64, f64, 2>, c: &CoordInt<2>, axis: usize) -> f64 {
    (grid.neighbor(c, axis, true) - grid.neighbor(c, axis, false)) / (2.0 * grid.delta())
}

/// Multilinear interpolation from the grid's clamped lower corner and corner values.
fn interpolate(grid: &Grid<f64, f64, 2>, pos: [f64; 2]) -> f64 {
    let delta = *grid.delta();
    let mut lower = CoordInt::<2>::default();
    let mut weights = [0.0; 2];
    for i in 0..2 {
        let coord = (pos[i] / delta).max(0.0).min(grid.size().0[i] as f64 - 1.0);
        lower.0[i] = grid.lower_corner(i, coord.floor() as i64);
        weights[i] = coord - lower.0[i] as f64;
    }
    let mut sum = 0.0;
    for corner in 0..4usize {
        let mut weight = 1.0;
        for j in 0..2 {
            weight *= if corner_bit(corner, j) { weights[j] } else { 1.0 - weights[j] };
        }
        sum += grid.interpolation_corner(&lower, corner) * weight;
    }
    sum
}

fn sampled(m: i32, n: i32, delta: f64, f: impl Fn(f64, f64) -> f64) -> Grid<f64, f64, 2> {
    let mut grid = Grid::new(CoordInt([m, n]), delta);
    for i in 0..m {
        for j in 0..n {
            *grid.get_mut(&CoordInt([i, j])).unwrap() = f(i as f64 * delta, j as f64 * delta);
        }
    }
    grid
}

#[test]
fn linear_field_slope_halves_at_edges() {
    let (m, n) = (5, 8);
    let (h0, px, py) = (0.3, -0.1, 0.4);
    let grid = sampled(m, n, 0.2, |x, y| h0 + px * x + py * y);
    for i in 0..m {
        for j in 0..n {
            let expected_px = if i == 0 || i == m - 1 { px / 2.0 } else { px };
            let expected_py = if j == 0 || j == n - 1 { py / 2.0 } else { py };
            let c = CoordInt([i, j]);
            assert!(close(central_difference(&grid, &c, 0), expected_px));
            assert!(close(central_difference(&grid, &c, 1), expected_py));
        }
    }
}

#[test]
fn linear_vector_field_divergence() {
    let (m, n) = (5, 8);
    let (kxx, kxy, kyx, kyy) = (0.3, -0.1, 0.9, -0.4);
    let gx = sampled(m, n, 0.2, |x, y| kxx * x + kxy * y);
    let gy = sampled(m, n, 0.2, |x, y| kyx * x + kyy * y);
    for i in 0..m {
        for j in 0..n {
            let expected_kxx = if i == 0 || i == m - 1 { kxx / 2.0 } else { kxx };
            let expected_kyy = if j == 0 || j == n - 1 { kyy / 2.0 } else { kyy };
            let c = CoordInt([i, j]);
            let div = central_difference(&gx, &c, 0) + central_difference(&gy, &c, 1);
            assert!(close(div, expected_kxx + expected_kyy));
        }
    }
}

#[test]
fn quadratic_field_laplacian_interior() {
    let (m, n, delta) = (5, 8, 0.2);
    let (a, b) = (0.7, -0.3);
    let grid = sampled(m, n, delta, |x, y| a * x * x * y + b * y * y);
    for i in 1..m - 1 {
        for j in 1..n - 1 {
            let c = CoordInt([i, j]);
            let mut acc = 0.0;
            for axis in 0..2 {
                acc += grid.neighbor(&c, axis, true) + grid.neighbor(&c, axis, false);
            }
            let center = *grid.get(&c).unwrap();
            let laplace = (acc - center * 2.0 * 2.0) / (delta * delta);
            let y = j as f64 * delta;
            assert!(close(laplace, 2.0 * a * y + 2.0 * b));
        }
    }
}

#[test]
fn affine_field_interpolates_exactly_and_clamps() {
    let (a, b) = (0.7, -0.3);
    let f = |x: f64, y: f64| a * x + b * y;
    let grid = sampled(3, 3, 5.0, f);
    for (x, y) in [(0.0, 0.0), (1.3, 3.7), (8.1, 1.6), (5.0, 5.0), (7.9, 6.3)] {
        assert!(close(interpolate(&grid, [x, y]), f(x, y)));
    }
    let outside = [
        ((0.0, -0.1), (0.0, 0.0)),
        ((-0.1, 0.0), (0.0, 0.0)),
        ((0.0, 19.0), (0.0, 10.0)),
        ((19.0, 0.0), (10.0, 0.0)),
        ((19.0, 19.0), (10.0, 10.0)),
    ];
    for ((x, y), (ex, ey)) in outside {
        assert!(close(interpolate(&grid, [x, y]), f(ex, ey)));
    }
}

#[test]
fn backtrace_samples_affine_field() {
    let (a, b) = (0.7, -0.3);
    let (delta, dt) = (0.1, 0.05);
    let v = [0.5, 1.0];
    let grid = sampled(3, 3, delta, |x, y| a * x + b * y);
    let c = CoordInt([1, 1]);
    let pos = [c.0[0] as f64 * delta - dt * v[0], c.0[1] as f64 * delta - dt * v[1]];
    let x = delta - dt * v[0];
    let y = delta - dt * v[1];
    assert!(close(interpolate(&grid, pos), a * x + b * y));
}
