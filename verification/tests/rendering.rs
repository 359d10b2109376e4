use mandelbrot::grid::Grid;
use mandelbrot::raster::render;
use mandelbrot::shade::Shade;
use num::complex::Complex;

type ComplexDouble = Complex<f64>;

fn diverged(z: ComplexDouble) -> bool {
    z.norm() > 2.
}

fn step(z: ComplexDouble, c: ComplexDouble) -> ComplexDouble {
    z.powi(2) + c
}

fn shade_of_count(count: u32, budget: u32) -> Shade {
    if count == budget {
        Shade::InSet
    } else {
        Shade::Band { count, budget }
    }
}

#[test]
fn render_over_integers() {
    // The point of a pixel is its number; the recurrence adds the point.
    let grid = Grid::new(3, 2);
    let locate = |col: u32, row: u32| (row * 3 + col) as u64;
    let out = |z: u64| z > 6;
    let next = |z: u64, c: u64| z + c;
    let image = render(&grid, 4, &locate, 0u64, &out, &next);
    assert_eq!(
        image,
        vec![
            (0, Shade::InSet),
            (1, Shade::InSet),
            (2, Shade::InSet),
            (3, Shade::Band { count: 3, budget: 4 }),
            (4, Shade::Band { count: 2, budget: 4 }),
            (5, Shade::Band { count: 2, budget: 4 }),
        ]
    );
}

#[test]
fn render_of_an_empty_grid() {
    let locate = |col: u32, row: u32| ComplexDouble::new(col as f64, row as f64);
    let seed = ComplexDouble::new(0.0, 0.0);
    assert!(render(&Grid::new(0, 0), 100, &locate, seed, &diverged, &step).is_empty());
    assert!(render(&Grid::new(0, 5), 100, &locate, seed, &diverged, &step).is_empty());
    assert!(render(&Grid::new(5, 0), 100, &locate, seed, &diverged, &step).is_empty());
}

#[test]
fn render_with_no_budget_is_all_in_set() {
    let locate = |col: u32, row: u32| ComplexDouble::new(col as f64, row as f64);
    let seed = ComplexDouble::new(0.0, 0.0);
    let image = render(&Grid::new(4, 4), 0, &locate, seed, &diverged, &step);
    assert_eq!(image.len(), 16);
    assert!(image.iter().all(|(_, shade)| *shade == Shade::InSet));
}

#[test]
fn render_of_a_coarse_raster() {
    let grid = Grid::new(6, 4);
    let (real, imag) = (-2.1f64..0.6f64, -1.2f64..1.2f64);
    let pitch = ((real.end - real.start) / 6.0, (imag.end - imag.start) / 4.0);
    let locate = |col: u32, row: u32| {
        ComplexDouble::new(
            real.start + pitch.0 * col as f64,
            imag.start + pitch.1 * row as f64,
        )
    };
    let image = render(&grid, 100, &locate, ComplexDouble::new(0.0, 0.0), &diverged, &step);
    let counts = [
        1, 1, 2, 3, 3, 2,
        1, 3, 3, 6, 100, 20,
        1, 100, 100, 100, 100, 100,
        1, 3, 3, 6, 100, 20,
    ];
    assert_eq!(image.len(), counts.len());
    for (k, (point, shade)) in image.iter().enumerate() {
        let (col, row) = grid.cell(k as u64).unwrap();
        assert_eq!(*point, locate(col, row));
        assert_eq!(*shade, shade_of_count(counts[k], 100));
    }
    assert_eq!(image[0].0, ComplexDouble::new(-2.1, -1.2));
    assert_eq!(image[14].0, ComplexDouble::new(-2.1 + 0.45 * 2.0, 0.0));
}

#[test]
fn render_is_repeatable() {
    let grid = Grid::new(40, 30);
    let locate = |col: u32, row: u32| {
        ComplexDouble::new(-2.1 + 0.0675 * col as f64, -1.2 + 0.08 * row as f64)
    };
    let seed = ComplexDouble::new(0.0, 0.0);
    let first = render(&grid, 50, &locate, seed, &diverged, &step);
    let second = render(&grid, 50, &locate, seed, &diverged, &step);
    assert_eq!(first, second);
}

#[test]
fn full_render_paints_every_pixel_once() {
    const WIDTH: u32 = 1600;
    const HEIGHT: u32 = 1200;
    const NUM_CONVERGE: u32 = 100;
    let grid = Grid::new(WIDTH, HEIGHT);
    let (real, imag) = (-2.1f64..0.6f64, -1.2f64..1.2f64);
    let pitch = (
        (real.end - real.start) / WIDTH as f64,
        (imag.end - imag.start) / HEIGHT as f64,
    );
    let locate = |col: u32, row: u32| {
        ComplexDouble::new(
            real.start + pitch.0 * col as f64,
            imag.start + pitch.1 * row as f64,
        )
    };
    let image = render(
        &grid,
        NUM_CONVERGE,
        &locate,
        ComplexDouble::new(0.0, 0.0),
        &diverged,
        &step,
    );

    // One assignment for each pixel, none skipped and none made twice.
    assert_eq!(image.len(), 1_920_000);
    let mut painted = vec![0u8; image.len()];
    for (k, (point, shade)) in image.iter().enumerate() {
        let (col, row) = grid.cell(k as u64).unwrap();
        assert_eq!(*point, locate(col, row));
        painted[grid.index(col, row).unwrap() as usize] += 1;
        match shade {
            Shade::InSet => {}
            Shade::Band { count, budget } => {
                assert!(*count < *budget);
                assert_eq!(*budget, NUM_CONVERGE);
            }
        }
    }
    assert!(painted.iter().all(|n| *n == 1));

    // The in-set pixels: about a quarter of the raster, around (-0.5, 0).
    let in_set: Vec<bool> = image.iter().map(|(_, shade)| *shade == Shade::InSet).collect();
    let total = in_set.iter().filter(|inside| **inside).count();
    assert!(total > image.len() / 5 && total < image.len() / 3);
    let centre = grid.index(948, 600).unwrap() as usize;
    assert!((image[centre].0.re + 0.5).abs() < 0.001 && image[centre].0.im.abs() < 0.001);
    assert!(in_set[centre]);
    let (mut sum_re, mut sum_im) = (0.0f64, 0.0f64);
    for (point, shade) in image.iter() {
        if *shade == Shade::InSet {
            sum_re += point.re;
            sum_im += point.im;
        }
    }
    assert!((sum_re / total as f64 + 0.5).abs() < 0.5);
    assert!((sum_im / total as f64).abs() < 0.05);

    // They hang together: all but a few specks are reached from the centre.
    let mut reached = vec![false; image.len()];
    let mut pending = vec![centre];
    reached[centre] = true;
    let mut connected = 0usize;
    while let Some(k) = pending.pop() {
        connected += 1;
        let (col, row) = grid.cell(k as u64).unwrap();
        let neighbours = [
            (col.wrapping_sub(1), row),
            (col + 1, row),
            (col, row.wrapping_sub(1)),
            (col, row + 1),
        ];
        for (c, r) in neighbours {
            if let Some(j) = grid.index(c, r) {
                let j = j as usize;
                if in_set[j] && !reached[j] {
                    reached[j] = true;
                    pending.push(j);
                }
            }
        }
    }
    assert!(connected * 100 >= total * 99);
}
