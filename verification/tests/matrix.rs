use raytrace::matrix::Matrix4;

fn row(a: f32, b: f32, c: f32, d: f32) -> [u32; 4] {
    [a.to_bits(), b.to_bits(), c.to_bits(), d.to_bits()]
}

#[test]
fn build_and_inspect_a_4_matrix() {
    let matrix = Matrix4::new([
        row(1., 2., 3., 4.),
        row(5.5, 6.5, 7.5, 8.5),
        row(9., 10., 11., 12.),
        row(13.5, 14.5, 15.5, 16.5),
    ]);

    let tests = vec![
        (0, 0, 1.),
        (0, 3, 4.),
        (1, 0, 5.5),
        (1, 2, 7.5),
        (2, 2, 11.),
        (3, 0, 13.5),
        (3, 2, 15.5),
    ];

    for (x, y, result) in tests {
        assert_eq!(f32::from_bits(matrix.get(x, y)), result);
    }
}

#[test]
fn matrix_keeps_the_grid_it_was_made_of() {
    let grid = [row(0., 1., 2., 3.), row(4., 5., 6., 7.), row(8., 9., 10., 11.), row(12., 13., 14., 15.)];
    let matrix = Matrix4::new(grid);
    assert_eq!(matrix.matrix, grid);
    for x in 0..4 {
        for y in 0..4 {
            assert_eq!(f32::from_bits(matrix.get(x, y)), (4 * x + y) as f32);
        }
    }
}
