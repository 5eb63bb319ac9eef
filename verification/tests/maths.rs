use scr_to_svg::rotations::rotate_2d_matrix;

#[test]
fn rotation_3x3() {
    {
        let mut a: Vec<Vec<i8>> = vec![vec![1, 2, 3], vec![4, 5, 6], vec![7, 8, 9]];

        rotate_2d_matrix(&mut a, 3, false);
        assert_eq!(a, [[3, 6, 9], [2, 5, 8], [1, 4, 7]]);
    }
    {
        let mut a: Vec<Vec<i8>> = vec![vec![1, 2, 3], vec![4, 5, 6], vec![7, 8, 9]];

        rotate_2d_matrix(&mut a, 3, true);
        assert_eq!(a, [[7, 4, 1], [8, 5, 2], [9, 6, 3]]);
    }
}

#[test]
fn rotation_2x2() {
    {
        let mut a: Vec<Vec<i8>> = vec![vec![1, 2], vec![3, 4]];

        rotate_2d_matrix(&mut a, 2, false);
        assert_eq!(a, [[2, 4], [1, 3]]);
    }
    {
        let mut a: Vec<Vec<i8>> = vec![vec![1, 2], vec![3, 4]];

        rotate_2d_matrix(&mut a, 2, true);
        assert_eq!(a, [[3, 1], [4, 2]]);
    }
}

#[test]
fn rotation_4x4() {
    {
        let mut a: Vec<Vec<i8>> = vec![
            vec![1, 2, 3, 4],
            vec![5, 6, 7, 8],
            vec![9, 10, 11, 12],
            vec![13, 14, 15, 16],
        ];

        rotate_2d_matrix(&mut a, 4, false);
        assert_eq!(
            a,
            [
                [4, 8, 12, 16],
                [3, 7, 11, 15],
                [2, 6, 10, 14],
                [1, 5, 9, 13]
            ],
        );
    }
    {
        let mut a: Vec<Vec<i8>> = vec![
            vec![1, 2, 3, 4],
            vec![5, 6, 7, 8],
            vec![9, 10, 11, 12],
            vec![13, 14, 15, 16],
        ];

        rotate_2d_matrix(&mut a, 4, true);
        assert_eq!(
            a,
            [
                [13, 9, 5, 1],
                [14, 10, 6, 2],
                [15, 11, 7, 3],
                [16, 12, 8, 4]
            ],
        );
    }
}

#[test]
fn rotation_5x5() {
    {
        let mut a: Vec<Vec<i8>> = vec![
            vec![1, 2, 3, 4, 5],
            vec![6, 7, 8, 9, 10],
            vec![11, 12, 13, 14, 15],
            vec![16, 17, 18, 19, 20],
            vec![21, 22, 23, 24, 25],
        ];

        rotate_2d_matrix(&mut a, 5, false);
        assert_eq!(
            a,
            [
                [5, 10, 15, 20, 25],
                [4, 9, 14, 19, 24],
                [3, 8, 13, 18, 23],
                [2, 7, 12, 17, 22],
                [1, 6, 11, 16, 21]
            ],
        );
    }
    {
        let mut a: Vec<Vec<i8>> = vec![
            vec![1, 2, 3, 4, 5],
            vec![6, 7, 8, 9, 10],
            vec![11, 12, 13, 14, 15],
            vec![16, 17, 18, 19, 20],
            vec![21, 22, 23, 24, 25],
        ];

        rotate_2d_matrix(&mut a, 5, true);
        assert_eq!(
            a,
            [
                [21, 16, 11, 6, 1],
                [22, 17, 12, 7, 2],
                [23, 18, 13, 8, 3],
                [24, 19, 14, 9, 4],
                [25, 20, 15, 10, 5]
            ],
        );
    }
}
