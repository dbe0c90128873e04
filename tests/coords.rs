use ucsf_nmr::coords;

#[test]
fn multi_dim_position() {
    let f = ucsf_nmr::multi_dim_position;
    assert_eq!(f(&[3, 3], &[1, 0]), 3);
    assert_eq!(f(&[3, 3], &[1, 1]), 4);
    assert_eq!(f(&[3, 3], &[1, 2]), 5);
    assert_eq!(f(&[3, 3], &[2, 0]), 6);

    assert_eq!(f(&[4, 3, 3], &[2, 0, 0]), 18);
    assert_eq!(f(&[4, 3, 3], &[3, 2, 1]), 34);
}

#[test]
fn multi_dim_index() {
    let f = ucsf_nmr::multi_dim_index;

    assert_eq!(f(&[4, 3, 3], 18), vec![2, 0, 0]);
    assert_eq!(f(&[4, 3, 3], 34), vec![3, 2, 1]);

    assert_eq!(f(&[4, 3, 2], 18), vec![3, 0, 0]);
    assert_eq!(f(&[4, 3, 2], 19), vec![3, 0, 1]);
    assert_eq!(f(&[4, 3, 2], 20), vec![3, 1, 0]);
    assert_eq!(f(&[4, 3, 2], 21), vec![3, 1, 1]);
}

#[test]
fn position_and_index_invert_each_other() {
    let sizes = [2usize, 3, 4, 5];
    let total: usize = sizes.iter().product();
    for pos in 0..total {
        let cell = coords::multi_dim_index(&sizes, pos);
        assert_eq!(cell.len(), 4);
        for d in 0..4 {
            assert!(cell[d] < sizes[d]);
        }
        assert_eq!(coords::multi_dim_position(&sizes, &cell), pos);
    }
}

#[test]
fn four_and_five_dimensions() {
    assert_eq!(coords::multi_dim_position(&[2, 3, 4, 5], &[1, 2, 3, 4]), 119);
    assert_eq!(coords::multi_dim_index(&[2, 3, 4, 5], 119), vec![1, 2, 3, 4]);
    assert_eq!(coords::multi_dim_position(&[2, 2, 2, 2, 2], &[1, 0, 1, 0, 1]), 21);
    assert_eq!(coords::multi_dim_index(&[2, 2, 2, 2, 2], 21), vec![1, 0, 1, 0, 1]);
}

#[test]
fn one_and_zero_dimensions() {
    assert_eq!(coords::multi_dim_position(&[7], &[5]), 5);
    assert_eq!(coords::multi_dim_index(&[7], 5), vec![5]);
    assert_eq!(coords::multi_dim_position(&[], &[]), 0);
    assert_eq!(coords::multi_dim_index(&[], 0), Vec::<usize>::new());
}

#[test]
fn index_past_the_grid_overflows_into_first_axis() {
    assert_eq!(coords::multi_dim_index(&[2, 3], 7), vec![2, 1]);
}

#[test]
fn position_accepts_indices_past_their_extent() {
    assert_eq!(coords::multi_dim_position(&[3, 3], &[0, 5]), 5);
    assert_eq!(coords::multi_dim_position(&[3, 3], &[4, 1]), 13);
    assert_eq!(coords::multi_dim_position(&[2, 0, 4], &[1, 7, 3]), 31);
}

#[test]
fn index_ignores_the_first_extent() {
    assert_eq!(coords::multi_dim_index(&[0, 3], 7), vec![2, 1]);
    assert_eq!(coords::multi_dim_index(&[1, 4, 5], 47), vec![2, 1, 2]);
}
