use spatial_decomposition::{
    Error, KongMountRoscoeValues, Decomposition, Rat, Rectangle, kmr_decompose, kmr_digitize_1,
    kmr_digitize_1_single,
};

fn rect(x0: i64, y0: i64, x1: i64, y1: i64) -> Rectangle {
    Rectangle {
        min: [Rat::from_int(x0), Rat::from_int(y0)],
        max: [Rat::from_int(x1), Rat::from_int(y1)],
    }
}

#[test]
fn kmr_digitize_square_2x2_in_4() {
    let domain = rect(0, 0, 100, 100);
    let digits: Vec<(usize, Rectangle)> = kmr_decompose(&domain, 16)
        .unwrap()
        .into_iter()
        .enumerate()
        .collect();
    let sorted = kmr_digitize_1(&domain, 4, digits).unwrap();
    for (_, voxels) in sorted.iter() {
        assert_eq!(voxels.len(), 4);
    }
}

#[test]
fn digitize_single_picks_first_containing_subdomain() {
    let domain = rect(0, 0, 100, 100);
    let subdomains = kmr_decompose(&domain, 4).unwrap();
    // The centroid of this digit lies in the quadrant holding (30, 80).
    let digit = rect(25, 75, 35, 85);
    let index = kmr_digitize_1_single(&subdomains, &digit).unwrap();
    assert!(subdomains[index].min[0].le(&Rat::from_int(30)));
    assert!(Rat::from_int(30).le(&subdomains[index].max[0]));
    assert!(subdomains[index].min[1].le(&Rat::from_int(80)));
    assert!(Rat::from_int(80).le(&subdomains[index].max[1]));
}

#[test]
fn digitize_single_outside_domain_is_indexing_error() {
    let domain = rect(0, 0, 10, 10);
    let subdomains = kmr_decompose(&domain, 1).unwrap();
    let digit = rect(20, 20, 30, 30);
    assert_eq!(kmr_digitize_1_single(&subdomains, &digit), Err(Error::Indexing));
}

#[test]
fn digitize_with_stray_digit_is_indexing_error() {
    let domain = rect(0, 0, 10, 10);
    let digits = vec![(0usize, rect(1, 1, 2, 2)), (1usize, rect(20, 20, 30, 30))];
    assert_eq!(kmr_digitize_1(&domain, 1, digits), Err(Error::Indexing));
}

#[test]
fn digitize_keeps_input_order_within_buckets() {
    let domain = rect(0, 0, 10, 10);
    let digits = vec![
        (7usize, rect(1, 1, 2, 2)),
        (3usize, rect(4, 4, 5, 5)),
        (9usize, rect(6, 6, 7, 7)),
    ];
    let sorted = kmr_digitize_1(&domain, 1, digits).unwrap();
    assert_eq!(sorted.len(), 1);
    let ids: Vec<usize> = sorted[0].1.iter().map(|(id, _)| *id).collect();
    assert_eq!(ids, vec![7, 3, 9]);
}

#[test]
fn solver_values_for_5x3_in_7() {
    // Height 3, width 5, seven subdomains: the row bracket is [2, 3], the
    // column bracket is [3, 4], C = 5/4 (from the 3 x 4 probe) and
    // S = 5/3 (from the 1 x 3 probe).
    let values = KongMountRoscoeValues::calculate(Rat::from_int(3), Rat::from_int(5), 7);
    assert_eq!(values.h1, 2);
    assert_eq!(values.h2, 3);
    assert_eq!(values.k1, 3);
    assert_eq!(values.k2, 4);
    assert!(values.C.eq_val(&Rat::new(5, 4)));
    assert!(values.S.eq_val(&Rat::new(5, 3)));
    // The selector picks a row split at the lower bracket end.
    assert_eq!(Decomposition::figure_out(&values), Some(Decomposition::Row(2)));
}

#[test]
fn solver_c_is_the_plain_pair_minimum() {
    // A 100 x 100 square with count 2 admits only the pair (1, 1), whose
    // candidate is the full side length: C is 100, not bounded by the
    // count.
    let values = KongMountRoscoeValues::calculate(Rat::from_int(100), Rat::from_int(100), 2);
    assert_eq!(values.h1, 1);
    assert_eq!(values.h2, 2);
    assert_eq!(values.k1, 1);
    assert_eq!(values.k2, 2);
    assert!(values.C.eq_val(&Rat::from_int(100)));
    assert!(values.S.eq_val(&Rat::from_int(100)));
    // Every candidate exceeds both halved cell dimensions, so no selector
    // rule applies.
    assert_eq!(Decomposition::figure_out(&values), None);
}
