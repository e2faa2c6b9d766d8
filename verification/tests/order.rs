use state_visual::order::rank_of;
use state_visual::order::sort_ascending;

fn samples() -> Vec<f32> {
    vec![
        0.0,
        -0.0,
        1.0,
        -1.0,
        1.5,
        -2.25,
        f32::MIN_POSITIVE,
        -f32::MIN_POSITIVE,
        1.0e-45,
        -1.0e-45,
        f32::MAX,
        f32::MIN,
        f32::INFINITY,
        f32::NEG_INFINITY,
        f32::NAN,
        -f32::NAN,
        f32::from_bits(0x7fff_ffff),
        f32::from_bits(0xffff_ffff),
        f32::from_bits(0x7f80_0001),
        3.25e7,
        -7.5e-3,
    ]
}

#[test]
fn rank_orders_as_the_total_order_of_the_values() {
    let values = samples();
    for a in &values {
        for b in &values {
            let by_rank = rank_of(a.to_bits()).cmp(&rank_of(b.to_bits()));
            assert_eq!(by_rank, a.total_cmp(b), "{a:?} against {b:?}");
        }
    }
}

#[test]
fn rank_of_known_patterns() {
    assert_eq!(rank_of(0), 0);
    assert_eq!(rank_of(1.0f32.to_bits()), 0x3f80_0000);
    assert_eq!(rank_of(0x7fff_ffff), 0x7fff_ffff);
    assert_eq!(rank_of(0x8000_0000), -1);
    assert_eq!(rank_of((-1.0f32).to_bits()), -1 - 0x3f80_0000);
    assert_eq!(rank_of(0xffff_ffff), -0x8000_0000);
}

#[test]
fn sorts_as_the_total_order_does() {
    let values = samples();
    let mut expected = values.clone();
    expected.sort_by(|a, b| a.total_cmp(b));
    let expected: Vec<u32> = expected.iter().map(|value| value.to_bits()).collect();
    let cells: Vec<u32> = values.iter().map(|value| value.to_bits()).collect();
    let sorted = sort_ascending(&cells);
    assert_eq!(sorted, expected);
    assert_eq!(sorted[0], 0xffff_ffff);
    assert_eq!(sorted[sorted.len() - 1], 0x7fff_ffff);
}

#[test]
fn sorting_keeps_every_cell_as_often_as_it_came() {
    let cells: Vec<u32> = vec![5, 0x8000_0003, 5, 0, 0x8000_0003, 5, 1];
    assert_eq!(sort_ascending(&cells), vec![0x8000_0003, 0x8000_0003, 0, 1, 5, 5, 5]);
    assert_eq!(sort_ascending(&[9]), vec![9]);
    assert!(sort_ascending(&[]).is_empty());
}
