use fpcs::aux_types::{pick_place, Neighborhood, NodeId};
use fpcs::constants::{BETA_DENOMINATOR, BETA_NUMERATOR, K, L, RANDOM_SPAN};
use fpcs::threshold::{round_random, threshold};

#[test]
fn constants_have_their_documented_values() {
    assert_eq!(K, 5);
    assert_eq!(L, 5);
    assert_eq!(BETA_NUMERATOR, 1);
    assert_eq!(BETA_DENOMINATOR, 10);
    assert_eq!(RANDOM_SPAN, 1u64 << 32);
    assert!(K >= 1 && L >= 1);
    assert!(0 < BETA_NUMERATOR && 2 * BETA_NUMERATOR < BETA_DENOMINATOR);
}

#[test]
fn round_random_squeezes_the_draw_into_the_middle() {
    assert_eq!(round_random(0), 429_496_729);
    assert_eq!(round_random(1), 429_496_730);
    assert_eq!(round_random(1000), 429_497_529);
    assert_eq!(round_random(0x8000_0000), 2_147_483_648);
    assert_eq!(round_random(u32::MAX), 3_865_470_565);
}

#[test]
fn round_random_stays_in_range() {
    let mut draw: u64 = 0;
    while draw <= u32::MAX as u64 {
        let r = round_random(draw as u32) as u64;
        assert!(10 * (r + 1) > RANDOM_SPAN);
        assert!(10 * r < 9 * RANDOM_SPAN);
        draw += 7_919_123;
    }
}

#[test]
fn threshold_is_the_floor_of_the_scaled_product() {
    assert_eq!(threshold(0x8000_0000, 5), 2);
    assert_eq!(threshold(0x8000_0000, 2), 1);
    assert_eq!(threshold(0x7fff_ffff, 2), 0);
    assert_eq!(threshold(429_496_729, 5), 0);
    assert_eq!(threshold(3_865_470_565, 5), 4);
    assert_eq!(threshold(u32::MAX, 7), 6);
    assert_eq!(threshold(u32::MAX, 1), 0);
    assert_eq!(threshold(12345, 0), 0);
    assert_eq!(threshold(0, 9), 0);
}

#[test]
fn threshold_stays_below_the_upper_end_of_its_range() {
    let mut draw: u64 = 0;
    while draw <= u32::MAX as u64 {
        let r = round_random(draw as u32);
        for q in 1..=40usize {
            let t = threshold(r, q);
            assert!(10 * t < 9 * q);
            assert!(t < q);
            // The lower end is reached wherever the product reaches the
            // whole number at or above a tenth of the queries.
            let least = (q as u128 + 9) / 10;
            if (r as u128) * (q as u128) >= (1u128 << 32) * least {
                assert!(10 * t >= q);
            }
        }
        draw += 104_729_111;
    }
}

#[test]
fn threshold_falls_short_of_the_lower_end_when_rounded_down() {
    // A tenth of five queries is a half; the floor of 0.5000000002 is zero.
    assert_eq!(threshold(429_496_730, 5), 0);
}

#[test]
fn pick_place_scales_the_draw() {
    assert_eq!(pick_place(0, 10), 0);
    assert_eq!(pick_place(u64::MAX, 10), 9);
    assert_eq!(pick_place(1u64 << 63, 10), 5);
    assert_eq!(pick_place(1u64 << 63, 3), 1);
    assert_eq!(pick_place(u64::MAX, 1), 0);
    assert_eq!(pick_place((1u64 << 62) - 1, 4), 0);
    assert_eq!(pick_place(1u64 << 62, 4), 1);
}

#[test]
fn sample_with_follows_the_draws() {
    let nodes: Vec<NodeId> = (1..=5).map(NodeId).collect();
    let neighborhood = Neighborhood::set_new(&nodes);
    let sample = neighborhood.sample_with(2, &vec![u64::MAX, 0]);
    assert_eq!(sample, vec![NodeId(5), NodeId(2)]);
    let sample = neighborhood.sample_with(3, &vec![0, 0, 0]);
    assert_eq!(sample, vec![NodeId(1), NodeId(2), NodeId(3)]);
    let sample = neighborhood.sample_with(3, &vec![1u64 << 63, u64::MAX, 1u64 << 63]);
    // step 0: places 0 and 2 change over; step 1: places 1 and 4; step 2: places 2 and 3.
    assert_eq!(sample, vec![NodeId(3), NodeId(5), NodeId(4)]);
}

#[test]
fn sample_with_returns_everything_when_asked_for_more() {
    let nodes: Vec<NodeId> = (1..=4).map(NodeId).collect();
    let neighborhood = Neighborhood::set_new(&nodes);
    assert_eq!(neighborhood.sample_with(4, &vec![]), nodes);
    assert_eq!(neighborhood.sample_with(9, &vec![]), nodes);
    assert_eq!(neighborhood.sample_with(0, &vec![]), vec![]);
}

#[test]
fn sample_draws_distinct_neighbours() {
    let nodes: Vec<NodeId> = (0..19).map(NodeId).collect();
    let neighborhood = Neighborhood::set_new(&nodes);
    for _ in 0..200 {
        let sample = neighborhood.sample(5);
        assert_eq!(sample.len(), 5);
        for (i, a) in sample.iter().enumerate() {
            assert!(nodes.contains(a));
            for b in &sample[i + 1..] {
                assert_ne!(a, b);
            }
        }
    }
    assert_eq!(neighborhood.sample(19), nodes);
    assert_eq!(neighborhood.sample(50), nodes);
    assert!(neighborhood.sample(0).is_empty());
}

#[test]
fn sample_reaches_every_neighbour() {
    let nodes: Vec<NodeId> = (0..6).map(NodeId).collect();
    let neighborhood = Neighborhood::set_new(&nodes);
    let mut seen = vec![false; 6];
    for _ in 0..400 {
        for node in neighborhood.sample(2) {
            seen[node.0 as usize] = true;
        }
    }
    assert!(seen.iter().all(|s| *s));
}
