use std::cmp::Ordering;
use std::collections::HashSet;

use bit_vec::BitVec;
use hyperindex::autotune::log2;
use hyperindex::autotune::PlaneSearch;
use hyperindex::autotune::SearchStep;
use hyperindex::binary32::is_nan;
use hyperindex::binary32::is_positive;
use hyperindex::binary32::log2_floor;
use hyperindex::binary32::rank;
use hyperindex::distance::compare;
use hyperindex::hyperindex::Average;
use hyperindex::hyperindex::HyperIndex;
use hyperindex::multiindex::DistanceNode;
use hyperindex::multiindex::MultiIndex;
use hyperindex::ranking::top;
use rand::thread_rng;
use rand::Rng;

const ONE: u32 = 0x3F80_0000;
const MINUS_ONE: u32 = 0xBF80_0000;

fn bits_of(values: &[f32]) -> Vec<u32> {
    values.iter().map(|v| v.to_bits()).collect()
}

fn node(key: usize, distance: f32) -> DistanceNode<usize> {
    DistanceNode { key, distance: distance.to_bits() }
}

fn keys_of(nodes: &Vec<DistanceNode<usize>>) -> Vec<usize> {
    nodes.iter().map(|n| n.key).collect()
}

fn samples() -> Vec<f32> {
    vec![
        0.0,
        -0.0,
        1.0,
        -1.0,
        0.5,
        -0.5,
        f32::MIN_POSITIVE,
        -f32::MIN_POSITIVE,
        f32::from_bits(1),
        f32::from_bits(0x8000_0001),
        f32::MAX,
        f32::MIN,
        f32::INFINITY,
        f32::NEG_INFINITY,
        1.0e-40,
        -1.0e-40,
        3.25,
        1.0e20,
        -1.0e20,
    ]
}

#[test]
fn positive_is_greater_than_zero() {
    for x in samples() {
        assert_eq!(x > 0f32, is_positive(x.to_bits()), "{}", x);
    }
    assert!(!is_positive(f32::NAN.to_bits()));
    assert!(!is_positive(0x7F80_0001));
    assert!(!is_positive(0xFFC0_0000));
    assert!(is_positive(ONE));
    assert!(!is_positive(MINUS_ONE));
    assert!(!is_positive(0));
    assert!(!is_positive(0x8000_0000));
    assert!(is_positive(0x7F80_0000));
}

#[test]
fn positive_agrees_on_random_patterns() {
    let mut rng = thread_rng();
    for _ in 0..100000 {
        let bits: u32 = rng.gen();
        assert_eq!(f32::from_bits(bits) > 0f32, is_positive(bits), "{:#x}", bits);
    }
}

#[test]
fn nan_is_told_apart() {
    for x in samples() {
        assert!(!is_nan(x.to_bits()));
    }
    assert!(is_nan(f32::NAN.to_bits()));
    assert!(is_nan(0x7F80_0001));
    assert!(is_nan(0xFF80_0001));
    assert!(is_nan(0xFFFF_FFFF));
    assert!(!is_nan(0x7F80_0000));
    assert!(!is_nan(0xFF80_0000));
}

#[test]
fn rank_has_exact_values() {
    assert_eq!(0x8000_0000, rank(0));
    assert_eq!(0x8000_0000, rank(0x8000_0000));
    assert_eq!(0xBF80_0000, rank(ONE));
    assert_eq!(0x4080_0000, rank(MINUS_ONE));
    assert_eq!(0xFF80_0000, rank(0x7F80_0000));
    assert_eq!(0x0080_0000, rank(0xFF80_0000));
    assert_eq!(u32::MAX, rank(0x7FC0_0000));
    assert_eq!(u32::MAX, rank(0xFFC0_0000));
}

#[test]
fn rank_orders_as_numbers_do() {
    let all = samples();
    for a in all.iter() {
        for b in all.iter() {
            let expected = a.partial_cmp(b).unwrap();
            assert_eq!(expected, rank(a.to_bits()).cmp(&rank(b.to_bits())), "{} {}", a, b);
        }
        assert!(rank(a.to_bits()) < rank(f32::NAN.to_bits()));
    }
}

#[test]
fn rank_orders_random_patterns() {
    let mut rng = thread_rng();
    for _ in 0..100000 {
        let a = f32::from_bits(rng.gen());
        let b = f32::from_bits(rng.gen());
        if a.is_nan() || b.is_nan() {
            continue;
        }
        assert_eq!(a.partial_cmp(&b).unwrap(), rank(a.to_bits()).cmp(&rank(b.to_bits())));
    }
}

#[test]
fn key_has_one_bit_per_projection() {
    let index = HyperIndex::<usize>::new(4, 5);
    let key = index.key(&bits_of(&[1.0, -1.0, 0.0, f32::NAN, 1.0e-40]));
    assert!(key.eq_vec(&[true, false, false, false, true]));
    assert_eq!(5, key.len());
}

#[test]
fn key_is_the_same_for_the_same_projections() {
    let index = HyperIndex::<usize>::new(4, 3);
    let projections = bits_of(&[0.25, -3.0, 7.0]);
    assert_eq!(index.key(&projections), index.key(&projections));
    let other = HyperIndex::<usize>::new(9, 3);
    assert_eq!(index.key(&projections), other.key(&projections));
}

#[test]
fn key_without_planes_is_empty() {
    let index = HyperIndex::<usize>::new(4, 0);
    let key = index.key(&Vec::new());
    assert_eq!(0, key.len());
    assert_eq!(BitVec::new(), key);
}

#[test]
fn vary_key_flips_each_bit_once() {
    let mut key = BitVec::new();
    key.push(true);
    key.push(false);
    key.push(true);
    let keys = MultiIndex::<usize>::vary_key(&key);
    assert_eq!(4, keys.len());
    assert!(keys[0].eq_vec(&[true, false, true]));
    assert!(keys[1].eq_vec(&[false, false, true]));
    assert!(keys[2].eq_vec(&[true, true, true]));
    assert!(keys[3].eq_vec(&[true, false, false]));
    assert!(key.eq_vec(&[true, false, true]));
}

#[test]
fn vary_key_of_empty_key_is_the_key() {
    let keys = MultiIndex::<usize>::vary_key(&BitVec::new());
    assert_eq!(1, keys.len());
    assert_eq!(0, keys[0].len());
}

#[test]
fn add_keeps_items_in_order_under_their_key() {
    let mut index = HyperIndex::<usize>::new(2, 2);
    let up = bits_of(&[1.0, 1.0]);
    let down = bits_of(&[-1.0, -1.0]);
    index.add(10, &up);
    index.add(20, &down);
    index.add(30, &up);
    index.add(10, &up);

    assert_eq!(2, index.groups_len());
    assert_eq!(4, index.len());
    assert_eq!(Some(&vec![10, 30, 10]), index.group(&index.key(&up)));
    assert_eq!(Some(&vec![20]), index.group(&index.key(&down)));
    assert_eq!(None, index.group(&index.key(&bits_of(&[1.0, -1.0]))));
    assert_eq!(2, index.dimensions());
    assert_eq!(2, index.planes_len());
}

#[test]
fn group_of_a_key_of_another_length_is_absent() {
    let mut index = HyperIndex::<usize>::new(2, 2);
    index.add(1, &bits_of(&[1.0, 1.0]));
    let mut short = BitVec::new();
    short.push(true);
    assert_eq!(None, index.group(&short));
    let mut long = BitVec::new();
    long.push(true);
    long.push(true);
    long.push(false);
    assert_eq!(None, index.group(&long));
}

#[test]
fn keys_that_end_alike_are_kept_apart() {
    let mut index = HyperIndex::<usize>::new(3, 70);
    let mut first = vec![ONE; 70];
    let mut second = vec![ONE; 70];
    first[0] = MINUS_ONE;
    second[3] = MINUS_ONE;
    let third = vec![ONE; 70];
    index.add(1, &first);
    index.add(2, &second);
    index.add(3, &third);
    index.add(4, &first);

    assert_eq!(3, index.groups_len());
    assert_eq!(Some(&vec![1, 4]), index.group(&index.key(&first)));
    assert_eq!(Some(&vec![2]), index.group(&index.key(&second)));
    assert_eq!(Some(&vec![3]), index.group(&index.key(&third)));
    let mut fourth = vec![ONE; 70];
    fourth[5] = MINUS_ONE;
    assert_eq!(None, index.group(&index.key(&fourth)));
}

#[test]
fn index_with_the_most_planes_works() {
    let mut index = HyperIndex::<usize>::new(3, 255);
    let mut projections = vec![ONE; 255];
    index.add(1, &projections);
    projections[254] = MINUS_ONE;
    index.add(2, &projections);
    assert_eq!(255, index.planes_len());
    assert_eq!(255, index.key(&projections).len());
    assert_eq!(Some(&vec![2]), index.group(&index.key(&projections)));
    assert_eq!(2, index.groups_len());
}

#[test]
fn stats_of_an_empty_index_are_zero() {
    let index = HyperIndex::<usize>::new(2, 2);
    assert_eq!((0, Average { total: 0, count: 0 }, 0), index.stats());
}

#[test]
fn stats_give_least_average_and_greatest() {
    let mut index = HyperIndex::<usize>::new(2, 2);
    let a = bits_of(&[1.0, 1.0]);
    let b = bits_of(&[-1.0, 1.0]);
    let c = bits_of(&[1.0, -1.0]);
    for key in 0..5 {
        index.add(key, &a);
    }
    index.add(5, &b);
    index.add(6, &c);
    index.add(7, &c);
    assert_eq!((1, Average { total: 8, count: 3 }, 5), index.stats());
}

#[test]
fn bucket_sizes_sum_to_the_number_of_items() {
    let mut rng = thread_rng();
    let mut index = HyperIndex::<usize>::new(6, 4);
    let mut patterns = HashSet::new();
    for key in 0..500usize {
        let projections: Vec<u32> =
            (0..4).map(|_| if rng.gen::<bool>() { ONE } else { MINUS_ONE }).collect();
        patterns.insert(projections.clone());
        index.add(key, &projections);
    }
    let mut sum = 0;
    for projections in patterns.iter() {
        sum += index.group(&index.key(projections)).unwrap().len();
    }
    assert_eq!(500, sum);
    assert_eq!(500, index.len());
    assert_eq!(patterns.len(), index.groups_len());
    let (_, average, _) = index.stats();
    assert_eq!(Average { total: 500, count: patterns.len() }, average);
}

#[test]
fn average_compares_as_a_fraction() {
    let half = Average { total: 1, count: 2 };
    let third = Average { total: 1, count: 3 };
    let ten = Average { total: 50, count: 5 };
    assert!(third.is_below(&half));
    assert!(!half.is_below(&third));
    assert!(!half.is_below(&half));
    assert!(half.is_below(&ten));
}

#[test]
fn average_is_above_lesser_targets_only() {
    let ten = Average { total: 50, count: 5 };
    assert!(!ten.is_above(10.0f32.to_bits()));
    assert!(ten.is_above(9.0f32.to_bits()));
    assert!(ten.is_above(9.999999f32.to_bits()));
    assert!(!ten.is_above(10.000001f32.to_bits()));
    assert!(Average { total: 51, count: 5 }.is_above(10.0f32.to_bits()));
    let two_and_a_half = Average { total: 5, count: 2 };
    assert!(two_and_a_half.is_above(2.0f32.to_bits()));
    assert!(two_and_a_half.is_above(2.4999998f32.to_bits()));
    assert!(!two_and_a_half.is_above(2.5f32.to_bits()));
    assert!(!two_and_a_half.is_above(3.0f32.to_bits()));
    let half = Average { total: 1, count: 2 };
    assert!(!half.is_above(1.0f32.to_bits()));
    assert!(!half.is_above(0.5f32.to_bits()));
    assert!(half.is_above(0.49999997f32.to_bits()));
    assert!(half.is_above(0.0f32.to_bits()));
    assert!(half.is_above((-0.0f32).to_bits()));
    assert!(half.is_above((-3.0f32).to_bits()));
    assert!(half.is_above(f32::from_bits(1).to_bits()));
    assert!(half.is_above(f32::NEG_INFINITY.to_bits()));
    assert!(!half.is_above(f32::INFINITY.to_bits()));
    assert!(!half.is_above(f32::MAX.to_bits()));
    assert!(!half.is_above(f32::NAN.to_bits()));
    assert!(!half.is_above(0xFFC0_0000));
}

#[test]
fn average_without_items_is_above_nothing() {
    let none = Average { total: 0, count: 0 };
    let empty = Average { total: 0, count: 3 };
    for target in [0.0f32, -0.0, 1.0, -1.0, 10.0, f32::NEG_INFINITY, f32::INFINITY, f32::NAN] {
        assert!(!none.is_above(target.to_bits()));
        assert!(!empty.is_above(target.to_bits()));
    }
    let endless = Average { total: 4, count: 0 };
    assert!(endless.is_above(10.0f32.to_bits()));
    assert!(endless.is_above(f32::INFINITY.to_bits()));
    assert!(!endless.is_above(f32::NAN.to_bits()));
}

#[test]
fn average_compares_the_greatest_counts() {
    let most = Average { total: usize::MAX, count: usize::MAX };
    let less = Average { total: usize::MAX - 1, count: usize::MAX };
    assert!(less.is_below(&most));
    assert!(!most.is_below(&less));
    assert!(!most.is_above(1.0f32.to_bits()));
    assert!(most.is_above(0.99999994f32.to_bits()));
    assert!(most.is_above(0.0f32.to_bits()));
    assert!(most.is_above(f32::from_bits(1).to_bits()));
    assert!(!most.is_above(f32::MAX.to_bits()));
    assert!(!less.is_above(1.0f32.to_bits()));
    assert!(less.is_above(0.99999994f32.to_bits()));
    let all_in_one = Average { total: usize::MAX, count: 1 };
    let two_to_64 = 18446744073709551616.0f32;
    assert!(!all_in_one.is_above(two_to_64.to_bits()));
    assert!(all_in_one.is_above(f32::from_bits(two_to_64.to_bits() - 1).to_bits()));
    assert!(!all_in_one.is_above(f32::MAX.to_bits()));
    let one_in_all = Average { total: 1, count: usize::MAX };
    assert!(one_in_all.is_above(f32::from_bits(1).to_bits()));
    assert!(one_in_all.is_above(1.0e-20f32.to_bits()));
    assert!(!one_in_all.is_above(1.0e-19f32.to_bits()));
}

#[test]
fn average_against_target_agrees_with_exact_arithmetic() {
    let mut rng = thread_rng();
    for _ in 0..200000 {
        let total: usize = rng.gen_range(0..1usize << 26);
        let count: usize = rng.gen_range(0..1usize << 26);
        let target = match rng.gen_range(0..4) {
            0 => f32::from_bits(rng.gen()),
            1 => rng.gen_range(0..64) as f32 / 4.0,
            2 => (total as f32 / (count.max(1)) as f32),
            _ => rng.gen_range(-2.0f32..40.0),
        };
        let expected =
            !target.is_nan() && total > 0 && (total as f64) > (target as f64) * (count as f64);
        let average = Average { total, count };
        assert_eq!(expected, average.is_above(target.to_bits()), "{:?} {}", average, target);
    }
}

#[test]
fn log2_of_a_number_rounds_down() {
    assert_eq!(3, log2_floor(10.0f32.to_bits()));
    assert_eq!(0, log2_floor(1.0f32.to_bits()));
    assert_eq!(0, log2_floor(1.9999999f32.to_bits()));
    assert_eq!(1, log2_floor(2.0f32.to_bits()));
    assert_eq!(10, log2_floor(1024.0f32.to_bits()));
    assert_eq!(9, log2_floor(1023.9f32.to_bits()));
    assert_eq!(127, log2_floor(f32::MAX.to_bits()));
    assert_eq!(128, log2_floor(f32::INFINITY.to_bits()));
    assert_eq!(0, log2_floor(0.5f32.to_bits()));
    assert_eq!(0, log2_floor(0.0f32.to_bits()));
    assert_eq!(0, log2_floor((-8.0f32).to_bits()));
    assert_eq!(0, log2_floor(f32::NAN.to_bits()));
    assert_eq!(0, log2_floor(f32::NEG_INFINITY.to_bits()));
    let mut rng = thread_rng();
    for _ in 0..100000 {
        let x = f32::from_bits(rng.gen());
        if x.is_finite() && x >= 1.0 {
            assert_eq!(x.log2().floor() as usize, log2_floor(x.to_bits()), "{}", x);
        }
    }
}

#[test]
fn log2_rounds_down() {
    assert_eq!(0, log2(0));
    assert_eq!(0, log2(1));
    assert_eq!(1, log2(2));
    assert_eq!(1, log2(3));
    assert_eq!(2, log2(4));
    assert_eq!(12, log2(5000));
    assert_eq!(9, log2(1023));
    assert_eq!(10, log2(1024));
    assert_eq!((usize::BITS - 1) as usize, log2(usize::MAX));
    for n in 1..5000usize {
        assert_eq!(n.ilog2() as usize, log2(n));
    }
}

const TEN: u32 = 0x4120_0000;

#[test]
fn search_starts_below_its_estimate() {
    let fresh = |planes: u8, target: f32| PlaneSearch {
        target: target.to_bits(),
        planes,
        best_planes: 0,
        best: None,
    };
    assert_eq!(TEN, 10.0f32.to_bits());
    assert_eq!(fresh(7, 10.0), PlaneSearch::start(5000, TEN));
    assert_eq!(fresh(7, 15.9), PlaneSearch::start(5000, 15.9f32.to_bits()));
    assert_eq!(fresh(6, 16.0), PlaneSearch::start(5000, 16.0f32.to_bits()));
    assert_eq!(fresh(10, 1.0), PlaneSearch::start(5000, 1.0f32.to_bits()));
    assert_eq!(fresh(10, 0.25), PlaneSearch::start(5000, 0.25f32.to_bits()));
    assert_eq!(fresh(10, 0.0), PlaneSearch::start(5000, 0.0f32.to_bits()));
    assert_eq!(fresh(10, -4.0), PlaneSearch::start(5000, (-4.0f32).to_bits()));
    assert_eq!(fresh(0, 10.0), PlaneSearch::start(0, TEN));
    assert_eq!(fresh(0, 1.0), PlaneSearch::start(0, 1.0f32.to_bits()));
    assert_eq!(fresh(0, 1.0), PlaneSearch::start(7, 1.0f32.to_bits()));
    assert_eq!(fresh(1, 1.0), PlaneSearch::start(8, 1.0f32.to_bits()));
    assert_eq!(fresh(0, 5000.0), PlaneSearch::start(10, 5000.0f32.to_bits()));
    assert_eq!(fresh(0, f32::INFINITY), PlaneSearch::start(5000, f32::INFINITY.to_bits()));
    assert_eq!(
        fresh((usize::BITS - 3) as u8, 1.0),
        PlaneSearch::start(usize::MAX, 1.0f32.to_bits())
    );
}

#[test]
fn search_notes_the_least_average_above_the_target() {
    let start = PlaneSearch { target: TEN, planes: 7, best_planes: 0, best: None };
    let high = Average { total: 5000, count: 100 };
    let lower = Average { total: 5000, count: 200 };
    let level = Average { total: 2500, count: 100 };
    let higher = Average { total: 5000, count: 150 };
    let under = Average { total: 5000, count: 600 };

    let second = PlaneSearch { target: TEN, planes: 8, best_planes: 7, best: Some(high) };
    assert_eq!(SearchStep::Measure(second), start.observe(high));
    let third = PlaneSearch { target: TEN, planes: 9, best_planes: 8, best: Some(lower) };
    assert_eq!(SearchStep::Measure(third), second.observe(lower));
    let fourth = PlaneSearch { target: TEN, planes: 10, best_planes: 8, best: Some(lower) };
    assert_eq!(SearchStep::Measure(fourth), third.observe(level));
    let fifth = PlaneSearch { target: TEN, planes: 11, best_planes: 8, best: Some(lower) };
    assert_eq!(SearchStep::Measure(fifth), fourth.observe(higher));
    assert_eq!(SearchStep::Done(11), fifth.observe(under));
}

#[test]
fn search_ends_with_the_number_that_reached_the_target() {
    let start = PlaneSearch { target: TEN, planes: 7, best_planes: 0, best: None };
    assert_eq!(SearchStep::Done(7), start.observe(Average { total: 5000, count: 500 }));
    assert_eq!(SearchStep::Done(7), start.observe(Average { total: 5000, count: 501 }));
    assert_eq!(SearchStep::Done(7), start.observe(Average { total: 0, count: 0 }));
    let going = PlaneSearch {
        target: TEN,
        planes: 9,
        best_planes: 8,
        best: Some(Average { total: 5000, count: 200 }),
    };
    assert_eq!(SearchStep::Done(9), going.observe(Average { total: 5000, count: 500 }));
    match going.observe(Average { total: 5001, count: 500 }) {
        SearchStep::Measure(next) => {
            assert_eq!(10, next.planes);
            assert_eq!(9, next.best_planes);
        }
        SearchStep::Done(_) => panic!(),
    }
}

#[test]
fn search_ends_with_the_last_number() {
    let last = PlaneSearch {
        target: TEN,
        planes: 254,
        best_planes: 200,
        best: Some(Average { total: 5000, count: 200 }),
    };
    assert_eq!(SearchStep::Done(254), last.observe(Average { total: 5000, count: 400 }));
    assert_eq!(SearchStep::Done(200), last.observe(Average { total: 5000, count: 100 }));
    assert_eq!(SearchStep::Done(254), last.observe(Average { total: 5000, count: 500 }));
    let before = PlaneSearch { planes: 253, ..last };
    assert_eq!(
        SearchStep::Measure(PlaneSearch { planes: 254, ..last }),
        before.observe(Average { total: 5000, count: 100 })
    );
}

#[test]
fn autotune_planes_returns_the_number_that_reached_the_target() {
    let planes = MultiIndex::<usize>::autotune_planes(5000, TEN, |planes| match planes {
        7 => Average { total: 5000, count: 50 },
        8 => Average { total: 5000, count: 90 },
        9 => Average { total: 5000, count: 80 },
        10 => Average { total: 5000, count: 300 },
        11 => Average { total: 5000, count: 250 },
        12 => Average { total: 5000, count: 700 },
        _ => panic!(),
    });
    assert_eq!(12, planes);
}

#[test]
fn autotune_planes_stops_at_the_first_number_at_or_below_the_target() {
    let two_halves = |planes: u8| {
        if planes == 0 {
            Average { total: 16, count: 1 }
        } else {
            Average { total: 16, count: 2 }
        }
    };
    assert_eq!(1, MultiIndex::<usize>::autotune_planes(16, TEN, two_halves));
    assert_eq!(1, MultiIndex::<usize>::autotune_planes(16, 8.0f32.to_bits(), two_halves));
    assert_eq!(1, MultiIndex::<usize>::autotune_planes(16, 8.5f32.to_bits(), two_halves));
    assert_eq!(0, MultiIndex::<usize>::autotune_planes(16, 16.0f32.to_bits(), two_halves));
}

#[test]
fn autotune_planes_takes_a_fractional_target() {
    let asked = std::cell::RefCell::new(Vec::new());
    let planes = MultiIndex::<usize>::autotune_planes(64, 2.5f32.to_bits(), |planes| {
        asked.borrow_mut().push(planes);
        match planes {
            3 => Average { total: 64, count: 8 },
            4 => Average { total: 64, count: 16 },
            5 => Average { total: 64, count: 25 },
            6 => Average { total: 64, count: 26 },
            _ => panic!(),
        }
    });
    assert_eq!(6, planes);
    assert_eq!(vec![3u8, 4, 5, 6], asked.into_inner());
}

#[test]
fn autotune_planes_tries_up_to_the_last_number() {
    let asked = std::cell::RefCell::new(Vec::new());
    let planes = MultiIndex::<usize>::autotune_planes(5000, TEN, |planes| {
        asked.borrow_mut().push(planes);
        Average { total: 5000, count: 1 + (planes as usize) }
    });
    assert_eq!(254, planes);
    assert_eq!((7..=254).collect::<Vec<u8>>(), asked.into_inner());
}

#[test]
fn autotune_planes_falls_back_on_the_best_above_the_target() {
    let planes = MultiIndex::<usize>::autotune_planes(5000, TEN, |planes| match planes {
        40 => Average { total: 5000, count: 400 },
        90 => Average { total: 5000, count: 499 },
        91 => Average { total: 5000, count: 499 },
        _ => Average { total: 5000, count: 1 + (planes as usize) },
    });
    assert_eq!(90, planes);
    let never = MultiIndex::<usize>::autotune_planes(5000, f32::NEG_INFINITY.to_bits(), |planes| {
        Average { total: 5000, count: 300 - (planes as usize) }
    });
    assert_eq!(10, never);
}

#[test]
fn autotune_planes_of_an_empty_sample_is_zero() {
    let asked = std::cell::RefCell::new(Vec::new());
    let planes = MultiIndex::<usize>::autotune_planes(0, TEN, |planes| {
        asked.borrow_mut().push(planes);
        Average { total: 0, count: 0 }
    });
    assert_eq!(0, planes);
    assert_eq!(vec![0u8], asked.into_inner());
}

#[test]
fn top_takes_the_nearest_in_order() {
    let scored = vec![node(1, 2.0), node(2, 1.0), node(3, 3.0), node(4, 0.5), node(5, 2.5)];
    assert_eq!(vec![4, 2, 1], keys_of(&top(&scored, 3)));
    assert_eq!(vec![4, 2, 1, 5, 3], keys_of(&top(&scored, 5)));
    assert_eq!(vec![4, 2, 1, 5, 3], keys_of(&top(&scored, 9)));
    assert_eq!(vec![4], keys_of(&top(&scored, 1)));
    assert_eq!(Vec::<usize>::new(), keys_of(&top(&scored, 0)));
    assert_eq!(Vec::<usize>::new(), keys_of(&top(&Vec::new(), 3)));
    let best = top(&scored, 2);
    assert_eq!(0.5f32.to_bits(), best[0].distance);
    assert_eq!(1.0f32.to_bits(), best[1].distance);
}

#[test]
fn top_keeps_level_candidates_in_their_order() {
    let scored = vec![node(1, 1.0), node(2, 0.0), node(3, 1.0), node(4, -0.0), node(5, 1.0)];
    assert_eq!(vec![2, 4, 1, 3, 5], keys_of(&top(&scored, 5)));
    assert_eq!(vec![2, 4, 1], keys_of(&top(&scored, 3)));
}

#[test]
fn top_puts_negative_numbers_first_and_nan_last() {
    let scored = vec![
        node(1, f32::NAN),
        node(2, f32::INFINITY),
        node(3, -1.0),
        node(4, 0.0),
        node(5, f32::NEG_INFINITY),
        node(6, 1.0e-40),
    ];
    assert_eq!(vec![5, 3, 4, 6, 2, 1], keys_of(&top(&scored, 6)));
}

#[test]
fn top_agrees_with_a_stable_sort() {
    let mut rng = thread_rng();
    for round in 0..200usize {
        let n = rng.gen_range(0..40);
        let scored: Vec<DistanceNode<usize>> =
            (0..n).map(|key| node(key, (rng.gen_range(0..10) as f32) / 4.0)).collect();
        let mut expected = scored.clone();
        expected.sort_by(|a, b| {
            f32::from_bits(a.distance).partial_cmp(&f32::from_bits(b.distance)).unwrap()
        });
        let count = round % 45;
        expected.truncate(count);
        assert_eq!(keys_of(&expected), keys_of(&top(&scored, count)));
    }
}

#[test]
fn nodes_are_equal_by_key_and_ordered_by_distance() {
    assert!(node(1, 2.0) == node(1, 5.0));
    assert!(node(1, 2.0) != node(2, 2.0));
    assert_eq!(Some(Ordering::Less), node(1, 2.0).partial_cmp(&node(1, 5.0)));
    assert_eq!(Some(Ordering::Greater), node(1, 2.0).partial_cmp(&node(2, -5.0)));
    assert_eq!(Some(Ordering::Equal), node(1, 0.0).partial_cmp(&node(2, -0.0)));
    assert!(node(7, 1.0) < node(3, 1.5));
}

#[test]
fn a_node_at_no_distance_is_level_with_every_node() {
    let a = node(1, 1.0);
    let b = node(2, 2.0);
    let n = node(3, f32::NAN);
    assert_eq!(Some(Ordering::Less), a.partial_cmp(&b));
    assert_eq!(Some(Ordering::Greater), b.partial_cmp(&a));
    assert_eq!(Some(Ordering::Equal), a.partial_cmp(&n));
    assert_eq!(Some(Ordering::Equal), n.partial_cmp(&b));
    assert_eq!(Some(Ordering::Equal), n.partial_cmp(&n));
    assert_eq!(Some(Ordering::Equal), node(4, f32::INFINITY).partial_cmp(&node(5, -f32::NAN)));
    assert_eq!(Ordering::Less, compare(1.0f32.to_bits(), 2.0f32.to_bits()));
    assert_eq!(Ordering::Greater, compare(2.0f32.to_bits(), (-2.0f32).to_bits()));
    assert_eq!(Ordering::Equal, compare(1.0f32.to_bits(), f32::NAN.to_bits()));
    assert_eq!(Ordering::Equal, compare(0xFFC0_0000, f32::NEG_INFINITY.to_bits()));
    for x in samples() {
        for y in samples() {
            assert_eq!(x.partial_cmp(&y).unwrap(), compare(x.to_bits(), y.to_bits()));
        }
    }
}

fn two_tables() -> MultiIndex<usize> {
    MultiIndex::<usize>::new(3, 2, 3)
}

fn both(first: &[f32], second: &[f32]) -> Vec<Vec<u32>> {
    vec![bits_of(first), bits_of(second)]
}

#[test]
fn query_reaches_the_bucket_and_its_neighbours() {
    let mut index = two_tables();
    index.add(1, &both(&[1.0, 1.0, 1.0], &[1.0, 1.0, 1.0]));
    index.add(2, &both(&[-1.0, 1.0, 1.0], &[-1.0, -1.0, -1.0]));
    index.add(3, &both(&[-1.0, -1.0, 1.0], &[-1.0, -1.0, 1.0]));
    index.add(4, &both(&[-1.0, -1.0, -1.0], &[1.0, 1.0, -1.0]));
    index.add(5, &both(&[-1.0, -1.0, -1.0], &[-1.0, -1.0, -1.0]));

    let query = both(&[1.0, 1.0, 1.0], &[1.0, 1.0, 1.0]);
    let near = index.nearest_points(&query);
    assert_eq!(vec![1, 2, 4], near);
    let set = index.nearest_points_set(&query);
    assert_eq!(near.iter().copied().collect::<HashSet<usize>>(), set);
    assert_eq!(5, index.len());
    assert_eq!(2, index.indices_len());
    assert_eq!(3, index.planes_len());
    assert_eq!(3, index.dimensions());
}

#[test]
fn query_counts_an_item_once() {
    let mut index = two_tables();
    let here = both(&[1.0, -1.0, 1.0], &[-1.0, 1.0, 1.0]);
    index.add(8, &here);
    index.add(8, &here);
    index.add(9, &here);
    assert_eq!(vec![8, 9], index.nearest_points(&here));
    let scored = index.nearest(&here, 10, |k| (*k as f32).to_bits());
    assert_eq!(vec![8, 9], keys_of(&scored));
}

#[test]
fn nearest_scores_each_candidate_once_and_ranks_them() {
    let mut index = two_tables();
    let here = both(&[1.0, 1.0, 1.0], &[1.0, 1.0, 1.0]);
    for key in 0..20usize {
        index.add(key, &here);
    }
    index.add(99, &both(&[-1.0, -1.0, -1.0], &[-1.0, -1.0, -1.0]));
    let calls = std::cell::RefCell::new(Vec::new());
    let found = index.nearest(&here, 5, |k| {
        calls.borrow_mut().push(*k);
        ((20 - *k) as f32).to_bits()
    });
    assert_eq!(vec![19, 18, 17, 16, 15], keys_of(&found));
    assert_eq!(1.0f32.to_bits(), found[0].distance);
    assert_eq!(5.0f32.to_bits(), found[4].distance);
    let mut called = calls.into_inner();
    called.sort();
    assert_eq!((0..20).collect::<Vec<usize>>(), called);
    let set = index.nearest_points_set(&here);
    for node in found.iter() {
        assert!(set.contains(&node.key));
    }
    assert_eq!(Vec::<usize>::new(), keys_of(&index.nearest(&here, 0, |_| 0)));
    assert_eq!(20, index.nearest(&here, 100, |k| (*k as f32).to_bits()).len());
}

#[test]
fn index_without_planes_has_one_bucket_per_table() {
    let mut index = MultiIndex::<usize>::new(3, 2, 0);
    let none: Vec<Vec<u32>> = vec![Vec::new(), Vec::new()];
    for key in 0..7usize {
        index.add(key, &none);
    }
    assert_eq!((0..7).collect::<Vec<usize>>(), index.nearest_points(&none));
    assert_eq!(0, index.planes_len());
    let found = index.nearest(&none, 3, |k| ((7 - *k) as f32).to_bits());
    assert_eq!(vec![6, 5, 4], keys_of(&found));

    let mut single = HyperIndex::<usize>::new(3, 0);
    single.add(1, &Vec::new());
    single.add(2, &Vec::new());
    assert_eq!(1, single.groups_len());
    assert_eq!(Some(&vec![1, 2]), single.group(&BitVec::new()));
    assert_eq!((2, Average { total: 2, count: 1 }, 2), single.stats());
}

#[test]
fn index_without_tables_finds_nothing() {
    let mut index = MultiIndex::<usize>::new(3, 0, 4);
    index.add(1, &Vec::new());
    assert_eq!(1, index.len());
    assert_eq!(0, index.indices_len());
    assert_eq!(3, index.dimensions());
    assert_eq!(4, index.planes_len());
    assert!(index.nearest_points(&Vec::new()).is_empty());
    assert!(index.nearest_points_set(&Vec::new()).is_empty());
    assert!(index.nearest(&Vec::new(), 5, |_| 0).is_empty());
}

#[test]
fn added_items_stay_within_reach() {
    let mut rng = thread_rng();
    let mut index = MultiIndex::<usize>::new(5, 3, 6);
    let mut entries: Vec<Vec<Vec<u32>>> = Vec::new();
    for key in 0..300usize {
        let projections: Vec<Vec<u32>> = (0..3)
            .map(|_| (0..6).map(|_| if rng.gen::<bool>() { ONE } else { MINUS_ONE }).collect())
            .collect();
        index.add(key, &projections);
        entries.push(projections);
    }
    for (key, projections) in entries.iter().enumerate() {
        let near = index.nearest_points(projections);
        assert!(near.contains(&key));
        let unique: HashSet<usize> = near.iter().copied().collect();
        assert_eq!(unique.len(), near.len());
        assert_eq!(unique, index.nearest_points_set(projections));
        let found = index.nearest(projections, 10, |k| ((*k % 17) as f32).to_bits());
        assert!(found.len() <= 10);
        assert_eq!(found.len(), near.len().min(10));
        for pair in found.windows(2) {
            assert!(f32::from_bits(pair[0].distance) <= f32::from_bits(pair[1].distance));
            assert!(pair[0].key != pair[1].key);
        }
        for node in found.iter() {
            assert!(unique.contains(&node.key));
        }
    }
}
