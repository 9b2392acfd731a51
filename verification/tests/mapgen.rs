use std::collections::HashMap;

use lizstate::mapgen::builder::call_until_max_sum;
use lizstate::mapgen::builder::permute;
use lizstate::mapgen::builder::random_in_range;

#[test]
fn test_random_in_range() {
    // Each range as its first and last number.
    fn for_range(first: u8, last: u8) {
        let mut counts = [0u16; 256];
        for i in 0..=300u16 {
            let sample = random_in_range(first, last, u32::from(i));
            counts[sample as usize] += 1;
        }

        for i in 0..=255u8 {
            assert_eq!((first..=last).contains(&i), counts[i as usize] != 0, "{i}");
        }

        let nonzeros = counts.iter().filter(|c| **c != 0).copied();
        let (min, max) = nonzeros.fold((u16::MAX, u16::MIN), |(min, max), el| {
            (el.min(min), el.max(max))
        });
        assert!(min == max || min + 1 == max);
    }
    for_range(5, 19);
    for_range(0, 255);
    for_range(0, 0);
    for_range(254, 255);
}

#[test]
fn test_call_until_max_sum() {
    {
        let ones = call_until_max_sum(50, 42, &mut || 1);
        assert_eq!(ones.iter().flatten().sum::<u8>(), 42u8);
        assert!(ones.iter().all(|opt| opt.is_none_or(|some| some == 1)));
    }
    {
        let mut dingus = 1;
        let mut sampler = || {
            dingus += 2;
            dingus - 2
        };
        let odds_sum_to_square = call_until_max_sum(20, 99, &mut sampler);
        assert_eq!(odds_sum_to_square.iter().flatten().sum::<u8>(), 81);
        assert!(
            odds_sum_to_square
                .iter()
                .all(|opt| opt.is_none_or(|some| some % 2 == 1))
        );
    }
}

#[test]
fn test_permute() {
    let original = vec![0, 1, 2, 3, 5];
    let mut multiset: HashMap<Vec<i32>, u16> = HashMap::new();
    for i in 0..u8::MAX {
        let mut clone = original.clone();
        permute(&mut clone, i.into());
        *multiset.entry(clone).or_default() += 1;
    }

    assert_eq!(multiset.len(), 120, "{multiset:?}");

    let nonzeros = multiset.values().copied();
    let (min, max) = nonzeros.fold((u16::MAX, u16::MIN), |(min, max), el| {
        (el.min(min), el.max(max))
    });
    assert!(min == max || min + 1 == max);
}

#[test]
fn permute_small_examples() {
    let mut one = vec![7];
    permute(&mut one, 12345);
    assert_eq!(one, vec![7]);

    // 5 % 3 = 2 keeps the last in place, then 1 % 2 = 1 keeps the order.
    let mut three = vec![1, 2, 3];
    permute(&mut three, 5);
    assert_eq!(three, vec![1, 2, 3]);

    // 0 swaps the last with the first, then 0 swaps the two left.
    let mut three = vec![1, 2, 3];
    permute(&mut three, 0);
    assert_eq!(three, vec![2, 3, 1]);
}

#[test]
fn call_until_max_sum_stops_at_first_overflow() {
    let mut draws = vec![10u8, 20, 250, 1].into_iter();
    let out = call_until_max_sum(5, 40, &mut || draws.next().unwrap_or(0));
    assert_eq!(out, vec![Some(10), Some(20), None, None, None]);
}
