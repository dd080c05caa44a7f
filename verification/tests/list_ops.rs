use numlist::list::NumberList;
use numlist::number::Number;

fn n(x: f64) -> Number {
    Number::from_bits(x.to_bits())
}

fn list_of(xs: &[f64]) -> NumberList {
    let mut list = NumberList::new();
    for x in xs {
        list.push(n(*x));
    }
    list
}

fn bits(xs: &[f64]) -> Vec<u64> {
    xs.iter().map(|x| x.to_bits()).collect()
}

fn bits_of(v: &Vec<Number>) -> Vec<u64> {
    v.iter().map(|x| x.to_bits()).collect()
}

fn scan_largest(floats: &[f64]) -> f64 {
    let mut best = floats[0];
    for &x in floats.iter().skip(1) {
        if x > best {
            best = x
        }
    }
    best
}

fn scan_smallest(floats: &[f64]) -> f64 {
    let mut best = floats[0];
    for &x in floats.iter().skip(1) {
        if x < best {
            best = x
        }
    }
    best
}

fn random_floats(seed: u64, count: usize, with_specials: bool) -> Vec<f64> {
    let mut state = seed;
    let mut out = Vec::new();
    for _ in 0..count {
        state = state.wrapping_mul(6364136223846793005).wrapping_add(1442695040888963407);
        let pick = (state >> 33) % 16;
        let x = match pick {
            0 if with_specials => f64::NAN,
            1 => 0.0,
            2 => -0.0,
            3 => f64::INFINITY,
            4 => f64::NEG_INFINITY,
            _ => ((state >> 20) % 41) as f64 - 20.0,
        };
        out.push(x);
    }
    out
}

#[test]
fn new_list_is_empty() {
    let list = NumberList::new();
    assert_eq!(list.len(), 0);
    assert!(list.is_empty());
    assert!(list.values().is_empty());
    assert!(!list.contains_nan());
}

#[test]
fn push_adds_at_the_end() {
    let mut list = NumberList::new();
    list.push(n(5.0));
    list.push(n(3.0));
    list.push(n(5.0));
    assert_eq!(list.len(), 3);
    assert!(!list.is_empty());
    assert_eq!(bits_of(list.values()), bits(&[5.0, 3.0, 5.0]));
}

#[test]
fn len_counts_every_append() {
    let mut list = NumberList::new();
    for i in 0..250 {
        assert_eq!(list.len(), i);
        list.push(n(i as f64 * 0.5));
    }
    assert_eq!(list.len(), 250);
}

#[test]
fn extend_adds_all_in_order() {
    let mut list = list_of(&[1.0, 2.0]);
    list.extend(&vec![n(9.0), n(-4.0), n(9.0)]);
    assert_eq!(bits_of(list.values()), bits(&[1.0, 2.0, 9.0, -4.0, 9.0]));
    list.extend(&vec![]);
    assert_eq!(list.len(), 5);
}

#[test]
fn clear_empties_the_list() {
    let mut list = list_of(&[1.0, 2.0, 3.0]);
    list.clear();
    assert_eq!(list.len(), 0);
    assert!(list.is_empty());
    list.push(n(7.0));
    assert_eq!(bits_of(list.values()), bits(&[7.0]));
}

#[test]
fn contains_nan_finds_a_nan_anywhere() {
    assert!(!list_of(&[1.0, f64::INFINITY, -0.0]).contains_nan());
    assert!(list_of(&[f64::NAN]).contains_nan());
    assert!(list_of(&[1.0, 2.0, f64::NAN]).contains_nan());
    assert!(list_of(&[1.0, -f64::NAN, 2.0]).contains_nan());
}

#[test]
fn max_and_min_of_a_plain_list() {
    let list = list_of(&[5.0, 3.0, 8.0]);
    assert_eq!(list.max(), n(8.0));
    assert_eq!(list.min(), n(3.0));
    let one = list_of(&[-2.5]);
    assert_eq!(one.max(), n(-2.5));
    assert_eq!(one.min(), n(-2.5));
}

#[test]
fn max_and_min_with_infinities() {
    let list = list_of(&[1.0, f64::NEG_INFINITY, f64::INFINITY, 7.0]);
    assert_eq!(list.max(), n(f64::INFINITY));
    assert_eq!(list.min(), n(f64::NEG_INFINITY));
}

#[test]
fn max_and_min_keep_the_first_of_equal_values() {
    let list = list_of(&[-0.0, 0.0]);
    assert_eq!(list.max().to_bits(), (-0.0f64).to_bits());
    assert_eq!(list.min().to_bits(), (-0.0f64).to_bits());
    let list = list_of(&[0.0, -0.0, -1.0]);
    assert_eq!(list.max().to_bits(), 0.0f64.to_bits());
    assert_eq!(list.min(), n(-1.0));
}

#[test]
fn a_leading_nan_stays_the_extreme() {
    let list = list_of(&[f64::NAN, 1.0, 9.0, -3.0]);
    assert!(list.max().is_nan());
    assert!(list.min().is_nan());
    assert_eq!(list.max().to_bits(), f64::NAN.to_bits());
}

#[test]
fn a_later_nan_is_passed_over() {
    let list = list_of(&[1.0, f64::NAN, 9.0, f64::NAN, -3.0]);
    assert_eq!(list.max(), n(9.0));
    assert_eq!(list.min(), n(-3.0));
}

#[test]
fn max_and_min_agree_with_a_scan_over_floats() {
    for seed in 1..200u64 {
        let xs = random_floats(seed, 1 + (seed as usize % 9), true);
        let list = list_of(&xs);
        assert_eq!(list.max().to_bits(), scan_largest(&xs).to_bits(), "{xs:?}");
        assert_eq!(list.min().to_bits(), scan_smallest(&xs).to_bits(), "{xs:?}");
    }
}

#[test]
fn sorted_ascending_of_a_plain_list() {
    let list = list_of(&[5.0, 3.0, 8.0]);
    assert_eq!(bits_of(&list.sorted_ascending()), bits(&[3.0, 5.0, 8.0]));
    assert_eq!(bits_of(list.values()), bits(&[5.0, 3.0, 8.0]));
}

#[test]
fn sorted_descending_of_a_plain_list() {
    let list = list_of(&[5.0, 3.0, 8.0]);
    assert_eq!(bits_of(&list.sorted_descending()), bits(&[8.0, 5.0, 3.0]));
    assert_eq!(bits_of(list.values()), bits(&[5.0, 3.0, 8.0]));
}

#[test]
fn sorting_handles_duplicates_negatives_and_infinities() {
    let list = list_of(&[2.0, -1.0, f64::INFINITY, 2.0, f64::NEG_INFINITY, 0.5, -1.0]);
    assert_eq!(
        bits_of(&list.sorted_ascending()),
        bits(&[f64::NEG_INFINITY, -1.0, -1.0, 0.5, 2.0, 2.0, f64::INFINITY])
    );
    assert_eq!(
        bits_of(&list.sorted_descending()),
        bits(&[f64::INFINITY, 2.0, 2.0, 0.5, -1.0, -1.0, f64::NEG_INFINITY])
    );
}

#[test]
fn sorting_keeps_equal_values_in_list_order() {
    let list = list_of(&[0.0, 1.0, -0.0, -1.0, 0.0]);
    assert_eq!(bits_of(&list.sorted_ascending()), bits(&[-1.0, 0.0, -0.0, 0.0, 1.0]));
    assert_eq!(bits_of(&list.sorted_descending()), bits(&[1.0, 0.0, -0.0, 0.0, -1.0]));
}

#[test]
fn sorting_short_lists() {
    assert!(NumberList::new().sorted_ascending().is_empty());
    assert!(NumberList::new().sorted_descending().is_empty());
    assert_eq!(bits_of(&list_of(&[4.0]).sorted_ascending()), bits(&[4.0]));
    assert_eq!(bits_of(&list_of(&[f64::NAN]).sorted_ascending()), bits(&[f64::NAN]));
    assert_eq!(bits_of(&list_of(&[f64::NAN]).sorted_descending()), bits(&[f64::NAN]));
}

#[test]
fn sorting_agrees_with_the_standard_stable_sort() {
    for seed in 1..200u64 {
        let xs = random_floats(seed, seed as usize % 40, false);
        let list = list_of(&xs);
        let mut up = xs.clone();
        up.sort_by(|a, b| a.partial_cmp(b).unwrap());
        let mut down = xs.clone();
        down.sort_by(|a, b| b.partial_cmp(a).unwrap());
        assert_eq!(bits_of(&list.sorted_ascending()), bits(&up), "{xs:?}");
        assert_eq!(bits_of(&list.sorted_descending()), bits(&down), "{xs:?}");
    }
}

#[test]
fn descending_is_ascending_reversed_in_value() {
    for seed in 1..100u64 {
        let xs = random_floats(seed * 7, seed as usize % 30, false);
        let list = list_of(&xs);
        let up = list.sorted_ascending();
        let down = list.sorted_descending();
        assert_eq!(up.len(), down.len());
        for i in 0..up.len() {
            assert!(up[i].equals(down[down.len() - 1 - i]));
            assert_eq!(up[i].sort_key(), down[down.len() - 1 - i].sort_key());
        }
    }
}

#[test]
fn descending_is_exactly_ascending_reversed_without_mixed_zeros() {
    let list = list_of(&[3.0, -7.0, 3.0, 0.0, 12.5, 0.0, -7.0]);
    let mut up = list.sorted_ascending();
    up.reverse();
    assert_eq!(up, list.sorted_descending());
}

#[test]
fn position_finds_the_first_equal_element() {
    let list = list_of(&[4.0, 2.0, 0.0, 2.0, -0.0]);
    assert_eq!(list.position(n(2.0)), Some(1));
    assert_eq!(list.position(n(4.0)), Some(0));
    assert_eq!(list.position(n(-0.0)), Some(2));
    assert_eq!(list.position(n(3.0)), None);
    assert_eq!(list.position(n(f64::NAN)), None);
    assert_eq!(list_of(&[f64::NAN]).position(n(f64::NAN)), None);
}

#[test]
fn remove_moves_the_last_element_into_the_gap() {
    let mut list = list_of(&[1.0, 2.0, 3.0, 4.0]);
    assert_eq!(list.remove(n(2.0)), Some(1));
    assert_eq!(bits_of(list.values()), bits(&[1.0, 4.0, 3.0]));
    assert_eq!(list.remove(n(3.0)), Some(2));
    assert_eq!(bits_of(list.values()), bits(&[1.0, 4.0]));
    assert_eq!(list.remove(n(1.0)), Some(0));
    assert_eq!(bits_of(list.values()), bits(&[4.0]));
    assert_eq!(list.remove(n(4.0)), Some(0));
    assert!(list.is_empty());
}

#[test]
fn remove_takes_one_of_several_equal_elements() {
    let mut list = list_of(&[2.0, 1.0, 2.0, 5.0, 2.0]);
    assert_eq!(list.remove(n(2.0)), Some(0));
    assert_eq!(list.len(), 4);
    assert_eq!(bits_of(list.values()), bits(&[2.0, 1.0, 2.0, 5.0]));
    let twos = list.values().iter().filter(|x| x.equals(n(2.0))).count();
    assert_eq!(twos, 2);
}

#[test]
fn remove_of_an_absent_value_changes_nothing() {
    let mut list = list_of(&[1.0, 2.0, 3.0]);
    assert_eq!(list.remove(n(9.0)), None);
    assert_eq!(bits_of(list.values()), bits(&[1.0, 2.0, 3.0]));
    let mut empty = NumberList::new();
    assert_eq!(empty.remove(n(1.0)), None);
    assert!(empty.is_empty());
}

#[test]
fn remove_never_finds_a_nan() {
    let mut list = list_of(&[1.0, f64::NAN, 3.0]);
    assert_eq!(list.remove(n(f64::NAN)), None);
    assert_eq!(list.len(), 3);
}

#[test]
fn remove_takes_either_zero_for_the_other() {
    let mut list = list_of(&[1.0, -0.0, 3.0]);
    assert_eq!(list.remove(n(0.0)), Some(1));
    assert_eq!(bits_of(list.values()), bits(&[1.0, 3.0]));
}

#[test]
fn remove_agrees_with_swap_remove_on_floats() {
    for seed in 1..200u64 {
        let mut xs = random_floats(seed * 13, 1 + seed as usize % 12, true);
        let target = random_floats(seed * 31, 1, true)[0];
        let mut list = list_of(&xs);
        let found = xs.iter().position(|value| *value == target);
        if let Some(index) = found {
            xs.swap_remove(index);
        }
        assert_eq!(list.remove(n(target)), found);
        assert_eq!(bits_of(list.values()), bits(&xs));
    }
}
