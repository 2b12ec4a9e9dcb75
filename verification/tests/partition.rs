use largest_differencing_method::ldm::{largest_differencing_method, LdmResult};

fn total(group: &[&u64]) -> u128 {
    let mut sum: u128 = 0;
    for item in group {
        sum += **item as u128;
    }
    sum
}

fn distance(a: u128, b: u128) -> u128 {
    if a >= b {
        a - b
    } else {
        b - a
    }
}

fn weighted(sizes: &[u64]) -> Vec<(&u64, u64)> {
    let mut pairs = Vec::new();
    for size in sizes {
        pairs.push((size, *size));
    }
    pairs
}

fn scrambled(count: usize, shift: u32) -> Vec<u64> {
    let mut state: u64 = 12345;
    let mut sizes = Vec::new();
    for _ in 0..count {
        state = state
            .wrapping_mul(6364136223846793005)
            .wrapping_add(1442695040888963407);
        sizes.push(state >> shift);
    }
    sizes
}

fn assert_partition(sizes: &[u64]) {
    let pairs = weighted(sizes);
    let result = largest_differencing_method(&pairs);

    let mut seen = vec![0usize; sizes.len()];
    for item in result.set_1.iter().chain(result.set_2.iter()) {
        let mut found = false;
        for (at, size) in sizes.iter().enumerate() {
            if std::ptr::eq(*item, size) {
                seen[at] += 1;
                found = true;
            }
        }
        assert!(found);
    }
    for count in seen {
        assert_eq!(count, 1);
    }
    assert_eq!(result.set_1.len() + result.set_2.len(), sizes.len());

    let first = total(&result.set_1);
    let second = total(&result.set_2);
    assert!(first >= second);
    assert_eq!(result.diff as u128, distance(first, second));
    assert_eq!(result.diff as u128, distance(second, first));

    let largest = sizes.iter().copied().max().unwrap_or(0);
    assert!(result.diff <= largest);
}

#[test]
fn it_works() {
    // Arrange

    let values = vec!["4", "3", "3", "3", "8", "6", "5", "2"];
    let sizes = vec![4, 3, 3, 3, 8, 6, 5, 2];

    let values_sizes = values
        .into_iter()
        .zip(sizes.into_iter())
        .collect::<Vec<(&str, u64)>>();

    // Act

    let ldm_result = largest_differencing_method(&values_sizes);

    // Assert

    assert_eq!(ldm_result.set_1, &["3", "2", "8", "4"]);
    assert_eq!(ldm_result.set_2, &["3", "3", "6", "5"]);
    assert_eq!(ldm_result.diff, 0);
}

#[test]
fn empty_input_gives_empty_groups() {
    let values: Vec<(&str, u64)> = Vec::new();
    let result = largest_differencing_method(&values);
    assert!(result.set_1.is_empty());
    assert!(result.set_2.is_empty());
    assert_eq!(result.diff, 0);
}

#[test]
fn single_item_stands_alone_in_the_first_group() {
    let values = vec![("x", 5u64)];
    let result = largest_differencing_method(&values);
    assert_eq!(result.set_1, &["x"]);
    assert!(result.set_2.is_empty());
    assert_eq!(result.diff, 5);
}

#[test]
fn single_item_of_size_zero() {
    let values = vec![("x", 0u64)];
    let result = largest_differencing_method(&values);
    assert_eq!(result.set_1, &["x"]);
    assert!(result.set_2.is_empty());
    assert_eq!(result.diff, 0);
}

#[test]
fn two_equal_items_balance() {
    let values = vec![("a", 7u64), ("b", 7u64)];
    let result = largest_differencing_method(&values);
    assert_eq!(result.set_1.len(), 1);
    assert_eq!(result.set_2.len(), 1);
    assert_ne!(result.set_1[0], result.set_2[0]);
    assert_eq!(result.diff, 0);
}

#[test]
fn two_unequal_items_put_the_larger_first() {
    let values = vec![("small", 1u64), ("large", 10u64)];
    let result = largest_differencing_method(&values);
    assert_eq!(result.set_1, &["large"]);
    assert_eq!(result.set_2, &["small"]);
    assert_eq!(result.diff, 9);
}

#[test]
fn five_items_of_the_classical_example() {
    let values: Vec<(&u64, u64)> = vec![(&8, 8), (&7, 7), (&6, 6), (&5, 5), (&4, 4)];
    let result = largest_differencing_method(&values);
    assert_eq!(result.set_1, &[&4, &7, &5]);
    assert_eq!(result.set_2, &[&8, &6]);
    assert_eq!(total(&result.set_1), 16);
    assert_eq!(total(&result.set_2), 14);
    assert_eq!(result.diff, 2);
}

#[test]
fn three_items_with_distinct_differences() {
    let values = vec![("five", 5u64), ("three", 3u64), ("one", 1u64)];
    let result = largest_differencing_method(&values);
    assert_eq!(result.set_1, &["five"]);
    assert_eq!(result.set_2, &["three", "one"]);
    assert_eq!(result.diff, 1);
}

#[test]
fn eight_items_balance_to_seventeen_each() {
    let sizes = [4u64, 3, 3, 3, 8, 6, 5, 2];
    let pairs = weighted(&sizes);
    let result = largest_differencing_method(&pairs);
    assert_eq!(total(&result.set_1), 17);
    assert_eq!(total(&result.set_2), 17);
    assert_eq!(result.diff, 0);
}

#[test]
fn one_to_ten_differ_by_one() {
    let sizes = [1u64, 2, 3, 4, 5, 6, 7, 8, 9, 10];
    let pairs = weighted(&sizes);
    let result = largest_differencing_method(&pairs);
    assert_eq!(result.diff, 1);
    assert_eq!(total(&result.set_1), 28);
    assert_eq!(total(&result.set_2), 27);
}

#[test]
fn five_equal_items_differ_by_one_item() {
    let sizes = [7u64, 7, 7, 7, 7];
    let pairs = weighted(&sizes);
    let result = largest_differencing_method(&pairs);
    assert_eq!(result.diff, 7);
    assert_eq!(result.set_1.len(), 3);
    assert_eq!(result.set_2.len(), 2);
}

#[test]
fn items_of_size_zero_are_kept() {
    let values = vec![("a", 0u64), ("b", 0u64), ("c", 0u64)];
    let result = largest_differencing_method(&values);
    assert_eq!(result.set_1.len() + result.set_2.len(), 3);
    assert_eq!(result.diff, 0);
    let mut all: Vec<&str> = Vec::new();
    all.extend(result.set_1.iter());
    all.extend(result.set_2.iter());
    all.sort();
    assert_eq!(all, vec!["a", "b", "c"]);
}

#[test]
fn largest_sizes_do_not_wrap() {
    let values = vec![("a", u64::MAX), ("b", u64::MAX), ("c", 1u64)];
    let result = largest_differencing_method(&values);
    assert_eq!(result.diff, 1);
    assert_eq!(result.set_1.len() + result.set_2.len(), 3);

    let values = vec![("a", u64::MAX), ("b", 0u64)];
    let result = largest_differencing_method(&values);
    assert_eq!(result.set_1, &["a"]);
    assert_eq!(result.set_2, &["b"]);
    assert_eq!(result.diff, u64::MAX);
}

#[test]
fn one_value_borrowed_many_times_counts_each_time() {
    let shared = String::from("same");
    let values: Vec<(&str, u64)> = vec![(&shared, 2), (&shared, 2), (&shared, 2), (&shared, 2)];
    let result = largest_differencing_method(&values);
    assert_eq!(result.set_1, &["same", "same"]);
    assert_eq!(result.set_2, &["same", "same"]);
    assert_eq!(result.diff, 0);
}

#[test]
fn unsized_items_are_borrowed_not_copied() {
    let long = [1u8, 2, 3];
    let short = [9u8];
    let values: Vec<(&[u8], u64)> = vec![(&long, 3), (&short, 1)];
    let result = largest_differencing_method(&values);
    assert_eq!(result.set_1.len(), 1);
    assert!(std::ptr::eq(result.set_1[0], &long[..]));
    assert!(std::ptr::eq(result.set_2[0], &short[..]));
    assert_eq!(result.diff, 2);
}

#[test]
fn every_item_lands_in_exactly_one_group() {
    assert_partition(&[]);
    assert_partition(&[5]);
    assert_partition(&[7, 7]);
    assert_partition(&[8, 7, 6, 5, 4]);
    assert_partition(&[4, 3, 3, 3, 8, 6, 5, 2]);
    assert_partition(&[1, 1, 1, 1, 1, 1, 1]);
    assert_partition(&scrambled(200, 44));
}

#[test]
fn differences_never_go_below_zero() {
    assert_partition(&[10, 9, 8, 7, 6, 5, 4, 3, 2, 1]);
    assert_partition(&[1, 2, 3, 4, 5, 6, 7, 8, 9, 10]);
    assert_partition(&[0, 0, 0, 1]);
    assert_partition(&[u64::MAX, u64::MAX - 1, 1, 0]);
    assert_partition(&[u64::MAX, u64::MAX, u64::MAX]);
    assert_partition(&[3, 3, 2, 2, 2]);
    assert_partition(&scrambled(64, 0));
    assert_partition(&scrambled(257, 60));
}

#[test]
fn descending_ten_items() {
    let sizes = [10u64, 9, 8, 7, 6, 5, 4, 3, 2, 1];
    let pairs = weighted(&sizes);
    let result = largest_differencing_method(&pairs);
    assert_eq!(result.diff, 1);
    assert_eq!(result.set_1.len(), 5);
    assert_eq!(result.set_2.len(), 5);
}

#[test]
fn two_hundred_scrambled_items_balance() {
    let sizes = scrambled(200, 44);
    let pairs = weighted(&sizes);
    let result = largest_differencing_method(&pairs);
    assert_eq!(result.diff, 0);
    assert_eq!(result.set_1.len() + result.set_2.len(), 200);
    assert_eq!(total(&result.set_1), total(&result.set_2));
}

#[test]
fn exchanging_the_groups_keeps_the_difference() {
    let sizes = [8u64, 7, 6, 5, 4];
    let pairs = weighted(&sizes);
    let result = largest_differencing_method(&pairs);
    let exchanged = LdmResult {
        set_1: result.set_2.clone(),
        set_2: result.set_1.clone(),
        diff: result.diff,
    };
    assert_eq!(
        distance(total(&exchanged.set_1), total(&exchanged.set_2)),
        distance(total(&result.set_1), total(&result.set_2))
    );
    assert_eq!(
        exchanged.diff as u128,
        distance(total(&exchanged.set_1), total(&exchanged.set_2))
    );
}

#[test]
fn difference_is_at_most_the_largest_size() {
    let sizes = [100u64, 1, 1, 1];
    let pairs = weighted(&sizes);
    let result = largest_differencing_method(&pairs);
    assert_eq!(result.diff, 97);
    assert!(result.diff <= 100);
    assert_eq!(result.set_1, &[&100]);
    assert_eq!(total(&result.set_2), 3);
}

#[test]
fn new_holds_one_item() {
    let value = String::from("only");
    let result = LdmResult::new(value.as_str(), 42);
    assert_eq!(result.set_1, &["only"]);
    assert!(result.set_2.is_empty());
    assert_eq!(result.diff, 42);
}

#[test]
fn difference_crosses_the_groups() {
    let mut high = LdmResult::new("h1", 9);
    high.set_1.push("h2");
    high.set_2.push("h3");
    let mut low = LdmResult::new("l1", 4);
    low.set_2.push("l2");
    low.set_2.push("l3");

    let joined = high.difference(low);

    assert_eq!(joined.set_1, &["h1", "h2", "l2", "l3"]);
    assert_eq!(joined.set_2, &["h3", "l1"]);
    assert_eq!(joined.diff, 5);
}

#[test]
fn difference_of_equal_results_is_zero() {
    let joined = LdmResult::new("a", 7).difference(LdmResult::new("b", 7));
    assert_eq!(joined.set_1, &["a"]);
    assert_eq!(joined.set_2, &["b"]);
    assert_eq!(joined.diff, 0);
}

#[test]
fn default_is_empty() {
    let result: LdmResult<str> = LdmResult::default();
    assert!(result.set_1.is_empty());
    assert!(result.set_2.is_empty());
    assert_eq!(result.diff, 0);
}

#[test]
fn results_compare_by_difference_alone() {
    let a = LdmResult::new("a", 5);
    let b = LdmResult::new("b", 5);
    let c = LdmResult::new("a", 6);
    assert!(a == b);
    assert!(a != c);
    assert!(a < c);
    assert!(c > b);
    assert!(a <= b);
    assert!(a >= b);
    assert_eq!(a.partial_cmp(&c), Some(std::cmp::Ordering::Less));
    assert_eq!(a.partial_cmp(&b), Some(std::cmp::Ordering::Equal));
    assert_eq!(c.partial_cmp(&a), Some(std::cmp::Ordering::Greater));
}
