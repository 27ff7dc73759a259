use shop_cart::utils::CombinationsGetter;

fn drain(getter: &mut CombinationsGetter<u32>) -> Vec<Vec<u32>> {
    let mut all = Vec::new();
    while let Some(combination) = getter.next() {
        all.push(combination.into_iter().copied().collect());
    }
    all
}

#[test]
fn walk_counts_with_the_first_sequence_fastest() {
    let first = [3u32, 1];
    let second = [5u32, 2, 8];
    let mut getter = CombinationsGetter::new(&[&first[..], &second[..]]);
    assert_eq!(
        drain(&mut getter),
        vec![vec![3, 5], vec![1, 5], vec![3, 2], vec![1, 2], vec![3, 8], vec![1, 8]]
    );
}

#[test]
fn every_pair_comes_exactly_once() {
    let first = [3u32, 1];
    let second = [5u32, 2, 8];
    let all = drain(&mut CombinationsGetter::new(&[&first[..], &second[..]]));
    assert_eq!(all.len(), 6);
    for a in first {
        for b in second {
            assert_eq!(all.iter().filter(|pair| **pair == vec![a, b]).count(), 1);
        }
    }
}

#[test]
fn getter_yields_nothing_after_its_last_selection() {
    let only = [7u32, 8];
    let mut getter = CombinationsGetter::new(&[&only[..]]);
    assert_eq!(getter.next(), Some(vec![&7]));
    assert_eq!(getter.next(), Some(vec![&8]));
    assert_eq!(getter.next(), None);
    assert_eq!(getter.next(), None);
}

#[test]
fn no_sequence_gives_one_empty_selection() {
    let none: [&[u32]; 0] = [];
    let mut getter = CombinationsGetter::new(&none);
    assert_eq!(getter.next(), Some(vec![]));
    assert_eq!(getter.next(), None);
}

#[test]
fn empty_sequence_gives_no_selection() {
    let first = [1u32, 2];
    let second: [u32; 0] = [];
    let mut getter = CombinationsGetter::new(&[&first[..], &second[..]]);
    assert_eq!(getter.next(), None);
    let mut getter = CombinationsGetter::new(&[&second[..], &first[..]]);
    assert_eq!(getter.next(), None);
}

#[test]
fn sequences_of_one_element_add_no_selection() {
    let lone = [4u32];
    let wide = [1u32, 2, 3];
    let mut getter = CombinationsGetter::new(&[&lone[..], &wide[..], &lone[..]]);
    assert_eq!(
        drain(&mut getter),
        vec![vec![4, 1, 4], vec![4, 2, 4], vec![4, 3, 4]]
    );
}

#[test]
fn selections_number_the_product_of_the_lengths() {
    let a = [0u32, 1, 2];
    let b = [0u32, 1];
    let c = [0u32, 1, 2, 3];
    let mut getter = CombinationsGetter::new(&[&a[..], &b[..], &c[..]]);
    let all = drain(&mut getter);
    assert_eq!(all.len(), 3 * 2 * 4);
    assert_eq!(all[0], vec![0, 0, 0]);
    assert_eq!(all[1], vec![1, 0, 0]);
    assert_eq!(all[3], vec![0, 1, 0]);
    assert_eq!(all[6], vec![0, 0, 1]);
    assert_eq!(all[all.len() - 1], vec![2, 1, 3]);
    let mut k: usize = 0;
    while k < all.len() {
        assert_eq!(all[k], vec![(k % 3) as u32, (k / 3 % 2) as u32, (k / 6) as u32]);
        k += 1;
    }
}

#[test]
fn selections_differ_even_where_prices_repeat() {
    // Each element carries its place beside a price that repeats.
    let a = [(0usize, 5u32), (1, 5)];
    let b = [(0usize, 5u32), (1, 5), (2, 5)];
    let mut getter = CombinationsGetter::new(&[&a[..], &b[..]]);
    let mut seen: Vec<Vec<usize>> = Vec::new();
    while let Some(combination) = getter.next() {
        let places: Vec<usize> = combination.iter().map(|item| item.0).collect();
        assert!(!seen.contains(&places));
        seen.push(places);
    }
    assert_eq!(
        seen,
        vec![vec![0, 0], vec![1, 0], vec![0, 1], vec![1, 1], vec![0, 2], vec![1, 2]]
    );
}

#[test]
fn getter_can_be_made_anew_over_the_same_sequences() {
    let a = [1u32, 2];
    let b = [3u32, 4];
    let arrays = [&a[..], &b[..]];
    let first = drain(&mut CombinationsGetter::new(&arrays));
    let second = drain(&mut CombinationsGetter::new(&arrays));
    assert_eq!(first, second);
    assert_eq!(first.len(), 4);
}
