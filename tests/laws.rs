use wrr::{IWRRSelector, IWRRSelectorByWider};

fn take_narrow<const LEN: usize>(selector: &mut IWRRSelector<LEN>, n: usize) -> Vec<usize> {
    (0..n).map(|_| selector.select()).collect()
}

fn take_wide<const LEN: usize>(selector: &mut IWRRSelectorByWider<LEN>, n: usize) -> Vec<usize> {
    (0..n).map(|_| selector.select()).collect()
}

fn counts(picks: &[usize], len: usize) -> Vec<usize> {
    let mut c = vec![0; len];
    for &p in picks {
        c[p] += 1;
    }
    c
}

#[test]
fn zero_weight_never_chosen() {
    let mut selector = IWRRSelector::new([3, 0, 2, 0]);
    let picks = take_narrow(&mut selector, 4000);
    assert!(picks.iter().all(|&p| p == 0 || p == 2));
    let c = counts(&picks, 4);
    assert_eq!(c[1], 0);
    assert_eq!(c[3], 0);
    assert_eq!(c[0] + c[2], 4000);
}

#[test]
fn cycle_counts_are_weight_plus_one() {
    let mut selector = IWRRSelector::new([6, 3, 1]);
    let cycle = take_narrow(&mut selector, 13);
    assert_eq!(counts(&cycle, 3), vec![7, 4, 2]);
    let again = take_narrow(&mut selector, 13);
    assert_eq!(cycle, again);

    let weights = [18, 16, 12, 14, 8, 10, 4, 6, 2, 1];
    let mut selector = IWRRSelector::new(weights);
    let len: usize = weights.iter().map(|&w| w as usize + 1).sum();
    let cycle = take_narrow(&mut selector, len);
    let expected: Vec<usize> = weights.iter().map(|&w| w as usize + 1).collect();
    assert_eq!(counts(&cycle, 10), expected);
    assert_eq!(selector.round(), 18);
    assert_eq!(take_narrow(&mut selector, len), cycle);
}

#[test]
fn cycle_counts_skip_zero_weights() {
    let mut selector = IWRRSelectorByWider::new([0, 2, 0, 1]);
    let cycle = take_wide(&mut selector, 5);
    assert_eq!(counts(&cycle, 4), vec![0, 3, 0, 2]);
    assert_eq!(take_wide(&mut selector, 5), cycle);
}

#[test]
fn same_weights_same_sequence() {
    let mut a = IWRRSelector::new([5, 2, 7, 0, 1]);
    let mut b = IWRRSelector::new([5, 2, 7, 0, 1]);
    assert_eq!(take_narrow(&mut a, 1000), take_narrow(&mut b, 1000));
    assert_eq!(a.round(), b.round());
    assert_eq!(a.pos(), b.pos());

    let mut c = IWRRSelectorByWider::new([5, 2, 7, 0, 1]);
    let mut d = IWRRSelectorByWider::new([5, 2, 7, 0, 1]);
    assert_eq!(take_wide(&mut c, 1000), take_wide(&mut d, 1000));
}

#[test]
fn uniform_weights_alternate() {
    let mut selector = IWRRSelector::new([1, 1]);
    let picks = take_narrow(&mut selector, 1001);
    for (i, &p) in picks.iter().enumerate() {
        assert_eq!(p, i % 2);
    }
    let mut selector = IWRRSelectorByWider::new([1, 1]);
    let picks = take_wide(&mut selector, 1001);
    for (i, &p) in picks.iter().enumerate() {
        assert_eq!(p, i % 2);
    }
}

#[test]
fn single_nonzero_weight_always_chosen() {
    let mut selector = IWRRSelector::new([1, 0]);
    assert!(take_narrow(&mut selector, 10000).iter().all(|&p| p == 0));
    let mut selector = IWRRSelectorByWider::new([1, 0]);
    assert!(take_wide(&mut selector, 10000).iter().all(|&p| p == 0));
}

#[test]
fn construction_at_the_sentinel() {
    assert!(IWRRSelector::try_new([255, 1]).is_none());
    assert!(IWRRSelector::try_new([1, 255]).is_none());
    let s = IWRRSelector::try_new([254, 1]).unwrap();
    assert_eq!(s.max_weight(), 254);
    assert_eq!(IWRRSelector::new([254]).max_weight(), 254);

    assert!(IWRRSelectorByWider::try_new([usize::MAX, 1]).is_none());
    let w = IWRRSelectorByWider::try_new([usize::MAX - 1, 1]).unwrap();
    assert_eq!(w.max_weight(), usize::MAX - 1);
}

#[test]
fn two_one_scenario() {
    let mut selector = IWRRSelector::new([2, 1]);
    assert_eq!(take_narrow(&mut selector, 5), vec![0, 1, 0, 1, 0]);
    assert_eq!(selector.round(), 2);
    assert_eq!(selector.pos(), 1);
    assert_eq!(take_narrow(&mut selector, 5), vec![0, 1, 0, 1, 0]);

    let mut wide = IWRRSelectorByWider::new([2, 1]);
    assert_eq!(take_wide(&mut wide, 10), vec![0, 1, 0, 1, 0, 0, 1, 0, 1, 0]);
}

#[test]
fn reset_realigns() {
    let mut fresh = IWRRSelector::new([3, 1, 2]);
    fresh.reset();
    assert_eq!(fresh.round(), 0);
    assert_eq!(fresh.pos(), 0);
    let mut untouched = IWRRSelector::new([3, 1, 2]);
    assert_eq!(take_narrow(&mut fresh, 30), take_narrow(&mut untouched, 30));

    let mut selector = IWRRSelector::new([3, 1, 2]);
    let first = take_narrow(&mut selector, 20);
    take_narrow(&mut selector, 4);
    selector.reset();
    assert_eq!(selector.round(), 0);
    assert_eq!(selector.pos(), 0);
    assert_eq!(selector.try_weight(0), Some(3));
    assert_eq!(selector.try_weight(1), Some(1));
    assert_eq!(selector.try_weight(2), Some(2));
    assert_eq!(take_narrow(&mut selector, 20), first);

    let mut wide = IWRRSelectorByWider::new([3, 1, 2]);
    let first = take_wide(&mut wide, 7);
    wide.reset();
    assert_eq!(take_wide(&mut wide, 7), first);
}

#[test]
fn accessors() {
    let selector = IWRRSelector::new([4, 0, 9]);
    assert_eq!(selector.len(), 3);
    assert_eq!(selector.max_weight(), 9);
    assert_eq!(selector.round(), 0);
    assert_eq!(selector.pos(), 0);
    assert_eq!(selector.try_weight(1), Some(0));
    assert_eq!(selector.try_weight(2), Some(9));
    assert_eq!(selector.try_weight(3), None);

    let wide = IWRRSelectorByWider::new([4, 0, 9, 1_000_000]);
    assert_eq!(wide.len(), 4);
    assert_eq!(wide.max_weight(), 1_000_000);
    assert_eq!(wide.try_weight(3), Some(1_000_000));
    assert_eq!(wide.try_weight(4), None);
}

#[test]
fn default_is_plain_round_robin() {
    let mut selector: IWRRSelector<3> = Default::default();
    assert_eq!(selector.max_weight(), 1);
    assert_eq!(take_narrow(&mut selector, 9), vec![0, 1, 2, 0, 1, 2, 0, 1, 2]);
    let mut wide: IWRRSelectorByWider<2> = Default::default();
    assert_eq!(wide.try_weight(1), Some(1));
    assert_eq!(take_wide(&mut wide, 4), vec![0, 1, 0, 1]);
}

#[test]
fn change_weight_rules() {
    let mut selector = IWRRSelector::new([2, 1]);
    assert_eq!(selector.change_weight(0, 255), None);
    assert_eq!(selector.change_weight(5, 255), None);
    assert_eq!(selector.change_weight(2, 3), None);
    assert_eq!(selector.try_weight(0), Some(2));
    assert_eq!(selector.change_weight(1, 0), Some(1));
    assert_eq!(selector.try_weight(1), Some(0));
    assert_eq!(take_narrow(&mut selector, 6), vec![0, 0, 0, 0, 0, 0]);

    let mut wide = IWRRSelectorByWider::new([2, 1]);
    assert_eq!(wide.change_weight(1, usize::MAX), None);
    assert_eq!(wide.change_weight(1, 3), Some(1));
    assert_eq!(wide.try_weight(1), Some(3));
}

#[test]
fn change_weight_keeps_cycle_bound() {
    let mut selector = IWRRSelector::new([2, 1]);
    assert_eq!(selector.change_weight(1, 5), Some(1));
    assert_eq!(selector.max_weight(), 2);
    assert_eq!(take_narrow(&mut selector, 12), vec![0, 1, 0, 1, 0, 1, 0, 1, 0, 1, 0, 1]);
}
