use rustfst::interval_set::{IntInterval, IntervalSet};
use std::cmp::Ordering;

#[test]
fn test_ord_intinterval() {
    {
        let interval_1 = IntInterval::new(1, 4);
        let interval_2 = IntInterval::new(2, 3);
        assert_eq!(interval_1.cmp(&interval_2), Ordering::Less);
    }

    {
        let interval_1 = IntInterval::new(1, 4);
        let interval_2 = IntInterval::new(1, 4);
        assert_eq!(interval_1.cmp(&interval_2), Ordering::Equal);
    }

    {
        let interval_1 = IntInterval::new(3, 4);
        let interval_2 = IntInterval::new(2, 3);
        assert_eq!(interval_1.cmp(&interval_2), Ordering::Greater);
    }

    {
        let interval_1 = IntInterval::new(1, 4);
        let interval_2 = IntInterval::new(1, 3);
        assert_eq!(interval_1.cmp(&interval_2), Ordering::Less);
    }

    {
        let interval_1 = IntInterval::new(1, 4);
        let interval_2 = IntInterval::new(1, 5);
        assert_eq!(interval_1.cmp(&interval_2), Ordering::Greater);
    }
}

#[test]
fn test_normalize_interval_set() {
    let mut interval_set = IntervalSet::default();

    assert!(!interval_set.singleton());
    assert!(!interval_set.member(3));

    interval_set.push(IntInterval::new(0, 5));

    interval_set.push(IntInterval::new(3, 10));

    interval_set.normalize();

    assert!(interval_set.member(3));

    {
        let mut ref_interval_set = IntervalSet::default();
        ref_interval_set.push(IntInterval::new(0, 10));
        ref_interval_set.intervals.set_count(10);

        assert_eq!(interval_set, ref_interval_set);
    }

    let mut interval_set_2 = IntervalSet::default();
    interval_set_2.push(IntInterval::new(12, 13));
    assert!(interval_set_2.singleton());

    interval_set.union(interval_set_2);
    interval_set.normalize();

    {
        let mut ref_interval_set = IntervalSet::default();
        ref_interval_set.push(IntInterval::new(0, 10));
        ref_interval_set.push(IntInterval::new(12, 13));
        ref_interval_set.intervals.set_count(11);

        assert_eq!(interval_set, ref_interval_set);
    }
}

#[test]
fn normalize_skips_a_lone_empty_interval() {
    let mut interval_set = IntervalSet::default();
    interval_set.push(IntInterval::new(4, 4));
    interval_set.normalize();
    assert!(!interval_set.member(4));
    let mut ref_interval_set = IntervalSet::default();
    ref_interval_set.intervals.set_count(0);
    assert_eq!(interval_set, ref_interval_set);
}

#[test]
fn normalize_twice_changes_nothing() {
    let mut interval_set = IntervalSet::default();
    interval_set.push(IntInterval::new(7, 9));
    interval_set.push(IntInterval::new(2, 2));
    interval_set.push(IntInterval::new(1, 4));
    interval_set.push(IntInterval::new(4, 5));
    interval_set.normalize();
    let mut again = interval_set.clone();
    again.normalize();
    assert_eq!(interval_set, again);
    let mut ref_interval_set = IntervalSet::default();
    ref_interval_set.push(IntInterval::new(1, 5));
    ref_interval_set.push(IntInterval::new(7, 9));
    ref_interval_set.intervals.set_count(6);
    assert_eq!(interval_set, ref_interval_set);
}
