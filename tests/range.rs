use threeway::Range;

fn pair(r: Option<Range>) -> Option<(usize, usize)> {
    r.map(|r| (r.0, r.1))
}

#[test]
fn intersect_overlapping() {
    assert_eq!(pair(Range(1, 5).intersect(Range(3, 8))), Some((3, 5)));
    assert_eq!(pair(Range(3, 8).intersect(Range(1, 5))), Some((3, 5)));
}

#[test]
fn intersect_touching_is_none() {
    assert_eq!(pair(Range(1, 3).intersect(Range(3, 6))), None);
    assert_eq!(pair(Range(4, 4).intersect(Range(0, 9))), None);
}

#[test]
fn contains_cases() {
    assert!(Range(0, 10).contains(Range(2, 5)));
    assert!(Range(2, 5).contains(Range(2, 5)));
    assert!(!Range(2, 5).contains(Range(1, 5)));
    assert!(Range(2, 5).contains(Range(3, 3)));
}

#[test]
fn get_between_gaps() {
    assert_eq!(pair(Range(5, 7).get_between(Range(0, 2))), Some((2, 5)));
    assert_eq!(pair(Range(0, 2).get_between(Range(5, 7))), Some((2, 5)));
    assert_eq!(pair(Range(2, 4).get_between(Range(0, 2))), None);
    assert_eq!(pair(Range(1, 4).get_between(Range(0, 2))), None);
    assert_eq!(pair(Range(0, 9).get_between(Range(3, 4))), None);
    assert_eq!(pair(Range(3, 5).get_between(Range(0, 0))), Some((0, 3)));
}

#[test]
fn transform_both_ways() {
    let r = Range(4, 9).transform(3);
    assert_eq!((r.0, r.1), (7, 12));
    let r = Range(4, 9).transform(-4);
    assert_eq!((r.0, r.1), (0, 5));
    let r = Range(4, 9).transform(0);
    assert_eq!((r.0, r.1), (4, 9));
}
