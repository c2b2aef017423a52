use chained_map::flatten;

fn count<T>(outer: Vec<Vec<T>>) -> usize {
    let mut it = flatten(outer);
    let mut n = 0;
    while it.next().is_some() {
        n += 1;
    }
    n
}

#[test]
fn empty() {
    assert_eq!(count(Vec::<Vec<()>>::new()), 0);
}

#[test]
fn one() {
    assert_eq!(count(vec![vec!["a"]]), 1);
}

#[test]
fn two() {
    assert_eq!(count(vec![vec!["a", "b"]]), 2);
}

#[test]
fn two_wide() {
    assert_eq!(count(vec![vec!["a"], vec!["b"]]), 2);
}

#[test]
fn items_come_in_order_across_empty_inners() {
    let mut it = flatten(vec![vec![], vec!["a", "b"], vec![], vec!["c"], vec![]]);
    assert_eq!(it.next(), Some("a"));
    assert_eq!(it.next(), Some("b"));
    assert_eq!(it.next(), Some("c"));
    assert_eq!(it.next(), None);
    assert_eq!(it.next(), None);
}
