use call_stack::usage::{max, max_of, Local, Max};

#[test]
fn max_keeps_exact_only_when_both_are() {
    assert_eq!(max(Max::Exact(4), Max::Exact(12)), Max::Exact(12));
    assert_eq!(max(Max::Exact(4), Max::LowerBound(2)), Max::LowerBound(4));
    assert_eq!(max(Max::LowerBound(4), Max::Exact(12)), Max::LowerBound(12));
    assert_eq!(max(Max::LowerBound(1), Max::LowerBound(1)), Max::LowerBound(1));
}

#[test]
fn max_of_nothing_is_nothing() {
    assert_eq!(max_of(&vec![]), None);
    assert_eq!(max_of(&vec![Max::Exact(3), Max::Exact(9), Max::Exact(1)]), Some(Max::Exact(9)));
}

#[test]
fn sums_are_contaminated_by_uncertainty() {
    assert_eq!(Max::Exact(8) + Local::Exact(4), Max::Exact(12));
    assert_eq!(Max::Exact(8) + Local::Unknown, Max::LowerBound(8));
    assert_eq!(Max::LowerBound(8) + Local::Exact(4), Max::LowerBound(12));
    assert_eq!(Max::Exact(8) + Max::LowerBound(4), Max::LowerBound(12));
    assert_eq!(Max::from(Local::Unknown), Max::LowerBound(0));
    assert_eq!(Max::from(Local::Exact(5)), Max::Exact(5));
}
