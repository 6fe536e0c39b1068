use gto_solver::cfr::terminal_utility;
use gto_solver::text::decimal_string;

#[test]
fn decimal_notation() {
    assert_eq!(decimal_string(0), "0");
    assert_eq!(decimal_string(7), "7");
    assert_eq!(decimal_string(10), "10");
    assert_eq!(decimal_string(300), "300");
    assert_eq!(decimal_string(u64::MAX), u64::MAX.to_string());
}

#[test]
fn kuhn_terminal_utilities() {
    assert_eq!(terminal_utility(&[3, 1], "pp"), Some(1));
    assert_eq!(terminal_utility(&[1, 3], "pp"), Some(-1));
    assert_eq!(terminal_utility(&[1, 3], "bp"), Some(1));
    assert_eq!(terminal_utility(&[3, 1], "pbp"), Some(-1));
    assert_eq!(terminal_utility(&[3, 1], "bb"), Some(2));
    assert_eq!(terminal_utility(&[1, 2], "pbb"), Some(-2));
    assert_eq!(terminal_utility(&[1, 2], ""), None);
    assert_eq!(terminal_utility(&[1, 2], "pb"), None);
    assert_eq!(terminal_utility(&[1, 2], "b"), None);
}
