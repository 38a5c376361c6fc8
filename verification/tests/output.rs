use benchkit::output::{lpad, rpad, separator};

#[test]
fn rpad_right_aligns() {
    assert_eq!(rpad("abc", 6), "   abc");
    assert_eq!(rpad("abc", 6), format!("{:>6}", "abc"));
    assert_eq!(rpad("abcdef", 3), "abcdef");
    assert_eq!(rpad("", 2), "  ");
}

#[test]
fn lpad_left_aligns() {
    assert_eq!(lpad("mean", 12), "mean        ");
    assert_eq!(lpad("mean", 12), format!("{:<12}", "mean"));
    assert_eq!(lpad("mean", 2), "mean");
}

#[test]
fn padding_counts_characters() {
    assert_eq!(rpad("µs", 4), "  µs");
    assert_eq!(rpad("µs", 4), format!("{:>4}", "µs"));
    assert_eq!(lpad("0.216×", 8), format!("{:<8}", "0.216×"));
}

#[test]
fn separator_repeats_rule() {
    assert_eq!(separator(3), "───");
    assert_eq!(separator(0), "");
    assert_eq!(separator(62).chars().count(), 62);
}
