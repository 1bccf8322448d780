use persistent_agent::bar_line;

fn text(v: Vec<char>) -> String {
    v.into_iter().collect()
}

#[test]
fn finite_bar_spans_its_columns() {
    assert_eq!(text(bar_line(2, 5, false)), "  |||");
}

#[test]
fn short_bar_gets_one_mark() {
    assert_eq!(text(bar_line(3, 3, false)), "   |");
    assert_eq!(text(bar_line(0, 0, false)), "|");
}

#[test]
fn essential_bar_ends_in_an_arrow() {
    assert_eq!(text(bar_line(1, 4, true)), " |||\u{2192}\u{221e}");
}
