use quickenv::grid::print_as_grid;

fn commands(names: &[&str]) -> Vec<String> {
    names.iter().map(|name| name.to_string()).collect()
}

#[test]
fn without_a_width_each_command_has_its_line() {
    assert_eq!(print_as_grid(&commands(&["hello", "world"]), None), "hello\nworld\n");
    assert_eq!(print_as_grid(&commands(&[]), None), "");
    assert_eq!(print_as_grid(&commands(&[""]), None), "\n");
}

#[test]
fn with_a_width_commands_stand_in_columns() {
    assert_eq!(print_as_grid(&commands(&["a", "b", "c"]), Some(80)), "a  b  c\n");
    assert_eq!(print_as_grid(&commands(&["hello"]), Some(80)), "hello\n");
    assert_eq!(print_as_grid(&commands(&[]), Some(80)), "");
}

#[test]
fn grid_wraps_at_the_width() {
    assert_eq!(
        print_as_grid(&commands(&["aa", "b", "cc", "d"]), Some(6)),
        "aa  b\ncc  d\n"
    );
    assert_eq!(print_as_grid(&commands(&["abc", "de"]), Some(1)), "abc\nde\n");
}
