use quickenv::env::Env;
use quickenv::protocol::{
    begin_after_marker, begin_before_marker, end_after_marker, end_before_marker, parse_env_diff,
    stream_is_well_formed, strip_newlines, DiffParser, ParseState,
};

fn env_of(pairs: &[(&str, &str)]) -> Env {
    let mut env = Env::new();
    for (name, value) in pairs {
        env.insert(name.as_bytes().to_vec(), value.as_bytes().to_vec());
    }
    env
}

#[test]
fn test_parse_env_diff() {
    let input = br#"
some output 1
// BEGIN QUICKENV-BEFORE
hello=world
bogus=wogus
// END QUICKENV-BEFORE
some output 2
// BEGIN QUICKENV-AFTER
hello=world
bogus=wogus
2
more=keys
// END QUICKENV-AFTER
some output 3
"#;

    assert!(stream_is_well_formed(input.as_slice()));
    let (old_env, new_env, output) = parse_env_diff(input.as_slice());
    assert_eq!(old_env, env_of(&[("hello", "world"), ("bogus", "wogus")]));

    assert_eq!(
        new_env,
        env_of(&[("hello", "world"), ("bogus", "wogus\n2"), ("more", "keys")])
    );

    assert_eq!(
        output,
        vec![
            b"".as_slice().to_owned(),
            b"some output 1".as_slice().to_owned(),
            b"some output 2".as_slice().to_owned(),
            b"some output 3".as_slice().to_owned()
        ]
    );
}

fn vars(pairs: &[(&str, &str)]) -> Env {
    env_of(pairs)
}

#[test]
fn parser_walks_through_its_five_states() {
    let mut parser = DiffParser::new();
    assert_eq!(parser.state(), ParseState::PreBefore);
    assert!(parser.feed(b"before anything"));
    assert_eq!(parser.state(), ParseState::PreBefore);
    assert!(!parser.feed(b"// BEGIN QUICKENV-BEFORE"));
    assert_eq!(parser.state(), ParseState::InBefore);
    assert!(!parser.feed(b"A=1"));
    assert!(!parser.feed(b"// END QUICKENV-BEFORE"));
    assert_eq!(parser.state(), ParseState::PreAfter);
    assert!(parser.feed(b"script says hi"));
    assert!(!parser.feed(b"// BEGIN QUICKENV-AFTER"));
    assert_eq!(parser.state(), ParseState::InAfter);
    assert!(!parser.feed(b"A=2"));
    assert!(!parser.feed(b"// END QUICKENV-AFTER"));
    assert_eq!(parser.state(), ParseState::End);
    assert!(parser.feed(b"after everything"));
    assert!(parser.feed(b"// BEGIN QUICKENV-BEFORE"));
    assert_eq!(parser.state(), ParseState::End);
    let (old_env, new_env) = parser.finish();
    assert_eq!(old_env, vars(&[("A", "1")]));
    assert_eq!(new_env, vars(&[("A", "2")]));
}

#[test]
fn markers_count_only_where_they_are_awaited() {
    let input = b"// END QUICKENV-BEFORE\n// BEGIN QUICKENV-AFTER\n// BEGIN QUICKENV-BEFORE\nA=1\n// BEGIN QUICKENV-BEFORE=x\n// END QUICKENV-BEFORE\n// END QUICKENV-AFTER\n";
    assert!(stream_is_well_formed(input));
    let (old_env, new_env, output) = parse_env_diff(input);
    assert_eq!(old_env, vars(&[("A", "1"), ("// BEGIN QUICKENV-BEFORE", "x")]));
    assert_eq!(new_env, Env::new());
    assert_eq!(
        output,
        vec![
            b"// END QUICKENV-BEFORE".to_vec(),
            b"// BEGIN QUICKENV-AFTER".to_vec(),
            b"// END QUICKENV-AFTER".to_vec(),
        ]
    );
}

#[test]
fn continuation_does_not_cross_from_one_dump_to_the_next() {
    let input = b"// BEGIN QUICKENV-BEFORE\nA=1\n// END QUICKENV-BEFORE\n// BEGIN QUICKENV-AFTER\norphan\n// END QUICKENV-AFTER\n";
    assert!(!stream_is_well_formed(input));
    let mut parser = DiffParser::new();
    for line in [
        b"// BEGIN QUICKENV-BEFORE".as_slice(),
        b"A=1",
        b"// END QUICKENV-BEFORE",
        b"// BEGIN QUICKENV-AFTER",
    ] {
        assert!(parser.accepts(line));
        parser.feed(line);
    }
    assert!(!parser.accepts(b"orphan"));
    assert!(parser.accepts(b"B=2"));
    assert!(parser.accepts(b"// END QUICKENV-AFTER"));
}

#[test]
fn dump_may_not_open_with_a_continuation() {
    assert!(!stream_is_well_formed(b"// BEGIN QUICKENV-BEFORE\norphan\n"));
    assert!(stream_is_well_formed(b"orphan\n// BEGIN QUICKENV-BEFORE\n"));
    assert!(stream_is_well_formed(b""));
}

#[test]
fn stream_that_stops_early_gives_what_was_read() {
    let input = b"out\n// BEGIN QUICKENV-BEFORE\nA=1\nB=2";
    assert!(stream_is_well_formed(input));
    let (old_env, new_env, output) = parse_env_diff(input);
    assert_eq!(old_env, vars(&[("A", "1"), ("B", "2")]));
    assert_eq!(new_env, Env::new());
    assert_eq!(output, vec![b"out".to_vec()]);
}

#[test]
fn newlines_at_the_end_of_a_line_are_stripped_before_it_is_read() {
    assert_eq!(strip_newlines(b"abc\n\n"), b"abc");
    assert_eq!(strip_newlines(b"a\nb\n"), b"a\nb");
    assert_eq!(strip_newlines(b"\n"), b"");
    assert_eq!(strip_newlines(b""), b"");
    let mut parser = DiffParser::new();
    assert!(!parser.feed(b"// BEGIN QUICKENV-BEFORE\n"));
    assert_eq!(parser.state(), ParseState::InBefore);
    assert!(!parser.feed(b"A=1\n"));
    let (old_env, _) = parser.finish();
    assert_eq!(old_env, vars(&[("A", "1")]));
}

#[test]
fn markers_are_the_lines_that_the_script_echoes() {
    assert_eq!(begin_before_marker(), b"// BEGIN QUICKENV-BEFORE");
    assert_eq!(end_before_marker(), b"// END QUICKENV-BEFORE");
    assert_eq!(begin_after_marker(), b"// BEGIN QUICKENV-AFTER");
    assert_eq!(end_after_marker(), b"// END QUICKENV-AFTER");
}
