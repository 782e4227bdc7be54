use yaml_env_bridge::env_to_yaml::{self, EnvTree};
use yaml_env_bridge::yaml_to_env::{self, Flattener};

fn to_env(yaml: &str) -> String {
    yaml_to_env::convert(yaml)
}

fn to_yaml(env: &str) -> String {
    env_to_yaml::convert(env)
}

#[test]
fn empty_inputs_give_empty_outputs() {
    assert_eq!(to_env(""), "");
    assert_eq!(to_yaml(""), "");
}

#[test]
fn yaml_skips_blank_and_comment_lines() {
    assert_eq!(to_env("# heading\n\n   \na: 1\n  # indented comment\n"), "A=1\n");
}

#[test]
fn yaml_strips_trailing_comments_but_not_inside_quotes() {
    assert_eq!(to_env("a: 1 # note\n"), "A=1\n");
    assert_eq!(to_env("a: \"x # y\"\n"), "A=\"x # y\"\n");
    assert_eq!(to_env("a: 'x # y'\n"), "A='x # y'\n");
    assert_eq!(to_env("a: x#y\n"), "A=x#y\n");
}

#[test]
fn yaml_value_may_hold_colons() {
    assert_eq!(to_env("url: http://example.com:80\n"), "URL=http://example.com:80\n");
    assert_eq!(to_env("urls:\n  - http://example.com\n"), "URLS__0=http://example.com\n");
}

#[test]
fn yaml_key_characters_map_to_env_name_characters() {
    assert_eq!(to_env("my-key.x: 1\n"), "MY_KEY_X=1\n");
    assert_eq!(to_env("snake_case: v\n"), "SNAKE_CASE=v\n");
}

#[test]
fn yaml_dedent_closes_parents() {
    assert_eq!(to_env("a:\n  b: 1\nc: 2\n"), "A__B=1\nC=2\n");
    assert_eq!(to_env("a:\n  b:\n    c: 1\n  d: 2\ne: 3\n"), "A__B__C=1\nA__D=2\nE=3\n");
}

#[test]
fn yaml_line_without_colon_opens_a_parent() {
    assert_eq!(to_env("justtext\n  a: 1\n"), "JUSTTEXT__A=1\n");
}

#[test]
fn yaml_sequence_items() {
    assert_eq!(to_env("items:\n  -\n    name: x\n"), "ITEMS__0__NAME=x\n");
    assert_eq!(to_env("s:\n  - db:\n      host: h\n"), "S__0__DB__HOST=h\n");
    assert_eq!(to_env("t:\n  - a\n  - b\n  - c\n"), "T__0=a\nT__1=b\nT__2=c\n");
    assert_eq!(to_env("- a\n- b\n"), "0=a\n1=b\n");
}

#[test]
fn yaml_crlf_line_endings() {
    assert_eq!(to_env("a: 1\r\nb: 2\r\n"), "A=1\nB=2\n");
}

#[test]
fn yaml_indentation_counts_bytes() {
    // U+00A0 is whitespace of two bytes in UTF-8: the parent `a` sits at
    // indentation 2, so the following line at two spaces is its sibling.
    assert_eq!(to_env("\u{a0}a:\n  b: 1\n"), "B=1\n");
}

#[test]
fn flattener_streams_line_by_line() {
    let mut st = Flattener::new();
    assert!(st.has_room());
    assert_eq!(st.feed_line("database:"), None);
    assert_eq!(st.feed_line("  host: localhost"), Some("DATABASE__HOST=localhost".to_string()));
    assert_eq!(st.feed_line("# comment"), None);
    assert_eq!(st.feed_line("debug: true"), Some("DEBUG=true".to_string()));
}

#[test]
fn env_groups_that_are_not_adjacent_are_merged() {
    assert_eq!(to_yaml("A__X=1\nB=2\nA__Y=3\n"), "a:\n  x: 1\n  y: 3\nb: 2\n");
}

#[test]
fn env_later_assignment_wins() {
    assert_eq!(to_yaml("A=1\nA=2\n"), "a: 2\n");
    assert_eq!(to_yaml("A=1\nA__B=2\n"), "a:\n  b: 2\n");
    assert_eq!(to_yaml("A__B=2\nA=1\n"), "a: 1\n");
}

#[test]
fn env_index_groups_become_sequences() {
    assert_eq!(to_yaml("L__1=b\nL__0=a\n"), "l:\n  - a\n  - b\n");
    assert_eq!(to_yaml("L__0=a\nL__2=b\n"), "l:\n  0: a\n  2: b\n");
    assert_eq!(to_yaml("L__00=a\n"), "l:\n  00: a\n");
    assert_eq!(to_yaml("L__1=a\n"), "l:\n  1: a\n");
}

#[test]
fn env_sequence_item_mapping_rides_on_the_dash_line() {
    assert_eq!(to_yaml("S__0__DB__HOST=h\nS__0__DB__PORT=1\n"), "s:\n  - db:\n      host: h\n      port: 1\n");
    assert_eq!(to_yaml("0__A=1\n0__B=2\n1=x\n"), "- a: 1\n  b: 2\n- x\n");
}

#[test]
fn env_skips_blank_comment_and_malformed_lines() {
    assert_eq!(to_yaml("# c\n\nnoequals\n  A=1  \n"), "a: 1\n");
}

#[test]
fn env_value_keeps_later_equals_signs() {
    assert_eq!(to_yaml("A=b=c\n"), "a: b=c\n");
}

#[test]
fn env_key_split_is_left_to_right() {
    assert_eq!(to_yaml("A___B=1\n"), "a:\n  _b: 1\n");
}

#[test]
fn env_tree_reads_lines_then_renders() {
    let mut tree = EnvTree::new();
    tree.add_line("DATABASE__HOST=localhost");
    tree.add_line("DEBUG=true");
    tree.add_line("DATABASE__PORT=5432");
    assert_eq!(tree.render(), "database:\n  host: localhost\n  port: 5432\ndebug: true\n");
}

#[test]
fn round_trip_through_both_directions() {
    let env = "APP__NAME=demo\nAPP__PORTS__0=80\nAPP__PORTS__1=443\nLOG=info\n";
    let yaml = to_yaml(env);
    assert_eq!(yaml, "app:\n  name: demo\n  ports:\n    - 80\n    - 443\nlog: info\n");
    assert_eq!(to_env(&yaml), env);
}

#[test]
fn env_keys_are_lower_cased_beyond_ascii() {
    assert_eq!(to_yaml("ÄPFEL__GRÖSSE=3\n"), "äpfel:\n  grösse: 3\n");
}

#[test]
fn yaml_non_ascii_key_characters_become_underscores() {
    assert_eq!(to_env("äpfel: 3\n"), "_PFEL=3\n");
}

#[test]
fn yaml_comment_is_cut_at_its_first_marker() {
    assert_eq!(to_env("a: x  # y # z\n"), "A=x\n");
    assert_eq!(to_env(&to_yaml("A=x\n")), "A=x\n");
}
