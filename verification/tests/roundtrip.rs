use yaml_env_bridge::{env_to_yaml, yaml_to_env};

const SIMPLE_YAML: &str = "database:
  host: localhost
  port: 5432
  credentials:
    user: admin
debug: true
";

const SIMPLE_ENV: &str = "DATABASE__HOST=localhost
DATABASE__PORT=5432
DATABASE__CREDENTIALS__USER=admin
DEBUG=true
";

const SEQUENCES_YAML: &str = "servers:
  - name: web1
    port: 80
  - name: web2
    port: 81
tags:
  - a
  - b
";

const SEQUENCES_ENV: &str = "SERVERS__0__NAME=web1
SERVERS__0__PORT=80
SERVERS__1__NAME=web2
SERVERS__1__PORT=81
TAGS__0=a
TAGS__1=b
";

const ROOT_SEQUENCE_YAML: &str = "- name: web1
  port: 80
- name: web2
  port: 81
";

const ROOT_SEQUENCE_ENV: &str = "0__NAME=web1
0__PORT=80
1__NAME=web2
1__PORT=81
";

fn fixture(name: &str) -> String {
    let text = match name {
        "simple.yaml" => SIMPLE_YAML,
        "simple.env" => SIMPLE_ENV,
        "sequences.yaml" => SEQUENCES_YAML,
        "sequences.env" => SEQUENCES_ENV,
        "root_sequence.yaml" => ROOT_SEQUENCE_YAML,
        "root_sequence.env" => ROOT_SEQUENCE_ENV,
        other => panic!("no fixture named {:?}", other),
    };
    text.to_string()
}

fn to_env(yaml: &str) -> String {
    yaml_to_env::convert(yaml)
}

fn to_yaml(env: &str) -> String {
    env_to_yaml::convert(env)
}

/// Checks both conversion directions against a matched pair of fixtures,
/// and that converting there and back lands exactly where it started - the
/// fixtures are written so both are true at once, since each is already the
/// canonical form the other direction would produce.
fn check_pair(yaml_fixture: &str, env_fixture: &str) {
    let yaml = fixture(yaml_fixture);
    let env = fixture(env_fixture);

    assert_eq!(to_env(&yaml), env, "yaml -> env mismatch for {}", yaml_fixture);
    assert_eq!(to_yaml(&env), yaml, "env -> yaml mismatch for {}", env_fixture);

    assert_eq!(to_yaml(&to_env(&yaml)), yaml, "yaml round trip mismatch for {}", yaml_fixture);
    assert_eq!(to_env(&to_yaml(&env)), env, "env round trip mismatch for {}", env_fixture);
}

#[test]
fn round_trips_simple_mapping() {
    check_pair("simple.yaml", "simple.env");
}

#[test]
fn round_trips_sequences_of_mappings_and_scalars() {
    check_pair("sequences.yaml", "sequences.env");
}

#[test]
fn round_trips_root_level_sequence() {
    check_pair("root_sequence.yaml", "root_sequence.env");
}
