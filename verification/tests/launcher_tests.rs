use rsenv::environment::Environment;
use rsenv::launcher::{merge_env, split_command};

fn env_of(pairs: &[(&str, &str)]) -> Environment {
    let mut e = Environment::new();
    for (k, v) in pairs {
        e.set_var(k.to_string(), v.to_string());
    }
    e
}

#[test]
fn merge_passes_stored_variables_to_the_child() {
    let parent = vec![("PATH".to_string(), "/usr/bin".to_string())];
    let stored = env_of(&[("GREETING", "hi")]);
    let child = merge_env(&parent, &stored);
    assert_eq!(child.get("GREETING"), Some("hi".to_string()));
    assert_eq!(child.get("PATH"), Some("/usr/bin".to_string()));
}

#[test]
fn merge_lets_stored_values_override_inherited_ones() {
    let parent = vec![
        ("GREETING".to_string(), "bye".to_string()),
        ("HOME".to_string(), "/home/u".to_string()),
    ];
    let stored = env_of(&[("GREETING", "hi")]);
    let child = merge_env(&parent, &stored);
    assert_eq!(child.get("GREETING"), Some("hi".to_string()));
    assert_eq!(child.get("HOME"), Some("/home/u".to_string()));
    assert_eq!(child.vars.len(), 2);
}

#[test]
fn merge_onto_empty_parent_is_the_stored_set() {
    let stored = env_of(&[("A", "1"), ("B", "2")]);
    let child = merge_env(&Vec::new(), &stored);
    assert_eq!(child.vars, stored.vars);
}

#[test]
fn split_command_separates_program_and_arguments() {
    let line = vec!["printenv".to_string(), "GREETING".to_string(), "HOME".to_string()];
    let (program, args) = split_command(&line).unwrap();
    assert_eq!(program, "printenv");
    assert_eq!(args, vec!["GREETING".to_string(), "HOME".to_string()]);
}

#[test]
fn split_command_of_empty_line_is_nothing() {
    assert_eq!(split_command(&Vec::new()), None);
}
