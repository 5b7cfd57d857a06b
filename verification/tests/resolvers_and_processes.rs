use sam::choices::{Choice, ChoiceMap};
use sam::dependencies::{ErrorsResolver, ExecutionSequence, Resolver, StaticResolver};
use sam::identifiers::Identifier;
use sam::processes::ShellCommand;

fn ident(name: &str, namespace: Option<&str>) -> Identifier {
    Identifier::with_namespace(name.to_string(), namespace.map(|s| s.to_string()))
}

fn scripted() -> StaticResolver {
    let mut static_res = ChoiceMap::new();
    static_res.insert(ident("directory", Some("dirs")), Choice::new("/tmp", None));
    let dynamic_res = vec![(
        "git -C /src/x branch --list".to_string(),
        Choice::new("main", None),
    )];
    StaticResolver::new(dynamic_res, static_res, Some(ident("ls_dir", Some("dirs"))))
}

#[test]
fn scripted_resolver_answers_input() {
    let r = scripted();
    let got = r.resolve_input(ident("directory", Some("dirs")), "which directory?");
    assert_eq!(got.unwrap().value(), "/tmp");
    let missing = r.resolve_input(ident("ghost", None), "?");
    assert!(matches!(
        missing,
        Err(ErrorsResolver::NoChoiceWasAvailable(_))
    ));
}

#[test]
fn scripted_resolver_answers_dynamic_by_rendered_command() {
    let r = scripted();
    let cmd = ShellCommand::new("git -C /src/x branch --list".to_string());
    let got = r.resolve_dynamic(ident("branch", Some("git")), cmd);
    assert_eq!(got.unwrap().value(), "main");
    let unknown = ShellCommand::new("unknown".to_string());
    assert!(matches!(
        r.resolve_dynamic(ident("branch", Some("git")), unknown),
        Err(ErrorsResolver::NoChoiceWasAvailable(_))
    ));
}

#[test]
fn scripted_resolver_answers_static() {
    let r = scripted();
    let choices = vec![Choice::new("/tmp", None), Choice::new("/home", None)];
    let got = r.resolve_static(ident("directory", Some("dirs")), &choices);
    assert_eq!(got.unwrap().value(), "/tmp");
    assert!(matches!(
        r.resolve_static(ident("ghost", None), &choices),
        Err(ErrorsResolver::NoChoiceWasSelected(_))
    ));
}

#[test]
fn scripted_resolver_selects_identifier() {
    let r = scripted();
    let ids = vec![ident("ls_dir", Some("dirs"))];
    let got = r.select_identifier(&ids, None, "pick one").unwrap();
    assert!(got.is_same(&ident("ls_dir", Some("dirs"))));

    let empty = StaticResolver::new(Vec::new(), ChoiceMap::new(), None);
    assert!(matches!(
        empty.select_identifier(&ids, None, "pick one"),
        Err(ErrorsResolver::IdentifierSelectionEmpty)
    ));
}

#[test]
fn earlier_dynamic_entries_win() {
    let dynamic_res = vec![
        ("q".to_string(), Choice::new("first", None)),
        ("q".to_string(), Choice::new("second", None)),
    ];
    let r = StaticResolver::new(dynamic_res, ChoiceMap::new(), None);
    let got = r.resolve_dynamic(ident("v", None), ShellCommand::new("q".to_string()));
    assert_eq!(got.unwrap().value(), "first");
}

#[test]
fn execution_sequence_keeps_order() {
    let seq = ExecutionSequence::new(vec![
        ident("repo", Some("git")),
        ident("branch", Some("git")),
    ]);
    let ids = seq.identifiers();
    assert_eq!(ids.len(), 2);
    assert_eq!(ids[0].name(), "repo");
    assert_eq!(ids[1].name(), "branch");
    let slice = seq.as_slice();
    assert_eq!(slice.len(), 2);
    assert_eq!(slice[1].name(), "branch");
}

#[test]
fn shell_command_carries_its_value() {
    let cmd = ShellCommand::new("echo hi".to_string());
    assert_eq!(cmd.value().as_str(), "echo hi");
}

#[test]
fn env_references_are_expanded() {
    let cmd = ShellCommand::new("echo $USER lives in ${HOME}x".to_string());
    let vars = vec![
        ("USER".to_string(), "bob".to_string()),
        ("HOME".to_string(), "/home/bob".to_string()),
    ];
    let got = cmd.replace_env_vars_in_command(&vars);
    assert_eq!(got.value().as_str(), "echo bob lives in /home/bobx");
}

#[test]
fn unset_env_references_expand_to_nothing() {
    let cmd = ShellCommand::new("a $NOPE b".to_string());
    let got = cmd.replace_env_vars_in_command(&Vec::new());
    assert_eq!(got.value().as_str(), "a  b");
}

#[test]
fn text_that_is_no_reference_stays() {
    let cmd = ShellCommand::new("cost $1 and ${2X} and a lone $".to_string());
    let vars = vec![("X".to_string(), "no".to_string())];
    let got = cmd.replace_env_vars_in_command(&vars);
    assert_eq!(got.value().as_str(), "cost $1 and ${2X} and a lone $");
}

#[test]
fn earlier_bindings_win() {
    let cmd = ShellCommand::new("$A".to_string());
    let vars = vec![
        ("A".to_string(), "first".to_string()),
        ("A".to_string(), "second".to_string()),
    ];
    let got = cmd.replace_env_vars_in_command(&vars);
    assert_eq!(got.value().as_str(), "first");
}
