use sam::aliases::Alias;
use sam::aliases_repository::{AliasesRepository, ErrorsAliasesRepository};
use sam::identifiers::Identifier;

fn alias_in_ns(name: &str, namespace: &str, desc: &str, template: &str) -> Alias {
    let mut a = Alias::new(name, desc, template);
    a.set_namespace(Some(namespace.to_string()));
    a
}

fn alias_ls_dir() -> Alias {
    alias_in_ns("ls_dir", "dirs", "list a directory", "ls {{ dirs::directory }}")
}

fn alias_grep_dir() -> Alias {
    alias_in_ns(
        "grep_dir",
        "dirs",
        "grep in a directory",
        "[[ dirs::ls_dir ]]|grep {{ pattern }}",
    )
}

fn alias_grep_dir_no_ns() -> Alias {
    alias_in_ns(
        "grep_dir",
        "dirs",
        "grep in a directory",
        "[[ ls_dir ]]| grep {{ pattern }}",
    )
}

#[test]
fn parse_test() {
    let a = Alias::new("name", "desc", "ls -l 1| [[ toto ]] | [[ ns::toto]]");
    let parsed = AliasesRepository::parse(&a);
    assert!(parsed.len() == 2);
    assert!(parsed[0].0 == 9 && parsed[0].1 == 19);
    assert!(parsed[0].2.name() == "toto");
    assert!(parsed[0].2.namespace == None);
    assert!(parsed[1].0 == 22 && parsed[1].1 == 35);
    assert!(parsed[1].2.name() == "toto");
    assert!(parsed[1].2.namespace == Some("ns".to_string()));
}

#[test]
fn substitute_alias_defs() {
    let aliases = vec![alias_ls_dir(), alias_grep_dir()];
    let a = alias_grep_dir();
    let up_alias = AliasesRepository::substitute_alias_defs(&a, &aliases);
    assert!(up_alias.is_ok());
    assert_eq!(
        "ls {{ dirs::directory }}|grep {{ pattern }}",
        up_alias.unwrap().alias()
    );
    let a_no_ns = alias_grep_dir_no_ns();
    let up_alias_no_ns = AliasesRepository::substitute_alias_defs(&a_no_ns, &aliases);
    assert!(up_alias_no_ns.is_ok());
    assert_eq!(
        "ls {{ dirs::directory }}| grep {{ pattern }}",
        up_alias_no_ns.unwrap().alias()
    );
}

#[test]
fn new() {
    let aliases = vec![alias_ls_dir(), alias_grep_dir(), alias_grep_dir_no_ns()];

    let ar = AliasesRepository::new(aliases).unwrap();
    let id = Identifier::with_namespace("grep_dir".to_string(), Some("dirs".to_string()));
    let alias = ar.get(&id);
    assert!(alias.is_ok());
    assert_eq!(
        "ls {{ dirs::directory }}| grep {{ pattern }}",
        alias.unwrap().alias()
    );
}

#[test]
fn nested_references_expand_fully() {
    let a = Alias::new("a", "", "x");
    let b = Alias::new("b", "", "[[ a ]]!");
    let c = Alias::new("c", "", "[[ b ]]?");
    let ar = AliasesRepository::new(vec![a, b, c]).unwrap();
    let got = ar
        .get(&Identifier::with_namespace("c".to_string(), None))
        .unwrap();
    assert_eq!("x!?", got.alias());
    let got_b = ar
        .get(&Identifier::with_namespace("b".to_string(), None))
        .unwrap();
    assert_eq!("x!", got_b.alias());
}

#[test]
fn cycle_is_rejected() {
    let a = Alias::new("a", "", "[[ b ]]");
    let b = Alias::new("b", "", "[[ a ]]");
    let r = AliasesRepository::new(vec![a, b]);
    match r {
        Err(ErrorsAliasesRepository::CycleDetected(path)) => {
            assert!(path.len() >= 2);
            assert!(path[0].is_same(&path[path.len() - 1]));
        }
        _ => panic!("expected a cycle error"),
    }
}

#[test]
fn self_reference_is_a_cycle() {
    let a = Alias::new("a", "", "do [[ a ]]");
    let r = AliasesRepository::new(vec![a]);
    assert!(matches!(r, Err(ErrorsAliasesRepository::CycleDetected(_))));
}

#[test]
fn missing_reference_is_rejected() {
    let a = Alias::new("a", "", "run [[ nowhere ]]");
    let r = AliasesRepository::new(vec![a]);
    match r {
        Err(ErrorsAliasesRepository::MissingDependencies(owner, missing)) => {
            assert_eq!(owner.name(), "a");
            assert_eq!(missing.name(), "nowhere");
        }
        _ => panic!("expected a missing-dependency error"),
    }
}

#[test]
fn get_unknown_alias_fails() {
    let ar = AliasesRepository::new(vec![Alias::new("a", "", "echo")]).unwrap();
    let id = Identifier::with_namespace("ghost".to_string(), None);
    assert!(matches!(
        ar.get(&id),
        Err(ErrorsAliasesRepository::AliasInvalidSelection(_))
    ));
}

#[test]
fn aliases_and_descriptions_enumerate() {
    let ar = AliasesRepository::new(vec![
        Alias::new("a", "first", "echo a"),
        Alias::new("b", "second", "echo b"),
    ])
    .unwrap();
    let all = ar.aliases();
    assert_eq!(all.len(), 2);
    let descs = ar.descriptions();
    assert_eq!(descs.len(), 2);
    assert!(descs.contains(&"first".to_string()));
    assert!(descs.contains(&"second".to_string()));
    let ids = ar.identifiers();
    assert_eq!(ids.len(), 2);
}
