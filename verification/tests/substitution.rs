use sam::choices::{Choice, ChoiceMap};
use sam::dependencies::{substitute_all, substitute_choice, substitute_partial, ErrorsResolver};
use sam::identifiers::Identifier;

fn ident(name: &str, namespace: Option<&str>) -> Identifier {
    Identifier::with_namespace(name.to_string(), namespace.map(|s| s.to_string()))
}

#[test]
fn unnamespaced_placeholder_is_replaced() {
    let dep = ident("directory", Some("dirs"));
    let got = substitute_choice("ls {{ directory }}", &dep, "/tmp");
    assert_eq!("ls /tmp", got);
}

#[test]
fn namespaced_placeholder_is_replaced() {
    let dep = ident("directory", Some("dirs"));
    let got = substitute_choice("ls {{ dirs::directory }}", &dep, "/tmp");
    assert_eq!("ls /tmp", got);
}

#[test]
fn other_namespace_is_left_alone() {
    let dep = ident("directory", Some("dirs"));
    let got = substitute_choice("ls {{ other::directory }}", &dep, "/tmp");
    assert_eq!("ls {{ other::directory }}", got);
}

#[test]
fn all_spacing_forms_are_replaced() {
    let dep = ident("x", None);
    let got = substitute_choice("{{x}} {{ x}} {{x }} {{ x }}", &dep, "1");
    assert_eq!("1 1 1 1", got);
}

#[test]
fn every_occurrence_is_replaced() {
    let dep = ident("x", None);
    let got = substitute_choice("{{ x }}:{{ x }}", &dep, "v");
    assert_eq!("v:v", got);
}

#[test]
fn substitute_all_resolves_simple_alias() {
    let dep = ident("directory", Some("dirs"));
    let deps = vec![dep];
    let mut choices = ChoiceMap::new();
    choices.insert(
        ident("directory", Some("dirs")),
        Choice::new("/tmp", None),
    );
    let got = substitute_all("ls {{ directory }}", &deps, &choices).unwrap();
    assert_eq!("ls /tmp", got);
}

#[test]
fn substitute_all_missing_choice_fails() {
    let deps = vec![ident("pattern", None)];
    let choices = ChoiceMap::new();
    let got = substitute_all("grep {{ pattern }}", &deps, &choices);
    match got {
        Err(ErrorsResolver::NoChoiceWasAvailable(id)) => {
            assert_eq!(id.name(), "pattern");
        }
        _ => panic!("expected a missing-choice error"),
    }
}

#[test]
fn substitute_partial_leaves_unresolved_placeholders() {
    let deps = vec![ident("a", None), ident("b", None)];
    let mut choices = ChoiceMap::new();
    choices.insert(ident("a", None), Choice::new("1", None));
    let got = substitute_partial("{{ a }} {{ b }}", &deps, &choices);
    assert_eq!("1 {{ b }}", got);
}

#[test]
fn partial_agrees_with_all_when_every_choice_is_known() {
    let deps = vec![ident("a", None), ident("b", None)];
    let mut choices = ChoiceMap::new();
    choices.insert(ident("a", None), Choice::new("1", None));
    choices.insert(ident("b", None), Choice::new("2", None));
    let all = substitute_all("{{ a }}+{{ b }}", &deps, &choices).unwrap();
    let partial = substitute_partial("{{ a }}+{{ b }}", &deps, &choices);
    assert_eq!(all, partial);
    assert_eq!("1+2", all);
}

#[test]
fn substitution_is_idempotent_once_resolved() {
    let deps = vec![ident("a", None), ident("b", None)];
    let mut choices = ChoiceMap::new();
    choices.insert(ident("a", None), Choice::new("1", None));
    choices.insert(ident("b", None), Choice::new("2", None));
    let once = substitute_all("{{ a }}+{{ b }}", &deps, &choices).unwrap();
    let twice = substitute_all(&once, &deps, &choices).unwrap();
    assert_eq!(once, twice);
}

#[test]
fn only_own_placeholders_means_none_survive() {
    let dep = ident("x", Some("ns"));
    let got = substitute_choice("{{ x }} {{ ns::x }} {{x}}", &dep, "v");
    assert!(!got.contains('{') && !got.contains('}'));
    assert_eq!("v v v", got);
}

#[test]
fn dynamic_command_is_rendered_before_dispatch() {
    let deps = vec![ident("repo", Some("git"))];
    let mut choices = ChoiceMap::new();
    choices.insert(ident("repo", Some("git")), Choice::new("/src/x", None));
    let rendered = substitute_partial("git -C {{ repo }} branch --list", &deps, &choices);
    assert_eq!("git -C /src/x branch --list", rendered);
}
