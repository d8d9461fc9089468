use hpr_xtask::layering::{check, path_to, Package, Workspace};

fn package(name: &str, dependencies: &[&str], forbids: &[&str]) -> Package {
    Package {
        name: name.to_owned(),
        wasm: true,
        forbids: forbids.iter().map(|name| (*name).to_owned()).collect(),
        lib: Some(name.replace('-', "_")),
        dependencies: dependencies.iter().map(|name| (*name).to_owned()).collect(),
        examples: Vec::new(),
    }
}

fn workspace_of(packages: Vec<Package>) -> Workspace {
    Workspace {
        root: "/nowhere".to_owned(),
        packages,
    }
}

#[test]
fn a_crate_with_no_rule_may_depend_on_anything() {
    let workspace = workspace_of(vec![
        package("logs", &["sim"], &[]),
        package("sim", &[], &[]),
    ]);
    assert!(check(&workspace).is_ok());
}

#[test]
fn a_direct_forbidden_dependency_is_caught() {
    let workspace = workspace_of(vec![
        package("logs", &["sim"], &["sim"]),
        package("sim", &[], &[]),
    ]);
    let err = check(&workspace).unwrap_err();
    assert!(err.contains("logs must not depend on `sim`"), "{err}");
    assert!(err.contains("logs -> sim"), "{err}");
}

#[test]
fn a_forbidden_dependency_reached_through_another_crate_is_caught() {
    let workspace = workspace_of(vec![
        package("logs", &["shared"], &["sim"]),
        package("shared", &["sim"], &[]),
        package("sim", &[], &[]),
    ]);
    let err = check(&workspace).unwrap_err();
    assert!(err.contains("logs -> shared -> sim"), "{err}");
}

#[test]
fn the_shortest_path_is_reported() {
    let workspace = workspace_of(vec![
        package("logs", &["long", "sim"], &["sim"]),
        package("long", &["longer"], &[]),
        package("longer", &["sim"], &[]),
        package("sim", &[], &[]),
    ]);
    let err = check(&workspace).unwrap_err();
    assert!(err.contains("logs -> sim"), "{err}");
    assert!(!err.contains("longer"), "{err}");
}

#[test]
fn a_dependency_cycle_does_not_hang_the_walk() {
    let workspace = workspace_of(vec![
        package("logs", &["a"], &["sim"]),
        package("a", &["b"], &[]),
        package("b", &["a"], &[]),
        package("sim", &[], &[]),
    ]);
    assert!(check(&workspace).is_ok());
}

#[test]
fn an_outside_crate_of_the_same_name_is_not_a_layer() {
    let workspace = workspace_of(vec![package("logs", &["serde"], &["serde"])]);
    let err = check(&workspace).unwrap_err();
    assert!(err.contains("not a crate in this workspace"), "{err}");
}

#[test]
fn the_whole_message_names_each_broken_rule_on_its_own_line() {
    let workspace = workspace_of(vec![
        package("logs", &["sim"], &["sim", "serde"]),
        package("sim", &[], &[]),
    ]);
    assert_eq!(
        check(&workspace).unwrap_err(),
        "layering: logs must not depend on `sim`, but does: logs -> sim\n           \
         logs: forbids `serde`, which is not a crate in this workspace\n\
         See the layering rules in xtask/src/layering.rs."
    );
}

#[test]
fn a_path_starts_at_the_crate_and_ends_at_the_one_reached() {
    let packages = vec![
        package("a", &["b", "serde"], &[]),
        package("b", &["c"], &[]),
        package("c", &[], &[]),
    ];
    let path = path_to(&packages, &"a".to_owned(), &"c".to_owned()).unwrap();
    assert_eq!(path, vec!["a", "b", "c"]);
    assert_eq!(path_to(&packages, &"c".to_owned(), &"a".to_owned()), None);
    assert_eq!(path_to(&packages, &"a".to_owned(), &"serde".to_owned()), None);
}

#[test]
fn of_two_shortest_paths_the_first_listed_is_reported() {
    let packages = vec![
        package("logs", &["b", "a"], &["sim"]),
        package("a", &["sim"], &[]),
        package("b", &["sim"], &[]),
        package("sim", &[], &[]),
    ];
    let path = path_to(&packages, &"logs".to_owned(), &"sim".to_owned()).unwrap();
    assert_eq!(path, vec!["logs", "b", "sim"]);
    let workspace = workspace_of(packages);
    assert!(check(&workspace).unwrap_err().contains("logs -> b -> sim"));
}

#[test]
fn the_rules_hold_exactly_when_no_chain_reaches_a_forbidden_crate() {
    // `a` reaches `d` only through `b` and `c`; an outside crate in between is no link.
    let reaching = workspace_of(vec![
        package("a", &["b", "serde"], &["d"]),
        package("b", &["c"], &[]),
        package("c", &["d"], &[]),
        package("d", &[], &[]),
    ]);
    assert_eq!(
        check(&reaching).unwrap_err(),
        "layering: a must not depend on `d`, but does: a -> b -> c -> d\nSee the layering rules in xtask/src/layering.rs."
    );
    let apart = workspace_of(vec![
        package("a", &["b"], &["d"]),
        package("b", &["serde"], &[]),
        package("d", &["a"], &[]),
    ]);
    assert!(check(&apart).is_ok());
}
