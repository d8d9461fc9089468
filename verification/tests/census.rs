use hpr_xtask::census::{accepted_census, output_problem,
    accepted_reason, census_block, run, splice, verdict, Command, BEGIN, END, USAGE};

#[test]
fn a_block_is_replaced_whole_and_only_once() {
    let text = format!("before\n{BEGIN}\nold\n{END}\nafter\n");
    let block = format!("{BEGIN}\nnew\n{END}");
    assert_eq!(
        splice(&text, &block, "f").unwrap(),
        format!("before\n{BEGIN}\nnew\n{END}\nafter\n")
    );
    assert!(splice("no block", &block, "f")
        .unwrap_err()
        .contains("no census block"));
    assert!(splice(&format!("{BEGIN}\nold"), &block, "f")
        .unwrap_err()
        .contains("no `"));
    let twice = format!("{text}{text}");
    assert!(splice(&twice, &block, "f").unwrap_err().contains("two"));
}

fn args(list: &[&str]) -> Vec<String> {
    list.iter().map(|arg| (*arg).to_owned()).collect()
}

#[test]
fn flags_are_refused_in_the_wrong_company() {
    assert!(run(&args(&["--check", "--accept"])).is_err());
    assert!(run(&args(&["--reason", "why"])).is_err());
    assert!(run(&args(&["--accept", "--reason"])).is_err());
    assert!(run(&args(&["--bogus"])).is_err());
}

#[test]
fn each_refusal_says_why_and_how_the_command_is_used() {
    assert_eq!(
        run(&args(&["--check", "--accept"])).err().unwrap(),
        format!("`--check` and `--accept` exclude each other\n\n{USAGE}")
    );
    assert_eq!(
        run(&args(&["--reason", "why"])).err().unwrap(),
        format!("`--reason` goes with `--accept`\n\n{USAGE}")
    );
    assert_eq!(
        run(&args(&["--accept", "--reason"])).err().unwrap(),
        format!("`--reason` needs its text\n\n{USAGE}")
    );
    assert_eq!(
        run(&args(&["--check", "--bogus", "--reason"])).err().unwrap(),
        format!("unknown argument `--bogus`\n\n{USAGE}")
    );
}

#[test]
fn the_flags_choose_the_command() {
    assert!(matches!(run(&args(&[])), Ok(Command::Print)));
    assert!(matches!(run(&args(&["--check"])), Ok(Command::Check)));
    match run(&args(&["--accept", "--reason", "a new reference"])) {
        Ok(Command::Accept { reason }) => assert_eq!(reason, "a new reference"),
        _ => panic!("not an accept"),
    }
    match run(&args(&["--reason", "first", "--accept", "--reason", "second"])) {
        Ok(Command::Accept { reason }) => assert_eq!(reason, "second"),
        _ => panic!("not an accept"),
    }
    match run(&args(&["--accept"])) {
        Ok(Command::Accept { reason }) => assert_eq!(reason, ""),
        _ => panic!("not an accept"),
    }
}

#[test]
fn each_splice_error_names_the_file_and_the_markers() {
    let block = format!("{BEGIN}\nnew\n{END}");
    assert_eq!(
        splice("no block", &block, "README.md").unwrap_err(),
        format!("README.md has no census block: add the line `{BEGIN}` and `{END}`")
    );
    assert_eq!(
        splice(&format!("{END}\n{BEGIN}\nold"), &block, "README.md").unwrap_err(),
        format!("README.md: the census block has no `{END}`")
    );
    assert_eq!(
        splice(&format!("{BEGIN}{END}{BEGIN}{END}"), &block, "a.md").unwrap_err(),
        "a.md has two census blocks"
    );
    assert_eq!(splice(&format!("{BEGIN}{END}"), "x", "a.md").unwrap(), "x");
}

#[test]
fn the_block_frames_the_table_with_its_markers() {
    assert_eq!(census_block("| a |"), format!("{BEGIN}\n\n| a |\n{END}"));
    let text = format!("x\n{BEGIN}\nold\n{END}\ny");
    let block = census_block("| new |");
    assert_eq!(splice(&text, &block, "f").unwrap(), format!("x\n{block}\ny"));
}

#[test]
fn the_check_fails_on_a_changed_row_or_a_stale_output() {
    assert_eq!(verdict(0, 0, 0), Ok(()));
    assert_eq!(
        verdict(0, 0, 2).unwrap_err(),
        "2 output(s) are stale: run `cargo xtask census --accept`"
    );
    assert_eq!(
        verdict(3, 1, 0).unwrap_err(),
        "3 row(s) differ from the accepted census, 1 of them for the worse: a regression beyond \
         its slack fails here. If the change is meant, accept it in writing: `cargo xtask census \
         --accept --reason <why>`, and commit validation/reports/census.json"
    );
    assert!(verdict(3, 1, 2)
        .unwrap_err()
        .ends_with("census.json; 2 output(s) are stale: run `cargo xtask census --accept`"));
}

#[test]
fn a_changed_census_needs_a_reason_in_words() {
    assert!(accepted_reason(true, "", Some("old")).is_err());
    assert!(accepted_reason(true, " \t ", None).is_err());
    assert_eq!(accepted_reason(true, "drag table fixed", Some("old")).ok(), Some("drag table fixed".to_owned()));
    assert_eq!(accepted_reason(false, "ignored", Some("old")).ok(), Some("old".to_owned()));
    assert_eq!(accepted_reason(false, "", None).ok(), Some(String::new()));
}

#[test]
fn splicing_the_same_block_again_changes_nothing() {
    let block = format!("{BEGIN}\nany table, with {BEGIN} inside\n{END}");
    let text = format!("a\n{BEGIN}\nold\n{END}\nb\n");
    let once = splice(&text, &block, "f").unwrap();
    assert_eq!(splice(&once, &block, "f").unwrap(), once);
}

#[test]
fn a_refusal_always_ends_with_the_usage() {
    for list in [
        &["--what"][..],
        &["--reason"][..],
        &["--check", "--accept"][..],
        &["--reason", "why"][..],
        &["--accept", "--reason", "--check", "--what"][..],
    ] {
        let error = run(&args(list)).err().unwrap();
        assert!(error.ends_with(&format!("\n\n{USAGE}")), "{list:?}");
    }
    // The text after `--reason` is not read as a flag.
    assert!(run(&args(&["--accept", "--reason", "--check"])).is_ok());
}

#[test]
fn the_check_says_which_output_is_stale_and_when_no_census_was_accepted() {
    assert_eq!(output_problem("README.md", &Ok("same".to_owned()), "same"), None);
    assert_eq!(
        output_problem("README.md", &Ok("old".to_owned()), "new").unwrap(),
        "README.md is not what the accepted census writes"
    );
    assert_eq!(
        output_problem("docs/accuracy.md", &Err("No such file".to_owned()), "new").unwrap(),
        "docs/accuracy.md: No such file"
    );
    assert_eq!(accepted_census(Some(3)), Ok(3));
    assert_eq!(
        accepted_census::<u8>(None).unwrap_err(),
        "validation/reports/census.json is missing; run `cargo xtask census --accept --reason <why>`"
    );
}
