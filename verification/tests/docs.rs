use hpr_xtask::docs::{check, current_milestone_problem, has_token, milestones};

const ROADMAP: &str = "\
## Phase 0

- [x] **M0.3 Lessons.** Done.
- [ ] **M1.5 Aerodynamics I (subsonic).**
  - Loft lessons: L1, L2.

  *Done when:* things.

- [x] **M1.10 Outputs.** Loft lessons: L3.

## Phase 1
Stray text mentioning L4.
";

fn run(doc: &str) -> Vec<String> {
    let crates = vec!["hpr-aero".to_owned(), "hpr-sim".to_owned()];
    let tests = vec![("hpr-sim".to_owned(), "optimum_delay_is_tested".to_owned())];
    check(doc, ROADMAP, &crates, &tests)
}

const PROCESS: &str = "| P1 | a mistake | loft/MAINTAINING.md | hard rule 2 of the guide |\n";

#[test]
fn roadmap_entries_are_parsed_with_their_text() {
    let parsed = milestones(ROADMAP);
    let ids: Vec<&str> = parsed.iter().map(|m| m.id.as_str()).collect();
    assert_eq!(ids, ["M0.3", "M1.5", "M1.10"]);
    assert!(parsed[0].done && !parsed[1].done && parsed[2].done);
    assert!(has_token(&parsed[1].text, "L2"));
    assert!(!has_token(&parsed[2].text, "L4"), "a heading ends the entry");
}

#[test]
fn whole_tokens_only() {
    assert!(has_token("lessons: L1, L12.", "L1"));
    assert!(!has_token("lessons: L12, L13.", "L1"));
    assert!(!has_token("see XL1", "L1"));
}

#[test]
fn a_consistent_doc_passes() {
    let doc = format!(
        "| id | lesson | evidence | milestone | test |\n|---|---|---|---|---|\n\
         | L1 | drag | loft/lib/sim/aero.ts | M1.5 | `hpr_aero::drag::tests::base_drag` |\n\
         | L3 | delay | loft/lib/sim/simulate.ts | M1.10 | `hpr_sim::tests::optimum_delay_is_tested` |\n\
         {PROCESS}"
    );
    assert_eq!(run(&doc), Vec::<String>::new());
}

#[test]
fn broken_rows_are_reported() {
    let doc = format!(
        "| L1 | drag | loft/x | M1.5 | `hpr_aero::a` |\n\
         | L1 | again | loft/x | M1.5 | `hpr_aero::b` |\n\
         | L2 | no test | loft/x | M1.5 | none yet |\n\
         | L5 | bad path | loft/x | M2.9 | `hpr_nope::Tests::x` |\n\
         | L6 | too few | M1.5 |\n\
         | L3 | missing | loft/x | M1.10 | `hpr_sim::tests::not_written` |\n\
         | L7 | unlisted | loft/x | M1.10, M1.5 | `hpr_aero::c` |\n\
         {PROCESS}| P2 | no guard | loft/x |  |\n"
    );
    let problems = run(&doc);
    let expected = [
        "L1: duplicate lesson id",
        "L2: names no test",
        "L6: expected 5 cells, found 3",
        "P2: expected 4 filled cells (id, mistake, evidence, guard)",
        "L5: `hpr_nope::Tests::x` is not a snake_case `crate::path::test` path",
        "L5: milestone M2.9 is not in ROADMAP.md",
        "L7: the M1.10 entry in ROADMAP.md doesn't list it",
        "L7: the M1.5 entry in ROADMAP.md doesn't list it",
    ];
    for message in expected {
        assert!(
            problems.iter().any(|p| p == message),
            "missing {message:?} in {problems:#?}"
        );
    }
    assert!(
        problems.iter().any(|p| p
            == "L3: M1.10 is checked off, but `hpr_sim::tests::not_written` doesn't exist"),
        "{problems:#?}"
    );
}

#[test]
fn a_doc_without_rows_fails() {
    assert_eq!(
        run("# nothing here\n"),
        ["the doc has no lesson rows or no process rows"]
    );
}

#[test]
fn the_current_milestone_is_the_first_open_one() {
    let roadmap = "\
- [x] **M0.3 Lessons.**
- [ ] [blocked] **M1.1 Core.** See STATUS.
- [ ] **M1.2 Atmosphere.**
  - [x] **M1.2a Tables.**
  - [ ] **M1.2b Wind.**
- [ ] **M1.3 Motors.**
";
    let status = |id: &str| format!("## Now\n\n- **Current milestone:** {id} Something\n");
    assert_eq!(current_milestone_problem(&status("M1.2"), roadmap), None);
    assert_eq!(current_milestone_problem(&status("M1.2b"), roadmap), None);
    assert_eq!(
        current_milestone_problem(&status("M1.3"), roadmap).as_deref(),
        Some("STATUS.md names M1.3 as current, but the first open milestone in ROADMAP.md is M1.2")
    );
    assert!(current_milestone_problem("no line", roadmap).is_some());
    assert!(current_milestone_problem(&status("M1.1"), "- [x] **M1.1 A.**\n").is_some());
}

#[test]
fn the_refusals_of_the_current_milestone_say_what_is_missing() {
    assert_eq!(
        current_milestone_problem("no line", "- [ ] **M1.1 A.**\n").as_deref(),
        Some("STATUS.md has no `**Current milestone:**` line")
    );
    assert_eq!(
        current_milestone_problem("**Current milestone:** M1.1\n", "- [x] **M1.1 A.**\n").as_deref(),
        Some("ROADMAP.md has no open milestone")
    );
    assert_eq!(
        current_milestone_problem(
            "**Current milestone:**   \n- **Current milestone:**\tM1.1 A\n",
            "- [ ] **M1.1 A.**\n"
        ),
        None
    );
}

#[test]
fn an_entry_runs_to_the_next_entry_or_heading() {
    let parsed = milestones("- [ ] **M2.1 A.** [blocked]\n  more\n# H\nafter\n- [x] **M2.2.** x\n");
    assert_eq!(parsed.len(), 2);
    assert_eq!(parsed[0].id, "M2.1");
    assert!(parsed[0].blocked && !parsed[0].done);
    assert_eq!(parsed[0].text, "- [ ] **M2.1 A.** [blocked]\n  more\n");
    assert_eq!(parsed[1].id, "M2.2");
    assert_eq!(parsed[1].text, "- [x] **M2.2.** x\n");
}

#[test]
fn a_lesson_row_with_empty_cells_is_reported() {
    let doc = format!("| L9 |  | loft/x | , | `hpr_sim::tests::optimum_delay_is_tested` |\n{PROCESS}");
    assert_eq!(
        run(&doc),
        [
            "L9: the lesson and its Loft evidence must be filled in",
            "L9: names no milestone",
        ]
    );
}
