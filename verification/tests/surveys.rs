use hpr_xtask::aero::first_row_per_mach;
use hpr_xtask::ork_extensions::{listed, ExtensionTally, Kept, KeptDocument};
use hpr_xtask::ork_motors::{
    listed as motor_listed, MotorConfiguration, MotorDesign, MotorRead, MotorTally,
};
use hpr_xtask::tally::{entries_line, Tally};

fn kept(name: &str, at: &str, found_again: bool) -> Kept {
    Kept { name: name.to_owned(), at: at.to_owned(), found_again }
}

#[test]
fn a_repeated_mach_number_keeps_its_first_row() {
    let (kept, dropped) = first_row_per_mach("0.1,1\n0.1,2\n\n0.2,3\n0.2 ,4\nbad\n");
    assert_eq!(kept, "0.1,1\n\n0.2,3\nbad\n");
    assert_eq!(dropped, 2);
    assert_eq!(first_row_per_mach(""), (String::new(), 0));
    assert_eq!(first_row_per_mach("mach,cd\r\n0.5,0.4"), ("mach,cd\n0.5,0.4\n".to_owned(), 0));
}

#[test]
fn counts_come_in_the_order_their_names_sort() {
    let mut tally = Tally::new();
    for name in ["stage", "BodyTube", "stage", "fin", "stage"] {
        tally.add(name);
    }
    assert_eq!(entries_line(&tally), "BodyTube 1, fin 1, stage 3");
    assert_eq!(
        tally.entries().clone(),
        vec![("BodyTube".to_owned(), 1), ("fin".to_owned(), 1), ("stage".to_owned(), 3)]
    );
    assert_eq!(listed(&tally, ": "), ": BodyTube 1, fin 1, stage 3");
    assert_eq!(listed(&Tally::new(), ": "), "");
}

#[test]
fn an_empty_motor_list_gives_nothing_whatever_the_lead() {
    assert_eq!(motor_listed(&Tally::new(), " "), "");
    assert_eq!(motor_listed(&Tally::new(), ", by type: "), "");
    let mut tally = Tally::new();
    tally.add("K");
    assert_eq!(motor_listed(&tally, " "), " K 1");
}

#[test]
fn each_kept_element_is_counted_and_the_lost_ones_fail_the_survey() {
    let mut tally = ExtensionTally::new();
    assert_eq!(tally.failure(), None);
    let detail = tally.add(&KeptDocument {
        reduced: true,
        parts: vec![kept("pod", "/rocket/pod[1]", true), kept("pod", "/rocket/pod[2]", false)],
        sections: vec![kept("photo", "/photo", false)],
    });
    assert!(detail.reduced);
    assert_eq!(detail.parts, vec!["/rocket/pod[1]", "/rocket/pod[2]"]);
    assert_eq!(detail.sections, vec!["/photo"]);
    assert_eq!(
        tally.failure().unwrap(),
        "2 kept element(s) are not found again at their path: /rocket/pod[2], /photo"
    );
}

#[test]
fn a_flown_configuration_that_does_not_assemble_fails_the_survey() {
    let mut tally = MotorTally::new();
    tally.count_assembly(&Ok(()));
    assert_eq!(tally.failure(), None);
    tally.count_assembly(&Err("no motor in mount 2".to_owned()));
    tally.count_assembly(&Err("a gap between stages".to_owned()));
    tally.count_assembly(&Err("no motor in mount 2".to_owned()));
    assert_eq!(
        tally.failure().unwrap(),
        "3 configuration(s) the importer passed as flyable do not assemble: a gap between stages; no motor in mount 2"
    );
}

#[test]
fn the_kept_elements_are_reported_with_those_found_again() {
    let mut tally = ExtensionTally::new();
    tally.add(&KeptDocument {
        reduced: true,
        parts: vec![kept("pod", "/a", true), kept("pod", "/b", false), kept("fin", "/c", true)],
        sections: vec![kept("photo", "/d", true)],
    });
    tally.add(&KeptDocument { reduced: false, parts: vec![], sections: vec![] });
    assert_eq!(
        tally.report(),
        "  kept in x-openrocket: 3 part(s): fin 1, pod 2 in 1 reduced design(s); 1 section(s): photo 1\n  \
         kept elements found again at their path: 3 of 4\n"
    );
    assert_eq!(
        ExtensionTally::new().report(),
        "  kept in x-openrocket: 0 part(s) in 0 reduced design(s); 0 section(s)\n  \
         kept elements found again at their path: 0 of 0\n"
    );
}

#[test]
fn the_rows_kept_and_dropped_are_all_the_rows() {
    let text = "0.1,1\n0.1,2\n\n0.2,3\r\n0.2 ,4\nbad\n0.3,5";
    let (kept, dropped) = first_row_per_mach(text);
    assert_eq!(kept.lines().count() + dropped, text.lines().count());
}

#[test]
fn over_a_run_each_error_is_named_once_and_counted_each_time() {
    let mut tally = MotorTally::new();
    let outcomes = [
        Err("b".to_owned()),
        Ok(()),
        Err("a".to_owned()),
        Err("b".to_owned()),
        Ok(()),
    ];
    for outcome in &outcomes {
        tally.count_assembly(outcome);
    }
    assert_eq!(
        tally.failure().unwrap(),
        "3 configuration(s) the importer passed as flyable do not assemble: a; b"
    );
    let mut clean = MotorTally::new();
    clean.count_assembly(&Ok(()));
    clean.count_assembly(&Ok(()));
    assert_eq!(clean.failure(), None);
}

#[test]
fn over_a_run_the_failure_names_every_lost_path_in_order() {
    let mut tally = ExtensionTally::new();
    tally.add(&KeptDocument {
        reduced: false,
        parts: vec![kept("pod", "/1", false)],
        sections: vec![kept("photo", "/2", true)],
    });
    tally.add(&KeptDocument {
        reduced: false,
        parts: vec![kept("pod", "/3", true)],
        sections: vec![kept("photo", "/4", false)],
    });
    assert_eq!(
        tally.failure().unwrap(),
        "2 kept element(s) are not found again at their path: /1, /4"
    );
    let mut found = ExtensionTally::new();
    found.add(&KeptDocument { reduced: true, parts: vec![kept("pod", "/1", true)], sections: vec![] });
    assert_eq!(found.failure(), None);
}

fn motor(kind: Option<&str>, curve: &str) -> MotorRead {
    MotorRead {
        kind: kind.map(str::to_owned),
        curve: curve.to_owned(),
        delay: "seconds".to_owned(),
        ignition: "automatic".to_owned(),
    }
}

#[test]
fn each_design_adds_its_configurations_motors_and_flights() {
    let mut tally = MotorTally::new();
    tally.add(&MotorDesign {
        mounts: 2,
        configurations: vec![
            MotorConfiguration {
                declared: true,
                motors: vec![motor(Some("single"), "embedded"), motor(None, "bundled catalog")],
                unread: vec!["pod".to_owned()],
                left_out: None,
            },
            MotorConfiguration {
                declared: false,
                motors: vec![],
                unread: vec![],
                left_out: Some("no motor".to_owned()),
            },
        ],
        flies: vec![Ok(()), Err("a gap".to_owned())],
        warnings: vec!["unusual".to_owned()],
    });
    tally.add(&MotorDesign { mounts: 1, configurations: vec![], flies: vec![], warnings: vec![] });
    assert_eq!(
        tally.report(),
        "  motor configurations: 2 in 1 design(s) (1 named only by a mount), over 3 motor mount(s)\n  \
         motors read into their configurations: 2, by type: not written 1, single 1\n  \
         motors left out, in parts hpr does not read: 1, inside pod 1\n  \
         thrust curves: bundled catalog 1, embedded 1\n  \
         ejection delays: seconds 2\n  \
         ignition: automatic 2\n  \
         configurations the rocket flies: 1 of 2, in 1 design(s); 1 of those assemble; not assembling: a gap 1\n  \
         configurations left out, by first reason: no motor 1\n  \
         warnings reading motors: unusual 1\n"
    );
    assert_eq!(
        tally.failure().unwrap(),
        "1 configuration(s) the importer passed as flyable do not assemble: a gap"
    );
}
