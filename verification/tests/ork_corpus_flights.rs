use hpr_xtask::ork_corpus_flights::{count, lines, source, Counts, Design, Flight, Record};

fn flight(has_motors: bool, refused: bool, aborted: bool, margin: bool) -> Flight {
    Flight { has_motors, refused, aborted, margin }
}

fn design(file: &str, sha: &str, flights: Option<Vec<Flight>>) -> Design {
    Design {
        file: Some(file.to_owned()),
        sha256: Some(sha.to_owned()),
        driver_error: false,
        refused: false,
        flights,
    }
}

fn counts_of<'a>(counts: &'a [(&'static str, Counts)], place: &str) -> &'a Counts {
    &counts.iter().find(|(p, _)| *p == place).unwrap().1
}

#[test]
fn each_outcome_is_counted_once_under_its_source() {
    let record = Record {
        designs: Some(vec![
            design(
                "refs/loft-fixtures/a.ork",
                "x",
                Some(vec![
                    flight(false, false, false, false),
                    flight(true, true, false, false),
                    flight(true, false, true, false),
                    flight(true, false, false, true),
                    flight(true, false, false, false),
                ]),
            ),
            design("refs/loft-fixtures/copy/a.ork", "x", Some(vec![])),
            Design { refused: true, ..design("refs/loft-fixtures/b.ork", "y", None) },
            Design { driver_error: true, ..design("refs/loft-fixtures/c.ork", "z", None) },
            design(
                "refs/openrocket/OpenRocket-24.12.jar!datafiles/examples/e.ork",
                "e",
                Some(vec![flight(true, false, true, false)]),
            ),
            design("refs/samples/s.ork", "s", Some(vec![])),
        ]),
    };
    let counts = count(&record).unwrap();
    assert_eq!(
        *counts_of(&counts, "refs/loft-fixtures"),
        Counts {
            designs: 4,
            distinct: 3,
            refused_designs: 1,
            driver_errors: 1,
            configurations: 5,
            no_motor: 1,
            refused_flights: 1,
            aborted: 1,
            completed: 2,
            with_margin: 1,
            designs_completed: 1,
        }
    );
    assert_eq!(counts_of(&counts, "OpenRocket's examples").aborted, 1);
    assert_eq!(counts_of(&counts, "OpenRocket's examples").designs_completed, 0);
    assert_eq!(counts_of(&counts, "elsewhere under refs/").designs, 1);
    let text = lines(&counts);
    assert!(text.contains("configurations: 5 declared, 1 with no motor, 1 refused, 1 aborted"));
    assert!(!text.contains("a.ork"), "no file name is printed");
}

#[test]
fn the_places_come_in_the_order_their_names_sort() {
    let record = Record {
        designs: Some(vec![
            design("refs/loft-fixtures/a.ork", "x", Some(vec![])),
            design("refs/other/b.ork", "y", Some(vec![])),
        ]),
    };
    let counts = count(&record).unwrap();
    let places: Vec<&str> = counts.iter().map(|(p, _)| *p).collect();
    assert_eq!(places, ["elsewhere under refs/", "refs/loft-fixtures"]);
    assert_eq!(
        lines(&counts[..1].to_vec()),
        "elsewhere under refs/:\n  designs: 1 files (1 distinct), 0 refused by OpenRocket, 0 driver errors\n  \
         configurations: 0 declared, 0 with no motor, 0 refused, 0 aborted, 0 flown to the end \
         (0 with a margin at rod clearance)\n  designs with a flight to the end: 0\n"
    );
}

#[test]
fn a_record_that_cannot_be_counted_says_why() {
    assert_eq!(
        count(&Record { designs: None }).unwrap_err(),
        "the record has no `designs` list"
    );
    let no_file = Design { file: None, ..design("x", "x", Some(vec![])) };
    assert_eq!(
        count(&Record { designs: Some(vec![no_file]) }).unwrap_err(),
        "a design in the record has no `file`"
    );
    assert_eq!(
        count(&Record { designs: Some(vec![design("refs/a.ork", "x", None)]) }).unwrap_err(),
        "refs/a.ork: opened, but no `flights` list"
    );
}

#[test]
fn a_design_is_placed_by_its_file() {
    assert_eq!(source("refs/loft-fixtures/x.ork"), "refs/loft-fixtures");
    assert_eq!(source("refs/o/OpenRocket.jar!datafiles/examples/a.ork"), "OpenRocket's examples");
    assert_eq!(source("refs/loft-fixtures.jar!x"), "OpenRocket's examples");
    assert_eq!(source("refs/samples/s.ork"), "elsewhere under refs/");
}

#[test]
fn every_design_is_counted_under_one_place() {
    let record = Record {
        designs: Some(vec![
            design("refs/loft-fixtures/a.ork", "x", Some(vec![])),
            design("refs/loft-fixtures/b.ork", "x", Some(vec![])),
            design("refs/o.jar!datafiles/examples/e.ork", "y", Some(vec![])),
            design("refs/other/f.ork", "z", Some(vec![])),
            design("refs/other/g.ork", "w", Some(vec![])),
        ]),
    };
    let counts = count(&record).unwrap();
    assert_eq!(counts.iter().map(|(_, c)| c.designs).sum::<usize>(), 5);
    assert!(counts.iter().all(|(_, c)| c.distinct <= c.designs));
    assert_eq!(counts_of(&counts, "refs/loft-fixtures").distinct, 1);
}
