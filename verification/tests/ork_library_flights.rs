use hpr_xtask::ork_library_flights::{
    check_library_file, designs_with_all_five, digits_of, random_uuid, select, Candidate,
    ComparedRow, Known, DERIVED_ID,
};
use hpr_xtask::ork_library_flights::{library_entries, LibraryEntry};

const FIVE: [&str; 5] = [
    "apogee_percent",
    "max_speed_percent",
    "margin_cal",
    "launch_mass_percent",
    "rod_clearance_cg_cal",
];

fn full(id: &str) -> ComparedRow {
    ComparedRow {
        flight: Some(id.to_owned()),
        floats: FIVE.iter().map(|k| (*k).to_owned()).collect(),
    }
}

fn candidate(sha: &str, name: &str, configurations: &[&str]) -> Candidate {
    Candidate {
        sha: sha.to_owned(),
        name: Some(name.to_owned()),
        configurations: configurations.iter().map(|c| (*c).to_owned()).collect(),
    }
}

#[test]
fn a_copy_is_its_file_or_its_name_with_its_configurations() {
    let mut public = Known::default();
    public.add(&candidate("p1", "Example", &["x", "y"]));
    public.add(&candidate("p2", "Rocket", &["z"]));
    let candidates = [
        candidate("d", "Mine", &["m"]),
        candidate("p1", "Example", &["x", "y"]),
        candidate("c", "Example", &["x", "y"]),
        candidate("b", "Rocket", &["q"]),
        candidate("a", "Example", &["x"]),
        candidate("e", "Mine", &["m"]),
        candidate("d", "Other", &["n"]),
    ];
    let selection = select(&candidates, &public);
    assert_eq!(selection.kept, vec![4, 3, 0]);
    assert_eq!(selection.public, 2);
    assert_eq!(selection.duplicates, 2);
    let uuid = |n: u8| format!("{n:08x}-1111-4111-8111-111111111111");
    let derived = |n: u8| format!("{DERIVED_ID}ffff-{n:012x}");
    let mut known = Known::default();
    known.add(&candidate("p", "Example", &[&uuid(1), &uuid(2)]));
    known.add(&candidate("q", "Other", &[&derived(1)]));
    let renamed = candidate("r", "Mine", &[&uuid(2), &uuid(1)]);
    let shared = candidate("s", "Mine", &[&derived(1)]);
    let selection = select(&[renamed, shared], &known);
    assert_eq!((selection.kept, selection.public), (vec![1], 1));
    let unnamed = Candidate {
        name: None,
        ..candidate("f", "", &["x", "y"])
    };
    let bare = candidate("g", "Example", &[]);
    let selection = select(&[unnamed, bare], &public);
    assert_eq!(selection.kept, vec![0, 1]);
}

#[test]
fn only_a_random_uuid_is_a_rocket_by_its_ids_alone() {
    assert!(random_uuid("0f1e2d3c-4b5a-4968-8776-a5b4c3d2e1f0"));
    assert!(random_uuid("0f1e2d3c-4b5a-4968-b776-a5b4c3d2e1f0"));
    assert!(!random_uuid("00000000-0000-0000-ffff-000000000001"));
    assert!(!random_uuid("0f1e2d3c-4b5a-1968-8776-a5b4c3d2e1f0"));
    assert!(!random_uuid("0f1e2d3c-4b5a-4968-c776-a5b4c3d2e1f0"));
    assert!(!random_uuid("0f1e2d3c-4b5a-4968-8776-a5b4c3d2e1fg"));
    assert!(!random_uuid("0f1e2d3c_4b5a-4968-8776-a5b4c3d2e1f0"));
    assert!(!random_uuid("0F1E2D3C-4B5A-4968-8776-A5B4C3D2E1F0"));
    assert!(!random_uuid("0f1e2d3c-4b5a-4968-8776-a5b4c3d2e1f"));
}

#[test]
fn an_added_design_is_held_by_its_file_and_its_rocket() {
    let mut known = Known::default();
    let design = candidate("abc", "Rocket", &["x"]);
    assert!(!known.holds(&design));
    known.add(&design);
    assert!(known.holds(&design));
    assert!(known.holds(&candidate("other", "Rocket", &["x"])));
    assert!(!known.holds(&candidate("other", "Rocket", &["x", "y"])));
    assert!(!known.holds(&candidate("other", "Another", &["x"])));
}

#[test]
fn a_rocket_is_named_only_with_a_name_and_configurations() {
    assert!(candidate("s", "", &["x"]).named().is_none());
    assert!(candidate("s", "Rocket", &[]).named().is_none());
    let (name, ids) = candidate("s", "Rocket", &["x", "y"]).named().unwrap();
    assert_eq!(name, "Rocket");
    assert_eq!(ids, vec!["x", "y"]);
    let id = "0f1e2d3c-4b5a-4968-8776-a5b4c3d2e1f0";
    assert_eq!(candidate("s", "R", &[id]).configured(), Some(vec![id.to_owned()]));
    assert_eq!(candidate("s", "R", &[id, "x"]).configured(), None);
    assert_eq!(candidate("s", "R", &[]).configured(), None);
}

#[test]
fn every_candidate_is_kept_public_or_a_duplicate_once() {
    let public = Known::default();
    let candidates = [
        candidate("b", "One", &["x"]),
        candidate("a", "One", &["x"]),
        candidate("b", "Two", &["y"]),
        candidate("c", "Three", &["z"]),
    ];
    let selection = select(&candidates, &public);
    assert_eq!(selection.kept, vec![1, 2, 3]);
    assert_eq!(selection.public, 0);
    assert_eq!(selection.duplicates, 1);
    assert_eq!(selection.kept.len() + selection.public + selection.duplicates, candidates.len());
}

#[test]
fn a_library_file_must_be_the_file_the_record_flew() {
    let abc = "ba7816bf8f01cfea414140de5dae2223b00361a396177a9cb410ff61f20015ad";
    assert_eq!(check_library_file(b"abc", abc), Ok(()));
    assert_eq!(
        check_library_file(b"abd", abc),
        Err("a library file is not the file the record flew (SHA-256 differs)".to_owned())
    );
}

#[test]
fn a_mass_keeps_fewer_digits_than_the_other_differences() {
    assert_eq!(digits_of("launch_mass_percent"), 3);
    assert_eq!(digits_of("rod_clearance_mass_percent"), 3);
    assert_eq!(digits_of("chute_early_s"), 2);
    assert_eq!(digits_of("apogee_percent"), 6);
    assert_eq!(digits_of(""), 6);
}

#[test]
fn designs_are_counted_once_and_only_with_all_five() {
    let mut missing = full("C03/1");
    missing.floats.retain(|k| k != "margin_cal");
    let rows = [full("C01/1"), full("C01/2"), full("C02/1"), missing];
    assert_eq!(designs_with_all_five(&rows), 2);
}

#[test]
fn a_flight_without_a_slash_is_its_own_design_and_a_row_without_an_id_counts_toward_none() {
    let mut anonymous = full("x");
    anonymous.flight = None;
    let mut extra = full("C05");
    extra.floats.push("aborted".to_owned());
    let rows = [full("C04"), full("C04/2"), extra, anonymous, full("C04/1/a")];
    // `C04` and `C04/...` are one design; `C05` another; the row without an id counts for none.
    assert_eq!(designs_with_all_five(&rows), 2);
    assert_eq!(designs_with_all_five(&[]), 0);
}

fn entry(file: &str, driver_error: bool, refused: bool, has_flights: bool) -> LibraryEntry {
    LibraryEntry { file: Some(file.to_owned()), driver_error, refused, has_flights }
}

#[test]
fn the_library_files_are_flown_unless_one_stops_them() {
    let held = library_entries(&vec![
        entry("refs/loft-fixtures/a.ork", false, false, true),
        entry("refs/other/b.ork", true, false, false),
        entry("refs/loft-fixtures/c.ork", false, true, false),
        LibraryEntry { file: None, driver_error: true, refused: false, has_flights: false },
        entry("refs/loft-fixtures/d.ork", false, false, true),
    ])
    .ok()
    .unwrap();
    assert_eq!((held.in_library, held.not_opened, held.flown), (3, 1, vec![0, 4]));
    assert_eq!(
        library_entries(&vec![
            entry("refs/loft-fixtures/a.ork", false, false, false),
            entry("refs/loft-fixtures/b.ork", true, false, true),
        ])
        .err()
        .unwrap(),
        "corpus-out/openrocket-flights.json holds a library file with no flights"
    );
    assert_eq!(
        library_entries(&vec![entry("refs/loft-fixtures/b.ork", true, false, true)]).err().unwrap(),
        "flights.py failed on a library file; fix it and write corpus-out/openrocket-flights.json again"
    );
}
