use std::io::Write;

use hpr_xtask::ork::{
    example_entry, examples_in_jar, extension, radius_defaulted, tag_at, SurveyCounts,
};
use hpr_xtask::ork_geometry::key;
use hpr_xtask::ork_mass::{causes, label, CLUSTER, FILLETS};

#[test]
fn an_extension_is_lowercase_with_its_dot() {
    assert_eq!(extension("refs/a/Design.ORK"), ".ork");
    assert_eq!(extension("refs/a/archive.tar.GZ"), ".gz");
    assert_eq!(extension("refs/a/README"), "(none)");
    assert_eq!(extension("refs/a/.hidden"), "(none)");
    assert_eq!(extension("refs/a.b/c"), "(none)");
    assert_eq!(extension("refs/a/trailing."), ".");
}

#[test]
fn a_design_is_filed_under_its_path_or_its_jar_entry() {
    assert_eq!(key("refs\\loft\\a.ork"), "refs/loft/a.ork");
    assert_eq!(key("refs/OpenRocket.jar!/datafiles/examples/A.ork"), "datafiles/examples/A.ork");
    assert_eq!(key("a!b!c"), "c");
}

#[test]
fn a_private_design_is_named_by_its_hash_alone() {
    assert_eq!(label("datafiles/examples/Chute release.ork", "abcdef0123"), "Chute release.ork");
    assert_eq!(label("validation/fixtures/ork/demo.ork", "0"), "demo.ork");
    assert_eq!(label("refs/loft-fixtures/secret.ork", "0123456789abcdef"), "private 01234567");
    assert_eq!(label("refs/loft-fixtures/secret.ork", "abc"), "private abc");
}

#[test]
fn the_causes_follow_the_warnings_in_their_order() {
    let cluster = format!("stage 1: {CLUSTER}, of 3 tubes");
    let fillets = format!("{FILLETS}.");
    assert_eq!(
        causes(&[fillets.as_str(), cluster.as_str()], true, true),
        vec![
            "a cluster of motor tubes, read as one tube",
            "fin fillets, left out",
            "parts hpr keeps unread (a reduced design)",
            "a stage OpenRocket's configuration switches off",
        ]
    );
    assert_eq!(causes(&["something else"], false, true), vec!["a stage OpenRocket's configuration switches off"]);
    assert!(causes(&[], false, false).is_empty());
}

#[test]
fn only_the_example_designs_are_read_out_of_the_jar() {
    assert!(example_entry("datafiles/examples/A simple model rocket.ORK"));
    assert!(!example_entry("datafiles/presets/a.ork"));
    assert!(!example_entry("datafiles/examples/readme.txt"));
    let mut bytes = Vec::new();
    {
        let mut writer = zip::ZipWriter::new(std::io::Cursor::new(&mut bytes));
        let options = zip::write::SimpleFileOptions::default();
        writer.start_file("datafiles/examples/a.ork", options).unwrap();
        writer.write_all(b"first").unwrap();
        writer.start_file("datafiles/other.ork", options).unwrap();
        writer.write_all(b"other").unwrap();
        writer.start_file("datafiles/examples/B.ORK", options).unwrap();
        writer.write_all(b"second").unwrap();
        writer.finish().unwrap();
    }
    let examples = examples_in_jar("refs/OpenRocket.jar", bytes).unwrap();
    assert_eq!(
        examples,
        vec![
            ("refs/OpenRocket.jar!datafiles/examples/a.ork".to_owned(), b"first".to_vec()),
            ("refs/OpenRocket.jar!datafiles/examples/B.ORK".to_owned(), b"second".to_vec()),
        ]
    );
    assert!(examples_in_jar("x.jar", b"not a zip".to_vec()).unwrap_err().starts_with("x.jar: "));
}

#[test]
fn an_example_whose_content_cannot_be_read_is_named_in_the_error() {
    let content = b"a design whose bytes are damaged";
    let mut bytes = Vec::new();
    {
        let mut writer = zip::ZipWriter::new(std::io::Cursor::new(&mut bytes));
        let options = zip::write::SimpleFileOptions::default()
            .compression_method(zip::CompressionMethod::Stored);
        writer.start_file("datafiles/examples/c.ork", options).unwrap();
        writer.write_all(content).unwrap();
        writer.finish().unwrap();
    }
    let at = bytes
        .windows(content.len())
        .position(|w| w == &content[..])
        .unwrap();
    bytes[at] ^= 0x20;
    let error = examples_in_jar("refs/OpenRocket.jar", bytes).unwrap_err();
    assert!(error.starts_with("datafiles/examples/c.ork: "), "{error}");
}

#[test]
fn the_survey_counts_each_file_once_and_names_a_stale_list() {
    let mut counts = SurveyCounts::new();
    counts.count("refs/a.ork", &Ok(true));
    counts.count("refs/b.ork", &Ok(false));
    counts.count(
        "C:\\w\\refs\\fusionspace-loft\\e2e\\fixtures\\logged-sample.ork",
        &Err("line 2: expected 'databranch' tag, not 'flightdata' at 150: here".to_owned()),
    );
    counts.count("refs/c.ork", &Err("broken".to_owned()));
    assert_eq!(
        counts.line(),
        "4 .ork files, 2 read, 1 written and read back unchanged, 1 not well-formed XML, 1 failed"
    );
    assert_eq!(
        counts.verdict().unwrap_err(),
        "1 of 4 .ork files could not be read; see corpus-out/ork-survey.json"
    );
    // A file whose name only ends like a listed one is not the listed one.
    counts.count("refs/xfusionspace-loft/e2e/fixtures/logged-sample.ork", &Ok(true));
    counts.count("refs/fusionspace-loft/e2e/fixtures/fallback-canopy-cd.ork", &Ok(true));
    assert_eq!(
        counts.verdict().unwrap_err(),
        "the list of files that are not well-formed XML is out of date:\n  \
         refs/fusionspace-loft/e2e/fixtures/fallback-canopy-cd.ork reads, though it is listed as \
         a <databranch> closed with </flightdata> (line 153)"
    );
    let mut lost = SurveyCounts::new();
    lost.count("a.ork", &Ok(false));
    assert_eq!(
        lost.verdict().unwrap_err(),
        "1 of 1 .ork files did not survive being written and read again; see corpus-out/ork-survey.json"
    );
    let mut clean = SurveyCounts::new();
    clean.count("a.ork", &Ok(true));
    assert_eq!(clean.verdict(), Ok(()));
}

fn std_extension(name: &str) -> String {
    std::path::Path::new(name)
        .extension()
        .map(|extension| format!(".{}", extension.to_string_lossy().to_ascii_lowercase()))
        .unwrap_or_else(|| "(none)".to_owned())
}

#[test]
fn the_extension_is_the_one_std_path_reads() {
    assert_eq!(extension("b.ork/"), ".ork");
    assert_eq!(extension("a.ork/."), ".ork");
    for name in [
        "refs/a/Design.ORK",
        "b.ork/",
        "a.ork/.",
        "a.ork//",
        "..",
        "a/..",
        ".",
        "",
        "/",
        ".hidden",
        "a/.hidden.ORK",
        "x.",
        "./y.Rs",
        "a.b/c",
        "/r.tar.gz",
        "x/./",
    ] {
        assert_eq!(extension(name), std_extension(name), "{name:?}");
    }
}

#[test]
fn a_warnings_path_ends_at_its_tag() {
    assert_eq!(tag_at("rocket/stage[1]/bodytube[2]/trapezoidfinset[3]"), "trapezoidfinset");
    assert_eq!(tag_at("nosecone"), "nosecone");
    assert_eq!(tag_at("a/b/"), "");
    assert_eq!(tag_at("a/[x]"), "");
    assert!(radius_defaulted(
        "an automatic radius with no fixed radius anywhere along its chain: 12.5 mm"
    ));
    assert!(!radius_defaulted("a fixed radius"));
}
