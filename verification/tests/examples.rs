use hpr_xtask::examples::{difference, outcome, output_path, stale_output, unreadable_output};

#[test]
fn the_output_sits_beside_the_source() {
    assert_eq!(
        output_path("/w/crates/a/examples/fly.rs"),
        "/w/crates/a/examples/fly.output.txt"
    );
    assert_eq!(
        output_path("/w/crates/a/examples/fly/main.rs"),
        "/w/crates/a/examples/fly/main.output.txt"
    );
}

#[test]
fn a_dotted_or_bare_name_keeps_its_stem() {
    assert_eq!(output_path("ex/.hidden"), "ex/.hidden.output.txt");
    assert_eq!(output_path("ex/a.b.rs"), "ex/a.b.output.txt");
    assert_eq!(output_path("fly"), "fly.output.txt");
}

#[test]
fn differences_name_the_first_line_that_differs() {
    assert_eq!(difference("a\nb\n", "a\nb\n"), None);
    assert_eq!(difference("a\r\nb\r\n", "a\nb\n"), None);
    assert_eq!(
        difference("a\nb\n", "a\nc\n").unwrap(),
        "the example's output differs from it at line 2: the file has `b`, the example \
         printed `c`"
    );
    assert_eq!(
        difference("a\n", "a\nb\n").unwrap(),
        "the example's output differs from it at line 2: the file has nothing, the example \
         printed `b`"
    );
    assert_eq!(
        difference("a", "a\n").unwrap(),
        "the example's output differs from it only in its final newline"
    );
}

#[test]
fn a_longer_file_names_the_line_the_example_did_not_print() {
    assert_eq!(
        difference("a\nb\nc\nd\ne\nf\ng\nh\ni\nj\nk\n", "a\nb\nc\nd\ne\nf\ng\nh\ni\nj\n").unwrap(),
        "the example's output differs from it at line 11: the file has `k`, the example \
         printed nothing"
    );
}

#[test]
fn the_examples_fail_with_their_problems_listed() {
    assert_eq!(outcome(0, &vec![]).unwrap_err(), "no example programs found in the workspace");
    assert_eq!(outcome(2, &vec![]), Ok(()));
    let problems = vec![
        stale_output("crates/a/examples/fly.output.txt", "it differs"),
        unreadable_output("crates/b/examples/go.output.txt", "not found"),
    ];
    assert_eq!(
        outcome(2, &problems).unwrap_err(),
        "2 problem(s) with the examples:\n  crates/a/examples/fly.output.txt: it differs; if the \
         change is meant, run `cargo xtask examples` to write it, and update the pages that quote \
         it\n  crates/b/examples/go.output.txt: can't read it (not found); run `cargo xtask \
         examples` to write it"
    );
}

fn std_output_path(p: &str) -> String {
    let path = std::path::Path::new(p);
    let stem = path
        .file_stem()
        .map_or_else(String::new, |stem| stem.to_string_lossy().into_owned());
    path.with_file_name(format!("{stem}.output.txt"))
        .to_string_lossy()
        .into_owned()
}

#[test]
fn the_output_path_is_where_std_path_places_it() {
    assert_eq!(output_path("a/b/"), "a/b.output.txt");
    assert_eq!(output_path("a/.."), "a/../.output.txt");
    for p in [
        "examples/fly.rs",
        "a/b/",
        "a/..",
        "a/b/.",
        "a//b",
        "/b",
        "b",
        "./b",
        ".",
        "",
        "/",
        "..",
        "../a",
        "a/./b",
        "./",
        ".hidden",
        "a/.hidden",
        "a.b/c.d.rs",
        "/a/b//",
        "x/y/./.",
        "x/./",
        "//x",
        "a/b.",
        "a/...",
    ] {
        assert_eq!(output_path(p), std_output_path(p), "{p:?}");
    }
}
