use hpr_xtask::ork_flights::{cause, design_name, Metric};
use hpr_xtask::ork_library_flights::row_cause;

#[test]
fn a_designs_name_is_its_file_name() {
    assert_eq!(
        design_name("refs/openrocket/OpenRocket-24.12.jar!datafiles/examples/Chute release.ork"),
        "Chute release"
    );
    assert_eq!(
        design_name("validation/fixtures/ork/loft-demo/demo-stable.ork"),
        "demo-stable"
    );
}

#[test]
fn a_name_without_the_extension_is_kept_whole() {
    assert_eq!(design_name("a/b/plain"), "plain");
    assert_eq!(design_name("x.jar!inside.ORK"), "inside.ORK");
}

#[test]
fn a_drag_override_comes_before_an_early_parachute() {
    assert_eq!(cause(true, true, Metric::Apogee), "a part's drag override not applied");
    assert_eq!(cause(false, true, Metric::Apogee), "reference parachute open before apogee");
    assert_eq!(cause(false, true, Metric::MaxSpeed), "no named cause");
    assert_eq!(cause(true, true, Metric::RodClearanceStability), "no named cause");
    assert_eq!(row_cause(true, true, "apogee_percent"), "a part's drag override not applied");
    assert_eq!(row_cause(false, true, "apogee_percent"), "reference parachute open before apogee");
    assert_eq!(row_cause(false, true, "max_speed_percent"), "no named cause");
    assert_eq!(row_cause(true, false, "margin_cal"), "no named cause");
}
