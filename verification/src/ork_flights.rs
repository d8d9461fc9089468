//! How the report of OpenRocket's flights names a design.
use vstd::prelude::*;

use crate::text::{chars_of, ends_with, ends_with_slice, string_of};

verus! {

/// Where the last piece of `file` after a `/` or a `!` starts.
pub open spec fn base_start(file: Seq<char>) -> int
    decreases file.len(),
{
    if file.len() == 0 {
        0
    } else if file.last() == '/' || file.last() == '!' {
        file.len() as int
    } else {
        base_start(file.drop_last())
    }
}

/// A design's name in the report: the last piece of its file after a `/` or a `!`, without
/// `.ork` at its end.
pub open spec fn design_name_spec(file: Seq<char>) -> Seq<char> {
    let base = file.skip(base_start(file));
    if ends_with(base, ".ork"@) {
        base.take(base.len() - ".ork"@.len())
    } else {
        base
    }
}

/// A design's name in the report: an example's file name, or a demo's.
pub fn design_name(file: &str) -> (name: String)
    ensures
        name@ == design_name_spec(file@),
{
    let f = chars_of(file);
    let mut at: usize = f.len();
    assert(f@.take(at as int) =~= f@);
    while at > 0 && f[at - 1] != '/' && f[at - 1] != '!'
        invariant
            0 <= at <= f.len(),
            base_start(f@) == base_start(f@.take(at as int)),
        decreases at,
    {
        assert(f@.take(at as int).drop_last() =~= f@.take(at - 1));
        at -= 1;
    }
    let base = &f.as_slice()[at..f.len()];
    assert(base@ =~= f@.skip(at as int));
    let suffix = chars_of(".ork");
    if ends_with_slice(base, suffix.as_slice()) {
        let stem = &base[0..base.len() - suffix.len()];
        assert(stem@ =~= base@.take(base@.len() - suffix@.len()));
        string_of(stem)
    } else {
        string_of(base)
    }
}

/// A drag override hpr does not apply.
pub const DRAG_OVERRIDE: &'static str = "a part's drag override not applied";

/// A reference parachute open before its apogee.
pub const EARLY_CHUTE: &'static str = "reference parachute open before apogee";

/// Neither.
pub const NO_NAMED_CAUSE: &'static str = "no named cause";

/// A metric of a flight that the report compares.
#[derive(Clone, Copy, Debug, PartialEq, Eq)]
pub enum Metric {
    /// The apogee.
    Apogee,
    /// The largest speed.
    MaxSpeed,
    /// The stability margin at rod clearance.
    RodClearanceStability,
}

/// The named cause a flight's difference in `metric` is summarised under, given whether a drag
/// override of its design is not applied and whether its reference parachute opened before
/// apogee. A drag override moves every metric but the margin; an early parachute only the
/// apogee. A flight with both is put under the drag override.
pub open spec fn cause_spec(drag_override: bool, early_chute: bool, metric: Metric) -> Seq<char> {
    if metric == Metric::RodClearanceStability {
        NO_NAMED_CAUSE@
    } else if drag_override {
        DRAG_OVERRIDE@
    } else if metric == Metric::Apogee && early_chute {
        EARLY_CHUTE@
    } else {
        NO_NAMED_CAUSE@
    }
}

/// The named cause a flight's difference in `metric` is summarised under.
pub fn cause(drag_override: bool, early_chute: bool, metric: Metric) -> (named: &'static str)
    ensures
        named@ == cause_spec(drag_override, early_chute, metric),
{
    match metric {
        Metric::RodClearanceStability => NO_NAMED_CAUSE,
        _ => {
            if drag_override {
                DRAG_OVERRIDE
            } else {
                match metric {
                    Metric::Apogee => {
                        if early_chute {
                            EARLY_CHUTE
                        } else {
                            NO_NAMED_CAUSE
                        }
                    },
                    _ => NO_NAMED_CAUSE,
                }
            }
        },
    }
}

/// How a flight's difference is put under a cause: the margin at rod clearance never has a named
/// cause; every other metric of a design whose drag override is not applied goes under the drag
/// override, whatever its parachute did; an early parachute names a cause for the apogee alone,
/// and only without a drag override; and with neither, no cause is named.
pub proof fn lemma_drag_override_moves_every_metric_but_the_margin(drag_override: bool, early_chute: bool, metric: Metric)
    ensures
        metric == Metric::RodClearanceStability ==> cause_spec(drag_override, early_chute, metric) == NO_NAMED_CAUSE@,
        metric != Metric::RodClearanceStability && drag_override ==> cause_spec(drag_override, early_chute, metric) == DRAG_OVERRIDE@,
        metric != Metric::Apogee ==> cause_spec(drag_override, early_chute, metric) == cause_spec(drag_override, !early_chute, metric),
        metric == Metric::Apogee && !drag_override ==> cause_spec(drag_override, early_chute, metric) == if early_chute {
            EARLY_CHUTE@
        } else {
            NO_NAMED_CAUSE@
        },
        !drag_override && !early_chute ==> cause_spec(drag_override, early_chute, metric) == NO_NAMED_CAUSE@,
{
}

} // verus!
