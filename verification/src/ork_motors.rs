//! The motor counts of the survey: the configurations each design declares, the motors read into
//! them, and which configurations the rocket flies and whether they assemble; and why the survey
//! fails when one does not.
use vstd::prelude::*;

use crate::tally::{all_counted, count_in, count_of, entries_line, entries_text, lemma_count_bounded, lemma_count_in_names, lemma_count_in_sorted, lemma_counted_once_more, lemma_names_are_counted, lemma_total_prefix, names_hold, sorted_keys, total, Tally};
use crate::text::{append_decimal, decimal, join, join_strings, strings_view};

verus! {

/// A motor read into a configuration, as the counts read it: its type when the design writes one,
/// and the words its thrust curve, ejection delay and ignition are counted under.
pub struct MotorRead {
    pub kind: Option<String>,
    pub curve: String,
    pub delay: String,
    pub ignition: String,
}

/// A motor configuration a design declares, as the counts read it: whether the design declares
/// it or only a mount names it, the motors read into it, the parts holding motors that are not
/// read, and, when it is left out of the flights, why first.
pub struct MotorConfiguration {
    pub declared: bool,
    pub motors: Vec<MotorRead>,
    pub unread: Vec<String>,
    pub left_out: Option<String>,
}

/// A design, as the motor counts read it: its motor mounts, its configurations, whether each
/// configuration the rocket flies assembles (or the error's text), and the kinds of the warnings
/// reading its motors raised.
pub struct MotorDesign {
    pub mounts: usize,
    pub configurations: Vec<MotorConfiguration>,
    pub flies: Vec<Result<(), String>>,
    pub warnings: Vec<String>,
}

/// The motor counts, summed over the designs.
pub struct MotorTally {
    designs_configured: usize,
    designs_flying: usize,
    mounts: usize,
    configurations: usize,
    undeclared: usize,
    motors: usize,
    kinds: Tally,
    unread: Tally,
    curves: Tally,
    delays: Tally,
    ignitions: Tally,
    flown: usize,
    left_out: Tally,
    assembled: usize,
    not_assembled: Tally,
    warnings: Tally,
}

/// What the counts hold: designs with a configuration and with one the rocket flies, motor
/// mounts, configurations and those only a mount names, motors and their types, motors in parts
/// not read, by part, thrust curves, delays and ignitions by their words, configurations flown and
/// those left out by reason, flown configurations that assemble and the errors of those that do
/// not, and warnings by kind.
pub struct MotorTallyView {
    pub designs_configured: nat,
    pub designs_flying: nat,
    pub mounts: nat,
    pub configurations: nat,
    pub undeclared: nat,
    pub motors: nat,
    pub kinds: Seq<(Seq<char>, nat)>,
    pub unread: Seq<(Seq<char>, nat)>,
    pub curves: Seq<(Seq<char>, nat)>,
    pub delays: Seq<(Seq<char>, nat)>,
    pub ignitions: Seq<(Seq<char>, nat)>,
    pub flown: nat,
    pub left_out: Seq<(Seq<char>, nat)>,
    pub assembled: nat,
    pub not_assembled: Seq<(Seq<char>, nat)>,
    pub warnings: Seq<(Seq<char>, nat)>,
}

impl View for MotorTally {
    type V = MotorTallyView;

    closed spec fn view(&self) -> MotorTallyView {
        MotorTallyView {
            designs_configured: self.designs_configured as nat,
            designs_flying: self.designs_flying as nat,
            mounts: self.mounts as nat,
            configurations: self.configurations as nat,
            undeclared: self.undeclared as nat,
            motors: self.motors as nat,
            kinds: self.kinds@,
            unread: self.unread@,
            curves: self.curves@,
            delays: self.delays@,
            ignitions: self.ignitions@,
            flown: self.flown as nat,
            left_out: self.left_out@,
            assembled: self.assembled as nat,
            not_assembled: self.not_assembled@,
            warnings: self.warnings@,
        }
    }
}

/// The names of counts.
pub open spec fn keys(s: Seq<(Seq<char>, nat)>) -> Seq<Seq<char>> {
    s.map_values(|e: (Seq<char>, nat)| e.0)
}

/// No motor counts.
pub open spec fn no_motor_counts() -> MotorTallyView {
    MotorTallyView {
        designs_configured: 0,
        designs_flying: 0,
        mounts: 0,
        configurations: 0,
        undeclared: 0,
        motors: 0,
        kinds: Seq::empty(),
        unread: Seq::empty(),
        curves: Seq::empty(),
        delays: Seq::empty(),
        ignitions: Seq::empty(),
        flown: 0,
        left_out: Seq::empty(),
        assembled: 0,
        not_assembled: Seq::empty(),
        warnings: Seq::empty(),
    }
}

/// All the counts together: what must fit in a machine word for each of them to.
pub open spec fn load(v: MotorTallyView) -> nat {
    v.designs_configured + v.designs_flying + v.mounts + v.configurations + v.undeclared + v.motors
        + total(v.kinds) + total(v.unread) + total(v.curves) + total(v.delays) + total(v.ignitions)
        + v.flown + total(v.left_out) + v.assembled + total(v.not_assembled) + total(v.warnings)
}

/// Whether each count by name keeps its names in the order they sort, each once.
pub open spec fn sorted_counts(v: MotorTallyView) -> bool {
    &&& sorted_keys(v.kinds)
    &&& sorted_keys(v.unread)
    &&& sorted_keys(v.curves)
    &&& sorted_keys(v.delays)
    &&& sorted_keys(v.ignitions)
    &&& sorted_keys(v.left_out)
    &&& sorted_keys(v.not_assembled)
    &&& sorted_keys(v.warnings)
}

/// The word a motor's type is counted under.
pub open spec fn kind_word(m: MotorRead) -> Seq<char> {
    match m.kind {
        Some(k) => k@,
        None => "not written"@,
    }
}

/// The counts with one more motor read.
pub open spec fn read_step(v: MotorTallyView, m: MotorRead) -> MotorTallyView {
    MotorTallyView {
        motors: v.motors + 1,
        kinds: count_in(v.kinds, kind_word(m)),
        curves: count_in(v.curves, m.curve@),
        delays: count_in(v.delays, m.delay@),
        ignitions: count_in(v.ignitions, m.ignition@),
        ..v
    }
}

/// The counts with the motors `ms` read.
pub open spec fn reads_fold(v: MotorTallyView, ms: Seq<MotorRead>) -> MotorTallyView
    decreases ms.len(),
{
    if ms.len() == 0 { v } else { read_step(reads_fold(v, ms.drop_last()), ms.last()) }
}

/// The counts with the motors in the parts `us` not read.
pub open spec fn unread_fold(v: MotorTallyView, us: Seq<String>) -> MotorTallyView
    decreases us.len(),
{
    if us.len() == 0 {
        v
    } else {
        let w = unread_fold(v, us.drop_last());
        MotorTallyView { unread: count_in(w.unread, us.last()@), ..w }
    }
}

/// The counts with one more configuration.
pub open spec fn config_step(v: MotorTallyView, c: MotorConfiguration) -> MotorTallyView {
    let v = MotorTallyView {
        configurations: v.configurations + 1,
        undeclared: if c.declared { v.undeclared } else { v.undeclared + 1 },
        ..v
    };
    let v = unread_fold(reads_fold(v, c.motors@), c.unread@);
    match c.left_out {
        None => MotorTallyView { flown: v.flown + 1, ..v },
        Some(why) => MotorTallyView { left_out: count_in(v.left_out, why@), ..v },
    }
}

/// The counts with the configurations `cs`.
pub open spec fn configs_fold(v: MotorTallyView, cs: Seq<MotorConfiguration>) -> MotorTallyView
    decreases cs.len(),
{
    if cs.len() == 0 { v } else { config_step(configs_fold(v, cs.drop_last()), cs.last()) }
}

/// The counts with whether each flown configuration of `os` assembles.
pub open spec fn flies_fold(v: MotorTallyView, os: Seq<Result<(), String>>) -> MotorTallyView
    decreases os.len(),
{
    if os.len() == 0 { v } else { motor_step(flies_fold(v, os.drop_last()), os.last()) }
}

/// The counts with the warnings of the kinds `ws`.
pub open spec fn warnings_fold(v: MotorTallyView, ws: Seq<String>) -> MotorTallyView
    decreases ws.len(),
{
    if ws.len() == 0 {
        v
    } else {
        let w = warnings_fold(v, ws.drop_last());
        MotorTallyView { warnings: count_in(w.warnings, ws.last()@), ..w }
    }
}

/// The counts with one more design.
pub open spec fn design_step(v: MotorTallyView, d: MotorDesign) -> MotorTallyView {
    let v = MotorTallyView {
        mounts: v.mounts + d.mounts as nat,
        designs_configured: if d.configurations@.len() > 0 { v.designs_configured + 1 } else { v.designs_configured },
        designs_flying: if d.flies@.len() > 0 { v.designs_flying + 1 } else { v.designs_flying },
        ..v
    };
    warnings_fold(flies_fold(configs_fold(v, d.configurations@), d.flies@), d.warnings@)
}

/// At most how much a configuration adds to the counts.
pub open spec fn config_size(c: MotorConfiguration) -> nat {
    3 + 5 * c.motors@.len() + c.unread@.len()
}

/// At most how much the configurations `cs` add to the counts.
pub open spec fn configs_size(cs: Seq<MotorConfiguration>) -> nat
    decreases cs.len(),
{
    if cs.len() == 0 { 0 } else { configs_size(cs.drop_last()) + config_size(cs.last()) }
}

/// At most how much a design adds to the counts.
pub open spec fn design_size(d: MotorDesign) -> nat {
    d.mounts as nat + 2 + configs_size(d.configurations@) + d.flies@.len() + d.warnings@.len()
}

/// Reading a motor keeps the counts by name in order and adds five to the counts.
proof fn lemma_read(v: MotorTallyView, m: MotorRead)
    requires
        sorted_counts(v),
    ensures
        sorted_counts(read_step(v, m)),
        load(read_step(v, m)) == load(v) + 5,
        read_step(v, m).not_assembled == v.not_assembled,
{
    lemma_counted_once_more(v.kinds, kind_word(m), kind_word(m));
    lemma_counted_once_more(v.curves, m.curve@, m.curve@);
    lemma_counted_once_more(v.delays, m.delay@, m.delay@);
    lemma_counted_once_more(v.ignitions, m.ignition@, m.ignition@);
    lemma_count_in_sorted(v.kinds, kind_word(m));
    lemma_count_in_sorted(v.curves, m.curve@);
    lemma_count_in_sorted(v.delays, m.delay@);
    lemma_count_in_sorted(v.ignitions, m.ignition@);
}

/// Reading motors keeps the counts by name in order and adds five to the counts for each.
proof fn lemma_reads(v: MotorTallyView, ms: Seq<MotorRead>)
    requires
        sorted_counts(v),
    ensures
        sorted_counts(reads_fold(v, ms)),
        load(reads_fold(v, ms)) == load(v) + 5 * ms.len(),
        reads_fold(v, ms).not_assembled == v.not_assembled,
    decreases ms.len(),
{
    if ms.len() > 0 {
        lemma_reads(v, ms.drop_last());
        lemma_read(reads_fold(v, ms.drop_last()), ms.last());
    }
}

/// Counting parts not read keeps the counts by name in order and adds one for each.
proof fn lemma_unread(v: MotorTallyView, us: Seq<String>)
    requires
        sorted_counts(v),
    ensures
        sorted_counts(unread_fold(v, us)),
        load(unread_fold(v, us)) == load(v) + us.len(),
        unread_fold(v, us).not_assembled == v.not_assembled,
    decreases us.len(),
{
    if us.len() > 0 {
        lemma_unread(v, us.drop_last());
        let w = unread_fold(v, us.drop_last());
        lemma_counted_once_more(w.unread, us.last()@, us.last()@);
        lemma_count_in_sorted(w.unread, us.last()@);
    }
}

/// Counting a configuration keeps the counts by name in order and adds at most its size.
proof fn lemma_config(v: MotorTallyView, c: MotorConfiguration)
    requires
        sorted_counts(v),
    ensures
        sorted_counts(config_step(v, c)),
        load(config_step(v, c)) <= load(v) + config_size(c),
{
    let v1 = MotorTallyView {
        configurations: v.configurations + 1,
        undeclared: if c.declared { v.undeclared } else { v.undeclared + 1 },
        ..v
    };
    lemma_reads(v1, c.motors@);
    let v2 = reads_fold(v1, c.motors@);
    lemma_unread(v2, c.unread@);
    let v3 = unread_fold(v2, c.unread@);
    if let Some(why) = c.left_out {
        lemma_counted_once_more(v3.left_out, why@, why@);
        lemma_count_in_sorted(v3.left_out, why@);
    }
}

/// Counting configurations keeps the counts by name in order and adds at most their size.
proof fn lemma_configs(v: MotorTallyView, cs: Seq<MotorConfiguration>)
    requires
        sorted_counts(v),
    ensures
        sorted_counts(configs_fold(v, cs)),
        load(configs_fold(v, cs)) <= load(v) + configs_size(cs),
    decreases cs.len(),
{
    if cs.len() > 0 {
        lemma_configs(v, cs.drop_last());
        lemma_config(configs_fold(v, cs.drop_last()), cs.last());
    }
}

/// The size of the first configurations is at most that of all of them.
proof fn lemma_configs_size_prefix(cs: Seq<MotorConfiguration>, k: int)
    requires
        0 <= k <= cs.len(),
    ensures
        configs_size(cs.take(k)) <= configs_size(cs),
    decreases cs.len() - k,
{
    if k < cs.len() {
        lemma_configs_size_prefix(cs, k + 1);
        assert(cs.take(k + 1).drop_last() =~= cs.take(k));
    } else {
        assert(cs.take(k) =~= cs);
    }
}

/// Counting whether flown configurations assemble keeps the counts by name in order and adds one
/// for each.
proof fn lemma_flies(v: MotorTallyView, os: Seq<Result<(), String>>)
    requires
        sorted_counts(v),
    ensures
        sorted_counts(flies_fold(v, os)),
        load(flies_fold(v, os)) == load(v) + os.len(),
    decreases os.len(),
{
    if os.len() > 0 {
        lemma_flies(v, os.drop_last());
        let w = flies_fold(v, os.drop_last());
        if let Err(e) = os.last() {
            lemma_counted_once_more(w.not_assembled, e@, e@);
            lemma_count_in_sorted(w.not_assembled, e@);
        }
    }
}

/// Counting warnings keeps the counts by name in order and adds one for each.
proof fn lemma_warnings(v: MotorTallyView, ws: Seq<String>)
    requires
        sorted_counts(v),
    ensures
        sorted_counts(warnings_fold(v, ws)),
        load(warnings_fold(v, ws)) == load(v) + ws.len(),
    decreases ws.len(),
{
    if ws.len() > 0 {
        lemma_warnings(v, ws.drop_last());
        let w = warnings_fold(v, ws.drop_last());
        lemma_counted_once_more(w.warnings, ws.last()@, ws.last()@);
        lemma_count_in_sorted(w.warnings, ws.last()@);
    }
}

impl MotorTally {
    /// Whether each count by name keeps its names in the order they sort, each once, and all the
    /// counts together can be told.
    pub closed spec fn wf(&self) -> bool {
        &&& self.kinds.wf()
        &&& self.unread.wf()
        &&& self.curves.wf()
        &&& self.delays.wf()
        &&& self.ignitions.wf()
        &&& self.left_out.wf()
        &&& self.not_assembled.wf()
        &&& self.warnings.wf()
        &&& load(self@) <= usize::MAX
    }

    /// No counts.
    pub fn new() -> (t: MotorTally)
        ensures
            t.wf(),
            t@ == no_motor_counts(),
    {
        let t = MotorTally {
            designs_configured: 0,
            designs_flying: 0,
            mounts: 0,
            configurations: 0,
            undeclared: 0,
            motors: 0,
            kinds: Tally::new(),
            unread: Tally::new(),
            curves: Tally::new(),
            delays: Tally::new(),
            ignitions: Tally::new(),
            flown: 0,
            left_out: Tally::new(),
            assembled: 0,
            not_assembled: Tally::new(),
            warnings: Tally::new(),
        };
        assert(load(t@) == 0);
        t
    }

    /// Counts whether a configuration the rocket flies assembles: `Ok`, or the error's text.
    pub fn count_assembly(&mut self, outcome: &Result<(), String>)
        requires
            old(self).wf(),
            load(old(self)@) < usize::MAX,
        ensures
            final(self).wf(),
            final(self)@ == motor_step(old(self)@, *outcome),
    {
        proof {
            lemma_flies(self@, seq![*outcome]);
            assert(seq![*outcome].drop_last() =~= Seq::<Result<(), String>>::empty());
        }
        match outcome {
            Ok(_) => {
                self.assembled = self.assembled + 1;
            },
            Err(e) => {
                proof {
                    lemma_count_bounded(self.not_assembled@, e@);
                    lemma_counted_once_more(self.not_assembled@, e@, e@);
                }
                self.not_assembled.add(e.as_str());
            },
        }
    }

    /// Counts one motor read into a configuration.
    fn count_read(&mut self, m: &MotorRead)
        requires
            old(self).wf(),
            load(old(self)@) + 5 <= usize::MAX,
        ensures
            final(self).wf(),
            final(self)@ == read_step(old(self)@, *m),
    {
        proof {
            lemma_read(self@, *m);
            lemma_count_bounded(self.kinds@, kind_word(*m));
            lemma_count_bounded(self.curves@, m.curve@);
            lemma_count_bounded(self.delays@, m.delay@);
            lemma_count_bounded(self.ignitions@, m.ignition@);
            lemma_counted_once_more(self.kinds@, kind_word(*m), kind_word(*m));
            lemma_counted_once_more(self.curves@, m.curve@, m.curve@);
            lemma_counted_once_more(self.delays@, m.delay@, m.delay@);
        }
        self.motors = self.motors + 1;
        match &m.kind {
            Some(k) => self.kinds.add(k.as_str()),
            None => self.kinds.add("not written"),
        }
        self.curves.add(m.curve.as_str());
        self.delays.add(m.delay.as_str());
        self.ignitions.add(m.ignition.as_str());
    }

    /// Counts one configuration a design declares.
    fn count_configuration(&mut self, c: &MotorConfiguration)
        requires
            old(self).wf(),
            load(old(self)@) + config_size(*c) <= usize::MAX,
        ensures
            final(self).wf(),
            final(self)@ == config_step(old(self)@, *c),
    {
        let ghost v0 = self@;
        self.configurations = self.configurations + 1;
        if !c.declared {
            self.undeclared = self.undeclared + 1;
        }
        let ghost v1 = self@;
        let mut k: usize = 0;
        assert(c.motors@.take(0) =~= Seq::<MotorRead>::empty());
        while k < c.motors.len()
            invariant
                0 <= k <= c.motors.len(),
                self.wf(),
                load(v0) + config_size(*c) <= usize::MAX,
                load(v1) <= load(v0) + 2,
                sorted_counts(v1),
                self@ == reads_fold(v1, c.motors@.take(k as int)),
                load(self@) == load(v1) + 5 * k,
            decreases c.motors.len() - k,
        {
            proof {
                assert(c.motors@.take(k + 1).drop_last() =~= c.motors@.take(k as int));
                lemma_read(self@, c.motors@[k as int]);
            }
            self.count_read(&c.motors[k]);
            k += 1;
        }
        assert(c.motors@.take(c.motors.len() as int) =~= c.motors@);
        let ghost v2 = self@;
        let mut u: usize = 0;
        assert(c.unread@.take(0) =~= Seq::<String>::empty());
        while u < c.unread.len()
            invariant
                0 <= u <= c.unread.len(),
                self.wf(),
                load(v2) + c.unread@.len() + 1 <= usize::MAX,
                sorted_counts(v2),
                self@ == unread_fold(v2, c.unread@.take(u as int)),
                load(self@) == load(v2) + u,
            decreases c.unread.len() - u,
        {
            proof {
                assert(c.unread@.take(u + 1).drop_last() =~= c.unread@.take(u as int));
                lemma_count_bounded(self.unread@, c.unread@[u as int]@);
                lemma_counted_once_more(self.unread@, c.unread@[u as int]@, c.unread@[u as int]@);
                lemma_count_in_sorted(self.unread@, c.unread@[u as int]@);
            }
            self.unread.add(c.unread[u].as_str());
            u += 1;
        }
        assert(c.unread@.take(c.unread.len() as int) =~= c.unread@);
        match &c.left_out {
            None => {
                self.flown = self.flown + 1;
            },
            Some(why) => {
                proof {
                    lemma_count_bounded(self.left_out@, why@);
                    lemma_counted_once_more(self.left_out@, why@, why@);
                    lemma_count_in_sorted(self.left_out@, why@);
                }
                self.left_out.add(why.as_str());
            },
        }
    }

    /// Counts one design: its mounts, its configurations, whether each configuration the rocket
    /// flies assembles, and the warnings reading its motors raised.
    pub fn add(&mut self, design: &MotorDesign)
        requires
            old(self).wf(),
            load(old(self)@) + design_size(*design) <= usize::MAX,
        ensures
            final(self).wf(),
            final(self)@ == design_step(old(self)@, *design),
    {
        let ghost v0 = self@;
        self.mounts = self.mounts + design.mounts;
        if design.configurations.len() > 0 {
            self.designs_configured = self.designs_configured + 1;
        }
        if design.flies.len() > 0 {
            self.designs_flying = self.designs_flying + 1;
        }
        let ghost v1 = self@;
        let cs = &design.configurations;
        let mut k: usize = 0;
        assert(cs@.take(0) =~= Seq::<MotorConfiguration>::empty());
        proof {
            lemma_configs_size_prefix(cs@, cs@.len() as int);
        }
        while k < cs.len()
            invariant
                0 <= k <= cs.len(),
                cs@ == design.configurations@,
                self.wf(),
                sorted_counts(v1),
                load(v1) <= load(v0) + design.mounts + 2,
                load(v0) + design_size(*design) <= usize::MAX,
                self@ == configs_fold(v1, cs@.take(k as int)),
                load(self@) <= load(v1) + configs_size(cs@.take(k as int)),
            decreases cs.len() - k,
        {
            proof {
                assert(cs@.take(k + 1).drop_last() =~= cs@.take(k as int));
                lemma_configs_size_prefix(cs@, k + 1);
                assert(cs@.take(k + 1).last() == cs@[k as int]);
                assert(configs_size(cs@.take(k + 1)) == configs_size(cs@.take(k as int)) + config_size(cs@[k as int]));
                assert(configs_size(cs@.take(k + 1)) <= configs_size(cs@));
                assert(design_size(*design) == design.mounts + 2 + configs_size(cs@) + design.flies@.len() + design.warnings@.len());
                assert(load(self@) + config_size(cs@[k as int]) <= usize::MAX);
                lemma_config(self@, cs@[k as int]);
            }
            self.count_configuration(&cs[k]);
            k += 1;
        }
        assert(cs@.take(cs.len() as int) =~= cs@);
        let ghost v2 = self@;
        let os = &design.flies;
        let mut j: usize = 0;
        assert(os@.take(0) =~= Seq::<Result<(), String>>::empty());
        while j < os.len()
            invariant
                0 <= j <= os.len(),
                self.wf(),
                sorted_counts(v2),
                load(v2) + os@.len() + design.warnings@.len() <= usize::MAX,
                self@ == flies_fold(v2, os@.take(j as int)),
                load(self@) == load(v2) + j,
            decreases os.len() - j,
        {
            proof {
                assert(os@.take(j + 1).drop_last() =~= os@.take(j as int));
                lemma_flies(v2, os@.take(j + 1));
            }
            self.count_assembly(&os[j]);
            j += 1;
        }
        assert(os@.take(os.len() as int) =~= os@);
        let ghost v3 = self@;
        let ws = &design.warnings;
        let mut w: usize = 0;
        assert(ws@.take(0) =~= Seq::<String>::empty());
        while w < ws.len()
            invariant
                0 <= w <= ws.len(),
                self.wf(),
                sorted_counts(v3),
                load(v3) + ws@.len() <= usize::MAX,
                self@ == warnings_fold(v3, ws@.take(w as int)),
                load(self@) == load(v3) + w,
            decreases ws.len() - w,
        {
            proof {
                assert(ws@.take(w + 1).drop_last() =~= ws@.take(w as int));
                lemma_count_bounded(self.warnings@, ws@[w as int]@);
                lemma_counted_once_more(self.warnings@, ws@[w as int]@, ws@[w as int]@);
                lemma_count_in_sorted(self.warnings@, ws@[w as int]@);
            }
            self.warnings.add(ws[w].as_str());
            w += 1;
        }
        assert(ws@.take(ws.len() as int) =~= ws@);
    }

    /// The counts as the survey prints them, a line each.
    pub fn report(&self) -> (text: String)
        requires
            self.wf(),
        ensures
            text@ == motor_report_spec(self@),
    {
        let mut out = String::from_str("  motor configurations: ");
        append_decimal(&mut out, self.configurations);
        out.append(" in ");
        append_decimal(&mut out, self.designs_configured);
        out.append(" design(s) (");
        append_decimal(&mut out, self.undeclared);
        out.append(" named only by a mount), over ");
        append_decimal(&mut out, self.mounts);
        out.append(" motor mount(s)\n");
        let ghost l1 = out@;
        out.append("  motors read into their configurations: ");
        append_decimal(&mut out, self.motors);
        let t = listed(&self.kinds, ", by type: ");
        out.append(t.as_str());
        out.append("\n");
        out.append("  motors left out, in parts hpr does not read: ");
        let unread = self.unread.sum();
        append_decimal(&mut out, unread);
        let t = listed(&self.unread, ", inside ");
        out.append(t.as_str());
        out.append("\n");
        out.append("  thrust curves:");
        let t = listed(&self.curves, " ");
        out.append(t.as_str());
        out.append("\n");
        out.append("  ejection delays:");
        let t = listed(&self.delays, " ");
        out.append(t.as_str());
        out.append("\n");
        out.append("  ignition:");
        let t = listed(&self.ignitions, " ");
        out.append(t.as_str());
        out.append("\n");
        out.append("  configurations the rocket flies: ");
        append_decimal(&mut out, self.flown);
        out.append(" of ");
        append_decimal(&mut out, self.configurations);
        out.append(", in ");
        append_decimal(&mut out, self.designs_flying);
        out.append(" design(s); ");
        append_decimal(&mut out, self.assembled);
        out.append(" of those assemble");
        let t = listed(&self.not_assembled, "; not assembling: ");
        out.append(t.as_str());
        out.append("\n");
        out.append("  configurations left out, by first reason:");
        let t = listed(&self.left_out, " ");
        out.append(t.as_str());
        out.append("\n");
        out.append("  warnings reading motors:");
        let t = listed(&self.warnings, " ");
        out.append(t.as_str());
        out.append("\n");
        proof {
            let v = self@;
            assert(l1 =~= motor_report_head(v));
            assert(out@ =~= motor_report_spec(v));
        }
        out
    }

    /// Why the survey should fail: a configuration the rocket flies that does not assemble.
    pub fn failure(&self) -> (why: Option<String>)
        requires
            self.wf(),
        ensures
            match why {
                Some(w) => total(self@.not_assembled) > 0 && w@ == decimal(total(self@.not_assembled))
                    + " configuration(s) the importer passed as flyable do not assemble: "@
                    + join(keys(self@.not_assembled), "; "@),
                None => total(self@.not_assembled) == 0,
            },
    {
        let entries = self.not_assembled.entries();
        let ghost ev = self.not_assembled@;
        let mut failed: usize = 0;
        let mut names: Vec<String> = Vec::new();
        let mut k: usize = 0;
        assert(ev.take(0) =~= Seq::<(Seq<char>, nat)>::empty());
        while k < entries.len()
            invariant
                0 <= k <= entries.len(),
                ev == crate::tally::entries_view(entries@),
                total(ev) <= usize::MAX,
                failed == total(ev.take(k as int)),
                strings_view(names@) == keys(ev).take(k as int),
            decreases entries.len() - k,
        {
            proof {
                assert(ev.take(k + 1).drop_last() =~= ev.take(k as int));
                lemma_total_prefix(ev, k + 1);
            }
            failed = failed + entries[k].1;
            let ghost before = strings_view(names@);
            names.push(String::from_str(entries[k].0.as_str()));
            assert(strings_view(names@) =~= keys(ev).take(k + 1)) by {
                assert(strings_view(names@) =~= before.push(ev[k as int].0));
            }
            k += 1;
        }
        assert(ev.take(entries.len() as int) =~= ev);
        assert(keys(ev).take(entries.len() as int) =~= keys(ev));
        if failed == 0 {
            return None;
        }
        let mut out = String::new();
        append_decimal(&mut out, failed);
        out.append(" configuration(s) the importer passed as flyable do not assemble: ");
        let list = join_strings(&names, "; ");
        out.append(list.as_str());
        Some(out)
    }
}

/// `counts` as `key n, key n`, after `lead`; nothing at all when empty.
pub open spec fn listed_spec(counts: Seq<(Seq<char>, nat)>, lead: Seq<char>) -> Seq<char> {
    if counts.len() == 0 {
        Seq::empty()
    } else {
        lead + entries_text(counts)
    }
}

/// `counts` as `key n, key n`, after `lead`; nothing at all when empty.
pub fn listed(counts: &Tally, lead: &str) -> (out: String)
    ensures
        out@ == listed_spec(counts@, lead@),
{
    if counts.is_empty() {
        let out = String::new();
        assert(out@ =~= Seq::<char>::empty());
        return out;
    }
    let mut out = String::from_str(lead);
    let line = entries_line(counts);
    out.append(line.as_str());
    out
}

/// The counts after one more configuration: assembled, or failed with its error counted.
pub open spec fn motor_step(v: MotorTallyView, outcome: Result<(), String>) -> MotorTallyView {
    match outcome {
        Ok(_) => MotorTallyView { assembled: v.assembled + 1, ..v },
        Err(e) => MotorTallyView { not_assembled: count_in(v.not_assembled, e@), ..v },
    }
}

/// The counts after the configurations' outcomes, from none.
pub open spec fn motor_run(outcomes: Seq<Result<(), String>>) -> MotorTallyView
    decreases outcomes.len(),
{
    if outcomes.len() == 0 {
        no_motor_counts()
    } else {
        motor_step(motor_run(outcomes.drop_last()), outcomes.last())
    }
}

/// How many of the outcomes failed.
pub open spec fn failed(outcomes: Seq<Result<(), String>>) -> nat
    decreases outcomes.len(),
{
    if outcomes.len() == 0 {
        0
    } else {
        failed(outcomes.drop_last()) + if outcomes.last() is Err { 1nat } else { 0nat }
    }
}

/// How many of the outcomes failed with the error `e`.
pub open spec fn failed_with(outcomes: Seq<Result<(), String>>, e: Seq<char>) -> nat
    decreases outcomes.len(),
{
    if outcomes.len() == 0 {
        0
    } else {
        failed_with(outcomes.drop_last(), e) + match outcomes.last() {
            Err(x) => if x@ == e { 1nat } else { 0nat },
            Ok(_) => 0nat,
        }
    }
}

/// Over any run of configurations counted from none, each configuration is counted once, as
/// assembled or not; the errors are counted as many times as configurations failed with them;
/// and the errors the failure names are exactly those met, each once, in the order they sort. So
/// the survey fails exactly when some configuration does not assemble, and says how many did not.
pub proof fn lemma_failure_names_every_failed_assembly(outcomes: Seq<Result<(), String>>)
    ensures
        motor_run(outcomes).assembled + failed(outcomes) == outcomes.len(),
        total(motor_run(outcomes).not_assembled) == failed(outcomes),
        sorted_keys(motor_run(outcomes).not_assembled),
        forall|e: Seq<char>| count_of(motor_run(outcomes).not_assembled, e) == #[trigger] failed_with(outcomes, e),
        forall|e: Seq<char>| #[trigger] keys(motor_run(outcomes).not_assembled).contains(e) <==> failed_with(outcomes, e) > 0,
    decreases outcomes.len(),
{
    let v = motor_run(outcomes);
    let s = v.not_assembled;
    if outcomes.len() == 0 {
        assert forall|e: Seq<char>| #[trigger] keys(s).contains(e) <==> failed_with(outcomes, e) > 0 by {}
    } else {
        let rest = outcomes.drop_last();
        lemma_failure_names_every_failed_assembly(rest);
        lemma_counted_positive(rest);
        let s0 = motor_run(rest).not_assembled;
        match outcomes.last() {
            Ok(_) => {
                assert forall|e: Seq<char>| count_of(s, e) == #[trigger] failed_with(outcomes, e) by {
                    assert(count_of(s0, e) == failed_with(rest, e));
                }
            },
            Err(x) => {
                lemma_count_in_sorted(s0, x@);
                lemma_counted_once_more(s0, x@, x@);
                lemma_count_in_names(s0, x@);
                assert forall|e: Seq<char>| count_of(s, e) == #[trigger] failed_with(outcomes, e) by {
                    lemma_counted_once_more(s0, x@, e);
                    assert(count_of(s0, e) == failed_with(rest, e));
                }
            },
        }
        lemma_counted_positive(outcomes);
        assert forall|e: Seq<char>| #[trigger] keys(s).contains(e) <==> failed_with(outcomes, e) > 0 by {
            lemma_names_are_counted(s, e);
            assert(count_of(s, e) == failed_with(outcomes, e));
            if keys(s).contains(e) {
                let a = choose|a: int| 0 <= a < keys(s).len() && keys(s)[a] == e;
                assert(s[a].0 == e);
            }
            if names_hold(s, e) {
                let a = choose|a: int| 0 <= a < s.len() && #[trigger] s[a].0 == e;
                assert(keys(s)[a] == e);
            }
        }
    }
}

/// Counting from none leaves every error counted at least once.
proof fn lemma_counted_positive(outcomes: Seq<Result<(), String>>)
    ensures
        all_counted(motor_run(outcomes).not_assembled),
        sorted_keys(motor_run(outcomes).not_assembled),
    decreases outcomes.len(),
{
    if outcomes.len() > 0 {
        let rest = outcomes.drop_last();
        lemma_counted_positive(rest);
        if let Err(x) = outcomes.last() {
            lemma_count_in_names(motor_run(rest).not_assembled, x@);
            lemma_count_in_sorted(motor_run(rest).not_assembled, x@);
        }
    }
}

/// The first line of the motor counts as printed.
pub open spec fn motor_report_head(v: MotorTallyView) -> Seq<char> {
    "  motor configurations: "@ + decimal(v.configurations) + " in "@ + decimal(v.designs_configured)
        + " design(s) ("@ + decimal(v.undeclared) + " named only by a mount), over "@ + decimal(v.mounts)
        + " motor mount(s)\n"@
}

/// The motor counts as printed, a line each.
pub open spec fn motor_report_spec(v: MotorTallyView) -> Seq<char> {
    motor_report_head(v)
        + "  motors read into their configurations: "@ + decimal(v.motors) + listed_spec(v.kinds, ", by type: "@) + "\n"@
        + "  motors left out, in parts hpr does not read: "@ + decimal(total(v.unread)) + listed_spec(v.unread, ", inside "@)
        + "\n"@
        + "  thrust curves:"@ + listed_spec(v.curves, " "@) + "\n"@
        + "  ejection delays:"@ + listed_spec(v.delays, " "@) + "\n"@
        + "  ignition:"@ + listed_spec(v.ignitions, " "@) + "\n"@
        + "  configurations the rocket flies: "@ + decimal(v.flown) + " of "@ + decimal(v.configurations) + ", in "@
        + decimal(v.designs_flying) + " design(s); "@ + decimal(v.assembled) + " of those assemble"@
        + listed_spec(v.not_assembled, "; not assembling: "@) + "\n"@
        + "  configurations left out, by first reason:"@ + listed_spec(v.left_out, " "@) + "\n"@
        + "  warnings reading motors:"@ + listed_spec(v.warnings, " "@) + "\n"@
}

} // verus!
