//! Optional rules: overrides and experiments layered on top of the automatic
//! mechanisms (which the design stands on without any of this).
//!
//! ```toml
//! [[rule]]
//! match_comm = ["wineserver", "wine64-preloader"]
//! join_cohort_of = "parent"     # default anyway; shown for illustration
//!
//! [[rule]]
//! match_cgroup = "user.slice/*/app-steam*"
//! min_ccd_residency_ms = 5000   # extra migration hysteresis for games
//!
//! [[rule]]
//! match_comm = ["my-benchmark"]
//! pin_ccd = 0                   # nail the cohort to CCD 0
//! ```
//!
//! Rules are evaluated in file order; the first match wins.
use std::collections::HashMap;

use vstd::prelude::*;

use crate::glob::{check_glob, compiles, glob_error, glob_match, is_compilable, match_glob};

verus! {

#[derive(Debug)]
pub struct ConfigFile {
    pub options: OptionsTable,
    pub rules: Vec<RuleFile>,
}

/// `[options]`: daemon knobs mirroring the command-line flags, so a service
/// can be tuned without editing its unit. Explicitly passed flags take
/// precedence over these; these take precedence over built-in defaults.
#[derive(Debug, Clone, Copy, PartialEq, Eq, Structural)]
pub struct OptionsTable {
    /// Scheduling slice in microseconds.
    pub slice_us: Option<u64>,
    /// Daemon tick interval in milliseconds.
    pub interval_ms: Option<u64>,
    /// Steal gate: minimum foreign queue depth.
    pub steal_min: Option<u64>,
    /// Steal gate: maximum head wait in microseconds.
    pub steal_delay_us: Option<u64>,
    /// Wakeup preemption: minimum interval per victim CPU, microseconds.
    pub preempt_min_us: Option<u64>,
    /// Balancer imbalance threshold, % of one CCD's capacity.
    pub imbalance_pct: Option<u64>,
    /// Post-move cohort immunity in milliseconds.
    pub residency_ms: Option<u64>,
    /// Sustained cross-cohort wake rate that merges cohorts (rank).
    pub merge_wakes_per_sec: Option<u64>,
    /// SCHED_FIFO priority for the daemon; 0 disables the RT boost.
    pub rt_priority: Option<i32>,
    /// Drop ALL capabilities once the scheduler is attached. The daemon then
    /// cannot re-load BPF after a suspend/resume ejection, so it exits
    /// instead and relies on the service manager to relaunch it with fresh
    /// privileges.
    pub drop_privs: Option<bool>,
}

#[derive(Debug)]
pub struct RuleFile {
    /// Exact comm names (as in /proc/<pid>/comm, max 15 chars).
    pub match_comm: Option<Vec<String>>,
    /// Glob matched against the task's cgroup path.
    pub match_cgroup: Option<String>,
    /// Only "parent" is meaningful (and is the default behavior); other values
    /// are rejected so typos don't silently no-op.
    pub join_cohort_of: Option<String>,
    /// Pin the matching task's cohort to this CCD.
    pub pin_ccd: Option<u32>,
    /// Extra migration hysteresis for the matching task's cohort.
    pub min_ccd_residency_ms: Option<u64>,
}

/// A checked rule ready for matching.
#[derive(Debug)]
pub struct Rule {
    comms: Option<Vec<String>>,
    cgroup: Option<String>,
    pub pin_ccd: Option<u32>,
    pub min_ccd_residency_ms: Option<u64>,
}

#[derive(Debug)]
pub struct Config {
    pub options: OptionsTable,
    pub rules: Vec<Rule>,
}

/// What is wrong with a configuration; rules are counted from 1.
#[derive(Debug, Clone, PartialEq, Eq)]
pub enum ConfigError {
    /// `join_cohort_of` names something other than "parent".
    BadJoin { rule: usize },
    /// Neither `match_comm` nor `match_cgroup` is given.
    NoMatcher { rule: usize },
    /// `match_cgroup` is not a glob.
    BadGlob { rule: usize, glob: String, reason: String },
}

// ---- Nothing configured ----

/// The table that sets nothing.
pub open spec fn nothing_set() -> OptionsTable {
    OptionsTable {
        slice_us: None,
        interval_ms: None,
        steal_min: None,
        steal_delay_us: None,
        preempt_min_us: None,
        imbalance_pct: None,
        residency_ms: None,
        merge_wakes_per_sec: None,
        rt_priority: None,
        drop_privs: None,
    }
}

impl Default for OptionsTable {
    fn default() -> (table: Self)
        ensures
            table == nothing_set(),
    {
        OptionsTable {
            slice_us: None,
            interval_ms: None,
            steal_min: None,
            steal_delay_us: None,
            preempt_min_us: None,
            imbalance_pct: None,
            residency_ms: None,
            merge_wakes_per_sec: None,
            rt_priority: None,
            drop_privs: None,
        }
    }
}

impl Default for ConfigFile {
    fn default() -> (file: Self)
        ensures
            file.options == nothing_set(),
            file.rules@.len() == 0,
    {
        ConfigFile { options: OptionsTable::default(), rules: Vec::new() }
    }
}

impl Default for Config {
    fn default() -> (config: Self)
        ensures
            config.options == nothing_set(),
            config.rules@.len() == 0,
            config.wf(),
    {
        Config { options: OptionsTable::default(), rules: Vec::new() }
    }
}

// ---- What rules say ----

/// The texts of a list of strings.
pub open spec fn texts(list: Seq<String>) -> Seq<Seq<char>> {
    Seq::new(list.len(), |i: int| list[i]@)
}

/// What a rule asks of a task, and what it then sets.
pub struct RuleModel {
    pub comms: Option<Seq<Seq<char>>>,
    pub cgroup: Option<Seq<char>>,
    pub pin_ccd: Option<u32>,
    pub min_ccd_residency_ms: Option<u64>,
}

pub open spec fn names(list: Option<Vec<String>>) -> Option<Seq<Seq<char>>> {
    match list {
        Some(l) => Some(texts(l@)),
        None => None,
    }
}

pub open spec fn text(s: Option<String>) -> Option<Seq<char>> {
    match s {
        Some(s) => Some(s@),
        None => None,
    }
}

impl View for Rule {
    type V = RuleModel;

    closed spec fn view(&self) -> RuleModel {
        RuleModel {
            comms: names(self.comms),
            cgroup: text(self.cgroup),
            pin_ccd: self.pin_ccd,
            min_ccd_residency_ms: self.min_ccd_residency_ms,
        }
    }
}

impl RuleFile {
    /// The rule that it spells out. `join_cohort_of` says nothing that is not
    /// the default, so it leaves no trace.
    pub open spec fn rule(self) -> RuleModel {
        RuleModel {
            comms: names(self.match_comm),
            cgroup: text(self.match_cgroup),
            pin_ccd: self.pin_ccd,
            min_ccd_residency_ms: self.min_ccd_residency_ms,
        }
    }
}

impl RuleModel {
    /// The rule's glob, if it has one, is small enough to compile.
    pub open spec fn bounded(self) -> bool {
        match self.cgroup {
            Some(glob) => compiles(glob),
            None => true,
        }
    }

    /// The rule's glob, if it has one, is a glob.
    pub open spec fn valid(self) -> bool {
        match self.cgroup {
            Some(glob) => glob_error(glob) is None,
            None => true,
        }
    }

    /// The rule's glob, if it has one, says yes or no of the cgroup if it is a
    /// glob, and nothing if it is none.
    pub open spec fn answers(self, cgroup: Seq<char>) -> bool {
        self.cgroup is Some ==> (self.verdict(cgroup) is Some <==> self.valid())
    }

    pub open spec fn comm_ok(self, comm: Seq<char>) -> bool {
        match self.comms {
            Some(list) => list.contains(comm),
            None => true,
        }
    }

    /// What the rule's glob, if it has one, says of the cgroup.
    pub open spec fn verdict(self, cgroup: Seq<char>) -> Option<bool> {
        match self.cgroup {
            Some(glob) => glob_match(glob, cgroup),
            None => None,
        }
    }

    /// All criteria that the rule has hold of a task of whose cgroup its glob
    /// says `verdict`.
    pub open spec fn accepts(self, comm: Seq<char>, verdict: Option<bool>) -> bool {
        self.comm_ok(comm) && (self.cgroup is None || verdict == Some(true))
    }

    /// All criteria that the rule has hold of the task.
    pub open spec fn matches(self, comm: Seq<char>, cgroup: Seq<char>) -> bool {
        self.accepts(comm, self.verdict(cgroup))
    }
}

/// Why a rule is refused.
pub enum Fault {
    Join,
    Matcher,
    Glob { glob: Seq<char>, reason: Seq<char> },
}

/// The first thing wrong with a rule of whose glob `reason` says what is
/// wrong.
pub open spec fn fault_given(r: RuleFile, reason: Option<Seq<char>>) -> Option<Fault> {
    if r.join_cohort_of is Some && r.join_cohort_of->0@ != "parent"@ {
        Some(Fault::Join)
    } else if r.match_comm is None && r.match_cgroup is None {
        Some(Fault::Matcher)
    } else {
        match (r.match_cgroup, reason) {
            (Some(glob), Some(reason)) => Some(Fault::Glob { glob: glob@, reason }),
            _ => None,
        }
    }
}

/// What is wrong with the rule's glob, if it has one.
pub open spec fn glob_fault(r: RuleFile) -> Option<Seq<char>> {
    match r.match_cgroup {
        Some(glob) => glob_error(glob@),
        None => None,
    }
}

/// The error says that rule `i`, counted from 0, has the fault.
pub open spec fn reports(e: ConfigError, i: int, f: Fault) -> bool {
    match f {
        Fault::Join => e matches ConfigError::BadJoin { rule } && rule == i + 1,
        Fault::Matcher => e matches ConfigError::NoMatcher { rule } && rule == i + 1,
        Fault::Glob { glob, reason } => e matches ConfigError::BadGlob {
            rule,
            glob: g,
            reason: r,
        } && rule == i + 1 && g@ == glob && r@ == reason,
    }
}

/// Rule `i` is the first that is refused, given what is wrong with each glob.
pub open spec fn refused_first(
    rules: Seq<RuleFile>,
    reasons: Seq<Option<Seq<char>>>,
    i: int,
) -> bool {
    &&& 0 <= i < rules.len()
    &&& fault_given(rules[i], reasons[i]) is Some
    &&& forall|j: int| 0 <= j < i ==> fault_given(#[trigger] rules[j], reasons[j]) is None
}

/// What assembling the rules comes to, given what is wrong with each glob: the
/// first fault is reported; without one, the rules are kept as they are.
pub open spec fn assembled(
    file: ConfigFile,
    reasons: Seq<Option<Seq<char>>>,
    parsed: Result<Config, ConfigError>,
) -> bool {
    let rules = file.rules@;
    match parsed {
        Ok(config) => {
            &&& forall|i: int|
                0 <= i < rules.len() ==> fault_given(#[trigger] rules[i], reasons[i]) is None
            &&& config.options == file.options
            &&& config.rules@.len() == rules.len()
            &&& forall|i: int|
                0 <= i < rules.len() ==> (#[trigger] config.rules@[i])@ == rules[i].rule()
        },
        Err(e) => exists|i: int| #[trigger]
            refused_first(rules, reasons, i) && reports(
                e,
                i,
                fault_given(rules[i], reasons[i])->0,
            ),
    }
}

/// What is wrong with each rule's glob.
pub open spec fn glob_faults(rules: Seq<RuleFile>) -> Seq<Option<Seq<char>>> {
    Seq::new(rules.len(), |i: int| glob_fault(rules[i]))
}

/// The texts of a list of reasons.
pub open spec fn reason_texts(reasons: Seq<Option<String>>) -> Seq<Option<Seq<char>>> {
    Seq::new(reasons.len(), |i: int| text(reasons[i]))
}

/// Rule `i` is the first that accepts the task, given what each rule's glob
/// says of its cgroup.
pub open spec fn accepted_first(
    rules: Seq<Rule>,
    comm: Seq<char>,
    verdicts: Seq<Option<bool>>,
    i: int,
) -> bool {
    &&& 0 <= i < rules.len()
    &&& rules[i]@.accepts(comm, verdicts[i])
    &&& forall|j: int| 0 <= j < i ==> !(#[trigger] rules[j])@.accepts(comm, verdicts[j])
}

/// Rule `i` is the first that matches the task.
pub open spec fn matched_first(
    rules: Seq<Rule>,
    comm: Seq<char>,
    cgroup: Seq<char>,
    i: int,
) -> bool {
    &&& 0 <= i < rules.len()
    &&& rules[i]@.matches(comm, cgroup)
    &&& forall|j: int| 0 <= j < i ==> !(#[trigger] rules[j])@.matches(comm, cgroup)
}

impl ConfigFile {
    /// Every glob is small enough to compile.
    pub open spec fn bounded(self) -> bool {
        forall|i: int| 0 <= i < self.rules@.len() ==> (#[trigger] self.rules@[i]).rule().bounded()
    }

    /// Whether every glob is small enough to compile.
    pub fn is_bounded(&self) -> (yes: bool)
        ensures
            yes == self.bounded(),
    {
        let mut i: usize = 0;
        while i < self.rules.len()
            invariant
                i <= self.rules@.len(),
                forall|j: int| 0 <= j < i ==> (#[trigger] self.rules@[j]).rule().bounded(),
            decreases self.rules@.len() - i,
        {
            let ghost r = self.rules@[i as int].rule();
            match &self.rules[i].match_cgroup {
                Some(glob) => {
                    if !is_compilable(glob.as_str()) {
                        assert(!r.bounded());
                        return false;
                    }
                },
                None => {},
            }
            i = i + 1;
        }
        true
    }
}

/// Checks one rule, of whose glob `reason` says what is wrong.
fn check_rule(r: &RuleFile, rule: usize, reason: &Option<String>) -> (checked: Result<
    (),
    ConfigError,
>)
    requires
        rule >= 1,
    ensures
        match checked {
            Ok(_) => fault_given(*r, text(*reason)) is None,
            Err(e) => {
                &&& fault_given(*r, text(*reason)) is Some
                &&& reports(e, rule - 1, fault_given(*r, text(*reason))->0)
            },
        },
{
    if let Some(j) = &r.join_cohort_of {
        let parent = "parent".to_owned();
        if *j != parent {
            return Err(ConfigError::BadJoin { rule });
        }
    }
    if r.match_comm.is_none() && r.match_cgroup.is_none() {
        return Err(ConfigError::NoMatcher { rule });
    }
    match (&r.match_cgroup, reason) {
        (Some(g), Some(reason)) => Err(
            ConfigError::BadGlob { rule, glob: g.clone(), reason: reason.clone() },
        ),
        _ => Ok(()),
    }
}

/// Asks of each rule's glob what is wrong with it.
fn check_globs(rules: &Vec<RuleFile>) -> (reasons: Vec<Option<String>>)
    requires
        forall|i: int| 0 <= i < rules@.len() ==> (#[trigger] rules@[i]).rule().bounded(),
    ensures
        reasons@.len() == rules@.len(),
        reason_texts(reasons@) == glob_faults(rules@),
{
    let mut reasons: Vec<Option<String>> = Vec::new();
    let mut i: usize = 0;
    while i < rules.len()
        invariant
            i <= rules@.len(),
            reasons@.len() == i,
            forall|j: int| 0 <= j < rules@.len() ==> (#[trigger] rules@[j]).rule().bounded(),
            forall|j: int| 0 <= j < i ==> text(#[trigger] reasons@[j]) == glob_fault(rules@[j]),
        decreases rules@.len() - i,
    {
        assert(rules@[i as int].rule().bounded());
        let reason: Option<String> = match &rules[i].match_cgroup {
            Some(glob) => match check_glob(glob.as_str()) {
                Ok(_) => None,
                Err(reason) => Some(reason),
            },
            None => None,
        };
        reasons.push(reason);
        i = i + 1;
    }
    assert(reason_texts(reasons@) =~= glob_faults(rules@));
    reasons
}

impl Rule {
    /// Whether the rule accepts a task, given what its glob says of the
    /// task's cgroup.
    fn accepts(&self, comm: &String, verdict: Option<bool>) -> (yes: bool)
        ensures
            yes == self@.accepts(comm@, verdict),
    {
        let comm_ok = match &self.comms {
            Some(list) => is_listed(list, comm),
            None => true,
        };
        let cgroup_ok = match (&self.cgroup, verdict) {
            (None, _) => true,
            (Some(_), Some(yes)) => yes,
            (Some(_), None) => false,
        };
        comm_ok && cgroup_ok
    }
}

/// Whether a name is in the list.
fn is_listed(list: &Vec<String>, name: &String) -> (yes: bool)
    ensures
        yes == texts(list@).contains(name@),
{
    let mut i: usize = 0;
    while i < list.len()
        invariant
            i <= list@.len(),
            forall|j: int| 0 <= j < i ==> (#[trigger] texts(list@)[j]) != name@,
        decreases list@.len() - i,
    {
        if list[i] == *name {
            assert(texts(list@)[i as int] == name@);
            return true;
        }
        i = i + 1;
    }
    false
}

impl Config {
    /// Every rule's glob is small enough to compile.
    pub open spec fn bounded(self) -> bool {
        forall|i: int| 0 <= i < self.rules@.len() ==> (#[trigger] self.rules@[i])@.bounded()
    }

    /// Every rule's glob is a glob, and small enough to compile.
    pub open spec fn wf(self) -> bool {
        &&& self.bounded()
        &&& forall|i: int| 0 <= i < self.rules@.len() ==> (#[trigger] self.rules@[i])@.valid()
    }

    /// Checks the rules of a configuration file, in order.
    pub fn parse(file: ConfigFile) -> (parsed: Result<Self, ConfigError>)
        requires
            file.bounded(),
        ensures
            assembled(file, glob_faults(file.rules@), parsed),
            parsed matches Ok(config) ==> config.wf(),
    {
        let reasons = check_globs(&file.rules);
        let parsed = Config::assemble(file, reasons);
        proof {
            if parsed is Ok {
                let config = parsed->Ok_0;
                assert forall|i: int| 0 <= i < config.rules@.len() implies (
                #[trigger] config.rules@[i])@.bounded() && config.rules@[i]@.valid() by {
                    assert(config.rules@[i]@ == file.rules@[i].rule());
                    assert(file.rules@[i].rule().bounded());
                    assert(fault_given(file.rules@[i], glob_faults(file.rules@)[i]) is None);
                }
            }
        }
        parsed
    }

    /// Checks the rules of a configuration file, in order, given what is wrong
    /// with each rule's glob.
    pub fn assemble(file: ConfigFile, reasons: Vec<Option<String>>) -> (parsed: Result<
        Self,
        ConfigError,
    >)
        requires
            reasons@.len() == file.rules@.len(),
        ensures
            assembled(file, reason_texts(reasons@), parsed),
    {
        let ghost given = file.rules@;
        let ghost why = reason_texts(reasons@);
        let count: usize = file.rules.len();
        let mut rules: Vec<Rule> = Vec::new();
        for r in it: file.rules
            invariant
                it.seq() == given,
                rules@.len() == it.index(),
                given == file.rules@,
                count == given.len(),
                reasons@.len() == given.len(),
                why == reason_texts(reasons@),
                forall|i: int|
                    0 <= i < it.index() ==> fault_given(#[trigger] given[i], why[i]) is None,
                forall|i: int| 0 <= i < it.index() ==> (#[trigger] rules@[i])@ == given[i].rule(),
        {
            let ghost i = it.index() as int;
            assert(r == given[i]);
            let n: usize = rules.len();
            match check_rule(&r, n + 1, &reasons[n]) {
                Ok(_) => {},
                Err(e) => {
                    assert(refused_first(given, why, i));
                    return Err(e);
                },
            }
            let rule = Rule {
                comms: r.match_comm,
                cgroup: r.match_cgroup,
                pin_ccd: r.pin_ccd,
                min_ccd_residency_ms: r.min_ccd_residency_ms,
            };
            assert(rule@ == given[i].rule());
            rules.push(rule);
        }
        Ok(Config { options: file.options, rules })
    }

    /// First rule matching the task, if any. All present criteria of a rule
    /// must match (AND). The glob of every rule of a checked configuration
    /// says yes or no.
    pub fn match_task(&self, comm: &str, cgroup: &str) -> (found: Option<&Rule>)
        requires
            self.bounded(),
        ensures
            forall|i: int|
                0 <= i < self.rules@.len() ==> (#[trigger] self.rules@[i])@.answers(cgroup@),
            self.wf() ==> forall|i: int|
                0 <= i < self.rules@.len() && (#[trigger] self.rules@[i])@.cgroup is Some
                    ==> self.rules@[i]@.verdict(cgroup@) is Some,
            match found {
                Some(rule) => exists|i: int| #[trigger]
                    matched_first(self.rules@, comm@, cgroup@, i) && *rule == self.rules@[i],
                None => forall|j: int|
                    0 <= j < self.rules@.len() ==> !(#[trigger] self.rules@[j])@.matches(
                        comm@,
                        cgroup@,
                    ),
            },
    {
        let mut verdicts: Vec<Option<bool>> = Vec::new();
        let mut i: usize = 0;
        while i < self.rules.len()
            invariant
                i <= self.rules@.len(),
                self.bounded(),
                verdicts@.len() == i,
                forall|j: int| 0 <= j < i ==> (#[trigger] self.rules@[j])@.answers(cgroup@),
                forall|j: int|
                    0 <= j < i ==> #[trigger] verdicts@[j] == self.rules@[j]@.verdict(cgroup@),
            decreases self.rules@.len() - i,
        {
            assert(self.rules@[i as int]@.bounded());
            let verdict: Option<bool> = match &self.rules[i].cgroup {
                Some(glob) => match_glob(glob.as_str(), cgroup),
                None => None,
            };
            verdicts.push(verdict);
            i = i + 1;
        }
        match self.first_accepting(comm, &verdicts) {
            Some(i) => {
                assert(matched_first(self.rules@, comm@, cgroup@, i as int));
                Some(&self.rules[i])
            },
            None => None,
        }
    }

    /// The first rule that accepts a task, given what each rule's glob says of
    /// the task's cgroup.
    pub fn first_accepting(&self, comm: &str, verdicts: &Vec<Option<bool>>) -> (found: Option<
        usize,
    >)
        requires
            verdicts@.len() == self.rules@.len(),
        ensures
            match found {
                Some(i) => accepted_first(self.rules@, comm@, verdicts@, i as int),
                None => forall|j: int|
                    0 <= j < self.rules@.len() ==> !(#[trigger] self.rules@[j])@.accepts(
                        comm@,
                        verdicts@[j],
                    ),
            },
    {
        let name = comm.to_owned();
        let mut i: usize = 0;
        while i < self.rules.len()
            invariant
                i <= self.rules@.len(),
                verdicts@.len() == self.rules@.len(),
                name@ == comm@,
                forall|j: int|
                    0 <= j < i ==> !(#[trigger] self.rules@[j])@.accepts(comm@, verdicts@[j]),
            decreases self.rules@.len() - i,
        {
            if self.rules[i].accepts(&name, verdicts[i]) {
                return Some(i);
            }
            i = i + 1;
        }
        None
    }
}

// ---- What matched rules ask for ----

/// What matched rules ask for of cohorts.
#[derive(Debug)]
pub struct Overrides {
    pub residency_ms: HashMap<u64, u64>,
    pub pins: HashMap<u64, u32>,
}

impl Overrides {
    pub fn new() -> (o: Self)
        ensures
            o.residency_ms@ == Map::<u64, u64>::empty(),
            o.pins@ == Map::<u64, u32>::empty(),
    {
        Overrides { residency_ms: HashMap::new(), pins: HashMap::new() }
    }

    /// Notes the rule, if any, that a task of the cohort matched.
    pub fn note(&mut self, cohort: u64, rule: Option<&Rule>)
        ensures
            final(self).residency_ms@ == (match rule {
                Some(r) => match r@.min_ccd_residency_ms {
                    Some(ms) => old(self).residency_ms@.insert(cohort, ms),
                    None => old(self).residency_ms@,
                },
                None => old(self).residency_ms@,
            }),
            final(self).pins@ == (match rule {
                Some(r) => match r@.pin_ccd {
                    Some(llc) => old(self).pins@.insert(cohort, llc),
                    None => old(self).pins@,
                },
                None => old(self).pins@,
            }),
    {
        if let Some(r) = rule {
            if let Some(ms) = r.min_ccd_residency_ms {
                self.residency_ms.insert(cohort, ms);
            }
            if let Some(llc) = r.pin_ccd {
                self.pins.insert(cohort, llc);
            }
        }
    }
}

} // verus!
