//! What holds of the rules of a configuration.
use vstd::prelude::*;

use crate::config::{
    accepted_first, assembled, fault_given, matched_first, refused_first, reports, Config,
    ConfigError, ConfigFile, Rule, RuleFile, RuleModel,
};
use crate::glob::{compiles, glob_error, glob_match};

verus! {

/// The first match wins: no two rules are the first to match a task, and every
/// rule that matches comes no earlier.
pub proof fn law_first_match_wins(
    rules: Seq<Rule>,
    comm: Seq<char>,
    cgroup: Seq<char>,
    i: int,
    j: int,
)
    requires
        matched_first(rules, comm, cgroup, i),
        0 <= j < rules.len(),
        rules[j]@.matches(comm, cgroup),
    ensures
        i <= j,
        matched_first(rules, comm, cgroup, j) ==> i == j,
{
}

/// Criteria within a rule AND together: one that names comms and a glob
/// matches only tasks that meet both.
pub proof fn law_criteria_and_together(rule: RuleModel, comm: Seq<char>, cgroup: Seq<char>)
    requires
        rule.comms is Some,
        rule.cgroup is Some,
    ensures
        rule.matches(comm, cgroup) <==> rule.comms->0.contains(comm) && glob_match(
            rule.cgroup->0,
            cgroup,
        ) == Some(true),
{
}

/// A criterion that a rule does not have constrains nothing.
pub proof fn law_absent_criteria_do_not_constrain(
    rule: RuleModel,
    comm: Seq<char>,
    cgroup: Seq<char>,
)
    ensures
        rule.comms is None ==> (rule.matches(comm, cgroup) <==> rule.cgroup is None || glob_match(
            rule.cgroup->0,
            cgroup,
        ) == Some(true)),
        rule.cgroup is None ==> (rule.matches(comm, cgroup) <==> rule.comms is None
            || rule.comms->0.contains(comm)),
{
}

/// A rule of an accepted configuration has something to match on, so no rule
/// catches every task by omission.
pub proof fn law_accepted_rules_have_a_matcher(
    file: ConfigFile,
    reasons: Seq<Option<Seq<char>>>,
    parsed: Result<Config, ConfigError>,
    i: int,
)
    requires
        assembled(file, reasons, parsed),
        parsed is Ok,
        0 <= i < parsed->Ok_0.rules@.len(),
    ensures
        parsed->Ok_0.rules@[i]@.comms is Some || parsed->Ok_0.rules@[i]@.cgroup is Some,
{
    let config = parsed->Ok_0;
    assert(config.rules@[i]@ == file.rules@[i].rule());
    assert(fault_given(file.rules@[i], reasons[i]) is None);
}

// ---- What is accepted ----

/// The rule joins its parent's cohort, if it says anything of joining.
pub open spec fn joins_well(r: RuleFile) -> bool {
    r.join_cohort_of matches Some(j) ==> j@ == seq!['p', 'a', 'r', 'e', 'n', 't']
}

/// The rule has something to match on.
pub open spec fn has_matcher(r: RuleFile) -> bool {
    r.match_comm is Some || r.match_cgroup is Some
}

/// Nothing is wrong with the rule's glob, if it has one.
pub open spec fn globs_well(r: RuleFile, reason: Option<Seq<char>>) -> bool {
    r.match_cgroup is Some ==> reason is None
}

proof fn lemma_fault(r: RuleFile, reason: Option<Seq<char>>)
    ensures
        fault_given(r, reason) is None <==> joins_well(r) && has_matcher(r) && globs_well(
            r,
            reason,
        ),
{
    reveal_strlit("parent");
    assert("parent"@ =~= seq!['p', 'a', 'r', 'e', 'n', 't']);
}

/// A configuration is accepted exactly if each of its rules joins no one but
/// its parent, has something to match on, and has no broken glob.
pub proof fn law_sound_files_are_accepted(
    file: ConfigFile,
    reasons: Seq<Option<Seq<char>>>,
    parsed: Result<Config, ConfigError>,
)
    requires
        assembled(file, reasons, parsed),
    ensures
        parsed is Ok <==> forall|i: int|
            0 <= i < file.rules@.len() ==> {
                &&& joins_well(#[trigger] file.rules@[i])
                &&& has_matcher(file.rules@[i])
                &&& globs_well(file.rules@[i], reasons[i])
            },
{
    let rules = file.rules@;
    if parsed is Ok {
        assert forall|i: int| 0 <= i < rules.len() implies {
            &&& joins_well(#[trigger] rules[i])
            &&& has_matcher(rules[i])
            &&& globs_well(rules[i], reasons[i])
        } by {
            lemma_fault(rules[i], reasons[i]);
        }
    } else {
        let e = parsed->Err_0;
        let i = choose|i: int| #[trigger] refused_first(rules, reasons, i);
        lemma_fault(rules[i], reasons[i]);
        assert(!(joins_well(rules[i]) && has_matcher(rules[i]) && globs_well(
            rules[i],
            reasons[i],
        )));
    }
}

/// The first rule with a fault is reported, counted from 1: whom it joins
/// before what it lacks, and that before its glob.
pub proof fn law_the_first_fault_is_reported(
    file: ConfigFile,
    reasons: Seq<Option<Seq<char>>>,
    parsed: Result<Config, ConfigError>,
    i: int,
)
    requires
        assembled(file, reasons, parsed),
        0 <= i < file.rules@.len(),
        !(joins_well(file.rules@[i]) && has_matcher(file.rules@[i]) && globs_well(
            file.rules@[i],
            reasons[i],
        )),
        forall|j: int|
            0 <= j < i ==> {
                &&& joins_well(#[trigger] file.rules@[j])
                &&& has_matcher(file.rules@[j])
                &&& globs_well(file.rules@[j], reasons[j])
            },
    ensures
        parsed is Err,
        ({
            let r = file.rules@[i];
            let e = parsed->Err_0;
            &&& !joins_well(r) ==> (e matches ConfigError::BadJoin { rule } && rule == i + 1)
            &&& joins_well(r) && !has_matcher(r) ==> (e matches ConfigError::NoMatcher { rule }
                && rule == i + 1)
            &&& joins_well(r) && has_matcher(r) ==> (e matches ConfigError::BadGlob {
                rule,
                glob,
                reason,
            } && rule == i + 1 && glob@ == r.match_cgroup->0@ && reason@ == reasons[i]->0)
        }),
{
    let rules = file.rules@;
    law_sound_files_are_accepted(file, reasons, parsed);
    assert(parsed is Err) by {
        if parsed is Ok {
            assert(joins_well(rules[i]));
        }
    }
    let e = parsed->Err_0;
    let k = choose|k: int| #[trigger]
        refused_first(rules, reasons, k) && reports(
            e,
            k,
            fault_given(rules[k], reasons[k])->0,
        );
    lemma_fault(rules[k], reasons[k]);
    lemma_fault(rules[i], reasons[i]);
    assert(k >= i) by {
        if k < i {
            assert(joins_well(rules[k]));
        }
    }
    assert(k <= i) by {
        if i < k {
            assert(fault_given(rules[i], reasons[i]) is None);
        }
    }
    reveal_strlit("parent");
    assert("parent"@ =~= seq!['p', 'a', 'r', 'e', 'n', 't']);
}

/// An accepted configuration keeps the options and every rule as the file has
/// them, in the same order.
pub proof fn law_accepted_rules_are_kept(
    file: ConfigFile,
    reasons: Seq<Option<Seq<char>>>,
    parsed: Result<Config, ConfigError>,
    i: int,
)
    requires
        assembled(file, reasons, parsed),
        parsed is Ok,
    ensures
        parsed->Ok_0.options == file.options,
        parsed->Ok_0.rules@.len() == file.rules@.len(),
        0 <= i < file.rules@.len() ==> {
            let kept = parsed->Ok_0.rules@[i]@;
            let r = file.rules@[i];
            &&& kept.pin_ccd == r.pin_ccd
            &&& kept.min_ccd_residency_ms == r.min_ccd_residency_ms
            &&& kept.cgroup is Some <==> r.match_cgroup is Some
            &&& r.match_cgroup is Some ==> kept.cgroup->0 == r.match_cgroup->0@
            &&& kept.comms is Some <==> r.match_comm is Some
            &&& r.match_comm is Some ==> {
                &&& kept.comms->0.len() == r.match_comm->0@.len()
                &&& forall|k: int|
                    0 <= k < r.match_comm->0@.len() ==> #[trigger] kept.comms->0[k]
                        == r.match_comm->0@[k]@
            }
        },
{
    if 0 <= i < file.rules@.len() {
        assert(parsed->Ok_0.rules@[i]@ == file.rules@[i].rule());
    }
}

/// A file's rules can be checked exactly if every glob is small enough to
/// compile; a configuration is sound exactly if every glob is, and is a glob.
pub proof fn law_sound_configurations_have_sound_globs(file: ConfigFile, config: Config)
    ensures
        file.bounded() <==> forall|i: int|
            0 <= i < file.rules@.len() && (#[trigger] file.rules@[i]).match_cgroup is Some
                ==> compiles(file.rules@[i].match_cgroup->0@),
        config.wf() <==> forall|i: int|
            0 <= i < config.rules@.len() && (#[trigger] config.rules@[i])@.cgroup is Some ==> {
                &&& compiles(config.rules@[i]@.cgroup->0)
                &&& glob_error(config.rules@[i]@.cgroup->0) is None
            },
        config.bounded() <==> forall|i: int|
            0 <= i < config.rules@.len() && (#[trigger] config.rules@[i])@.cgroup is Some
                ==> compiles(config.rules@[i]@.cgroup->0),
{
    assert forall|i: int| 0 <= i < file.rules@.len() implies (
    #[trigger] file.rules@[i]).rule().bounded() == (file.rules@[i].match_cgroup is Some
        ==> compiles(file.rules@[i].match_cgroup->0@)) by {}
    assert forall|i: int| 0 <= i < config.rules@.len() implies (
    #[trigger] config.rules@[i])@.bounded() == (config.rules@[i]@.cgroup is Some ==> compiles(
        config.rules@[i]@.cgroup->0,
    )) by {}
}

// ---- Who is accepted ----

/// The task's name is one of those that the rule lists, if it lists any, and
/// the rule's glob, if it has one, said yes.
pub open spec fn fits_rule(rule: RuleModel, comm: Seq<char>, verdict: Option<bool>) -> bool {
    &&& rule.comms matches Some(list) ==> exists|k: int|
        0 <= k < list.len() && #[trigger] list[k] == comm
    &&& rule.cgroup is Some ==> verdict == Some(true)
}

/// The rule found is one that the task fits, and the task fits none before.
pub proof fn law_the_first_fitting_rule_is_found(
    rules: Seq<Rule>,
    comm: Seq<char>,
    verdicts: Seq<Option<bool>>,
    i: int,
)
    ensures
        accepted_first(rules, comm, verdicts, i) <==> {
            &&& 0 <= i < rules.len()
            &&& fits_rule(rules[i]@, comm, verdicts[i])
            &&& forall|j: int|
                0 <= j < i ==> !fits_rule((#[trigger] rules[j])@, comm, verdicts[j])
        },
{
    assert forall|j: int| 0 <= j < rules.len() implies (#[trigger] rules[j])@.accepts(
        comm,
        verdicts[j],
    ) == fits_rule(rules[j]@, comm, verdicts[j]) by {
        lemma_fits(rules[j]@, comm, verdicts[j]);
    }
}

proof fn lemma_fits(rule: RuleModel, comm: Seq<char>, verdict: Option<bool>)
    ensures
        rule.accepts(comm, verdict) == fits_rule(rule, comm, verdict),
{
    if rule.comms is Some && rule.comms->0.contains(comm) {
        let k = choose|k: int| 0 <= k < rule.comms->0.len() && rule.comms->0[k] == comm;
        assert(rule.comms->0[k] == comm);
    }
}

/// What the rule's glob, if it has one, says of the cgroup.
pub open spec fn said_of(rule: RuleModel, cgroup: Seq<char>) -> Option<bool> {
    if rule.cgroup is Some {
        glob_match(rule.cgroup->0, cgroup)
    } else {
        None
    }
}

/// The rule that matches first is one that the task fits, given what its glob
/// says of the cgroup, and the task fits none before.
pub proof fn law_the_first_matching_rule_is_found(
    rules: Seq<Rule>,
    comm: Seq<char>,
    cgroup: Seq<char>,
    i: int,
)
    ensures
        matched_first(rules, comm, cgroup, i) <==> {
            &&& 0 <= i < rules.len()
            &&& fits_rule(rules[i]@, comm, said_of(rules[i]@, cgroup))
            &&& forall|j: int|
                0 <= j < i ==> !fits_rule(
                    (#[trigger] rules[j])@,
                    comm,
                    said_of(rules[j]@, cgroup),
                )
        },
{
    assert forall|j: int| 0 <= j < rules.len() implies (#[trigger] rules[j])@.matches(
        comm,
        cgroup,
    ) == fits_rule(rules[j]@, comm, said_of(rules[j]@, cgroup)) by {
        lemma_fits(rules[j]@, comm, rules[j]@.verdict(cgroup));
    }
}

/// A rule accepts, and matches, exactly the tasks that fit it.
pub proof fn law_a_rule_accepts_who_fits(
    rule: RuleModel,
    comm: Seq<char>,
    cgroup: Seq<char>,
    verdict: Option<bool>,
)
    ensures
        rule.accepts(comm, verdict) <==> fits_rule(rule, comm, verdict),
        rule.matches(comm, cgroup) <==> fits_rule(rule, comm, said_of(rule, cgroup)),
{
    lemma_fits(rule, comm, verdict);
    lemma_fits(rule, comm, rule.verdict(cgroup));
}

} // verus!
