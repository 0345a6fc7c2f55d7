use scx_cohort::config::{Config, ConfigError, ConfigFile, OptionsTable, Overrides, RuleFile};
use scx_cohort::glob::is_compilable;
use scx_cohort::wake_graph::rate_rank;

// ---- reading the text ----

fn number(v: &toml::Value) -> Result<u64, String> {
    let n = v.as_integer().ok_or("expected an integer")?;
    u64::try_from(n).map_err(|e| e.to_string())
}

fn small_number(v: &toml::Value) -> Result<u32, String> {
    u32::try_from(number(v)?).map_err(|e| e.to_string())
}

fn string(v: &toml::Value) -> Result<String, String> {
    Ok(v.as_str().ok_or("expected a string")?.to_string())
}

fn strings(v: &toml::Value) -> Result<Vec<String>, String> {
    v.as_array().ok_or("expected an array")?.iter().map(string).collect()
}

fn options(table: &toml::Table) -> Result<OptionsTable, String> {
    let mut o = OptionsTable::default();
    for (key, v) in table {
        match key.as_str() {
            "slice_us" => o.slice_us = Some(number(v)?),
            "interval_ms" => o.interval_ms = Some(number(v)?),
            "steal_min" => o.steal_min = Some(number(v)?),
            "steal_delay_us" => o.steal_delay_us = Some(number(v)?),
            "preempt_min_us" => o.preempt_min_us = Some(number(v)?),
            "imbalance_pct" => o.imbalance_pct = Some(number(v)?),
            "residency_ms" => o.residency_ms = Some(number(v)?),
            "merge_wakes_per_sec" => {
                let rate = v.as_float().ok_or("expected a float")?;
                o.merge_wakes_per_sec = Some(rate_rank(rate.to_bits()));
            }
            "rt_priority" => {
                let n = v.as_integer().ok_or("expected an integer")?;
                o.rt_priority = Some(i32::try_from(n).map_err(|e| e.to_string())?);
            }
            "drop_privs" => o.drop_privs = Some(v.as_bool().ok_or("expected a boolean")?),
            _ => return Err(format!("unknown option {key}")),
        }
    }
    Ok(o)
}

fn empty_rule() -> RuleFile {
    RuleFile {
        match_comm: None,
        match_cgroup: None,
        join_cohort_of: None,
        pin_ccd: None,
        min_ccd_residency_ms: None,
    }
}

fn rule(table: &toml::Table) -> Result<RuleFile, String> {
    let mut r = empty_rule();
    for (key, v) in table {
        match key.as_str() {
            "match_comm" => r.match_comm = Some(strings(v)?),
            "match_cgroup" => r.match_cgroup = Some(string(v)?),
            "join_cohort_of" => r.join_cohort_of = Some(string(v)?),
            "pin_ccd" => r.pin_ccd = Some(small_number(v)?),
            "min_ccd_residency_ms" => r.min_ccd_residency_ms = Some(number(v)?),
            _ => return Err(format!("unknown key {key}")),
        }
    }
    Ok(r)
}

fn file(text: &str) -> Result<ConfigFile, String> {
    let table = text.parse::<toml::Table>().map_err(|e| e.to_string())?;
    let mut f = ConfigFile {
        options: OptionsTable::default(),
        rules: Vec::new(),
    };
    for (key, v) in &table {
        match key.as_str() {
            "options" => f.options = options(v.as_table().ok_or("expected a table")?)?,
            "rule" => {
                for r in v.as_array().ok_or("expected an array")? {
                    f.rules.push(rule(r.as_table().ok_or("expected a table")?)?);
                }
            }
            _ => return Err(format!("unknown table {key}")),
        }
    }
    Ok(f)
}

fn parse(text: &str) -> Result<Config, String> {
    let f = file(text)?;
    assert!(f.is_bounded());
    Config::parse(f).map_err(|e| format!("{e:?}"))
}

// ---- rules and options ----
const SAMPLE: &str = r#"
[[rule]]
match_comm = ["wineserver", "wine64-preloader"]
join_cohort_of = "parent"

[[rule]]
match_cgroup = "user.slice/*/app-steam*"
min_ccd_residency_ms = 5000

[[rule]]
match_comm = ["my-benchmark"]
pin_ccd = 0
"#;

#[test]
fn comm_exact_match() {
    let cfg = parse(SAMPLE).unwrap();
    assert!(cfg.match_task("wineserver", "").is_some());
    assert!(cfg.match_task("wine64-preloader", "").is_some());
    // Substrings and prefixes do not match.
    assert!(cfg.match_task("wineserver2", "").is_none());
    assert!(cfg.match_task("wine", "").is_none());
}

#[test]
fn cgroup_glob_match() {
    let cfg = parse(SAMPLE).unwrap();
    let rule = cfg
        .match_task(
            "GameThread",
            "user.slice/user-1000.slice/app-steam-12345.scope",
        )
        .expect("glob should match");
    assert_eq!(rule.min_ccd_residency_ms, Some(5000));
    assert!(cfg
        .match_task("GameThread", "system.slice/sshd.service")
        .is_none());
}

#[test]
fn pin_rule_carries_ccd() {
    let cfg = parse(SAMPLE).unwrap();
    assert_eq!(cfg.match_task("my-benchmark", "").unwrap().pin_ccd, Some(0));
}

#[test]
fn first_match_wins() {
    let cfg = parse(
        r#"
[[rule]]
match_comm = ["x"]
pin_ccd = 0

[[rule]]
match_comm = ["x"]
pin_ccd = 1
"#,
    )
    .unwrap();
    assert_eq!(cfg.match_task("x", "").unwrap().pin_ccd, Some(0));
}

#[test]
fn and_semantics_within_a_rule() {
    let cfg = parse(
        r#"
[[rule]]
match_comm = ["game"]
match_cgroup = "user.slice/*"
pin_ccd = 1
"#,
    )
    .unwrap();
    assert!(cfg.match_task("game", "user.slice/foo").is_some());
    assert!(cfg.match_task("game", "system.slice/foo").is_none());
    assert!(cfg.match_task("other", "user.slice/foo").is_none());
}

#[test]
fn options_table_parses() {
    let cfg = parse(
        "[options]\nslice_us = 3000\nrt_priority = 0\n\n[[rule]]\nmatch_comm = [\"a\"]\npin_ccd = 1",
    )
    .unwrap();
    assert_eq!(cfg.options.slice_us, Some(3000));
    assert_eq!(cfg.options.rt_priority, Some(0));
    assert!(cfg.options.interval_ms.is_none());
    assert_eq!(cfg.rules.len(), 1);
}

#[test]
fn drop_privs_option_parses() {
    let cfg = parse("[options]\ndrop_privs = true").unwrap();
    assert_eq!(cfg.options.drop_privs, Some(true));
    assert!(parse("").unwrap().options.drop_privs.is_none());
}

#[test]
fn options_absent_is_fine() {
    let cfg = parse("[[rule]]\nmatch_comm = [\"a\"]\npin_ccd = 1").unwrap();
    assert!(cfg.options.slice_us.is_none());
}

#[test]
fn unknown_option_key_rejected() {
    assert!(parse("[options]\nslice_usec = 1").is_err());
}

#[test]
fn bad_configs_rejected() {
    // Unknown join target.
    assert!(
        parse("[[rule]]\nmatch_comm=[\"a\"]\njoin_cohort_of=\"grandparent\"").is_err()
    );
    // No matcher at all.
    assert!(parse("[[rule]]\npin_ccd = 1").is_err());
    // Unknown key (typo protection).
    assert!(parse("[[rule]]\nmatch_com = [\"a\"]").is_err());
}

#[test]
fn faults_are_reported_with_their_rule() {
    let good = "[[rule]]\nmatch_comm = [\"a\"]\n";
    let bad_join = format!("{good}[[rule]]\nmatch_comm = [\"a\"]\njoin_cohort_of = \"child\"");
    assert_eq!(
        Config::parse(file(&bad_join).unwrap()).unwrap_err(),
        ConfigError::BadJoin { rule: 2 }
    );
    let no_matcher = format!("{good}{good}[[rule]]\npin_ccd = 1");
    assert_eq!(
        Config::parse(file(&no_matcher).unwrap()).unwrap_err(),
        ConfigError::NoMatcher { rule: 3 }
    );
    let bad_glob = "[[rule]]\nmatch_cgroup = \"a[b\"";
    match Config::parse(file(bad_glob).unwrap()).unwrap_err() {
        ConfigError::BadGlob { rule, glob, reason } => {
            assert_eq!(rule, 1);
            assert_eq!(glob, "a[b");
            assert_eq!(reason, globset::Glob::new("a[b").unwrap_err().to_string());
        }
        e => panic!("{e:?}"),
    }
    // The join is looked at before the matchers, and the first rule first.
    let both = "[[rule]]\njoin_cohort_of = \"x\"\n[[rule]]\nmatch_cgroup = \"[\"";
    assert_eq!(
        Config::parse(file(both).unwrap()).unwrap_err(),
        ConfigError::BadJoin { rule: 1 }
    );
}

#[test]
fn an_empty_list_of_comms_matches_nothing() {
    let cfg = parse("[[rule]]\nmatch_comm = []\npin_ccd = 1").unwrap();
    assert!(cfg.match_task("", "").is_none());
    assert!(cfg.match_task("x", "user.slice").is_none());
}

#[test]
fn globs_cross_separators() {
    let cfg = parse("[[rule]]\nmatch_cgroup = \"user.slice/*.scope\"").unwrap();
    assert!(cfg.match_task("x", "user.slice/a/b.scope").is_some());
    assert!(cfg.match_task("x", "user.slice/a/b.service").is_none());
    let alternatives = parse("[[rule]]\nmatch_cgroup = \"{a,b}?\"").unwrap();
    assert!(alternatives.match_task("x", "a1").is_some());
    assert!(alternatives.match_task("x", "b2").is_some());
    assert!(alternatives.match_task("x", "c3").is_none());
    assert!(alternatives.match_task("x", "{a,b}?").is_none());
}

#[test]
fn verdicts_decide_where_globs_are_asked() {
    let cfg = parse(
        "[[rule]]\nmatch_comm = [\"a\", \"b\"]\nmatch_cgroup = \"x\"\n\
         [[rule]]\nmatch_cgroup = \"y\"\n[[rule]]\nmatch_comm = [\"b\"]",
    )
    .unwrap();
    let no = Some(false);
    let yes = Some(true);
    assert_eq!(cfg.first_accepting("b", &vec![yes, yes, None]), Some(0));
    assert_eq!(cfg.first_accepting("b", &vec![no, yes, None]), Some(1));
    assert_eq!(cfg.first_accepting("b", &vec![no, no, None]), Some(2));
    assert_eq!(cfg.first_accepting("c", &vec![yes, no, None]), None);
    assert_eq!(cfg.first_accepting("c", &vec![None, None, None]), None);
}

#[test]
fn reasons_decide_where_globs_are_checked() {
    let with_glob = || {
        let mut r = empty_rule();
        r.match_cgroup = Some("x".to_string());
        r
    };
    let two = || ConfigFile {
        options: OptionsTable::default(),
        rules: vec![with_glob(), with_glob()],
    };
    let cfg = Config::assemble(two(), vec![None, None]).unwrap();
    assert_eq!(cfg.rules.len(), 2);
    assert_eq!(
        Config::assemble(two(), vec![None, Some("why".to_string())]).unwrap_err(),
        ConfigError::BadGlob {
            rule: 2,
            glob: "x".to_string(),
            reason: "why".to_string()
        }
    );
}

#[test]
fn overlong_globs_are_out_of_bounds() {
    assert!(is_compilable(&"a".repeat(32768)));
    assert!(!is_compilable(&"a".repeat(32769)));
    assert!(is_compilable(&"{".repeat(81)));
    assert!(!is_compilable(&"{".repeat(82)));
    // Side by side, alternations do not nest...
    assert!(is_compilable(&"{a,b}".repeat(82)));
    assert!(is_compilable(&format!("{}{}", "}".repeat(9), "{a,b}".repeat(82))));
    assert!(!is_compilable(&format!("{}{}", "{a,b}".repeat(9), "{".repeat(82))));
    // ...and braces in a class or behind a backslash are none.
    assert!(is_compilable(&"{a,[{}]}".repeat(82)));
    assert!(is_compilable(&"[!]{]".repeat(82)));
    assert!(is_compilable(&"[]{]".repeat(82)));
    assert!(is_compilable(&"\\{".repeat(82)));
    assert!(!is_compilable(&"{a,[}]".repeat(82)));
    assert!(!is_compilable(&"{a,[^}]".repeat(82)));
    assert!(!is_compilable(&"{a,\\}".repeat(82)));
    assert!(!is_compilable(&"[a]{".repeat(82)));
    assert!(!is_compilable(&"[\\]{".repeat(82)));
    let mut r = empty_rule();
    r.match_cgroup = Some("a".repeat(40000));
    let f = ConfigFile {
        options: OptionsTable::default(),
        rules: vec![r],
    };
    assert!(!f.is_bounded());
}

/// Compiles the glob and matches it once.
fn compile_and_match(glob: String, path: &str) -> bool {
    let mut r = empty_rule();
    r.match_cgroup = Some(glob);
    let f = ConfigFile {
        options: OptionsTable::default(),
        rules: vec![r],
    };
    assert!(f.is_bounded());
    let cfg = Config::parse(f).unwrap();
    cfg.match_task("x", path).is_some()
}

#[test]
fn many_alternations_side_by_side_match() {
    assert!(compile_and_match("{a,b}".repeat(65), &"ab".repeat(33)[..65]));
    assert!(!compile_and_match("{a,b}".repeat(65), &"ab".repeat(32)));
    assert!(compile_and_match("{a,[{}]}".repeat(90), &"a{}".repeat(30)));
    assert!(!compile_and_match("{a,b}".repeat(6553), "ab"));
}

#[test]
fn the_deepest_globs_in_bounds_compile() {
    let nested = format!("{}a{}", "{b,".repeat(81), "}".repeat(81));
    assert!(compile_and_match(nested.repeat(60), &"b".repeat(60)));
    // Every level is a group, an alternation and a concatenation.
    let thick = format!("{}x/**/y{}", "{b,x".repeat(81), "y}".repeat(81));
    assert!(compile_and_match(thick.clone(), &format!("{}b{}", "x".repeat(80), "y".repeat(80))));
    assert!(!compile_and_match(thick.repeat(60), "no such path\n"));
    let classes = format!("{}x[!a-cxyz]y{}", "{b,x".repeat(81), "y}".repeat(81));
    assert!(!compile_and_match(classes, "no such path\n"));
}

#[test]
fn the_longest_globs_in_bounds_compile() {
    assert!(!compile_and_match("a".repeat(32768), "no such path\n"));
    assert!(compile_and_match("*".repeat(32768), "some path\n"));
    assert!(!compile_and_match("?".repeat(32768), "no such path\n"));
}

#[test]
fn the_heaviest_globs_in_bounds_compile() {
    assert!(!compile_and_match("[a-z]".repeat(6553), "no such path\n"));
    assert!(!compile_and_match("[!a-z]".repeat(5461), "no such path\n"));
    assert!(!compile_and_match("\u{10ffff}".repeat(32768), "no such path\n"));
}

#[test]
fn the_heaviest_alternations_in_bounds_compile() {
    let long = "\u{10ffff}".repeat(16381);
    assert!(!compile_and_match(format!("{{{long}a,b{long}}}"), "no such path\n"));
    let many: Vec<String> = (0u32..10922)
        .map(|n| char::from_u32(0x1_0000 + n * 90).unwrap().to_string() + "a")
        .collect();
    assert!(!compile_and_match(format!("{{{}}}", many.join(",")), "no such path\n"));
}

#[test]
fn the_most_recursive_globs_in_bounds_compile() {
    assert!(!compile_and_match("a/**/".repeat(6553), "no such path\n"));
    assert!(!compile_and_match("/**".repeat(10922), "no such path\n"));
    assert!(!compile_and_match(format!("{{{}a}}b", "**/,".repeat(8190)), "no such path\n"));
}

#[test]
fn overrides_follow_the_matched_rules() {
    let cfg = parse(
        "[[rule]]\nmatch_comm = [\"game\"]\nmin_ccd_residency_ms = 5000\n\
         [[rule]]\nmatch_comm = [\"bench\"]\npin_ccd = 1",
    )
    .unwrap();
    let mut o = Overrides::new();
    o.note(7, cfg.match_task("game", ""));
    o.note(8, cfg.match_task("bench", ""));
    o.note(9, cfg.match_task("other", ""));
    assert_eq!(o.residency_ms.len(), 1);
    assert_eq!(o.residency_ms[&7], 5000);
    assert_eq!(o.pins.len(), 1);
    assert_eq!(o.pins[&8], 1);
}

#[test]
fn readme_options_are_all_read() {
    let cfg = parse(
        "[options]\nslice_us = 5000\ninterval_ms = 200\nsteal_min = 2\nsteal_delay_us = 500\n\
         preempt_min_us = 20\nimbalance_pct = 20\nresidency_ms = 2000\n\
         merge_wakes_per_sec = 300.0\nrt_priority = 10",
    )
    .unwrap();
    let o = cfg.options;
    assert_eq!(o.slice_us, Some(5000));
    assert_eq!(o.merge_wakes_per_sec, Some(rate_rank(300.0f64.to_bits())));
    assert_eq!(o.rt_priority, Some(10));
    assert_eq!(o.drop_privs, None);
}

#[test]
fn nothing_configured() {
    let f = ConfigFile::default();
    assert!(f.rules.is_empty());
    assert_eq!(f.options, OptionsTable::default());
    let cfg = Config::default();
    assert!(cfg.match_task("x", "y").is_none());
    assert_eq!(cfg.options.slice_us, None);
}
