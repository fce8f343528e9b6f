// What a directive decides, what a parse records, and the settings it
// runs under.

use tabnas_multisource::directive::{join_texts, reraised_code};
use tabnas_multisource::report::decimal_text;
use tabnas_multisource::settings::{check_host_rules, dotted_all, starts_segment};
use tabnas_multisource::{
    directive_outcome, resolve_path_spec, Dependency, DependencyMap, Directive, LastReport,
    MultiSourceError, PluginSettings, ProcessorEntry, ProcessorTable, Resolution, DEFAULT_MAX_DEPTH,
    TOP,
};

fn texts(items: &[&str]) -> Vec<String> {
    items.iter().map(|item| item.to_string()).collect()
}

fn hit(full: &str) -> Resolution {
    Resolution::found(resolve_path_spec(Some(full), ""), full.to_string(), "src".to_string())
}

// ---------------------------------------------------------------------
// The directive
// ---------------------------------------------------------------------

#[test]
fn a_missing_source_reports_every_path_tried_one_per_line() {
    let miss = Resolution::not_found(resolve_path_spec(Some("zed"), "base"))
        .with_search(texts(&["base/zed", "base/zed.jsonic", "base/zed/index.jsonic"]));
    assert_eq!(
        directive_outcome(&miss, Some("zed"), &Vec::new(), None, 64),
        Directive::NotFound {
            path: "zed".to_string(),
            full: "base/zed".to_string(),
            searchstr: "base/zed\nbase/zed.jsonic\nbase/zed/index.jsonic".to_string(),
        }
    );
}

#[test]
fn a_missing_source_with_no_search_reports_its_full_path() {
    let miss = Resolution::not_found(resolve_path_spec(Some("a.jsonic"), ""));
    assert_eq!(
        directive_outcome(&miss, Some("a.jsonic"), &Vec::new(), None, 64),
        Directive::NotFound {
            path: "a.jsonic".to_string(),
            full: "a.jsonic".to_string(),
            searchstr: "a.jsonic".to_string(),
        }
    );

    // A resolver that rewrote nothing at all leaves the reference as
    // written to name it.
    let blank = Resolution::not_found(resolve_path_spec(None, ""));
    assert_eq!(
        directive_outcome(&blank, Some("raw"), &Vec::new(), None, 64),
        Directive::NotFound {
            path: "raw".to_string(),
            full: String::new(),
            searchstr: String::new(),
        }
    );
}

#[test]
fn a_top_level_load_depends_on_top() {
    let outcome = directive_outcome(&hit("a.jsonic"), Some("a.jsonic"), &Vec::new(), None, 64);
    assert_eq!(
        outcome,
        Directive::Load {
            fullpath: "a.jsonic".to_string(),
            kind: "jsonic".to_string(),
            parents: Vec::new(),
            target: TOP.to_string(),
        }
    );
    assert_eq!(TOP, "\u{0}TOP");
}

#[test]
fn a_nested_load_depends_on_the_source_that_holds_it() {
    let outcome = directive_outcome(
        &hit("c.jsonic"),
        Some("c.jsonic"),
        &texts(&["a.jsonic"]),
        Some("b.jsonic"),
        64,
    );
    assert_eq!(
        outcome,
        Directive::Load {
            fullpath: "c.jsonic".to_string(),
            kind: "jsonic".to_string(),
            parents: texts(&["a.jsonic", "b.jsonic"]),
            target: "b.jsonic".to_string(),
        }
    );
}

#[test]
fn a_cycle_reports_the_loop_from_its_first_appearance() {
    let outcome = directive_outcome(
        &hit("b.jsonic"),
        Some("b.jsonic"),
        &texts(&["top.jsonic", "b.jsonic"]),
        Some("c.jsonic"),
        64,
    );
    assert_eq!(
        outcome,
        Directive::Cycle {
            path: "b.jsonic".to_string(),
            cycle: "b.jsonic -> c.jsonic -> b.jsonic".to_string(),
        }
    );

    let itself = directive_outcome(&hit("a.jsonic"), None, &Vec::new(), Some("a.jsonic"), 64);
    assert_eq!(
        itself,
        Directive::Cycle {
            path: "a.jsonic".to_string(),
            cycle: "a.jsonic -> a.jsonic".to_string(),
        }
    );
}

#[test]
fn reuse_from_two_branches_is_not_a_cycle() {
    let left = directive_outcome(
        &hit("shared.jsonic"),
        None,
        &texts(&["top.jsonic"]),
        Some("left.jsonic"),
        64,
    );
    let right = directive_outcome(
        &hit("shared.jsonic"),
        None,
        &texts(&["top.jsonic"]),
        Some("right.jsonic"),
        64,
    );
    assert!(matches!(left, Directive::Load { ref target, .. } if target == "left.jsonic"));
    assert!(matches!(right, Directive::Load { ref target, .. } if target == "right.jsonic"));
}

#[test]
fn a_chain_at_the_cap_is_too_deep() {
    let chain = texts(&["a.jsonic", "b.jsonic", "c.jsonic"]);
    assert_eq!(
        directive_outcome(&hit("e.jsonic"), None, &chain, Some("d.jsonic"), 4),
        Directive::TooDeep { path: "e.jsonic".to_string(), max: 4 }
    );
    assert!(matches!(
        directive_outcome(&hit("e.jsonic"), None, &chain, Some("d.jsonic"), 5),
        Directive::Load { .. }
    ));
    // A cycle is reported as a cycle even where the chain is also too
    // deep.
    assert!(matches!(
        directive_outcome(&hit("a.jsonic"), None, &chain, Some("d.jsonic"), 1),
        Directive::Cycle { .. }
    ));
}

#[test]
fn an_empty_code_is_reraised_as_unexpected() {
    assert_eq!(reraised_code(""), "unexpected");
    assert_eq!(reraised_code("multisource_cycle"), "multisource_cycle");
}

#[test]
fn texts_join_with_their_separator() {
    assert_eq!(join_texts(&texts(&["a", "b", "c"]), " -> "), "a -> b -> c");
    assert_eq!(join_texts(&texts(&["a"]), "\n"), "a");
    assert_eq!(join_texts(&Vec::new(), "\n"), "");
}

// ---------------------------------------------------------------------
// Dependencies
// ---------------------------------------------------------------------

#[test]
fn the_dependency_tree_records_every_edge_directly() {
    let mut deps = DependencyMap::new();
    deps.record(TOP, "a.jsc", 10);
    deps.record("a.jsc", "b.jsc", 11);
    deps.record("b.jsc", "c/index.jsc", 12);

    assert_eq!(deps.targets(), vec![TOP, "a.jsc", "b.jsc"]);
    assert_eq!(deps.sources(TOP), vec!["a.jsc"]);
    assert_eq!(deps.sources("b.jsc"), vec!["c/index.jsc"]);
    assert!(deps.sources("c/index.jsc").is_empty());
    assert_eq!(
        deps.get("a.jsc", "b.jsc"),
        Some(&Dependency {
            tar: "a.jsc".to_string(),
            src: "b.jsc".to_string(),
            wen: 11
        })
    );
    assert_eq!(deps.get("a.jsc", "c/index.jsc"), None);
}

#[test]
fn one_source_from_two_targets_is_recorded_under_both_directly() {
    let mut deps = DependencyMap::new();
    deps.record("left.jsonic", "shared.jsonic", 1);
    deps.record("right.jsonic", "shared.jsonic", 2);
    deps.record("left.jsonic", "shared.jsonic", 3);
    assert_eq!(deps.get("left.jsonic", "shared.jsonic").map(|d| d.wen), Some(3));
    assert_eq!(deps.get("right.jsonic", "shared.jsonic").map(|d| d.wen), Some(2));
    assert_eq!(deps.sources("left.jsonic"), vec!["shared.jsonic"]);
}

// ---------------------------------------------------------------------
// Nested reports
// ---------------------------------------------------------------------

#[test]
fn tickets_count_up_in_decimal() {
    let mut reports: LastReport<Vec<String>> = LastReport::new();
    assert_eq!(reports.ticket(), "0");
    assert_eq!(reports.ticket(), "1");
    for _ in 0..8 {
        reports.ticket();
    }
    assert_eq!(reports.ticket(), "10");
    assert_eq!(decimal_text(0), "0");
    assert_eq!(decimal_text(1234567890), "1234567890");
    assert_eq!(decimal_text(u64::MAX), "18446744073709551615");
}

#[test]
fn a_report_is_taken_once_and_only_with_its_code() {
    let mut reports: LastReport<Vec<String>> = LastReport::new();
    let first = reports.ticket();
    let second = reports.ticket();
    reports.record(&first, "multisource_cycle", texts(&["a -> b -> a"]));
    reports.record(&second, "multisource_not_found", texts(&["zed"]));

    assert_eq!(reports.take(&first, "multisource_cycle"), Some(texts(&["a -> b -> a"])));
    assert_eq!(reports.take(&first, "multisource_cycle"), None);

    // A code that does not match frees the slot without handing it out.
    assert_eq!(reports.take(&second, "multisource_cycle"), None);
    assert_eq!(reports.take(&second, "multisource_not_found"), None);
}

#[test]
fn a_discarded_ticket_has_no_report() {
    let mut reports: LastReport<u32> = LastReport::new();
    let ticket = reports.ticket();
    reports.record(&ticket, "code", 7);
    reports.discard(&ticket);
    assert_eq!(reports.take(&ticket, "code"), None);
}

// ---------------------------------------------------------------------
// Processors
// ---------------------------------------------------------------------

fn default_like() -> ProcessorTable<&'static str> {
    let mut table = ProcessorTable::new();
    table.insert(String::new(), ProcessorEntry::Call("raw"));
    table.insert("jsonic".to_string(), ProcessorEntry::Call("jsonic"));
    table.insert("jsc".to_string(), ProcessorEntry::Alias("jsonic".to_string()));
    table.insert("json".to_string(), ProcessorEntry::Call("json"));
    table
}

#[test]
fn a_kind_finds_its_processor_through_one_alias() {
    let table = default_like();
    assert_eq!(table.processor_for("jsonic"), Some(&"jsonic"));
    assert_eq!(table.processor_for("jsc"), Some(&"jsonic"));
    assert_eq!(table.processor_for("json"), Some(&"json"));
    assert_eq!(table.processor_for("txt"), Some(&"raw"));
    assert_eq!(table.processor_for(""), Some(&"raw"));
}

#[test]
fn an_alias_to_an_alias_falls_back_to_the_empty_kind() {
    let mut table = default_like();
    table.insert("aon".to_string(), ProcessorEntry::Alias("jsc".to_string()));
    table.insert("gone".to_string(), ProcessorEntry::Alias("nowhere".to_string()));
    assert_eq!(table.processor_for("aon"), Some(&"raw"));
    assert_eq!(table.processor_for("gone"), Some(&"raw"));

    let mut bare: ProcessorTable<&'static str> = ProcessorTable::new();
    bare.insert("jsc".to_string(), ProcessorEntry::Alias("jsonic".to_string()));
    assert_eq!(bare.processor_for("jsc"), None);
    assert_eq!(bare.processor_for("txt"), None);
}

#[test]
fn replacing_a_kind_keeps_its_place() {
    let mut table = default_like();
    table.insert("jsc".to_string(), ProcessorEntry::Call("own"));
    table.insert("csv".to_string(), ProcessorEntry::Call("csv"));
    assert_eq!(table.kinds_in_order(), vec!["", "jsonic", "jsc", "json", "csv"]);
    assert_eq!(table.processor_for("jsc"), Some(&"own"));
    assert!(matches!(table.get("jsc"), Some(ProcessorEntry::Call("own"))));
    assert!(table.get("yaml").is_none());
}

// ---------------------------------------------------------------------
// Settings
// ---------------------------------------------------------------------

#[test]
fn settings_are_normalized_before_a_parse() {
    let settings = PluginSettings {
        path: "base".to_string(),
        markchar: String::new(),
        implicit_ext: texts(&["jsonic", ".json"]),
        max_depth: 0,
    }
    .normalized();
    assert_eq!(settings.path, "base");
    assert_eq!(settings.markchar, "@");
    assert_eq!(settings.implicit_ext, texts(&[".jsonic", ".json"]));
    assert_eq!(settings.max_depth, DEFAULT_MAX_DEPTH);

    let kept = PluginSettings {
        path: String::new(),
        markchar: "%".to_string(),
        implicit_ext: Vec::new(),
        max_depth: 3,
    }
    .normalized();
    assert_eq!(kept.markchar, "%");
    assert!(kept.implicit_ext.is_empty());
    assert_eq!(kept.max_depth, 3);
}

#[test]
fn the_default_settings() {
    let settings = PluginSettings::new();
    assert_eq!(settings.path, "");
    assert_eq!(settings.markchar, "@");
    assert_eq!(settings.implicit_ext, texts(&[".jsonic", ".jsc", ".json"]));
    assert_eq!(settings.max_depth, 64);
    assert_eq!(dotted_all(&texts(&["a", ".b", ""])), texts(&[".a", ".b", "."]));
}

#[test]
fn it_refuses_a_host_grammar_without_the_rules_it_modifies() {
    assert_eq!(check_host_rules(&texts(&["val", "map", "pair", "list"])), Ok(()));
    assert_eq!(
        check_host_rules(&texts(&["val", "map"])),
        Err(MultiSourceError(
            "MultiSource needs a host grammar supplying the \"pair\" rule: \
             install tabnas_jsonic first, or use make_with"
                .to_string()
        ))
    );
    let refused = check_host_rules(&Vec::new()).unwrap_err();
    assert!(refused.message().contains("\"val\""), "{refused:?}");
}

#[test]
fn every_other_level_starts_a_segment() {
    assert!(!starts_segment(0));
    assert!(starts_segment(1));
    assert!(!starts_segment(2));
    assert!(starts_segment(3));
}

#[test]
fn normalizing_twice_is_normalizing_once() {
    let once = PluginSettings {
        path: "p".to_string(),
        markchar: String::new(),
        implicit_ext: texts(&["a", ".b"]),
        max_depth: 0,
    }
    .normalized();
    let twice = once.clone().normalized();
    assert_eq!(twice.markchar, once.markchar);
    assert_eq!(twice.implicit_ext, once.implicit_ext);
    assert_eq!(twice.max_depth, once.max_depth);
    assert_eq!(twice.path, once.path);
}
