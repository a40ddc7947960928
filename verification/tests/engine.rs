use kitcat::catalog::{apply_filters, process_capture, process_dataset, Kit};
use kitcat::dict::Dict;
use kitcat::ruleset::{
    get_group_order, apply_output_rule, apply_input_groups, setup_custom_ruleset,
    setup_default_ruleset, map_capture, with_brackets, RuleError, Ruleset,
};
use kitcat::runtimeconfig::{setup_default_config, RuntimeConfig};

fn default_groups_dict() -> Dict {
    let mut groups = Dict::new();
    groups.insert("group", "([a-zA-Z0-9 ]*)".to_string());
    groups.insert("sample", "([a-zA-Z0-9]*)".to_string());
    groups.insert("kit", "([a-zA-Z0-9]*)".to_string());
    groups.insert("variation", "([a-zA-Z0-9 ]*)".to_string());
    groups.insert("extension", "([wav|WAV|mp3|MP3]*)".to_string());
    groups
}

const DEFAULT_TEMPLATE: &str = "{group}/{sample} ?{kit}{variation}?\\.{extension}";

fn pos_of(order: &kitcat::ruleset::GroupOrder, name: &str) -> usize {
    for e in order.entries.iter() {
        if e.key == name {
            return e.pos;
        }
    }
    panic!("group {:?} not in order mapping", name);
}

fn test_config() -> RuntimeConfig {
    let mut rcon = setup_default_config();
    rcon.input_path = "/samples/".to_string();
    rcon.output_path = "*_remapped".to_string();
    rcon
}

fn field(s: &kitcat::catalog::Sample, name: &str) -> String {
    s.fields.get(name).expect("field missing").clone()
}

fn kit_by_name<'a>(kits: &'a [Kit], name: &str) -> &'a Kit {
    kits.iter().find(|k| k.name == name).expect("kit missing")
}

fn err_of<T>(r: Result<T, RuleError>) -> RuleError {
    match r {
        Err(e) => e,
        Ok(_) => panic!("expected an error"),
    }
}

fn errs_of<T>(r: Result<T, Vec<RuleError>>) -> Vec<RuleError> {
    match r {
        Err(e) => e,
        Ok(_) => panic!("expected errors"),
    }
}

#[test]
fn order_is_bijection_on_default_template() {
    let groups = default_groups_dict();
    let order = get_group_order(DEFAULT_TEMPLATE, &groups).expect("order must exist");
    let k = order.entries.len();
    assert_eq!(k, 5);
    // onto {1..k}: every position taken exactly once
    let mut seen = vec![false; k + 1];
    for e in order.entries.iter() {
        assert!(1 <= e.pos && e.pos <= k);
        assert!(!seen[e.pos]);
        seen[e.pos] = true;
    }
    // left-to-right assignment over the raw template
    assert_eq!(pos_of(&order, "group"), 1);
    assert_eq!(pos_of(&order, "sample"), 2);
    assert_eq!(pos_of(&order, "kit"), 3);
    assert_eq!(pos_of(&order, "variation"), 4);
    assert_eq!(pos_of(&order, "extension"), 5);
}

#[test]
fn order_is_deterministic() {
    let groups = default_groups_dict();
    let o1 = get_group_order(DEFAULT_TEMPLATE, &groups).unwrap();
    let o2 = get_group_order(DEFAULT_TEMPLATE, &groups).unwrap();
    assert_eq!(o1.entries.len(), o2.entries.len());
    for (a, b) in o1.entries.iter().zip(o2.entries.iter()) {
        assert_eq!(a.key, b.key);
        assert_eq!(a.pos, b.pos);
    }
}

#[test]
fn order_skips_absent_groups_and_rejects_empty() {
    let groups = default_groups_dict();
    let order = get_group_order("{kit} only", &groups).unwrap();
    assert_eq!(order.entries.len(), 1);
    assert_eq!(pos_of(&order, "kit"), 1);
    assert_eq!(
        err_of(get_group_order("no placeholders here", &groups)),
        RuleError::TemplateWithoutGroups
    );
}

#[test]
fn with_brackets_wraps_name() {
    assert_eq!(with_brackets("kit"), "{kit}");
    assert_eq!(with_brackets(""), "{}");
}

#[test]
fn input_expansion_substitutes_fragments() {
    let groups = default_groups_dict();
    let mut input = DEFAULT_TEMPLATE.to_string();
    apply_input_groups(&mut input, &groups);
    assert_eq!(
        input,
        "([a-zA-Z0-9 ]*)/([a-zA-Z0-9]*) ?([a-zA-Z0-9]*)([a-zA-Z0-9 ]*)?\\.([wav|WAV|mp3|MP3]*)"
    );
}

#[test]
fn extraction_recovers_path_parts() {
    let rs = setup_default_ruleset();
    let fields = map_capture(&rs.input, "Drums/kick A1.wav", &rs.input_order).unwrap();
    assert_eq!(fields.get("group").unwrap(), "Drums");
    assert_eq!(fields.get("sample").unwrap(), "kick");
    assert_eq!(fields.get("kit").unwrap(), "A1");
    assert_eq!(fields.get("variation").unwrap(), "");
    assert_eq!(fields.get("extension").unwrap(), "wav");
}

#[test]
fn render_collapses_separator_next_to_empty_field() {
    let mut out = "{kit}/{sample} {variation}.{extension}".to_string();
    let mut fields = Dict::new();
    fields.insert("kit", "Kick".to_string());
    fields.insert("sample", "808".to_string());
    fields.insert("variation", "".to_string());
    fields.insert("extension", "wav".to_string());
    apply_output_rule(&mut out, &fields);
    assert_eq!(out, "Kick/808.wav");
}

#[test]
fn render_with_all_fields_non_empty_keeps_them() {
    let mut out = "{kit}/{sample} {variation}.{extension}".to_string();
    let mut fields = Dict::new();
    fields.insert("kit", "Kick".to_string());
    fields.insert("sample", "808".to_string());
    fields.insert("variation", "long".to_string());
    fields.insert("extension", "wav".to_string());
    apply_output_rule(&mut out, &fields);
    assert_eq!(out, "Kick/808 long.wav");
}

#[test]
fn render_trims_substituted_values() {
    let mut out = "{a}|{b}".to_string();
    let mut fields = Dict::new();
    fields.insert("a", "  x  ".to_string());
    fields.insert("b", "y".to_string());
    apply_output_rule(&mut out, &fields);
    assert_eq!(out, "x|y");
}

#[test]
fn normalization_collapses_spaced_separators() {
    let mut out = "a | b / c . d".to_string();
    let fields = Dict::new();
    apply_output_rule(&mut out, &fields);
    assert_eq!(out, "a|b/c.d");
}

#[test]
fn rearrange_fires_only_when_recheck_matches() {
    let rcon = test_config();
    // the default recheck matches 1-2 alphanumerics: "A1" fires, "Kick" does not
    let mut rs = setup_default_ruleset();
    rs.rearranges = Dict::new();
    rs.rearranges.insert("kit", "ZZ".to_string());
    let s = process_capture("Drums/kick A1.wav", &rcon, &rs).unwrap();
    assert_eq!(field(&s, "kit"), "ZZ"); // "A1" matched the recheck

    let mut rs2 = setup_default_ruleset();
    rs2.rearranges = Dict::new();
    rs2.rearranges.insert("sample", "ZZ".to_string());
    let s2 = process_capture("Drums/kick A1.wav", &rcon, &rs2).unwrap();
    assert_eq!(field(&s2, "sample"), "kick"); // "kick" did not match
}

#[test]
fn rearrange_rendered_value_is_trimmed_and_normalized() {
    let rcon = test_config();
    let mut rs = setup_default_ruleset();
    rs.rearranges = Dict::new();
    rs.rearranges.insert("kit", "{sample} {variation}".to_string());
    let s = process_capture("Drums/kick A1.wav", &rcon, &rs).unwrap();
    // variation is empty; the blank it leaves behind is trimmed while rendering
    assert_eq!(field(&s, "kit"), "kick");
    assert_eq!(field(&s, "sample"), "kick");
}

#[test]
fn same_index_lands_in_same_kit_in_order() {
    let rcon = test_config();
    let rs = setup_default_ruleset();
    let dataset = vec![
        "Drums/kick A1.wav".to_string(),
        "Drums/snare A1.wav".to_string(),
        "Drums/hat B2.wav".to_string(),
    ];
    let kits = process_dataset(dataset, &rcon, &rs).unwrap();
    assert_eq!(kits.len(), 2);
    let a1 = kit_by_name(&kits, "A1");
    assert_eq!(a1.samples.len(), 2);
    assert_eq!(field(&a1.samples[0], "sample"), "kick");
    assert_eq!(field(&a1.samples[1], "sample"), "snare");
    let b2 = kit_by_name(&kits, "B2");
    assert_eq!(b2.samples.len(), 1);
    assert_eq!(field(&b2.samples[0], "sample"), "hat");
}

#[test]
fn end_to_end_scenario_builds_kit_a1() {
    let rcon = test_config();
    let mut rs = setup_default_ruleset();
    rs.rearranges = Dict::new();
    rs.rearranges.insert("sample", "kit Full".to_string());
    // a recheck that the extracted sample value "kick" matches
    rs.recheck = "^([a-z]{1,4})$".to_string();
    let kits = process_dataset(vec!["Drums/kick A1.wav".to_string()], &rcon, &rs).unwrap();
    assert_eq!(kits.len(), 1);
    let a1 = kit_by_name(&kits, "A1");
    assert_eq!(a1.samples.len(), 1);
    let s = &a1.samples[0];
    assert_eq!(field(s, "group"), "Drums");
    assert_eq!(field(s, "sample"), "kit Full");
    assert_eq!(field(s, "kit"), "A1");
    assert_eq!(field(s, "variation"), "");
    assert_eq!(field(s, "extension"), "wav");
    assert_eq!(s.source_path, "/samples/Drums/kick A1.wav");
}

#[test]
fn unmatched_path_is_skipped_without_error() {
    let rcon = test_config();
    let rs = setup_default_ruleset();
    let with_noise = process_dataset(
        vec![
            "Drums/kick A1.wav".to_string(),
            "no separator here".to_string(),
        ],
        &rcon,
        &rs,
    )
    .unwrap();
    let clean = process_dataset(vec!["Drums/kick A1.wav".to_string()], &rcon, &rs).unwrap();
    assert_eq!(with_noise.len(), clean.len());
    assert_eq!(with_noise.len(), 1);
    for kit in with_noise.iter() {
        for s in kit.samples.iter() {
            assert!(!s.source_path.contains("no separator here"));
        }
    }
}

#[test]
fn custom_ruleset_without_rearrange_equals_empty_rearrange() {
    let mut general = Dict::new();
    general.insert("input", "{kit}/{sample}\\.{extension}".to_string());
    general.insert("output", "{kit}/{sample}.{extension}".to_string());
    general.insert("index", "kit".to_string());
    general.insert("recheck", "^([0-9a-zA-Z]{1,2})$".to_string());
    let mut groups = Dict::new();
    groups.insert("kit", "([a-zA-Z0-9]*)".to_string());
    groups.insert("sample", "([a-zA-Z0-9]*)".to_string());
    groups.insert("extension", "([a-z]*)".to_string());

    let rs_none = setup_custom_ruleset(&general, Some(&groups), None).unwrap();
    let empty = Dict::new();
    let rs_empty = setup_custom_ruleset(&general, Some(&groups), Some(&empty)).unwrap();
    assert_eq!(rs_none.input, rs_empty.input);
    assert_eq!(rs_none.output, rs_empty.output);
    assert_eq!(rs_none.recheck, rs_empty.recheck);
    assert_eq!(rs_none.index, rs_empty.index);
    assert_eq!(rs_none.rearranges.entries.len(), 0);
    assert_eq!(rs_empty.rearranges.entries.len(), 0);

    // and no rewrite ever fires
    let rcon = test_config();
    let kits = process_dataset(vec!["A1/kick.wav".to_string()], &rcon, &rs_none).unwrap();
    let s = &kit_by_name(&kits, "A1").samples[0];
    assert_eq!(field(s, "sample"), "kick");
    assert_eq!(field(s, "kit"), "A1");
}

#[test]
fn custom_ruleset_reports_every_missing_key_at_once() {
    let general = Dict::new();
    assert_eq!(
        errs_of(setup_custom_ruleset(&general, None, None)),
        vec![
            RuleError::MissingGroupsSection,
            RuleError::MissingInput,
            RuleError::MissingOutput,
            RuleError::MissingIndex,
        ]
    );
}

#[test]
fn custom_ruleset_reports_missing_keys() {
    let mut groups = Dict::new();
    groups.insert("kit", "([a-zA-Z0-9]*)".to_string());

    let mut general = Dict::new();
    general.insert("input", "{kit}".to_string());
    assert_eq!(
        errs_of(setup_custom_ruleset(&general, Some(&groups), None)),
        vec![RuleError::MissingOutput, RuleError::MissingIndex]
    );
    general.insert("output", "{kit}".to_string());
    general.insert("index", "bogus".to_string());
    assert_eq!(
        errs_of(setup_custom_ruleset(&general, Some(&groups), None)),
        vec![RuleError::UnknownIndexGroup("bogus".to_string())]
    );
    general.insert("index", "kit".to_string());
    general.insert("input", "nothing declared".to_string());
    assert_eq!(
        errs_of(setup_custom_ruleset(&general, Some(&groups), None)),
        vec![RuleError::TemplateWithoutGroups]
    );
}

#[test]
fn rearrange_of_undeclared_group_is_rejected_at_build() {
    let mut general = Dict::new();
    general.insert("input", "{kit}".to_string());
    general.insert("output", "{kit}".to_string());
    general.insert("index", "kit".to_string());
    let mut groups = Dict::new();
    groups.insert("kit", "([a-zA-Z0-9]*)".to_string());
    let mut rearranges = Dict::new();
    rearranges.insert("bogus", "{kit}".to_string());
    assert_eq!(
        errs_of(setup_custom_ruleset(&general, Some(&groups), Some(&rearranges))),
        vec![RuleError::UnknownRearrangeGroup("bogus".to_string())]
    );
}

#[test]
fn bad_patterns_are_fatal_configuration_errors() {
    let rcon = test_config();
    let mut rs = setup_default_ruleset();
    rs.input = "(".to_string();
    assert_eq!(
        err_of(process_dataset(vec!["x".to_string()], &rcon, &rs)),
        RuleError::BadInputPattern
    );
    let mut rs2 = setup_default_ruleset();
    rs2.recheck = "(".to_string();
    assert_eq!(
        err_of(process_dataset(vec!["x".to_string()], &rcon, &rs2)),
        RuleError::BadRecheckPattern
    );
}

#[test]
fn rearrange_on_unextracted_group_is_fatal() {
    let rcon = test_config();
    let mut rs = setup_default_ruleset();
    rs.rearranges = Dict::new();
    rs.rearranges.insert("bogus", "x".to_string());
    assert_eq!(
        err_of(process_dataset(vec!["Drums/kick A1.wav".to_string()], &rcon, &rs)),
        RuleError::RearrangeGroupMissing("bogus".to_string())
    );
}

#[test]
fn index_group_outside_template_is_fatal_on_match() {
    let mut general = Dict::new();
    general.insert("input", "{a}".to_string());
    general.insert("output", "{a}".to_string());
    general.insert("index", "b".to_string());
    let mut groups = Dict::new();
    groups.insert("a", "(x)".to_string());
    groups.insert("b", "(y)".to_string());
    let rs = setup_custom_ruleset(&general, Some(&groups), None).unwrap();
    let rcon = test_config();
    assert_eq!(
        err_of(process_dataset(vec!["x".to_string()], &rcon, &rs)),
        RuleError::IndexFieldMissing("b".to_string())
    );
}

#[test]
fn non_participating_capture_is_unavailable() {
    let mut general = Dict::new();
    general.insert("input", "{a}|{b}".to_string());
    general.insert("output", "{a}".to_string());
    general.insert("index", "a".to_string());
    let mut groups = Dict::new();
    groups.insert("a", "(aa)".to_string());
    groups.insert("b", "(bb)".to_string());
    let rs = setup_custom_ruleset(&general, Some(&groups), None).unwrap();
    let rcon = test_config();
    // "bb" matches only the second alternative, so group `a` has no capture
    assert_eq!(
        err_of(process_dataset(vec!["bb".to_string()], &rcon, &rs)),
        RuleError::CaptureUnavailable("a".to_string())
    );
}

#[test]
fn filters_truncate_small_kits_and_restrict_names() {
    let rcon = test_config();
    let rs = setup_default_ruleset();
    let dataset = vec![
        "Drums/kick A1.wav".to_string(),
        "Drums/snare A1.wav".to_string(),
        "Drums/hat B2.wav".to_string(),
        "Drums/ride C3.wav".to_string(),
    ];
    let mut kits = process_dataset(dataset.clone(), &rcon, &rs).unwrap();
    let mut rcon_t = test_config();
    rcon_t.trunc = 2;
    apply_filters(&mut kits, &rcon_t);
    assert_eq!(kits.len(), 1);
    assert_eq!(kits[0].name, "A1");

    let mut kits2 = process_dataset(dataset, &rcon, &rs).unwrap();
    let mut rcon_k = test_config();
    rcon_k.kits = vec!["B2".to_string(), "C3".to_string()];
    apply_filters(&mut kits2, &rcon_k);
    assert_eq!(kits2.len(), 2);
    assert!(kits2.iter().all(|k| k.name == "B2" || k.name == "C3"));
}

#[test]
fn target_path_uses_output_template() {
    let rcon = test_config();
    let rs = setup_default_ruleset();
    let s = process_capture("Drums/kick A1.wav", &rcon, &rs).unwrap();
    assert_eq!(s.source_path, "/samples/Drums/kick A1.wav");
    // "*" stands for the input root; the empty variation collapses " ." to "."
    assert_eq!(s.target_path, "/samples_remapped/A1/kick.wav");
}

#[test]
fn default_ruleset_is_complete() {
    let rs: Ruleset = setup_default_ruleset();
    assert_eq!(
        rs.input,
        "([a-zA-Z0-9 ]*)/([a-zA-Z0-9]*) ?([a-zA-Z0-9]*)([a-zA-Z0-9 ]*)?\\.([wav|WAV|mp3|MP3]*)"
    );
    assert_eq!(rs.output, "{kit}/{sample} {variation}.{extension}");
    assert_eq!(rs.index, "kit");
    assert_eq!(rs.recheck, "^([0-9a-zA-Z]{1,2})$");
    assert_eq!(rs.groups.entries.len(), 5);
    assert_eq!(rs.rearranges.entries.len(), 1);
    assert_eq!(rs.rearranges.get("sample").unwrap(), "kit");
    assert_eq!(rs.input_order.entries.len(), 5);
}

#[test]
fn default_rearrange_leaves_long_sample_names_alone() {
    // the built-in rule would rewrite `sample`, but only for 1-2 character
    // values; "kick" is longer, so nothing fires
    let rcon = test_config();
    let rs = setup_default_ruleset();
    let s = process_capture("Drums/kick A1.wav", &rcon, &rs).unwrap();
    assert_eq!(field(&s, "sample"), "kick");
}

#[test]
fn repeated_placeholder_is_rejected() {
    let mut general = Dict::new();
    general.insert("input", "{kit} {kit}\\.{extension}".to_string());
    general.insert("output", "{kit}".to_string());
    general.insert("index", "kit".to_string());
    let mut groups = Dict::new();
    groups.insert("kit", "([a-zA-Z0-9]*)".to_string());
    groups.insert("extension", "([a-z]*)".to_string());
    assert_eq!(
        errs_of(setup_custom_ruleset(&general, Some(&groups), None)),
        vec![RuleError::DuplicatePlaceholder("kit".to_string())]
    );
}

#[test]
fn rearranges_render_against_extracted_fields() {
    // the second rule's template references the first rule's group: the
    // substituted value comes from the extracted mapping, not from the first
    // rule's rewrite
    let mut general = Dict::new();
    general.insert("input", "{a}-{b}".to_string());
    general.insert("output", "{a}".to_string());
    general.insert("index", "a".to_string());
    general.insert("recheck", "^[0-9]$".to_string());
    let mut groups = Dict::new();
    groups.insert("a", "([0-9]*)".to_string());
    groups.insert("b", "([0-9]*)".to_string());
    let mut rearranges = Dict::new();
    rearranges.insert("b", "x".to_string());
    rearranges.insert("a", "{b}".to_string());
    let rs = setup_custom_ruleset(&general, Some(&groups), Some(&rearranges)).unwrap();
    let rcon = test_config();
    let s = process_capture("1-2", &rcon, &rs).unwrap();
    assert_eq!(field(&s, "b"), "x");
    assert_eq!(field(&s, "a"), "2");
}
