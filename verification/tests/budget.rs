use claude_tools::budget::{
    collect_models, count_enabled_plugins, count_mcp_servers, estimate_base, human, json_report,
    measured, over_budget, report, today, window_for, State, DEFAULT_BASE_OVERHEAD, DEFAULT_HEADROOM,
    DEFAULT_TOKENS_PER_MCP, DEFAULT_TOKENS_PER_PLUGIN,
};
use claude_tools::json::{parse, Json};
use claude_tools::package::NAME;

fn family() -> &'static str {
    NAME.split('_').next().unwrap()
}

fn json(s: &str) -> Json {
    parse(s).unwrap()
}

#[test]
fn long_context_suffix_selects_the_big_window() {
    assert_eq!(window_for("opus[1m]"), 1_000_000);
    assert_eq!(window_for(&format!("{}-opus-5[1m]", family())), 1_000_000);
    assert_eq!(window_for(&format!("{}-opus-5", family())), 200_000);
    assert_eq!(window_for(&format!("{}-haiku-4-5-20251001", family())), 200_000);
}

#[test]
fn long_context_is_read_in_either_case() {
    assert_eq!(window_for("OPUS[1M]"), 1_000_000);
    assert_eq!(window_for("sonnet-1M-x"), 1_000_000);
    assert_eq!(window_for("sonnet1m"), 200_000);
}

#[test]
fn only_enabled_plugins_are_counted() {
    let v = json(r#"{"enabledPlugins": { "a": true, "b": false, "c": true }}"#);
    assert_eq!(count_enabled_plugins(&v), 2);
}

#[test]
fn missing_plugin_block_costs_nothing() {
    assert_eq!(count_enabled_plugins(&json("{}")), 0);
    assert_eq!(count_enabled_plugins(&json(r#"{"enabledPlugins": [true]}"#)), 0);
    assert_eq!(count_enabled_plugins(&json(r#"{"enabledPlugins": {"a": 1, "b": "true"}}"#)), 0);
    assert_eq!(count_enabled_plugins(&Json::Null), 0);
}

#[test]
fn mcp_count_includes_the_heaviest_project() {
    let v = json(
        r#"{
            "mcpServers": { "g1": {} },
            "projects": {
                "/a": { "mcpServers": { "p1": {}, "p2": {} } },
                "/b": { "mcpServers": { "p3": {} } }
            }
        }"#,
    );
    // One global plus the worst project, not the sum of all projects: a
    // single session only ever loads one project's servers.
    assert_eq!(count_mcp_servers(&v), 3);
    assert_eq!(count_mcp_servers(&json("{}")), 0);
}

fn state() -> State {
    State {
        observed_tokens: Some(284_909),
        observed_plugins: Some(203),
        observed_mcp: Some(0),
        observed_at: Some("2026-09-03".into()),
    }
}

#[test]
fn a_measurement_beats_the_estimate() {
    let (tokens, source) = estimate_base(&state(), 203, 0);
    assert_eq!(tokens, 284_909);
    assert_eq!(source, "measured");
}

#[test]
fn turning_plugins_off_lowers_the_measured_figure() {
    let state = state();
    let (before, _) = estimate_base(&state, 203, 0);
    let (after, source) = estimate_base(&state, 20, 0);
    assert!(after < before, "halving the plugin count must lower the figure");
    assert!(source.starts_with("measured"));
    // And it must land somewhere sane rather than collapsing to zero.
    assert!(after > DEFAULT_BASE_OVERHEAD as u64);
    // 10000 + 274909 * 20 / 203 = 37084.63…
    assert_eq!(after, 37_085);
    assert_eq!(source, "measured, rescaled for current plugin count");
}

#[test]
fn estimate_is_used_when_nothing_has_been_measured() {
    let (tokens, source) = estimate_base(&State::default(), 100, 2);
    assert_eq!(source, "estimated");
    assert!(tokens > 100_000);
    assert_eq!(
        tokens,
        DEFAULT_BASE_OVERHEAD + 100 * DEFAULT_TOKENS_PER_PLUGIN + 2 * DEFAULT_TOKENS_PER_MCP
    );
    assert_eq!(tokens, 149_000);
}

#[test]
fn figures_at_their_edges() {
    let mut s = state();
    s.observed_plugins = Some(0);
    assert_eq!(estimate_base(&s, 5, 0), (284_909, "measured"));
    s.observed_plugins = None;
    assert_eq!(estimate_base(&s, 5, 0), (284_909, "measured"));
    s.observed_plugins = Some(2);
    s.observed_tokens = Some(4_000);
    assert_eq!(estimate_base(&s, 5, 0).0, 10_000);
    s.observed_tokens = Some(u64::MAX);
    assert_eq!(estimate_base(&s, usize::MAX, 0).0, u64::MAX);
    assert_eq!(estimate_base(&State::default(), usize::MAX, usize::MAX).0, u64::MAX);
    s.observed_plugins = Some(4);
    s.observed_tokens = Some(10_002);
    assert_eq!(estimate_base(&s, 1, 0).0, 10_001);
}

fn figure(tokens: u64, then: usize, now: usize) -> u64 {
    let s = State {
        observed_tokens: Some(tokens),
        observed_plugins: Some(then),
        observed_mcp: None,
        observed_at: None,
    };
    estimate_base(&s, now, 0).0
}

fn in_floating_point(tokens: u64, then: usize, now: usize) -> u64 {
    let each = (tokens as f64 - 10_000.0).max(0.0) / then as f64;
    let scaled = 10_000.0 + each * now as f64;
    scaled.round() as u64
}

/// A number of at most so many binary digits, and the next state.
fn draw(state: &mut u64, digits: u32) -> u64 {
    *state = state.wrapping_mul(6_364_136_223_846_793_005).wrapping_add(1_442_695_040_888_963_407);
    let x = *state ^ (*state >> 29);
    x >> (64 - digits)
}

#[test]
fn rescaling_agrees_with_floating_point() {
    // Just below the half, as the cost of one plugin is rounded first.
    assert_eq!(figure(194_397, 90, 45), 102_198);
    let some = [
        (284_909u64, 203usize, 20usize),
        (150_000, 7, 3),
        (99_999, 13, 40),
        (12_345, 3, 1),
        (10_001, 2, 1),
        (10_003, 2, 1),
        (0, 5, 9),
        (u64::MAX, 1, 2),
        (u64::MAX, usize::MAX, 1),
        (u64::MAX, usize::MAX, usize::MAX - 1),
        (10_001, usize::MAX, 1),
        (10_001, usize::MAX, usize::MAX - 1),
        (10_001, usize::MAX, usize::MAX / 2),
        (1 << 53, 3, 7),
        ((1 << 53) + 1, 3, 7),
        ((1 << 54) + 3, 1, 2),
        (20_000, 3, 0),
    ];
    for (tokens, then, now) in some {
        assert_eq!(figure(tokens, then, now), in_floating_point(tokens, then, now));
    }
    let mut state = 7;
    for digits in 2..=64u32 {
        for other in [3u32, 8, 17, 40, 64] {
            for _ in 0..20 {
                let tokens = draw(&mut state, digits);
                let then = draw(&mut state, other) as usize;
                let now = draw(&mut state, other) as usize;
                if then > 0 && then != now {
                    assert_eq!(figure(tokens, then, now), in_floating_point(tokens, then, now));
                }
            }
        }
    }
    // Every small case.
    for then in 1..60usize {
        for now in 0..60usize {
            for tokens in [10_001u64, 10_017, 15_555, 84_909, 194_397] {
                if then != now {
                    assert_eq!(figure(tokens, then, now), in_floating_point(tokens, then, now));
                }
            }
        }
    }
}

#[test]
fn estimates_agree_with_floating_point() {
    let mut state = 11;
    for digits in 1..=64u32 {
        for _ in 0..50 {
            let plugins = draw(&mut state, digits) as usize;
            let mcp = draw(&mut state, 65 - digits) as usize;
            let expected = 10_000.0 + 1_350.0 * plugins as f64 + 2_000.0 * mcp as f64;
            assert_eq!(
                estimate_base(&State::default(), plugins, mcp).0,
                expected.round() as u64
            );
        }
    }
}

#[test]
fn a_measurement_stays_what_it_was_between_its_neighbours() {
    for (tokens, then) in [(284_909u64, 203usize), (10_000, 1), (99_999, 13), (1 << 40, 77)] {
        assert!(figure(tokens, then, then - 1) <= figure(tokens, then, then));
        assert!(figure(tokens, then, then) <= figure(tokens, then, then + 1));
        assert_eq!(figure(tokens, then, then), tokens);
        assert_eq!(in_floating_point(tokens, then, then), tokens);
    }
}

#[test]
fn an_unset_subagent_model_is_assumed_short() {
    let settings = json(r#"{ "model": "opus[1m]" }"#);
    let root = json("{}");
    let models = collect_models(&settings, &root);
    let sub = models
        .iter()
        .find(|m| m.role == "subagent default")
        .expect("an unset subagent model must still be reported");
    assert_eq!(sub.window, 200_000);
    assert_eq!(sub.id, "(unset -- assumed short context)");
}

#[test]
fn the_incident_config_is_reported_as_over_budget() {
    // A 1M parent and a short-window child.
    let settings = json(r#"{ "model": "opus[1m]" }"#);
    let root = json(&format!(r#"{{ "teammateDefaultModel": "{}-opus-5" }}"#, family()));
    let models = collect_models(&settings, &root);
    let base = 284_909u64;
    let over = over_budget(&models, base, DEFAULT_HEADROOM);
    assert_eq!(over.len(), 1, "only the short-window role should fail");
    assert_eq!(over[0].role, "subagent default");
}

#[test]
fn models_come_in_their_order() {
    let settings = json(r#"{ "model": "m" }"#);
    let root = json(r#"{ "subagentModel": "s[1m]", "teammateDefaultModel": "t" }"#);
    let roles: Vec<(String, String, u64)> = collect_models(&settings, &root)
        .into_iter()
        .map(|m| (m.role, m.id, m.window))
        .collect();
    assert_eq!(
        roles,
        [
            ("main session".to_string(), "m".to_string(), 200_000),
            ("subagent default".to_string(), "t".to_string(), 200_000),
            ("subagent override".to_string(), "s[1m]".to_string(), 1_000_000),
        ]
    );
}

#[test]
fn a_window_is_just_enough() {
    let models = collect_models(&json(r#"{ "model": "m" }"#), &json(r#"{ "teammateDefaultModel": "t" }"#));
    assert_eq!(over_budget(&models, 160_000, 40_000).len(), 0);
    assert_eq!(over_budget(&models, 160_001, 40_000).len(), 2);
}

#[test]
fn budget_reports() {
    let models = collect_models(&json(r#"{ "model": "opus[1m]" }"#), &json("{}"));
    assert_eq!(
        report(&models, 3, 1, 16_050, "estimated", 40_000, false),
        [
            "context-budget-audit",
            "  enabled plugins : 3",
            "  mcp servers     : 1",
            "  base prompt     : ~16050 tokens (estimated)",
            "  required room   : 40000 tokens",
            "",
            "  [  ok] main session       opus[1m]               window 1M",
            "  [  ok] subagent default   (unset -- assumed short context) window 200k",
        ]
    );
    let over = report(&models, 203, 0, 284_909, "measured", 40_000, true);
    assert_eq!(
        &over[7..],
        [
            "  [OVER] subagent default   (unset -- assumed short context) window 200k",
            "",
            "  1 of 2 configured models cannot run here.",
            "  The base prompt is FIXED cost -- it is paid before any file is read,",
            "  and compacting the conversation cannot reduce it. Either:",
            "    1. disable plugins you do not use (largest single lever), or",
            "    2. give the affected role a long-context model (the [1m] suffix).",
        ]
    );
    let estimated = report(&models, 203, 0, 284_909, "estimated", 40_000, false);
    assert_eq!(
        &estimated[14..],
        [
            "",
            "  This figure is ESTIMATED. Record a real one to make it exact:",
            "    context-budget-audit --observed <tokens-from-the-error-or-/context>",
        ]
    );
}

#[test]
fn windows_are_shown_short() {
    assert_eq!(human(1_000_000), "1M");
    assert_eq!(human(2_999_999), "2M");
    assert_eq!(human(200_000), "200k");
    assert_eq!(human(999), "0k");
}

#[test]
fn measurements_are_recorded() {
    let s = measured(5, 6, 7, "2026-01-02");
    assert_eq!(s.observed_tokens, Some(5));
    assert_eq!(s.observed_plugins, Some(6));
    assert_eq!(s.observed_mcp, Some(7));
    assert_eq!(s.observed_at.as_deref(), Some("2026-01-02"));
    assert_eq!(today(Some("2026-01-02\n")), "2026-01-02");
    assert_eq!(today(None), "unknown");
}

#[test]
fn reports_for_programs() {
    let settings = json(r#"{"model": "opus[1m]"}"#);
    let models = collect_models(&settings, &json("{}"));
    let shown = json_report(&models, 203, 1, 284_909, "measured", 40_000);
    assert_eq!(
        shown,
        r#"{
  "baseTokens": 284909,
  "baseTokensSource": "measured",
  "enabledPlugins": 203,
  "headroom": 40000,
  "mcpServers": 1,
  "models": [
    {
      "id": "opus[1m]",
      "role": "main session",
      "window": 1000000
    },
    {
      "id": "(unset -- assumed short context)",
      "role": "subagent default",
      "window": 200000
    }
  ],
  "ok": false,
  "overBudget": [
    "subagent default"
  ]
}"#
    );
    let fits = json_report(&models, 0, 0, 10_000, "estimated", 40_000);
    assert!(fits.contains("\"ok\": true"));
    assert!(fits.contains("\"overBudget\": []"));
}
