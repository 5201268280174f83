//! The fixed part of a prompt: how large it is, and which of the configured
//! models it leaves room to work in.

use vstd::prelude::*;

use crate::double;
use crate::json;
use crate::json::Json;
use crate::json::JsonTree;
use crate::lists;
use crate::text;

verus! {

/// The room that a session needs beside the fixed part, in tokens.
pub const DEFAULT_HEADROOM: u64 = 40_000;

/// What a plugin takes until it is measured.
pub const DEFAULT_TOKENS_PER_PLUGIN: u64 = 1_350;

/// What a server takes until it is measured.
pub const DEFAULT_TOKENS_PER_MCP: u64 = 2_000;

/// What everything else takes.
pub const DEFAULT_BASE_OVERHEAD: u64 = 10_000;

// ---- what is configured ---------------------------------------------------

/// How many members of an object are `true`.
pub open spec fn enabled(members: Seq<(Seq<char>, JsonTree)>) -> nat
    decreases members.len(),
{
    if members.len() == 0 {
        0
    } else {
        enabled(members.drop_last()) + (if members.last().1 == JsonTree::Bool(true) {
            1nat
        } else {
            0
        })
    }
}

/// How many plugins are enabled.
pub open spec fn plugins_in(settings: JsonTree) -> nat {
    match json::member(settings, "enabledPlugins"@) {
        Some(JsonTree::Object(members)) => enabled(members),
        _ => 0,
    }
}

/// How many plugins are enabled. One that is there and switched off costs
/// nothing.
pub fn count_enabled_plugins(settings: &Json) -> (r: usize)
    ensures
        r == plugins_in(settings@),
{
    match json::get(settings, "enabledPlugins") {
        Some(Json::Object(v)) => {
            let ghost all = json::member_trees(v@);
            let mut n: usize = 0;
            let mut i: usize = 0;
            proof {
                json::lemma_member_trees(v@);
                assert(all.take(0) =~= Seq::empty());
            }
            while i < v.len()
                invariant
                    i <= v.len(),
                    n <= i,
                    all == json::member_trees(v@),
                    all.len() == v@.len(),
                    forall|k: int|
                        0 <= k < v@.len() ==> #[trigger] all[k] == (v@[k].0@, json::tree(v@[k].1)),
                    n == enabled(all.take(i as int)),
                decreases v@.len() - i,
            {
                assert(all.take(i + 1).drop_last() =~= all.take(i as int));
                assert(all.take(i + 1).last() == all[i as int]);
                match &v[i].1 {
                    Json::Bool(b) => {
                        if *b {
                            n = n + 1;
                        }
                    },
                    _ => {},
                }
                i = i + 1;
            }
            assert(all.take(i as int) =~= all);
            n
        },
        _ => 0,
    }
}

/// How many servers an object names.
pub open spec fn servers_in(t: JsonTree) -> nat {
    match json::member(t, "mcpServers"@) {
        Some(JsonTree::Object(members)) => members.len(),
        _ => 0,
    }
}

/// The most servers that a member of an object names.
pub open spec fn most_servers(members: Seq<(Seq<char>, JsonTree)>) -> nat
    decreases members.len(),
{
    if members.len() == 0 {
        0
    } else {
        let before = most_servers(members.drop_last());
        let here = servers_in(members.last().1);
        if here > before {
            here
        } else {
            before
        }
    }
}

/// How many servers a session has: those for all, and those of the project that
/// has the most, for a session works in one.
pub open spec fn mcp_in(root: JsonTree) -> nat {
    servers_in(root) + (match json::member(root, "projects"@) {
        Some(JsonTree::Object(members)) => most_servers(members),
        _ => 0,
    })
}

/// How many servers an object names.
fn count_servers(j: &Json) -> (r: usize)
    ensures
        r == servers_in(j@),
{
    match json::get(j, "mcpServers") {
        Some(Json::Object(v)) => {
            proof {
                json::lemma_member_trees(v@);
            }
            v.len()
        },
        _ => 0,
    }
}

/// The most servers that a project has.
fn count_project_servers(root: &Json) -> (r: usize)
    ensures
        r == (match json::member(root@, "projects"@) {
            Some(JsonTree::Object(members)) => most_servers(members),
            _ => 0,
        }),
{
    match json::get(root, "projects") {
        Some(Json::Object(v)) => {
            let ghost all = json::member_trees(v@);
            let mut most: usize = 0;
            let mut i: usize = 0;
            proof {
                json::lemma_member_trees(v@);
                assert(all.take(0) =~= Seq::empty());
            }
            while i < v.len()
                invariant
                    i <= v.len(),
                    all == json::member_trees(v@),
                    all.len() == v@.len(),
                    forall|k: int|
                        0 <= k < v@.len() ==> #[trigger] all[k] == (v@[k].0@, json::tree(v@[k].1)),
                    most == most_servers(all.take(i as int)),
                decreases v@.len() - i,
            {
                assert(all.take(i + 1).drop_last() =~= all.take(i as int));
                assert(all.take(i + 1).last() == all[i as int]);
                let here = count_servers(&v[i].1);
                if here > most {
                    most = here;
                }
                i = i + 1;
            }
            assert(all.take(i as int) =~= all);
            most
        },
        _ => 0,
    }
}

/// How many servers a session has; as many as can be counted where there are
/// more.
pub fn count_mcp_servers(root: &Json) -> (r: usize)
    ensures
        r == (if mcp_in(root@) > usize::MAX {
            usize::MAX as nat
        } else {
            mcp_in(root@)
        }),
{
    let global = count_servers(root);
    let project = count_project_servers(root);
    global.saturating_add(project)
}

/// The context window of a model, in tokens: the long one where its name asks
/// for it.
pub open spec fn window_of(id: Seq<char>) -> u64 {
    if text::has_text(text::ascii_lowered(id), "[1m]"@) || text::has_text(
        text::ascii_lowered(id),
        "-1m"@,
    ) {
        1_000_000
    } else {
        200_000
    }
}

/// The context window of a model, in tokens.
pub fn window_for(model_id: &str) -> (r: u64)
    ensures
        r == window_of(model_id@),
{
    let lower = text::to_ascii_lower(model_id);
    if text::contains(lower.as_str(), "[1m]") || text::contains(lower.as_str(), "-1m") {
        1_000_000
    } else {
        200_000
    }
}

/// A model that is configured, for what, and its window.
pub struct ModelSlot {
    pub role: String,
    pub id: String,
    pub window: u64,
}

/// What a `ModelSlot` says.
pub struct Slot {
    pub role: Seq<char>,
    pub id: Seq<char>,
    pub window: u64,
}

impl View for ModelSlot {
    type V = Slot;

    open spec fn view(&self) -> Slot {
        Slot { role: self.role@, id: self.id@, window: self.window }
    }
}

/// What the models of a list say.
pub open spec fn slots(v: Seq<ModelSlot>) -> Seq<Slot> {
    v.map_values(|m: ModelSlot| m@)
}

/// The model that a setting names, for that role.
pub open spec fn slot_of(t: JsonTree, key: Seq<char>, role: Seq<char>) -> Seq<Slot> {
    match json::text_of(json::member(t, key)) {
        Some(id) => seq![Slot { role, id, window: window_of(id) }],
        None => Seq::empty(),
    }
}

/// The models that are configured. Where none is for subagents they are taken to
/// have the short window, for that is the case that breaks.
pub open spec fn models_in(settings: JsonTree, root: JsonTree) -> Seq<Slot> {
    slot_of(settings, "model"@, "main session"@) + slot_of(
        root,
        "teammateDefaultModel"@,
        "subagent default"@,
    ) + slot_of(root, "subagentModel"@, "subagent override"@) + (if json::text_of(
        json::member(root, "teammateDefaultModel"@),
    ) is None {
        seq![
            Slot {
                role: "subagent default"@,
                id: "(unset -- assumed short context)"@,
                window: 200_000,
            },
        ]
    } else {
        Seq::empty()
    })
}

/// Adds the model that a setting names; gives whether it names one.
fn add_slot(out: &mut Vec<ModelSlot>, j: &Json, key: &str, role: &str) -> (r: bool)
    ensures
        slots(final(out)@) == slots(old(out)@) + slot_of(j@, key@, role@),
        r == (json::text_of(json::member(j@, key@)) is Some),
{
    let ghost before = out@;
    match json::get_str(j, key) {
        Some(id) => {
            out.push(
                ModelSlot {
                    role: String::from_str(role),
                    id: id.clone(),
                    window: window_for(id.as_str()),
                },
            );
            assert(slots(out@) =~= slots(before) + slot_of(j@, key@, role@));
            true
        },
        None => {
            assert(slots(out@) =~= slots(before) + slot_of(j@, key@, role@));
            false
        },
    }
}

/// The models that are configured.
pub fn collect_models(settings: &Json, root: &Json) -> (r: Vec<ModelSlot>)
    ensures
        slots(r@) == models_in(settings@, root@),
{
    let mut out: Vec<ModelSlot> = Vec::new();
    assert(slots(out@) =~= Seq::empty());
    let _main = add_slot(&mut out, settings, "model", "main session");
    let default_set = add_slot(&mut out, root, "teammateDefaultModel", "subagent default");
    let _override = add_slot(&mut out, root, "subagentModel", "subagent override");
    let ghost before = out@;
    if !default_set {
        out.push(
            ModelSlot {
                role: String::from_str("subagent default"),
                id: String::from_str("(unset -- assumed short context)"),
                window: 200_000,
            },
        );
        assert(slots(out@) =~= slots(before).push(out@.last()@));
    }
    assert(slots(out@) =~= models_in(settings@, root@));
    out
}

// ---- how large the fixed part is ------------------------------------------

/// What was measured, and when, with how many plugins and servers.
pub struct State {
    pub observed_tokens: Option<u64>,
    pub observed_plugins: Option<usize>,
    pub observed_mcp: Option<usize>,
    pub observed_at: Option<String>,
}

impl Default for State {
    fn default() -> (r: Self)
        ensures
            r.observed_tokens is None,
            r.observed_plugins is None,
            r.observed_mcp is None,
            r.observed_at is None,
    {
        State {
            observed_tokens: None,
            observed_plugins: None,
            observed_mcp: None,
            observed_at: None,
        }
    }
}

/// What is on record once a measurement was taken.
pub fn measured(tokens: u64, plugins: usize, mcp: usize, date: &str) -> (r: State)
    ensures
        r.observed_tokens == Some(tokens),
        r.observed_plugins == Some(plugins),
        r.observed_mcp == Some(mcp),
        text::opt_string(r.observed_at) == Some(date@),
{
    State {
        observed_tokens: Some(tokens),
        observed_plugins: Some(plugins),
        observed_mcp: Some(mcp),
        observed_at: Some(String::from_str(date)),
    }
}

/// The date, as a command that tells it printed it.
pub fn today(printed: Option<&str>) -> (r: String)
    ensures
        r@ == (match printed {
            Some(s) => text::trimmed(s@),
            None => "unknown"@,
        }),
{
    match printed {
        Some(s) => text::trim(s),
        None => String::from_str("unknown"),
    }
}

/// The share of a measurement that grows with the plugins.
pub open spec fn plugin_share(observed: u64) -> nat {
    double::difference(double::whole(observed as nat), double::whole(DEFAULT_BASE_OVERHEAD as nat))
}

/// A measurement with so many plugins as it would be with others: what does not
/// depend on them stays. It is reckoned in double precision, the cost of one
/// plugin first, and rounded to the nearest token.
pub open spec fn rescaled(observed: u64, then: nat, now: nat) -> nat {
    let each = double::quotient(plugin_share(observed), double::whole(then));
    double::rounded(
        double::sum(
            double::whole(DEFAULT_BASE_OVERHEAD as nat),
            double::product(each, double::whole(now)),
        ),
    )
}

/// What the fixed part is taken to be without a measurement, reckoned in double
/// precision too.
pub open spec fn estimated(plugins: nat, mcp: nat) -> nat {
    let for_plugins = double::product(
        double::whole(DEFAULT_TOKENS_PER_PLUGIN as nat),
        double::whole(plugins),
    );
    let for_mcp = double::product(
        double::whole(DEFAULT_TOKENS_PER_MCP as nat),
        double::whole(mcp),
    );
    double::rounded(
        double::sum(
            double::sum(double::whole(DEFAULT_BASE_OVERHEAD as nat), for_plugins),
            for_mcp,
        ),
    )
}

/// The size of the fixed part, and where the figure is from. A measurement
/// stands above an estimate, and follows the number of plugins.
pub open spec fn base_of(
    tokens: Option<u64>,
    then: Option<usize>,
    plugins: nat,
    mcp: nat,
) -> (u64, Seq<char>) {
    match tokens {
        Some(observed) => if then is Some && then->0 > 0 && then->0 != plugins {
            (
                double::capped(rescaled(observed, then->0 as nat, plugins)),
                "measured, rescaled for current plugin count"@,
            )
        } else {
            (observed, "measured"@)
        },
        None => (double::capped(estimated(plugins, mcp)), "estimated"@),
    }
}

/// A measurement as it would be with another number of plugins.
fn rescale(observed: u64, then: usize, now: usize) -> (r: u64)
    requires
        then > 0,
    ensures
        r == double::capped(rescaled(observed, then as nat, now as nat)),
{
    let base: u128 = DEFAULT_BASE_OVERHEAD as u128;
    proof {
        double::lemma_nearest_exact(DEFAULT_BASE_OVERHEAD as nat);
        double::lemma_nearest_limit(observed as nat);
        double::lemma_nearest_limit(then as nat);
        double::lemma_nearest_limit(now as nat);
        double::lemma_whole(DEFAULT_BASE_OVERHEAD as nat);
        double::lemma_whole(observed as nat);
        double::lemma_whole(then as nat);
        double::lemma_whole(now as nat);
    }
    let total: u128 = double::round_whole(observed as u128);
    let share: u128 = if total > base {
        double::round_whole(total - base)
    } else {
        0
    };
    let count: u128 = double::round_whole(then as u128);
    let plugins: u128 = double::round_whole(now as u128);
    proof {
        double::lemma_whole_difference(total as nat, base as nat);
        if total > base {
            double::lemma_nearest_limit((total - base) as nat);
        } else {
            assert(0 * double::one() == 0);
        }
        double::lemma_whole_quotient(share as nat, count as nat);
    }
    let each = double::divide(share, count);
    let part = double::multiply(&each, plugins);
    proof {
        double::lemma_whole_product(each.units(), plugins as nat);
    }
    double::round_sum(DEFAULT_BASE_OVERHEAD, &part)
}

/// What the fixed part is taken to be without a measurement.
fn estimate(plugins: usize, mcp: usize) -> (r: u64)
    ensures
        r == double::capped(estimated(plugins as nat, mcp as nat)),
{
    let most: u128 = u64::MAX as u128;
    let base: u128 = DEFAULT_BASE_OVERHEAD as u128;
    let one_plugin: u128 = DEFAULT_TOKENS_PER_PLUGIN as u128;
    let one_server: u128 = DEFAULT_TOKENS_PER_MCP as u128;
    let a: u128 = double::round_whole(plugins as u128);
    let b: u128 = double::round_whole(mcp as u128);
    proof {
        double::lemma_nearest_exact(base as nat);
        double::lemma_nearest_exact(one_plugin as nat);
        double::lemma_nearest_exact(one_server as nat);
        double::lemma_nearest_limit(plugins as nat);
        double::lemma_nearest_limit(mcp as nat);
        double::lemma_whole(base as nat);
        double::lemma_whole(one_plugin as nat);
        double::lemma_whole(one_server as nat);
        double::lemma_whole(plugins as nat);
        double::lemma_whole(mcp as nat);
    }
    let for_plugins: u128 = double::round_whole(one_plugin * a);
    let for_mcp: u128 = double::round_whole(one_server * b);
    let first: u128 = double::round_whole(base + for_plugins);
    let total: u128 = double::round_whole(first + for_mcp);
    proof {
        let o = double::one();
        double::lemma_whole_product(one_plugin as nat * o, a as nat);
        double::lemma_whole_product(one_server as nat * o, b as nat);
        assert((one_plugin * o) * a == (one_plugin * a) * o) by (nonlinear_arith);
        assert((one_server * o) * b == (one_server * b) * o) by (nonlinear_arith);
        double::lemma_whole((one_plugin * a) as nat);
        double::lemma_whole((one_server * b) as nat);
        double::lemma_whole_sum(base as nat, for_plugins as nat);
        double::lemma_whole_sum(first as nat, for_mcp as nat);
        double::lemma_whole_rounded(total as nat);
    }
    if total > most {
        u64::MAX
    } else {
        total as u64
    }
}

/// The size of the fixed part in tokens, and where the figure is from.
pub fn estimate_base(state: &State, plugins: usize, mcp: usize) -> (r: (u64, &'static str))
    ensures
        (r.0, r.1@) == base_of(
            state.observed_tokens,
            state.observed_plugins,
            plugins as nat,
            mcp as nat,
        ),
{
    match state.observed_tokens {
        Some(observed) => match state.observed_plugins {
            Some(then) => {
                if then == 0 || then == plugins {
                    (observed, "measured")
                } else {
                    (
                        rescale(observed, then, plugins),
                        "measured, rescaled for current plugin count",
                    )
                }
            },
            None => (observed, "measured"),
        },
        None => (estimate(plugins, mcp), "estimated"),
    }
}

// ---- which models have room -----------------------------------------------

/// Whether a model has no room to work in.
pub open spec fn is_over(base: u64, headroom: u64, window: u64) -> bool {
    base + headroom > window
}

/// The models of a list that have no room to work in.
pub open spec fn over_in(v: Seq<Slot>, base: u64, headroom: u64) -> Seq<Slot>
    decreases v.len(),
{
    if v.len() == 0 {
        Seq::empty()
    } else if is_over(base, headroom, v.last().window) {
        over_in(v.drop_last(), base, headroom).push(v.last())
    } else {
        over_in(v.drop_last(), base, headroom)
    }
}

/// The models of a list that have no room to work in, in their order.
pub fn over_budget(models: &Vec<ModelSlot>, base: u64, headroom: u64) -> (r: Vec<ModelSlot>)
    requires
        base + headroom <= u64::MAX,
    ensures
        slots(r@) == over_in(slots(models@), base, headroom),
{
    let ghost all = slots(models@);
    let needed: u64 = base + headroom;
    let mut out: Vec<ModelSlot> = Vec::new();
    let mut i: usize = 0;
    assert(all.take(0) =~= Seq::empty());
    assert(slots(out@) =~= Seq::empty());
    while i < models.len()
        invariant
            i <= models@.len(),
            all == slots(models@),
            needed == base + headroom,
            slots(out@) == over_in(all.take(i as int), base, headroom),
        decreases models@.len() - i,
    {
        proof {
            assert(all.take(i + 1).drop_last() =~= all.take(i as int));
            assert(all.take(i + 1).last() == models@[i as int]@);
        }
        let m = &models[i];
        if needed > m.window {
            let ghost was = out@;
            out.push(
                ModelSlot { role: m.role.clone(), id: m.id.clone(), window: m.window },
            );
            assert(slots(out@) =~= slots(was).push(m@));
        }
        i = i + 1;
    }
    assert(all.take(i as int) =~= all);
    out
}

/// A window as it is shown.
pub open spec fn human_text(tokens: u64) -> Seq<char> {
    if tokens >= 1_000_000 {
        text::decimal((tokens / 1_000_000) as nat) + "M"@
    } else {
        text::decimal((tokens / 1_000) as nat) + "k"@
    }
}

/// A window as it is shown.
pub fn human(tokens: u64) -> (r: String)
    ensures
        r@ == human_text(tokens),
{
    if tokens >= 1_000_000 {
        let mut r = text::show_u64(tokens / 1_000_000);
        r.append("M");
        r
    } else {
        let mut r = text::show_u64(tokens / 1_000);
        r.append("k");
        r
    }
}

/// The line for a model.
pub open spec fn model_line(m: Slot, base: u64, headroom: u64) -> Seq<char> {
    "  ["@ + text::right_aligned(
        if is_over(base, headroom, m.window) {
            "OVER"@
        } else {
            "ok"@
        },
        4,
    ) + "] "@ + text::left_aligned(m.role, 18) + " "@ + text::left_aligned(m.id, 22) + " window "@
        + human_text(m.window)
}

/// The lines for the models of a list.
pub open spec fn model_lines(v: Seq<Slot>, base: u64, headroom: u64) -> Seq<Seq<char>> {
    v.map_values(|m: Slot| model_line(m, base, headroom))
}

/// What is said where models have no room.
pub open spec fn advice(over: nat, models: nat, was_measured: bool) -> Seq<Seq<char>> {
    seq![
        ""@,
        "  "@ + text::decimal(over) + " of "@ + text::decimal(models)
            + " configured models cannot run here."@,
        "  The base prompt is FIXED cost -- it is paid before any file is read,"@,
        "  and compacting the conversation cannot reduce it. Either:"@,
        "    1. disable plugins you do not use (largest single lever), or"@,
        "    2. give the affected role a long-context model (the [1m] suffix)."@,
    ] + (if was_measured {
        Seq::empty()
    } else {
        seq![
            ""@,
            "  This figure is ESTIMATED. Record a real one to make it exact:"@,
            "    context-budget-audit --observed <tokens-from-the-error-or-/context>"@,
        ]
    })
}

/// The lines of a report.
pub open spec fn report_text(
    v: Seq<Slot>,
    plugins: nat,
    mcp: nat,
    base: u64,
    source: Seq<char>,
    headroom: u64,
    was_measured: bool,
) -> Seq<Seq<char>> {
    let over = over_in(v, base, headroom);
    seq![
        "context-budget-audit"@,
        "  enabled plugins : "@ + text::decimal(plugins),
        "  mcp servers     : "@ + text::decimal(mcp),
        "  base prompt     : ~"@ + text::decimal(base as nat) + " tokens ("@ + source + ")"@,
        "  required room   : "@ + text::decimal(headroom as nat) + " tokens"@,
        ""@,
    ] + model_lines(v, base, headroom) + (if over.len() > 0 {
        advice(over.len(), v.len(), was_measured)
    } else {
        Seq::empty()
    })
}

/// The line for a model.
fn show_model(m: &ModelSlot, base: u64, headroom: u64) -> (r: String)
    requires
        base + headroom <= u64::MAX,
    ensures
        r@ == model_line(m@, base, headroom),
{
    let mut r = String::from_str("  [");
    r.append(
        text::align_right(
            if base + headroom > m.window {
                "OVER"
            } else {
                "ok"
            },
            4,
        ).as_str(),
    );
    r.append("] ");
    r.append(text::align_left(m.role.as_str(), 18).as_str());
    r.append(" ");
    r.append(text::align_left(m.id.as_str(), 22).as_str());
    r.append(" window ");
    r.append(human(m.window).as_str());
    r
}

/// Adds what is said where models have no room.
fn advise(out: &mut Vec<String>, over: usize, models: usize, was_measured: bool)
    ensures
        text::texts(final(out)@) == text::texts(old(out)@) + advice(
            over as nat,
            models as nat,
            was_measured,
        ),
{
    let ghost before = text::texts(out@);
    let mut s = String::from_str("  ");
    s.append(text::show_usize(over).as_str());
    s.append(" of ");
    s.append(text::show_usize(models).as_str());
    s.append(" configured models cannot run here.");
    text::say(out, String::from_str(""));
    text::say(out, s);
    text::say(
        out,
        String::from_str("  The base prompt is FIXED cost -- it is paid before any file is read,"),
    );
    text::say(out, String::from_str("  and compacting the conversation cannot reduce it. Either:"));
    text::say(out, String::from_str("    1. disable plugins you do not use (largest single lever), or"));
    text::say(
        out,
        String::from_str("    2. give the affected role a long-context model (the [1m] suffix)."),
    );
    if !was_measured {
        text::say(out, String::from_str(""));
        text::say(
            out,
            String::from_str("  This figure is ESTIMATED. Record a real one to make it exact:"),
        );
        text::say(
            out,
            String::from_str(
                "    context-budget-audit --observed <tokens-from-the-error-or-/context>",
            ),
        );
    }
    assert(text::texts(out@) =~= before + advice(over as nat, models as nat, was_measured));
}

/// The lines of a report.
pub fn report(
    models: &Vec<ModelSlot>,
    plugins: usize,
    mcp: usize,
    base: u64,
    source: &str,
    headroom: u64,
    was_measured: bool,
) -> (r: Vec<String>)
    requires
        base + headroom <= u64::MAX,
    ensures
        text::texts(r@) == report_text(
            slots(models@),
            plugins as nat,
            mcp as nat,
            base,
            source@,
            headroom,
            was_measured,
        ),
{
    let ghost all = slots(models@);
    let mut a = String::from_str("  enabled plugins : ");
    a.append(text::show_usize(plugins).as_str());
    let mut b = String::from_str("  mcp servers     : ");
    b.append(text::show_usize(mcp).as_str());
    let mut c = String::from_str("  base prompt     : ~");
    c.append(text::show_u64(base).as_str());
    c.append(" tokens (");
    c.append(source);
    c.append(")");
    let mut d = String::from_str("  required room   : ");
    d.append(text::show_u64(headroom).as_str());
    d.append(" tokens");
    let ghost head = seq!["context-budget-audit"@, a@, b@, c@, d@, ""@];
    let mut out: Vec<String> = Vec::new();
    text::say(&mut out, String::from_str("context-budget-audit"));
    text::say(&mut out, a);
    text::say(&mut out, b);
    text::say(&mut out, c);
    text::say(&mut out, d);
    text::say(&mut out, String::from_str(""));
    let ghost rows = model_lines(all, base, headroom);
    let mut i: usize = 0;
    assert(text::texts(out@) =~= head + rows.take(0));
    while i < models.len()
        invariant
            i <= models@.len(),
            base + headroom <= u64::MAX,
            all == slots(models@),
            rows == model_lines(all, base, headroom),
            text::texts(out@) == head + rows.take(i as int),
        decreases models@.len() - i,
    {
        assert(all[i as int] == models@[i as int]@);
        text::say(&mut out, show_model(&models[i], base, headroom));
        assert(text::texts(out@) =~= head + rows.take(i + 1));
        i = i + 1;
    }
    assert(rows.take(i as int) =~= rows);
    let over = over_budget(models, base, headroom);
    assert(slots(over@).len() == over@.len());
    if over.len() > 0 {
        advise(&mut out, over.len(), models.len(), was_measured);
    }
    assert(text::texts(out@) =~= report_text(
        all,
        plugins as nat,
        mcp as nat,
        base,
        source@,
        headroom,
        was_measured,
    ));
    out
}

/// A model as a document.
pub open spec fn model_tree(m: Slot) -> JsonTree {
    JsonTree::Object(
        seq![
            ("id"@, JsonTree::Str(m.id)),
            ("role"@, JsonTree::Str(m.role)),
            ("window"@, JsonTree::Number(text::decimal(m.window as nat))),
        ],
    )
}

/// The models of a list as documents.
pub open spec fn model_trees(v: Seq<Slot>) -> Seq<JsonTree> {
    v.map_values(|m: Slot| model_tree(m))
}

/// The roles of the models of a list, as documents.
pub open spec fn role_trees(v: Seq<Slot>) -> Seq<JsonTree> {
    v.map_values(|m: Slot| JsonTree::Str(m.role))
}

/// A report as a document.
pub open spec fn report_tree(
    models: Seq<Slot>,
    plugins: nat,
    mcp: nat,
    base: u64,
    source: Seq<char>,
    headroom: u64,
) -> JsonTree {
    let over = over_in(models, base, headroom);
    JsonTree::Object(
        seq![
            ("baseTokens"@, JsonTree::Number(text::decimal(base as nat))),
            ("baseTokensSource"@, JsonTree::Str(source)),
            ("enabledPlugins"@, JsonTree::Number(text::decimal(plugins))),
            ("headroom"@, JsonTree::Number(text::decimal(headroom as nat))),
            ("mcpServers"@, JsonTree::Number(text::decimal(mcp))),
            ("models"@, JsonTree::Array(model_trees(models))),
            ("ok"@, JsonTree::Bool(over.len() == 0)),
            ("overBudget"@, JsonTree::Array(role_trees(over))),
        ],
    )
}

/// A model as a document.
fn show_slot(m: &ModelSlot) -> (r: Json)
    ensures
        r@ == model_tree(m@),
{
    let mut v: Vec<(String, Json)> = Vec::new();
    v.push((String::from_str("id"), json::string(m.id.as_str())));
    v.push((String::from_str("role"), json::string(m.role.as_str())));
    v.push((String::from_str("window"), json::number(m.window)));
    proof {
        json::lemma_member_trees(v@);
        assert(json::member_trees(v@) =~= model_tree(m@)->Object_0);
    }
    Json::Object(v)
}

/// A report for programs.
pub fn json_report(
    models: &Vec<ModelSlot>,
    plugins: usize,
    mcp: usize,
    base: u64,
    source: &str,
    headroom: u64,
) -> (r: String)
    requires
        base + headroom <= u64::MAX,
    ensures
        r@ == json::laid_out(
            report_tree(slots(models@), plugins as nat, mcp as nat, base, source@, headroom),
            ""@,
        ),
{
    let over = over_budget(models, base, headroom);
    let ghost all = model_trees(slots(models@));
    let ghost roles = role_trees(slots(over@));
    let mut shown: Vec<Json> = Vec::new();
    let mut i: usize = 0;
    while i < models.len()
        invariant
            i <= models@.len(),
            all == model_trees(slots(models@)),
            json::trees(shown@) == all.take(i as int),
        decreases models@.len() - i,
    {
        let ghost was = shown@;
        shown.push(show_slot(&models[i]));
        assert(shown@.drop_last() =~= was);
        assert(json::trees(shown@) =~= all.take(i + 1));
        i = i + 1;
    }
    assert(all.take(i as int) =~= all);
    let mut named: Vec<Json> = Vec::new();
    let mut j: usize = 0;
    while j < over.len()
        invariant
            j <= over@.len(),
            roles == role_trees(slots(over@)),
            json::trees(named@) == roles.take(j as int),
        decreases over@.len() - j,
    {
        let ghost was = named@;
        named.push(json::string(over[j].role.as_str()));
        assert(named@.drop_last() =~= was);
        assert(json::trees(named@) =~= roles.take(j + 1));
        j = j + 1;
    }
    assert(roles.take(j as int) =~= roles);
    assert(slots(over@).len() == over@.len());
    let mut v: Vec<(String, Json)> = Vec::new();
    v.push((String::from_str("baseTokens"), json::number(base)));
    v.push((String::from_str("baseTokensSource"), json::string(source)));
    v.push((String::from_str("enabledPlugins"), json::count(plugins)));
    v.push((String::from_str("headroom"), json::number(headroom)));
    v.push((String::from_str("mcpServers"), json::count(mcp)));
    v.push((String::from_str("models"), Json::Array(shown)));
    v.push((String::from_str("ok"), Json::Bool(over.len() == 0)));
    v.push((String::from_str("overBudget"), Json::Array(named)));
    proof {
        json::lemma_member_trees(v@);
        assert(json::member_trees(v@) =~= report_tree(
            slots(models@),
            plugins as nat,
            mcp as nat,
            base,
            source@,
            headroom,
        )->Object_0);
    }
    proof {
        lemma_report_is_regular(slots(models@), plugins, mcp, base, source@, headroom);
    }
    json::lay_out(&Json::Object(v))
}

proof fn lemma_model_is_regular(m: Slot)
    ensures
        json::regular(model_tree(m), 98),
{
    reveal_strlit("id");
    reveal_strlit("role");
    reveal_strlit("window");
    assert(json::is_integer(text::decimal(m.window as nat)));
    json::lemma_regular_object(model_tree(m)->Object_0, 98);
}

/// The names in a report, of which each stands before the next.
proof fn lemma_report_names()
    ensures
        text::before("baseTokens"@, "baseTokensSource"@),
        text::before("baseTokensSource"@, "enabledPlugins"@),
        text::before("enabledPlugins"@, "headroom"@),
        text::before("headroom"@, "mcpServers"@),
        text::before("mcpServers"@, "models"@),
        text::before("models"@, "ok"@),
        text::before("ok"@, "overBudget"@),
{
    reveal_strlit("baseTokens");
    reveal_strlit("baseTokensSource");
    reveal_strlit("enabledPlugins");
    reveal_strlit("headroom");
    reveal_strlit("mcpServers");
    reveal_strlit("models");
    reveal_strlit("ok");
    reveal_strlit("overBudget");
    reveal_with_fuel(text::before, 12);
}

proof fn lemma_report_is_regular(
    models: Seq<Slot>,
    plugins: usize,
    mcp: usize,
    base: u64,
    source: Seq<char>,
    headroom: u64,
)
    ensures
        json::regular(
            report_tree(models, plugins as nat, mcp as nat, base, source, headroom),
            100,
        ),
{
    lemma_report_names();
    let shown = model_trees(models);
    assert forall|i: int| 0 <= i < shown.len() implies json::regular(#[trigger] shown[i], 98) by {
        lemma_model_is_regular(models[i]);
    }
    let roles = role_trees(over_in(models, base, headroom));
    assert forall|i: int| 0 <= i < roles.len() implies json::regular(#[trigger] roles[i], 98) by {}
    assert(json::is_integer(text::decimal(base as nat)));
    assert(json::is_integer(text::decimal(headroom as nat)));
    assert(json::is_integer(text::decimal(plugins as u64 as nat)));
    assert(json::is_integer(text::decimal(mcp as u64 as nat)));
    assert(json::regular(JsonTree::Array(shown), 99));
    assert(json::regular(JsonTree::Array(roles), 99));
    json::lemma_regular_object(
        report_tree(models, plugins as nat, mcp as nat, base, source, headroom)->Object_0,
        100,
    );
}

// ---- laws -----------------------------------------------------------------

/// A measurement is what counts, as it was taken, while the plugins are as they
/// were.
pub proof fn measurement_beats_estimate(tokens: u64, plugins: usize, mcp: nat)
    ensures
        base_of(Some(tokens), Some(plugins), plugins as nat, mcp) == (tokens, "measured"@),
{
}

proof fn lemma_rescaled_ordered(observed: u64, then: nat, fewer: nat, more: nat)
    requires
        then > 0,
        fewer <= more,
    ensures
        rescaled(observed, then, fewer) <= rescaled(observed, then, more),
        rescaled(observed, then, fewer) >= DEFAULT_BASE_OVERHEAD,
{
    let o = double::one();
    let base = double::whole(DEFAULT_BASE_OVERHEAD as nat);
    let each = double::quotient(plugin_share(observed), double::whole(then));
    let (f, m) = (double::whole(fewer), double::whole(more));
    double::lemma_two_to_positive(1_074);
    assert(fewer * o <= more * o) by (nonlinear_arith)
        requires
            fewer <= more,
    ;
    double::lemma_nearest_ordered(fewer * o, more * o, 1);
    assert(each * f <= each * m) by (nonlinear_arith)
        requires
            f <= m,
    ;
    double::lemma_nearest_ordered(each * f, each * m, o);
    let (x, y) = (double::product(each, f), double::product(each, m));
    double::lemma_nearest_ordered(base + x, base + y, 1);
    double::lemma_rounded_ordered(double::sum(base, x), double::sum(base, y));
    double::lemma_nearest_exact(DEFAULT_BASE_OVERHEAD as nat);
    double::lemma_whole(DEFAULT_BASE_OVERHEAD as nat);
    double::lemma_nearest_ordered(base, base + x, 1);
    double::lemma_nearest_shifted(DEFAULT_BASE_OVERHEAD as nat, 1_074);
    double::lemma_whole_rounded(DEFAULT_BASE_OVERHEAD as nat);
    double::lemma_rounded_ordered(base, double::sum(base, x));
}

proof fn lemma_estimated_ordered(fewer: nat, more: nat, mcp: nat)
    requires
        fewer <= more,
    ensures
        estimated(fewer, mcp) <= estimated(more, mcp),
        estimated(fewer, mcp) >= DEFAULT_BASE_OVERHEAD,
{
    let o = double::one();
    let base = double::whole(DEFAULT_BASE_OVERHEAD as nat);
    let one_plugin = double::whole(DEFAULT_TOKENS_PER_PLUGIN as nat);
    let for_mcp = double::product(
        double::whole(DEFAULT_TOKENS_PER_MCP as nat),
        double::whole(mcp),
    );
    let (f, m) = (double::whole(fewer), double::whole(more));
    double::lemma_two_to_positive(1_074);
    assert(fewer * o <= more * o) by (nonlinear_arith)
        requires
            fewer <= more,
    ;
    double::lemma_nearest_ordered(fewer * o, more * o, 1);
    assert(one_plugin * f <= one_plugin * m) by (nonlinear_arith)
        requires
            f <= m,
    ;
    double::lemma_nearest_ordered(one_plugin * f, one_plugin * m, o);
    let (x, y) = (double::product(one_plugin, f), double::product(one_plugin, m));
    double::lemma_nearest_ordered(base + x, base + y, 1);
    let (a, b) = (double::sum(base, x), double::sum(base, y));
    double::lemma_nearest_ordered(a + for_mcp, b + for_mcp, 1);
    double::lemma_rounded_ordered(double::sum(a, for_mcp), double::sum(b, for_mcp));
    double::lemma_nearest_exact(DEFAULT_BASE_OVERHEAD as nat);
    double::lemma_whole(DEFAULT_BASE_OVERHEAD as nat);
    double::lemma_nearest_shifted(DEFAULT_BASE_OVERHEAD as nat, 1_074);
    double::lemma_nearest_ordered(base, base + x, 1);
    double::lemma_nearest_ordered(base, a + for_mcp, 1);
    double::lemma_whole_rounded(DEFAULT_BASE_OVERHEAD as nat);
    double::lemma_rounded_ordered(base, double::sum(a, for_mcp));
}

/// The measurements that rounding does not blur: those of at most 49 binary
/// digits.
pub const SHARP_END: u64 = 0x2_0000_0000_0000;

/// Rescaled to the number of plugins that it was taken with, a measurement is
/// what it was.
pub proof fn rescaling_keeps_a_measurement(observed: u64, then: nat)
    requires
        DEFAULT_BASE_OVERHEAD <= observed < SHARP_END,
        0 < then <= u64::MAX,
    ensures
        rescaled(observed, then, then) == observed,
{
    let o = double::one();
    let n = DEFAULT_BASE_OVERHEAD as nat;
    let share = (observed - n) as nat;
    let count = double::nearest(then, 1);
    double::lemma_two_to_positive(1_074);
    double::lemma_two_to_values();
    double::lemma_two_to_ordered(117, 1_074);
    double::lemma_nearest_limit(then);
    double::lemma_nearest_exact(n);
    double::lemma_nearest_exact(observed as nat);
    double::lemma_nearest_exact(share);
    double::lemma_whole(n);
    double::lemma_whole(observed as nat);
    double::lemma_whole(then);
    double::lemma_whole_difference(observed as nat, n);
    double::lemma_whole_quotient(share, count);
    assert(0 * o == 0);
    assert(plugin_share(observed) == share * o);
    let each = double::nearest(share * o, count);
    double::lemma_whole_product(each, count);
    let part = double::nearest(each * count, 1);
    let total = double::nearest(n * o + part, 1);
    assert(rescaled(observed, then, then) == double::rounded(total));
    if share == 0 {
        assert(each == 0);
        assert(each * count == 0) by (nonlinear_arith)
            requires
                each == 0,
        ;
        double::lemma_nearest_exact(0);
        double::lemma_nearest_shifted(n, 1_074);
        double::lemma_whole_rounded(n);
    } else {
        let x = each * count;
        assert(share * o >= o) by (nonlinear_arith)
            requires
                share >= 1,
        ;
        double::lemma_nearest_error(share * o, count);
        assert(count * each == x) by (nonlinear_arith)
            requires
                x == each * count,
        ;
        assert(2 * x >= share * o);
        assert(x <= 2 * (share * o));
        double::lemma_nearest_error(x, 1);
        assert(part <= 2 * x);
        assert(n * o >= 0) by (nonlinear_arith);
        double::lemma_nearest_error(n * o + part, 1);
        let exact = observed * o;
        assert(exact == n * o + share * o) by (nonlinear_arith)
            requires
                observed == n + share,
                exact == observed * o,
        ;
        let e = double::END as int;
        assert(e * (total - exact) <= 7 * exact);
        assert(e * (exact - total) <= 7 * exact);
        assert(16 * exact < e * o) by (nonlinear_arith)
            requires
                16 * observed < e,
                o > 0,
                exact == observed * o,
        ;
        assert(2 * total < 2 * exact + o);
        assert(2 * exact < 2 * total + o);
        let rest = 2 * total + o - 2 * exact;
        assert(2 * total + o == observed * (2 * o) + rest) by (nonlinear_arith)
            requires
                rest == 2 * total + o - 2 * exact,
                exact == observed * o,
        ;
        vstd::arithmetic::div_mod::lemma_fundamental_div_mod_converse(
            (2 * total + o) as int,
            (2 * o) as int,
            observed as int,
            rest as int,
        );
    }
}

/// Fewer plugins never raise the figure, measured or not, and it never falls
/// below what does not depend on them. A measurement that rounding would blur is
/// left out where it stands beside one of the figures reckoned from it.
pub proof fn fewer_plugins_cost_no_more(
    tokens: Option<u64>,
    then: usize,
    fewer: nat,
    more: nat,
    mcp: nat,
)
    requires
        fewer <= more,
        then > 0,
        tokens matches Some(t) ==> t >= DEFAULT_BASE_OVERHEAD,
        tokens matches Some(t) ==> t < SHARP_END || (fewer == then <==> more == then),
    ensures
        base_of(tokens, Some(then), fewer, mcp).0 <= base_of(tokens, Some(then), more, mcp).0,
        base_of(tokens, Some(then), fewer, mcp).0 >= DEFAULT_BASE_OVERHEAD,
{
    match tokens {
        Some(t) => {
            lemma_rescaled_ordered(t, then as nat, fewer, more);
            if t < SHARP_END {
                rescaling_keeps_a_measurement(t, then as nat);
            }
        },
        None => {
            lemma_estimated_ordered(fewer, more, mcp);
        },
    }
}

proof fn lemma_over_in(v: Seq<Slot>, base: u64, headroom: u64, i: int)
    requires
        0 <= i < v.len(),
        is_over(base, headroom, v[i].window),
    ensures
        over_in(v, base, headroom).contains(v[i]),
    decreases v.len(),
{
    let w = v.drop_last();
    let r = over_in(v, base, headroom);
    if i < w.len() {
        assert(w[i] == v[i]);
        lemma_over_in(w, base, headroom, i);
        let a = over_in(w, base, headroom);
        let k = choose|k: int| 0 <= k < a.len() && a[k] == v[i];
        assert(r[k] == v[i]);
    } else {
        assert(r[r.len() - 1] == v[i]);
    }
}

/// A configuration without a model for subagents is never passed over: where
/// the short window has no room, the audit says so, whatever the main session
/// has.
pub proof fn unset_subagents_are_audited(
    settings: JsonTree,
    root: JsonTree,
    base: u64,
    headroom: u64,
)
    requires
        json::text_of(json::member(root, "teammateDefaultModel"@)) is None,
        is_over(base, headroom, 200_000),
    ensures
        over_in(models_in(settings, root), base, headroom).len() > 0,
{
    let v = models_in(settings, root);
    lemma_over_in(v, base, headroom, v.len() - 1);
}

proof fn lemma_most_servers(members: Seq<(Seq<char>, JsonTree)>)
    ensures
        forall|i: int|
            0 <= i < members.len() ==> most_servers(members) >= servers_in(
                (#[trigger] members[i]).1,
            ),
        most_servers(members) == 0 || exists|i: int|
            0 <= i < members.len() && most_servers(members) == servers_in((#[trigger] members[i]).1),
    decreases members.len(),
{
    if members.len() > 0 {
        let w = members.drop_last();
        lemma_most_servers(w);
        assert forall|i: int| 0 <= i < members.len() implies most_servers(members) >= servers_in(
            (#[trigger] members[i]).1,
        ) by {
            if i < w.len() {
                assert(w[i] == members[i]);
            }
        }
        if most_servers(members) == most_servers(w) {
            if most_servers(w) != 0 {
                let i = choose|i: int|
                    0 <= i < w.len() && most_servers(w) == servers_in((#[trigger] w[i]).1);
                assert(members[i] == w[i]);
            }
        } else {
            assert(members[members.len() - 1] == members.last());
        }
    }
}

/// A session has the servers for all and those of one project, and the audit
/// takes the project that has the most: it counts at least the servers of every
/// project, and no more than those of some project.
pub proof fn heaviest_project_counts(root: JsonTree, projects: Seq<(Seq<char>, JsonTree)>)
    requires
        json::member(root, "projects"@) == Some(JsonTree::Object(projects)),
    ensures
        ({
            let global = match json::member(root, "mcpServers"@) {
                Some(JsonTree::Object(s)) => s.len(),
                _ => 0,
            };
            &&& forall|i: int|
                0 <= i < projects.len() ==> (json::member(
                    (#[trigger] projects[i]).1,
                    "mcpServers"@,
                ) matches Some(JsonTree::Object(s)) ==> mcp_in(root) >= global + s.len())
            &&& mcp_in(root) == global || exists|i: int|
                0 <= i < projects.len() && (json::member(
                    (#[trigger] projects[i]).1,
                    "mcpServers"@,
                ) matches Some(JsonTree::Object(s)) && mcp_in(root) == global + s.len())
        }),
{
    lemma_most_servers(projects);
    let most = most_servers(projects);
    let global = servers_in(root);
    assert(mcp_in(root) == global + most);
    assert forall|i: int| 0 <= i < projects.len() implies (json::member(
        (#[trigger] projects[i]).1,
        "mcpServers"@,
    ) matches Some(JsonTree::Object(s)) ==> mcp_in(root) >= global + s.len()) by {
        assert(most >= servers_in(projects[i].1));
    }
    if most != 0 {
        let i = choose|i: int|
            0 <= i < projects.len() && most == servers_in((#[trigger] projects[i]).1);
        assert(servers_in(projects[i].1) == most);
    }
}

/// Without projects only the servers for all count.
pub proof fn global_servers_count_alone(root: JsonTree, servers: Seq<(Seq<char>, JsonTree)>)
    requires
        json::member(root, "mcpServers"@) == Some(JsonTree::Object(servers)),
        json::member(root, "projects"@) is None,
    ensures
        mcp_in(root) == servers.len(),
{
}

proof fn lemma_enabled(members: Seq<(Seq<char>, JsonTree)>)
    ensures
        enabled(members) == members.filter(
            |m: (Seq<char>, JsonTree)| m.1 == JsonTree::Bool(true),
        ).len(),
    decreases members.len(),
{
    reveal(Seq::filter);
    if members.len() > 0 {
        lemma_enabled(members.drop_last());
    }
}

/// The plugins that count are those that are set to true, each once, and no
/// others.
pub proof fn only_enabled_plugins_count(
    settings: JsonTree,
    plugins: Seq<(Seq<char>, JsonTree)>,
)
    requires
        json::member(settings, "enabledPlugins"@) == Some(JsonTree::Object(plugins)),
    ensures
        plugins_in(settings) == plugins.filter(
            |m: (Seq<char>, JsonTree)| m.1 == JsonTree::Bool(true),
        ).len(),
{
    lemma_enabled(plugins);
}

/// A model has the long window exactly where its name holds `[1m]` or `-1m`, with
/// the letter in either case; every other model has the short one.
pub proof fn long_windows_are_asked_for(id: Seq<char>)
    ensures
        window_of(id) == 1_000_000 || window_of(id) == 200_000,
        window_of(id) == 1_000_000 <==> exists|k: int|
            0 <= k && k + 2 < id.len() && id[k + 1] == '1' && (id[k + 2] == 'm' || id[k + 2]
                == 'M') && (#[trigger] id[k] == '-' || id[k] == '[' && k + 3 < id.len() && id[k + 3]
                == ']'),
{
    reveal_strlit("[1m]");
    reveal_strlit("-1m");
    let low = text::ascii_lowered(id);
    assert forall|k: int| 0 <= k < id.len() implies (low[k] == '-' <==> #[trigger] id[k] == '-')
        && (low[k] == '[' <==> id[k] == '[') && (low[k] == ']' <==> id[k] == ']') && (low[k] == '1'
        <==> id[k] == '1') && (low[k] == 'm' <==> id[k] == 'm' || id[k] == 'M') by {}
    if exists|k: int| text::is_at(low, k, "[1m]"@) {
        let k = choose|k: int| text::is_at(low, k, "[1m]"@);
        let t = low.subrange(k, k + 4);
        assert(t[0] == low[k] && t[1] == low[k + 1] && t[2] == low[k + 2] && t[3] == low[k + 3]);
        assert(id[k] == '[' && id[k + 1] == '1' && id[k + 3] == ']');
    }
    if exists|k: int| text::is_at(low, k, "-1m"@) {
        let k = choose|k: int| text::is_at(low, k, "-1m"@);
        let t = low.subrange(k, k + 3);
        assert(t[0] == low[k] && t[1] == low[k + 1] && t[2] == low[k + 2]);
        assert(id[k] == '-' && id[k + 1] == '1');
    }
    assert forall|k: int|
        0 <= k && k + 2 < id.len() && id[k + 1] == '1' && (id[k + 2] == 'm' || id[k + 2] == 'M')
            && (#[trigger] id[k] == '-' || id[k] == '[' && k + 3 < id.len() && id[k + 3]
            == ']') implies window_of(id) == 1_000_000 by {
        if id[k] == '-' {
            assert(low.subrange(k, k + 3) =~= "-1m"@);
            assert(text::is_at(low, k, "-1m"@));
        } else {
            assert(low.subrange(k, k + 4) =~= "[1m]"@);
            assert(text::is_at(low, k, "[1m]"@));
        }
    }
}

/// What is audited is what is configured: the model of the main session, the
/// default and the override of the subagents, each with its own window; and
/// where no default is set, the short window in its place.
pub proof fn configured_models_are_audited(settings: JsonTree, root: JsonTree, s: Slot)
    ensures
        models_in(settings, root).contains(s) <==> {
            ||| s.role == "main session"@ && json::member(settings, "model"@) == Some(
                JsonTree::Str(s.id),
            ) && s.window == window_of(s.id)
            ||| s.role == "subagent default"@ && json::member(root, "teammateDefaultModel"@)
                == Some(JsonTree::Str(s.id)) && s.window == window_of(s.id)
            ||| s.role == "subagent override"@ && json::member(root, "subagentModel"@) == Some(
                JsonTree::Str(s.id),
            ) && s.window == window_of(s.id)
            ||| s.role == "subagent default"@ && !(json::member(root, "teammateDefaultModel"@)
                matches Some(JsonTree::Str(_))) && s.id == "(unset -- assumed short context)"@
                && s.window == 200_000
        },
{
    let a = slot_of(settings, "model"@, "main session"@);
    let b = slot_of(root, "teammateDefaultModel"@, "subagent default"@);
    let c = slot_of(root, "subagentModel"@, "subagent override"@);
    let all = models_in(settings, root);
    if a.len() > 0 {
        assert(all[0] == a[0]);
    }
    if b.len() > 0 {
        assert(all[a.len() as int] == b[0]);
    } else {
        assert(all[all.len() - 1].role == "subagent default"@);
    }
    if c.len() > 0 {
        assert(all[(a.len() + b.len()) as int] == c[0]);
    }
}

proof fn lemma_over_filter(v: Seq<Slot>, base: u64, headroom: u64)
    ensures
        over_in(v, base, headroom) == v.filter(|s: Slot| base + headroom > s.window),
    decreases v.len(),
{
    reveal(Seq::filter);
    if v.len() > 0 {
        lemma_over_filter(v.drop_last(), base, headroom);
    }
}

/// The models that are reported are those whose window is smaller than the fixed
/// part and the headroom together, in their order; one that just holds both has
/// room.
pub proof fn crowded_models_are_reported(v: Seq<Slot>, base: u64, headroom: u64)
    ensures
        over_in(v, base, headroom) == v.filter(|s: Slot| base + headroom > s.window),
        forall|s: Slot| #[trigger]
            over_in(v, base, headroom).contains(s) <==> v.contains(s) && base + headroom > s.window,
{
    lemma_over_filter(v, base, headroom);
    lists::lemma_filtered(v, |s: Slot| base + headroom > s.window);
}

/// An estimate adds up: what everything else takes, and so much for each plugin
/// and for each server.
pub proof fn estimate_adds_up(plugins: usize, mcp: usize)
    requires
        10_000 + 1_350 * plugins + 2_000 * mcp <= double::END,
    ensures
        base_of(None, None, plugins as nat, mcp as nat) == (
            (10_000 + 1_350 * plugins + 2_000 * mcp) as u64,
            "estimated"@,
        ),
{
    let o = double::one();
    let a = 1_350 * plugins as nat;
    let b = 2_000 * mcp as nat;
    double::lemma_nearest_exact(10_000);
    double::lemma_nearest_exact(1_350);
    double::lemma_nearest_exact(2_000);
    double::lemma_nearest_exact(plugins as nat);
    double::lemma_nearest_exact(mcp as nat);
    double::lemma_nearest_exact(a);
    double::lemma_nearest_exact(b);
    double::lemma_nearest_exact(10_000 + a);
    double::lemma_nearest_exact(10_000 + a + b);
    double::lemma_whole(10_000);
    double::lemma_whole(1_350);
    double::lemma_whole(2_000);
    double::lemma_whole(plugins as nat);
    double::lemma_whole(mcp as nat);
    double::lemma_whole(a);
    double::lemma_whole(b);
    double::lemma_whole_product(1_350 * o, plugins as nat);
    double::lemma_whole_product(2_000 * o, mcp as nat);
    assert((1_350 * o) * plugins == a * o) by (nonlinear_arith)
        requires
            a == 1_350 * plugins,
    ;
    assert((2_000 * o) * mcp == b * o) by (nonlinear_arith)
        requires
            b == 2_000 * mcp,
    ;
    double::lemma_whole_sum(10_000, a);
    double::lemma_whole_sum(10_000 + a, b);
    double::lemma_whole_rounded(10_000 + a + b);
}

/// A measurement follows the plugins: what is not due to them stays, and each of
/// them is worth what one was when it was taken.
pub proof fn rescaling_follows_the_plugins(each: nat, then: usize, now: usize)
    requires
        then > 0,
        then <= double::END,
        now <= double::END,
        now != then,
        10_000 + each * then <= double::END,
        10_000 + each * now <= double::END,
    ensures
        base_of(Some((10_000 + each * then) as u64), Some(then), now as nat, 0) == (
            (10_000 + each * now) as u64,
            "measured, rescaled for current plugin count"@,
        ),
{
    let o = double::one();
    let share = each * then as nat;
    let part = each * now as nat;
    let observed = (10_000 + each * then) as u64;
    assert(each <= share) by (nonlinear_arith)
        requires
            share == each * then,
            then > 0,
    ;
    double::lemma_two_to_positive(1_074);
    double::lemma_nearest_exact(10_000);
    double::lemma_nearest_exact(observed as nat);
    double::lemma_nearest_exact(then as nat);
    double::lemma_nearest_exact(now as nat);
    double::lemma_nearest_exact(share);
    double::lemma_nearest_exact(each);
    double::lemma_nearest_exact(part);
    double::lemma_nearest_exact(10_000 + part);
    double::lemma_whole(10_000);
    double::lemma_whole(observed as nat);
    double::lemma_whole(then as nat);
    double::lemma_whole(now as nat);
    double::lemma_whole(each);
    double::lemma_whole(part);
    double::lemma_whole_difference(observed as nat, 10_000);
    assert(0 * o == 0);
    assert(plugin_share(observed) == share * o);
    double::lemma_whole_quotient(share, then as nat);
    assert((share * o) * 1 == (each * o) * then) by (nonlinear_arith)
        requires
            share == each * then,
    ;
    double::lemma_nearest_ratio(share * o, then as nat, each * o, 1);
    double::lemma_whole_product(each * o, now as nat);
    assert((each * o) * now == part * o) by (nonlinear_arith)
        requires
            part == each * now,
    ;
    double::lemma_whole_sum(10_000, part);
    double::lemma_whole_rounded(10_000 + part);
}

/// A window is shown in whole millions or whole thousands of tokens.
pub proof fn windows_are_shown_rounded_down(n: u64, rest: u64)
    ensures
        n < 1_000 && rest < 1_000 ==> human_text((n * 1_000 + rest) as u64) == text::decimal(
            n as nat,
        ) + "k"@,
        1 <= n <= 1_000_000 && rest < 1_000_000 ==> human_text((n * 1_000_000 + rest) as u64)
            == text::decimal(n as nat) + "M"@,
{
}

/// The report has a line for each model, which calls it `OVER` exactly where its
/// window is smaller than the fixed part and the headroom together; advice
/// follows exactly where some model is.
#[verifier::rlimit(80)]
#[verifier::spinoff_prover]
pub proof fn report_calls_crowded_models_over(
    v: Seq<Slot>,
    plugins: nat,
    mcp: nat,
    base: u64,
    source: Seq<char>,
    headroom: u64,
    was_measured: bool,
    i: int,
)
    requires
        0 <= i < v.len(),
    ensures
        ({
            let r = report_text(v, plugins, mcp, base, source, headroom, was_measured);
            let crowded = |s: Slot| base + headroom > s.window;
            &&& crowded(v[i]) ==> text::begins(r[6 + i], "  [OVER] "@)
            &&& !crowded(v[i]) ==> text::begins(r[6 + i], "  [  ok] "@)
            &&& v.filter(crowded).len() == 0 <==> r.len() == 6 + v.len()
            &&& r[1] == "  enabled plugins : "@ + text::decimal(plugins)
            &&& r[2] == "  mcp servers     : "@ + text::decimal(mcp)
            &&& text::begins(r[3], "  base prompt     : ~"@ + text::decimal(base as nat))
        }),
{
    let crowded = |s: Slot| base + headroom > s.window;
    let r = report_text(v, plugins, mcp, base, source, headroom, was_measured);
    lemma_over_filter(v, base, headroom);
    let lines = model_lines(v, base, headroom);
    assert(r[6 + i] == lines[i]);
    let line = model_line(v[i], base, headroom);
    assert(lines[i] == line);
    reveal_strlit("  [OVER] ");
    reveal_strlit("  [  ok] ");
    reveal_strlit("  [");
    reveal_strlit("] ");
    reveal_strlit("OVER");
    reveal_strlit("ok");
    if crowded(v[i]) {
        assert(text::right_aligned("OVER"@, 4) == "OVER"@);
        assert(line.subrange(0, 9) =~= "  [OVER] "@);
    } else {
        assert(text::right_aligned("ok"@, 4) =~= seq![' ', ' ', 'o', 'k']);
        assert(line.subrange(0, 9) =~= "  [  ok] "@);
    }
    let head = "  base prompt     : ~"@ + text::decimal(base as nat);
    assert(r[3].subrange(0, head.len() as int) =~= head);
}

/// The report for machines is fine exactly where no model is over, and names the
/// roles of those that are.
pub proof fn machine_report_names_crowded_roles(
    v: Seq<Slot>,
    plugins: nat,
    mcp: nat,
    base: u64,
    source: Seq<char>,
    headroom: u64,
)
    ensures
        ({
            let m = report_tree(v, plugins, mcp, base, source, headroom)->Object_0;
            let crowded = v.filter(|s: Slot| base + headroom > s.window);
            &&& m.contains(("ok"@, JsonTree::Bool(crowded.len() == 0)))
            &&& m.contains(
                ("overBudget"@, JsonTree::Array(crowded.map_values(|s: Slot| JsonTree::Str(s.role)))),
            )
            &&& m.contains(("baseTokens"@, JsonTree::Number(text::decimal(base as nat))))
            &&& m.contains(("baseTokensSource"@, JsonTree::Str(source)))
            &&& m.contains(("enabledPlugins"@, JsonTree::Number(text::decimal(plugins))))
            &&& m.contains(("mcpServers"@, JsonTree::Number(text::decimal(mcp))))
            &&& m.contains(("headroom"@, JsonTree::Number(text::decimal(headroom as nat))))
        }),
{
    let m = report_tree(v, plugins, mcp, base, source, headroom)->Object_0;
    lemma_over_filter(v, base, headroom);
    let crowded = v.filter(|s: Slot| base + headroom > s.window);
    assert(role_trees(crowded) =~= crowded.map_values(|s: Slot| JsonTree::Str(s.role)));
    assert(m[0] == ("baseTokens"@, JsonTree::Number(text::decimal(base as nat))));
    assert(m[1] == ("baseTokensSource"@, JsonTree::Str(source)));
    assert(m[2] == ("enabledPlugins"@, JsonTree::Number(text::decimal(plugins))));
    assert(m[3] == ("headroom"@, JsonTree::Number(text::decimal(headroom as nat))));
    assert(m[4] == ("mcpServers"@, JsonTree::Number(text::decimal(mcp))));
    assert(m[6] == ("ok"@, JsonTree::Bool(crowded.len() == 0)));
    assert(m[7] == ("overBudget"@, JsonTree::Array(role_trees(crowded))));
}

/// Settings without a list of plugins, or of servers, count none.
pub proof fn nothing_configured_counts_nothing(settings: JsonTree, root: JsonTree)
    ensures
        !(json::member(settings, "enabledPlugins"@) matches Some(JsonTree::Object(_)))
            ==> plugins_in(settings) == 0,
        !(json::member(root, "mcpServers"@) matches Some(JsonTree::Object(_))) && !(json::member(
            root,
            "projects"@,
        ) matches Some(JsonTree::Object(_))) ==> mcp_in(root) == 0,
{
}

/// A measurement that was taken without plugins on record stands as it is,
/// whatever plugins there are now.
pub proof fn bare_measurements_stand(tokens: u64, plugins: nat, mcp: nat)
    ensures
        base_of(Some(tokens), None, plugins, mcp) == (tokens, "measured"@),
        base_of(Some(tokens), Some(0), plugins, mcp) == (tokens, "measured"@),
{
}

} // verus!
