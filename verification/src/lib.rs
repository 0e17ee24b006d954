//! Verified integer core of the `vckss` numerical backend: command memory
//! budgets, cooperative interruption, deterministic interruptible sorting,
//! worker-firm graph selection, and allocation forecasts.

pub mod allocation;
pub mod error;
pub mod generic_jla;
pub mod graph;
pub mod interrupt;
pub mod jla;
pub mod memory;
pub mod model_diagonal_queue;
pub mod problem;
pub mod sort;

use vstd::prelude::*;
use vstd::string::*;

use crate::error::{ErrorCode, Result};
use crate::graph::dfs::{
    connected_without, deletion_crosses, joined_without_unit, unit_step, unit_walk, walk_without,
};
use crate::graph::whole::{all_rows, match_certified_whole};
use crate::graph::{
    active_coordinates, coordinate_link, coordinates_of, connected, distinct_firms, is_walk, joins,
    lemma_active_coordinates_finite, row_coordinate, select_match_deletion_graph,
};
use crate::problem::CanonicalInput;

verus! {

/// Version of this backend.
pub const BACKEND_VERSION: &'static str = "0.1.0";

/// Version of the plugin ABI the backend speaks.
pub const ABI_VERSION: u32 = 1;

/// Identifier of the numerical contract.
pub const NUMERICAL_CONTRACT: &'static str = "VCKSS-RUST-NUMERICAL-V1";

/// Identifier of the receipt schema.
pub const RECEIPT_SCHEMA: &'static str = "VCKSS-RUST-RECEIPT-V1";

/// Identifier of the counter-based random number contract.
pub const COUNTER_RNG_CONTRACT: &'static str = "VCKSS-COUNTER-V1";

/// Identifier of the combinatorial multigrid baseline.
pub const CMG_BASELINE: &'static str = "VCKSS-CMG-API7-IMPROVED-BASELINE";

/// What this backend build can do.
#[derive(Clone, Copy, Debug, Eq, PartialEq, Structural)]
pub struct Capabilities {
    pub abi_version: u32,
    pub core_match_graph_ready: bool,
    pub core_exact_ready: bool,
    pub core_diagonal_pcg_ready: bool,
    pub core_batched_pcg_ready: bool,
    pub core_cmg_graph_ready: bool,
    pub core_solver_router_ready: bool,
    pub core_counter_rng_ready: bool,
    pub core_jla_plan_ready: bool,
    pub supports_exact: bool,
    pub supports_jla: bool,
    pub supports_match_deletion: bool,
    pub supports_observation_deletion: bool,
    pub supports_controls: bool,
    pub supports_diagonal: bool,
    pub supports_cmg: bool,
    pub deterministic_parallelism: bool,
}

/// The capabilities of this build: everything but the combinatorial multigrid solver.
pub open spec fn current_capabilities() -> Capabilities {
    Capabilities {
        abi_version: ABI_VERSION,
        core_match_graph_ready: true,
        core_exact_ready: true,
        core_diagonal_pcg_ready: true,
        core_batched_pcg_ready: true,
        core_cmg_graph_ready: true,
        core_solver_router_ready: true,
        core_counter_rng_ready: true,
        core_jla_plan_ready: true,
        supports_exact: true,
        supports_jla: true,
        supports_match_deletion: true,
        supports_observation_deletion: true,
        supports_controls: true,
        supports_diagonal: true,
        supports_cmg: false,
        deterministic_parallelism: true,
    }
}

/// The character of a decimal digit.
pub open spec fn digit_char(d: int) -> char {
    if d == 0 {
        '0'
    } else if d == 1 {
        '1'
    } else if d == 2 {
        '2'
    } else if d == 3 {
        '3'
    } else if d == 4 {
        '4'
    } else if d == 5 {
        '5'
    } else if d == 6 {
        '6'
    } else if d == 7 {
        '7'
    } else if d == 8 {
        '8'
    } else {
        '9'
    }
}

/// The decimal rendering of `n`, without leading zeros.
pub open spec fn decimal(n: nat) -> Seq<char>
    decreases n,
{
    if n < 10 {
        seq![digit_char(n as int)]
    } else {
        decimal(n / 10) + seq![digit_char((n % 10) as int)]
    }
}

/// The JSON rendering of a boolean.
pub open spec fn json_bool(b: bool) -> Seq<char> {
    if b {
        "true"@
    } else {
        "false"@
    }
}

/// The JSON object that describes `c`, with its fields in declaration order.
pub open spec fn capabilities_json(c: Capabilities) -> Seq<char> {
    "{\"abi_version\":"@ + decimal(c.abi_version as nat) + ",\"backend_version\":\""@
        + BACKEND_VERSION@ + "\",\"numerical_contract\":\""@ + NUMERICAL_CONTRACT@
        + "\",\"receipt_schema\":\""@ + RECEIPT_SCHEMA@ + "\",\"counter_rng_contract\":\""@
        + COUNTER_RNG_CONTRACT@ + "\",\"cmg_baseline\":\""@ + CMG_BASELINE@
        + "\",\"core_match_graph_ready\":"@ + json_bool(c.core_match_graph_ready)
        + ",\"core_exact_ready\":"@ + json_bool(c.core_exact_ready) + ",\"core_diagonal_pcg_ready\":"@
        + json_bool(c.core_diagonal_pcg_ready) + ",\"core_batched_pcg_ready\":"@ + json_bool(
        c.core_batched_pcg_ready,
    ) + ",\"core_cmg_graph_ready\":"@ + json_bool(c.core_cmg_graph_ready)
        + ",\"core_solver_router_ready\":"@ + json_bool(c.core_solver_router_ready)
        + ",\"core_counter_rng_ready\":"@ + json_bool(c.core_counter_rng_ready)
        + ",\"core_jla_plan_ready\":"@ + json_bool(c.core_jla_plan_ready) + ",\"supports_exact\":"@
        + json_bool(c.supports_exact) + ",\"supports_jla\":"@ + json_bool(c.supports_jla)
        + ",\"supports_match_deletion\":"@ + json_bool(c.supports_match_deletion)
        + ",\"supports_observation_deletion\":"@ + json_bool(c.supports_observation_deletion)
        + ",\"supports_controls\":"@ + json_bool(c.supports_controls) + ",\"supports_diagonal\":"@
        + json_bool(c.supports_diagonal) + ",\"supports_cmg\":"@ + json_bool(c.supports_cmg)
        + ",\"deterministic_parallelism\":"@ + json_bool(c.deterministic_parallelism) + "}"@
}

/// The one-character text of a decimal digit.
fn digit_text(d: u32) -> (s: &'static str)
    requires
        d < 10,
    ensures
        s@ == seq![digit_char(d as int)],
{
    if d == 0 {
        proof {
            reveal_strlit("0");
        }
        "0"
    } else if d == 1 {
        proof {
            reveal_strlit("1");
        }
        "1"
    } else if d == 2 {
        proof {
            reveal_strlit("2");
        }
        "2"
    } else if d == 3 {
        proof {
            reveal_strlit("3");
        }
        "3"
    } else if d == 4 {
        proof {
            reveal_strlit("4");
        }
        "4"
    } else if d == 5 {
        proof {
            reveal_strlit("5");
        }
        "5"
    } else if d == 6 {
        proof {
            reveal_strlit("6");
        }
        "6"
    } else if d == 7 {
        proof {
            reveal_strlit("7");
        }
        "7"
    } else if d == 8 {
        proof {
            reveal_strlit("8");
        }
        "8"
    } else {
        proof {
            reveal_strlit("9");
        }
        "9"
    }
}

/// Appends the decimal rendering of `value`.
fn append_decimal(out: &mut String, value: u32)
    ensures
        final(out)@ == old(out)@ + decimal(value as nat),
    decreases value,
{
    if value >= 10 {
        append_decimal(out, value / 10);
    }
    out.append(digit_text(value % 10));
    proof {
        if value >= 10 {
            assert(decimal(value as nat) == decimal((value / 10) as nat) + seq![digit_char((value % 10) as int)]);
        } else {
            assert(value % 10 == value);
        }
    }
}

/// Appends `true` or `false`.
fn append_bool(out: &mut String, value: bool)
    ensures
        final(out)@ == old(out)@ + json_bool(value),
{
    if value {
        out.append("true");
    } else {
        out.append("false");
    }
}

impl Capabilities {
    /// The capabilities of this build.
    pub fn current() -> (c: Self)
        ensures
            c == current_capabilities(),
    {
        Capabilities {
            abi_version: ABI_VERSION,
            core_match_graph_ready: true,
            core_exact_ready: true,
            core_diagonal_pcg_ready: true,
            core_batched_pcg_ready: true,
            core_cmg_graph_ready: true,
            core_solver_router_ready: true,
            core_counter_rng_ready: true,
            core_jla_plan_ready: true,
            supports_exact: true,
            supports_jla: true,
            supports_match_deletion: true,
            supports_observation_deletion: true,
            supports_controls: true,
            supports_diagonal: true,
            supports_cmg: false,
            deterministic_parallelism: true,
        }
    }

    /// The capabilities as one JSON object, fields in declaration order after
    /// the version identifiers.
    pub fn to_json(self) -> (s: String)
        ensures
            s@ == capabilities_json(self),
    {
        let mut out = String::from_str("{\"abi_version\":");
        append_decimal(&mut out, self.abi_version);
        out.append(",\"backend_version\":\"");
        out.append(BACKEND_VERSION);
        out.append("\",\"numerical_contract\":\"");
        out.append(NUMERICAL_CONTRACT);
        out.append("\",\"receipt_schema\":\"");
        out.append(RECEIPT_SCHEMA);
        out.append("\",\"counter_rng_contract\":\"");
        out.append(COUNTER_RNG_CONTRACT);
        out.append("\",\"cmg_baseline\":\"");
        out.append(CMG_BASELINE);
        out.append("\",\"core_match_graph_ready\":");
        append_bool(&mut out, self.core_match_graph_ready);
        out.append(",\"core_exact_ready\":");
        append_bool(&mut out, self.core_exact_ready);
        out.append(",\"core_diagonal_pcg_ready\":");
        append_bool(&mut out, self.core_diagonal_pcg_ready);
        out.append(",\"core_batched_pcg_ready\":");
        append_bool(&mut out, self.core_batched_pcg_ready);
        out.append(",\"core_cmg_graph_ready\":");
        append_bool(&mut out, self.core_cmg_graph_ready);
        out.append(",\"core_solver_router_ready\":");
        append_bool(&mut out, self.core_solver_router_ready);
        out.append(",\"core_counter_rng_ready\":");
        append_bool(&mut out, self.core_counter_rng_ready);
        out.append(",\"core_jla_plan_ready\":");
        append_bool(&mut out, self.core_jla_plan_ready);
        out.append(",\"supports_exact\":");
        append_bool(&mut out, self.supports_exact);
        out.append(",\"supports_jla\":");
        append_bool(&mut out, self.supports_jla);
        out.append(",\"supports_match_deletion\":");
        append_bool(&mut out, self.supports_match_deletion);
        out.append(",\"supports_observation_deletion\":");
        append_bool(&mut out, self.supports_observation_deletion);
        out.append(",\"supports_controls\":");
        append_bool(&mut out, self.supports_controls);
        out.append(",\"supports_diagonal\":");
        append_bool(&mut out, self.supports_diagonal);
        out.append(",\"supports_cmg\":");
        append_bool(&mut out, self.supports_cmg);
        out.append(",\"deterministic_parallelism\":");
        append_bool(&mut out, self.deterministic_parallelism);
        out.append("}");
        out
    }
}

/// `text` holds `key` immediately followed by `value`.
pub open spec fn renders_pair(text: Seq<char>, key: Seq<char>, value: Seq<char>) -> bool {
    exists|i: int|
        0 <= i && i + key.len() + value.len() <= text.len() && #[trigger] text.subrange(
            i,
            i + key.len() + value.len(),
        ) == key + value
}

/// A pair that a text holds, the text holds with anything after it.
pub proof fn lemma_pair_extends()
    ensures
        forall|t: Seq<char>, r: Seq<char>, key: Seq<char>, value: Seq<char>|
            renders_pair(t, key, value) ==> #[trigger] renders_pair(t + r, key, value),
{
    assert forall|t: Seq<char>, r: Seq<char>, key: Seq<char>, value: Seq<char>|
        renders_pair(t, key, value) implies #[trigger] renders_pair(t + r, key, value) by {
        let i = choose|i: int|
            0 <= i && i + key.len() + value.len() <= t.len() && #[trigger] t.subrange(
                i,
                i + key.len() + value.len(),
            ) == key + value;
        assert((t + r).subrange(i, i + key.len() + value.len()) =~= t.subrange(i, i + key.len() + value.len()));
    }
}

/// A text that ends with a lead, a key and a value holds that pair.
pub proof fn lemma_pair_base(before: Seq<char>, lead: Seq<char>, key: Seq<char>, value: Seq<char>)
    ensures
        renders_pair(before + (lead + key) + value, key, value),
{
    let t = before + (lead + key) + value;
    let i: int = (before.len() + lead.len()) as int;
    assert(t.subrange(i, i + key.len() + value.len()) =~= key + value);
}


/// The description renders `abi_version` under its name.
proof fn lemma_json_renders_abi_version(c: Capabilities)
    ensures
        renders_pair(capabilities_json(c), "\"abi_version\":"@, decimal(c.abi_version as nat)),
{
    lemma_pair_extends();
    reveal_strlit("{\"abi_version\":");
    reveal_strlit("{");
    reveal_strlit("\"abi_version\":");
    assert("{\"abi_version\":"@ =~= "{"@ + "\"abi_version\":"@);
    lemma_pair_base(Seq::empty(), "{"@, "\"abi_version\":"@, decimal(c.abi_version as nat));
    assert(Seq::<char>::empty() + "{\"abi_version\":"@ =~= "{\"abi_version\":"@);
}

/// The description renders `core_match_graph_ready` under its name.
proof fn lemma_json_renders_core_match_graph_ready(c: Capabilities)
    ensures
        renders_pair(capabilities_json(c), "\"core_match_graph_ready\":"@, json_bool(c.core_match_graph_ready)),
{
    lemma_pair_extends();
    reveal_strlit("\",\"core_match_graph_ready\":");
    reveal_strlit("\",");
    reveal_strlit("\"core_match_graph_ready\":");
    assert("\",\"core_match_graph_ready\":"@ =~= "\","@ + "\"core_match_graph_ready\":"@);
    lemma_pair_base("{\"abi_version\":"@ + decimal(c.abi_version as nat) + ",\"backend_version\":\""@ + BACKEND_VERSION@ + "\",\"numerical_contract\":\""@ + NUMERICAL_CONTRACT@ + "\",\"receipt_schema\":\""@ + RECEIPT_SCHEMA@ + "\",\"counter_rng_contract\":\""@ + COUNTER_RNG_CONTRACT@ + "\",\"cmg_baseline\":\""@ + CMG_BASELINE@, "\","@, "\"core_match_graph_ready\":"@, json_bool(c.core_match_graph_ready));
}

/// The description renders `core_exact_ready` under its name.
proof fn lemma_json_renders_core_exact_ready(c: Capabilities)
    ensures
        renders_pair(capabilities_json(c), "\"core_exact_ready\":"@, json_bool(c.core_exact_ready)),
{
    lemma_pair_extends();
    reveal_strlit(",\"core_exact_ready\":");
    reveal_strlit(",");
    reveal_strlit("\"core_exact_ready\":");
    assert(",\"core_exact_ready\":"@ =~= ","@ + "\"core_exact_ready\":"@);
    lemma_pair_base("{\"abi_version\":"@ + decimal(c.abi_version as nat) + ",\"backend_version\":\""@ + BACKEND_VERSION@ + "\",\"numerical_contract\":\""@ + NUMERICAL_CONTRACT@ + "\",\"receipt_schema\":\""@ + RECEIPT_SCHEMA@ + "\",\"counter_rng_contract\":\""@ + COUNTER_RNG_CONTRACT@ + "\",\"cmg_baseline\":\""@ + CMG_BASELINE@ + "\",\"core_match_graph_ready\":"@ + json_bool(c.core_match_graph_ready), ","@, "\"core_exact_ready\":"@, json_bool(c.core_exact_ready));
}

/// The description renders `core_diagonal_pcg_ready` under its name.
proof fn lemma_json_renders_core_diagonal_pcg_ready(c: Capabilities)
    ensures
        renders_pair(capabilities_json(c), "\"core_diagonal_pcg_ready\":"@, json_bool(c.core_diagonal_pcg_ready)),
{
    lemma_pair_extends();
    reveal_strlit(",\"core_diagonal_pcg_ready\":");
    reveal_strlit(",");
    reveal_strlit("\"core_diagonal_pcg_ready\":");
    assert(",\"core_diagonal_pcg_ready\":"@ =~= ","@ + "\"core_diagonal_pcg_ready\":"@);
    lemma_pair_base("{\"abi_version\":"@ + decimal(c.abi_version as nat) + ",\"backend_version\":\""@ + BACKEND_VERSION@ + "\",\"numerical_contract\":\""@ + NUMERICAL_CONTRACT@ + "\",\"receipt_schema\":\""@ + RECEIPT_SCHEMA@ + "\",\"counter_rng_contract\":\""@ + COUNTER_RNG_CONTRACT@ + "\",\"cmg_baseline\":\""@ + CMG_BASELINE@ + "\",\"core_match_graph_ready\":"@ + json_bool(c.core_match_graph_ready) + ",\"core_exact_ready\":"@ + json_bool(c.core_exact_ready), ","@, "\"core_diagonal_pcg_ready\":"@, json_bool(c.core_diagonal_pcg_ready));
}

/// The description renders `core_batched_pcg_ready` under its name.
proof fn lemma_json_renders_core_batched_pcg_ready(c: Capabilities)
    ensures
        renders_pair(capabilities_json(c), "\"core_batched_pcg_ready\":"@, json_bool(c.core_batched_pcg_ready)),
{
    lemma_pair_extends();
    reveal_strlit(",\"core_batched_pcg_ready\":");
    reveal_strlit(",");
    reveal_strlit("\"core_batched_pcg_ready\":");
    assert(",\"core_batched_pcg_ready\":"@ =~= ","@ + "\"core_batched_pcg_ready\":"@);
    lemma_pair_base("{\"abi_version\":"@ + decimal(c.abi_version as nat) + ",\"backend_version\":\""@ + BACKEND_VERSION@ + "\",\"numerical_contract\":\""@ + NUMERICAL_CONTRACT@ + "\",\"receipt_schema\":\""@ + RECEIPT_SCHEMA@ + "\",\"counter_rng_contract\":\""@ + COUNTER_RNG_CONTRACT@ + "\",\"cmg_baseline\":\""@ + CMG_BASELINE@ + "\",\"core_match_graph_ready\":"@ + json_bool(c.core_match_graph_ready) + ",\"core_exact_ready\":"@ + json_bool(c.core_exact_ready) + ",\"core_diagonal_pcg_ready\":"@ + json_bool(c.core_diagonal_pcg_ready), ","@, "\"core_batched_pcg_ready\":"@, json_bool(c.core_batched_pcg_ready));
}

/// The description renders `core_cmg_graph_ready` under its name.
proof fn lemma_json_renders_core_cmg_graph_ready(c: Capabilities)
    ensures
        renders_pair(capabilities_json(c), "\"core_cmg_graph_ready\":"@, json_bool(c.core_cmg_graph_ready)),
{
    lemma_pair_extends();
    reveal_strlit(",\"core_cmg_graph_ready\":");
    reveal_strlit(",");
    reveal_strlit("\"core_cmg_graph_ready\":");
    assert(",\"core_cmg_graph_ready\":"@ =~= ","@ + "\"core_cmg_graph_ready\":"@);
    lemma_pair_base("{\"abi_version\":"@ + decimal(c.abi_version as nat) + ",\"backend_version\":\""@ + BACKEND_VERSION@ + "\",\"numerical_contract\":\""@ + NUMERICAL_CONTRACT@ + "\",\"receipt_schema\":\""@ + RECEIPT_SCHEMA@ + "\",\"counter_rng_contract\":\""@ + COUNTER_RNG_CONTRACT@ + "\",\"cmg_baseline\":\""@ + CMG_BASELINE@ + "\",\"core_match_graph_ready\":"@ + json_bool(c.core_match_graph_ready) + ",\"core_exact_ready\":"@ + json_bool(c.core_exact_ready) + ",\"core_diagonal_pcg_ready\":"@ + json_bool(c.core_diagonal_pcg_ready) + ",\"core_batched_pcg_ready\":"@ + json_bool(c.core_batched_pcg_ready), ","@, "\"core_cmg_graph_ready\":"@, json_bool(c.core_cmg_graph_ready));
}

/// The description renders `core_solver_router_ready` under its name.
proof fn lemma_json_renders_core_solver_router_ready(c: Capabilities)
    ensures
        renders_pair(capabilities_json(c), "\"core_solver_router_ready\":"@, json_bool(c.core_solver_router_ready)),
{
    lemma_pair_extends();
    reveal_strlit(",\"core_solver_router_ready\":");
    reveal_strlit(",");
    reveal_strlit("\"core_solver_router_ready\":");
    assert(",\"core_solver_router_ready\":"@ =~= ","@ + "\"core_solver_router_ready\":"@);
    lemma_pair_base("{\"abi_version\":"@ + decimal(c.abi_version as nat) + ",\"backend_version\":\""@ + BACKEND_VERSION@ + "\",\"numerical_contract\":\""@ + NUMERICAL_CONTRACT@ + "\",\"receipt_schema\":\""@ + RECEIPT_SCHEMA@ + "\",\"counter_rng_contract\":\""@ + COUNTER_RNG_CONTRACT@ + "\",\"cmg_baseline\":\""@ + CMG_BASELINE@ + "\",\"core_match_graph_ready\":"@ + json_bool(c.core_match_graph_ready) + ",\"core_exact_ready\":"@ + json_bool(c.core_exact_ready) + ",\"core_diagonal_pcg_ready\":"@ + json_bool(c.core_diagonal_pcg_ready) + ",\"core_batched_pcg_ready\":"@ + json_bool(c.core_batched_pcg_ready) + ",\"core_cmg_graph_ready\":"@ + json_bool(c.core_cmg_graph_ready), ","@, "\"core_solver_router_ready\":"@, json_bool(c.core_solver_router_ready));
}

/// The description renders `core_counter_rng_ready` under its name.
proof fn lemma_json_renders_core_counter_rng_ready(c: Capabilities)
    ensures
        renders_pair(capabilities_json(c), "\"core_counter_rng_ready\":"@, json_bool(c.core_counter_rng_ready)),
{
    lemma_pair_extends();
    reveal_strlit(",\"core_counter_rng_ready\":");
    reveal_strlit(",");
    reveal_strlit("\"core_counter_rng_ready\":");
    assert(",\"core_counter_rng_ready\":"@ =~= ","@ + "\"core_counter_rng_ready\":"@);
    lemma_pair_base("{\"abi_version\":"@ + decimal(c.abi_version as nat) + ",\"backend_version\":\""@ + BACKEND_VERSION@ + "\",\"numerical_contract\":\""@ + NUMERICAL_CONTRACT@ + "\",\"receipt_schema\":\""@ + RECEIPT_SCHEMA@ + "\",\"counter_rng_contract\":\""@ + COUNTER_RNG_CONTRACT@ + "\",\"cmg_baseline\":\""@ + CMG_BASELINE@ + "\",\"core_match_graph_ready\":"@ + json_bool(c.core_match_graph_ready) + ",\"core_exact_ready\":"@ + json_bool(c.core_exact_ready) + ",\"core_diagonal_pcg_ready\":"@ + json_bool(c.core_diagonal_pcg_ready) + ",\"core_batched_pcg_ready\":"@ + json_bool(c.core_batched_pcg_ready) + ",\"core_cmg_graph_ready\":"@ + json_bool(c.core_cmg_graph_ready) + ",\"core_solver_router_ready\":"@ + json_bool(c.core_solver_router_ready), ","@, "\"core_counter_rng_ready\":"@, json_bool(c.core_counter_rng_ready));
}

/// The description renders `core_jla_plan_ready` under its name.
proof fn lemma_json_renders_core_jla_plan_ready(c: Capabilities)
    ensures
        renders_pair(capabilities_json(c), "\"core_jla_plan_ready\":"@, json_bool(c.core_jla_plan_ready)),
{
    lemma_pair_extends();
    reveal_strlit(",\"core_jla_plan_ready\":");
    reveal_strlit(",");
    reveal_strlit("\"core_jla_plan_ready\":");
    assert(",\"core_jla_plan_ready\":"@ =~= ","@ + "\"core_jla_plan_ready\":"@);
    lemma_pair_base("{\"abi_version\":"@ + decimal(c.abi_version as nat) + ",\"backend_version\":\""@ + BACKEND_VERSION@ + "\",\"numerical_contract\":\""@ + NUMERICAL_CONTRACT@ + "\",\"receipt_schema\":\""@ + RECEIPT_SCHEMA@ + "\",\"counter_rng_contract\":\""@ + COUNTER_RNG_CONTRACT@ + "\",\"cmg_baseline\":\""@ + CMG_BASELINE@ + "\",\"core_match_graph_ready\":"@ + json_bool(c.core_match_graph_ready) + ",\"core_exact_ready\":"@ + json_bool(c.core_exact_ready) + ",\"core_diagonal_pcg_ready\":"@ + json_bool(c.core_diagonal_pcg_ready) + ",\"core_batched_pcg_ready\":"@ + json_bool(c.core_batched_pcg_ready) + ",\"core_cmg_graph_ready\":"@ + json_bool(c.core_cmg_graph_ready) + ",\"core_solver_router_ready\":"@ + json_bool(c.core_solver_router_ready) + ",\"core_counter_rng_ready\":"@ + json_bool(c.core_counter_rng_ready), ","@, "\"core_jla_plan_ready\":"@, json_bool(c.core_jla_plan_ready));
}

/// The description renders `supports_exact` under its name.
proof fn lemma_json_renders_supports_exact(c: Capabilities)
    ensures
        renders_pair(capabilities_json(c), "\"supports_exact\":"@, json_bool(c.supports_exact)),
{
    lemma_pair_extends();
    reveal_strlit(",\"supports_exact\":");
    reveal_strlit(",");
    reveal_strlit("\"supports_exact\":");
    assert(",\"supports_exact\":"@ =~= ","@ + "\"supports_exact\":"@);
    lemma_pair_base("{\"abi_version\":"@ + decimal(c.abi_version as nat) + ",\"backend_version\":\""@ + BACKEND_VERSION@ + "\",\"numerical_contract\":\""@ + NUMERICAL_CONTRACT@ + "\",\"receipt_schema\":\""@ + RECEIPT_SCHEMA@ + "\",\"counter_rng_contract\":\""@ + COUNTER_RNG_CONTRACT@ + "\",\"cmg_baseline\":\""@ + CMG_BASELINE@ + "\",\"core_match_graph_ready\":"@ + json_bool(c.core_match_graph_ready) + ",\"core_exact_ready\":"@ + json_bool(c.core_exact_ready) + ",\"core_diagonal_pcg_ready\":"@ + json_bool(c.core_diagonal_pcg_ready) + ",\"core_batched_pcg_ready\":"@ + json_bool(c.core_batched_pcg_ready) + ",\"core_cmg_graph_ready\":"@ + json_bool(c.core_cmg_graph_ready) + ",\"core_solver_router_ready\":"@ + json_bool(c.core_solver_router_ready) + ",\"core_counter_rng_ready\":"@ + json_bool(c.core_counter_rng_ready) + ",\"core_jla_plan_ready\":"@ + json_bool(c.core_jla_plan_ready), ","@, "\"supports_exact\":"@, json_bool(c.supports_exact));
}

/// The description renders `supports_jla` under its name.
proof fn lemma_json_renders_supports_jla(c: Capabilities)
    ensures
        renders_pair(capabilities_json(c), "\"supports_jla\":"@, json_bool(c.supports_jla)),
{
    lemma_pair_extends();
    reveal_strlit(",\"supports_jla\":");
    reveal_strlit(",");
    reveal_strlit("\"supports_jla\":");
    assert(",\"supports_jla\":"@ =~= ","@ + "\"supports_jla\":"@);
    lemma_pair_base("{\"abi_version\":"@ + decimal(c.abi_version as nat) + ",\"backend_version\":\""@ + BACKEND_VERSION@ + "\",\"numerical_contract\":\""@ + NUMERICAL_CONTRACT@ + "\",\"receipt_schema\":\""@ + RECEIPT_SCHEMA@ + "\",\"counter_rng_contract\":\""@ + COUNTER_RNG_CONTRACT@ + "\",\"cmg_baseline\":\""@ + CMG_BASELINE@ + "\",\"core_match_graph_ready\":"@ + json_bool(c.core_match_graph_ready) + ",\"core_exact_ready\":"@ + json_bool(c.core_exact_ready) + ",\"core_diagonal_pcg_ready\":"@ + json_bool(c.core_diagonal_pcg_ready) + ",\"core_batched_pcg_ready\":"@ + json_bool(c.core_batched_pcg_ready) + ",\"core_cmg_graph_ready\":"@ + json_bool(c.core_cmg_graph_ready) + ",\"core_solver_router_ready\":"@ + json_bool(c.core_solver_router_ready) + ",\"core_counter_rng_ready\":"@ + json_bool(c.core_counter_rng_ready) + ",\"core_jla_plan_ready\":"@ + json_bool(c.core_jla_plan_ready) + ",\"supports_exact\":"@ + json_bool(c.supports_exact), ","@, "\"supports_jla\":"@, json_bool(c.supports_jla));
}

/// The description renders `supports_match_deletion` under its name.
proof fn lemma_json_renders_supports_match_deletion(c: Capabilities)
    ensures
        renders_pair(capabilities_json(c), "\"supports_match_deletion\":"@, json_bool(c.supports_match_deletion)),
{
    lemma_pair_extends();
    reveal_strlit(",\"supports_match_deletion\":");
    reveal_strlit(",");
    reveal_strlit("\"supports_match_deletion\":");
    assert(",\"supports_match_deletion\":"@ =~= ","@ + "\"supports_match_deletion\":"@);
    lemma_pair_base("{\"abi_version\":"@ + decimal(c.abi_version as nat) + ",\"backend_version\":\""@ + BACKEND_VERSION@ + "\",\"numerical_contract\":\""@ + NUMERICAL_CONTRACT@ + "\",\"receipt_schema\":\""@ + RECEIPT_SCHEMA@ + "\",\"counter_rng_contract\":\""@ + COUNTER_RNG_CONTRACT@ + "\",\"cmg_baseline\":\""@ + CMG_BASELINE@ + "\",\"core_match_graph_ready\":"@ + json_bool(c.core_match_graph_ready) + ",\"core_exact_ready\":"@ + json_bool(c.core_exact_ready) + ",\"core_diagonal_pcg_ready\":"@ + json_bool(c.core_diagonal_pcg_ready) + ",\"core_batched_pcg_ready\":"@ + json_bool(c.core_batched_pcg_ready) + ",\"core_cmg_graph_ready\":"@ + json_bool(c.core_cmg_graph_ready) + ",\"core_solver_router_ready\":"@ + json_bool(c.core_solver_router_ready) + ",\"core_counter_rng_ready\":"@ + json_bool(c.core_counter_rng_ready) + ",\"core_jla_plan_ready\":"@ + json_bool(c.core_jla_plan_ready) + ",\"supports_exact\":"@ + json_bool(c.supports_exact) + ",\"supports_jla\":"@ + json_bool(c.supports_jla), ","@, "\"supports_match_deletion\":"@, json_bool(c.supports_match_deletion));
}

/// The description renders `supports_observation_deletion` under its name.
proof fn lemma_json_renders_supports_observation_deletion(c: Capabilities)
    ensures
        renders_pair(capabilities_json(c), "\"supports_observation_deletion\":"@, json_bool(c.supports_observation_deletion)),
{
    lemma_pair_extends();
    reveal_strlit(",\"supports_observation_deletion\":");
    reveal_strlit(",");
    reveal_strlit("\"supports_observation_deletion\":");
    assert(",\"supports_observation_deletion\":"@ =~= ","@ + "\"supports_observation_deletion\":"@);
    lemma_pair_base("{\"abi_version\":"@ + decimal(c.abi_version as nat) + ",\"backend_version\":\""@ + BACKEND_VERSION@ + "\",\"numerical_contract\":\""@ + NUMERICAL_CONTRACT@ + "\",\"receipt_schema\":\""@ + RECEIPT_SCHEMA@ + "\",\"counter_rng_contract\":\""@ + COUNTER_RNG_CONTRACT@ + "\",\"cmg_baseline\":\""@ + CMG_BASELINE@ + "\",\"core_match_graph_ready\":"@ + json_bool(c.core_match_graph_ready) + ",\"core_exact_ready\":"@ + json_bool(c.core_exact_ready) + ",\"core_diagonal_pcg_ready\":"@ + json_bool(c.core_diagonal_pcg_ready) + ",\"core_batched_pcg_ready\":"@ + json_bool(c.core_batched_pcg_ready) + ",\"core_cmg_graph_ready\":"@ + json_bool(c.core_cmg_graph_ready) + ",\"core_solver_router_ready\":"@ + json_bool(c.core_solver_router_ready) + ",\"core_counter_rng_ready\":"@ + json_bool(c.core_counter_rng_ready) + ",\"core_jla_plan_ready\":"@ + json_bool(c.core_jla_plan_ready) + ",\"supports_exact\":"@ + json_bool(c.supports_exact) + ",\"supports_jla\":"@ + json_bool(c.supports_jla) + ",\"supports_match_deletion\":"@ + json_bool(c.supports_match_deletion), ","@, "\"supports_observation_deletion\":"@, json_bool(c.supports_observation_deletion));
}

/// The description renders `supports_controls` under its name.
proof fn lemma_json_renders_supports_controls(c: Capabilities)
    ensures
        renders_pair(capabilities_json(c), "\"supports_controls\":"@, json_bool(c.supports_controls)),
{
    lemma_pair_extends();
    reveal_strlit(",\"supports_controls\":");
    reveal_strlit(",");
    reveal_strlit("\"supports_controls\":");
    assert(",\"supports_controls\":"@ =~= ","@ + "\"supports_controls\":"@);
    lemma_pair_base("{\"abi_version\":"@ + decimal(c.abi_version as nat) + ",\"backend_version\":\""@ + BACKEND_VERSION@ + "\",\"numerical_contract\":\""@ + NUMERICAL_CONTRACT@ + "\",\"receipt_schema\":\""@ + RECEIPT_SCHEMA@ + "\",\"counter_rng_contract\":\""@ + COUNTER_RNG_CONTRACT@ + "\",\"cmg_baseline\":\""@ + CMG_BASELINE@ + "\",\"core_match_graph_ready\":"@ + json_bool(c.core_match_graph_ready) + ",\"core_exact_ready\":"@ + json_bool(c.core_exact_ready) + ",\"core_diagonal_pcg_ready\":"@ + json_bool(c.core_diagonal_pcg_ready) + ",\"core_batched_pcg_ready\":"@ + json_bool(c.core_batched_pcg_ready) + ",\"core_cmg_graph_ready\":"@ + json_bool(c.core_cmg_graph_ready) + ",\"core_solver_router_ready\":"@ + json_bool(c.core_solver_router_ready) + ",\"core_counter_rng_ready\":"@ + json_bool(c.core_counter_rng_ready) + ",\"core_jla_plan_ready\":"@ + json_bool(c.core_jla_plan_ready) + ",\"supports_exact\":"@ + json_bool(c.supports_exact) + ",\"supports_jla\":"@ + json_bool(c.supports_jla) + ",\"supports_match_deletion\":"@ + json_bool(c.supports_match_deletion) + ",\"supports_observation_deletion\":"@ + json_bool(c.supports_observation_deletion), ","@, "\"supports_controls\":"@, json_bool(c.supports_controls));
}

/// The description renders `supports_diagonal` under its name.
proof fn lemma_json_renders_supports_diagonal(c: Capabilities)
    ensures
        renders_pair(capabilities_json(c), "\"supports_diagonal\":"@, json_bool(c.supports_diagonal)),
{
    lemma_pair_extends();
    reveal_strlit(",\"supports_diagonal\":");
    reveal_strlit(",");
    reveal_strlit("\"supports_diagonal\":");
    assert(",\"supports_diagonal\":"@ =~= ","@ + "\"supports_diagonal\":"@);
    lemma_pair_base("{\"abi_version\":"@ + decimal(c.abi_version as nat) + ",\"backend_version\":\""@ + BACKEND_VERSION@ + "\",\"numerical_contract\":\""@ + NUMERICAL_CONTRACT@ + "\",\"receipt_schema\":\""@ + RECEIPT_SCHEMA@ + "\",\"counter_rng_contract\":\""@ + COUNTER_RNG_CONTRACT@ + "\",\"cmg_baseline\":\""@ + CMG_BASELINE@ + "\",\"core_match_graph_ready\":"@ + json_bool(c.core_match_graph_ready) + ",\"core_exact_ready\":"@ + json_bool(c.core_exact_ready) + ",\"core_diagonal_pcg_ready\":"@ + json_bool(c.core_diagonal_pcg_ready) + ",\"core_batched_pcg_ready\":"@ + json_bool(c.core_batched_pcg_ready) + ",\"core_cmg_graph_ready\":"@ + json_bool(c.core_cmg_graph_ready) + ",\"core_solver_router_ready\":"@ + json_bool(c.core_solver_router_ready) + ",\"core_counter_rng_ready\":"@ + json_bool(c.core_counter_rng_ready) + ",\"core_jla_plan_ready\":"@ + json_bool(c.core_jla_plan_ready) + ",\"supports_exact\":"@ + json_bool(c.supports_exact) + ",\"supports_jla\":"@ + json_bool(c.supports_jla) + ",\"supports_match_deletion\":"@ + json_bool(c.supports_match_deletion) + ",\"supports_observation_deletion\":"@ + json_bool(c.supports_observation_deletion) + ",\"supports_controls\":"@ + json_bool(c.supports_controls), ","@, "\"supports_diagonal\":"@, json_bool(c.supports_diagonal));
}

/// The description renders `supports_cmg` under its name.
proof fn lemma_json_renders_supports_cmg(c: Capabilities)
    ensures
        renders_pair(capabilities_json(c), "\"supports_cmg\":"@, json_bool(c.supports_cmg)),
{
    lemma_pair_extends();
    reveal_strlit(",\"supports_cmg\":");
    reveal_strlit(",");
    reveal_strlit("\"supports_cmg\":");
    assert(",\"supports_cmg\":"@ =~= ","@ + "\"supports_cmg\":"@);
    lemma_pair_base("{\"abi_version\":"@ + decimal(c.abi_version as nat) + ",\"backend_version\":\""@ + BACKEND_VERSION@ + "\",\"numerical_contract\":\""@ + NUMERICAL_CONTRACT@ + "\",\"receipt_schema\":\""@ + RECEIPT_SCHEMA@ + "\",\"counter_rng_contract\":\""@ + COUNTER_RNG_CONTRACT@ + "\",\"cmg_baseline\":\""@ + CMG_BASELINE@ + "\",\"core_match_graph_ready\":"@ + json_bool(c.core_match_graph_ready) + ",\"core_exact_ready\":"@ + json_bool(c.core_exact_ready) + ",\"core_diagonal_pcg_ready\":"@ + json_bool(c.core_diagonal_pcg_ready) + ",\"core_batched_pcg_ready\":"@ + json_bool(c.core_batched_pcg_ready) + ",\"core_cmg_graph_ready\":"@ + json_bool(c.core_cmg_graph_ready) + ",\"core_solver_router_ready\":"@ + json_bool(c.core_solver_router_ready) + ",\"core_counter_rng_ready\":"@ + json_bool(c.core_counter_rng_ready) + ",\"core_jla_plan_ready\":"@ + json_bool(c.core_jla_plan_ready) + ",\"supports_exact\":"@ + json_bool(c.supports_exact) + ",\"supports_jla\":"@ + json_bool(c.supports_jla) + ",\"supports_match_deletion\":"@ + json_bool(c.supports_match_deletion) + ",\"supports_observation_deletion\":"@ + json_bool(c.supports_observation_deletion) + ",\"supports_controls\":"@ + json_bool(c.supports_controls) + ",\"supports_diagonal\":"@ + json_bool(c.supports_diagonal), ","@, "\"supports_cmg\":"@, json_bool(c.supports_cmg));
}

/// The description renders `deterministic_parallelism` under its name.
proof fn lemma_json_renders_deterministic_parallelism(c: Capabilities)
    ensures
        renders_pair(capabilities_json(c), "\"deterministic_parallelism\":"@, json_bool(c.deterministic_parallelism)),
{
    lemma_pair_extends();
    reveal_strlit(",\"deterministic_parallelism\":");
    reveal_strlit(",");
    reveal_strlit("\"deterministic_parallelism\":");
    assert(",\"deterministic_parallelism\":"@ =~= ","@ + "\"deterministic_parallelism\":"@);
    lemma_pair_base("{\"abi_version\":"@ + decimal(c.abi_version as nat) + ",\"backend_version\":\""@ + BACKEND_VERSION@ + "\",\"numerical_contract\":\""@ + NUMERICAL_CONTRACT@ + "\",\"receipt_schema\":\""@ + RECEIPT_SCHEMA@ + "\",\"counter_rng_contract\":\""@ + COUNTER_RNG_CONTRACT@ + "\",\"cmg_baseline\":\""@ + CMG_BASELINE@ + "\",\"core_match_graph_ready\":"@ + json_bool(c.core_match_graph_ready) + ",\"core_exact_ready\":"@ + json_bool(c.core_exact_ready) + ",\"core_diagonal_pcg_ready\":"@ + json_bool(c.core_diagonal_pcg_ready) + ",\"core_batched_pcg_ready\":"@ + json_bool(c.core_batched_pcg_ready) + ",\"core_cmg_graph_ready\":"@ + json_bool(c.core_cmg_graph_ready) + ",\"core_solver_router_ready\":"@ + json_bool(c.core_solver_router_ready) + ",\"core_counter_rng_ready\":"@ + json_bool(c.core_counter_rng_ready) + ",\"core_jla_plan_ready\":"@ + json_bool(c.core_jla_plan_ready) + ",\"supports_exact\":"@ + json_bool(c.supports_exact) + ",\"supports_jla\":"@ + json_bool(c.supports_jla) + ",\"supports_match_deletion\":"@ + json_bool(c.supports_match_deletion) + ",\"supports_observation_deletion\":"@ + json_bool(c.supports_observation_deletion) + ",\"supports_controls\":"@ + json_bool(c.supports_controls) + ",\"supports_diagonal\":"@ + json_bool(c.supports_diagonal) + ",\"supports_cmg\":"@ + json_bool(c.supports_cmg), ","@, "\"deterministic_parallelism\":"@, json_bool(c.deterministic_parallelism));
}

/// The JSON description renders every field of the capabilities under its own
/// name: the name in quotes and a colon, then that field's value.
pub proof fn law_capabilities_json_fields(c: Capabilities)
    ensures
        renders_pair(capabilities_json(c), "\"abi_version\":"@, decimal(c.abi_version as nat)),
        renders_pair(capabilities_json(c), "\"core_match_graph_ready\":"@, json_bool(c.core_match_graph_ready)),
        renders_pair(capabilities_json(c), "\"core_exact_ready\":"@, json_bool(c.core_exact_ready)),
        renders_pair(capabilities_json(c), "\"core_diagonal_pcg_ready\":"@, json_bool(c.core_diagonal_pcg_ready)),
        renders_pair(capabilities_json(c), "\"core_batched_pcg_ready\":"@, json_bool(c.core_batched_pcg_ready)),
        renders_pair(capabilities_json(c), "\"core_cmg_graph_ready\":"@, json_bool(c.core_cmg_graph_ready)),
        renders_pair(capabilities_json(c), "\"core_solver_router_ready\":"@, json_bool(c.core_solver_router_ready)),
        renders_pair(capabilities_json(c), "\"core_counter_rng_ready\":"@, json_bool(c.core_counter_rng_ready)),
        renders_pair(capabilities_json(c), "\"core_jla_plan_ready\":"@, json_bool(c.core_jla_plan_ready)),
        renders_pair(capabilities_json(c), "\"supports_exact\":"@, json_bool(c.supports_exact)),
        renders_pair(capabilities_json(c), "\"supports_jla\":"@, json_bool(c.supports_jla)),
        renders_pair(capabilities_json(c), "\"supports_match_deletion\":"@, json_bool(c.supports_match_deletion)),
        renders_pair(capabilities_json(c), "\"supports_observation_deletion\":"@, json_bool(c.supports_observation_deletion)),
        renders_pair(capabilities_json(c), "\"supports_controls\":"@, json_bool(c.supports_controls)),
        renders_pair(capabilities_json(c), "\"supports_diagonal\":"@, json_bool(c.supports_diagonal)),
        renders_pair(capabilities_json(c), "\"supports_cmg\":"@, json_bool(c.supports_cmg)),
        renders_pair(capabilities_json(c), "\"deterministic_parallelism\":"@, json_bool(c.deterministic_parallelism)),
{
    lemma_json_renders_abi_version(c);
    lemma_json_renders_core_match_graph_ready(c);
    lemma_json_renders_core_exact_ready(c);
    lemma_json_renders_core_diagonal_pcg_ready(c);
    lemma_json_renders_core_batched_pcg_ready(c);
    lemma_json_renders_core_cmg_graph_ready(c);
    lemma_json_renders_core_solver_router_ready(c);
    lemma_json_renders_core_counter_rng_ready(c);
    lemma_json_renders_core_jla_plan_ready(c);
    lemma_json_renders_supports_exact(c);
    lemma_json_renders_supports_jla(c);
    lemma_json_renders_supports_match_deletion(c);
    lemma_json_renders_supports_observation_deletion(c);
    lemma_json_renders_supports_controls(c);
    lemma_json_renders_supports_diagonal(c);
    lemma_json_renders_supports_cmg(c);
    lemma_json_renders_deterministic_parallelism(c);
}

/// The complete two-by-two design: worker `w` meets firm `f` in row `2w + f`,
/// and every row is its own deletion unit.
spec fn is_two_by_two(input: &CanonicalInput) -> bool {
    &&& input.spec_worker() == seq![0u32, 0, 1, 1]
    &&& input.spec_firm() == seq![0u32, 1, 0, 1]
    &&& input.spec_deletion() == seq![0u32, 1, 2, 3]
    &&& input.spec_workers() == 2
}

/// In the two-by-two design every worker node is joined to every firm node.
proof fn lemma_two_by_two_links(input: &CanonicalInput)
    requires
        is_two_by_two(input),
    ensures
        forall|w: int, f: int|
            #![trigger coordinate_link(input, all_rows(input), w, f)]
            #![trigger coordinate_link(input, all_rows(input), f, w)]
            0 <= w < 2 && 2 <= f < 4 ==> coordinate_link(input, all_rows(input), w, f)
                && coordinate_link(input, all_rows(input), f, w),
{
    let a = all_rows(input);
    assert forall|w: int, f: int|
        #![trigger coordinate_link(input, a, w, f)]
        #![trigger coordinate_link(input, a, f, w)]
        0 <= w < 2 && 2 <= f < 4 implies coordinate_link(input, a, w, f) && coordinate_link(input, a, f, w) by {
        let r = 2 * w + (f - 2);
        let c = row_coordinate(input, r);
        assert(c == ((w as u32), ((f - 2) as u32)));
        assert(a[r]);
        assert(active_coordinates(input, a).contains(c));
        assert(joins(c, 2, w, f));
        assert(joins(c, 2, f, w));
    }
}

/// The complete two-by-two design passes the match-deletion certificate whole.
proof fn lemma_two_by_two_certified(input: &CanonicalInput)
    requires
        is_two_by_two(input),
    ensures
        match_certified_whole(input),
{
    let a = all_rows(input);
    lemma_two_by_two_links(input);
    // One component: the two workers meet at firm node 2.
    let p01 = seq![0int, 2, 1];
    let p10 = seq![1int, 2, 0];
    assert(coordinate_link(input, a, p01[0], p01[1]));
    assert(coordinate_link(input, a, p01[1], p01[2]));
    assert(is_walk(input, a, p01));
    assert(coordinate_link(input, a, p10[0], p10[1]));
    assert(coordinate_link(input, a, p10[1], p10[2]));
    assert(is_walk(input, a, p10));
    assert(is_walk(input, a, seq![0int]));
    assert(is_walk(input, a, seq![1int]));
    assert forall|p: int, q: int|
        0 <= p < a.len() && 0 <= q < a.len() && a[p] && a[q] implies #[trigger] connected(
            input,
            a,
            input.spec_worker()[p] as int,
            #[trigger] input.spec_worker()[q] as int,
        ) by {
        let u = input.spec_worker()[p] as int;
        let v = input.spec_worker()[q] as int;
        if u == v {
            assert(is_walk(input, a, seq![u]));
            assert(seq![u][0] == u && seq![u].last() == v);
        } else if u == 0 {
            assert(p01[0] == u && p01.last() == v);
        } else {
            assert(p10[0] == u && p10.last() == v);
        }
    }
    // Movers only: each worker meets both firms.
    lemma_active_coordinates_finite(input, a);
    assert forall|r: int| 0 <= r < a.len() && a[r] implies distinct_firms(
        input,
        a,
        #[trigger] input.spec_worker()[r] as int,
    ) >= 2 by {
        let w = input.spec_worker()[r] as int;
        let all = active_coordinates(input, a);
        let mine = coordinates_of(all, w);
        let c0 = row_coordinate(input, 2 * w);
        let c1 = row_coordinate(input, 2 * w + 1);
        assert(all.contains(c0));
        assert(all.contains(c1));
        assert(mine.contains(c0));
        assert(mine.contains(c1));
        assert(c0 != c1);
        let two = set![c0, c1];
        assert(two.len() == 2);
        assert(two.subset_of(mine));
        vstd::set_lib::lemma_len_subset(two, mine);
    }
    // No deletion unit spans two coordinates: every unit is a single row.
    assert(!deletion_crosses(input, a)) by {
        assert forall|p: int, q: int|
            #![trigger row_coordinate(input, p), row_coordinate(input, q)]
            0 <= p < a.len() && 0 <= q < a.len() && a[p] && a[q] && input.spec_deletion()[p]
                == input.spec_deletion()[q] implies row_coordinate(input, p) == row_coordinate(input, q) by {
            assert(input.spec_deletion()[p] == p && input.spec_deletion()[q] == q);
        }
    }
    // No bridge units: around the four-cycle, the other three rows join each row's ends.
    assert forall|d: u32| crate::graph::active_deletions(input, a).contains(d) implies
        #[trigger] crate::graph::dfs::unit_not_bridge(input, a, d) by {
        assert forall|q: int|
            0 <= q < a.len() && a[q] && input.spec_deletion()[q] == d implies joined_without_unit(
                input,
                a,
                d as int,
                input.spec_worker()[q] as int,
                input.spec_workers() + (#[trigger] input.spec_firm()[q]),
            ) by {
            lemma_two_by_two_detour(input, q);
        }
    }
    // No cut workers: without one worker, the other joins both firms.
    assert forall|w: int| 0 <= w < input.spec_workers() implies #[trigger] crate::graph::dfs::worker_not_cut(input, a, w) by {
        let o = 1 - w;
        let s23 = seq![2int, o, 3];
        let s32 = seq![3int, o, 2];
        assert(coordinate_link(input, a, s23[0], s23[1]));
        assert(coordinate_link(input, a, s23[1], s23[2]));
        assert(coordinate_link(input, a, s32[0], s32[1]));
        assert(coordinate_link(input, a, s32[1], s32[2]));
        assert(walk_without(input, a, w, s23));
        assert(walk_without(input, a, w, s32));
        assert(walk_without(input, a, w, seq![2int]));
        assert(walk_without(input, a, w, seq![3int]));
        assert forall|p: int, q: int|
            0 <= p < a.len() && 0 <= q < a.len() && a[p] && a[q] && input.spec_worker()[p] == w
                && input.spec_worker()[q] == w implies connected_without(
                input,
                a,
                w,
                input.spec_workers() + (#[trigger] input.spec_firm()[p]),
                input.spec_workers() + (#[trigger] input.spec_firm()[q]),
            ) by {
            let x = 2 + input.spec_firm()[p];
            let y = 2 + input.spec_firm()[q];
            if x == y {
                assert(seq![x][0] == x && seq![x].last() == y);
                assert(walk_without(input, a, w, seq![x]));
            } else if x == 2 {
                assert(s23[0] == x && s23.last() == y);
            } else {
                assert(s32[0] == x && s32.last() == y);
            }
        }
    }
}

/// Row `q` of the two-by-two design: its worker and firm stay joined by the
/// three other rows once its own deletion unit is removed.
proof fn lemma_two_by_two_detour(input: &CanonicalInput, q: int)
    requires
        is_two_by_two(input),
        0 <= q < 4,
    ensures
        joined_without_unit(
            input,
            all_rows(input),
            input.spec_deletion()[q] as int,
            input.spec_worker()[q] as int,
            input.spec_workers() + input.spec_firm()[q],
        ),
{
    let a = all_rows(input);
    let d = q;
    let w = q / 2;
    let f = q % 2;
    let o = 1 - w;
    let g = 1 - f;
    // worker w -> firm g (row 2w+g) -> worker o (row 2o+g) -> firm f (row 2o+f)
    let p = seq![w, 2 + g, o, 2 + f];
    let r1 = 2 * w + g;
    let r2 = 2 * o + g;
    let r3 = 2 * o + f;
    assert(a[r1] && a[r2] && a[r3]);
    assert(input.spec_deletion()[r1] != d && input.spec_deletion()[r2] != d && input.spec_deletion()[r3] != d);
    assert(row_coordinate(input, r1) == ((w as u32), (g as u32)));
    assert(row_coordinate(input, r2) == ((o as u32), (g as u32)));
    assert(row_coordinate(input, r3) == ((o as u32), (f as u32)));
    assert(joins(row_coordinate(input, r1), 2, p[0], p[1]));
    assert(joins(row_coordinate(input, r2), 2, p[1], p[2]));
    assert(joins(row_coordinate(input, r3), 2, p[2], p[3]));
    assert(unit_step(input, a, d, p[0], p[1]));
    assert(unit_step(input, a, d, p[1], p[2]));
    assert(unit_step(input, a, d, p[2], p[3]));
    assert(unit_walk(input, a, d, p));
    assert(input.spec_worker()[q] == w && input.spec_firm()[q] == f && input.spec_deletion()[q] == d);
    assert(p[0] == w && p.last() == 2 + f);
}

/// Runs the integer part of the backend on the complete two-by-two design:
/// canonical construction and match-deletion graph selection.
pub fn selftest() -> (r: Result<()>)
    ensures
        r is Ok,
{
    let worker: Vec<u32> = vec![0, 0, 1, 1];
    let firm: Vec<u32> = vec![0, 1, 0, 1];
    let deletion: Vec<u32> = vec![0, 1, 2, 3];
    let frequency: Vec<u64> = vec![1, 1, 1, 1];
    proof {
        reveal_with_fuel(crate::problem::mass_prefix, 5);
    }
    let canonical = match CanonicalInput::from_dense(worker, firm, deletion, frequency, 2, 2, 4) {
        Ok(c) => c,
        Err(e) => {
            return Err(e);
        },
    };
    proof {
        lemma_two_by_two_certified(&canonical);
        reveal(crate::graph::counters_fit);
    }
    match select_match_deletion_graph(&canonical) {
        Ok(_selection) => Ok(()),
        Err(e) => Err(e),
    }
}

} // verus!
