use vckss_core::{selftest, Capabilities, ABI_VERSION, CMG_BASELINE, COUNTER_RNG_CONTRACT};

#[test]
fn capability_json_is_stable_and_valid_shape() {
    let json = Capabilities::current().to_json();
    assert!(json.starts_with('{'));
    assert!(json.ends_with('}'));
    assert!(json.contains("\"abi_version\":1"));
    assert!(json.contains(CMG_BASELINE));
    assert!(json.contains(COUNTER_RNG_CONTRACT));
    assert!(json.contains("\"core_exact_ready\":true"));
    assert!(json.contains("\"core_batched_pcg_ready\":true"));
    assert!(json.contains("\"core_cmg_graph_ready\":true"));
    assert!(json.contains("\"core_solver_router_ready\":true"));
    assert!(json.contains("\"core_counter_rng_ready\":true"));
    assert!(json.contains("\"core_jla_plan_ready\":true"));
    assert!(json.contains("\"supports_exact\":true"));
    assert!(json.contains("\"supports_observation_deletion\":true"));
    assert!(json.contains("\"supports_controls\":true"));
}

#[test]
fn backend_selftest_passes() {
    selftest().expect("selftest");
}

#[test]
fn capability_json_renders_every_field_in_order() {
    let mut capabilities = Capabilities::current();
    assert_eq!(capabilities.abi_version, ABI_VERSION);
    assert!(!capabilities.supports_cmg);
    capabilities.abi_version = 4_294_967_295;
    let json = capabilities.to_json();
    assert!(json.starts_with("{\"abi_version\":4294967295,\"backend_version\":\""));
    assert!(json.ends_with(",\"supports_cmg\":false,\"deterministic_parallelism\":true}"));
    capabilities.abi_version = 0;
    assert!(capabilities.to_json().starts_with("{\"abi_version\":0,"));
}
