//! RF test routing section of the configuration.

use std::collections::HashMap;
use vstd::prelude::*;

verus! {

/// `toml::Value`, carried through without being looked into.
#[verifier::external_type_specification]
#[verifier::external_body]
pub struct ExTomlValue(toml::Value);

/// RF/debug test routing. Disabled by default; intended for lab checks such as
/// forcing local echo onto a secondary carrier.
#[derive(Debug, Clone)]
pub struct CfgRfTest {
    pub local_echo_carrier: Option<u16>,
}

/// The section as it is read from the file: the known key, and every key that is not known.
#[derive(Debug, Clone)]
pub struct CfgRfTestDto {
    pub local_echo_carrier: Option<u16>,
    pub extra: HashMap<String, toml::Value>,
}

impl Default for CfgRfTest {
    fn default() -> (cfg: CfgRfTest)
        ensures
            cfg.local_echo_carrier is None,
    {
        CfgRfTest { local_echo_carrier: None }
    }
}

impl Default for CfgRfTestDto {
    fn default() -> (dto: CfgRfTestDto)
        ensures
            dto.local_echo_carrier is None,
            dto.extra@ == Map::<String, toml::Value>::empty(),
    {
        CfgRfTestDto { local_echo_carrier: None, extra: HashMap::new() }
    }
}

/// The settings that a section stands for: its carrier, whatever other keys it holds.
pub fn apply_rf_test_patch(dto: CfgRfTestDto) -> (cfg: CfgRfTest)
    ensures
        cfg.local_echo_carrier == dto.local_echo_carrier,
{
    CfgRfTest { local_echo_carrier: dto.local_echo_carrier }
}

} // verus!
