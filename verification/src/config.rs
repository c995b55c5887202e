//! DAPNET settings.

use vstd::prelude::*;

verus! {

/// The DAPNET settings in effect.
#[derive(Debug, Clone)]
pub struct CfgDapnet {
    pub enabled: bool,
    pub api_url: String,
    /// Seconds between two attempts, with all limits applied.
    pub poll_interval_secs: u64,
    pub forward_sds: bool,
    pub forward_callout: bool,
    pub forward_telegram: bool,
    pub sds_source_issi: u32,
    pub sds_dest_issi: u32,
    pub sds_dest_is_group: bool,
    pub callout_source_issi: u32,
    pub callout_dest_issi: u32,
    pub callout_incident_base: u16,
    pub callout_text_prefix: String,
    pub telegram_prefix: String,
    pub rwth_core_enabled: bool,
    pub rwth_core_host: String,
    pub rwth_core_port: u16,
    pub rwth_core_device: String,
    pub rwth_core_version: String,
    pub rwth_core_callsign: String,
    pub rwth_core_authkey: String,
    /// How many messages are remembered, with all limits applied.
    pub messages_limit: usize,
}

/// DAPNET settings as the dashboard writes them to the configuration file.
#[derive(Debug, Clone)]
pub struct DapnetRuntimeOverride {
    pub enabled: bool,
    pub api_url: String,
    pub username: String,
    pub password: String,
    pub poll_interval_secs: u64,
    pub forward_sds: bool,
    pub forward_callout: bool,
    pub forward_telegram: bool,
    pub sds_source_issi: u32,
    pub sds_dest_issi: u32,
    pub sds_dest_is_group: bool,
    pub callout_source_issi: u32,
    pub callout_dest_issi: u32,
    pub callout_incident_base: u16,
    pub callout_text_prefix: String,
    pub telegram_prefix: String,
    pub rwth_core_enabled: bool,
    pub rwth_core_host: String,
    pub rwth_core_port: u16,
    pub rwth_core_device: String,
    pub rwth_core_version: String,
    pub rwth_core_callsign: String,
    pub rwth_core_authkey: String,
    pub rwth_messages_limit: usize,
}

/// The lowest incident number of a Call-Out.
pub const INCIDENT_MIN: u16 = 1;

/// The highest incident number of a Call-Out.
pub const INCIDENT_MAX: u16 = 256;

/// A number brought into the range of incident numbers.
pub open spec fn clamped_incident(n: u16) -> u16 {
    if n < INCIDENT_MIN {
        INCIDENT_MIN
    } else if n > INCIDENT_MAX {
        INCIDENT_MAX
    } else {
        n
    }
}

/// A number brought into the range of incident numbers.
pub fn clamp_incident(n: u16) -> (r: u16)
    ensures
        r == clamped_incident(n),
{
    if n < INCIDENT_MIN {
        INCIDENT_MIN
    } else if n > INCIDENT_MAX {
        INCIDENT_MAX
    } else {
        n
    }
}

/// Incident numbers are from 1 to 256. Such a number stays as it is, and any other becomes the
/// nearest of them.
pub proof fn law_incident_range(n: u16)
    ensures
        1 <= clamped_incident(n) <= 256,
        1 <= n <= 256 ==> clamped_incident(n) == n,
        n < 1 ==> clamped_incident(n) == 1,
        n > 256 ==> clamped_incident(n) == 256,
{
}

} // verus!
