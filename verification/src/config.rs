//! The settings the proxy process runs with.
use vstd::prelude::*;

verus! {

/// Ports, upstream and recording switch for one proxy instance.
pub struct ProxyConfig {
    pub proxy_port: u16,
    pub ui_port: u16,
    pub upstream_url: String,
    pub recording_enabled: bool,
}

impl ProxyConfig {
    pub fn new(proxy_port: u16, ui_port: u16, upstream_url: String, recording_enabled: bool) -> (r:
        Self)
        ensures
            r.proxy_port == proxy_port,
            r.ui_port == ui_port,
            r.upstream_url == upstream_url,
            r.recording_enabled == recording_enabled,
    {
        ProxyConfig { proxy_port, ui_port, upstream_url, recording_enabled }
    }
}

} // verus!
