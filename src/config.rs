//! Listener configuration of the proxy.

use vstd::prelude::*;

verus! {

/// Ports and HTTPS switches of the proxy.
#[derive(Debug, Clone, Copy, PartialEq, Eq)]
pub struct ProxyConfig {
    pub http_port: u16,
    pub https_port: u16,
    pub enable_https: bool,
    pub force_https: bool,
}

impl Default for ProxyConfig {
    /// HTTP on 8080, HTTPS on 8443, HTTPS off and not forced.
    fn default() -> (r: ProxyConfig)
        ensures
            r.http_port == 8080,
            r.https_port == 8443,
            !r.enable_https,
            !r.force_https,
    {
        ProxyConfig { http_port: 8080, https_port: 8443, enable_https: false, force_https: false }
    }
}

impl ProxyConfig {
    /// Production mode: the standard ports 80 and 443, with HTTPS enabled.
    pub fn production(self) -> (r: ProxyConfig)
        ensures
            r.http_port == 80,
            r.https_port == 443,
            r.enable_https,
            r.force_https == self.force_https,
    {
        ProxyConfig { http_port: 80, https_port: 443, enable_https: true, force_https: self.force_https }
    }
}

} // verus!
