//! Server configuration: the listen addresses and the server's descriptive settings.
//!
//! Reading and decoding the configuration file is the caller's part; this module checks
//! the decoded entries and builds the settings from them.

use vstd::prelude::*;

verus! {

broadcast use vstd::string::group_string_axioms;

/// One address to listen on.
#[derive(Debug)]
pub struct ListenConfig {
    pub hostname: String,
    pub port: u16,
}

/// The settings read from `config/ircd`.
#[derive(Debug)]
pub struct Settings {
    pub listen: Vec<ListenConfig>,
}

/// One address to listen on, in the server configuration file.
#[derive(Debug)]
pub struct ListenAddr {
    pub hostname: String,
    pub port: u16,
}

/// The server configuration file.
#[derive(Debug)]
pub struct Config {
    pub server_name: String,
    pub server_description: String,
    pub network_name: String,
    pub listen: Vec<ListenAddr>,
    pub max_clients: usize,
    pub motd: String,
}

/// A listen entry as the configuration file writes it: the port is any integer there.
#[derive(Debug)]
pub struct RawListen {
    pub hostname: String,
    pub port: i64,
}

/// Why the configuration was refused.
#[derive(PartialEq, Eq, Structural, Clone, Copy, Debug)]
pub enum ConfigError {
    /// The entry at `index` gives a port outside `0..=65535`.
    PortOutOfRange { index: usize, port: i64 },
}

/// A port number fits in `u16`.
pub open spec fn port_ok(port: i64) -> bool {
    0 <= port <= 65535
}

/// Builds the settings from the listen entries of the configuration, in order.
/// Every port must fit in `u16`; otherwise the first entry whose port does not is reported.
pub fn load(listen: Vec<RawListen>) -> (res: Result<Settings, ConfigError>)
    ensures
        res is Ok <==> forall|i: int| 0 <= i < listen@.len() ==> #[trigger] port_ok(listen@[i].port),
        res matches Ok(s) ==> {
            &&& s.listen@.len() == listen@.len()
            &&& forall|i: int|
                0 <= i < listen@.len() ==> (#[trigger] s.listen@[i]).hostname@ == listen@[i].hostname@
                    && s.listen@[i].port == listen@[i].port
        },
        res matches Err(ConfigError::PortOutOfRange { index, port }) ==> {
            &&& index < listen@.len()
            &&& port == listen@[index as int].port
            &&& !port_ok(port)
            &&& forall|j: int| 0 <= j < index ==> #[trigger] port_ok(listen@[j].port)
        },
{
    let mut out: Vec<ListenConfig> = Vec::new();
    let mut i: usize = 0;
    while i < listen.len()
        invariant
            i <= listen@.len(),
            out@.len() == i,
            forall|j: int| 0 <= j < i ==> #[trigger] port_ok(listen@[j].port),
            forall|j: int|
                0 <= j < i ==> (#[trigger] out@[j]).hostname@ == listen@[j].hostname@ && out@[j].port
                    == listen@[j].port,
        decreases listen@.len() - i,
    {
        let entry = &listen[i];
        if entry.port < 0 || entry.port > 65535 {
            assert(!port_ok(listen@[i as int].port));
            return Err(ConfigError::PortOutOfRange { index: i, port: entry.port });
        }
        out.push(ListenConfig { hostname: entry.hostname.clone(), port: entry.port as u16 });
        i += 1;
    }
    Ok(Settings { listen: out })
}

} // verus!
