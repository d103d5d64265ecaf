//! Configuration of the tool-protocol server. Serving itself is network
//! I/O and lives outside this library.
use vstd::prelude::*;

verus! {

/// How the server talks to its client.
#[derive(Debug, PartialEq, Eq, Structural)]
pub enum Transport {
    Stdio,
    Sse { port: u16 },
    Http { port: u16 },
}

/// Server settings.
pub struct McpServerConfig {
    pub transport: Transport,
    pub workspace_root: Option<String>,
}

} // verus!
