use vstd::prelude::*;

verus! {

/// Whether a connection reads into or writes out of a job.
#[derive(Clone, Copy, Debug, PartialEq, Eq, Structural)]
pub enum ConnectionType {
    Source,
    Sink,
}

/// The built-in generator of a simulated auction site's events.
#[derive(Clone, Copy, Debug, PartialEq, Eq, Structural)]
pub struct NexmarkConnector {}

impl NexmarkConnector {
    /// The connector's id.
    pub fn name(&self) -> (r: &'static str)
        ensures
            r@ == "nexmark"@,
    {
        "nexmark"
    }

    /// The generator only produces events.
    pub fn table_type(&self) -> (r: ConnectionType)
        ensures
            r == ConnectionType::Source,
    {
        ConnectionType::Source
    }
}

} // verus!
