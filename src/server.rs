use vstd::prelude::*;

use crate::dispatch::Dispatcher;
use crate::shutdown::{Coordinator, CoordView, Phase};

verus! {

/// Where the server listens.
pub struct ServerConfig {
    pub port: u16,
    pub addr: String,
}

/// An IPv4 socket address.
#[derive(Clone, Copy, Debug, PartialEq, Eq)]
pub struct BindAddress {
    pub ip: [u8; 4],
    pub port: u16,
}

/// What the listener needs to start serving: the address to bind and a
/// fresh shutdown coordinator.
pub struct StartPlan {
    pub address: BindAddress,
    pub coordinator: Coordinator,
}

/// The front door of a node: one listening port, and the stacks that share it.
pub struct Server {
    port: u16,
    dispatcher: Dispatcher,
}

impl Server {
    pub closed spec fn spec_port(&self) -> u16 {
        self.port
    }

    pub closed spec fn spec_dispatcher(&self) -> Dispatcher {
        self.dispatcher
    }

    /// A server for the configured port, with the given stacks.
    pub fn new(config: &ServerConfig, dispatcher: Dispatcher) -> (r: Server)
        ensures
            r.spec_port() == config.port,
            r.spec_dispatcher()@ == dispatcher@,
    {
        Server { port: config.port, dispatcher }
    }

    /// The configured port.
    pub fn port(&self) -> (r: u16)
        ensures
            r == self.spec_port(),
    {
        self.port
    }

    /// The stacks and the rule that picks one.
    pub fn dispatcher(&self) -> (r: &Dispatcher)
        ensures
            r@ == self.spec_dispatcher()@,
    {
        &self.dispatcher
    }

    /// Starts serving under `config`: binds every interface on its port, and
    /// begins in the running phase with nothing open.
    pub fn start(&self, config: ServerConfig) -> (r: StartPlan)
        ensures
            r.address.ip@ == seq![0u8, 0u8, 0u8, 0u8],
            r.address.port == config.port,
            r.coordinator@ == (CoordView { phase: Phase::Running, in_flight: 0 }),
    {
        let address = BindAddress { ip: [0u8, 0u8, 0u8, 0u8], port: config.port };
        assert(address.ip@ =~= seq![0u8, 0u8, 0u8, 0u8]);
        StartPlan { address, coordinator: Coordinator::new() }
    }
}

} // verus!
