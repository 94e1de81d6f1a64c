//! The gateway's configuration as the server holds it.
use vstd::prelude::*;
use crate::headers::HeaderPolicy;
use crate::route::RouteTable;

verus! {

/// What every request handler reads: the routes and the header policy.
#[derive(Clone)]
pub struct RunnerOptions {
    pub replace_hosts: RouteTable,
    pub replace_headers: HeaderPolicy,
}

impl RunnerOptions {
    /// Well-formed: both the routes and the policy are.
    pub open spec fn wf(&self) -> bool {
        self.replace_hosts.wf() && self.replace_headers.wf()
    }

    /// Options with no route and no header override.
    pub fn empty() -> (r: RunnerOptions)
        ensures
            r.wf(),
            r.replace_hosts@.len() == 0,
            r.replace_headers@.len() == 0,
    {
        RunnerOptions { replace_hosts: RouteTable::new(), replace_headers: HeaderPolicy::new() }
    }
}

/// A gateway to run: where it listens and what it forwards by.
#[derive(Clone)]
pub struct WebServer {
    pub address: String,
    pub port: u16,
    runner: RunnerOptions,
}

impl WebServer {
    /// The address the server listens on.
    pub closed spec fn spec_address(&self) -> Seq<char> {
        self.address@
    }

    /// The port the server listens on.
    pub closed spec fn spec_port(&self) -> u16 {
        self.port
    }

    /// The options that the server forwards by.
    pub closed spec fn options(&self) -> RunnerOptions {
        self.runner
    }

    /// A server on `address:port`; without options it has no route and no
    /// header override.
    pub fn new(address: String, port: u16, runner: Option<RunnerOptions>) -> (r: WebServer)
        ensures
            r.spec_address() == address@,
            r.spec_port() == port,
            runner is Some ==> r.options() == runner->0,
            runner is None ==> r.options().replace_hosts@.len() == 0 && r.options().replace_headers@.len() == 0,
            runner is None ==> r.options().wf(),
    {
        let runner = match runner {
            Some(runner) => runner,
            None => RunnerOptions::empty(),
        };
        WebServer { address, port, runner }
    }

    /// The options that the server forwards by.
    pub fn runner(&self) -> (r: &RunnerOptions)
        ensures
            *r == self.options(),
    {
        &self.runner
    }
}

} // verus!
