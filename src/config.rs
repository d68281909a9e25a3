//! The server's settings: where it listens and how many sessions it takes.
use vstd::prelude::*;

verus! {

/// The settings as the command line gives them.
pub struct Arg {
    pub host: String,
    pub port: u16,
    pub max_clients: usize,
}

impl Arg {
    pub fn get_host(&self) -> (r: String)
        ensures
            r@ == self.host@,
    {
        self.host.clone()
    }

    pub fn get_port(&self) -> (r: u16)
        ensures
            r == self.port,
    {
        self.port
    }

    pub fn get_max_clients(&self) -> (r: usize)
        ensures
            r == self.max_clients,
    {
        self.max_clients
    }
}

/// Settings for a server, built step by step.
pub struct ServerBuilder {
    addr: String,
    port: u16,
    max_client: usize,
}

impl ServerBuilder {
    pub closed spec fn spec_addr(&self) -> Seq<char> {
        self.addr@
    }

    pub closed spec fn spec_port(&self) -> u16 {
        self.port
    }

    pub closed spec fn spec_max_client(&self) -> usize {
        self.max_client
    }

    /// `127.0.0.1:6379`, at most 1024 sessions.
    pub fn new() -> (r: Self)
        ensures
            r.spec_addr() == "127.0.0.1"@,
            r.spec_port() == 6379,
            r.spec_max_client() == 1024,
    {
        Self { addr: "127.0.0.1".to_string(), port: 6379, max_client: 1024 }
    }

    pub fn new_with_arg(args: Arg) -> (r: Self)
        ensures
            r.spec_addr() == args.host@,
            r.spec_port() == args.port,
            r.spec_max_client() == args.max_clients,
    {
        Self { addr: args.get_host(), port: args.get_port(), max_client: args.get_max_clients() }
    }

    pub fn addr(self, addr: &str) -> (r: Self)
        ensures
            r.spec_addr() == addr@,
            r.spec_port() == self.spec_port(),
            r.spec_max_client() == self.spec_max_client(),
    {
        Self { addr: addr.to_string(), port: self.port, max_client: self.max_client }
    }

    pub fn port(self, port: u16) -> (r: Self)
        ensures
            r.spec_addr() == self.spec_addr(),
            r.spec_port() == port,
            r.spec_max_client() == self.spec_max_client(),
    {
        Self { addr: self.addr, port, max_client: self.max_client }
    }

    pub fn max_client(self, max_client: usize) -> (r: Self)
        ensures
            r.spec_addr() == self.spec_addr(),
            r.spec_port() == self.spec_port(),
            r.spec_max_client() == max_client,
    {
        Self { addr: self.addr, port: self.port, max_client }
    }

    pub fn get_addr(&self) -> (r: &String)
        ensures
            r@ == self.spec_addr(),
    {
        &self.addr
    }

    pub fn get_port(&self) -> (r: u16)
        ensures
            r == self.spec_port(),
    {
        self.port
    }

    pub fn get_max_client(&self) -> (r: usize)
        ensures
            r == self.spec_max_client(),
    {
        self.max_client
    }
}

} // verus!
