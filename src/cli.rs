//! Settings of the `serve` command.
use vstd::prelude::*;

verus! {

/// The port a production server listens on.
pub const HTTPS_PORT: u16 = 443;

/// The port a development server for the local domain listens on.
pub const DEV_PORT: u16 = 9000;

/// Options of the `serve` command.
#[derive(Clone, Copy, Debug, PartialEq, Eq, Structural)]
pub struct Command {
    /// Port to listen on.
    pub port: Option<u16>,
}

pub open spec fn is_local_domain(domain: Seq<char>) -> bool {
    domain == "localhost"@
}

/// Whether `domain` is the local development domain, which is served over
/// plain HTTP without a certificate.
pub fn serves_plain_http(domain: &String) -> (r: bool)
    ensures
        r == is_local_domain(domain@),
{
    let local = "localhost".to_owned();
    domain.eq(&local)
}

impl Command {
    /// The port to listen on: the one given, else 9000 for the local domain
    /// in a development build, else 443.
    pub fn listen_port(&self, domain: &String, is_dev: bool) -> (r: u16)
        ensures
            self.port matches Some(p) ==> r == p,
            self.port is None ==> r == if is_dev && is_local_domain(domain@) {
                DEV_PORT
            } else {
                HTTPS_PORT
            },
    {
        match self.port {
            Some(p) => p,
            None => if is_dev && serves_plain_http(domain) {
                DEV_PORT
            } else {
                HTTPS_PORT
            },
        }
    }
}

} // verus!
