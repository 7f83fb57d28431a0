//! Where the service is found: the address and the port that the command
//! line may override.

use vstd::prelude::*;

verus! {

/// The address of the service where none is given.
pub const IP_ADDR: &'static str = "127.0.0.1";

/// The port of the service where none is given.
pub const PORT: &'static str = "8080";

/// What the command line may say.
#[derive(Debug)]
pub struct Args {
    /// Another address than `IP_ADDR`.
    pub ip: Option<String>,
    /// Another port than `PORT`.
    pub port: Option<String>,
}

/// The socket address that `ip` and `port` name: the two with a colon
/// between them, each replaced by its default where it is not given.
pub open spec fn socket_addr_text(ip: Option<Seq<char>>, port: Option<Seq<char>>) -> Seq<char> {
    (match ip {
        Some(ip) => ip,
        None => IP_ADDR@,
    }) + ":"@ + (match port {
        Some(port) => port,
        None => PORT@,
    })
}

impl Args {
    /// The socket address of the service.
    pub fn socket_addr(&self) -> (r: String)
        ensures
            r@ == socket_addr_text(
                match self.ip {
                    Some(ip) => Some(ip@),
                    None => None,
                },
                match self.port {
                    Some(port) => Some(port@),
                    None => None,
                },
            ),
    {
        let mut r = match &self.ip {
            Some(ip) => ip.clone(),
            None => IP_ADDR.to_owned(),
        };
        r.append(":");
        match &self.port {
            Some(port) => {
                r.append(port.as_str());
            },
            None => {
                r.append(PORT);
            },
        }
        r
    }
}

} // verus!
