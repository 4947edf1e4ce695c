//! The first message of a client to a server of the git protocol.

use vstd::prelude::*;
use vstd::string::{is_ascii, StringSliceAdditionalSpecFns};
use crate::bytes::{ascii_bytes, decimal_digits, push_ascii, push_bytes, push_decimal};

verus! {

/// What the client asks the server for.
#[derive(Clone, Copy, Debug, PartialEq, Eq, Structural)]
pub enum Service {
    /// To send a pack to the client.
    UploadPack,
    /// To receive a pack from the client.
    ReceivePack,
}

/// The version of the protocol that the client wishes to speak.
#[derive(Clone, Copy, Debug, PartialEq, Eq, Structural)]
pub enum Protocol {
    /// Version 1.
    V1,
    /// Version 2.
    V2,
}

impl Service {
    /// The name of the service in a request.
    pub open spec fn name(self) -> Seq<char> {
        match self {
            Service::UploadPack => "git-upload-pack"@,
            Service::ReceivePack => "git-receive-pack"@,
        }
    }

    /// The name of the service in a request.
    pub fn as_str(&self) -> (name: &'static str)
        ensures
            name@ == self.name(),
            is_ascii(name),
    {
        proof {
            reveal_strlit("git-upload-pack");
            reveal_strlit("git-receive-pack");
        }
        match self {
            Service::UploadPack => "git-upload-pack",
            Service::ReceivePack => "git-receive-pack",
        }
    }
}

impl Protocol {
    /// The number of the version.
    pub open spec fn version(self) -> nat {
        match self {
            Protocol::V1 => 1,
            Protocol::V2 => 2,
        }
    }

    /// The number of the version.
    pub fn number(&self) -> (number: u64)
        ensures
            number == self.version(),
    {
        match self {
            Protocol::V1 => 1,
            Protocol::V2 => 2,
        }
    }
}

/// The part of a request that names the host: `host=`, the host and a zero byte,
/// then, where there is a port, a colon and the port.
pub open spec fn host_part(host: Seq<u8>, port: Option<u16>) -> Seq<u8> {
    let named = (ascii_bytes("host="@) + host).push(0);
    match port {
        Some(port) => named.push(58) + decimal_digits(port as nat),
        None => named,
    }
}

/// The request: the name of the service, a space, the path of the repository and
/// a zero byte; the part that names the host, if there is a host; a zero byte;
/// `version=` with the number of the protocol, and a zero byte.
pub open spec fn request(
    service: Service,
    path: Seq<u8>,
    virtual_host: Option<(Seq<u8>, Option<u16>)>,
    protocol: Protocol,
) -> Seq<u8> {
    let head = (ascii_bytes(service.name()).push(32) + path).push(0);
    let hosted = match virtual_host {
        Some((host, port)) => head + host_part(host, port),
        None => head,
    };
    (hosted.push(0) + ascii_bytes("version="@) + decimal_digits(protocol.version())).push(0)
}

/// The bytes that ask the server for `service` on the repository at `path`, as
/// the host `virtual_host` where one is given, in the version `protocol`.
pub fn service_request(
    service: Service,
    path: &[u8],
    virtual_host: Option<(&str, Option<u16>)>,
    protocol: Protocol,
) -> (out: Vec<u8>)
    ensures
        out@ == request(
            service,
            path@,
            match virtual_host {
                Some((host, port)) => Some((host.spec_bytes(), port)),
                None => None,
            },
            protocol,
        ),
{
    proof {
        reveal_strlit("host=");
        reveal_strlit("version=");
        assert(is_ascii("host="));
        assert(is_ascii("version="));
    }
    let mut out: Vec<u8> = Vec::new();
    push_ascii(&mut out, service.as_str());
    out.push(32);
    push_bytes(&mut out, path);
    out.push(0);
    let ghost head = out@;
    assert(head =~= (ascii_bytes(service.name()).push(32) + path@).push(0));
    if let Some((host, port)) = virtual_host {
        push_ascii(&mut out, "host=");
        push_bytes(&mut out, host.as_bytes());
        out.push(0);
        if let Some(port) = port {
            out.push(58);
            push_decimal(&mut out, port as u64);
        }
        assert(out@ =~= head + host_part(host.spec_bytes(), port));
    }
    out.push(0);
    push_ascii(&mut out, "version=");
    push_decimal(&mut out, protocol.number());
    out.push(0);
    out
}

} // verus!
