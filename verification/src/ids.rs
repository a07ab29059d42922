//! The identifiers by which transactions are told apart.
//!
//! Each of them is a string: its view is the characters, and [`encode_utf8`] of the view the
//! bytes that stand in a key.

use vstd::prelude::*;
use vstd::utf8::encode_utf8;

verus! {

/// Whether `ruma::ServerName` accepts these characters as the name of a server.
pub uninterp spec fn valid_server_name(name: Seq<char>) -> bool;

/// Calls `ruma::ServerName::parse`, which checks the string and nothing else: whether it returns
/// `Ok` depends on the characters alone.
#[verifier::external_body]
fn parses_as_server_name(name: &str) -> (parses: bool)
    ensures
        parses == valid_server_name(name@),
{
    ruma::ServerName::parse(name).is_ok()
}

/// The string is not the name of a server.
#[derive(Debug, Clone, Copy, PartialEq, Eq)]
pub struct InvalidServerName;

/// The name of a homeserver, such as `example.com` or `[::1]:8448`.
#[derive(Debug)]
pub struct ServerName {
    name: String,
}

/// The identifier of a user, such as `@carl:example.com`: any string.
#[derive(Debug)]
pub struct UserId {
    id: String,
}

/// The identifier of a device of a user: any string.
#[derive(Debug)]
pub struct DeviceId {
    id: String,
}

/// The identifier that the sender gave a transaction: any string.
#[derive(Debug)]
pub struct TransactionId {
    id: String,
}

impl View for ServerName {
    type V = Seq<char>;

    closed spec fn view(&self) -> Seq<char> {
        self.name@
    }
}

impl View for UserId {
    type V = Seq<char>;

    closed spec fn view(&self) -> Seq<char> {
        self.id@
    }
}

impl View for DeviceId {
    type V = Seq<char>;

    closed spec fn view(&self) -> Seq<char> {
        self.id@
    }
}

impl View for TransactionId {
    type V = Seq<char>;

    closed spec fn view(&self) -> Seq<char> {
        self.id@
    }
}

impl ServerName {
    /// Every server name is one that `ruma` accepts.
    #[verifier::type_invariant]
    spec fn valid(self) -> bool {
        valid_server_name(self.name@)
    }

    /// Takes a string for the name of a server.
    pub fn parse(name: &str) -> (result: Result<ServerName, InvalidServerName>)
        ensures
            result is Ok <==> valid_server_name(name@),
            result matches Ok(server) ==> server@ == name@,
    {
        if parses_as_server_name(name) {
            Ok(ServerName { name: name.to_owned() })
        } else {
            Err(InvalidServerName)
        }
    }

    /// The bytes of the name.
    pub fn as_bytes(&self) -> (bytes: &[u8])
        ensures
            bytes@ == encode_utf8(self@),
    {
        self.name.as_str().as_bytes()
    }
}

impl UserId {
    /// Takes a string for the identifier of a user.
    pub fn new(id: &str) -> (user: UserId)
        ensures
            user@ == id@,
    {
        UserId { id: id.to_owned() }
    }

    /// The bytes of the identifier.
    pub fn as_bytes(&self) -> (bytes: &[u8])
        ensures
            bytes@ == encode_utf8(self@),
    {
        self.id.as_str().as_bytes()
    }
}

impl DeviceId {
    /// Takes a string for the identifier of a device.
    pub fn new(id: &str) -> (device: DeviceId)
        ensures
            device@ == id@,
    {
        DeviceId { id: id.to_owned() }
    }

    /// The bytes of the identifier.
    pub fn as_bytes(&self) -> (bytes: &[u8])
        ensures
            bytes@ == encode_utf8(self@),
    {
        self.id.as_str().as_bytes()
    }
}

impl TransactionId {
    /// Takes a string for the identifier of a transaction.
    pub fn new(id: &str) -> (txn: TransactionId)
        ensures
            txn@ == id@,
    {
        TransactionId { id: id.to_owned() }
    }

    /// The bytes of the identifier.
    pub fn as_bytes(&self) -> (bytes: &[u8])
        ensures
            bytes@ == encode_utf8(self@),
    {
        self.id.as_str().as_bytes()
    }
}

} // verus!
