use crate::address::SockAddr;
use crate::text::{
    ascii_upper_char, ascii_uppercase, lemma_ascii_upper_char_law, push_char, to_ascii_upper_char,
};
use vstd::prelude::*;
use vstd::string::StrSliceExecFns;

verus! {

/// How a compartment's server half was started.
pub enum CompartmentMode {
    /// The server runs in a child process forked from the host.
    Fork,
    /// The server runs as a standalone process behind a socket.
    StandaloneSock,
}

/// Which side of a fork a process is on.
#[derive(Clone, Copy, Debug, PartialEq, Eq, Structural)]
pub enum ForkRole {
    /// The new process: it serves the compartment.
    Child,
    /// The process that forked: it becomes the client.
    Parent,
}

/// The side of the fork that a process is on, from what `fork` returned to
/// it: 0 in the child, anything else in the parent. A failed fork (a negative
/// value) leaves only the calling process, which goes on as the parent.
pub fn fork_role(pid: i32) -> (role: ForkRole)
    ensures
        role == (if pid == 0 { ForkRole::Child } else { ForkRole::Parent }),
{
    if pid == 0 {
        ForkRole::Child
    } else {
        ForkRole::Parent
    }
}

/// How a client reaches its compartment.
#[derive(Debug)]
pub enum ConnectTarget {
    /// No address was given: fork a child that serves the compartment.
    Fork,
    /// The address is a socket address: connect over TCP.
    Tcp(SockAddr),
    /// Any other address is the path of a Unix socket.
    Unix(String),
}

/// Chooses how to reach a compartment from the address the user gave, if
/// any. `as_socket` is that address read as a socket address, where it reads
/// as one; it does not matter when no address is given.
pub fn connect_target(addr: Option<String>, as_socket: Option<SockAddr>) -> (target:
    ConnectTarget)
    ensures
        match addr {
            None => target is Fork,
            Some(path) => match as_socket {
                Some(sock) => target == ConnectTarget::Tcp(sock),
                None => target matches ConnectTarget::Unix(p) && p@ == path@,
            },
        },
{
    match addr {
        None => ConnectTarget::Fork,
        Some(path) => match as_socket {
            Some(sock) => ConnectTarget::Tcp(sock),
            None => ConnectTarget::Unix(path),
        },
    }
}

/// The name of the environment variable that holds the socket address of a
/// standalone compartment: the package name in ASCII upper case, `_`, the
/// compartment's prefix, and `_ADDR`.
pub open spec fn address_variable(package: Seq<char>, prefix: Seq<char>) -> Seq<char> {
    ascii_uppercase(package) + seq!['_'] + prefix + seq!['_', 'A', 'D', 'D', 'R']
}

/// The variable name is the package name upper-cased character by
/// character, then `_`, then the prefix exactly as given (case kept), then
/// `_ADDR`.
pub proof fn lemma_address_variable_layout(package: Seq<char>, prefix: Seq<char>)
    ensures
        ({
            let name = address_variable(package, prefix);
            let p = package.len() as int;
            let q = prefix.len() as int;
            &&& name.len() == p + 1 + q + 5
            &&& forall|i: int|
                0 <= i < p ==> {
                    let c = package[i];
                    let u = #[trigger] name[i];
                    &&& 'a' <= c <= 'z' ==> u as u32 == (c as u32) - 32
                    &&& !('a' <= c <= 'z') ==> u == c
                }
            &&& name[p] == '_'
            &&& name.subrange(p + 1, p + 1 + q) == prefix
            &&& name.subrange(p + 1 + q, p + q + 6) == seq!['_', 'A', 'D', 'D', 'R']
        }),
{
    let name = address_variable(package, prefix);
    let p = package.len() as int;
    let q = prefix.len() as int;
    assert forall|i: int| 0 <= i < p implies {
        let c = package[i];
        let u = #[trigger] name[i];
        &&& 'a' <= c <= 'z' ==> u as u32 == (c as u32) - 32
        &&& !('a' <= c <= 'z') ==> u == c
    } by {
        assert(name[i] == ascii_upper_char(package[i]));
        lemma_ascii_upper_char_law(package[i]);
    }
    assert(name.subrange(p + 1, p + 1 + q) =~= prefix);
    assert(name.subrange(p + 1 + q, p + q + 6) =~= seq!['_', 'A', 'D', 'D', 'R']);
}

/// Builds the name of the environment variable that holds the socket address
/// of the standalone compartment with `prefix`, for the package `package`.
pub fn standalone_address_variable(package: &str, prefix: &str) -> (name: String)
    ensures
        name@ == address_variable(package@, prefix@),
        name@.len() == package@.len() + 1 + prefix@.len() + 5,
        name@.subrange(package@.len() + 1int, package@.len() + 1int + prefix@.len()) == prefix@,
{
    let mut name = String::new();
    let n = package.unicode_len();
    let mut i: usize = 0;
    while i < n
        invariant
            n == package@.len(),
            i <= n,
            name@ == ascii_uppercase(package@.take(i as int)),
        decreases n - i,
    {
        let c = package.get_char(i);
        push_char(&mut name, to_ascii_upper_char(c));
        assert(package@.take(i + 1) == package@.take(i as int).push(c));
        i = i + 1;
    }
    assert(package@.take(n as int) == package@);
    push_char(&mut name, '_');
    let mut j: usize = 0;
    let m = prefix.unicode_len();
    while j < m
        invariant
            m == prefix@.len(),
            j <= m,
            name@ == ascii_uppercase(package@) + seq!['_'] + prefix@.take(j as int),
        decreases m - j,
    {
        let c = prefix.get_char(j);
        push_char(&mut name, c);
        assert(prefix@.take(j + 1) == prefix@.take(j as int).push(c));
        j = j + 1;
    }
    assert(prefix@.take(m as int) == prefix@);
    push_char(&mut name, '_');
    push_char(&mut name, 'A');
    push_char(&mut name, 'D');
    push_char(&mut name, 'D');
    push_char(&mut name, 'R');
    proof {
        lemma_address_variable_layout(package@, prefix@);
    }
    name
}

} // verus!
