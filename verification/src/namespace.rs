//! The abstract pathname namespace for unix-domain sockets: one table per
//! socket type, binding filesystem paths to sockets. A socket that closes
//! notifies the namespace, which drops its binding.

use vstd::prelude::*;

verus! {

/// The unix socket flavors that own separate namespaces.
#[derive(Clone, Copy, Debug, PartialEq, Eq, Structural, Hash)]
pub enum UnixSocketType {
    /// Connection-oriented byte stream.
    Stream,
    /// Connectionless datagrams.
    Dgram,
    /// Connection-oriented datagrams.
    SeqPacket,
}

/// One binding: a path of one namespace held by a socket. The socket also
/// holds a close listener that removes this entry, so the binding never
/// outlives its socket.
pub struct NamespaceEntry {
    /// The namespace the path lives in.
    pub sock_type: UnixSocketType,
    /// The bound path, as bytes.
    pub path: Vec<u8>,
    /// The bound socket's handle.
    pub socket: u64,
}

impl NamespaceEntry {
    /// A binding of `path` to `socket` in the namespace of `sock_type`.
    pub fn new(sock_type: UnixSocketType, path: Vec<u8>, socket: u64) -> (e: NamespaceEntry)
        ensures
            e.sock_type == sock_type,
            e.path@ == path@,
            e.socket == socket,
    {
        NamespaceEntry { sock_type, path, socket }
    }
}

/// Whether some entry binds `path` in the namespace of `t`.
pub open spec fn bound(s: Seq<NamespaceEntry>, t: UnixSocketType, path: Seq<u8>) -> bool {
    exists|i: int| 0 <= i < s.len() && (#[trigger] s[i]).sock_type == t && s[i].path@ == path
}

/// At most one binding per `(type, path)` pair.
pub open spec fn bindings_unique(s: Seq<NamespaceEntry>) -> bool {
    forall|i: int, j: int|
        0 <= i < j < s.len() ==> !((#[trigger] s[i]).sock_type == (#[trigger] s[j]).sock_type
            && s[i].path@ == s[j].path@)
}

fn bytes_eq(a: &Vec<u8>, b: &Vec<u8>) -> (r: bool)
    ensures
        r == (a@ == b@),
{
    if a.len() != b.len() {
        return false;
    }
    let n = a.len();
    let mut k: usize = 0;
    while k < n
        invariant
            k <= n == a@.len() == b@.len(),
            forall|i: int| 0 <= i < k ==> a@[i] == b@[i],
        decreases n - k,
    {
        if a[k] != b[k] {
            return false;
        }
        k += 1;
    }
    proof {
        assert(a@ =~= b@);
    }
    true
}

fn type_eq(a: UnixSocketType, b: UnixSocketType) -> (r: bool)
    ensures
        r == (a == b),
{
    match (a, b) {
        (UnixSocketType::Stream, UnixSocketType::Stream) => true,
        (UnixSocketType::Dgram, UnixSocketType::Dgram) => true,
        (UnixSocketType::SeqPacket, UnixSocketType::SeqPacket) => true,
        _ => false,
    }
}

/// The process-wide registry of pathname-bound unix sockets.
pub struct PathnameUnixNamespace {
    /// The live bindings, unique per `(type, path)`.
    pub entries: Vec<NamespaceEntry>,
}

impl PathnameUnixNamespace {
    /// An empty namespace for each socket type.
    pub fn new() -> (ns: PathnameUnixNamespace)
        ensures
            ns.entries@.len() == 0,
            bindings_unique(ns.entries@),
    {
        PathnameUnixNamespace { entries: Vec::new() }
    }

    /// Binds `path` to `socket` in the namespace of `sock_type`; fails, and
    /// changes nothing, exactly when the path is already bound there. The
    /// socket's close listener later removes the binding through
    /// `on_socket_close`.
    pub fn bind(&mut self, sock_type: UnixSocketType, path: Vec<u8>, socket: u64) -> (r: Result<
        (),
        (),
    >)
        requires
            bindings_unique(old(self).entries@),
        ensures
            bindings_unique(final(self).entries@),
            bound(old(self).entries@, sock_type, path@) ==> r == Err::<(), ()>(()) && *final(self)
                == *old(self),
            !bound(old(self).entries@, sock_type, path@) ==> {
                &&& r == Ok::<(), ()>(())
                &&& final(self).entries@.len() == old(self).entries@.len() + 1
                &&& final(self).entries@ == old(self).entries@.push(
                    NamespaceEntry { sock_type, path: path, socket },
                )
            },
    {
        let n = self.entries.len();
        let mut k: usize = 0;
        while k < n
            invariant
                k <= n == self.entries@.len(),
                *self == *old(self),
                bindings_unique(self.entries@),
                forall|i: int|
                    0 <= i < k ==> !((#[trigger] self.entries@[i]).sock_type == sock_type
                        && self.entries@[i].path@ == path@),
            decreases n - k,
        {
            if type_eq(self.entries[k].sock_type, sock_type) && bytes_eq(
                &self.entries[k].path,
                &path,
            ) {
                return Err(());
            }
            k += 1;
        }
        self.entries.push(NamespaceEntry { sock_type, path, socket });
        Ok(())
    }

    /// The socket bound to `path` in the namespace of `sock_type`, if any.
    pub fn lookup(&self, sock_type: UnixSocketType, path: &Vec<u8>) -> (r: Option<u64>)
        ensures
            r matches Some(socket) ==> exists|i: int|
                0 <= i < self.entries@.len() && (#[trigger] self.entries@[i]).sock_type == sock_type
                    && self.entries@[i].path@ == path@ && self.entries@[i].socket == socket,
            r is None ==> !bound(self.entries@, sock_type, path@),
    {
        let n = self.entries.len();
        let mut k: usize = 0;
        while k < n
            invariant
                k <= n == self.entries@.len(),
                forall|i: int|
                    0 <= i < k ==> !((#[trigger] self.entries@[i]).sock_type == sock_type
                        && self.entries@[i].path@ == path@),
            decreases n - k,
        {
            if type_eq(self.entries[k].sock_type, sock_type) && bytes_eq(
                &self.entries[k].path,
                path,
            ) {
                return Some(self.entries[k].socket);
            }
            k += 1;
        }
        None
    }

    /// Removes the binding of `path` in the namespace of `sock_type`;
    /// fails, and changes nothing, exactly when no such binding exists.
    pub fn unbind(&mut self, sock_type: UnixSocketType, path: &Vec<u8>) -> (r: Result<(), ()>)
        requires
            bindings_unique(old(self).entries@),
        ensures
            bindings_unique(final(self).entries@),
            !bound(old(self).entries@, sock_type, path@) ==> r == Err::<(), ()>(()) && *final(self)
                == *old(self),
            bound(old(self).entries@, sock_type, path@) ==> {
                &&& r == Ok::<(), ()>(())
                &&& final(self).entries@.len() == old(self).entries@.len() - 1
                &&& !bound(final(self).entries@, sock_type, path@)
                &&& (forall|t2: UnixSocketType, p2: Seq<u8>|
                    !(t2 == sock_type && p2 == path@) ==> #[trigger] bound(
                        final(self).entries@,
                        t2,
                        p2,
                    ) == bound(old(self).entries@, t2, p2))
            },
    {
        let n = self.entries.len();
        let mut k: usize = 0;
        while k < n
            invariant
                k <= n == self.entries@.len(),
                bindings_unique(self.entries@),
                *self == *old(self),
                forall|i: int|
                    0 <= i < k ==> !((#[trigger] self.entries@[i]).sock_type == sock_type
                        && self.entries@[i].path@ == path@),
            decreases n - k,
        {
            if type_eq(self.entries[k].sock_type, sock_type) && bytes_eq(
                &self.entries[k].path,
                path,
            ) {
                let ghost pre = self.entries@;
                self.entries.remove(k);
                proof {
                    pre.remove_ensures(k as int);
                    assert(!bound(self.entries@, sock_type, path@)) by {
                        assert forall|i: int|
                            0 <= i < self.entries@.len() implies !((#[trigger] self.entries@[
                            i
                        ]).sock_type == sock_type && self.entries@[i].path@ == path@) by {
                            if i < k {
                                assert(self.entries@[i] == pre[i]);
                            } else {
                                assert(self.entries@[i] == pre[i + 1]);
                            }
                        }
                    }
                    assert forall|t2: UnixSocketType, p2: Seq<u8>|
                        !(t2 == sock_type && p2 == path@) implies #[trigger] bound(
                        self.entries@,
                        t2,
                        p2,
                    ) == bound(pre, t2, p2) by {
                        if bound(pre, t2, p2) {
                            let i = choose|i: int|
                                0 <= i < pre.len() && (#[trigger] pre[i]).sock_type == t2 && pre[
                                    i
                                ].path@ == p2;
                            if i < k {
                                assert(self.entries@[i] == pre[i]);
                            } else {
                                assert(i != k);
                                assert(self.entries@[i - 1] == pre[i]);
                            }
                        }
                        if bound(self.entries@, t2, p2) {
                            let i = choose|i: int|
                                0 <= i < self.entries@.len() && (#[trigger] self.entries@[
                                    i
                                ]).sock_type == t2 && self.entries@[i].path@ == p2;
                            if i < k {
                                assert(self.entries@[i] == pre[i]);
                            } else {
                                assert(self.entries@[i] == pre[i + 1]);
                            }
                        }
                    }
                    assert forall|i: int, j: int|
                        0 <= i < j < self.entries@.len() implies !((#[trigger] self.entries@[
                        i
                    ]).sock_type == (#[trigger] self.entries@[j]).sock_type && self.entries@[
                        i
                    ].path@ == self.entries@[j].path@) by {
                        let pi = if i < k {
                            i
                        } else {
                            i + 1
                        };
                        let pj = if j < k {
                            j
                        } else {
                            j + 1
                        };
                        assert(self.entries@[i] == pre[pi]);
                        assert(self.entries@[j] == pre[pj]);
                    }
                }
                return Ok(());
            }
            k += 1;
        }
        Err(())
    }

    /// What a bound socket's close listener does when the socket reaches
    /// its closed state: the binding disappears; an already-removed binding
    /// is left alone.
    pub fn on_socket_close(&mut self, sock_type: UnixSocketType, path: &Vec<u8>)
        requires
            bindings_unique(old(self).entries@),
        ensures
            bindings_unique(final(self).entries@),
            !bound(final(self).entries@, sock_type, path@),
            !bound(old(self).entries@, sock_type, path@) ==> *final(self) == *old(self),
    {
        let r = self.unbind(sock_type, path);
        proof {
            if bound(old(self).entries@, sock_type, path@) {
                assert(r is Ok);
            }
        }
    }
}

impl Default for PathnameUnixNamespace {
    /// Same as `PathnameUnixNamespace::new`.
    fn default() -> (ns: PathnameUnixNamespace)
        ensures
            ns.entries@.len() == 0,
            bindings_unique(ns.entries@),
    {
        PathnameUnixNamespace::new()
    }
}

} // verus!
