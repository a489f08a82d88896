//! The global DNS table: hosts register `(id, ipv4, name)` while the
//! simulation is being set up; the table is then frozen into a read-only
//! object for the whole run.

use vstd::prelude::*;

verus! {

/// One registered host record.
pub struct DnsEntry {
    /// The dense host id.
    pub id: u32,
    /// The host's IPv4 address, as its 32 numeric bits.
    pub addr: u32,
    /// The host's configured name.
    pub name: String,
}

/// Why a registration was rejected.
#[derive(Clone, Copy, Debug, PartialEq, Eq, Structural)]
pub enum DnsError {
    /// Another host already registered this name.
    DuplicateName,
    /// Another host already registered this address.
    DuplicateAddress,
}

/// Whether some entry of `s` carries this name.
pub open spec fn has_name(s: Seq<DnsEntry>, name: Seq<char>) -> bool {
    exists|i: int| 0 <= i < s.len() && (#[trigger] s[i]).name@ == name
}

/// Whether some entry of `s` carries this address.
pub open spec fn has_addr(s: Seq<DnsEntry>, addr: u32) -> bool {
    exists|i: int| 0 <= i < s.len() && (#[trigger] s[i]).addr == addr
}

/// Entries pairwise distinct in both name and address.
pub open spec fn entries_unique(s: Seq<DnsEntry>) -> bool {
    forall|i: int, j: int|
        0 <= i < j < s.len() ==> (#[trigger] s[i]).name@ != (#[trigger] s[j]).name@ && s[i].addr
            != s[j].addr
}

/// The builder hosts register with before the run starts.
pub struct DnsBuilder {
    /// The records registered so far.
    pub entries: Vec<DnsEntry>,
}

impl DnsBuilder {
    /// An empty builder.
    pub fn new() -> (b: DnsBuilder)
        ensures
            b.entries@ == Seq::<DnsEntry>::empty(),
    {
        DnsBuilder { entries: Vec::new() }
    }

    /// Registers one host. Fails exactly on a duplicate name (first) or a
    /// duplicate address, leaving the builder unchanged.
    pub fn register(&mut self, id: u32, addr: u32, name: String) -> (r: Result<(), DnsError>)
        ensures
            has_name(old(self).entries@, name@) ==> r == Err::<(), DnsError>(
                DnsError::DuplicateName,
            ) && *final(self) == *old(self),
            !has_name(old(self).entries@, name@) && has_addr(old(self).entries@, addr) ==> r
                == Err::<(), DnsError>(DnsError::DuplicateAddress) && *final(self) == *old(self),
            !has_name(old(self).entries@, name@) && !has_addr(old(self).entries@, addr) ==> {
                &&& r == Ok::<(), DnsError>(())
                &&& final(self).entries@.len() == old(self).entries@.len() + 1
                &&& final(self).entries@ == old(self).entries@.push(
                    DnsEntry { id, addr, name: name },
                )
            },
    {
        let n = self.entries.len();
        let mut k: usize = 0;
        while k < n
            invariant
                k <= n == self.entries@.len(),
                forall|i: int| 0 <= i < k ==> (#[trigger] self.entries@[i]).name@ != name@,
            decreases n - k,
        {
            if self.entries[k].name.eq(&name) {
                return Err(DnsError::DuplicateName);
            }
            k += 1;
        }
        let mut k: usize = 0;
        while k < n
            invariant
                k <= n == self.entries@.len(),
                forall|i: int| 0 <= i < n ==> (#[trigger] self.entries@[i]).name@ != name@,
                forall|i: int| 0 <= i < k ==> (#[trigger] self.entries@[i]).addr != addr,
            decreases n - k,
        {
            if self.entries[k].addr == addr {
                return Err(DnsError::DuplicateAddress);
            }
            k += 1;
        }
        self.entries.push(DnsEntry { id, addr, name });
        Ok(())
    }

    /// Freezes the builder into the read-only table. Registration already
    /// refused duplicates, so the frozen table is unique by construction.
    pub fn into_dns(self) -> (dns: Dns)
        requires
            entries_unique(self.entries@),
        ensures
            dns.entries@ == self.entries@,
            entries_unique(dns.entries@),
    {
        Dns { entries: self.entries }
    }
}

/// The read-only DNS table used during the run.
pub struct Dns {
    /// The frozen records.
    pub entries: Vec<DnsEntry>,
}

impl Dns {
    /// The index of the record carrying `name`, if any.
    pub fn lookup_name(&self, name: &String) -> (r: Option<usize>)
        ensures
            r matches Some(i) ==> 0 <= i < self.entries@.len() && self.entries@[i as int].name@
                == name@,
            r is None ==> !has_name(self.entries@, name@),
    {
        let n = self.entries.len();
        let mut k: usize = 0;
        while k < n
            invariant
                k <= n == self.entries@.len(),
                forall|i: int| 0 <= i < k ==> (#[trigger] self.entries@[i]).name@ != name@,
            decreases n - k,
        {
            if self.entries[k].name.eq(name) {
                return Some(k);
            }
            k += 1;
        }
        None
    }

    /// The index of the record carrying `addr`, if any.
    pub fn lookup_addr(&self, addr: u32) -> (r: Option<usize>)
        ensures
            r matches Some(i) ==> 0 <= i < self.entries@.len() && self.entries@[i as int].addr
                == addr,
            r is None ==> !has_addr(self.entries@, addr),
    {
        let n = self.entries.len();
        let mut k: usize = 0;
        while k < n
            invariant
                k <= n == self.entries@.len(),
                forall|i: int| 0 <= i < k ==> (#[trigger] self.entries@[i]).addr != addr,
            decreases n - k,
        {
            if self.entries[k].addr == addr {
                return Some(k);
            }
            k += 1;
        }
        None
    }
}

} // verus!
