//! The inotify syscall surface: a minimal emulation that represents an
//! inotify instance by an eventfd-style descriptor, which stays
//! non-readable unless event delivery is ever implemented. Watches are
//! acknowledged but not tracked.

use vstd::prelude::*;

verus! {

/// `IN_NONBLOCK`: shares its value with `O_NONBLOCK` on Linux.
pub const IN_NONBLOCK: i32 = 2048;

/// `IN_CLOEXEC`: shares its value with `O_CLOEXEC` on Linux.
pub const IN_CLOEXEC: i32 = 524288;

/// `EFD_NONBLOCK`: shares its value with `O_NONBLOCK` on Linux.
pub const EFD_NONBLOCK: i32 = 2048;

/// `EFD_CLOEXEC`: shares its value with `O_CLOEXEC` on Linux.
pub const EFD_CLOEXEC: i32 = 524288;

/// A guest-visible file-descriptor handle.
#[derive(Clone, Copy, Debug, PartialEq, Eq, Structural, Hash)]
pub struct DescriptorHandle {
    /// The descriptor number.
    pub fd: u32,
}

/// The error numbers this surface can answer with.
#[derive(Clone, Copy, Debug, PartialEq, Eq, Structural)]
pub enum Errno {
    /// Invalid argument.
    Einval,
    /// The descriptor table is exhausted.
    Emfile,
}

/// The per-call context: the slice of the descriptor table the handlers
/// may allocate from.
pub struct SyscallContext {
    /// The next free descriptor number.
    pub next_descriptor: u32,
}

/// The eventfd flags a set of inotify flags maps to: nonblocking and
/// close-on-exec carry over, anything else is dropped.
pub open spec fn efd_flags_of(flags: i32) -> i32 {
    (if flags & IN_NONBLOCK != 0 {
        EFD_NONBLOCK
    } else {
        0
    }) | (if flags & IN_CLOEXEC != 0 {
        EFD_CLOEXEC
    } else {
        0
    })
}

/// The dispatcher the guest's syscalls arrive at.
pub struct SyscallHandler {}

impl SyscallHandler {
    /// Allocates an eventfd-style descriptor; fails only when the table is
    /// exhausted.
    pub fn eventfd_helper(ctx: &mut SyscallContext, init_val: u64, flags: i32) -> (r: Result<
        DescriptorHandle,
        Errno,
    >)
        ensures
            old(ctx).next_descriptor < u32::MAX ==> {
                &&& r == Ok::<DescriptorHandle, Errno>(
                    DescriptorHandle { fd: old(ctx).next_descriptor },
                )
                &&& final(ctx).next_descriptor == old(ctx).next_descriptor + 1
            },
            old(ctx).next_descriptor == u32::MAX ==> r == Err::<DescriptorHandle, Errno>(
                Errno::Emfile,
            ) && *final(ctx) == *old(ctx),
    {
        let _ = init_val;
        let _ = flags;
        if ctx.next_descriptor == u32::MAX {
            return Err(Errno::Emfile);
        }
        let fd = ctx.next_descriptor;
        ctx.next_descriptor = ctx.next_descriptor + 1;
        Ok(DescriptorHandle { fd })
    }

    /// Creates an inotify instance: an eventfd-backed descriptor carrying
    /// the nonblocking and close-on-exec flags over; it stays non-readable
    /// unless event delivery is ever implemented.
    pub fn inotify_init1(ctx: &mut SyscallContext, flags: i32) -> (r: Result<
        DescriptorHandle,
        Errno,
    >)
        ensures
            old(ctx).next_descriptor < u32::MAX ==> {
                &&& r == Ok::<DescriptorHandle, Errno>(
                    DescriptorHandle { fd: old(ctx).next_descriptor },
                )
                &&& final(ctx).next_descriptor == old(ctx).next_descriptor + 1
            },
            old(ctx).next_descriptor == u32::MAX ==> r == Err::<DescriptorHandle, Errno>(
                Errno::Emfile,
            ) && *final(ctx) == *old(ctx),
    {
        let nonblock: i32 = if (flags & IN_NONBLOCK) != 0 {
            EFD_NONBLOCK
        } else {
            0
        };
        let cloexec: i32 = if (flags & IN_CLOEXEC) != 0 {
            EFD_CLOEXEC
        } else {
            0
        };
        let efd_flags: i32 = nonblock | cloexec;
        proof {
            assert(efd_flags == efd_flags_of(flags));
        }
        Self::eventfd_helper(ctx, 0, efd_flags)
    }

    /// Acknowledges a watch without tracking it: always watch descriptor 1.
    pub fn inotify_add_watch(
        ctx: &mut SyscallContext,
        fd: i32,
        pathname: u64,
        mask: u32,
    ) -> (r: Result<i32, Errno>)
        ensures
            r == Ok::<i32, Errno>(1),
            *final(ctx) == *old(ctx),
    {
        let _ = fd;
        let _ = pathname;
        let _ = mask;
        Ok(1)
    }

    /// Acknowledges removing a watch without tracking it.
    pub fn inotify_rm_watch(ctx: &mut SyscallContext, fd: i32, wd: i32) -> (r: Result<i32, Errno>)
        ensures
            r == Ok::<i32, Errno>(0),
            *final(ctx) == *old(ctx),
    {
        let _ = fd;
        let _ = wd;
        Ok(0)
    }
}

} // verus!
