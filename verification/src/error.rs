//! Why a run could not be started or kept up.
use vstd::prelude::*;

use crate::text::{
    push_decimal, push_hex, push_signed, push_truth,
};

verus! {

/// Why a run could not be started or kept up.
#[derive(Clone, Copy, Debug, PartialEq, Eq, Structural)]
pub enum Error {
    /// A read failed with this code of the kernel.
    Read(i32),
    /// A write failed with this code of the kernel.
    Write(i32),
    /// The process cannot be attached to, for the reason with this code.
    TaskForPid(i32),
    /// The player's image is not among those that the process has loaded.
    ImageNotFound,
    /// The image does not have the shape of a 64-bit Mach-O file.
    BadMacho,
    /// No object in the process looks like the scheduler.
    SchedulerNotFound,
    /// No object in the process looks like a Metal layer.
    LayerNotFound,
    /// It could not be told which bit of a Metal layer is its display sync.
    SyncFieldNotFound {
        size: u64,
        pointers: u64,
        starts_on: bool,
        turns_off: bool,
        changes: u64,
    },
}

impl Error {
    /// The message to the user.
    pub open spec fn text(self) -> Seq<char> {
        match self {
            Error::Read(status) => "read failed: "@ + crate::text::signed_decimal(status as int),
            Error::Write(status) => "write failed: "@ + crate::text::signed_decimal(status as int),
            Error::TaskForPid(status) => "task_for_pid failed: "@ + crate::text::signed_decimal(
                status as int,
            ),
            Error::ImageNotFound => "Roblox image not found"@,
            Error::BadMacho => "bad macho"@,
            Error::SchedulerNotFound => "scheduler not found"@,
            Error::LayerNotFound => "Metal layer not found"@,
            Error::SyncFieldNotFound { size, pointers, starts_on, turns_off, changes } =>
                "display sync field not found: size="@ + crate::text::prefixed_hex(size as nat)
                + " pointers="@ + crate::text::decimal(pointers as nat) + " setter="@
                + crate::text::truth(starts_on) + "/"@ + crate::text::truth(turns_off)
                + " changes="@ + crate::text::decimal(changes as nat),
        }
    }

    /// The message to the user.
    pub fn message(&self) -> (message: String)
        ensures
            message@ == self.text(),
    {
        let mut out = String::new();
        match *self {
            Error::Read(status) => {
                out.append("read failed: ");
                push_signed(&mut out, status);
            },
            Error::Write(status) => {
                out.append("write failed: ");
                push_signed(&mut out, status);
            },
            Error::TaskForPid(status) => {
                out.append("task_for_pid failed: ");
                push_signed(&mut out, status);
            },
            Error::ImageNotFound => out.append("Roblox image not found"),
            Error::BadMacho => out.append("bad macho"),
            Error::SchedulerNotFound => out.append("scheduler not found"),
            Error::LayerNotFound => out.append("Metal layer not found"),
            Error::SyncFieldNotFound { size, pointers, starts_on, turns_off, changes } => {
                out.append("display sync field not found: size=");
                push_hex(&mut out, size);
                out.append(" pointers=");
                push_decimal(&mut out, pointers);
                out.append(" setter=");
                push_truth(&mut out, starts_on);
                out.append("/");
                push_truth(&mut out, turns_off);
                out.append(" changes=");
                push_decimal(&mut out, changes);
            },
        }
        assert(out@ =~= self.text());
        out
    }
}

/// The messages: what failed, with the kernel's code as a signed number, or what is missing. Of a
/// trial that told nothing they give the size of the layer in hexadecimal, how many pointers it
/// has, whether it could be switched on and off, and how many bytes moved.
pub proof fn messages_say_what_failed(
    code: i32,
    size: u64,
    pointers: u64,
    starts_on: bool,
    turns_off: bool,
    changes: u64,
)
    ensures
        Error::Read(code).text() == "read failed: "@ + crate::text::signed_decimal(code as int),
        Error::Write(code).text() == "write failed: "@ + crate::text::signed_decimal(code as int),
        Error::TaskForPid(code).text() == "task_for_pid failed: "@ + crate::text::signed_decimal(
            code as int,
        ),
        Error::ImageNotFound.text() == "Roblox image not found"@,
        Error::BadMacho.text() == "bad macho"@,
        Error::SchedulerNotFound.text() == "scheduler not found"@,
        Error::LayerNotFound.text() == "Metal layer not found"@,
        (Error::SyncFieldNotFound { size, pointers, starts_on, turns_off, changes }).text()
            == "display sync field not found: size="@ + crate::text::prefixed_hex(size as nat)
            + " pointers="@ + crate::text::decimal(pointers as nat) + " setter="@
            + crate::text::truth(starts_on) + "/"@ + crate::text::truth(turns_off) + " changes="@
            + crate::text::decimal(changes as nat),
{
}

} // verus!
