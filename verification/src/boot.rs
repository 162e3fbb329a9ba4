//! Boot decisions the two cores take through shared memory: the firmware
//! approval CM7 publishes after checking the CM4 image, and how CM4 waits
//! for it.
use vstd::prelude::*;
use crate::mem::{APPROVED_MAGIC, BOOT_NORMAL, BOOT_UPDATE, CM7_ACK};

verus! {

/// Number of times CM4 reads `FW_APPROVED` before giving up.
pub const APPROVAL_POLLS: u32 = 10;

/// The `FW_APPROVED` word CM7 writes once it has computed the CRC of the
/// CM4 image: the approval magic when it equals the golden CRC, zero
/// otherwise.
pub fn approval_word(computed: u32, golden: u32) -> (w: u32)
    ensures
        w == (if computed == golden { APPROVED_MAGIC } else { 0 }),
{
    if computed == golden {
        0xDEAD_BEEF
    } else {
        0
    }
}

/// What CM4 does after reading `FW_APPROVED`.
#[derive(Debug, Clone, Copy, PartialEq, Eq, Structural)]
pub enum ApprovalPoll {
    /// The firmware is approved: run it.
    Approved,
    /// Wait, then read again.
    Retry,
    /// Wait, then give up: the firmware is not approved.
    TimedOut,
}

/// The decision after read number `attempt` (from 0) of `FW_APPROVED`
/// gave `value`.
pub open spec fn approval_poll_spec(attempt: u32, value: u32) -> ApprovalPoll {
    if value == APPROVED_MAGIC {
        ApprovalPoll::Approved
    } else if attempt + 1 < APPROVAL_POLLS {
        ApprovalPoll::Retry
    } else {
        ApprovalPoll::TimedOut
    }
}

/// Only the approval magic approves the firmware: whatever the poll,
/// reading `0xDEAD_BEEF` approves it, and reading any other word retries,
/// or times out on the last poll.
pub proof fn lemma_only_magic_approves(attempt: u32, value: u32)
    requires
        attempt < APPROVAL_POLLS,
    ensures
        (approval_poll_spec(attempt, value) == ApprovalPoll::Approved) == (value == 0xDEAD_BEEFu32),
        value != 0xDEAD_BEEFu32 && attempt + 1 < 10 ==> approval_poll_spec(attempt, value)
            == ApprovalPoll::Retry,
        value != 0xDEAD_BEEFu32 && attempt + 1 == 10 ==> approval_poll_spec(attempt, value)
            == ApprovalPoll::TimedOut,
{
}

/// Decides after read number `attempt` (from 0) of `FW_APPROVED`: the
/// approval magic approves, and ten reads without it time out.
pub fn approval_poll(attempt: u32, value: u32) -> (p: ApprovalPoll)
    requires
        attempt < APPROVAL_POLLS,
    ensures
        p == approval_poll_spec(attempt, value),
{
    if value == 0xDEAD_BEEF {
        ApprovalPoll::Approved
    } else if attempt + 1 < 10 {
        ApprovalPoll::Retry
    } else {
        ApprovalPoll::TimedOut
    }
}

/// CM4 approves its firmware on reading the word CM7 published exactly
/// when the CRC CM7 computed equals the golden CRC; otherwise it keeps
/// polling, and times out on the last poll.
pub proof fn lemma_cm4_follows_cm7(computed: u32, golden: u32, attempt: u32)
    requires
        attempt < APPROVAL_POLLS,
    ensures
        (approval_poll_spec(attempt, if computed == golden { APPROVED_MAGIC } else { 0 })
            == ApprovalPoll::Approved) == (computed == golden),
{
}

/// What CM4 does once the handshake with CM7 is done.
#[derive(Debug, Clone, Copy, PartialEq, Eq, Structural)]
pub enum Cm4Path {
    /// Update mode: keep blinking while CM7 serves the host.
    Companion,
    /// Normal boot: wait for the firmware approval.
    AwaitApproval,
}

/// The path CM4 takes for the boot mode CM7 published.
pub open spec fn cm4_path_spec(boot_mode: u32) -> Cm4Path {
    if boot_mode == BOOT_UPDATE {
        Cm4Path::Companion
    } else {
        Cm4Path::AwaitApproval
    }
}

/// CM4 follows the boot mode CM7 published.
pub fn cm4_path(boot_mode: u32) -> (p: Cm4Path)
    ensures
        p == cm4_path_spec(boot_mode),
{
    if boot_mode == 1 {
        Cm4Path::Companion
    } else {
        Cm4Path::AwaitApproval
    }
}

/// Whether the `DIAG` word CM4 polls holds CM7's acknowledgement.
pub fn cm7_acknowledged(diag: u32) -> (ack: bool)
    ensures
        ack == (diag == CM7_ACK),
{
    diag == 0xCAFE_F00D
}

/// The boot mode for the user button sampled at power-on: the button is
/// active low, so a low (pressed) button selects update mode and a high
/// (released) one a normal boot.
pub open spec fn boot_mode_spec(button_low: bool) -> u32 {
    if button_low {
        BOOT_UPDATE
    } else {
        BOOT_NORMAL
    }
}

/// The boot mode CM7 selects from the user button.
pub fn boot_mode_for(button_low: bool) -> (mode: u32)
    ensures
        mode == boot_mode_spec(button_low),
{
    if button_low {
        1
    } else {
        0
    }
}

/// CM4 takes the path of the mode CM7 selected from the button: with the
/// button pressed it keeps CM7 company while the host is served, with it
/// released it waits for the firmware approval.
pub proof fn lemma_cm4_path_follows_button(button_low: bool)
    ensures
        cm4_path_spec(boot_mode_spec(button_low)) == (if button_low {
            Cm4Path::Companion
        } else {
            Cm4Path::AwaitApproval
        }),
{
}

} // verus!
