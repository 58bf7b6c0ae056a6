//! The concurrent walk's shared state and its per-entry bookkeeping.
//!
//! Worker threads that traverse the filesystem share two flags (pause and
//! cancel) and a set of running totals. The decisions a worker takes at
//! each safe point, and the bookkeeping for each discovered entry, are
//! pure functions defined here; the driver performs the blocking work
//! (directory reads, metadata, sleeping, sending) around them and owns
//! the channel. Every message stream ends in exactly one `Done` carrying
//! the assembled tree.

use std::sync::atomic::{AtomicBool, Ordering};
use std::sync::Arc;
use vstd::prelude::*;

use crate::builder::{build_tree, file_entries, kept_entries};
use crate::model::Tree;

verus! {

/// One message of the stream a scan produces. Totals never decrease from
/// one `Progress` to the next; `Done` comes exactly once, last.
#[derive(Debug, Clone)]
pub enum ScanMsg {
    Progress { scanned: u64, discovered: u64, bytes: u128 },
    DirDone { path: String, bytes: u128, files: u64, dirs: u64 },
    File { path: String, bytes: u64 },
    Done(Tree),
    Error(String),
}

/// The two cooperative flags of one scan, shared with every worker.
pub struct Scanner {
    cancel: Arc<AtomicBool>,
    paused: Arc<AtomicBool>,
}

impl Scanner {
    /// A scanner around the caller's shared flags.
    pub fn new(cancel: Arc<AtomicBool>, paused: Arc<AtomicBool>) -> Scanner {
        Scanner { cancel, paused }
    }

    /// Reads the cancel flag; another thread may change it at any time.
    pub fn is_cancelled(&self) -> bool {
        self.cancel.load(Ordering::Relaxed)
    }

    /// Reads the pause flag; another thread may change it at any time.
    pub fn is_paused(&self) -> bool {
        self.paused.load(Ordering::Relaxed)
    }
}

/// What a worker does next at a safe point, before taking up an entry.
#[derive(Debug, Clone, Copy, PartialEq, Eq, Structural)]
pub enum WalkDecision {
    /// Process the entry.
    Proceed,
    /// Paused: sleep briefly, then decide again.
    SleepAndRecheck,
    /// Cancelled: contribute no further entries.
    Quit,
}

/// The decision taken at a safe point from one reading of the two flags.
/// Cancellation wins over pause, so a cancel issued during a pause is
/// honoured at the next check rather than deferred until resume.
pub fn safe_point_decision(cancelled: bool, paused: bool) -> (r: WalkDecision)
    ensures
        cancelled ==> r == WalkDecision::Quit,
        !cancelled && paused ==> r == WalkDecision::SleepAndRecheck,
        !cancelled && !paused ==> r == WalkDecision::Proceed,
{
    if cancelled {
        WalkDecision::Quit
    } else if paused {
        WalkDecision::SleepAndRecheck
    } else {
        WalkDecision::Proceed
    }
}

/// The running totals of one scan.
#[derive(Debug, Clone, Copy, PartialEq, Eq, Structural)]
pub struct WalkTotals {
    pub scanned: u64,
    pub discovered: u64,
    pub bytes: u128,
}

impl Default for WalkTotals {
    fn default() -> (r: Self)
        ensures
            r.scanned == 0 && r.discovered == 0 && r.bytes == 0,
    {
        WalkTotals { scanned: 0, discovered: 0, bytes: 0 }
    }
}

/// What a worker found at one entry. A regular file is measured when its
/// metadata could be read and unreadable otherwise; a traversal fault
/// (permission, transient error) touches no file.
pub enum EntryEvent {
    FileMeasured { path: String, size: u64 },
    FileUnreadable { path: String },
    TraversalError { description: String },
}

/// `x`, saturated into a `u64`.
pub open spec fn sat_u64(x: int) -> u64 {
    if x > u64::MAX {
        u64::MAX
    } else {
        x as u64
    }
}

/// `x`, saturated into a `u128`.
pub open spec fn sat_u128(x: int) -> u128 {
    if x > u128::MAX {
        u128::MAX
    } else {
        x as u128
    }
}

/// The totals after one entry: a file raises `discovered` and `scanned`
/// whether or not it could be measured, and only a measured one adds its
/// bytes; a traversal fault changes nothing.
pub open spec fn totals_after(t: WalkTotals, e: EntryEvent) -> WalkTotals {
    match e {
        EntryEvent::FileMeasured { path, size } => WalkTotals {
            scanned: sat_u64(t.scanned + 1),
            discovered: sat_u64(t.discovered + 1),
            bytes: sat_u128(t.bytes + size),
        },
        EntryEvent::FileUnreadable { path } => WalkTotals {
            scanned: sat_u64(t.scanned + 1),
            discovered: sat_u64(t.discovered + 1),
            bytes: t.bytes,
        },
        EntryEvent::TraversalError { description } => t,
    }
}

/// The collected file list after one entry: only a measured file joins it.
pub open spec fn collected_after(c: Seq<(String, u64)>, e: EntryEvent) -> Seq<(String, u64)> {
    match e {
        EntryEvent::FileMeasured { path, size } => c.push((path, size)),
        EntryEvent::FileUnreadable { path } => c,
        EntryEvent::TraversalError { description } => c,
    }
}

/// The messages one entry emits: a `Progress` with the new totals for any
/// file, a `File` after it for a measured one, and an `Error` for a
/// traversal fault.
pub open spec fn messages_for(t: WalkTotals, e: EntryEvent) -> Seq<ScanMsg> {
    match e {
        EntryEvent::FileMeasured { path, size } => seq![
            ScanMsg::Progress { scanned: t.scanned, discovered: t.discovered, bytes: t.bytes },
            ScanMsg::File { path: path, bytes: size },
        ],
        EntryEvent::FileUnreadable { path } => seq![
            ScanMsg::Progress { scanned: t.scanned, discovered: t.discovered, bytes: t.bytes },
        ],
        EntryEvent::TraversalError { description } => seq![ScanMsg::Error(description)],
    }
}

/// Applies one entry to the running totals and the collected file list,
/// and returns the messages to send, in order. The totals never decrease.
pub fn process_entry(
    totals: &mut WalkTotals,
    collected: &mut Vec<(String, u64)>,
    event: EntryEvent,
) -> (msgs: Vec<ScanMsg>)
    ensures
        *final (totals) == totals_after(*old(totals), event),
        final (collected)@ == collected_after(old(collected)@, event),
        msgs@ == messages_for(*final (totals), event),
        final (totals).scanned >= old(totals).scanned,
        final (totals).discovered >= old(totals).discovered,
        final (totals).bytes >= old(totals).bytes,
{
    let mut msgs: Vec<ScanMsg> = Vec::new();
    match event {
        EntryEvent::FileMeasured { path, size } => {
            totals.scanned = totals.scanned.saturating_add(1);
            totals.discovered = totals.discovered.saturating_add(1);
            totals.bytes = totals.bytes.saturating_add(size as u128);
            msgs.push(
                ScanMsg::Progress {
                    scanned: totals.scanned,
                    discovered: totals.discovered,
                    bytes: totals.bytes,
                },
            );
            msgs.push(ScanMsg::File { path: path.clone(), bytes: size });
            collected.push((path, size));
            proof {
                assert(msgs@ =~= messages_for(*totals, EntryEvent::FileMeasured { path, size }));
            }
            msgs
        },
        EntryEvent::FileUnreadable { path } => {
            totals.scanned = totals.scanned.saturating_add(1);
            totals.discovered = totals.discovered.saturating_add(1);
            msgs.push(
                ScanMsg::Progress {
                    scanned: totals.scanned,
                    discovered: totals.discovered,
                    bytes: totals.bytes,
                },
            );
            proof {
                assert(msgs@ =~= messages_for(*totals, EntryEvent::FileUnreadable { path }));
            }
            msgs
        },
        EntryEvent::TraversalError { description } => {
            msgs.push(ScanMsg::Error(description.clone()));
            proof {
                assert(msgs@ =~= messages_for(
                    *totals,
                    EntryEvent::TraversalError { description },
                ));
            }
            msgs
        },
    }
}

/// Assembles the collected files into the final tree and wraps it as the
/// terminal message of the stream.
pub fn finish_scan(root: &str, files: Vec<(String, u64)>) -> (msg: ScanMsg)
    ensures
        match msg {
            ScanMsg::Done(t) => t.wf() && t.nodes@[0].path@ == root@ && file_entries(t.nodes@)
                == kept_entries(root@, files@) && (files@.len() == 0 ==> t.nodes@.len() == 1
                && t.nodes@[0].size == 0),
            _ => false,
        },
{
    let tree = build_tree(root, files);
    ScanMsg::Done(tree)
}

} // verus!
