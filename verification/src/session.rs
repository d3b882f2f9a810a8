//! Decisions the editor takes about open files: noticing that a file changed
//! on disk, and closing a tab that holds unsaved edits.
use vstd::prelude::*;

verus! {

/// What the editor does about the file of the active tab after a check of
/// its time stamp on disk.
#[derive(Debug, Clone, Copy, PartialEq, Eq, Structural)]
pub enum DiskAction {
    Nothing,
    /// The file changed and the tab has unsaved edits: warn.
    WarnDirty,
    /// The file changed and the tab has none: offer to reload it.
    AskReload,
}

/// What a tab remembers of its file on disk: the last write time seen (in
/// seconds), and whether a change has already been reported.
#[derive(Debug, Clone, Copy)]
pub struct DiskWatch {
    pub last_write_secs: Option<u64>,
    pub notified: bool,
}

/// The watch and the action after a check that found the file written at
/// `current` (none when the time could not be read).
pub open spec fn disk_step(watch: DiskWatch, current: Option<u64>, dirty: bool) -> (DiskWatch, DiskAction) {
    match current {
        None => (watch, DiskAction::Nothing),
        Some(cur) => match watch.last_write_secs {
            None => (DiskWatch { last_write_secs: Some(cur), notified: watch.notified }, DiskAction::Nothing),
            Some(known) => if cur == known || watch.notified {
                (watch, DiskAction::Nothing)
            } else {
                (
                    DiskWatch { last_write_secs: watch.last_write_secs, notified: true },
                    if dirty {
                        DiskAction::WarnDirty
                    } else {
                        DiskAction::AskReload
                    },
                )
            },
        },
    }
}

/// One check of the file on disk: the first time seen is recorded, and a
/// new time is reported once, as a warning when the tab has unsaved edits,
/// else as an offer to reload.
pub fn poll_disk_change(watch: DiskWatch, current: Option<u64>, dirty: bool) -> (r: (DiskWatch, DiskAction))
    ensures
        r == disk_step(watch, current, dirty),
{
    match current {
        None => (watch, DiskAction::Nothing),
        Some(cur) => match watch.last_write_secs {
            None => (DiskWatch { last_write_secs: Some(cur), notified: watch.notified }, DiskAction::Nothing),
            Some(known) => {
                if cur == known || watch.notified {
                    (watch, DiskAction::Nothing)
                } else {
                    let action = if dirty {
                        DiskAction::WarnDirty
                    } else {
                        DiskAction::AskReload
                    };
                    (DiskWatch { last_write_secs: watch.last_write_secs, notified: true }, action)
                }
            },
        },
    }
}

/// The watch once the user declines to reload a file written at `current`:
/// that time is taken as seen, and a later change is reported again.
pub fn reload_declined(current: u64) -> (r: DiskWatch)
    ensures
        r.last_write_secs == Some(current),
        !r.notified,
{
    DiskWatch { last_write_secs: Some(current), notified: false }
}

/// A change on disk is reported once: a check that reported a change
/// reports nothing on the next check, whatever the time then read.
pub proof fn lemma_change_reported_once(watch: DiskWatch, current: Option<u64>, next: Option<u64>, dirty: bool, dirty2: bool)
    requires
        disk_step(watch, current, dirty).1 != DiskAction::Nothing,
    ensures
        disk_step(disk_step(watch, current, dirty).0, next, dirty2).1 == DiskAction::Nothing,
{
}

/// A file whose time stamp is unchanged is never reported.
pub proof fn lemma_unchanged_not_reported(watch: DiskWatch, t: u64, dirty: bool)
    requires
        watch.last_write_secs == Some(t),
    ensures
        disk_step(watch, Some(t), dirty).1 == DiskAction::Nothing,
        disk_step(watch, Some(t), dirty).0 == watch,
{
}

/// An answer to "save changes?".
#[derive(Debug, Clone, Copy, PartialEq, Eq, Structural)]
pub enum SaveAnswer {
    Yes,
    No,
    Cancel,
}

/// What closing a tab does next.
#[derive(Debug, Clone, Copy, PartialEq, Eq, Structural)]
pub enum CloseStep {
    /// Close it, dropping what was not saved.
    Close,
    /// Save it first, then close it if that saved everything.
    Save,
    /// Keep it open.
    Keep,
}

/// What closing a tab does: a tab without unsaved edits closes; else the
/// answer to "save changes?" decides.
pub fn close_step(dirty: bool, answer: SaveAnswer) -> (r: CloseStep)
    ensures
        !dirty ==> r == CloseStep::Close,
        dirty ==> r == match answer {
            SaveAnswer::Yes => CloseStep::Save,
            SaveAnswer::No => CloseStep::Close,
            SaveAnswer::Cancel => CloseStep::Keep,
        },
{
    if !dirty {
        return CloseStep::Close;
    }
    match answer {
        SaveAnswer::Yes => CloseStep::Save,
        SaveAnswer::No => CloseStep::Close,
        SaveAnswer::Cancel => CloseStep::Keep,
    }
}

/// What closing does once the tab was saved: a tab that still holds unsaved
/// edits (the save failed or was cancelled) stays open.
pub fn after_save(still_dirty: bool) -> (r: CloseStep)
    ensures
        r == if still_dirty {
            CloseStep::Keep
        } else {
            CloseStep::Close
        },
{
    if still_dirty {
        CloseStep::Keep
    } else {
        CloseStep::Close
    }
}

} // verus!
