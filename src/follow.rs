//! The follow engine: the state of one follow session and its transitions on
//! observed changes, rotation checks and process-liveness probes.
use vstd::prelude::*;
use crate::select::{terminator_byte, terminator_of};

verus! {

/// A stable identity of the storage object behind an open file (device and inode).
#[derive(Clone, Copy, Debug, PartialEq, Eq, Structural)]
pub struct IdentityToken {
    pub device: u64,
    pub inode: u64,
}

/// What one observed change asks to be written: a truncation notice when
/// `truncated`, then the bytes `[start, end)` of the file.
#[derive(Clone, Copy, Debug, PartialEq, Eq, Structural)]
pub struct Emission {
    pub truncated: bool,
    pub start: u64,
    pub end: u64,
}

/// The kind of a change notification.
#[derive(Clone, Copy, Debug, PartialEq, Eq, Structural)]
pub enum ChangeKind {
    /// The file's data was modified.
    Data,
    /// A name in the watched place was changed or created.
    Name,
    Other,
}

/// What the engine does with a change notification.
#[derive(Clone, Copy, Debug, PartialEq, Eq, Structural)]
pub enum EventResponse {
    Ignore,
    /// Read and emit what the file gained, or recover from truncation.
    ProcessChange,
    /// Reopen the path and compare identities, then process the change.
    CheckRotation,
}

/// The outcome of a zero-effect existence probe of a process.
#[derive(Clone, Copy, Debug, PartialEq, Eq, Structural)]
pub enum ProcessProbe {
    Absent,
    Present,
    /// The probe was refused for lack of permission.
    Denied,
}

/// The emission owed when the file is seen at `current` bytes, with `position`
/// bytes emitted and `recorded` the length last observed.
pub open spec fn step_emission(position: u64, recorded: u64, current: u64) -> Emission {
    if current > position {
        Emission { truncated: false, start: position, end: current }
    } else if current < recorded {
        Emission { truncated: true, start: 0, end: current }
    } else {
        Emission { truncated: false, start: position, end: position }
    }
}

/// The bytes emitted over a run of observed lengths `lens`, each a prefix length of
/// `file`, from a session at `position` with `recorded` the length last observed.
pub open spec fn emitted_over(file: Seq<u8>, position: u64, recorded: u64, lens: Seq<u64>) -> Seq<u8>
    decreases lens.len(),
{
    if lens.len() == 0 {
        Seq::empty()
    } else {
        let e = step_emission(position, recorded, lens[0]);
        file.subrange(e.start as int, e.end as int) + emitted_over(
            file,
            lens[0],
            lens[0],
            lens.drop_first(),
        )
    }
}

/// The state of a follow session.
pub struct FollowFile {
    /// Bytes of the current file already emitted.
    pub position: u64,
    /// The file's length when last observed.
    pub starting_len: u64,
    pub identity: IdentityToken,
    /// The last emitted byte was not the terminator.
    pub partial: bool,
    pub line_terminator: u8,
    /// Follow the path rather than the open file, reopening it on rotation.
    pub follow_name: bool,
    pub terminate_after_pid: Option<i32>,
}

impl FollowFile {
    pub open spec fn wf(&self) -> bool {
        self.position <= self.starting_len
    }

    /// Starts a session on a file of `starting_len` bytes: emission resumes at its
    /// end.
    pub fn new(
        starting_len: u64,
        identity: IdentityToken,
        zero_terminated: bool,
        follow_name: bool,
        terminate_after_pid: Option<i32>,
    ) -> (r: FollowFile)
        ensures
            r.wf(),
            r.position == starting_len,
            r.starting_len == starting_len,
            r.identity == identity,
            !r.partial,
            r.line_terminator == terminator_of(zero_terminated),
            r.follow_name == follow_name,
            r.terminate_after_pid == terminate_after_pid,
    {
        FollowFile {
            position: starting_len,
            starting_len,
            identity,
            partial: false,
            line_terminator: terminator_byte(zero_terminated),
            follow_name,
            terminate_after_pid,
        }
    }

    /// Whether a separator is written on entry, given the file's last byte, so
    /// that appended text starts on a record of its own. It does not move
    /// `position`.
    pub fn needs_separator(&self, last_byte: u8) -> (r: bool)
        ensures
            r == (self.starting_len > 0 && last_byte != self.line_terminator),
    {
        self.starting_len > 0 && last_byte != self.line_terminator
    }

    /// What to do with a notification of `kind`; `is_target` tells whether it
    /// names the followed path.
    pub fn respond_to(&self, kind: ChangeKind, is_target: bool) -> (r: EventResponse)
        ensures
            r == if !is_target {
                EventResponse::Ignore
            } else {
                match kind {
                    ChangeKind::Data => EventResponse::ProcessChange,
                    ChangeKind::Name => if self.follow_name {
                        EventResponse::CheckRotation
                    } else {
                        EventResponse::Ignore
                    },
                    ChangeKind::Other => EventResponse::Ignore,
                }
            },
    {
        if !is_target {
            return EventResponse::Ignore;
        }
        match kind {
            ChangeKind::Data => EventResponse::ProcessChange,
            ChangeKind::Name => if self.follow_name {
                EventResponse::CheckRotation
            } else {
                EventResponse::Ignore
            },
            ChangeKind::Other => EventResponse::Ignore,
        }
    }

    /// Observes the file at `current_size` bytes. Appended bytes are emitted from
    /// `position`; a shrink with nothing new is a truncation: one notice, then the
    /// whole new content from offset 0. Afterwards everything up to
    /// `current_size` counts as emitted and is the recorded length.
    pub fn process_file_change(&mut self, current_size: u64) -> (e: Emission)
        requires
            old(self).wf(),
        ensures
            e == step_emission(old(self).position, old(self).starting_len, current_size),
            e.end == current_size,
            e.start <= e.end,
            e.truncated == (current_size <= old(self).position && current_size
                < old(self).starting_len),
            e.truncated ==> e.start == 0,
            final(self).wf(),
            final(self).position == current_size,
            final(self).starting_len == current_size,
            final(self).partial == if e.truncated { false } else { old(self).partial },
            final(self).identity == old(self).identity,
            final(self).line_terminator == old(self).line_terminator,
            final(self).follow_name == old(self).follow_name,
            final(self).terminate_after_pid == old(self).terminate_after_pid,
    {
        let e = if current_size > self.position {
            Emission { truncated: false, start: self.position, end: current_size }
        } else if current_size < self.starting_len {
            self.partial = false;
            Emission { truncated: true, start: 0, end: current_size }
        } else {
            Emission { truncated: false, start: self.position, end: self.position }
        };
        self.position = current_size;
        self.starting_len = current_size;
        e
    }

    /// Records that `bytes` were just emitted: `partial` then tells whether the
    /// last of them was not the terminator.
    pub fn note_emitted(&mut self, bytes: &[u8])
        ensures
            final(self).partial == if bytes@.len() == 0 {
                old(self).partial
            } else {
                bytes@.last() != old(self).line_terminator
            },
            final(self).position == old(self).position,
            final(self).starting_len == old(self).starting_len,
            final(self).identity == old(self).identity,
            final(self).line_terminator == old(self).line_terminator,
            final(self).follow_name == old(self).follow_name,
            final(self).terminate_after_pid == old(self).terminate_after_pid,
    {
        let n = bytes.len();
        if n > 0 {
            self.partial = bytes[n - 1] != self.line_terminator;
        }
    }

    /// Compares the identity of the file now at the path with the one followed.
    /// On a change the old handle is retired: the new file starts fresh, followed
    /// from offset 0 with nothing recorded of the old file's length. An unchanged
    /// identity leaves the state as it was.
    pub fn reopen_if_rotated(&mut self, reopened: IdentityToken) -> (rotated: bool)
        requires
            old(self).wf(),
        ensures
            rotated == (reopened != old(self).identity),
            final(self).wf(),
            rotated ==> final(self).position == 0 && final(self).starting_len == 0
                && final(self).identity == reopened,
            !rotated ==> *final(self) == *old(self),
            final(self).partial == old(self).partial,
            final(self).line_terminator == old(self).line_terminator,
            final(self).follow_name == old(self).follow_name,
            final(self).terminate_after_pid == old(self).terminate_after_pid,
    {
        if reopened != self.identity {
            self.identity = reopened;
            self.position = 0;
            self.starting_len = 0;
            true
        } else {
            false
        }
    }
}

/// Waiting for a followed path to reappear: the "not found" notice is written once,
/// on the first failed attempt to reopen it.
pub struct ReopenWait {
    pub announced: bool,
}

impl ReopenWait {
    pub fn new() -> (r: ReopenWait)
        ensures
            !r.announced,
    {
        ReopenWait { announced: false }
    }

    /// An attempt to reopen the path failed; returns whether to write the notice.
    pub fn on_missing(&mut self) -> (notify: bool)
        ensures
            notify == !old(self).announced,
            final(self).announced,
    {
        let notify = !self.announced;
        self.announced = true;
        notify
    }
}

/// Whether a probed process counts as running: only a probe that finds no such
/// process ends the session; a refused probe counts as running.
pub fn is_process_running(probe: ProcessProbe) -> (r: bool)
    ensures
        r == !(probe is Absent),
{
    match probe {
        ProcessProbe::Absent => false,
        ProcessProbe::Present => true,
        ProcessProbe::Denied => true,
    }
}

/// Over a follow session on a file that only grows, the emissions put together are
/// exactly the bytes appended since the session started: each observed length is
/// a prefix of `file`, and the lengths never decrease.
pub proof fn lemma_follow_emits_appended(file: Seq<u8>, start: u64, lens: Seq<u64>)
    requires
        start <= file.len(),
        forall|i: int| 0 <= i < lens.len() ==> start <= #[trigger] lens[i] <= file.len(),
        forall|i: int, j: int| 0 <= i <= j < lens.len() ==> lens[i] <= lens[j],
    ensures
        emitted_over(file, start, start, lens) == file.subrange(
            start as int,
            if lens.len() == 0 { start as int } else { lens.last() as int },
        ),
    decreases lens.len(),
{
    if lens.len() == 0 {
        assert(file.subrange(start as int, start as int) =~= Seq::<u8>::empty());
    } else {
        let next = lens[0];
        let rest = lens.drop_first();
        assert forall|i: int| 0 <= i < rest.len() implies next <= #[trigger] rest[i] <= file.len() by {
            assert(rest[i] == lens[i + 1]);
        }
        assert forall|i: int, j: int| 0 <= i <= j < rest.len() implies rest[i] <= rest[j] by {
            assert(rest[i] == lens[i + 1] && rest[j] == lens[j + 1]);
        }
        lemma_follow_emits_appended(file, next, rest);
        let last: int = if rest.len() == 0 { next as int } else { rest.last() as int };
        assert(last == lens.last());
        assert(lens[0] <= lens.last());
        assert(file.subrange(start as int, next as int) + file.subrange(next as int, last)
            =~= file.subrange(start as int, last));
    }
}

/// After a rotation (which sets `position` and the recorded length to 0), the next
/// observed change emits the new file from offset 0 to its current end, with no
/// truncation notice, also when the new file is empty.
pub proof fn lemma_rotation_restarts(len: u64)
    ensures
        step_emission(0, 0, len) == (Emission { truncated: false, start: 0, end: len }),
{
}

/// A shrink with nothing new gives one truncation notice and one emission of the
/// whole new content; observing the same length again emits nothing more and no
/// further notice.
pub proof fn lemma_truncation_once(position: u64, recorded: u64, current: u64)
    requires
        position <= recorded,
        current <= position,
        current < recorded,
    ensures
        step_emission(position, recorded, current) == (Emission { truncated: true, start: 0, end: current }),
        step_emission(current, current, current) == (Emission { truncated: false, start: current, end: current }),
{
}

} // verus!
