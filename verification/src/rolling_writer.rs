//! The rolling output sink: it divides the bytes written to it among parts
//! of bounded size, and says what is to be done with files for that.
//!
//! The sink touches no file. Each call returns the actions that its caller
//! is to perform, in order; a caller that fails at one of them reports it
//! with `abort`.

use vstd::prelude::*;
use vstd::string::StringExecFns;
use crate::text::{padded_decimal_of, push_decimal};

verus! {

/// One action on files, as a value of specifications.
pub enum Step {
    /// Create the file at `path`, empty, as the open part.
    Open { path: Seq<char> },
    /// Write the bytes `start..end` of the caller's buffer to the open part.
    Append { start: nat, end: nat },
    /// Flush the open part.
    Flush,
    /// Flush the open part and close it.
    Close,
    /// Rename the part that was closed last.
    Rename { from: Seq<char>, to: Seq<char> },
    /// Hand the name of a finished part to the listener.
    Notify { path: Seq<char> },
}

/// One action on files that the caller of the sink is to perform.
#[derive(Debug, PartialEq, Eq)]
pub enum SinkAction {
    /// Create the file at `path`, empty, as the open part.
    Open { path: String },
    /// Write the bytes `start..end` of the buffer to the open part, all of
    /// them.
    Append { start: usize, end: usize },
    /// Flush the open part.
    Flush,
    /// Flush the open part and close it.
    Close,
    /// Rename the part that was closed last.
    Rename { from: String, to: String },
    /// Hand the name of a finished part to the listener; what the listener
    /// answers decides whether the operation goes on.
    Notify { path: String },
}

impl View for SinkAction {
    type V = Step;

    open spec fn view(&self) -> Step {
        match *self {
            SinkAction::Open { path } => Step::Open { path: path@ },
            SinkAction::Append { start, end } => Step::Append { start: start as nat, end: end as nat },
            SinkAction::Flush => Step::Flush,
            SinkAction::Close => Step::Close,
            SinkAction::Rename { from, to } => Step::Rename { from: from@, to: to@ },
            SinkAction::Notify { path } => Step::Notify { path: path@ },
        }
    }
}

/// The actions as values of specifications.
pub open spec fn steps_of(actions: Seq<SinkAction>) -> Seq<Step> {
    Seq::new(actions.len(), |i: int| actions[i]@)
}

/// What kind of error the sink reports.
#[derive(Debug, Clone, Copy, PartialEq, Eq, Structural)]
pub enum SinkErrorKind {
    /// An argument was not acceptable.
    InvalidInput,
    /// Anything else.
    Other,
}

/// Why the sink refuses an operation.
#[derive(Debug, Clone, Copy, PartialEq, Eq, Structural)]
pub enum SinkError {
    /// The bound on the size of a part was 0.
    InvalidMaxSize,
    /// Bytes were written while no part was open.
    NoFileHandle,
    /// The parts needed would pass the largest part number.
    TooManyParts,
    /// Fewer bytes went to the file than the action asked for.
    WriteMismatch { expected: usize, returned: usize },
}

/// The kind of each error.
pub open spec fn kind_of(e: SinkError) -> SinkErrorKind {
    match e {
        SinkError::InvalidMaxSize => SinkErrorKind::InvalidInput,
        _ => SinkErrorKind::Other,
    }
}

/// The text of each error.
pub open spec fn sink_message_of(e: SinkError) -> Seq<char> {
    match e {
        SinkError::InvalidMaxSize => "max_size must be at least 1 byte: 0"@,
        SinkError::NoFileHandle => "No file handle available"@,
        SinkError::TooManyParts => "Too many parts"@,
        SinkError::WriteMismatch { expected, returned } =>
            "Unexpected write-size mismatch. Expected: "@ + padded_decimal_of(expected as nat, 1)
                + ", Returned: "@ + padded_decimal_of(returned as nat, 1),
    }
}

impl SinkError {
    /// The kind of the error.
    pub fn kind(&self) -> (r: SinkErrorKind)
        ensures
            r == kind_of(*self),
    {
        match self {
            SinkError::InvalidMaxSize => SinkErrorKind::InvalidInput,
            _ => SinkErrorKind::Other,
        }
    }

    /// The text of the error.
    pub fn message(&self) -> (r: String)
        ensures
            r@ == sink_message_of(*self),
    {
        match *self {
            SinkError::InvalidMaxSize => String::from_str("max_size must be at least 1 byte: 0"),
            SinkError::NoFileHandle => String::from_str("No file handle available"),
            SinkError::TooManyParts => String::from_str("Too many parts"),
            SinkError::WriteMismatch { expected, returned } => {
                let mut out = String::from_str("Unexpected write-size mismatch. Expected: ");
                push_decimal(&mut out, expected as u64, 1);
                out.append(", Returned: ");
                push_decimal(&mut out, returned as u64, 1);
                out
            },
        }
    }
}

/// Holds the caller to an `Append` action: all of its bytes are to reach
/// the file, and a count that differs is an error.
pub fn check_written(expected: usize, returned: usize) -> (r: Result<(), SinkError>)
    ensures
        r == if expected == returned {
            Ok::<(), SinkError>(())
        } else {
            Err(SinkError::WriteMismatch { expected, returned })
        },
{
    if expected == returned {
        Ok(())
    } else {
        Err(SinkError::WriteMismatch { expected, returned })
    }
}

/// The state of a sink.
pub struct SinkState {
    /// The path of the finished output.
    pub base_path: Seq<char>,
    /// The largest size of a part, if parts are bounded.
    pub max_size: Option<nat>,
    /// Whether a listener is to hear of each finished part.
    pub has_listener: bool,
    /// Whether a part is open.
    pub open: bool,
    /// How many parts were opened so far, if parts are bounded; else 0.
    pub part_counter: nat,
    /// How many bytes the open part holds, if parts are bounded; else 0.
    pub current_size: nat,
}

/// The file name of part `n` of the output at `base`: `base`, then
/// `.part`, then `n` with three digits at least.
pub open spec fn part_name_of(base: Seq<char>, n: nat) -> Seq<char> {
    base + seq!['.', 'p', 'a', 'r', 't'] + padded_decimal_of(n, 3)
}

impl SinkState {
    /// What every sink's state satisfies. With bounded parts: the bound is
    /// at least 1, a part has been opened, no part holds more than the
    /// bound, and only the first part can be empty.
    pub open spec fn well_formed(self) -> bool {
        match self.max_size {
            Some(max) => {
                &&& max >= 1
                &&& 1 <= self.part_counter <= u32::MAX
                &&& self.current_size <= max
                &&& self.part_counter > 1 ==> self.current_size >= 1
            },
            None => self.part_counter == 0 && self.current_size == 0,
        }
    }

    /// The file name of the part that is open, or was open last.
    pub open spec fn current_path(self) -> Seq<char> {
        match self.max_size {
            Some(_) => part_name_of(self.base_path, self.part_counter),
            None => self.base_path,
        }
    }

    /// How many bytes the sink has taken in all, with bounded parts: every
    /// part before the open one is full.
    pub open spec fn bytes_taken(self) -> nat {
        match self.max_size {
            Some(max) => ((self.part_counter - 1) * max + self.current_size) as nat,
            None => 0,
        }
    }

    /// The state after `len` more bytes, with bounded parts: the bytes fill
    /// the open part, and each part after it, before the next is opened.
    pub open spec fn after_write(self, len: nat) -> SinkState {
        match self.max_size {
            Some(max) => {
                let room = (max - self.current_size) as nat;
                if len <= room {
                    SinkState { current_size: self.current_size + len, ..self }
                } else {
                    let beyond = (len - room - 1) as nat;
                    SinkState {
                        part_counter: self.part_counter + 1 + beyond / max,
                        current_size: beyond % max + 1,
                        ..self
                    }
                }
            },
            None => self,
        }
    }

    /// The state once the sink has no open part.
    pub open spec fn closed(self) -> SinkState {
        SinkState { open: false, ..self }
    }

    /// The actions that close the sink: nothing where no part is open;
    /// else the open part is closed, a single bounded part takes the name
    /// of the output, and the listener hears the name the part then has.
    pub open spec fn finalize_steps(self) -> Seq<Step> {
        if !self.open {
            Seq::empty()
        } else if self.part_counter == 1 {
            seq![Step::Close, Step::Rename { from: self.current_path(), to: self.base_path }]
                + notify_steps(self.has_listener, self.base_path)
        } else {
            seq![Step::Close] + notify_steps(self.has_listener, self.current_path())
        }
    }
}

/// The listener hears of `path`, if there is a listener.
pub open spec fn notify_steps(has_listener: bool, path: Seq<char>) -> Seq<Step> {
    if has_listener {
        seq![Step::Notify { path }]
    } else {
        Seq::empty()
    }
}

/// The actions that end part `counter` and begin the next: the part is
/// closed, the listener hears of it, and part `counter + 1` is opened.
pub open spec fn rollover_steps(base: Seq<char>, has_listener: bool, counter: nat) -> Seq<Step> {
    seq![Step::Close] + notify_steps(has_listener, part_name_of(base, counter)) + seq![
        Step::Open { path: part_name_of(base, counter + 1) },
    ]
}

/// The actions that write the bytes `start..end` of a buffer to a sink
/// with bounded parts whose open part is part `counter` and holds `size`
/// bytes: as many bytes as the part has room for go to it; while bytes
/// are left, the part is ended and the next one begun.
pub open spec fn bounded_write_steps(
    base: Seq<char>,
    has_listener: bool,
    max: nat,
    counter: nat,
    size: nat,
    start: nat,
    end: nat,
) -> Seq<Step>
    decreases end - start, size,
{
    if start >= end || max == 0 || size > max {
        Seq::empty()
    } else {
        let room = (max - size) as nat;
        if end - start <= room {
            seq![Step::Append { start, end }]
        } else {
            let filled = if room > 0 {
                seq![Step::Append { start, end: start + room }]
            } else {
                Seq::empty()
            };
            filled + rollover_steps(base, has_listener, counter) + bounded_write_steps(
                base,
                has_listener,
                max,
                counter + 1,
                0,
                start + room,
                end,
            )
        }
    }
}

/// The actions that write `len` bytes of a buffer to the sink in state
/// `s`, which has an open part.
pub open spec fn write_steps(s: SinkState, len: nat) -> Seq<Step> {
    match s.max_size {
        Some(max) => bounded_write_steps(
            s.base_path,
            s.has_listener,
            max,
            s.part_counter,
            s.current_size,
            0,
            len,
        ),
        None => if len > 0 {
            seq![Step::Append { start: 0, end: len }]
        } else {
            Seq::empty()
        },
    }
}

/// A byte sink that divides what is written to it among parts of bounded
/// size, or sends it all to one file.
pub struct RollingWriter {
    open: bool,
    current_size: usize,
    max_size: Option<usize>,
    base_path: String,
    part_counter: u32,
    has_listener: bool,
}

impl View for RollingWriter {
    type V = SinkState;

    closed spec fn view(&self) -> SinkState {
        SinkState {
            base_path: self.base_path@,
            max_size: match self.max_size {
                Some(m) => Some(m as nat),
                None => None,
            },
            has_listener: self.has_listener,
            open: self.open,
            part_counter: self.part_counter as nat,
            current_size: self.current_size as nat,
        }
    }
}

/// The file name of part `n` of the output at `base`.
pub fn part_name(base: &str, n: u32) -> (out: String)
    ensures
        out@ == part_name_of(base@, n as nat),
{
    let mut out = base.to_owned();
    proof {
        reveal_strlit(".part");
    }
    out.append(".part");
    assert(".part"@ =~= seq!['.', 'p', 'a', 'r', 't']);
    push_decimal(&mut out, n as u64, 3);
    out
}

/// Adding an action adds its view.
pub proof fn lemma_steps_push(actions: Seq<SinkAction>, action: SinkAction)
    ensures
        steps_of(actions.push(action)) == steps_of(actions).push(action@),
{
    assert(steps_of(actions.push(action)) =~= steps_of(actions).push(action@));
}

/// Puts one action after `actions`.
fn push_action(actions: &mut Vec<SinkAction>, action: SinkAction)
    ensures
        steps_of(final(actions)@) == steps_of(old(actions)@).push(action@),
{
    proof {
        lemma_steps_push(actions@, action);
    }
    actions.push(action);
}

/// Puts the actions that end part `counter` of the output at `base`, and
/// begin the next, after `actions`.
fn open_new_part(actions: &mut Vec<SinkAction>, base: &str, has_listener: bool, counter: u32)
    requires
        counter < u32::MAX,
    ensures
        steps_of(final(actions)@) == steps_of(old(actions)@) + rollover_steps(
            base@,
            has_listener,
            counter as nat,
        ),
{
    push_action(actions, SinkAction::Close);
    if has_listener {
        push_action(actions, SinkAction::Notify { path: part_name(base, counter) });
    }
    push_action(actions, SinkAction::Open { path: part_name(base, counter + 1) });
    assert(steps_of(actions@) =~= steps_of(old(actions)@) + rollover_steps(
        base@,
        has_listener,
        counter as nat,
    ));
}

impl RollingWriter {
    #[verifier::type_invariant]
    spec fn inv(self) -> bool {
        self@.well_formed()
    }

    /// A sink for the output at `base_path`, with its first part open, and
    /// the action that opens that part. With `max_size` the parts are
    /// bounded and numbered from 1; without it all bytes go to the file at
    /// `base_path`. A bound of 0 is refused.
    pub fn new(base_path: String, max_size: Option<usize>) -> (r: Result<
        (RollingWriter, Vec<SinkAction>),
        SinkError,
    >)
        ensures
            match r {
                Ok((writer, actions)) => {
                    &&& max_size != Some(0usize)
                    &&& writer@ == SinkState {
                        base_path: base_path@,
                        max_size: match max_size {
                            Some(m) => Some(m as nat),
                            None => None,
                        },
                        has_listener: false,
                        open: true,
                        part_counter: if max_size is Some {
                            1
                        } else {
                            0
                        },
                        current_size: 0,
                    }
                    &&& steps_of(actions@) == seq![Step::Open { path: writer@.current_path() }]
                },
                Err(e) => max_size == Some(0usize) && e == SinkError::InvalidMaxSize,
            },
    {
        let first = match max_size {
            Some(size) => {
                if size == 0 {
                    return Err(SinkError::InvalidMaxSize);
                }
                part_name(base_path.as_str(), 1)
            },
            None => base_path.clone(),
        };
        let writer = RollingWriter {
            open: true,
            current_size: 0,
            max_size,
            base_path,
            part_counter: if max_size.is_some() {
                1
            } else {
                0
            },
            has_listener: false,
        };
        let mut actions: Vec<SinkAction> = Vec::new();
        actions.push(SinkAction::Open { path: first });
        assert(steps_of(actions@) =~= seq![Step::Open { path: writer@.current_path() }]);
        Ok((writer, actions))
    }

    /// From now on the listener is to hear of every part that is finished.
    pub fn set_listener(&mut self)
        ensures
            final(self)@ == (SinkState { has_listener: true, ..old(self)@ }),
    {
        proof {
            use_type_invariant(&*self);
        }
        self.has_listener = true;
    }

    /// Whether a part is open.
    pub fn is_open(&self) -> (r: bool)
        ensures
            r == self@.open,
            self@.well_formed(),
    {
        proof {
            use_type_invariant(self);
        }
        self.open
    }

    /// How many parts were opened so far; 0 where parts are not bounded.
    pub fn parts_opened(&self) -> (r: u32)
        ensures
            r == self@.part_counter,
            self@.well_formed(),
    {
        proof {
            use_type_invariant(self);
        }
        self.part_counter
    }

    /// The sink has no open part any more: its caller failed at an action.
    /// Bytes written after this are refused.
    pub fn abort(&mut self)
        ensures
            final(self)@ == old(self)@.closed(),
    {
        proof {
            use_type_invariant(&*self);
        }
        self.open = false;
    }

    /// The action that flushes the open part, if there is one.
    pub fn flush(&self) -> (actions: Vec<SinkAction>)
        ensures
            steps_of(actions@) == if self@.open {
                seq![Step::Flush]
            } else {
                Seq::<Step>::empty()
            },
    {
        let mut actions: Vec<SinkAction> = Vec::new();
        if self.open {
            actions.push(SinkAction::Flush);
        }
        assert(steps_of(actions@) =~= if self@.open {
            seq![Step::Flush]
        } else {
            Seq::<Step>::empty()
        });
        actions
    }

    /// Closes the sink, and returns the actions for that: the open part is
    /// closed; if it is the only part of a bounded sink it is renamed to
    /// the output's path; the listener, if there is one, hears the name
    /// that the part has in the end.
    pub fn finalize(&mut self) -> (actions: Vec<SinkAction>)
        ensures
            steps_of(actions@) == old(self)@.finalize_steps(),
            final(self)@ == old(self)@.closed(),
    {
        proof {
            use_type_invariant(&*self);
        }
        let mut actions: Vec<SinkAction> = Vec::new();
        if self.open {
            actions.push(SinkAction::Close);
            let last = if self.part_counter == 1 {
                let from = part_name(self.base_path.as_str(), 1);
                actions.push(SinkAction::Rename { from, to: self.base_path.clone() });
                self.base_path.clone()
            } else if self.max_size.is_some() {
                part_name(self.base_path.as_str(), self.part_counter)
            } else {
                self.base_path.clone()
            };
            if self.has_listener {
                actions.push(SinkAction::Notify { path: last });
            }
            self.open = false;
        }
        assert(steps_of(actions@) =~= old(self)@.finalize_steps());
        actions
    }

    /// Takes `len` bytes of a buffer, and returns the actions that write
    /// them: no part gets more than the bound, and a part is ended, and the
    /// next begun, only when bytes are left for it. Without a bound all
    /// bytes go to the one file. Bytes are refused while no part is open,
    /// and where the parts needed would pass the largest part number; the
    /// sink is then left as it was.
    pub fn write(&mut self, len: usize) -> (r: Result<Vec<SinkAction>, SinkError>)
        ensures
            final(self)@.well_formed(),
            match r {
                Ok(actions) => {
                    &&& old(self)@.open || len == 0
                    &&& old(self)@.after_write(len as nat).part_counter <= u32::MAX
                    &&& final(self)@ == old(self)@.after_write(len as nat)
                    &&& steps_of(actions@) == write_steps(old(self)@, len as nat)
                },
                Err(e) => {
                    &&& final(self)@ == old(self)@
                    &&& len > 0
                    &&& if !old(self)@.open {
                        e == SinkError::NoFileHandle
                    } else {
                        e == SinkError::TooManyParts && old(self)@.after_write(
                            len as nat,
                        ).part_counter > u32::MAX
                    }
                },
            },
    {
        proof {
            use_type_invariant(&*self);
        }
        let mut actions: Vec<SinkAction> = Vec::new();
        if len == 0 {
            assert(steps_of(actions@) =~= write_steps(self@, 0));
            return Ok(actions);
        }
        if !self.open {
            return Err(SinkError::NoFileHandle);
        }
        let max = match self.max_size {
            Some(max) => max,
            None => {
                actions.push(SinkAction::Append { start: 0, end: len });
                assert(steps_of(actions@) =~= write_steps(self@, len as nat));
                return Ok(actions);
            },
        };
        let room = max - self.current_size;
        let needed: usize = if len <= room {
            0
        } else {
            (len - room - 1) / max + 1
        };
        if needed > (u32::MAX - self.part_counter) as usize {
            return Err(SinkError::TooManyParts);
        }
        let ghost base = self.base_path@;
        let ghost listener = self.has_listener;
        let ghost all = write_steps(self@, len as nat);
        let ghost goal = self@.after_write(len as nat);
        let mut counter = self.part_counter;
        let mut size = self.current_size;
        let mut start: usize = 0;
        assert(steps_of(actions@) =~= Seq::<Step>::empty());
        while start < len
            invariant
                start <= len,
                max >= 1,
                self.max_size == Some(max),
                base == self.base_path@,
                listener == self.has_listener,
                1 <= counter,
                size <= max,
                goal.part_counter <= u32::MAX,
                goal == (SinkState {
                    part_counter: counter as nat,
                    current_size: size as nat,
                    ..old(self)@
                }).after_write((len - start) as nat),
                old(self)@.max_size == Some(max as nat),
                all == steps_of(actions@) + bounded_write_steps(
                    base,
                    listener,
                    max as nat,
                    counter as nat,
                    size as nat,
                    start as nat,
                    len as nat,
                ),
            decreases len - start, size,
        {
            let room = max - size;
            let ghost before = steps_of(actions@);
            if len - start <= room {
                push_action(&mut actions, SinkAction::Append { start, end: len });
                size = size + (len - start);
                start = len;
            } else {
                proof {
                    lemma_after_write_step(
                        SinkState {
                            part_counter: counter as nat,
                            current_size: size as nat,
                            ..old(self)@
                        },
                        (len - start) as nat,
                    );
                }
                if room > 0 {
                    push_action(&mut actions, SinkAction::Append { start, end: start + room });
                }
                open_new_part(&mut actions, self.base_path.as_str(), self.has_listener, counter);
                assert(steps_of(actions@) =~= before + (if room > 0 {
                    seq![Step::Append { start: start as nat, end: (start + room) as nat }]
                } else {
                    Seq::empty()
                }) + rollover_steps(base, listener, counter as nat));
                counter = counter + 1;
                size = 0;
                start = start + room;
            }
        }
        self.current_size = size;
        self.part_counter = counter;
        assert(self@ =~= goal);
        Ok(actions)
    }
}

/// Writing more bytes than the open part has room for is filling the
/// part, beginning the next and writing the rest to it.
pub proof fn lemma_after_write_step(s: SinkState, len: nat)
    requires
        s.well_formed() || (s.max_size matches Some(max) && max >= 1 && s.current_size <= max),
        s.max_size matches Some(max) && len > max - s.current_size,
    ensures
        s.after_write(len) == (SinkState {
            part_counter: s.part_counter + 1,
            current_size: 0,
            ..s
        }).after_write((len - (s.max_size->0 - s.current_size)) as nat),
{
    let max = s.max_size->0;
    let room = (max - s.current_size) as nat;
    let rest = (len - room) as nat;
    let beyond = (len - room - 1) as nat;
    if rest <= max {
        assert(beyond / max == 0 && beyond % max == beyond) by (nonlinear_arith)
            requires
                0 <= beyond < max,
        ;
    } else {
        let further = (rest - max - 1) as nat;
        assert(beyond / max == 1 + further / max && beyond % max == further % max)
            by (nonlinear_arith)
            requires
                beyond == further + max,
                max >= 1,
                further >= 0,
        ;
    }
}

/// How many parts a sink with the bound `max` opens for `bytes` bytes:
/// one where there is no byte, else as many as hold the bytes.
pub open spec fn parts_for(max: nat, bytes: nat) -> nat {
    if bytes == 0 {
        1
    } else {
        ((bytes - 1) / (max as int) + 1) as nat
    }
}

/// A write adds its bytes to those that the sink has taken, and leaves
/// the sink well formed.
pub proof fn lemma_after_write_bytes(s: SinkState, len: nat)
    requires
        s.well_formed(),
        s.max_size is Some,
    ensures
        s.after_write(len).bytes_taken() == s.bytes_taken() + len,
        s.after_write(len).part_counter <= u32::MAX ==> s.after_write(len).well_formed(),
        s.after_write(len).part_counter >= s.part_counter,
{
    let max = s.max_size->0;
    let room = (max - s.current_size) as nat;
    if len > room {
        let beyond = (len - room - 1) as nat;
        let q = beyond / max;
        let r = beyond % max;
        assert(beyond == q * max + r && 0 <= r < max && q >= 0) by (nonlinear_arith)
            requires
                q == beyond / max,
                r == beyond % max,
                max >= 1,
                beyond >= 0,
        ;
        assert((s.part_counter + 1 + q - 1) * max + (r + 1) == (s.part_counter - 1) * max
            + s.current_size + len) by (nonlinear_arith)
            requires
                beyond == q * max + r,
                beyond == len - (max - s.current_size) - 1,
        ;
    }
}

/// The bytes that a sink has taken decide how many parts it has opened,
/// and how many bytes its open part holds.
pub proof fn lemma_parts_of_bytes(s: SinkState)
    requires
        s.well_formed(),
        s.max_size is Some,
    ensures
        s.part_counter == parts_for(s.max_size->0, s.bytes_taken()),
        s.current_size == s.bytes_taken() - (s.part_counter - 1) * s.max_size->0,
{
    let max = s.max_size->0;
    let bytes = s.bytes_taken();
    let c = s.part_counter;
    let size = s.current_size;
    if bytes == 0 {
        assert(c == 1) by (nonlinear_arith)
            requires
                (c - 1) * max + size == 0,
                c >= 1,
                max >= 1,
                size >= 0,
                c > 1 ==> size >= 1,
        ;
    } else {
        assert(size >= 1) by (nonlinear_arith)
            requires
                (c - 1) * max + size > 0,
                c >= 1,
                max >= 1,
                size >= 0,
                c > 1 ==> size >= 1,
        ;
        assert((bytes - 1) / (max as int) == c - 1) by (nonlinear_arith)
            requires
                bytes - 1 == (c - 1) * max + (size - 1),
                0 <= size - 1 < max,
                c >= 1,
        ;
    }
}

/// One byte less than the bound, and the bound itself, make one part;
/// one byte more makes two; `n` times the bound makes exactly `n` parts.
pub proof fn lemma_parts_around_bound(max: nat, n: nat)
    requires
        max >= 1,
    ensures
        parts_for(max, (max - 1) as nat) == 1,
        parts_for(max, max) == 1,
        parts_for(max, max + 1) == 2,
        n >= 1 ==> parts_for(max, n * max) == n,
{
    if max >= 2 {
        assert((max - 2) / (max as int) == 0) by (nonlinear_arith)
            requires
                max >= 2,
        ;
    }
    assert((max - 1) / (max as int) == 0) by (nonlinear_arith)
        requires
            max >= 1,
    ;
    assert(max / max == 1) by (nonlinear_arith)
        requires
            max >= 1,
    ;
    if n >= 1 {
        assert(n * max >= 1 && (n * max - 1) / (max as int) == n - 1) by (nonlinear_arith)
            requires
                n >= 1,
                max >= 1,
        ;
    }
}

/// A sink with bounded parts that was new and has since taken `n` times
/// its bound, in however many writes, has opened exactly `n` parts; one
/// that has taken nothing has opened one.
pub proof fn lemma_parts_of_multiple(s: SinkState, n: nat)
    requires
        s.well_formed(),
        s.max_size is Some,
        s.bytes_taken() == n * s.max_size->0,
    ensures
        s.part_counter == if n == 0 {
            1
        } else {
            n
        },
{
    lemma_parts_of_bytes(s);
    lemma_parts_around_bound(s.max_size->0, n);
    if n == 0 {
        assert(n * s.max_size->0 == 0) by (nonlinear_arith)
            requires
                n == 0,
        ;
    }
}

/// The files that are there once the actions `steps` were carried out
/// where the files `files` were: opening a part adds its file, renaming
/// a file takes one name away and adds the other.
pub open spec fn files_after(files: Set<Seq<char>>, steps: Seq<Step>) -> Set<Seq<char>>
    decreases steps.len(),
{
    if steps.len() == 0 {
        files
    } else {
        let before = files_after(files, steps.drop_last());
        match steps.last() {
            Step::Open { path } => before.insert(path),
            Step::Rename { from, to } => before.remove(from).insert(to),
            _ => before,
        }
    }
}

/// The files of the parts 1 to `n` of the output at `base`.
pub open spec fn part_files(base: Seq<char>, n: nat) -> Set<Seq<char>> {
    Set::new(|p: Seq<char>| exists|i: nat| 1 <= i <= n && p == #[trigger] part_name_of(base, i))
}

impl SinkState {
    /// The files of the parts that the sink has opened.
    pub open spec fn files_opened(self) -> Set<Seq<char>> {
        match self.max_size {
            Some(_) => part_files(self.base_path, self.part_counter),
            None => set![self.base_path],
        }
    }
}

/// Actions are carried out one after another.
pub proof fn lemma_files_after_concat(files: Set<Seq<char>>, a: Seq<Step>, b: Seq<Step>)
    ensures
        files_after(files, a + b) == files_after(files_after(files, a), b),
    decreases b.len(),
{
    if b.len() == 0 {
        assert(a + b =~= a);
    } else {
        assert((a + b).drop_last() =~= a + b.drop_last());
        lemma_files_after_concat(files, a, b.drop_last());
    }
}

/// Ending a part and beginning the next adds the file of the next part.
pub proof fn lemma_rollover_files(
    files: Set<Seq<char>>,
    base: Seq<char>,
    has_listener: bool,
    counter: nat,
)
    ensures
        files_after(files, rollover_steps(base, has_listener, counter)) == files.insert(
            part_name_of(base, counter + 1),
        ),
{
    let close = seq![Step::Close];
    let notify = notify_steps(has_listener, part_name_of(base, counter));
    let open = seq![Step::Open { path: part_name_of(base, counter + 1) }];
    reveal_with_fuel(files_after, 2);
    lemma_files_after_concat(files, close + notify, open);
    lemma_files_after_concat(files, close, notify);
    assert(close.drop_last() =~= Seq::<Step>::empty());
    assert(open.drop_last() =~= Seq::<Step>::empty());
    if has_listener {
        assert(notify.drop_last() =~= Seq::<Step>::empty());
    }
}

/// Writing opens the files of the parts that it begins, and no others.
pub proof fn lemma_write_files(s: SinkState, start: nat, end: nat)
    requires
        s.max_size matches Some(max) && max >= 1 && s.current_size <= max,
        start <= end,
    ensures
        files_after(
            part_files(s.base_path, s.part_counter),
            bounded_write_steps(
                s.base_path,
                s.has_listener,
                s.max_size->0,
                s.part_counter,
                s.current_size,
                start,
                end,
            ),
        ) == part_files(s.base_path, s.after_write((end - start) as nat).part_counter),
    decreases end - start, s.current_size,
{
    let max = s.max_size->0;
    let base = s.base_path;
    let files = part_files(base, s.part_counter);
    let room = (max - s.current_size) as nat;
    reveal_with_fuel(files_after, 2);
    if start >= end {
        // No byte is left: there is no action.
    } else if end - start <= room {
        assert(seq![Step::Append { start, end }].drop_last() =~= Seq::<Step>::empty());
    } else {
        let filled = if room > 0 {
            seq![Step::Append { start, end: start + room }]
        } else {
            Seq::empty()
        };
        let roll = rollover_steps(base, s.has_listener, s.part_counter);
        let next = SinkState { part_counter: s.part_counter + 1, current_size: 0, ..s };
        let rest = bounded_write_steps(
            base,
            s.has_listener,
            max,
            s.part_counter + 1,
            0,
            start + room,
            end,
        );
        lemma_files_after_concat(files, filled + roll, rest);
        lemma_files_after_concat(files, filled, roll);
        if room > 0 {
            assert(filled.drop_last() =~= Seq::<Step>::empty());
        }
        lemma_rollover_files(files, base, s.has_listener, s.part_counter);
        assert(files.insert(part_name_of(base, s.part_counter + 1)) =~= part_files(
            base,
            s.part_counter + 1,
        ));
        lemma_write_files(next, start + room, end);
        lemma_after_write_step(s, (end - start) as nat);
    }
}

/// The name of a part is never the name of the output.
pub proof fn lemma_part_name_differs(base: Seq<char>, n: nat)
    ensures
        part_name_of(base, n) != base,
        !part_files(base, n).contains(base),
{
    assert forall|i: nat| part_name_of(base, i) != base by {
        assert(part_name_of(base, i).len() > base.len());
    }
}

/// When a sink that was written to is closed, there is either the one
/// file of the output or the files of two or more numbered parts, never
/// both: a lone part takes the name of the output, and no numbered file
/// is left; of several parts each keeps its number, and no file has the
/// name of the output.
pub proof fn lemma_files_when_closed(s: SinkState, len: nat)
    requires
        s.well_formed(),
        s.open,
        s.after_write(len).part_counter <= u32::MAX,
    ensures
        ({
            let written = s.after_write(len);
            let files = files_after(
                s.files_opened(),
                write_steps(s, len) + written.finalize_steps(),
            );
            if written.part_counter <= 1 {
                files == set![s.base_path]
            } else {
                files == part_files(s.base_path, written.part_counter) && !files.contains(
                    s.base_path,
                )
            }
        }),
{
    let written = s.after_write(len);
    let base = s.base_path;
    reveal_with_fuel(files_after, 3);
    lemma_files_after_concat(s.files_opened(), write_steps(s, len), written.finalize_steps());
    lemma_part_name_differs(base, written.part_counter);
    let close = seq![Step::Close];
    let notify_base = notify_steps(s.has_listener, base);
    let notify_part = notify_steps(s.has_listener, written.current_path());
    assert(close.drop_last() =~= Seq::<Step>::empty());
    if s.has_listener {
        assert(notify_base.drop_last() =~= Seq::<Step>::empty());
        assert(notify_part.drop_last() =~= Seq::<Step>::empty());
    }
    match s.max_size {
        Some(max) => {
            lemma_write_files(s, 0, len);
            lemma_after_write_bytes(s, len);
            let opened = part_files(base, written.part_counter);
            if written.part_counter == 1 {
                let rename = seq![
                    Step::Close,
                    Step::Rename { from: written.current_path(), to: base },
                ];
                lemma_files_after_concat(opened, rename, notify_base);
                assert(rename.drop_last() =~= close);
                assert(opened.remove(part_name_of(base, 1)).insert(base) =~= set![base]);
            } else {
                lemma_files_after_concat(opened, close, notify_part);
            }
        },
        None => {
            if len > 0 {
                assert(seq![Step::Append { start: 0, end: len }].drop_last() =~= Seq::<
                    Step,
                >::empty());
            }
            lemma_files_after_concat(set![base], close, notify_part);
        },
    }
}

/// Where carrying out `steps` leaves a caller who has written the bytes
/// before `pos` of a buffer, the last `size` of them to the open part:
/// the position that is written up to, and the size of the part that is
/// then open. Each `Append` must go on where the bytes written so far
/// end, hold a byte at least, and leave the open part no larger than
/// `max`; each `Open` begins an empty part. Where an action does not,
/// there is no such place.
pub open spec fn follow(steps: Seq<Step>, pos: nat, size: nat, max: nat) -> Option<(nat, nat)>
    decreases steps.len(),
{
    if steps.len() == 0 {
        Some((pos, size))
    } else {
        match follow(steps.drop_last(), pos, size, max) {
            None => None,
            Some(at) => match steps.last() {
                Step::Append { start, end } => if start == at.0 && start < end && at.1 + (end
                    - start) <= max {
                    Some((end, (at.1 + (end - start)) as nat))
                } else {
                    None
                },
                Step::Open { .. } => Some((at.0, 0)),
                _ => Some(at),
            },
        }
    }
}

/// Actions are followed one after another.
pub proof fn lemma_follow_concat(a: Seq<Step>, b: Seq<Step>, pos: nat, size: nat, max: nat)
    ensures
        follow(a + b, pos, size, max) == match follow(a, pos, size, max) {
            Some(at) => follow(b, at.0, at.1, max),
            None => None,
        },
    decreases b.len(),
{
    if b.len() == 0 {
        assert(a + b =~= a);
    } else {
        assert((a + b).drop_last() =~= a + b.drop_last());
        lemma_follow_concat(a, b.drop_last(), pos, size, max);
    }
}

/// An action that is no `Append` and no `Open` leaves the place as it
/// is; an `Open` begins an empty part.
pub proof fn lemma_follow_one(step: Step, pos: nat, size: nat, max: nat)
    ensures
        follow(seq![step], pos, size, max) == match step {
            Step::Append { start, end } => if start == pos && start < end && size + (end - start)
                <= max {
                Some((end, (size + (end - start)) as nat))
            } else {
                None
            },
            Step::Open { .. } => Some((pos, 0nat)),
            _ => Some((pos, size)),
        },
{
    reveal_with_fuel(follow, 2);
    assert(seq![step].drop_last() =~= Seq::<Step>::empty());
}

/// Ending a part and beginning the next leaves the position as it is,
/// and the open part empty.
pub proof fn lemma_follow_rollover(
    base: Seq<char>,
    has_listener: bool,
    counter: nat,
    pos: nat,
    size: nat,
    max: nat,
)
    ensures
        follow(rollover_steps(base, has_listener, counter), pos, size, max) == Some((pos, 0nat)),
{
    let close = seq![Step::Close];
    let notify = notify_steps(has_listener, part_name_of(base, counter));
    let open = seq![Step::Open { path: part_name_of(base, counter + 1) }];
    lemma_follow_concat(close + notify, open, pos, size, max);
    lemma_follow_concat(close, notify, pos, size, max);
    lemma_follow_one(Step::Close, pos, size, max);
    lemma_follow_one(Step::Open { path: part_name_of(base, counter + 1) }, pos, size, max);
    if has_listener {
        lemma_follow_one(Step::Notify { path: part_name_of(base, counter) }, pos, size, max);
    }
}

/// The actions of a write send each byte of the buffer to a part, once
/// and in order, and leave no part larger than the bound: they lead from
/// the start of the bytes to their end, and to the size that the open
/// part has after the write.
pub proof fn lemma_write_steps_follow(s: SinkState, start: nat, end: nat)
    requires
        s.max_size matches Some(max) && max >= 1 && s.current_size <= max,
        start <= end,
    ensures
        follow(
            bounded_write_steps(
                s.base_path,
                s.has_listener,
                s.max_size->0,
                s.part_counter,
                s.current_size,
                start,
                end,
            ),
            start,
            s.current_size,
            s.max_size->0,
        ) == Some((end, s.after_write((end - start) as nat).current_size)),
    decreases end - start, s.current_size,
{
    let max = s.max_size->0;
    let base = s.base_path;
    let room = (max - s.current_size) as nat;
    if start >= end {
        // No byte is left: there is no action.
    } else if end - start <= room {
        lemma_follow_one(Step::Append { start, end }, start, s.current_size, max);
    } else {
        let filled = if room > 0 {
            seq![Step::Append { start, end: start + room }]
        } else {
            Seq::empty()
        };
        let roll = rollover_steps(base, s.has_listener, s.part_counter);
        let next = SinkState { part_counter: s.part_counter + 1, current_size: 0, ..s };
        let rest = bounded_write_steps(
            base,
            s.has_listener,
            max,
            s.part_counter + 1,
            0,
            start + room,
            end,
        );
        lemma_follow_concat(filled + roll, rest, start, s.current_size, max);
        lemma_follow_concat(filled, roll, start, s.current_size, max);
        if room > 0 {
            lemma_follow_one(
                Step::Append { start, end: start + room },
                start,
                s.current_size,
                max,
            );
        }
        lemma_follow_rollover(base, s.has_listener, s.part_counter, start + room, max, max);
        lemma_write_steps_follow(next, start + room, end);
        lemma_after_write_step(s, (end - start) as nat);
    }
}

} // verus!
