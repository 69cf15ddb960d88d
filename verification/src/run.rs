//! A run: the frame interval and the display sync of a process, switched over until the run is
//! stopped.
use vstd::prelude::*;

use crate::bytes;
use crate::error::Error;
use crate::memory::{Answer, Query, Reply, Search, KERN_FAILURE};
use crate::script;
use crate::script::Script;

verus! {

/// The bits of the frame interval that is written, a thousandth of a second.
pub const INTERVAL: u64 = 0x3f50_624d_d2f1_a9fc;

/// How many milliseconds to wait before a run switches over once more.
pub const PERIOD_MS: u64 = 100;

/// Where to write.
#[derive(Clone, Copy, Debug, PartialEq, Eq, Structural)]
pub struct Targets {
    /// The address of the frame interval.
    pub interval: u64,
    /// The address of the display sync flag.
    pub sync: u64,
    /// The bit of the flag that is the display sync.
    pub bit: u8,
    /// A flag byte with display sync off.
    pub off: u8,
}

/// What stood there before.
#[derive(Clone, Copy, Debug, PartialEq, Eq, Structural)]
pub struct Saved {
    /// The bits of the frame interval.
    pub interval: u64,
    /// The flag byte.
    pub sync: u8,
}

/// A byte with this bit as in `from`, and its other bits as in `byte`.
pub open spec fn merged(byte: u8, from: u8, bit: u8) -> u8 {
    (byte & !bit) | (from & bit)
}

/// Writes the flag byte, with display sync off.
pub open spec fn flag_written(targets: Targets, byte: u8) -> Search<Result<(), Error>> {
    Script::Ask(
        Query::WriteByte { addr: targets.sync, byte: merged(byte, targets.off, targets.bit) },
        |reply: Reply| Script::End(reply.written()),
    )
}

/// Reads the flag byte, to write it with display sync off.
pub open spec fn flag_read(targets: Targets) -> Search<Result<(), Error>> {
    Script::Ask(
        Query::Read { addr: targets.sync, len: 1 },
        |reply: Reply|
            match reply.bytes(1) {
                Ok(data) => flag_written(targets, data[0]),
                Err(status) => Script::End(Err(Error::Read(status))),
            },
    )
}

/// Writes the short interval and switches display sync off. The first failure ends it.
pub open spec fn applying(targets: Targets) -> Search<Result<(), Error>> {
    Script::Ask(
        Query::WriteWord { addr: targets.interval, word: INTERVAL },
        |reply: Reply|
            match reply.written() {
                Ok(_) => flag_read(targets),
                Err(error) => Script::End(Err(error)),
            },
    )
}

/// Writes the flag byte, with display sync as it was.
pub open spec fn flag_put_back(targets: Targets, saved: Saved, byte: u8) -> Search<()> {
    Script::Ask(
        Query::WriteByte { addr: targets.sync, byte: merged(byte, saved.sync, targets.bit) },
        |_reply: Reply| Script::End(()),
    )
}

/// Reads the flag byte, to write it with display sync as it was.
pub open spec fn flag_reread(targets: Targets, saved: Saved) -> Search<()> {
    Script::Ask(
        Query::Read { addr: targets.sync, len: 1 },
        |reply: Reply|
            match reply.bytes(1) {
                Ok(data) => flag_put_back(targets, saved, data[0]),
                Err(_) => Script::End(()),
            },
    )
}

/// Writes back the interval and the display sync. Failures are passed over.
pub open spec fn restoring(targets: Targets, saved: Saved) -> Search<()> {
    Script::Ask(
        Query::WriteWord { addr: targets.interval, word: saved.interval },
        |_reply: Reply| flag_reread(targets, saved),
    )
}

/// A byte with this bit as in `from`, and its other bits as in `byte`.
fn merge(byte: u8, from: u8, bit: u8) -> (both: u8)
    ensures
        both == merged(byte, from, bit),
{
    (byte & !bit) | (from & bit)
}

enum ApplyState {
    Interval,
    Read,
    Flag { byte: u8 },
    End(Result<(), Error>),
}

/// A switch-over that is under way.
pub struct Apply {
    targets: Targets,
    state: ApplyState,
}

impl View for Apply {
    type V = Search<Result<(), Error>>;

    closed spec fn view(&self) -> Search<Result<(), Error>> {
        match self.state {
            ApplyState::Interval => applying(self.targets),
            ApplyState::Read => flag_read(self.targets),
            ApplyState::Flag { byte } => flag_written(self.targets, byte),
            ApplyState::End(result) => Script::End(result),
        }
    }
}

impl Apply {
    /// Switches over.
    pub fn apply(targets: Targets) -> (apply: Apply)
        ensures
            apply@ == applying(targets),
    {
        Apply { targets, state: ApplyState::Interval }
    }

    /// What to ask next; nothing once it is done.
    pub fn query(&self) -> (query: Option<Query>)
        ensures
            query == self@.question(),
    {
        let targets = self.targets;
        match self.state {
            ApplyState::Interval => Some(
                Query::WriteWord { addr: targets.interval, word: INTERVAL },
            ),
            ApplyState::Read => Some(Query::Read { addr: targets.sync, len: 1 }),
            ApplyState::Flag { byte } => Some(
                Query::WriteByte {
                    addr: targets.sync,
                    byte: merge(byte, targets.off, targets.bit),
                },
            ),
            ApplyState::End(_) => None,
        }
    }

    /// Takes the answer to what `query` asks.
    pub fn answer(self, answer: Answer) -> (apply: Apply)
        ensures
            apply@ == self@.answered(answer@),
    {
        let targets = self.targets;
        let state = match self.state {
            ApplyState::Interval => match answer.written() {
                Ok(_) => ApplyState::Read,
                Err(error) => ApplyState::End(Err(error)),
            },
            ApplyState::Read => match answer.bytes(1) {
                Ok(data) => ApplyState::Flag { byte: data[0] },
                Err(status) => ApplyState::End(Err(Error::Read(status))),
            },
            ApplyState::Flag { .. } => ApplyState::End(answer.written()),
            ApplyState::End(result) => ApplyState::End(result),
        };
        Apply { targets, state }
    }

    /// Whether it went well, once there is nothing more to ask.
    pub fn result(&self) -> (result: Result<(), Error>)
        ensures
            self@ matches Script::End(r) ==> result == r,
    {
        match self.state {
            ApplyState::End(result) => result,
            _ => Err(Error::Write(KERN_FAILURE)),
        }
    }
}

enum RestoreState {
    Interval,
    Read,
    Flag { byte: u8 },
    End,
}

/// A switch-back that is under way.
pub struct Restore {
    targets: Targets,
    saved: Saved,
    state: RestoreState,
}

impl View for Restore {
    type V = Search<()>;

    closed spec fn view(&self) -> Search<()> {
        match self.state {
            RestoreState::Interval => restoring(self.targets, self.saved),
            RestoreState::Read => flag_reread(self.targets, self.saved),
            RestoreState::Flag { byte } => flag_put_back(self.targets, self.saved, byte),
            RestoreState::End => Script::End(()),
        }
    }
}

impl Restore {
    /// Switches back.
    pub fn restore(targets: Targets, saved: Saved) -> (restore: Restore)
        ensures
            restore@ == restoring(targets, saved),
    {
        Restore { targets, saved, state: RestoreState::Interval }
    }

    /// What to ask next; nothing once it is done.
    pub fn query(&self) -> (query: Option<Query>)
        ensures
            query == self@.question(),
    {
        let targets = self.targets;
        match self.state {
            RestoreState::Interval => Some(
                Query::WriteWord { addr: targets.interval, word: self.saved.interval },
            ),
            RestoreState::Read => Some(Query::Read { addr: targets.sync, len: 1 }),
            RestoreState::Flag { byte } => Some(
                Query::WriteByte {
                    addr: targets.sync,
                    byte: merge(byte, self.saved.sync, targets.bit),
                },
            ),
            RestoreState::End => None,
        }
    }

    /// Takes the answer to what `query` asks.
    pub fn answer(self, answer: Answer) -> (restore: Restore)
        ensures
            restore@ == self@.answered(answer@),
    {
        let state = match self.state {
            RestoreState::Interval => RestoreState::Read,
            RestoreState::Read => match answer.bytes(1) {
                Ok(data) => RestoreState::Flag { byte: data[0] },
                Err(_) => RestoreState::End,
            },
            RestoreState::Flag { .. } => RestoreState::End,
            RestoreState::End => RestoreState::End,
        };
        Restore { targets: self.targets, saved: self.saved, state }
    }
}

/// A run as a mathematical value.
pub struct RunState {
    pub targets: Targets,
    pub saved: Saved,
    pub on: bool,
}

impl RunState {
    /// The run, stopped.
    pub open spec fn stopped(self) -> RunState {
        RunState { targets: self.targets, saved: self.saved, on: false }
    }

    /// The switch-over that is due: one as long as the run is on.
    pub open spec fn due(self) -> Option<Search<Result<(), Error>>> {
        if self.on {
            Some(applying(self.targets))
        } else {
            None
        }
    }

    /// The switch-back that is owed when the run is stopped: one, unless it was stopped before.
    pub open spec fn owed(self) -> Option<Search<()>> {
        if self.on {
            Some(restoring(self.targets, self.saved))
        } else {
            None
        }
    }

    /// The run after a repeated switch-over that came to this. A failure stops it.
    pub open spec fn after(self, result: Result<(), Error>) -> RunState {
        match result {
            Ok(_) => self,
            Err(_) => self.stopped(),
        }
    }

    /// The switch-back that is owed after a repeated switch-over that came to this.
    pub open spec fn owed_after(self, result: Result<(), Error>) -> Option<Search<()>> {
        match result {
            Ok(_) => None,
            Err(_) => self.owed(),
        }
    }
}

/// The view of an optional switch-over.
pub open spec fn seen_apply(apply: Option<Apply>) -> Option<Search<Result<(), Error>>> {
    match apply {
        Some(apply) => Some(apply@),
        None => None,
    }
}

/// The view of an optional switch-back.
pub open spec fn seen_restore(restore: Option<Restore>) -> Option<Search<()>> {
    match restore {
        Some(restore) => Some(restore@),
        None => None,
    }
}

/// The run is in this state once the switch-back is done.
pub open spec fn left(run: RunState) -> spec_fn(()) -> Search<RunState> {
    |_done: ()| Script::End(run)
}

/// What becomes of a run after a repeated switch-over, with the switch-back that is owed.
pub open spec fn repeated(run: RunState) -> spec_fn(Result<(), Error>) -> Search<RunState> {
    |result: Result<(), Error>|
        match run.owed_after(result) {
            Some(restore) => restore.chain(left(run.after(result))),
            None => Script::End(run.after(result)),
        }
}

/// Keeps a run up once: does the switch-over that is due, and then the switch-back that is
/// owed. A run that is off asks for nothing.
pub open spec fn repeating(run: RunState) -> Search<RunState> {
    match run.due() {
        Some(apply) => apply.chain(repeated(run)),
        None => Script::End(run),
    }
}

/// A run.
pub struct Run {
    targets: Targets,
    saved: Saved,
    on: bool,
}

impl View for Run {
    type V = RunState;

    closed spec fn view(&self) -> RunState {
        RunState { targets: self.targets, saved: self.saved, on: self.on }
    }
}

impl Run {
    /// A run that has just been switched over.
    pub fn begun(targets: Targets, saved: Saved) -> (run: Run)
        ensures
            run@ == (RunState { targets, saved, on: true }),
    {
        Run { targets, saved, on: true }
    }

    /// Whether the run goes on.
    pub fn is_on(&self) -> (on: bool)
        ensures
            on == self@.on,
    {
        self.on
    }

    /// Stops the run. What is written must be switched back, unless the run was stopped before.
    pub fn stop(&mut self) -> (restore: Option<Restore>)
        ensures
            final(self)@ == old(self)@.stopped(),
            seen_restore(restore) == old(self)@.owed(),
    {
        if self.on {
            self.on = false;
            Some(Restore::restore(self.targets, self.saved))
        } else {
            None
        }
    }

    /// The process writes its own values again and again, so a run that is on switches over
    /// once more.
    pub fn apply(&self) -> (apply: Option<Apply>)
        ensures
            seen_apply(apply) == self@.due(),
    {
        if self.on {
            Some(Apply::apply(self.targets))
        } else {
            None
        }
    }

    /// Takes what a repeated switch-over came to. A failure stops the run.
    pub fn applied(&mut self, result: Result<(), Error>) -> (restore: Option<Restore>)
        ensures
            final(self)@ == old(self)@.after(result),
            seen_restore(restore) == old(self)@.owed_after(result),
    {
        if result.is_err() {
            self.stop()
        } else {
            None
        }
    }
}

/// Of the byte, the bit at hand is taken from the one, and all others from the other.
pub proof fn merged_bytes_take_each_bit_from_one(byte: u8, from: u8, bit: u8)
    ensures
        merged(byte, from, bit) & bit == from & bit,
        merged(byte, from, bit) & !bit == byte & !bit,
{
    assert(((byte & !bit) | (from & bit)) & bit == from & bit) by (bit_vector);
    assert(((byte & !bit) | (from & bit)) & !bit == byte & !bit) by (bit_vector);
}

/// As long as a run is on, each tenth of a second a switch-over is due and stopping owes a
/// switch-back; of a run that is off, neither. A switch-over that went well leaves the run as it
/// was. Any failure turns it off, with its targets and what it saved unchanged, and owes what
/// stopping would have.
pub proof fn runs_go_on_until_any_failure(run: RunState, error: Error)
    ensures
        10 * PERIOD_MS == 1000,
        run.due() == if run.on {
            Some(applying(run.targets))
        } else {
            None
        },
        run.owed() == if run.on {
            Some(restoring(run.targets, run.saved))
        } else {
            None
        },
        run.after(Ok(())) == run,
        run.owed_after(Ok(())) is None,
        !run.after(Err(error)).on,
        run.after(Err(error)).targets == run.targets,
        run.after(Err(error)).saved == run.saved,
        run.owed_after(Err(error)) == run.owed(),
        run.stopped() == run.after(Err(error)),
{
}

/// A switch-over goes step by step. It writes the bits of the number 0.001 to the interval, reads
/// the flag byte, and writes it with the sync bit as it is with display sync off and its other
/// bits unchanged. The first step that fails ends it, with the kernel's code.
pub proof fn switching_over_goes_step_by_step(
    world: spec_fn(Query) -> Reply,
    targets: Targets,
    byte: u8,
    both: u8,
    code: i32,
)
    requires
        both & targets.bit == targets.off & targets.bit,
        both & !targets.bit == byte & !targets.bit,
    ensures
        ({
            let first = world(
                Query::WriteWord { addr: targets.interval, word: 0x3f50_624d_d2f1_a9fc },
            );
            let second = world(Query::Read { addr: targets.sync, len: 1 });
            let third = world(Query::WriteByte { addr: targets.sync, byte: both });
            let result = applying(targets).run(world);
            &&& first == Reply::Status(code) && code != 0 ==> result == Err::<(), Error>(
                Error::Write(code),
            )
            &&& first == Reply::Status(0) && second == (Reply::Bytes {
                status: code,
                data: Seq::empty(),
            }) ==> result == Err::<(), Error>(Error::Read(code))
            &&& first == Reply::Status(0) && second == (Reply::Bytes {
                status: 0,
                data: seq![byte],
            }) && third == Reply::Status(code) ==> result == if code == 0 {
                Ok::<(), Error>(())
            } else {
                Err(Error::Write(code))
            }
        }),
{
    reveal_with_fuel(Script::run, 4);
    lemma_both(byte, targets.off, targets.bit, both);
}

/// A switch-back goes on whatever fails: it writes the saved interval, reads the flag byte, and
/// where that could be read writes it with the sync bit as it was saved and its other bits
/// unchanged.
pub proof fn switching_back_goes_step_by_step(
    targets: Targets,
    saved: Saved,
    reply: Reply,
    byte: u8,
    both: u8,
)
    requires
        both & targets.bit == saved.sync & targets.bit,
        both & !targets.bit == byte & !targets.bit,
    ensures
        restoring(targets, saved).question() == Some(
            Query::WriteWord { addr: targets.interval, word: saved.interval },
        ),
        ({
            let second = restoring(targets, saved).answered(reply);
            let third = second.answered(Reply::Bytes { status: 0, data: seq![byte] });
            &&& second.question() == Some(Query::Read { addr: targets.sync, len: 1 })
            &&& third.question() == Some(Query::WriteByte { addr: targets.sync, byte: both })
            &&& third.answered(reply).question() is None
            &&& reply.bytes(1) is Err ==> second.answered(reply).question() is None
        }),
{
    lemma_both(byte, saved.sync, targets.bit, both);
}

proof fn lemma_both(byte: u8, from: u8, bit: u8, both: u8)
    requires
        both & bit == from & bit,
        both & !bit == byte & !bit,
    ensures
        both == merged(byte, from, bit),
{
    assert(both == (byte & !bit) | (from & bit)) by (bit_vector)
        requires
            both & bit == from & bit,
            both & !bit == byte & !bit,
    ;
}

} // verus!
