//! What a run does to the memory of a process.
use vstd::prelude::*;

use crate::bytes;
use crate::error::Error;
use crate::images;
use crate::layer;
use crate::macho;
use crate::memory;
use crate::memory::{Query, Reply, Search};
use crate::metal;
use crate::region;
use crate::region::{Region, KERN_SUCCESS};
use crate::run;
use crate::run::{RunState, Saved, Targets};
use crate::scan;
use crate::scheduler;
use crate::script;
use crate::script::Script;
use crate::start;

verus! {

/// How far `addr` is above `base`, going round at the end of the address space.
pub open spec fn distance(addr: u64, base: u64) -> u64 {
    region::offset(addr, -base)
}

/// The memory with this byte at `addr`.
pub open spec fn poke(mem: spec_fn(u64) -> u8, addr: u64, byte: u8) -> spec_fn(u64) -> u8 {
    |a: u64|
        if a == addr {
            byte
        } else {
            mem(a)
        }
}

/// The memory with the eight bytes of this word at `addr`.
pub open spec fn poke_word(mem: spec_fn(u64) -> u8, addr: u64, word: u64) -> spec_fn(u64) -> u8 {
    |a: u64|
        if distance(a, addr) < 8 {
            bytes::le_bytes(word)[distance(a, addr) as int]
        } else {
            mem(a)
        }
}

/// A process, and what was asked about it so far.
pub struct Process {
    pub mem: spec_fn(u64) -> u8,
    pub asked: Seq<Query>,
}

/// How the kernel and the rest of the outside answer.
pub struct Kernel {
    /// The code for writes to an address.
    pub writes: spec_fn(u64) -> i32,
    /// The code for a read, which may be another one each time.
    pub reads: spec_fn(Seq<Query>, Query) -> i32,
    /// The answer to anything else, which may be another one each time.
    pub other: spec_fn(Seq<Query>, Query) -> Reply,
}

impl Kernel {
    /// An address can be written to.
    pub open spec fn can_write(self, addr: u64) -> bool {
        (self.writes)(addr) == KERN_SUCCESS
    }

    /// So many bytes at an address can be read every time.
    pub open spec fn can_read(self, addr: u64, len: u64) -> bool {
        forall|asked: Seq<Query>| #[trigger]
            (self.reads)(asked, Query::Read { addr, len }) == KERN_SUCCESS
    }

    /// A switch-over or a switch-back of these targets can do all that it wants.
    pub open spec fn reaches(self, targets: Targets) -> bool {
        self.can_write(targets.interval) && self.can_write(targets.sync) && self.can_read(
            targets.sync,
            1,
        )
    }
}

/// The memory after a question. A write changes it where the address can be written to.
pub open spec fn written(kernel: Kernel, mem: spec_fn(u64) -> u8, query: Query) -> spec_fn(
    u64,
) -> u8 {
    match query {
        Query::WriteWord { addr, word } => if kernel.can_write(addr) {
            poke_word(mem, addr, word)
        } else {
            mem
        },
        Query::WriteByte { addr, byte } => if kernel.can_write(addr) {
            poke(mem, addr, byte)
        } else {
            mem
        },
        _ => mem,
    }
}

/// The answer to a read of this memory with this code of the kernel.
pub open spec fn read_reply(status: i32, mem: spec_fn(u64) -> u8, addr: u64, len: u64) -> Reply {
    if status == KERN_SUCCESS {
        Reply::Bytes { status, data: memory::window(mem, addr, len as nat) }
    } else {
        Reply::Bytes { status, data: Seq::empty() }
    }
}

/// A process that is written to by nobody else while it is asked.
pub open spec fn process(kernel: Kernel) -> spec_fn(Process, Query) -> (Process, Reply) {
    |p: Process, query: Query|
        (
            Process { mem: written(kernel, p.mem, query), asked: p.asked.push(query) },
            match query {
                Query::Read { addr, len } => read_reply(
                    (kernel.reads)(p.asked, query),
                    p.mem,
                    addr,
                    len,
                ),
                Query::WriteWord { addr, .. } => Reply::Status((kernel.writes)(addr)),
                Query::WriteByte { addr, .. } => Reply::Status((kernel.writes)(addr)),
                _ => (kernel.other)(p.asked, query),
            },
        )
}

/// The memory with these bytes at `addr`.
pub open spec fn poke_bytes(mem: spec_fn(u64) -> u8, addr: u64, data: Seq<u8>) -> spec_fn(
    u64,
) -> u8 {
    |a: u64|
        if distance(a, addr) < data.len() {
            data[distance(a, addr) as int]
        } else {
            mem(a)
        }
}

/// Bytes that are written at an address stand there, and all other bytes are as they were.
pub proof fn written_bytes_stand(mem: spec_fn(u64) -> u8, addr: u64, data: Seq<u8>, a: u64)
    requires
        data.len() <= u64::MAX,
    ensures
        memory::window(poke_bytes(mem, addr, data), addr, data.len()) == data,
        distance(a, addr) >= data.len() ==> poke_bytes(mem, addr, data)(a) == mem(a),
{
    let seen = memory::window(poke_bytes(mem, addr, data), addr, data.len());
    assert forall|i: int| 0 <= i < data.len() implies seen[i] == data[i] by {
        assert(distance(region::offset(addr, i), addr) == i);
    }
    assert(seen =~= data);
}

/// Writing a word is writing its eight bytes, and writing a byte is writing just that.
proof fn lemma_pokes(mem: spec_fn(u64) -> u8, addr: u64, word: u64, byte: u8)
    ensures
        poke_word(mem, addr, word) == poke_bytes(mem, addr, bytes::le_bytes(word)),
        poke(mem, addr, byte) == poke_bytes(mem, addr, seq![byte]),
{
    assert(poke_word(mem, addr, word) =~= poke_bytes(mem, addr, bytes::le_bytes(word)));
    assert forall|a: u64| #[trigger] poke(mem, addr, byte)(a) == poke_bytes(
        mem,
        addr,
        seq![byte],
    )(a) by {
        lemma_distance(a, addr);
    }
    assert(poke(mem, addr, byte) =~= poke_bytes(mem, addr, seq![byte]));
}

/// The bytes that a question writes, and where.
pub open spec fn to_write(query: Query) -> Option<(u64, Seq<u8>)> {
    match query {
        Query::WriteWord { addr, word } => Some((addr, bytes::le_bytes(word))),
        Query::WriteByte { addr, byte } => Some((addr, seq![byte])),
        _ => None,
    }
}

/// A write succeeds exactly where the kernel's code is success. What was written is then read
/// back as it was, and no other byte has changed. A write that fails is told with the kernel's
/// code, and changes nothing.
pub proof fn writes_are_read_back(kernel: Kernel, p: Process, query: Query, a: u64)
    requires
        to_write(query) is Some,
    ensures
        ({
            let (addr, data) = to_write(query)->0;
            let (after, reply) = process(kernel)(p, query);
            let read = Query::Read { addr, len: data.len() as u64 };
            let back = process(kernel)(after, read).1;
            &&& reply.written() is Ok <==> (kernel.writes)(addr) == KERN_SUCCESS
            &&& match reply.written() {
                Ok(_) => {
                    &&& memory::window(after.mem, addr, data.len()) == data
                    &&& (kernel.reads)(after.asked, read) == KERN_SUCCESS ==> back.bytes(
                        data.len() as u64,
                    ) == Ok::<Seq<u8>, i32>(data)
                    &&& distance(a, addr) >= data.len() ==> (after.mem)(a) == (p.mem)(a)
                },
                Err(error) => error == Error::Write((kernel.writes)(addr)) && after.mem == p.mem,
            }
        }),
{
    let (addr, data) = to_write(query)->0;
    written_bytes_stand(p.mem, addr, data, a);
    match query {
        Query::WriteWord { addr, word } => lemma_pokes(p.mem, addr, word, 0),
        Query::WriteByte { addr, byte } => lemma_pokes(p.mem, addr, 0, byte),
        _ => {},
    }
}

/// A word that was written is the word that its bytes are read as.
pub proof fn written_words_are_read_back(kernel: Kernel, p: Process, addr: u64, word: u64)
    requires
        kernel.can_write(addr),
    ensures
        ({
            let after = process(kernel)(p, Query::WriteWord { addr, word }).0;
            bytes::le_u64(memory::window(after.mem, addr, 8), 0) == word
        }),
{
    writes_are_read_back(kernel, p, Query::WriteWord { addr, word }, addr);
    bytes::word_from_its_bytes(word);
}

/// The flag is none of the bytes of the interval.
pub open spec fn apart(targets: Targets) -> bool {
    distance(targets.sync, targets.interval) >= 8
}

/// What stands at the targets.
pub open spec fn standing(mem: spec_fn(u64) -> u8, targets: Targets) -> Saved {
    Saved {
        interval: bytes::le_u64(memory::window(mem, targets.interval, 8), 0),
        sync: mem(targets.sync),
    }
}

/// The memory after a switch-over.
pub open spec fn applied(mem: spec_fn(u64) -> u8, targets: Targets) -> spec_fn(u64) -> u8 {
    let next = poke_word(mem, targets.interval, run::INTERVAL);
    poke(next, targets.sync, run::merged(next(targets.sync), targets.off, targets.bit))
}

/// The memory after a switch-back.
pub open spec fn restored(mem: spec_fn(u64) -> u8, targets: Targets, saved: Saved) -> spec_fn(
    u64,
) -> u8 {
    let next = poke_word(mem, targets.interval, saved.interval);
    poke(next, targets.sync, run::merged(next(targets.sync), saved.sync, targets.bit))
}

/// A switch-over that succeeds has done just this, and one that fails has written the interval
/// at most. It succeeds where the targets can be reached.
pub proof fn switching_over_writes(kernel: Kernel, p: Process, targets: Targets)
    ensures
        ({
            let (after, result) = run::applying(targets).play(process(kernel), p);
            &&& kernel.reaches(targets) ==> result is Ok
            &&& match result {
                Ok(_) => {
                    &&& kernel.can_write(targets.interval)
                    &&& kernel.can_write(targets.sync)
                    &&& after.mem == applied(p.mem, targets)
                },
                Err(error) => {
                    &&& error is Write || error is Read
                    &&& after.mem == if kernel.can_write(targets.interval) {
                        poke_word(p.mem, targets.interval, run::INTERVAL)
                    } else {
                        p.mem
                    }
                },
            }
        }),
{
    reveal_with_fuel(Script::play, 4);
    lemma_first_byte(poke_word(p.mem, targets.interval, run::INTERVAL), targets.sync);
}

/// A switch-back puts the interval back where that can be written, and the display sync where
/// the targets can be reached. Nothing else is written.
pub proof fn switching_back_writes(kernel: Kernel, p: Process, targets: Targets, saved: Saved)
    ensures
        ({
            let after = run::restoring(targets, saved).play(process(kernel), p).0;
            let next = if kernel.can_write(targets.interval) {
                poke_word(p.mem, targets.interval, saved.interval)
            } else {
                p.mem
            };
            let flagged = poke(
                next,
                targets.sync,
                run::merged(next(targets.sync), saved.sync, targets.bit),
            );
            &&& after.mem == next || after.mem == flagged
            &&& kernel.reaches(targets) ==> after.mem == restored(p.mem, targets, saved)
        }),
{
    reveal_with_fuel(Script::play, 4);
    lemma_first_byte(poke_word(p.mem, targets.interval, saved.interval), targets.sync);
    lemma_first_byte(p.mem, targets.sync);
}

proof fn lemma_first_byte(mem: spec_fn(u64) -> u8, addr: u64)
    ensures
        memory::window(mem, addr, 1)[0] == mem(addr),
{
    assert(region::offset(addr, 0) == addr);
}

/// The same bits twice are those bits, and a bit put back is as it was.
proof fn lemma_merged(byte: u8, off: u8, bit: u8)
    ensures
        run::merged(run::merged(byte, off, bit), byte, bit) == byte,
        run::merged(byte, byte, bit) == byte,
        run::merged(run::merged(byte, off, bit), off, bit) == run::merged(byte, off, bit),
        run::merged(byte, off, bit) & !bit == byte & !bit,
        run::merged(byte, off, bit) & bit == off & bit,
{
    assert((((byte & !bit) | (off & bit)) & !bit) | (byte & bit) == byte) by (bit_vector);
    assert((byte & !bit) | (byte & bit) == byte) by (bit_vector);
    assert((((byte & !bit) | (off & bit)) & !bit) | (off & bit) == (byte & !bit) | (off & bit))
        by (bit_vector);
    assert(((byte & !bit) | (off & bit)) & !bit == byte & !bit) by (bit_vector);
    assert(((byte & !bit) | (off & bit)) & bit == off & bit) by (bit_vector);
}

proof fn lemma_distance(a: u64, addr: u64)
    ensures
        region::offset(addr, distance(a, addr) as int) == a,
{
}

/// A word that stands at an address is there again once it is written back.
proof fn lemma_word_put_back(mem: spec_fn(u64) -> u8, addr: u64, word: u64, other: u64)
    requires
        bytes::le_bytes(word) == memory::window(mem, addr, 8),
    ensures
        poke_word(poke_word(mem, addr, other), addr, word) == mem,
        poke_word(mem, addr, word) == mem,
{
    let once = poke_word(mem, addr, word);
    let twice = poke_word(poke_word(mem, addr, other), addr, word);
    assert forall|a: u64| #[trigger] once(a) == mem(a) && twice(a) == mem(a) by {
        let d = distance(a, addr);
        if d < 8 {
            lemma_distance(a, addr);
            assert(memory::window(mem, addr, 8)[d as int] == mem(a));
        }
    }
    assert(once =~= mem);
    assert(twice =~= mem);
}

/// What stands at an address is there again once it is written back.
proof fn lemma_put_back(mem: spec_fn(u64) -> u8, targets: Targets, other: u64)
    ensures
        poke_word(
            poke_word(mem, targets.interval, other),
            targets.interval,
            standing(mem, targets).interval,
        ) == mem,
        poke_word(mem, targets.interval, standing(mem, targets).interval) == mem,
{
    bytes::bytes_from_their_word(memory::window(mem, targets.interval, 8));
    lemma_word_put_back(mem, targets.interval, standing(mem, targets).interval, other);
}

/// A switch-back undoes a switch-over: the memory is as it was.
pub proof fn switching_back_undoes(mem: spec_fn(u64) -> u8, targets: Targets)
    ensures
        restored(applied(mem, targets), targets, standing(mem, targets)) == mem,
{
    let saved = standing(mem, targets);
    let byte = mem(targets.sync);
    lemma_merged(byte, targets.off, targets.bit);
    lemma_put_back(mem, targets, run::INTERVAL);
    let there = poke_word(mem, targets.interval, run::INTERVAL);
    let back = poke_word(there, targets.interval, saved.interval);
    assert(back == mem);
    let all = restored(applied(mem, targets), targets, saved);
    assert forall|a: u64| #[trigger] all(a) == mem(a) by {
        let d = distance(targets.sync, targets.interval);
        if d < 8 {
            lemma_distance(targets.sync, targets.interval);
            assert(back(targets.sync) == bytes::le_bytes(saved.interval)[d as int]);
        }
        if a != targets.sync {
            assert(all(a) == back(a));
        }
    }
    assert(all =~= mem);
}

/// A second switch-over right after the first changes nothing.
pub proof fn switching_over_twice_is_once(mem: spec_fn(u64) -> u8, targets: Targets)
    ensures
        applied(applied(mem, targets), targets) == applied(mem, targets),
{
    lemma_merged(mem(targets.sync), targets.off, targets.bit);
    assert(applied(applied(mem, targets), targets) =~= applied(mem, targets));
}

/// A switch-over changes the interval and the display sync, and nothing else: the display sync
/// is off, and all bytes outside are as they were. With the flag outside the interval, the
/// interval is the short one, and the other bits of the flag byte are as they were.
pub proof fn switching_over_keeps_the_rest(mem: spec_fn(u64) -> u8, targets: Targets, a: u64)
    ensures
        apart(targets) ==> standing(applied(mem, targets), targets).interval == run::INTERVAL,
        applied(mem, targets)(targets.sync) & targets.bit == targets.off & targets.bit,
        apart(targets) ==> applied(mem, targets)(targets.sync) & !targets.bit == mem(targets.sync)
            & !targets.bit,
        a != targets.sync && distance(a, targets.interval) >= 8 ==> applied(mem, targets)(a) == mem(
            a,
        ),
{
    let next = poke_word(mem, targets.interval, run::INTERVAL);
    lemma_merged(next(targets.sync), targets.off, targets.bit);
    if apart(targets) {
        lemma_word_stands(mem, targets, run::INTERVAL, applied(mem, targets)(targets.sync));
    }
}

/// A switch-back brings back the saved display sync, and with the flag outside the interval the
/// saved interval, whatever the process has written in the meantime. It changes nothing else.
pub proof fn switching_back_keeps_the_rest(
    mem: spec_fn(u64) -> u8,
    targets: Targets,
    saved: Saved,
    a: u64,
)
    ensures
        apart(targets) ==> standing(restored(mem, targets, saved), targets).interval
            == saved.interval,
        restored(mem, targets, saved)(targets.sync) & targets.bit == saved.sync & targets.bit,
        apart(targets) ==> restored(mem, targets, saved)(targets.sync) & !targets.bit == mem(
            targets.sync,
        ) & !targets.bit,
        a != targets.sync && distance(a, targets.interval) >= 8 ==> restored(mem, targets, saved)(a)
            == mem(a),
{
    let next = poke_word(mem, targets.interval, saved.interval);
    lemma_merged(next(targets.sync), saved.sync, targets.bit);
    if apart(targets) {
        lemma_word_stands(
            mem,
            targets,
            saved.interval,
            restored(mem, targets, saved)(targets.sync),
        );
    }
}

proof fn lemma_word_stands(mem: spec_fn(u64) -> u8, targets: Targets, word: u64, byte: u8)
    requires
        apart(targets),
    ensures
        standing(
            poke(poke_word(mem, targets.interval, word), targets.sync, byte),
            targets,
        ).interval == word,
{
    let now = poke(poke_word(mem, targets.interval, word), targets.sync, byte);
    let seen = memory::window(now, targets.interval, 8);
    assert forall|i: int| 0 <= i < 8 implies seen[i] == bytes::le_bytes(word)[i] by {
        let a = region::offset(targets.interval, i);
        assert(distance(a, targets.interval) == i);
    }
    assert(seen =~= bytes::le_bytes(word));
    bytes::word_from_its_bytes(word);
}

/// What the switch-back after a failed switch-over leaves: the memory as it was before both.
proof fn lemma_switching_back_after_failure(kernel: Kernel, p: Process, targets: Targets)
    requires
        run::applying(targets).play(process(kernel), p).1 is Err,
    ensures
        run::restoring(targets, standing(p.mem, targets)).play(
            process(kernel),
            run::applying(targets).play(process(kernel), p).0,
        ).0.mem == p.mem,
{
    let mem = p.mem;
    let after = run::applying(targets).play(process(kernel), p).0;
    switching_over_writes(kernel, p, targets);
    switching_back_writes(kernel, after, targets, standing(mem, targets));
    lemma_merged(mem(targets.sync), targets.off, targets.bit);
    lemma_put_back(mem, targets, run::INTERVAL);
    assert(poke(mem, targets.sync, mem(targets.sync)) =~= mem);
}

/// What a start that succeeds or fails has done to the memory: it is switched over wholly, which
/// takes targets that can be written, and the run remembers what stood there; or it is as it
/// was.
pub open spec fn all_or_nothing(
    kernel: Kernel,
    mem: spec_fn(u64) -> u8,
    after: spec_fn(u64) -> u8,
    result: Result<RunState, Error>,
) -> bool {
    match result {
        Ok(run) => {
            &&& run.on
            &&& kernel.can_write(run.targets.interval)
            &&& kernel.can_write(run.targets.sync)
            &&& run.saved == standing(mem, run.targets)
            &&& after == applied(mem, run.targets)
        },
        Err(error) => after == mem,
    }
}

/// A start that has found its targets switches over wholly or not at all, also where a read
/// fails halfway. It succeeds where the targets can be reached and what stands there can be
/// read, and only where that was so at the first two reads.
pub proof fn taking_over_is_all_or_nothing(kernel: Kernel, p: Process, targets: Targets)
    ensures
        ({
            let (after, result) = start::taking_over(targets).play(process(kernel), p);
            let first = Query::Read { addr: targets.interval, len: 8 };
            let second = Query::Read { addr: targets.sync, len: 1 };
            &&& all_or_nothing(kernel, p.mem, after.mem, result)
            &&& kernel.reaches(targets) && kernel.can_read(targets.interval, 8) ==> result is Ok
            &&& match result {
                Ok(run) => {
                    &&& run.targets == targets
                    &&& (kernel.reads)(p.asked, first) == KERN_SUCCESS
                    &&& (kernel.reads)(p.asked.push(first), second) == KERN_SUCCESS
                },
                Err(error) => error is Write || error is Read,
            }
        }),
{
    let world = process(kernel);
    let saved = standing(p.mem, targets);
    let apply = run::applying(targets);
    let f = start::with_applied(targets, saved);
    let q1 = Query::Read { addr: targets.interval, len: 8 };
    let q2 = Query::Read { addr: targets.sync, len: 1 };
    let s1 = (kernel.reads)(p.asked, q1);
    let s2 = (kernel.reads)(p.asked.push(q1), q2);
    let ready = Process { mem: p.mem, asked: p.asked.push(q1).push(q2) };
    lemma_first_byte(p.mem, targets.sync);
    if s1 == KERN_SUCCESS && s2 == KERN_SUCCESS {
        assert(start::taking_over(targets).play(world, p) == apply.chain(f).play(world, ready)) by {
            reveal_with_fuel(Script::play, 3);
        }
        script::lemma_play_chain(apply, f, world, ready);
        let (after, result) = apply.play(world, ready);
        switching_over_writes(kernel, ready, targets);
        if let Err(error) = result {
            lemma_switching_back_after_failure(kernel, ready, targets);
            let restore = run::restoring(targets, saved);
            script::lemma_play_chain(restore, start::given_up(error), world, after);
        }
    } else {
        reveal_with_fuel(Script::play, 3);
    }
}

/// A part that writes nothing, and what comes after it in the same memory.
proof fn lemma_harmless_first<R>(
    first: Search<R>,
    f: spec_fn(R) -> Search<Result<RunState, Error>>,
    kernel: Kernel,
    p: Process,
)
    requires
        script::only_asks(first, memory::harmless()),
    ensures
        ({
            let world = process(kernel);
            let (next, r) = first.play(world, p);
            first.chain(f).play(world, p) == f(r).play(world, next) && next.mem == p.mem
        }),
{
    let world = process(kernel);
    script::lemma_play_chain(first, f, world, p);
    script::lemma_only_play(first, memory::harmless(), world, p, |p: Process| p.mem);
}

/// Whatever the answers to its reads and to everything but its writes are, a start switches over
/// wholly or not at all: where it fails, for whichever reason, the memory of the process is as
/// it was, and where it succeeds, nothing but the interval and the display sync has changed.
pub proof fn starting_is_all_or_nothing(kernel: Kernel, p: Process, pid: i32)
    ensures
        ({
            let (after, result) = start::starting(pid).play(process(kernel), p);
            all_or_nothing(kernel, p.mem, after.mem, result)
        }),
{
    let world = process(kernel);
    metal::probing_is_harmless();
    lemma_harmless_first(metal::probing(), start::with_metal(pid), kernel, p);
    let (p1, r1) = metal::probing().play(world, p);
    if let Ok(m) = r1 {
        images::attaching_is_harmless(pid);
        lemma_harmless_first(images::attaching(pid), start::with_base(m), kernel, p1);
        let (p2, r2) = images::attaching(pid).play(world, p1);
        if let Ok(base) = r2 {
            lemma_regions_all_or_nothing(kernel, p2, m, base);
        }
    }
}

proof fn lemma_regions_all_or_nothing(kernel: Kernel, p: Process, m: metal::Metal, base: u64)
    ensures
        ({
            let (after, result) = start::regions_read(m, base).play(process(kernel), p);
            all_or_nothing(kernel, p.mem, after.mem, result)
        }),
{
    let world = process(kernel);
    let (p0, reply) = world(p, Query::Regions);
    let heap = reply.regions();
    let read = macho::reading(base).chain(start::with_image(m, heap));
    assert(start::regions_read(m, base).play(world, p) == read.play(world, p0));
    macho::reading_is_harmless(base);
    lemma_harmless_first(macho::reading(base), start::with_image(m, heap), kernel, p0);
    let (p1, r1) = macho::reading(base).play(world, p0);
    if let Ok(image) = r1 {
        let find = scheduler::looking(image, heap);
        scheduler::looking_is_harmless(image, heap);
        lemma_harmless_first(find, start::with_scheduler(m, heap), kernel, p1);
        let (p2, r2) = find.play(world, p1);
        if let Ok((ptr, place)) = r2 {
            let interval = region::offset(ptr, place as int);
            let look = layer::looking(m, heap);
            layer::looking_is_harmless(m, heap);
            lemma_harmless_first(look, start::with_flag(m, interval), kernel, p2);
            let (p3, r3) = look.play(world, p2);
            if let Ok(sync) = r3 {
                let targets = start::targets_of(m, interval, sync);
                taking_over_is_all_or_nothing(kernel, p3, targets);
            }
        }
    }
}

/// A run that is started and stopped leaves the memory as it was, if the targets can be reached
/// when it is stopped.
pub proof fn stopped_runs_leave_no_trace(kernel: Kernel, later: Kernel, p: Process, pid: i32)
    ensures
        ({
            let (after, result) = start::starting(pid).play(process(kernel), p);
            result matches Ok(run) ==> later.reaches(run.targets) ==> run::restoring(
                run.targets,
                run.saved,
            ).play(process(later), after).0.mem == p.mem
        }),
{
    starting_is_all_or_nothing(kernel, p, pid);
    let (after, result) = start::starting(pid).play(process(kernel), p);
    if let Ok(run) = result {
        switching_back_writes(later, after, run.targets, run.saved);
        switching_back_undoes(p.mem, run.targets);
    }
}

/// A kernel that answers the same question the same way every time.
pub open spec fn steady(
    writes: spec_fn(u64) -> i32,
    reads: spec_fn(Query) -> i32,
    other: spec_fn(Query) -> Reply,
) -> Kernel {
    Kernel {
        writes,
        reads: |asked: Seq<Query>, query: Query| reads(query),
        other: |asked: Seq<Query>, query: Query| other(query),
    }
}

/// What a process with this memory answers with such a kernel.
pub open spec fn fixed(
    mem: spec_fn(u64) -> u8,
    reads: spec_fn(Query) -> i32,
    other: spec_fn(Query) -> Reply,
) -> spec_fn(Query) -> Reply {
    |query: Query|
        match query {
            Query::Read { addr, len } => read_reply(reads(query), mem, addr, len),
            _ => other(query),
        }
}

/// What a start writes to, in a process that answers in this way and has its image at `base`:
/// the interval of the first scheduler that the image points to, and the flag of the first
/// Metal layer.
pub open spec fn targets_in(world: spec_fn(Query) -> Reply, m: metal::Metal, base: u64) -> Result<
    Targets,
    Error,
> {
    let heap = world(Query::Regions).regions();
    match macho::reading(base).run(world) {
        Ok(image) => match scan::first_of(
            scan::words_in(world, scheduler::data_regions(image), 0),
            |addr: u64, ptr: u64| scheduler::scheduler_in(world, heap, ptr),
        ) {
            Some((ptr, place)) => match scan::first_of(
                scan::words_in(world, layer::layer_regions(heap), 0),
                |addr: u64, word: u64| layer::flag_in(world, m, heap, addr, word),
            ) {
                Some(sync) => Ok(
                    start::targets_of(m, region::offset(ptr, place as int), sync),
                ),
                None => Err(Error::LayerNotFound),
            },
            None => Err(Error::SchedulerNotFound),
        },
        Err(error) => Err(error),
    }
}

/// A part that writes nothing gives what it gives in a world that does not change.
proof fn lemma_harmless_runs<R>(
    first: Search<R>,
    writes: spec_fn(u64) -> i32,
    reads: spec_fn(Query) -> i32,
    other: spec_fn(Query) -> Reply,
    p: Process,
)
    requires
        script::only_asks(first, memory::harmless()),
    ensures
        first.play(process(steady(writes, reads, other)), p).1 == first.run(
            fixed(p.mem, reads, other),
        ),
{
    let world = process(steady(writes, reads, other));
    let inv = |s: Process| s.mem == p.mem;
    script::lemma_play_is_run(
        first,
        memory::harmless(),
        world,
        p,
        inv,
        fixed(p.mem, reads, other),
    );
}

/// Once a layer has been tried out and the process attached to, a start succeeds exactly where
/// the image can be read, a scheduler and a layer are there, and both targets can be read and
/// written; it takes the first of each. Else it tells what is amiss.
pub proof fn starts_take_the_first_of_each(
    writes: spec_fn(u64) -> i32,
    reads: spec_fn(Query) -> i32,
    other: spec_fn(Query) -> Reply,
    p: Process,
    m: metal::Metal,
    base: u64,
)
    ensures
        ({
            let kernel = steady(writes, reads, other);
            let result = start::regions_read(m, base).play(process(kernel), p).1;
            match targets_in(fixed(p.mem, reads, other), m, base) {
                Ok(targets) => {
                    &&& result is Ok <==> kernel.can_write(targets.interval) && kernel.can_write(
                        targets.sync,
                    ) && kernel.can_read(targets.interval, 8) && kernel.can_read(targets.sync, 1)
                    &&& result matches Ok(run) ==> run.targets == targets
                    &&& result matches Err(error) ==> error is Write || error is Read
                },
                Err(error) => result == Err::<RunState, Error>(error),
            }
        }),
{
    let kernel = steady(writes, reads, other);
    let world = process(kernel);
    let answers = fixed(p.mem, reads, other);
    let (p0, reply) = world(p, Query::Regions);
    let heap = reply.regions();
    let read = macho::reading(base);
    assert(start::regions_read(m, base).play(world, p) == read.chain(
        start::with_image(m, heap),
    ).play(world, p0));
    macho::reading_is_harmless(base);
    lemma_harmless_first(read, start::with_image(m, heap), kernel, p0);
    lemma_harmless_runs(read, writes, reads, other, p0);
    let (p1, r1) = read.play(world, p0);
    if let Ok(image) = r1 {
        let find = scheduler::looking(image, heap);
        scheduler::looking_is_harmless(image, heap);
        lemma_harmless_first(find, start::with_scheduler(m, heap), kernel, p1);
        lemma_harmless_runs(find, writes, reads, other, p1);
        scheduler::looking_gives_the_first_scheduler(answers, image, heap);
        let (p2, r2) = find.play(world, p1);
        if let Ok((ptr, place)) = r2 {
            let interval = region::offset(ptr, place as int);
            let look = layer::looking(m, heap);
            layer::looking_is_harmless(m, heap);
            lemma_harmless_first(look, start::with_flag(m, interval), kernel, p2);
            lemma_harmless_runs(look, writes, reads, other, p2);
            layer::looking_gives_the_first_layer(answers, m, heap);
            let (p3, r3) = look.play(world, p2);
            if let Ok(sync) = r3 {
                let targets = start::targets_of(m, interval, sync);
                taking_over_is_all_or_nothing(kernel, p3, targets);
            }
        }
    }
}

/// While a run is on, a repeat that leaves it on has switched over, whatever the process had
/// written in the meantime. It does so wherever the targets can be reached. A repeat that fails
/// turns the run off and puts the saved interval back, if that can be written.
pub proof fn repeats_switch_over_or_back(kernel: Kernel, p: Process, run: RunState)
    requires
        run.on,
    ensures
        ({
            let (after, next) = run::repeating(run).play(process(kernel), p);
            &&& kernel.reaches(run.targets) ==> next.on
            &&& next.on ==> next == run && after.mem == applied(p.mem, run.targets)
            &&& !next.on ==> next == run.stopped()
            &&& !next.on && kernel.can_write(run.targets.interval) && apart(run.targets)
                ==> standing(after.mem, run.targets).interval == run.saved.interval
        }),
{
    let world = process(kernel);
    let targets = run.targets;
    let apply = run::applying(targets);
    let f = run::repeated(run);
    script::lemma_play_chain(apply, f, world, p);
    switching_over_writes(kernel, p, targets);
    let (after, result) = apply.play(world, p);
    if result is Err {
        let restore = run::restoring(targets, run.saved);
        script::lemma_play_chain(restore, run::left(run.stopped()), world, after);
        switching_back_writes(kernel, after, targets, run.saved);
        if kernel.can_write(targets.interval) && apart(targets) {
            let next = poke_word(after.mem, targets.interval, run.saved.interval);
            let byte = run::merged(next(targets.sync), run.saved.sync, targets.bit);
            lemma_word_stands(after.mem, targets, run.saved.interval, byte);
            lemma_word_stands(after.mem, targets, run.saved.interval, next(targets.sync));
            assert(poke(next, targets.sync, next(targets.sync)) =~= next);
        }
    }
}

/// One repeat: how the outside answers at that moment, and the process as it is then, with
/// whatever it has written itself.
pub struct Beat {
    pub kernel: Kernel,
    pub process: Process,
}

/// A run after these repeats.
pub open spec fn kept_up(run: RunState, beats: Seq<Beat>) -> RunState
    decreases beats.len(),
{
    if beats.len() == 0 {
        run
    } else {
        let beat = beats.last();
        run::repeating(kept_up(run, beats.drop_last())).play(
            process(beat.kernel),
            beat.process,
        ).1
    }
}

/// A repeat of this run comes to a switch-back.
pub open spec fn switches_back(run: RunState, beat: Beat) -> bool {
    run.due() matches Some(apply) && run.owed_after(
        apply.play(process(beat.kernel), beat.process).1,
    ) is Some
}

/// How many of these repeats come to a switch-back.
pub open spec fn switch_backs(run: RunState, beats: Seq<Beat>) -> nat
    decreases beats.len(),
{
    if beats.len() == 0 {
        0
    } else {
        let before = beats.drop_last();
        switch_backs(run, before) + if switches_back(kept_up(run, before), beats.last()) {
            1nat
        } else {
            0
        }
    }
}

/// A repeat that finds the run on and leaves it on, and the switch-over that it did.
pub open spec fn switched_over(run: RunState, beat: Beat) -> bool {
    let (after, next) = run::repeating(run).play(process(beat.kernel), beat.process);
    next == run && after.mem == applied(beat.process.mem, run.targets)
}

/// A run is kept up until the first repeat that fails, whatever the process writes between the
/// repeats. As long as it is on, every repeat has switched over. The first that fails turns it
/// off, and comes to the one switch-back that there is. From then on nothing is asked, so
/// nothing is written.
pub proof fn runs_are_kept_up_until_a_repeat_fails(run: RunState, beats: Seq<Beat>)
    ensures
        kept_up(run, beats) == run || kept_up(run, beats) == run.stopped(),
        kept_up(run, beats).on ==> forall|i: int|
            0 <= i < beats.len() ==> switched_over(run, #[trigger] beats[i]),
        switch_backs(run, beats) == if run.on && !kept_up(run, beats).on {
            1nat
        } else {
            0
        },
        !kept_up(run, beats).on ==> run::repeating(kept_up(run, beats)) == Script::<
            Query,
            Reply,
            RunState,
        >::End(kept_up(run, beats)),
    decreases beats.len(),
{
    if beats.len() > 0 {
        let before = beats.drop_last();
        let beat = beats.last();
        let now = kept_up(run, before);
        runs_are_kept_up_until_a_repeat_fails(run, before);
        if now.on {
            repeats_switch_over_or_back(beat.kernel, beat.process, now);
            let world = process(beat.kernel);
            let apply = run::applying(run.targets);
            script::lemma_play_chain(apply, run::repeated(now), world, beat.process);
            let (after, result) = apply.play(world, beat.process);
            if result is Err {
                script::lemma_play_chain(
                    run::restoring(run.targets, run.saved),
                    run::left(run.stopped()),
                    world,
                    after,
                );
            }
            if kept_up(run, beats).on {
                assert forall|i: int| 0 <= i < beats.len() implies switched_over(
                    run,
                    #[trigger] beats[i],
                ) by {
                    if i < before.len() {
                        assert(beats[i] == before[i]);
                    }
                }
            }
        }
    }
}

/// Stopping is for good: a stopped run is off, stopping it again is no change, and neither a
/// switch-over is due nor a switch-back owed.
pub proof fn stopped_runs_stay_off(run: RunState)
    ensures
        !run.stopped().on,
        run.stopped().stopped() == run.stopped(),
        run.stopped().due() is None,
        run.stopped().owed() is None,
{
}

/// What a start can end with: a run that is on and whose targets name a single bit, or an
/// error.
pub open spec fn begun() -> spec_fn(Result<RunState, Error>) -> bool {
    |r: Result<RunState, Error>|
        r matches Ok(run) ==> run.on && metal::single_bit(run.targets.bit)
}

/// Whatever the answers are, a start that succeeds gives a run that is on, with a display sync
/// that is a single bit.
pub proof fn starting_gives_a_run_that_is_on(pid: i32)
    ensures
        script::always(start::starting(pid), begun()),
{
    let good = begun();
    let told = |r: Result<metal::Metal, Error>| r matches Ok(m) ==> metal::single_bit(m.bit);
    let f = start::with_metal(pid);
    let trial = metal::probing();
    assert forall|a: Reply| script::always(#[trigger] trial.answered(a), told) by {
        metal::trials_tell_one_bit(a);
        script::lemma_always_weaker(trial.answered(a), metal::result_fits(a.layer()), told);
    }
    script::lemma_always_ask(trial, told);
    assert forall|r: Result<metal::Metal, Error>| #[trigger] told(r) implies script::always(
        f(r),
        good,
    ) by {
        if let Ok(m) = r {
            lemma_attached_begins(pid, m);
        }
    }
    script::lemma_always_chain(trial, f, told, good);
}

proof fn lemma_attached_begins(pid: i32, m: metal::Metal)
    requires
        metal::single_bit(m.bit),
    ensures
        script::always(images::attaching(pid).chain(start::with_base(m)), begun()),
{
    let good = begun();
    let f = start::with_base(m);
    assert forall|r: Result<u64, Error>| script::always(#[trigger] f(r), good) by {
        if let Ok(base) = r {
            let p = start::regions_read(m, base);
            assert forall|a: Reply| script::always(#[trigger] p.answered(a), good) by {
                lemma_image_begins(m, base, a.regions());
            }
            script::lemma_always_ask(p, good);
        }
    }
    script::lemma_always_after(images::attaching(pid), f, good);
}

proof fn lemma_image_begins(m: metal::Metal, base: u64, heap: Seq<Region>)
    requires
        metal::single_bit(m.bit),
    ensures
        script::always(macho::reading(base).chain(start::with_image(m, heap)), begun()),
{
    let good = begun();
    let f = start::with_image(m, heap);
    assert forall|r: Result<Seq<Region>, Error>| script::always(#[trigger] f(r), good) by {
        if let Ok(image) = r {
            let g = start::with_scheduler(m, heap);
            assert forall|s: Result<(u64, u64), Error>| script::always(#[trigger] g(s), good) by {
                if let Ok((ptr, place)) = s {
                    let h = start::with_flag(m, region::offset(ptr, place as int));
                    assert forall|t: Result<u64, Error>| script::always(
                        #[trigger] h(t),
                        good,
                    ) by {
                        if let Ok(sync) = t {
                            lemma_taking_over_begins(
                                start::targets_of(m, region::offset(ptr, place as int), sync),
                            );
                        }
                    }
                    script::lemma_always_after(layer::looking(m, heap), h, good);
                }
            }
            script::lemma_always_after(scheduler::looking(image, heap), g, good);
        }
    }
    script::lemma_always_after(macho::reading(base), f, good);
}

proof fn lemma_taking_over_begins(targets: Targets)
    requires
        metal::single_bit(targets.bit),
    ensures
        script::always(start::taking_over(targets), begun()),
{
    let good = begun();
    let p = start::taking_over(targets);
    assert forall|a: Reply| script::always(#[trigger] p.answered(a), good) by {
        if let Ok(word) = a.bytes(8) {
            let q = start::flag_saved(targets, bytes::le_u64(word, 0));
            assert forall|b: Reply| script::always(#[trigger] q.answered(b), good) by {
                if let Ok(data) = b.bytes(1) {
                    let saved = Saved { interval: bytes::le_u64(word, 0), sync: data[0] };
                    let f = start::with_applied(targets, saved);
                    assert forall|r: Result<(), Error>| script::always(#[trigger] f(r), good) by {
                        if let Err(error) = r {
                            script::lemma_always_after(
                                run::restoring(targets, saved),
                                start::given_up(error),
                                good,
                            );
                        }
                    }
                    script::lemma_always_after(run::applying(targets), f, good);
                }
            }
            script::lemma_always_ask(q, good);
        }
    }
    script::lemma_always_ask(p, good);
}

/// Where the interval and the flag can be written and the flag can be read, a switch-over succeeds.
/// The interval is then read as the bits of the number 0.001, the sync bit of the flag is as it is
/// with display sync off, and neither another bit of the flag nor any other byte has changed.
pub proof fn a_switch_over_shortens_the_interval(
    kernel: Kernel,
    p: Process,
    targets: Targets,
    a: u64,
)
    requires
        (kernel.writes)(targets.interval) == 0,
        (kernel.writes)(targets.sync) == 0,
        kernel.can_read(targets.sync, 1),
        apart(targets),
    ensures
        ({
            let (after, result) = run::applying(targets).play(process(kernel), p);
            let flag = (after.mem)(targets.sync);
            &&& result is Ok
            &&& bytes::le_u64(memory::window(after.mem, targets.interval, 8), 0)
                == 0x3f50_624d_d2f1_a9fc
            &&& flag & targets.bit == targets.off & targets.bit
            &&& flag & !targets.bit == (p.mem)(targets.sync) & !targets.bit
            &&& a != targets.sync && distance(a, targets.interval) >= 8 ==> (after.mem)(a) == (
            p.mem)(a)
        }),
{
    switching_over_writes(kernel, p, targets);
    switching_over_keeps_the_rest(p.mem, targets, a);
}

/// A switch-back writes the saved interval where that can be written, also where the flag cannot
/// be; and it brings back the saved sync bit where the flag can be read and written, also where
/// the interval cannot be. Neither another bit of the flag nor any other byte changes.
pub proof fn a_switch_back_brings_back_what_it_can(
    kernel: Kernel,
    p: Process,
    targets: Targets,
    saved: Saved,
    a: u64,
)
    requires
        apart(targets),
    ensures
        ({
            let after = run::restoring(targets, saved).play(process(kernel), p).0;
            let flag = (after.mem)(targets.sync);
            &&& (kernel.writes)(targets.interval) == 0 ==> bytes::le_u64(
                memory::window(after.mem, targets.interval, 8),
                0,
            ) == saved.interval
            &&& (kernel.writes)(targets.sync) == 0 && kernel.can_read(targets.sync, 1) ==> flag
                & targets.bit == saved.sync & targets.bit
            &&& flag & !targets.bit == (p.mem)(targets.sync) & !targets.bit
            &&& a != targets.sync && distance(a, targets.interval) >= 8 ==> (after.mem)(a) == (
            p.mem)(a)
        }),
{
    let next = if kernel.can_write(targets.interval) {
        poke_word(p.mem, targets.interval, saved.interval)
    } else {
        p.mem
    };
    let byte = next(targets.sync);
    assert(byte == (p.mem)(targets.sync));
    reveal_with_fuel(Script::play, 4);
    lemma_first_byte(next, targets.sync);
    lemma_merged(byte, saved.sync, targets.bit);
    let both = run::merged(byte, saved.sync, targets.bit);
    lemma_word_stands(p.mem, targets, saved.interval, both);
    lemma_word_stands(p.mem, targets, saved.interval, byte);
    assert(poke(next, targets.sync, byte) =~= next);
}

/// A repeat of a run that is off asks for nothing. One of a run that is on and that fails turns it
/// off and brings back what can be written: the saved interval, and the saved sync bit.
pub proof fn failed_repeats_bring_back_what_they_can(kernel: Kernel, p: Process, run: RunState)
    requires
        apart(run.targets),
    ensures
        ({
            let targets = run.targets;
            let (after, next) = run::repeating(run).play(process(kernel), p);
            let flag = (after.mem)(targets.sync);
            &&& !run.on ==> after == p && next == run
            &&& next.targets == targets
            &&& next.saved == run.saved
            &&& run.on && !next.on && (kernel.writes)(targets.interval) == 0 ==> bytes::le_u64(
                memory::window(after.mem, targets.interval, 8),
                0,
            ) == run.saved.interval
            &&& run.on && !next.on && (kernel.writes)(targets.sync) == 0 && kernel.can_read(
                targets.sync,
                1,
            ) ==> flag & targets.bit == run.saved.sync & targets.bit
            &&& run.on && (kernel.writes)(targets.interval) != 0 ==> !next.on
            &&& run.on && (kernel.writes)(targets.sync) != 0 ==> !next.on
        }),
{
    if run.on {
        let world = process(kernel);
        let apply = run::applying(run.targets);
        script::lemma_play_chain(apply, run::repeated(run), world, p);
        switching_over_writes(kernel, p, run.targets);
        let (after, result) = apply.play(world, p);
        if result is Err {
            let restore = run::restoring(run.targets, run.saved);
            script::lemma_play_chain(restore, run::left(run.stopped()), world, after);
            a_switch_back_brings_back_what_it_can(kernel, after, run.targets, run.saved, 0);
        }
    }
}

/// What a start comes to that has found where the interval and the flag are: it reads both, and
/// writes both. The first of the four that fails is told, with the kernel's code.
pub open spec fn taken_over(
    writes: spec_fn(u64) -> i32,
    reads: spec_fn(Query) -> i32,
    mem: spec_fn(u64) -> u8,
    targets: Targets,
) -> Result<RunState, Error> {
    let word = reads(Query::Read { addr: targets.interval, len: 8 });
    let byte = reads(Query::Read { addr: targets.sync, len: 1 });
    if word != 0 {
        Err(Error::Read(word))
    } else if byte != 0 {
        Err(Error::Read(byte))
    } else if writes(targets.interval) != 0 {
        Err(Error::Write(writes(targets.interval)))
    } else if writes(targets.sync) != 0 {
        Err(Error::Write(writes(targets.sync)))
    } else {
        Ok(
            RunState {
                targets,
                saved: Saved {
                    interval: bytes::le_u64(memory::window(mem, targets.interval, 8), 0),
                    sync: mem(targets.sync),
                },
                on: true,
            },
        )
    }
}

proof fn lemma_taken_over(
    writes: spec_fn(u64) -> i32,
    reads: spec_fn(Query) -> i32,
    other: spec_fn(Query) -> Reply,
    p: Process,
    targets: Targets,
)
    ensures
        start::taking_over(targets).play(process(steady(writes, reads, other)), p).1 == taken_over(
            writes,
            reads,
            p.mem,
            targets,
        ),
{
    let kernel = steady(writes, reads, other);
    let world = process(kernel);
    let q1 = Query::Read { addr: targets.interval, len: 8 };
    let q2 = Query::Read { addr: targets.sync, len: 1 };
    if reads(q1) == 0 && reads(q2) == 0 {
        let saved = standing(p.mem, targets);
        let apply = run::applying(targets);
        let f = start::with_applied(targets, saved);
        let ready = Process { mem: p.mem, asked: p.asked.push(q1).push(q2) };
        lemma_first_byte(p.mem, targets.sync);
        assert(start::taking_over(targets).play(world, p) == apply.chain(f).play(world, ready)) by {
            reveal_with_fuel(Script::play, 3);
        }
        script::lemma_play_chain(apply, f, world, ready);
        let (after, result) = apply.play(world, ready);
        assert(result == if writes(targets.interval) != 0 {
            Err(Error::Write(writes(targets.interval)))
        } else if writes(targets.sync) != 0 {
            Err(Error::Write(writes(targets.sync)))
        } else {
            Ok::<(), Error>(())
        }) by {
            reveal_with_fuel(Script::play, 4);
        }
        if let Err(error) = result {
            let restore = run::restoring(targets, saved);
            script::lemma_play_chain(restore, start::given_up(error), world, after);
        }
    } else {
        reveal_with_fuel(Script::play, 3);
    }
}

/// Once a layer has been tried out and the process attached to, a start reads the image, looks for
/// the scheduler and for the layer, and takes over the interval at its place in the scheduler, and
/// the flag with the bit that the trial told. What ends one of the steps ends the start.
pub proof fn starts_go_from_step_to_step(
    writes: spec_fn(u64) -> i32,
    reads: spec_fn(Query) -> i32,
    other: spec_fn(Query) -> Reply,
    p: Process,
    m: metal::Metal,
    base: u64,
    heap: Seq<Region>,
)
    requires
        other(Query::Regions) == Reply::Regions(heap),
    ensures
        ({
            let world = fixed(p.mem, reads, other);
            let result = start::regions_read(m, base).play(
                process(steady(writes, reads, other)),
                p,
            ).1;
            match macho::reading(base).run(world) {
                Err(error) => result == Err::<RunState, Error>(error),
                Ok(image) => match scheduler::looking(image, heap).run(world) {
                    Err(error) => result == Err::<RunState, Error>(error),
                    Ok((ptr, place)) => match layer::looking(m, heap).run(world) {
                        Err(error) => result == Err::<RunState, Error>(error),
                        Ok(sync) => result == taken_over(
                            writes,
                            reads,
                            p.mem,
                            (Targets {
                                interval: region::offset(ptr, place as int),
                                sync,
                                bit: m.bit,
                                off: m.off,
                            }),
                        ),
                    },
                },
            }
        }),
{
    let kernel = steady(writes, reads, other);
    let world = process(kernel);
    let p0 = world(p, Query::Regions).0;
    let read = macho::reading(base);
    assert(start::regions_read(m, base).play(world, p) == read.chain(
        start::with_image(m, heap),
    ).play(world, p0));
    macho::reading_is_harmless(base);
    lemma_harmless_first(read, start::with_image(m, heap), kernel, p0);
    lemma_harmless_runs(read, writes, reads, other, p0);
    let (p1, r1) = read.play(world, p0);
    if let Ok(image) = r1 {
        let find = scheduler::looking(image, heap);
        scheduler::looking_is_harmless(image, heap);
        lemma_harmless_first(find, start::with_scheduler(m, heap), kernel, p1);
        lemma_harmless_runs(find, writes, reads, other, p1);
        let (p2, r2) = find.play(world, p1);
        if let Ok((ptr, place)) = r2 {
            let interval = region::offset(ptr, place as int);
            let look = layer::looking(m, heap);
            layer::looking_is_harmless(m, heap);
            lemma_harmless_first(look, start::with_flag(m, interval), kernel, p2);
            lemma_harmless_runs(look, writes, reads, other, p2);
            let (p3, r3) = look.play(world, p2);
            if let Ok(sync) = r3 {
                lemma_taken_over(
                    writes,
                    reads,
                    other,
                    p3,
                    start::targets_of(m, interval, sync),
                );
            }
        }
    }
}

/// A start tries out a layer, attaches to the process that it was given, and goes on with what the
/// two told. What ends one of them ends the start.
pub proof fn starts_try_a_layer_and_attach(kernel: Kernel, p: Process, pid: i32)
    ensures
        ({
            let world = process(kernel);
            let result = start::starting(pid).play(world, p).1;
            let (tried, layer) = metal::probing().play(world, p);
            match layer {
                Err(error) => result == Err::<RunState, Error>(error),
                Ok(m) => {
                    let (attached, base) = images::attaching(pid).play(world, tried);
                    match base {
                        Err(error) => result == Err::<RunState, Error>(error),
                        Ok(base) => result == start::regions_read(m, base).play(world, attached).1,
                    }
                },
            }
        }),
{
    let world = process(kernel);
    let (tried, layer) = metal::probing().play(world, p);
    script::lemma_play_chain(metal::probing(), start::with_metal(pid), world, p);
    if let Ok(m) = layer {
        script::lemma_play_chain(images::attaching(pid), start::with_base(m), world, tried);
    }
}

/// A start that has found where the interval and the flag are, and can read and write both, first
/// reads what stands there, both the interval and the flag, and only then writes. It reads the flag
/// once more right before it writes it.
pub proof fn starts_save_before_they_write(kernel: Kernel, p: Process, targets: Targets)
    requires
        (kernel.writes)(targets.interval) == 0,
        (kernel.writes)(targets.sync) == 0,
        kernel.can_read(targets.interval, 8),
        kernel.can_read(targets.sync, 1),
    ensures
        ({
            let asked = start::taking_over(targets).play(process(kernel), p).0.asked;
            let n = p.asked.len() as int;
            &&& asked.len() == n + 5
            &&& asked.take(n) == p.asked
            &&& asked[n] == (Query::Read { addr: targets.interval, len: 8 })
            &&& asked[n + 1] == (Query::Read { addr: targets.sync, len: 1 })
            &&& asked[n + 2] == (Query::WriteWord {
                addr: targets.interval,
                word: 0x3f50_624d_d2f1_a9fc,
            })
            &&& asked[n + 3] == (Query::Read { addr: targets.sync, len: 1 })
            &&& asked[n + 4] matches Query::WriteByte { addr, byte } && addr == targets.sync
        }),
{
    let world = process(kernel);
    let q1 = Query::Read { addr: targets.interval, len: 8 };
    let q2 = Query::Read { addr: targets.sync, len: 1 };
    let saved = standing(p.mem, targets);
    let apply = run::applying(targets);
    let f = start::with_applied(targets, saved);
    let ready = Process { mem: p.mem, asked: p.asked.push(q1).push(q2) };
    lemma_first_byte(p.mem, targets.sync);
    assert((kernel.reads)(p.asked, q1) == 0);
    assert((kernel.reads)(p.asked.push(q1), q2) == 0);
    assert(start::taking_over(targets).play(world, p) == apply.chain(f).play(world, ready)) by {
        reveal_with_fuel(Script::play, 3);
    }
    script::lemma_play_chain(apply, f, world, ready);
    let (after, result) = apply.play(world, ready);
    let q3 = Query::WriteWord { addr: targets.interval, word: run::INTERVAL };
    assert((kernel.reads)(ready.asked.push(q3), q2) == 0);
    reveal_with_fuel(Script::play, 4);
    assert(result is Ok);
    assert(after.asked.take(p.asked.len() as int) =~= p.asked);
}

} // verus!
