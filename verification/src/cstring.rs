//! Reading text that ends with a zero byte.
use vstd::prelude::*;

use crate::bytes;
use crate::memory;
use crate::memory::{Answer, Query, Reply, Search};
use crate::region;
use crate::script;
use crate::script::Script;

verus! {

/// How many bytes are read at a time.
pub const PART: u64 = 32;

/// How many parts are read at most.
pub const PARTS: u64 = 8;

/// The text that these bytes are, if they are well-formed UTF-8.
pub open spec fn well_formed(s: Seq<u8>) -> Option<Seq<u8>> {
    if vstd::utf8::valid_utf8(s) {
        Some(s)
    } else {
        None
    }
}

/// Reads from part `i` on, after what has been read before.
pub open spec fn reading_on(addr: u64, i: nat, before: Seq<u8>) -> Search<Option<Seq<u8>>>
    decreases PARTS - i,
{
    if i >= PARTS {
        Script::End(None)
    } else {
        Script::Ask(
            Query::Read { addr: region::offset(addr, (i * PART) as int), len: PART },
            |reply: Reply|
                match reply.bytes(PART) {
                    Ok(part) => match bytes::first_zero(part) {
                        Some(end) => Script::End(well_formed(before + part.take(end))),
                        None => reading_on(addr, i + 1, before + part),
                    },
                    Err(_) => Script::End(None),
                },
        )
    }
}

/// Reads the text at `addr`.
pub open spec fn reading(addr: u64) -> Search<Option<Seq<u8>>> {
    reading_on(addr, 0, Seq::empty())
}

/// Whether the bytes are well-formed UTF-8, by `std::str::from_utf8`: that function gives an
/// error exactly for the byte strings that are not.
#[verifier::external_body]
fn is_utf8(s: &[u8]) -> (yes: bool)
    ensures
        yes == vstd::utf8::valid_utf8(s@),
{
    std::str::from_utf8(s).is_ok()
}

enum State {
    Part { addr: u64, i: u64, before: Vec<u8> },
    End(Option<Vec<u8>>),
}

/// A reading of a text that is under way.
pub struct TextReader {
    state: State,
}

impl View for TextReader {
    type V = Search<Option<Seq<u8>>>;

    closed spec fn view(&self) -> Search<Option<Seq<u8>>> {
        match self.state {
            State::Part { addr, i, before } => reading_on(addr, i as nat, before@),
            State::End(text) => Script::End(bytes::seen(text)),
        }
    }
}

impl TextReader {
    #[verifier::type_invariant]
    spec fn inv(&self) -> bool {
        self.state matches State::Part { i, .. } ==> i < PARTS
    }

    /// Reads the text at `addr`.
    pub fn read_cstr(addr: u64) -> (reader: TextReader)
        ensures
            reader@ == reading(addr),
    {
        let before: Vec<u8> = Vec::new();
        assert(before@ =~= Seq::empty());
        TextReader { state: State::Part { addr, i: 0, before } }
    }

    /// What to ask next; nothing once the text is there.
    pub fn query(&self) -> (query: Option<Query>)
        ensures
            query == self@.question(),
    {
        proof {
            use_type_invariant(self);
        }
        match &self.state {
            State::Part { addr, i, .. } => Some(
                Query::Read { addr: region::address(*addr, *i * PART), len: PART },
            ),
            State::End(_) => None,
        }
    }

    /// Takes the answer to what `query` asks.
    pub fn answer(self, answer: Answer) -> (reader: TextReader)
        ensures
            reader@ == self@.answered(answer@),
    {
        proof {
            use_type_invariant(&self);
            reveal_with_fuel(reading_on, 2);
        }
        match self.state {
            State::Part { addr, i, before } => {
                let mut all = before;
                let ghost old = all@;
                let mut part = match answer.bytes(PART) {
                    Ok(part) => part,
                    Err(_) => {
                        return TextReader { state: State::End(None) };
                    },
                };
                if let Some(end) = bytes::find_zero(&part) {
                    let ghost whole = part@;
                    part.truncate(end);
                    assert(part@ =~= whole.take(end as int));
                    all.append(&mut part);
                    assert(all@ =~= old + whole.take(end as int));
                    if is_utf8(&all) {
                        return TextReader { state: State::End(Some(all)) };
                    }
                    return TextReader { state: State::End(None) };
                }
                all.append(&mut part);
                if i + 1 < PARTS {
                    return TextReader { state: State::Part { addr, i: i + 1, before: all } };
                }
                TextReader { state: State::End(None) }
            },
            State::End(text) => TextReader { state: State::End(text) },
        }
    }

    /// The text, once there is nothing more to ask.
    pub fn text(self) -> (text: Option<Vec<u8>>)
        ensures
            self@ matches Script::End(result) ==> bytes::seen(text) == result,
    {
        match self.state {
            State::End(text) => text,
            _ => None,
        }
    }
}

/// The bytes at `addr` up to the first zero byte, if there is one among the first `len`.
pub open spec fn terminated(mem: spec_fn(u64) -> u8, addr: u64, len: nat) -> Option<Seq<u8>> {
    match bytes::first_zero(memory::window(mem, addr, len)) {
        Some(end) => Some(memory::window(mem, addr, end as nat)),
        None => None,
    }
}

/// The parts of the text at `addr` before part `n` can be read.
pub open spec fn parts_readable(readable: spec_fn(u64) -> bool, addr: u64, n: nat) -> bool {
    forall|j: nat| j < n ==> readable(#[trigger] part_start(addr, j))
}

/// Where part `j` of the text at `addr` begins.
pub open spec fn part_start(addr: u64, j: nat) -> u64 {
    region::offset(addr, (j * PART) as int)
}

/// The text at `addr` of a memory of which not all can be read: the bytes up to the first zero
/// byte, if that is among the first 256, the part that it is in and those before it can be
/// read, and the bytes are well-formed.
pub open spec fn text_in(
    mem: spec_fn(u64) -> u8,
    readable: spec_fn(u64) -> bool,
    addr: u64,
) -> Option<Seq<u8>> {
    match terminated(mem, addr, (PARTS * PART) as nat) {
        Some(text) => if parts_readable(readable, addr, (text.len() / PART as nat + 1) as nat) {
            well_formed(text)
        } else {
            None
        },
        None => None,
    }
}

proof fn lemma_reading_on(
    mem: spec_fn(u64) -> u8,
    readable: spec_fn(u64) -> bool,
    addr: u64,
    i: nat,
)
    requires
        i <= PARTS,
        bytes::first_zero(memory::window(mem, addr, (i * PART) as nat)) is None,
        parts_readable(readable, addr, i),
    ensures
        reading_on(addr, i, memory::window(mem, addr, (i * PART) as nat)).run(
            memory::patchy(mem, readable),
        ) == text_in(mem, readable, addr),
    decreases PARTS - i, 1nat,
{
    let all = memory::window(mem, addr, (PARTS * PART) as nat);
    let before = memory::window(mem, addr, (i * PART) as nat);
    assert(forall|j: int| 0 <= j < before.len() ==> before[j] != 0);
    assert forall|j: int| 0 <= j < before.len() implies before[j] == all[j] by {}
    if i < PARTS {
        let at = part_start(addr, i);
        reveal_with_fuel(Script::run, 2);
        if readable(at) {
            lemma_part(mem, readable, addr, i);
        } else if terminated(mem, addr, (PARTS * PART) as nat) is Some {
            bytes::lemma_zero_found(all);
            let end = bytes::first_zero(all)->0;
            assert(end >= before.len()) by {
                if end < before.len() {
                    assert(before[end] == all[end]);
                }
            }
            assert(!parts_readable(readable, addr, (end as nat / PART as nat + 1) as nat)) by {
                assert(i <= end as nat / PART as nat);
                assert(!readable(part_start(addr, i)));
            }
        }
    }
}

/// The step over a part that can be read.
proof fn lemma_part(mem: spec_fn(u64) -> u8, readable: spec_fn(u64) -> bool, addr: u64, i: nat)
    requires
        i < PARTS,
        bytes::first_zero(memory::window(mem, addr, (i * PART) as nat)) is None,
        parts_readable(readable, addr, i),
        readable(part_start(addr, i)),
    ensures
        reading_on(addr, i, memory::window(mem, addr, (i * PART) as nat)).run(
            memory::patchy(mem, readable),
        ) == text_in(mem, readable, addr),
    decreases PARTS - i, 0nat,
{
    let all = memory::window(mem, addr, (PARTS * PART) as nat);
    let before = memory::window(mem, addr, (i * PART) as nat);
    let at = part_start(addr, i);
    let part = memory::window(mem, at, PART as nat);
    assert forall|j: int| 0 <= j < before.len() implies before[j] == all[j] by {}
    assert forall|j: int| 0 <= j < PART implies part[j] == #[trigger] all[before.len() + j] by {
        assert(region::offset(at, j) == region::offset(addr, before.len() + j));
    }
    assert(forall|j: int| 0 <= j < before.len() ==> before[j] != 0);
    reveal_with_fuel(Script::run, 2);
    let reply = memory::patchy(mem, readable)(Query::Read { addr: at, len: PART });
    assert(reply.bytes(PART) == Ok::<Seq<u8>, i32>(part));
    match bytes::first_zero(part) {
        Some(end) => {
            bytes::lemma_zero_found(part);
            let place = before.len() + end;
            assert(all[place] == 0);
            assert forall|j: int| 0 <= j < place implies all[j] != 0 by {
                if j >= before.len() {
                    assert(part[j - before.len()] == all[before.len() + (j - before.len())]);
                } else {
                    assert(before[j] != 0);
                }
            }
            bytes::lemma_first_zero(all, place);
            let text = memory::window(mem, addr, place as nat);
            assert(before + part.take(end) =~= text) by {
                assert forall|j: int| 0 <= j < text.len() implies (before + part.take(end))[j]
                    == text[j] by {
                    if j >= before.len() {
                        assert(part[j - before.len()] == all[before.len() + (j - before.len())]);
                    }
                }
            }
            assert(text.len() / PART as nat == i);
            assert(parts_readable(readable, addr, i + 1));
        },
        None => {
            let longer = memory::window(mem, addr, ((i + 1) * PART) as nat);
            assert(before + part =~= longer) by {
                assert forall|j: int| 0 <= j < longer.len() implies (before + part)[j]
                    == longer[j] by {
                    if j >= before.len() {
                        assert(part[j - before.len()] == all[before.len() + (j - before.len())]);
                    }
                }
            }
            assert(forall|j: int| 0 <= j < part.len() ==> part[j] != 0);
            assert(bytes::first_zero(longer) is None);
            assert(parts_readable(readable, addr, i + 1));
            lemma_reading_on(mem, readable, addr, i + 1);
        },
    }
}

/// A reading gives the bytes up to the first zero byte, exactly where that is among the first
/// 256, the parts through it can be read and the bytes are well-formed. What comes after it
/// does not matter.
pub proof fn reading_gives_the_text(
    mem: spec_fn(u64) -> u8,
    readable: spec_fn(u64) -> bool,
    addr: u64,
)
    ensures
        reading(addr).run(memory::patchy(mem, readable)) == text_in(mem, readable, addr),
{
    assert(memory::window(mem, addr, 0) =~= Seq::empty());
    lemma_reading_on(mem, readable, addr, 0);
}

proof fn lemma_reading_on_harmless(addr: u64, i: nat, before: Seq<u8>)
    ensures
        script::only_asks(reading_on(addr, i, before), memory::harmless()),
    decreases PARTS - i,
{
    let ok = memory::harmless();
    let p = reading_on(addr, i, before);
    if i < PARTS {
        assert forall|a: Reply| script::only_asks(#[trigger] p.answered(a), ok) by {
            if let Ok(part) = a.bytes(PART) {
                lemma_reading_on_harmless(addr, i + 1, before + part);
            }
        }
        script::lemma_only_ask(p, ok);
    }
}

/// Reading a text writes nothing.
pub proof fn reading_is_harmless(addr: u64)
    ensures
        script::only_asks(reading(addr), memory::harmless()),
{
    lemma_reading_on_harmless(addr, 0, Seq::empty());
}

/// A text stands at `addr`: fewer than 256 bytes that are not zero, and a zero byte after them;
/// well-formed; and the memory can be read from each of the places 32 bytes apart that lead to
/// that zero byte.
pub open spec fn is_text_at(
    mem: spec_fn(u64) -> u8,
    readable: spec_fn(u64) -> bool,
    addr: u64,
    s: Seq<u8>,
) -> bool {
    &&& s.len() < 256
    &&& forall|i: int|
        0 <= i < s.len() ==> #[trigger] s[i] != 0 && s[i] == mem(region::offset(addr, i))
    &&& mem(region::offset(addr, s.len() as int)) == 0
    &&& forall|j: int|
        0 <= 32 * j <= s.len() ==> readable(#[trigger] region::offset(addr, 32 * j))
    &&& vstd::utf8::valid_utf8(s)
}

/// A reading gives a text exactly where that text stands.
pub proof fn texts_are_read_where_they_stand(
    mem: spec_fn(u64) -> u8,
    readable: spec_fn(u64) -> bool,
    addr: u64,
    s: Seq<u8>,
)
    ensures
        reading(addr).run(memory::patchy(mem, readable)) == Some(s) <==> is_text_at(
            mem,
            readable,
            addr,
            s,
        ),
{
    reading_gives_the_text(mem, readable, addr);
    let all = memory::window(mem, addr, 256);
    let parts = (s.len() / 32 + 1) as nat;
    assert((s.len() / PART as nat + 1) as nat == parts);
    if is_text_at(mem, readable, addr, s) {
        let end = s.len() as int;
        assert(all[end] == 0);
        assert forall|i: int| 0 <= i < end implies all[i] != 0 by {
            assert(s[i] != 0);
        }
        bytes::lemma_first_zero(all, end);
        assert(memory::window(mem, addr, s.len()) =~= s);
        assert forall|j: nat| j < parts implies readable(#[trigger] part_start(addr, j)) by {
            assert(0 <= 32 * j <= s.len());
            assert(readable(region::offset(addr, 32 * j as int)));
        }
    }
    if text_in(mem, readable, addr) == Some(s) {
        bytes::lemma_zero_found(all);
        let end = bytes::first_zero(all)->0;
        let text = memory::window(mem, addr, end as nat);
        assert(s == text);
        assert forall|i: int| 0 <= i < s.len() implies #[trigger] s[i] != 0 && s[i] == mem(
            region::offset(addr, i),
        ) by {
            assert(all[i] != 0);
        }
        assert forall|j: int| 0 <= 32 * j <= s.len() implies readable(
            #[trigger] region::offset(addr, 32 * j),
        ) by {
            assert(readable(part_start(addr, j as nat)));
        }
    }
}

} // verus!
