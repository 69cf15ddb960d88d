//! Reading the name of an object: a C++ string in either of its two memory layouts.
use vstd::prelude::*;

use crate::bytes;
use crate::memory;
use crate::memory::{Answer, Query, Reply, Search};
use crate::region;
use crate::script;
use crate::script::Script;

verus! {

/// How many bytes a string object has.
pub const STRING_SIZE: u64 = 24;

/// The most bytes that a short string keeps in the object itself.
pub const SHORT_MAX: u64 = 23;

/// The most bytes of a long string that are looked at.
pub const LONG_MAX: u64 = 128;

/// Where the characters of a string are, by one of the layouts.
pub enum Place {
    /// In the object, from this byte up to that one.
    Short { from: u64, to: u64 },
    /// Elsewhere.
    Long { ptr: u64, len: u64 },
    /// The object cannot have this layout.
    Nowhere,
}

/// The layout with the length of a short string in the last byte, as on ARM. A set top bit
/// there marks a long string.
pub open spec fn arm_place(object: Seq<u8>) -> Place {
    if object[23] < 0x80 {
        if object[23] <= SHORT_MAX {
            Place::Short { from: 0, to: object[23] as u64 }
        } else {
            Place::Nowhere
        }
    } else {
        Place::Long { ptr: bytes::le_u64(object, 0), len: bytes::le_u64(object, 8) }
    }
}

/// The layout with twice the length of a short string in the first byte, as on Intel. An odd
/// number there marks a long string.
pub open spec fn intel_place(object: Seq<u8>) -> Place {
    if object[0] % 2 == 0 {
        if object[0] / 2 <= SHORT_MAX {
            Place::Short { from: 1, to: (1 + object[0] / 2) as u64 }
        } else {
            Place::Nowhere
        }
    } else {
        Place::Long { ptr: bytes::le_u64(object, 16), len: bytes::le_u64(object, 8) }
    }
}

/// The characters at a place, which takes a read where the string is a long one.
pub open spec fn characters(object: Seq<u8>, place: Place) -> Search<Option<Seq<u8>>> {
    match place {
        Place::Short { from, to } => Script::End(Some(object.subrange(from as int, to as int))),
        Place::Long { ptr, len } => if region::pointer_like(ptr) && len <= LONG_MAX {
            Script::Ask(
                Query::Read { addr: ptr, len },
                |reply: Reply| Script::End(reply.bytes(len).ok()),
            )
        } else {
            Script::End(None)
        },
        Place::Nowhere => Script::End(None),
    }
}

/// `s` could be the name of something: 3 to 47 printable ASCII characters.
pub open spec fn name_like(s: Seq<u8>) -> bool {
    3 <= s.len() < 48 && forall|i: int| 0 <= i < s.len() ==> 0x20 <= #[trigger] s[i] <= 0x7e
}

/// The first of two readings that could be a name.
pub open spec fn better(arm: Option<Seq<u8>>, intel: Option<Seq<u8>>) -> Option<Seq<u8>> {
    if arm is Some && name_like(arm->0) {
        arm
    } else if intel is Some && name_like(intel->0) {
        intel
    } else {
        None
    }
}

/// What is left once the object and its ARM reading are there.
pub open spec fn with_arm(object: Seq<u8>) -> spec_fn(Option<Seq<u8>>) -> Search<Option<Seq<u8>>> {
    |arm: Option<Seq<u8>>| characters(object, intel_place(object)).chain(with_both(arm))
}

/// What is left once both readings are there.
pub open spec fn with_both(arm: Option<Seq<u8>>) -> spec_fn(Option<Seq<u8>>) -> Search<
    Option<Seq<u8>>,
> {
    |intel: Option<Seq<u8>>| Script::End(better(arm, intel))
}

/// Reads the name of the string object at `addr`.
pub open spec fn reading(addr: u64) -> Search<Option<Seq<u8>>> {
    Script::Ask(
        Query::Read { addr, len: STRING_SIZE },
        |reply: Reply|
            match reply.bytes(STRING_SIZE) {
                Ok(object) => characters(object, arm_place(object)).chain(with_arm(object)),
                Err(_) => Script::End(None),
            },
    )
}

/// The ARM place in a string object.
fn find_arm(object: &[u8]) -> (place: Place)
    requires
        object@.len() == STRING_SIZE,
    ensures
        place == arm_place(object@),
{
    let last: u8 = object[23];
    if last < 0x80 {
        if last <= 23 {
            Place::Short { from: 0, to: last as u64 }
        } else {
            Place::Nowhere
        }
    } else {
        Place::Long { ptr: bytes::read_u64(object, 0), len: bytes::read_u64(object, 8) }
    }
}

/// The Intel place in a string object.
fn find_intel(object: &[u8]) -> (place: Place)
    requires
        object@.len() == STRING_SIZE,
    ensures
        place == intel_place(object@),
{
    let first: u8 = object[0];
    if first % 2 == 0 {
        if first / 2 <= 23 {
            Place::Short { from: 1, to: 1 + (first / 2) as u64 }
        } else {
            Place::Nowhere
        }
    } else {
        Place::Long { ptr: bytes::read_u64(object, 16), len: bytes::read_u64(object, 8) }
    }
}

/// Whether `s` could be a name.
pub fn is_name(s: &[u8]) -> (yes: bool)
    ensures
        yes == name_like(s@),
{
    if s.len() < 3 || s.len() >= 48 {
        return false;
    }
    let mut i: usize = 0;
    while i < s.len()
        invariant
            i <= s@.len(),
            forall|k: int| 0 <= k < i ==> 0x20 <= #[trigger] s@[k] <= 0x7e,
        decreases s@.len() - i,
    {
        if s[i] < 0x20 || s[i] > 0x7e {
            assert(!(0x20 <= s@[i as int] <= 0x7e));
            return false;
        }
        i += 1;
    }
    true
}

/// What fetching the characters at a place comes to: they are there, or a read must give them.
enum Fetch {
    Have(Option<Vec<u8>>),
    Need { ptr: u64, len: u64 },
}

impl Fetch {
    spec fn script(self) -> Search<Option<Seq<u8>>> {
        match self {
            Fetch::Have(s) => Script::End(bytes::seen(s)),
            Fetch::Need { ptr, len } => Script::Ask(
                Query::Read { addr: ptr, len },
                |reply: Reply| Script::End(reply.bytes(len).ok()),
            ),
        }
    }
}

fn fetch(object: &[u8], place: Place) -> (what: Fetch)
    requires
        object@.len() == STRING_SIZE,
        place matches Place::Short { from, to } ==> from <= to <= STRING_SIZE,
    ensures
        what.script() == characters(object@, place),
{
    match place {
        Place::Short { from, to } => Fetch::Have(
            Some(bytes::copy(object, from as usize, to as usize)),
        ),
        Place::Long { ptr, len } => if region::is_ptr(ptr) && len <= LONG_MAX {
            Fetch::Need { ptr, len }
        } else {
            Fetch::Have(None)
        },
        Place::Nowhere => Fetch::Have(None),
    }
}

enum State {
    Object { addr: u64 },
    Arm { object: Vec<u8>, ptr: u64, len: u64 },
    Intel { arm: Option<Vec<u8>>, ptr: u64, len: u64 },
    End(Option<Vec<u8>>),
}

/// A reading of a name that is under way.
pub struct NameReader {
    state: State,
}

impl View for NameReader {
    type V = Search<Option<Seq<u8>>>;

    closed spec fn view(&self) -> Search<Option<Seq<u8>>> {
        match self.state {
            State::Object { addr } => reading(addr),
            State::Arm { object, ptr, len } => Fetch::Need { ptr, len }.script().chain(
                with_arm(object@),
            ),
            State::Intel { arm, ptr, len } => Fetch::Need { ptr, len }.script().chain(
                with_both(bytes::seen(arm)),
            ),
            State::End(name) => Script::End(bytes::seen(name)),
        }
    }
}

impl NameReader {
    #[verifier::type_invariant]
    spec fn inv(&self) -> bool {
        self.state matches State::Arm { object, .. } ==> object@.len() == STRING_SIZE
    }

    /// Reads the name of the string object at `addr`.
    pub fn text(addr: u64) -> (reader: NameReader)
        ensures
            reader@ == reading(addr),
    {
        NameReader { state: State::Object { addr } }
    }

    /// What to ask next; nothing once the name is there.
    pub fn query(&self) -> (query: Option<Query>)
        ensures
            query == self@.question(),
    {
        match self.state {
            State::Object { addr } => Some(Query::Read { addr, len: STRING_SIZE }),
            State::Arm { ptr, len, .. } => Some(Query::Read { addr: ptr, len }),
            State::Intel { ptr, len, .. } => Some(Query::Read { addr: ptr, len }),
            State::End(_) => None,
        }
    }

    /// Takes the answer to what `query` asks.
    pub fn answer(self, answer: Answer) -> (reader: NameReader)
        ensures
            reader@ == self@.answered(answer@),
    {
        proof {
            use_type_invariant(&self);
        }
        match self.state {
            State::Object { addr: _ } => match answer.bytes(STRING_SIZE) {
                Ok(object) => NameReader::go_on(object),
                Err(_) => NameReader { state: State::End(None) },
            },
            State::Arm { object, ptr, len } => {
                let arm = match answer.bytes(len) {
                    Ok(s) => Some(s),
                    Err(_) => None,
                };
                proof {
                    script::lemma_chain_ask(
                        Fetch::Need { ptr, len }.script(),
                        with_arm(object@),
                        answer@,
                    );
                }
                NameReader::after_arm(object, arm)
            },
            State::Intel { arm, ptr, len } => {
                let intel = match answer.bytes(len) {
                    Ok(s) => Some(s),
                    Err(_) => None,
                };
                proof {
                    script::lemma_chain_ask(
                        Fetch::Need { ptr, len }.script(),
                        with_both(bytes::seen(arm)),
                        answer@,
                    );
                }
                NameReader::after_both(arm, intel)
            },
            State::End(name) => NameReader { state: State::End(name) },
        }
    }

    fn go_on(object: Vec<u8>) -> (reader: NameReader)
        requires
            object@.len() == STRING_SIZE,
        ensures
            reader@ == characters(object@, arm_place(object@)).chain(with_arm(object@)),
    {
        let place = find_arm(&object);
        match fetch(&object, place) {
            Fetch::Have(arm) => NameReader::after_arm(object, arm),
            Fetch::Need { ptr, len } => NameReader { state: State::Arm { object, ptr, len } },
        }
    }

    fn after_arm(object: Vec<u8>, arm: Option<Vec<u8>>) -> (reader: NameReader)
        requires
            object@.len() == STRING_SIZE,
        ensures
            reader@ == with_arm(object@)(bytes::seen(arm)),
    {
        let place = find_intel(&object);
        match fetch(&object, place) {
            Fetch::Have(intel) => NameReader::after_both(arm, intel),
            Fetch::Need { ptr, len } => NameReader { state: State::Intel { arm, ptr, len } },
        }
    }

    fn after_both(arm: Option<Vec<u8>>, intel: Option<Vec<u8>>) -> (reader: NameReader)
        ensures
            reader@ == with_both(bytes::seen(arm))(bytes::seen(intel)),
    {
        if let Some(s) = arm {
            if is_name(&s) {
                return NameReader { state: State::End(Some(s)) };
            }
        }
        if let Some(s) = intel {
            if is_name(&s) {
                return NameReader { state: State::End(Some(s)) };
            }
        }
        NameReader { state: State::End(None) }
    }

    /// The name, once there is nothing more to ask.
    pub fn name(self) -> (name: Option<Vec<u8>>)
        ensures
            self@ matches Script::End(result) ==> bytes::seen(name) == result,
    {
        match self.state {
            State::End(name) => name,
            _ => None,
        }
    }
}

/// The bytes that a read gives in a world that does not change.
pub open spec fn read_in(world: spec_fn(Query) -> Reply, addr: u64, len: u64) -> Option<Seq<u8>> {
    world(Query::Read { addr, len }).bytes(len).ok()
}

/// The characters at a place in a world that does not change.
pub open spec fn characters_in(
    world: spec_fn(Query) -> Reply,
    object: Seq<u8>,
    place: Place,
) -> Option<Seq<u8>> {
    match place {
        Place::Short { from, to } => Some(object.subrange(from as int, to as int)),
        Place::Long { ptr, len } => if region::pointer_like(ptr) && len <= LONG_MAX {
            read_in(world, ptr, len)
        } else {
            None
        },
        Place::Nowhere => None,
    }
}

/// The name of the string object at `addr` in a world that does not change.
pub open spec fn name_in(world: spec_fn(Query) -> Reply, addr: u64) -> Option<Seq<u8>> {
    match read_in(world, addr, STRING_SIZE) {
        Some(object) => better(
            characters_in(world, object, arm_place(object)),
            characters_in(world, object, intel_place(object)),
        ),
        None => None,
    }
}

/// In a world that does not change, a reading gives the name that stands there.
pub proof fn reading_gives_the_name(world: spec_fn(Query) -> Reply, addr: u64)
    ensures
        reading(addr).run(world) == name_in(world, addr),
{
    let reply = world(Query::Read { addr, len: STRING_SIZE });
    match reply.bytes(STRING_SIZE) {
        Ok(object) => {
            let arm = characters(object, arm_place(object));
            let intel = characters(object, intel_place(object));
            reveal_with_fuel(Script::run, 3);
            script::lemma_run_chain(arm, with_arm(object), world);
            script::lemma_run_chain(intel, with_both(arm.run(world)), world);
            assert(reading(addr).run(world) == arm.chain(with_arm(object)).run(world));
        },
        Err(_) => {
            reveal_with_fuel(Script::run, 3);
        },
    }
}

/// Reading a name writes nothing.
pub proof fn reading_is_harmless(addr: u64)
    ensures
        script::only_asks(reading(addr), memory::harmless()),
{
    let ok = memory::harmless();
    let p = reading(addr);
    assert forall|a: Reply| script::only_asks(#[trigger] p.answered(a), ok) by {
        if let Ok(object) = a.bytes(STRING_SIZE) {
            let f = with_arm(object);
            assert forall|arm: Option<Seq<u8>>| script::only_asks(#[trigger] f(arm), ok) by {
                let g = with_both(arm);
                assert forall|intel: Option<Seq<u8>>| script::only_asks(
                    #[trigger] g(intel),
                    ok,
                ) by {}
                lemma_characters_harmless(object, intel_place(object));
                script::lemma_only_chain(characters(object, intel_place(object)), g, ok);
            }
            lemma_characters_harmless(object, arm_place(object));
            script::lemma_only_chain(characters(object, arm_place(object)), f, ok);
        }
    }
    script::lemma_only_ask(p, ok);
}

proof fn lemma_characters_harmless(object: Seq<u8>, place: Place)
    ensures
        script::only_asks(characters(object, place), memory::harmless()),
{
    let p = characters(object, place);
    assert forall|a: Reply| script::only_asks(#[trigger] p.answered(a), memory::harmless()) by {}
    script::lemma_only_ask(p, memory::harmless());
}

/// Three to 47 characters from the space to the tilde.
pub open spec fn printable(s: Seq<u8>) -> bool {
    &&& 3 <= s.len() <= 47
    &&& forall|i: int| 0 <= i < s.len() ==> ' ' as u8 <= #[trigger] s[i] <= '~' as u8
}

/// `s` is what a long string with this address and length holds: at most 128 bytes, at an address
/// that looks like a pointer, that can be read.
pub open spec fn long_text(world: spec_fn(Query) -> Reply, ptr: u64, len: u64, s: Seq<u8>) -> bool {
    &&& region::pointer_like(ptr)
    &&& len <= 128
    &&& s.len() == len
    &&& world(Query::Read { addr: ptr, len }) == (Reply::Bytes { status: 0, data: s })
}

/// A string object holds the name `s` as on ARM: the last byte is the length of a short one, which
/// stands from the first byte on; with its top bit set, the first word is the address of a long
/// one and the second its length.
pub open spec fn named_as_on_arm(
    world: spec_fn(Query) -> Reply,
    object: Seq<u8>,
    s: Seq<u8>,
) -> bool {
    &&& printable(s)
    &&& if object[23] < 128 {
        s.len() == object[23] && s.len() <= 23 && forall|i: int|
            0 <= i < s.len() ==> #[trigger] s[i] == object[i]
    } else {
        long_text(world, bytes::le_u64(object, 0), bytes::le_u64(object, 8), s)
    }
}

/// A string object holds the name `s` as on Intel: the first byte is twice the length of a short
/// one, which stands from the second byte on; where it is odd, the last word is the address of a
/// long one and the second its length.
pub open spec fn named_as_on_intel(
    world: spec_fn(Query) -> Reply,
    object: Seq<u8>,
    s: Seq<u8>,
) -> bool {
    &&& printable(s)
    &&& if object[0] % 2 == 0 {
        2 * s.len() == object[0] && s.len() <= 23 && forall|i: int|
            0 <= i < s.len() ==> #[trigger] s[i] == object[i + 1]
    } else {
        long_text(world, bytes::le_u64(object, 16), bytes::le_u64(object, 8), s)
    }
}

/// In a world that does not change, the name of a string object of 24 bytes is the one that it
/// holds as on ARM, or where it holds none in that way, as on Intel.
pub proof fn names_are_held_in_one_of_two_ways(
    world: spec_fn(Query) -> Reply,
    addr: u64,
    object: Seq<u8>,
    s: Seq<u8>,
)
    requires
        world(Query::Read { addr, len: 24 }) == (Reply::Bytes { status: 0, data: object }),
        object.len() == 24,
    ensures
        reading(addr).run(world) == Some(s) <==> named_as_on_arm(world, object, s) || (
        named_as_on_intel(world, object, s) && forall|t: Seq<u8>|
            !#[trigger] named_as_on_arm(world, object, t)),
{
    reading_gives_the_name(world, addr);
    let arm = characters_in(world, object, arm_place(object));
    let intel = characters_in(world, object, intel_place(object));
    assert(read_in(world, addr, 24) == Some(object));
    assert forall|t: Seq<u8>| #[trigger] named_as_on_arm(world, object, t) <==> arm == Some(t)
        && name_like(t) by {
        if object[23] < 128 {
            if object[23] <= 23 {
                let short = object.subrange(0, object[23] as int);
                if named_as_on_arm(world, object, t) {
                    assert(t =~= short);
                }
                if arm == Some(t) && name_like(t) {
                    assert forall|i: int| 0 <= i < t.len() implies #[trigger] t[i]
                        == object[i] by {}
                }
            }
        }
    }
    assert forall|t: Seq<u8>| #[trigger] named_as_on_intel(world, object, t) <==> intel == Some(t)
        && name_like(t) by {
        if object[0] % 2 == 0 {
            if object[0] / 2 <= 23 {
                let short = object.subrange(1, 1 + object[0] as int / 2);
                if named_as_on_intel(world, object, t) {
                    assert(t =~= short);
                }
                if intel == Some(t) && name_like(t) {
                    assert forall|i: int| 0 <= i < t.len() implies #[trigger] t[i] == object[i
                        + 1] by {}
                }
            }
        }
    }
    assert(named_as_on_arm(world, object, s) == (arm == Some(s) && name_like(s)));
    assert(named_as_on_intel(world, object, s) == (intel == Some(s) && name_like(s)));
    if arm is Some {
        assert(named_as_on_arm(world, object, arm->0) == name_like(arm->0));
    }
}

/// In a world that does not change, an object that cannot be read has no name.
pub proof fn what_cannot_be_read_has_no_name(world: spec_fn(Query) -> Reply, addr: u64)
    requires
        world(Query::Read { addr, len: 24 }).bytes(24) is Err,
    ensures
        reading(addr).run(world) is None,
{
    reading_gives_the_name(world, addr);
}

} // verus!
