//! Attaching to a process and finding the player's image in it.
use vstd::prelude::*;
use vstd::string::StringSliceAdditionalSpecFns;

use crate::bytes;
use crate::cstring;
use crate::cstring::TextReader;
use crate::error::Error;
use crate::memory;
use crate::memory::{Answer, Query, Reply, Search};
use crate::region;
use crate::region::KERN_SUCCESS;
use crate::script;
use crate::script::Script;

verus! {

/// How many bytes an entry of the image list has.
pub const ENTRY: u64 = 24;

/// The path is that of the player's program.
pub open spec fn player_path(path: Option<Seq<u8>>) -> bool {
    path matches Some(path) && bytes::finishes_with(path, "MacOS/RobloxPlayer".spec_bytes())
}

/// What an entry with this load address comes to, once its path is known.
pub open spec fn with_path(load: u64) -> spec_fn(Option<Seq<u8>>) -> Search<
    ((), Option<Option<u64>>),
> {
    |path: Option<Seq<u8>>|
        Script::End(
            (
                (),
                if player_path(path) {
                    Some(Some(load))
                } else {
                    None
                },
            ),
        )
}

/// Reads where the path of an entry is, and the path. Where that cannot be read the search is
/// over, with nothing.
pub open spec fn path_read(item: u64, load: u64) -> Search<((), Option<Option<u64>>)> {
    Script::Ask(
        Query::Read { addr: region::offset(item, 8), len: 8 },
        |reply: Reply|
            match reply.bytes(8) {
                Ok(data) => cstring::reading(bytes::le_u64(data, 0)).chain(with_path(load)),
                Err(_) => Script::End(((), Some(None))),
            },
    )
}

/// Looks at entry `i` of the list. Where its load address cannot be read the search is over,
/// with nothing.
pub open spec fn entry_visit(list: u64) -> spec_fn(nat, ()) -> Search<((), Option<Option<u64>>)> {
    |i: nat, s: ()|
        Script::Ask(
            Query::Read { addr: region::offset(list, (i * ENTRY) as int), len: 8 },
            |reply: Reply|
                match reply.bytes(8) {
                    Ok(data) => path_read(
                        region::offset(list, (i * ENTRY) as int),
                        bytes::le_u64(data, 0),
                    ),
                    Err(_) => Script::End(((), Some(None))),
                },
        )
}

/// The load address, where one was found.
pub open spec fn outcome() -> spec_fn(((), Option<Option<u64>>)) -> Search<Option<u64>> {
    |r: ((), Option<Option<u64>>)|
        Script::End(
            match r.1 {
                Some(found) => found,
                None => None,
            },
        )
}

/// Goes through the `n` entries of the list.
pub open spec fn listed(list: u64, n: u32) -> Search<Option<u64>> {
    script::search(n as nat, entry_visit(list), 0, ()).chain(outcome())
}

/// Reads where the list is.
pub open spec fn list_read(info: u64, n: u32) -> Search<Option<u64>> {
    Script::Ask(
        Query::Read { addr: region::offset(info, 8), len: 8 },
        |reply: Reply|
            match reply.bytes(8) {
                Ok(data) => listed(bytes::le_u64(data, 0), n),
                Err(_) => Script::End(None),
            },
    )
}

/// Reads how many entries the list has.
pub open spec fn count_read(info: u64) -> Search<Option<u64>> {
    Script::Ask(
        Query::Read { addr: region::offset(info, 4), len: 4 },
        |reply: Reply|
            match reply.bytes(4) {
                Ok(data) => list_read(info, bytes::le_u32(data, 0)),
                Err(_) => Script::End(None),
            },
    )
}

/// Looks for the base of the player's image.
pub open spec fn looking() -> Search<Option<u64>> {
    Script::Ask(
        Query::DyldInfo,
        |reply: Reply|
            match reply.address() {
                Some(info) => count_read(info),
                None => Script::End(None),
            },
    )
}

/// What attaching comes to.
pub open spec fn attached() -> spec_fn(Option<u64>) -> Search<Result<u64, Error>> {
    |base: Option<u64>|
        Script::End(
            match base {
                Some(base) => Ok(base),
                None => Err(Error::ImageNotFound),
            },
        )
}

/// Attaches to a process and looks for the base of the player's image in it.
pub open spec fn attaching(pid: i32) -> Search<Result<u64, Error>> {
    Script::Ask(
        Query::Attach { pid },
        |reply: Reply|
            if reply.status() == KERN_SUCCESS {
                looking().chain(attached())
            } else {
                Script::End(Err(Error::TaskForPid(reply.status())))
            },
    )
}

enum State {
    Attach { pid: i32 },
    Info,
    Count { info: u64 },
    List { info: u64, n: u32 },
    Load { list: u64, n: u32, i: u32 },
    Path { list: u64, n: u32, i: u32, load: u64 },
    Text { list: u64, n: u32, i: u32, load: u64, reader: TextReader },
    End(Result<u64, Error>),
}

/// An attempt to attach that is under way.
pub struct Attachment {
    state: State,
}

/// The visit to entry `i` that is under way, and what comes after it.
spec fn at_entry(list: u64, n: u32, i: u32, inner: Search<((), Option<Option<u64>>)>) -> Search<
    Result<u64, Error>,
> {
    inner.chain(script::after(n as nat, entry_visit(list), i as nat)).chain(outcome()).chain(
        attached(),
    )
}

impl View for Attachment {
    type V = Search<Result<u64, Error>>;

    closed spec fn view(&self) -> Search<Result<u64, Error>> {
        match self.state {
            State::Attach { pid } => attaching(pid),
            State::Info => looking().chain(attached()),
            State::Count { info } => count_read(info).chain(attached()),
            State::List { info, n } => list_read(info, n).chain(attached()),
            State::Load { list, n, i } => at_entry(list, n, i, entry_visit(list)(i as nat, ())),
            State::Path { list, n, i, load } => at_entry(
                list,
                n,
                i,
                path_read(region::offset(list, i * ENTRY), load),
            ),
            State::Text { list, n, i, load, reader } => at_entry(
                list,
                n,
                i,
                reader@.chain(with_path(load)),
            ),
            State::End(result) => Script::End(result),
        }
    }
}

proof fn lemma_at_entry(
    list: u64,
    n: u32,
    i: u32,
    inner: Search<((), Option<Option<u64>>)>,
    a: Reply,
)
    ensures
        inner is Ask ==> at_entry(list, n, i, inner).question() == inner.question(),
        inner is Ask ==> at_entry(list, n, i, inner).answered(a) == at_entry(
            list,
            n,
            i,
            inner.answered(a),
        ),
{
    if inner is Ask {
        let f = script::after(n as nat, entry_visit(list), i as nat);
        script::lemma_chain_ask(inner, f, a);
        script::lemma_chain_ask(inner.chain(f), outcome(), a);
        script::lemma_chain_ask(inner.chain(f).chain(outcome()), attached(), a);
    }
}

impl Attachment {
    #[verifier::type_invariant]
    spec fn inv(&self) -> bool {
        match self.state {
            State::Load { list, n, i } => i < n,
            State::Path { list, n, i, load } => i < n,
            State::Text { list, n, i, load, reader } => i < n && reader@ is Ask,
            _ => true,
        }
    }

    /// Attaches to a process.
    pub fn attach(pid: i32) -> (attachment: Attachment)
        ensures
            attachment@ == attaching(pid),
    {
        Attachment { state: State::Attach { pid } }
    }

    proof fn lemma_asks(&self, a: Reply)
        requires
            self.inv(),
        ensures
            match self.state {
                State::Info => self@.question() == looking().question() && self@.answered(a)
                    == looking().answered(a).chain(attached()),
                State::Count { info } => self@.question() == count_read(info).question()
                    && self@.answered(a) == count_read(info).answered(a).chain(attached()),
                State::List { info, n } => self@.question() == list_read(info, n).question()
                    && self@.answered(a) == list_read(info, n).answered(a).chain(attached()),
                State::Load { list, n, i } => {
                    let p = entry_visit(list)(i as nat, ());
                    self@.question() == p.question() && self@.answered(a) == at_entry(
                        list,
                        n,
                        i,
                        p.answered(a),
                    )
                },
                State::Path { list, n, i, load } => {
                    let p = path_read(region::offset(list, i * ENTRY), load);
                    self@.question() == p.question() && self@.answered(a) == at_entry(
                        list,
                        n,
                        i,
                        p.answered(a),
                    )
                },
                State::Text { list, n, i, load, reader } => self@.question() == reader@.question()
                    && self@.answered(a) == at_entry(
                    list,
                    n,
                    i,
                    reader@.answered(a).chain(with_path(load)),
                ),
                _ => true,
            },
    {
        match self.state {
            State::Info => script::lemma_chain_ask(looking(), attached(), a),
            State::Count { info } => script::lemma_chain_ask(count_read(info), attached(), a),
            State::List { info, n } => script::lemma_chain_ask(list_read(info, n), attached(), a),
            State::Load { list, n, i } => lemma_at_entry(
                list,
                n,
                i,
                entry_visit(list)(i as nat, ()),
                a,
            ),
            State::Path { list, n, i, load } => lemma_at_entry(
                list,
                n,
                i,
                path_read(region::offset(list, i * ENTRY), load),
                a,
            ),
            State::Text { list, n, i, load, reader } => {
                script::lemma_chain_ask(reader@, with_path(load), a);
                lemma_at_entry(list, n, i, reader@.chain(with_path(load)), a);
            },
            _ => {},
        }
    }

    /// What to ask next; nothing once the attempt is over.
    pub fn query(&self) -> (query: Option<Query>)
        ensures
            query == self@.question(),
    {
        proof {
            use_type_invariant(self);
            self.lemma_asks(Reply::Done);
        }
        match &self.state {
            State::Attach { pid } => Some(Query::Attach { pid: *pid }),
            State::Info => Some(Query::DyldInfo),
            State::Count { info } => Some(
                Query::Read { addr: region::address(*info, 4), len: 4 },
            ),
            State::List { info, .. } => Some(
                Query::Read { addr: region::address(*info, 8), len: 8 },
            ),
            State::Load { list, i, .. } => Some(
                Query::Read { addr: region::address(*list, *i as u64 * ENTRY), len: 8 },
            ),
            State::Path { list, i, .. } => Some(
                Query::Read {
                    addr: region::address(region::address(*list, *i as u64 * ENTRY), 8),
                    len: 8,
                },
            ),
            State::Text { reader, .. } => reader.query(),
            State::End(_) => None,
        }
    }

    /// Takes the answer to what `query` asks.
    pub fn answer(self, answer: Answer) -> (attachment: Attachment)
        ensures
            attachment@ == self@.answered(answer@),
    {
        proof {
            use_type_invariant(&self);
            self.lemma_asks(answer@);
        }
        match self.state {
            State::Attach { pid: _ } => {
                let status: i32 = answer.status();
                if status != KERN_SUCCESS {
                    return Attachment { state: State::End(Err(Error::TaskForPid(status))) };
                }
                Attachment { state: State::Info }
            },
            State::Info => match answer.address() {
                Some(info) => Attachment { state: State::Count { info } },
                None => Attachment { state: State::End(Err(Error::ImageNotFound)) },
            },
            State::Count { info } => match answer.bytes(4) {
                Ok(data) => Attachment {
                    state: State::List { info, n: bytes::read_u32(&data, 0) },
                },
                Err(_) => Attachment { state: State::End(Err(Error::ImageNotFound)) },
            },
            State::List { info: _, n } => match answer.bytes(8) {
                Ok(data) => Attachment::entry(bytes::read_u64(&data, 0), n, 0),
                Err(_) => Attachment { state: State::End(Err(Error::ImageNotFound)) },
            },
            State::Load { list, n, i } => match answer.bytes(8) {
                Ok(data) => Attachment {
                    state: State::Path { list, n, i, load: bytes::read_u64(&data, 0) },
                },
                Err(_) => Attachment { state: State::End(Err(Error::ImageNotFound)) },
            },
            State::Path { list, n, i, load } => match answer.bytes(8) {
                Ok(data) => Attachment::with_reader(
                    list,
                    n,
                    i,
                    load,
                    TextReader::read_cstr(bytes::read_u64(&data, 0)),
                ),
                Err(_) => Attachment { state: State::End(Err(Error::ImageNotFound)) },
            },
            State::Text { list, n, i, load, reader } => Attachment::with_reader(
                list,
                n,
                i,
                load,
                reader.answer(answer),
            ),
            State::End(result) => Attachment { state: State::End(result) },
        }
    }

    fn entry(list: u64, n: u32, i: u32) -> (attachment: Attachment)
        requires
            i <= n,
        ensures
            attachment@ == script::search(n as nat, entry_visit(list), i as nat, ()).chain(
                outcome(),
            ).chain(attached()),
    {
        if i < n {
            Attachment { state: State::Load { list, n, i } }
        } else {
            Attachment { state: State::End(Err(Error::ImageNotFound)) }
        }
    }

    fn with_reader(list: u64, n: u32, i: u32, load: u64, reader: TextReader) -> (attachment:
        Attachment)
        requires
            i < n,
        ensures
            attachment@ == at_entry(list, n, i, reader@.chain(with_path(load))),
    {
        if reader.query().is_some() {
            return Attachment { state: State::Text { list, n, i, load, reader } };
        }
        if let Some(path) = reader.text() {
            if bytes::ends_with(&path, "MacOS/RobloxPlayer".as_bytes()) {
                return Attachment { state: State::End(Ok(load)) };
            }
        }
        Attachment::entry(list, n, i + 1)
    }

    /// The base of the player's image, once there is nothing more to ask.
    pub fn base(&self) -> (base: Result<u64, Error>)
        ensures
            self@ matches Script::End(result) ==> base == result,
    {
        proof {
            use_type_invariant(self);
            self.lemma_asks(Reply::Done);
        }
        match &self.state {
            State::End(result) => *result,
            _ => Err(Error::ImageNotFound),
        }
    }
}

/// The load address and the path of entry `i`, in a world that does not change; nothing where
/// either address cannot be read.
pub open spec fn entry_in(world: spec_fn(Query) -> Reply, list: u64, i: nat) -> Option<
    (u64, Option<Seq<u8>>),
> {
    let item = region::offset(list, (i * ENTRY) as int);
    match (
        world(Query::Read { addr: item, len: 8 }).bytes(8),
        world(Query::Read { addr: region::offset(item, 8), len: 8 }).bytes(8),
    ) {
        (Ok(load), Ok(path)) => Some(
            (
                bytes::le_u64(load, 0),
                cstring::reading(bytes::le_u64(path, 0)).run(world),
            ),
        ),
        _ => None,
    }
}

/// What entry `i` decides: nothing where it is another image, else the end of the search.
pub open spec fn entry_decides(world: spec_fn(Query) -> Reply, list: u64) -> spec_fn(nat) -> Option<
    Option<u64>,
> {
    |i: nat|
        match entry_in(world, list, i) {
            Some((load, path)) => if player_path(path) {
                Some(Some(load))
            } else {
                None
            },
            None => Some(None),
        }
}

/// In a world that does not change, the search over the list gives the load address of the
/// first entry with the player's path, unless an entry before it cannot be read.
pub proof fn listed_gives_the_player(world: spec_fn(Query) -> Reply, list: u64, n: u32)
    ensures
        listed(list, n).run(world) == match script::first(
            n as nat,
            entry_decides(world, list),
            0,
        ) {
            Some(found) => found,
            None => None,
        },
{
    let visit = entry_visit(list);
    let found = entry_decides(world, list);
    let inv = |s: ()| true;
    assert forall|k: nat, s: ()|
        #![trigger visit(k, s)]
        k < n && inv(s) implies {
        let r = visit(k, s).run(world);
        r.1 == found(k) && (r.1 is None ==> inv(r.0))
    } by {
        let item = region::offset(list, (k * ENTRY) as int);
        reveal_with_fuel(Script::run, 3);
        if let Ok(load) = world(Query::Read { addr: item, len: 8 }).bytes(8) {
            let second = world(Query::Read { addr: region::offset(item, 8), len: 8 });
            if let Ok(path) = second.bytes(8) {
                let text = cstring::reading(bytes::le_u64(path, 0));
                script::lemma_run_chain(text, with_path(bytes::le_u64(load, 0)), world);
                assert(visit(k, s).run(world) == text.chain(
                    with_path(bytes::le_u64(load, 0)),
                ).run(world));
            }
        }
    }
    script::lemma_run_search(n as nat, visit, 0, (), world, inv, found);
    script::lemma_run_chain(script::search(n as nat, visit, 0, ()), outcome(), world);
}

/// Whatever the answers are, attaching fails with the kernel's code only where the kernel
/// refused, and else with nothing but the missing image.
pub proof fn attaching_fails_for_two_reasons(pid: i32, reply: Reply)
    ensures
        reply.status() != KERN_SUCCESS ==> attaching(pid).answered(reply) == Script::<
            Query,
            Reply,
            Result<u64, Error>,
        >::End(Err(Error::TaskForPid(reply.status()))),
        reply.status() == KERN_SUCCESS ==> script::always(
            attaching(pid).answered(reply),
            |r: Result<u64, Error>| r matches Err(e) ==> e == Error::ImageNotFound,
        ),
{
    let good = |r: Result<u64, Error>| r matches Err(e) ==> e == Error::ImageNotFound;
    if reply.status() == KERN_SUCCESS {
        script::lemma_always_after(looking(), attached(), good);
    }
}

/// Attaching writes nothing.
pub proof fn attaching_is_harmless(pid: i32)
    ensures
        script::only_asks(attaching(pid), memory::harmless()),
{
    let ok = memory::harmless();
    let p = attaching(pid);
    assert forall|a: Reply| script::only_asks(#[trigger] p.answered(a), ok) by {
        let f = attached();
        assert forall|base: Option<u64>| script::only_asks(#[trigger] f(base), ok) by {}
        lemma_looking_harmless();
        script::lemma_only_chain(looking(), f, ok);
    }
    script::lemma_only_ask(p, ok);
}

proof fn lemma_looking_harmless()
    ensures
        script::only_asks(looking(), memory::harmless()),
{
    let ok = memory::harmless();
    let p = looking();
    assert forall|a: Reply| script::only_asks(#[trigger] p.answered(a), ok) by {
        if let Some(info) = a.address() {
            let q = count_read(info);
            assert forall|b: Reply| script::only_asks(#[trigger] q.answered(b), ok) by {
                if let Ok(count) = b.bytes(4) {
                    let r = list_read(info, bytes::le_u32(count, 0));
                    assert forall|c: Reply| script::only_asks(#[trigger] r.answered(c), ok) by {
                        if let Ok(data) = c.bytes(8) {
                            lemma_listed_harmless(
                                bytes::le_u64(data, 0),
                                bytes::le_u32(count, 0),
                            );
                        }
                    }
                    script::lemma_only_ask(r, ok);
                }
            }
            script::lemma_only_ask(q, ok);
        }
    }
    script::lemma_only_ask(p, ok);
}

proof fn lemma_listed_harmless(list: u64, n: u32)
    ensures
        script::only_asks(listed(list, n), memory::harmless()),
{
    let ok = memory::harmless();
    let visit = entry_visit(list);
    assert forall|i: nat, s: ()| i < n implies script::only_asks(#[trigger] visit(i, s), ok) by {
        let p = visit(i, s);
        assert forall|a: Reply| script::only_asks(#[trigger] p.answered(a), ok) by {
            if let Ok(data) = a.bytes(8) {
                lemma_path_harmless(
                    region::offset(list, (i * ENTRY) as int),
                    bytes::le_u64(data, 0),
                );
            }
        }
        script::lemma_only_ask(p, ok);
    }
    script::lemma_only_search(n as nat, visit, 0, (), ok);
    let f = outcome();
    assert forall|r: ((), Option<Option<u64>>)| script::only_asks(#[trigger] f(r), ok) by {}
    script::lemma_only_chain(script::search(n as nat, visit, 0, ()), f, ok);
}

proof fn lemma_path_harmless(item: u64, load: u64)
    ensures
        script::only_asks(path_read(item, load), memory::harmless()),
{
    let ok = memory::harmless();
    let p = path_read(item, load);
    assert forall|a: Reply| script::only_asks(#[trigger] p.answered(a), ok) by {
        if let Ok(data) = a.bytes(8) {
            let addr = bytes::le_u64(data, 0);
            let f = with_path(load);
            assert forall|path: Option<Seq<u8>>| script::only_asks(#[trigger] f(path), ok) by {}
            cstring::reading_is_harmless(addr);
            script::lemma_only_chain(cstring::reading(addr), f, ok);
        }
    }
    script::lemma_only_ask(p, ok);
}

/// The word of eight bytes at an address, in a world that does not change.
pub open spec fn word_at(world: spec_fn(Query) -> Reply, addr: u64) -> Option<u64> {
    match world(Query::Read { addr, len: 8 }) {
        Reply::Bytes { status, data } => if status == 0 && data.len() == 8 {
            Some(bytes::le_u64(data, 0))
        } else {
            None
        },
        _ => None,
    }
}

/// The word of four bytes at an address, in a world that does not change.
pub open spec fn half_at(world: spec_fn(Query) -> Reply, addr: u64) -> Option<u32> {
    match world(Query::Read { addr, len: 4 }) {
        Reply::Bytes { status, data } => if status == 0 && data.len() == 4 {
            Some(bytes::le_u32(data, 0))
        } else {
            None
        },
        _ => None,
    }
}

/// The text at an address ends with the player's name below its folder.
pub open spec fn names_the_player(world: spec_fn(Query) -> Reply, path: u64) -> bool {
    exists|a: Seq<u8>|
        cstring::reading(path).run(world) == Some(
            #[trigger] (a + "MacOS/RobloxPlayer".spec_bytes()),
        )
}

/// Entry `i` of the list at `list`, 24 bytes each, is the player's, loaded at `load`.
pub open spec fn is_player(
    world: spec_fn(Query) -> Reply,
    list: u64,
    i: int,
    load: u64,
) -> bool {
    &&& word_at(world, region::offset(list, 24 * i)) == Some(load)
    &&& word_at(world, region::offset(list, 24 * i + 8)) matches Some(path)
    &&& names_the_player(world, path)
}

/// Entry `i` of the list at `list` is that of another image.
pub open spec fn is_other(world: spec_fn(Query) -> Reply, list: u64, i: int) -> bool {
    &&& word_at(world, region::offset(list, 24 * i)) is Some
    &&& word_at(world, region::offset(list, 24 * i + 8)) matches Some(path)
    &&& !names_the_player(world, path)
}

/// Entry `k` of the `n` at `list` is the player's, and those before it are others.
pub open spec fn first_player(
    world: spec_fn(Query) -> Reply,
    list: u64,
    n: u32,
    k: int,
    load: u64,
) -> bool {
    &&& 0 <= k < n
    &&& is_player(world, list, k, load)
    &&& forall|i: int| 0 <= i < k ==> #[trigger] is_other(world, list, i)
}

proof fn lemma_player_path(world: spec_fn(Query) -> Reply, path: u64)
    ensures
        player_path(cstring::reading(path).run(world)) == names_the_player(world, path),
{
    let name = "MacOS/RobloxPlayer".spec_bytes();
    if let Some(s) = cstring::reading(path).run(world) {
        bytes::what_finishes_stands_last(s, name);
        if bytes::finishes_with(s, name) {
            let a = choose|a: Seq<u8>| s == #[trigger] (a + name);
            assert(cstring::reading(path).run(world) == Some(a + name));
        }
        if names_the_player(world, path) {
            let a = choose|a: Seq<u8>|
                cstring::reading(path).run(world) == Some(#[trigger] (a + name));
            assert(s == a + name);
        }
    }
}

proof fn lemma_entry_decides(world: spec_fn(Query) -> Reply, list: u64, i: nat)
    ensures
        match entry_decides(world, list)(i) {
            Some(Some(load)) => is_player(world, list, i as int, load),
            Some(None) => word_at(world, region::offset(list, 24 * i as int)) is None || word_at(
                world,
                region::offset(list, 24 * i as int + 8),
            ) is None,
            None => is_other(world, list, i as int),
        },
{
    let item = region::offset(list, (i * ENTRY) as int);
    assert(item == region::offset(list, 24 * i as int));
    assert(region::offset(item, 8) == region::offset(list, 24 * i as int + 8));
    if let Some((load, text)) = entry_in(world, list, i) {
        let path = word_at(world, region::offset(list, 24 * i as int + 8))->0;
        lemma_player_path(world, path);
    }
}

/// In a world that does not change, going through a list gives the load address of its first
/// entry that is the player's, where all entries before it are others; else nothing.
pub proof fn lists_give_their_first_player(
    world: spec_fn(Query) -> Reply,
    list: u64,
    n: u32,
    load: u64,
)
    ensures
        listed(list, n).run(world) == Some(load) <==> exists|k: int| #[trigger]
            first_player(world, list, n, k, load),
{
    let found = entry_decides(world, list);
    listed_gives_the_player(world, list, n);
    script::lemma_first(n as nat, found, 0);
    assert forall|i: nat| i < n implies match #[trigger] found(i) {
        Some(Some(l)) => is_player(world, list, i as int, l),
        Some(None) => !is_other(world, list, i as int),
        None => is_other(world, list, i as int),
    } by {
        lemma_entry_decides(world, list, i);
    }
    if listed(list, n).run(world) == Some(load) {
        let k = choose|k: nat|
            #![trigger found(k)]
            0 <= k < n && found(k) == Some(Some(load)) && forall|j: nat|
                0 <= j < k ==> #[trigger] found(j) is None;
        assert(is_player(world, list, k as int, load));
        assert forall|i: int| 0 <= i < k implies #[trigger] is_other(world, list, i) by {
            assert(found(i as nat) is None);
        }
        assert(first_player(world, list, n, k as int, load));
    }
    if exists|k: int| #[trigger] first_player(world, list, n, k, load) {
        let k = choose|k: int| #[trigger] first_player(world, list, n, k, load);
        assert forall|j: nat| j < k implies #[trigger] found(j) is None by {
            assert(is_other(world, list, j as int));
            lemma_entry_decides(world, list, j);
        }
        lemma_entry_decides(world, list, k as nat);
        assert(found(k as nat) == Some(Some(load)));
        lemma_first_is(n as nat, found, k as nat);
    }
}

/// A finding with none before it is the first.
proof fn lemma_first_is(n: nat, found: spec_fn(nat) -> Option<Option<u64>>, k: nat)
    requires
        k < n,
        found(k) is Some,
        forall|j: nat| j < k ==> #[trigger] found(j) is None,
    ensures
        script::first(n, found, 0) == found(k),
{
    script::lemma_first(n, found, 0);
    match script::first(n, found, 0) {
        Some(t) => {
            let m = choose|m: nat|
                #![trigger found(m)]
                0 <= m < n && found(m) == Some(t) && forall|j: nat|
                    0 <= j < m ==> #[trigger] found(j) is None;
            if k < m {
                assert(found(k) is None);
            }
            if m < k {
                assert(found(m) is None);
            }
        },
        None => {
            assert(found(k) is None);
        },
    }
}

/// In a world that does not change, attaching to a process gives the load address of the first
/// of the images that the process itself reports, in the list whose length stands four bytes
/// into its information and whose address eight bytes into it, that is the player's. It fails
/// with the kernel's code where the kernel refuses, and else because the image is missing.
pub proof fn attaching_gives_the_reported_player(
    world: spec_fn(Query) -> Reply,
    pid: i32,
    info: u64,
    n: u32,
    list: u64,
    load: u64,
    code: i32,
)
    ensures
        world(Query::Attach { pid }) == Reply::Status(0) && world(Query::DyldInfo)
            == (Reply::Address { status: 0, addr: info }) && half_at(
            world,
            region::offset(info, 4),
        ) == Some(n) && word_at(world, region::offset(info, 8)) == Some(list) ==> {
            attaching(pid).run(world) == Ok::<u64, Error>(load) <==> exists|k: int| #[trigger]
                first_player(world, list, n, k, load)
        },
        world(Query::Attach { pid }) == Reply::Status(code) && code != 0 ==> attaching(pid).run(
            world,
        ) == Err::<u64, Error>(Error::TaskForPid(code)),
        world(Query::Attach { pid }) == Reply::Status(0) && attaching(pid).run(world) is Err
            ==> attaching(pid).run(world) == Err::<u64, Error>(Error::ImageNotFound),
        attaching(pid).run(world) is Ok ==> world(Query::Attach { pid }) == Reply::Status(0) && (
        world(Query::DyldInfo) matches Reply::Address { status, addr } && status == 0 && half_at(
            world,
            region::offset(addr, 4),
        ) is Some && word_at(world, region::offset(addr, 8)) is Some),
{
    reveal_with_fuel(Script::run, 2);
    script::lemma_run_chain(looking(), attached(), world);
    if world(Query::Attach { pid }) == Reply::Status(0) {
        assert(attaching(pid).run(world) == looking().chain(attached()).run(world));
    }
    if let Some(at) = world(Query::DyldInfo).address() {
        assert(looking().run(world) == count_read(at).run(world));
        let reply = world(Query::Read { addr: region::offset(at, 4), len: 4 });
        if let Ok(count) = reply.bytes(4) {
            let m = bytes::le_u32(count, 0);
            assert(count_read(at).run(world) == list_read(at, m).run(world));
            let second = world(Query::Read { addr: region::offset(at, 8), len: 8 });
            if let Ok(data) = second.bytes(8) {
                assert(list_read(at, m).run(world) == listed(bytes::le_u64(data, 0), m).run(
                    world,
                ));
            }
        }
    }
    lists_give_their_first_player(world, list, n, load);
}

} // verus!
