//! Looking for the display sync flag of a Metal layer in the process.
use vstd::prelude::*;

use crate::bytes;
use crate::error::Error;
use crate::memory;
use crate::memory::{Answer, Query, Reply, Search};
use crate::metal::Metal;
use crate::region;
use crate::region::Region;
use crate::scan;
use crate::scan::{Cursor, Stop};
use crate::script;
use crate::script::Script;

verus! {

/// Regions of this size and above are not searched.
pub const REGION_LIMIT: u64 = 200_000_000;

/// The regions that layers are looked for in: those that can be read and written and are not
/// too large.
pub open spec fn layer_regions(heap: Seq<Region>) -> Seq<Region> {
    heap.filter(|r: Region| region::read_write(r.prot) && r.size < REGION_LIMIT)
}

/// `byte` is like the flag byte of the layer that was tried out, but for the sync bit.
pub open spec fn like_base(metal: Metal, byte: u8) -> bool {
    byte & !metal.bit == metal.base & !metal.bit
}

/// `word` is the first word of a Metal layer.
pub open spec fn names_class(metal: Metal, word: u64) -> bool {
    word & metal.mask == metal.class & metal.mask
}

/// Looks at the byte at `sync`.
pub open spec fn flag_visit(metal: Metal, sync: u64) -> Search<((), Option<u64>)> {
    Script::Ask(
        Query::Read { addr: sync, len: 1 },
        |reply: Reply|
            Script::End(
                (
                    (),
                    match reply.bytes(1) {
                        Ok(data) => if like_base(metal, data[0]) {
                            Some(sync)
                        } else {
                            None
                        },
                        Err(_) => None,
                    },
                ),
            ),
    )
}

/// Follows the field of the layer that leads to the flag.
pub open spec fn field_visit(metal: Metal, heap: Seq<Region>, layer: u64) -> Search<
    ((), Option<u64>),
> {
    Script::Ask(
        Query::Read { addr: region::offset(layer, metal.field as int), len: 8 },
        |reply: Reply|
            match reply.bytes(8) {
                Ok(data) => {
                    let ptr = bytes::le_u64(data, 0);
                    if region::held(heap, ptr, (metal.inner + 1) as u64) {
                        flag_visit(metal, region::offset(ptr, metal.inner as int))
                    } else {
                        Script::End(((), None))
                    }
                },
                Err(_) => Script::End(((), None)),
            },
    )
}

/// Looks at the word at `addr`, and at the object there if it is a Metal layer.
pub open spec fn word_visit(metal: Metal, heap: Seq<Region>) -> spec_fn(u64, u64, ()) -> Search<
    ((), Option<u64>),
> {
    |addr: u64, word: u64, s: ()|
        if names_class(metal, word) {
            field_visit(metal, heap, addr)
        } else {
            Script::End(((), None))
        }
}

/// What the search comes to.
pub open spec fn outcome() -> spec_fn(((), Option<u64>)) -> Search<Result<u64, Error>> {
    |r: ((), Option<u64>)|
        Script::End(
            match r.1 {
                Some(sync) => Ok(sync),
                None => Err(Error::LayerNotFound),
            },
        )
}

/// Looks for the address of the display sync flag.
pub open spec fn looking(metal: Metal, heap: Seq<Region>) -> Search<Result<u64, Error>> {
    scan::scanning(layer_regions(heap), word_visit(metal, heap), ()).chain(outcome())
}

/// The regions that layers are looked for in.
fn find_layer_regions(heap: &[Region]) -> (found: Vec<Region>)
    ensures
        found@ == layer_regions(heap@),
{
    let mut found: Vec<Region> = Vec::new();
    let ghost fit = |r: Region| region::read_write(r.prot) && r.size < REGION_LIMIT;
    let mut i: usize = 0;
    assert(heap@.take(0).filter(fit) =~= Seq::empty()) by {
        reveal(Seq::filter);
    }
    while i < heap.len()
        invariant
            i <= heap@.len(),
            fit == (|r: Region| region::read_write(r.prot) && r.size < REGION_LIMIT),
            found@ == heap@.take(i as int).filter(fit),
        decreases heap@.len() - i,
    {
        let region = heap[i];
        proof {
            reveal(Seq::filter);
            assert(heap@.take(i + 1).drop_last() =~= heap@.take(i as int));
            assert(heap@.take(i + 1).last() == region);
        }
        if region.prot & 3 == 3 && region.size < REGION_LIMIT {
            found.push(region);
        }
        i += 1;
    }
    assert(heap@.take(i as int) =~= heap@);
    found
}

enum State {
    /// Going through the regions.
    Scan,
    /// Reading the field of the layer at hand.
    Field { layer: u64 },
    /// Reading the flag that it leads to.
    Flag { sync: u64 },
    End(Result<u64, Error>),
}

/// A search for the display sync flag that is under way.
pub struct LayerSearch {
    metal: Metal,
    heap: Vec<Region>,
    cursor: Cursor,
    state: State,
}

impl View for LayerSearch {
    type V = Search<Result<u64, Error>>;

    closed spec fn view(&self) -> Search<Result<u64, Error>> {
        let visit = word_visit(self.metal, self.heap@);
        match self.state {
            State::End(result) => Script::End(result),
            State::Scan => self.cursor.rest(visit, ()).chain(outcome()),
            _ => self.cursor.pending(visit, self.visit()).chain(outcome()),
        }
    }
}

impl LayerSearch {
    /// The visit to the word at hand.
    spec fn visit(&self) -> Search<((), Option<u64>)> {
        match self.state {
            State::Field { layer } => field_visit(self.metal, self.heap@, layer),
            State::Flag { sync } => flag_visit(self.metal, sync),
            _ => Script::End(((), None)),
        }
    }

    #[verifier::type_invariant]
    spec fn inv(&self) -> bool {
        &&& self.metal.inner < u64::MAX
        &&& match self.state {
            State::Scan => self.cursor.stop() is Chunk,
            State::End(_) => true,
            _ => self.cursor.stop() is Word,
        }
    }

    /// Looks for the display sync flag of a process with these regions.
    pub fn sync(metal: Metal, heap: Vec<Region>) -> (search: LayerSearch)
        requires
            metal.inner < u64::MAX,
        ensures
            search@ == looking(metal, heap@),
    {
        let regions = find_layer_regions(&heap);
        let cursor = Cursor::new::<(), u64>(regions);
        LayerSearch::go_on(metal, heap, cursor)
    }

    fn go_on(metal: Metal, heap: Vec<Region>, from: Cursor) -> (search: LayerSearch)
        requires
            metal.inner < u64::MAX,
        ensures
            search@ == from.rest(word_visit(metal, heap@), ()).chain(outcome()),
    {
        let ghost visit = word_visit(metal, heap@);
        let mut cursor = from;
        loop
            invariant
                metal.inner < u64::MAX,
                visit == word_visit(metal, heap@),
                cursor.rest(visit, ()) == from.rest(visit, ()),
            decreases cursor.left(),
        {
            proof {
                cursor.lemma_at_word(visit, ());
            }
            match cursor.at() {
                Stop::Word { addr, word } => {
                    if word & metal.mask == metal.class & metal.mask {
                        return LayerSearch {
                            metal,
                            heap,
                            cursor,
                            state: State::Field { layer: addr },
                        };
                    }
                    cursor = cursor.pass::<(), u64>();
                },
                Stop::Chunk { .. } => {
                    return LayerSearch { metal, heap, cursor, state: State::Scan };
                },
                Stop::End => {
                    return LayerSearch {
                        metal,
                        heap,
                        cursor,
                        state: State::End(Err(Error::LayerNotFound)),
                    };
                },
            }
        }
    }

    /// The question that the search stands at, and what an answer to it comes to.
    proof fn lemma_asks(&self, a: Reply)
        requires
            self.inv(),
        ensures
            match self.state {
                State::Scan => {
                    let rest = self.cursor.rest(word_visit(self.metal, self.heap@), ());
                    &&& self@.question() == rest.question()
                    &&& self@.answered(a) == rest.answered(a).chain(outcome())
                },
                State::End(_) => true,
                _ => {
                    &&& self.visit() is Ask
                    &&& self@.question() == self.visit().question()
                    &&& self@.answered(a) == self.cursor.pending(
                        word_visit(self.metal, self.heap@),
                        self.visit().answered(a),
                    ).chain(outcome())
                },
            },
    {
        let visit = word_visit(self.metal, self.heap@);
        match self.state {
            State::Scan => {
                self.cursor.lemma_at_word(visit, ());
                script::lemma_chain_ask(self.cursor.rest(visit, ()), outcome(), a);
            },
            State::End(_) => {},
            _ => {
                self.cursor.lemma_pending(visit, self.visit(), a);
                script::lemma_chain_ask(self.cursor.pending(visit, self.visit()), outcome(), a);
            },
        }
    }

    /// What to ask next; nothing once the search is over.
    pub fn query(&self) -> (query: Option<Query>)
        ensures
            query == self@.question(),
    {
        proof {
            use_type_invariant(self);
            self.lemma_asks(Reply::Done);
            self.cursor.lemma_at_word(word_visit(self.metal, self.heap@), ());
        }
        match &self.state {
            State::Scan => match self.cursor.at() {
                Stop::Chunk { addr, len } => Some(Query::Read { addr, len }),
                _ => None,
            },
            State::Field { layer } => Some(
                Query::Read { addr: region::address(*layer, self.metal.field), len: 8 },
            ),
            State::Flag { sync } => Some(Query::Read { addr: *sync, len: 1 }),
            State::End(_) => None,
        }
    }

    /// Takes the answer to what `query` asks.
    pub fn answer(self, answer: Answer) -> (search: LayerSearch)
        ensures
            search@ == self@.answered(answer@),
    {
        proof {
            use_type_invariant(&self);
            self.lemma_asks(answer@);
        }
        let metal = self.metal;
        let heap = self.heap;
        let cursor = self.cursor;
        match self.state {
            State::Scan => {
                let cursor = cursor.load::<(), u64>(answer);
                LayerSearch::go_on(metal, heap, cursor)
            },
            State::Field { layer: _ } => {
                if let Ok(data) = answer.bytes(8) {
                    let ptr: u64 = bytes::read_u64(&data, 0);
                    if region::inside(&heap, ptr, metal.inner + 1) {
                        let sync: u64 = region::address(ptr, metal.inner);
                        return LayerSearch { metal, heap, cursor, state: State::Flag { sync } };
                    }
                }
                LayerSearch::passed(metal, heap, cursor)
            },
            State::Flag { sync } => {
                if let Ok(data) = answer.bytes(1) {
                    if data[0] & !metal.bit == metal.base & !metal.bit {
                        proof {
                            cursor.lemma_pending(
                                word_visit(metal, heap@),
                                Script::End(((), Some(sync))),
                                Reply::Done,
                            );
                        }
                        return LayerSearch { metal, heap, cursor, state: State::End(Ok(sync)) };
                    }
                }
                LayerSearch::passed(metal, heap, cursor)
            },
            State::End(result) => LayerSearch { metal, heap, cursor, state: State::End(result) },
        }
    }

    fn passed(metal: Metal, heap: Vec<Region>, cursor: Cursor) -> (search: LayerSearch)
        requires
            metal.inner < u64::MAX,
            cursor.stop() is Word,
        ensures
            search@ == cursor.pending(word_visit(metal, heap@), Script::End(((), None))).chain(
                outcome(),
            ),
    {
        let cursor = cursor.pass::<(), u64>();
        LayerSearch::go_on(metal, heap, cursor)
    }

    /// The address of the flag, once there is nothing more to ask.
    pub fn found(&self) -> (found: Result<u64, Error>)
        ensures
            self@ matches Script::End(result) ==> found == result,
    {
        proof {
            use_type_invariant(self);
            self.lemma_asks(Reply::Done);
            self.cursor.lemma_at_word(word_visit(self.metal, self.heap@), ());
        }
        match &self.state {
            State::End(result) => *result,
            _ => Err(Error::LayerNotFound),
        }
    }
}

/// The flag of the layer at `addr`, in a world that does not change: the object's first word
/// names the class, the field leads to bytes of the process, and the byte there looks like the
/// flag of the layer that was tried out.
pub open spec fn flag_in(
    world: spec_fn(Query) -> Reply,
    metal: Metal,
    heap: Seq<Region>,
    addr: u64,
    word: u64,
) -> Option<u64> {
    let field = world(Query::Read { addr: region::offset(addr, metal.field as int), len: 8 });
    if names_class(metal, word) && field.bytes(8) is Ok {
        let ptr = bytes::le_u64(field.bytes(8)->Ok_0, 0);
        let sync = region::offset(ptr, metal.inner as int);
        let flag = world(Query::Read { addr: sync, len: 1 });
        if region::held(heap, ptr, (metal.inner + 1) as u64) && flag.bytes(1) is Ok && like_base(
            metal,
            flag.bytes(1)->Ok_0[0],
        ) {
            Some(sync)
        } else {
            None
        }
    } else {
        None
    }
}

/// In a world that does not change, the search gives the flag of the first layer.
pub proof fn looking_gives_the_first_layer(
    world: spec_fn(Query) -> Reply,
    metal: Metal,
    heap: Seq<Region>,
)
    ensures
        looking(metal, heap).run(world) == match scan::first_of(
            scan::words_in(world, layer_regions(heap), 0),
            |addr: u64, word: u64| flag_in(world, metal, heap, addr, word),
        ) {
            Some(sync) => Ok::<u64, Error>(sync),
            None => Err(Error::LayerNotFound),
        },
{
    let visit = word_visit(metal, heap);
    let found = |addr: u64, word: u64| flag_in(world, metal, heap, addr, word);
    let inv = |s: ()| true;
    assert forall|addr: u64, word: u64, s: ()|
        #![trigger visit(addr, word, s)]
        inv(s) implies {
        let r = visit(addr, word, s).run(world);
        r.1 == found(addr, word) && (r.1 is None ==> inv(r.0))
    } by {
        reveal_with_fuel(Script::run, 3);
    }
    scan::scanning_gives_the_first(world, layer_regions(heap), visit, (), inv, found);
    script::lemma_run_chain(scan::scanning(layer_regions(heap), visit, ()), outcome(), world);
}

/// The flag stands `inner` bytes into something that lies in the regions of the process.
pub open spec fn in_layer_data(metal: Metal, heap: Seq<Region>) -> spec_fn(
    Result<u64, Error>,
) -> bool {
    |r: Result<u64, Error>|
        match r {
            Ok(sync) => exists|ptr: u64|
                region::held(heap, ptr, (metal.inner + 1) as u64) && sync
                    == #[trigger] region::offset(ptr, metal.inner as int),
            Err(e) => e == Error::LayerNotFound,
        }
}

/// Whatever the answers are, the search gives an address in data of the process, or the error
/// that there is none.
pub proof fn flags_lie_in_the_heap(metal: Metal, heap: Seq<Region>)
    ensures
        script::always(looking(metal, heap), in_layer_data(metal, heap)),
{
    let visit = word_visit(metal, heap);
    let good = |r: ((), Option<u64>)|
        r.1 matches Some(sync) ==> in_layer_data(metal, heap)(Ok(sync));
    assert forall|addr: u64, word: u64, s: ()| script::always(
        #[trigger] visit(addr, word, s),
        good,
    ) by {
        if names_class(metal, word) {
            let p = field_visit(metal, heap, addr);
            assert forall|a: Reply| script::always(#[trigger] p.answered(a), good) by {
                if let Ok(data) = a.bytes(8) {
                    let ptr = bytes::le_u64(data, 0);
                    let sync = region::offset(ptr, metal.inner as int);
                    if region::held(heap, ptr, (metal.inner + 1) as u64) {
                        let q = flag_visit(metal, sync);
                        assert(in_layer_data(metal, heap)(Ok(sync)));
                        assert forall|b: Reply| script::always(#[trigger] q.answered(b), good) by {}
                        script::lemma_always_ask(q, good);
                    }
                }
            }
            script::lemma_always_ask(p, good);
        }
    }
    let all = scan::scanning(layer_regions(heap), visit, ());
    scan::scanning_finds_good(layer_regions(heap), visit, (), good);
    script::lemma_always_chain(all, outcome(), good, in_layer_data(metal, heap));
}

/// A flag in data that does not reach beyond the last address can itself be read.
pub proof fn flags_can_be_read(heap: Seq<Region>, ptr: u64, inner: u64)
    requires
        ptr + inner < u64::MAX,
        region::held(heap, ptr, (inner + 1) as u64),
    ensures
        region::held(heap, region::offset(ptr, inner as int), 1),
{
    let i = choose|i: int|
        0 <= i < heap.len() && (#[trigger] heap[i]).holds(ptr, (inner + 1) as u64);
    assert(heap[i].holds(region::offset(ptr, inner as int), 1));
}

/// Looking for the display sync flag writes nothing.
pub proof fn looking_is_harmless(metal: Metal, heap: Seq<Region>)
    ensures
        script::only_asks(looking(metal, heap), memory::harmless()),
{
    let ok = memory::harmless();
    let visit = word_visit(metal, heap);
    assert forall|addr: u64, word: u64, s: ()| script::only_asks(
        #[trigger] visit(addr, word, s),
        ok,
    ) by {
        if names_class(metal, word) {
            let p = field_visit(metal, heap, addr);
            assert forall|a: Reply| script::only_asks(#[trigger] p.answered(a), ok) by {
                if let Ok(data) = a.bytes(8) {
                    let ptr = bytes::le_u64(data, 0);
                    let q = flag_visit(metal, region::offset(ptr, metal.inner as int));
                    assert forall|b: Reply| script::only_asks(#[trigger] q.answered(b), ok) by {}
                    script::lemma_only_ask(q, ok);
                }
            }
            script::lemma_only_ask(p, ok);
        }
    }
    let all = scan::scanning(layer_regions(heap), visit, ());
    scan::scanning_is_harmless(layer_regions(heap), visit, ());
    let f = outcome();
    assert forall|r: ((), Option<u64>)| script::only_asks(#[trigger] f(r), ok) by {}
    script::lemma_only_chain(all, f, ok);
}

/// A word names the class of a layer exactly where it has the bits of the class that the mask
/// picks, whatever its other bits are.
pub proof fn classes_are_told_under_the_mask(metal: Metal, word: u64, noise: u64)
    ensures
        names_class(metal, word) <==> (word ^ metal.class) & metal.mask == 0,
        names_class(metal, metal.class),
        names_class(metal, metal.class ^ (noise & !metal.mask)),
{
    let Metal { class, mask, field, inner, bit, base, off } = metal;
    assert((word & mask == class & mask) == ((word ^ class) & mask == 0)) by (bit_vector);
    assert((class ^ (noise & !mask)) & mask == class & mask) by (bit_vector);
}

/// A byte is like the flag byte that was tried out exactly where it differs from it in the sync
/// bit at most. So that byte is like itself with display sync on and with it off.
pub proof fn flag_bytes_differ_in_the_sync_bit(metal: Metal, byte: u8)
    ensures
        like_base(metal, byte) <==> (byte ^ metal.base) & !metal.bit == 0,
        like_base(metal, metal.base),
        metal.bit == metal.base ^ metal.off ==> like_base(metal, metal.off),
{
    let Metal { class, mask, field, inner, bit, base, off } = metal;
    assert((byte & !bit == base & !bit) == ((byte ^ base) & !bit == 0)) by (bit_vector);
    assert(bit == base ^ off ==> off & !bit == base & !bit) by (bit_vector);
}

/// The flag of a layer is at `sync`: word `i` of region `k`, which can be read and written and has
/// less than 200 million bytes, names the class; the field of the layer there leads to bytes of
/// the process; and the byte there differs from the one that was tried out in the sync bit at
/// most.
pub open spec fn layer_at(
    world: spec_fn(Query) -> Reply,
    metal: Metal,
    heap: Seq<Region>,
    k: int,
    i: int,
    sync: u64,
) -> bool {
    let layer = region::offset(heap[k].start, 8 * i);
    let field = world(Query::Read { addr: region::offset(layer, metal.field as int), len: 8 });
    let flag = world(Query::Read { addr: sync, len: 1 });
    &&& 0 <= k < heap.len()
    &&& heap[k].prot % 4 == 3
    &&& heap[k].size < 200_000_000
    &&& scan::word_at(world, heap[k], i) matches Some(word)
    &&& (word ^ metal.class) & metal.mask == 0
    &&& field.bytes(8) matches Ok(data)
    &&& region::held(heap, bytes::le_u64(data, 0), (metal.inner + 1) as u64)
    &&& sync == region::offset(bytes::le_u64(data, 0), metal.inner as int)
    &&& flag.bytes(1) matches Ok(byte)
    &&& (byte[0] ^ metal.base) & !metal.bit == 0
}

/// No layer has its flag anywhere, as far as word `i` of region `k` tells.
pub open spec fn no_layer_at(
    world: spec_fn(Query) -> Reply,
    metal: Metal,
    heap: Seq<Region>,
    k: int,
    i: int,
) -> bool {
    forall|sync: u64| !#[trigger] layer_at(world, metal, heap, k, i, sync)
}

/// The first layer in the order of the regions and of their words has its flag at `sync`.
pub open spec fn first_layer_at(
    world: spec_fn(Query) -> Reply,
    metal: Metal,
    heap: Seq<Region>,
    k: int,
    i: int,
    sync: u64,
) -> bool {
    &&& layer_at(world, metal, heap, k, i, sync)
    &&& forall|k2: int, i2: int|
        scan::earlier(k2, i2, k, i) ==> #[trigger] no_layer_at(world, metal, heap, k2, i2)
}

proof fn lemma_layer_at(
    world: spec_fn(Query) -> Reply,
    metal: Metal,
    heap: Seq<Region>,
    k: int,
    i: int,
)
    ensures
        ({
            let found = scan::found_in(
                world,
                heap,
                |r: Region| region::read_write(r.prot) && r.size < REGION_LIMIT,
                |addr: u64, word: u64| flag_in(world, metal, heap, addr, word),
                k,
                i,
            );
            &&& forall|sync: u64|
                #[trigger] layer_at(world, metal, heap, k, i, sync) == (found == Some(sync))
            &&& no_layer_at(world, metal, heap, k, i) == (found is None)
        }),
{
    let found = scan::found_in(
        world,
        heap,
        |r: Region| region::read_write(r.prot) && r.size < REGION_LIMIT,
        |addr: u64, word: u64| flag_in(world, metal, heap, addr, word),
        k,
        i,
    );
    assert forall|sync: u64| #[trigger] layer_at(world, metal, heap, k, i, sync) == (found == Some(
        sync,
    )) by {
        if 0 <= k < heap.len() {
            region::protection_is_bit_by_bit(heap[k].prot);
            if let Some(word) = scan::word_at(world, heap[k], i) {
                classes_are_told_under_the_mask(metal, word, 0);
                let flag = world(Query::Read { addr: sync, len: 1 });
                if let Ok(data) = flag.bytes(1) {
                    flag_bytes_differ_in_the_sync_bit(metal, data[0]);
                }
            }
        }
    }
    if found is Some {
        assert(layer_at(world, metal, heap, k, i, found->0));
    }
}

/// In a world that does not change, the search gives the flag of the first layer, in the order of
/// the regions and of their words, and the error that there is none exactly where there is none.
pub proof fn the_first_layer_is_found(
    world: spec_fn(Query) -> Reply,
    metal: Metal,
    heap: Seq<Region>,
)
    ensures
        match looking(metal, heap).run(world) {
            Ok(sync) => exists|k: int, i: int| #[trigger]
                first_layer_at(world, metal, heap, k, i, sync),
            Err(e) => e == Error::LayerNotFound && forall|k: int, i: int| #[trigger]
                no_layer_at(world, metal, heap, k, i),
        },
{
    let wanted = |r: Region| region::read_write(r.prot) && r.size < REGION_LIMIT;
    let found = |addr: u64, word: u64| flag_in(world, metal, heap, addr, word);
    looking_gives_the_first_layer(world, metal, heap);
    scan::what_is_found_first_comes_first(world, heap, wanted, found);
    match looking(metal, heap).run(world) {
        Ok(sync) => {
            let (k, i) = choose|k: int, i: int| #[trigger]
                scan::found_in(world, heap, wanted, found, k, i) == Some(sync) && forall|
                    k2: int,
                    i2: int,
                |
                    scan::earlier(k2, i2, k, i) ==> #[trigger] scan::found_in(
                        world,
                        heap,
                        wanted,
                        found,
                        k2,
                        i2,
                    ) is None;
            lemma_layer_at(world, metal, heap, k, i);
            assert forall|k2: int, i2: int| scan::earlier(k2, i2, k, i) implies #[trigger]
                no_layer_at(world, metal, heap, k2, i2) by {
                lemma_layer_at(world, metal, heap, k2, i2);
                assert(scan::found_in(world, heap, wanted, found, k2, i2) is None);
            }
            assert(first_layer_at(world, metal, heap, k, i, sync));
        },
        Err(e) => {
            assert forall|k: int, i: int| #[trigger] no_layer_at(world, metal, heap, k, i) by {
                lemma_layer_at(world, metal, heap, k, i);
                assert(scan::found_in(world, heap, wanted, found, k, i) is None);
            }
        },
    }
}

} // verus!
