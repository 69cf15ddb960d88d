//! Going through the aligned words of regions, chunk by chunk.
use vstd::prelude::*;

use crate::bytes;
use crate::memory;
use crate::memory::{Answer, Query, Reply, Search};
use crate::region;
use crate::region::Region;
use crate::script;
use crate::script::Script;

verus! {

/// How many bytes are read at a time.
pub const CHUNK: u64 = 0x10_0000;

/// How many chunks a region of `size` bytes has.
pub open spec fn chunk_count(size: u64) -> nat {
    ((size + CHUNK - 1) / CHUNK as int) as nat
}

/// How many bytes chunk `j` of a region of `size` bytes has.
pub open spec fn chunk_len(size: u64, j: nat) -> u64 {
    if size - j * CHUNK < CHUNK {
        (size - j * CHUNK) as u64
    } else {
        CHUNK
    }
}

/// Where chunk `j` of a region begins.
pub open spec fn chunk_start(region: Region, j: nat) -> u64 {
    region::offset(region.start, j * CHUNK)
}

/// Visits word `i` of the bytes that were read at `at`.
pub open spec fn word_visit<S, T>(
    visit: spec_fn(u64, u64, S) -> Search<(S, Option<T>)>,
    at: u64,
    data: Seq<u8>,
) -> spec_fn(nat, S) -> Search<(S, Option<T>)> {
    |i: nat, s: S| visit(region::offset(at, 8 * i as int), bytes::le_u64(data, 8 * i as int), s)
}

/// Reads chunk `j` of a region and visits its words. A chunk that cannot be read is left out.
pub open spec fn chunk_visit<S, T>(
    visit: spec_fn(u64, u64, S) -> Search<(S, Option<T>)>,
    region: Region,
) -> spec_fn(nat, S) -> Search<(S, Option<T>)> {
    |j: nat, s: S|
        {
            let at = chunk_start(region, j);
            let len = chunk_len(region.size, j);
            Script::Ask(
                Query::Read { addr: at, len },
                |reply: Reply|
                    match reply.bytes(len) {
                        Ok(data) => script::search(
                            data.len() / 8,
                            word_visit(visit, at, data),
                            0,
                            s,
                        ),
                        Err(_) => Script::End((s, None)),
                    },
            )
        }
}

/// Goes through the chunks of region `k`.
pub open spec fn region_visit<S, T>(
    visit: spec_fn(u64, u64, S) -> Search<(S, Option<T>)>,
    regions: Seq<Region>,
) -> spec_fn(nat, S) -> Search<(S, Option<T>)> {
    |k: nat, s: S|
        script::search(
            chunk_count(regions[k as int].size),
            chunk_visit(visit, regions[k as int]),
            0,
            s,
        )
}

/// Goes through the regions, in order, and visits each aligned word in them, with its address,
/// until a visit finds something.
pub open spec fn scanning<S, T>(
    regions: Seq<Region>,
    visit: spec_fn(u64, u64, S) -> Search<(S, Option<T>)>,
    s: S,
) -> Search<(S, Option<T>)> {
    script::search(regions.len(), region_visit(visit, regions), 0, s)
}

/// Where a scan stands.
#[derive(Clone, Copy, Debug, PartialEq, Eq, Structural)]
pub enum Stop {
    /// At a word.
    Word { addr: u64, word: u64 },
    /// Before a chunk that must be read.
    Chunk { addr: u64, len: u64 },
    /// At the end.
    End,
}

enum Position {
    Chunk { k: usize, j: u64 },
    Word { k: usize, j: u64, data: Vec<u8>, i: usize },
    End,
}

/// A place in a scan over regions.
pub struct Cursor {
    regions: Vec<Region>,
    position: Position,
}

impl Cursor {
    #[verifier::type_invariant]
    spec fn inv(&self) -> bool {
        match self.position {
            Position::Chunk { k, j } => k < self.regions@.len() && j < chunk_count(
                self.regions@[k as int].size,
            ),
            Position::Word { k, j, data, i } => k < self.regions@.len() && j < chunk_count(
                self.regions@[k as int].size,
            ) && i < data@.len() / 8,
            Position::End => true,
        }
    }

    /// Where the scan stands.
    pub closed spec fn stop(&self) -> Stop {
        match self.position {
            Position::Chunk { k, j } => Stop::Chunk {
                addr: chunk_start(self.regions@[k as int], j as nat),
                len: chunk_len(self.regions@[k as int].size, j as nat),
            },
            Position::Word { k, j, data, i } => Stop::Word {
                addr: region::offset(chunk_start(self.regions@[k as int], j as nat), 8 * i),
                word: bytes::le_u64(data@, 8 * i),
            },
            Position::End => Stop::End,
        }
    }

    /// How many words of what has been read are left.
    pub closed spec fn left(&self) -> nat {
        match self.position {
            Position::Word { k, j, data, i } => (data@.len() / 8 - i) as nat,
            _ => 0,
        }
    }

    /// What is left of the scan while the visit to the word that it stands at is under way.
    pub closed spec fn pending<S, T>(
        &self,
        visit: spec_fn(u64, u64, S) -> Search<(S, Option<T>)>,
        inner: Search<(S, Option<T>)>,
    ) -> Search<(S, Option<T>)> {
        match self.position {
            Position::Word { k, j, data, i } => {
                let region = self.regions@[k as int];
                inner.chain(
                    script::after(
                        data@.len() / 8,
                        word_visit(visit, chunk_start(region, j as nat), data@),
                        i as nat,
                    ),
                ).chain(
                    script::after(chunk_count(region.size), chunk_visit(visit, region), j as nat),
                ).chain(
                    script::after(
                        self.regions@.len(),
                        region_visit(visit, self.regions@),
                        k as nat,
                    ),
                )
            },
            _ => inner,
        }
    }

    /// What is left of the scan.
    pub closed spec fn rest<S, T>(
        &self,
        visit: spec_fn(u64, u64, S) -> Search<(S, Option<T>)>,
        s: S,
    ) -> Search<(S, Option<T>)> {
        match self.position {
            Position::Chunk { k, j } => {
                let region = self.regions@[k as int];
                chunk_visit(visit, region)(j as nat, s).chain(
                    script::after(chunk_count(region.size), chunk_visit(visit, region), j as nat),
                ).chain(
                    script::after(
                        self.regions@.len(),
                        region_visit(visit, self.regions@),
                        k as nat,
                    ),
                )
            },
            Position::Word { k, j, data, i } => self.pending(
                visit,
                word_visit(visit, chunk_start(self.regions@[k as int], j as nat), data@)(
                    i as nat,
                    s,
                ),
            ),
            Position::End => Script::End((s, None)),
        }
    }

    /// At a word, what is left is the visit to it and what comes after.
    pub proof fn lemma_at_word<S, T>(
        &self,
        visit: spec_fn(u64, u64, S) -> Search<(S, Option<T>)>,
        s: S,
    )
        ensures
            self.stop() matches Stop::Word { addr, word } ==> self.rest(visit, s) == self.pending(
                visit,
                visit(addr, word, s),
            ),
            self.stop() matches Stop::Chunk { addr, len } ==> self.rest(visit, s).question()
                == Some(Query::Read { addr, len }),
            self.stop() is End ==> self.rest(visit, s) == Script::<Query, Reply, _>::End(
                (s, None::<T>),
            ),
    {
        match self.position {
            Position::Chunk { k, j } => {
                let region = self.regions@[k as int];
                let p = chunk_visit(visit, region)(j as nat, s);
                let f = script::after(
                    chunk_count(region.size),
                    chunk_visit(visit, region),
                    j as nat,
                );
                let g = script::after(
                    self.regions@.len(),
                    region_visit(visit, self.regions@),
                    k as nat,
                );
                script::lemma_chain_ask(p, f, Reply::Done);
                script::lemma_chain_ask(p.chain(f), g, Reply::Done);
            },
            _ => {},
        }
    }

    /// While a visit is under way, what it asks is asked, and the answer goes to it.
    pub proof fn lemma_pending<S, T>(
        &self,
        visit: spec_fn(u64, u64, S) -> Search<(S, Option<T>)>,
        inner: Search<(S, Option<T>)>,
        a: Reply,
    )
        requires
            self.stop() is Word,
        ensures
            inner is Ask ==> self.pending(visit, inner).question() == inner.question(),
            inner is Ask ==> self.pending(visit, inner).answered(a) == self.pending(
                visit,
                inner.answered(a),
            ),
            inner matches Script::End(r) ==> r.1 is Some ==> self.pending(visit, inner) == inner,
    {
        match self.position {
            Position::Word { k, j, data, i } => {
                let region = self.regions@[k as int];
                let f = script::after(
                    data@.len() / 8,
                    word_visit(visit, chunk_start(region, j as nat), data@),
                    i as nat,
                );
                let g = script::after(
                    chunk_count(region.size),
                    chunk_visit(visit, region),
                    j as nat,
                );
                let h = script::after(
                    self.regions@.len(),
                    region_visit(visit, self.regions@),
                    k as nat,
                );
                if inner is Ask {
                    script::lemma_chain_ask(inner, f, a);
                    script::lemma_chain_ask(inner.chain(f), g, a);
                    script::lemma_chain_ask(inner.chain(f).chain(g), h, a);
                }
            },
            _ => {},
        }
    }

    /// The beginning of a scan.
    pub fn new<S, T>(regions: Vec<Region>) -> (cursor: Cursor)
        ensures
            forall|visit: spec_fn(u64, u64, S) -> Search<(S, Option<T>)>, s: S|
                #![trigger cursor.rest(visit, s)]
                cursor.rest(visit, s) == scanning(regions@, visit, s),
    {
        Cursor::from_region::<S, T>(regions, 0)
    }

    /// Where the scan stands.
    pub fn at(&self) -> (stop: Stop)
        ensures
            stop == self.stop(),
    {
        proof {
            use_type_invariant(self);
        }
        match &self.position {
            Position::Chunk { k, j } => {
                let region = self.regions[*k];
                let done: u64 = *j * CHUNK;
                let left: u64 = region.size - done;
                Stop::Chunk {
                    addr: region::address(region.start, done),
                    len: if left < CHUNK {
                        left
                    } else {
                        CHUNK
                    },
                }
            },
            Position::Word { k, j, data, i } => {
                let region = self.regions[*k];
                let done: u64 = *j * CHUNK;
                assert(8 * *i + 8 <= data.len());
                Stop::Word {
                    addr: region::address(
                        region::address(region.start, done),
                        (8 * *i) as u64,
                    ),
                    word: bytes::read_u64(data, 8 * *i),
                }
            },
            Position::End => Stop::End,
        }
    }

    fn from_region<S, T>(regions: Vec<Region>, from: usize) -> (cursor: Cursor)
        requires
            from <= regions@.len(),
        ensures
            forall|visit: spec_fn(u64, u64, S) -> Search<(S, Option<T>)>, s: S|
                #![trigger cursor.rest(visit, s)]
                cursor.rest(visit, s) == script::search(
                    regions@.len(),
                    region_visit(visit, regions@),
                    from as nat,
                    s,
                ),
            cursor.left() == 0,
    {
        let mut k: usize = from;
        while k < regions.len()
            invariant
                from <= k <= regions@.len(),
                forall|visit: spec_fn(u64, u64, S) -> Search<(S, Option<T>)>, s: S|
                    #[trigger] script::search(
                        regions@.len(),
                        region_visit(visit, regions@),
                        from as nat,
                        s,
                    ) == script::search(
                        regions@.len(),
                        region_visit(visit, regions@),
                        k as nat,
                        s,
                    ),
            decreases regions@.len() - k,
        {
            if regions[k].size > 0 {
                return Cursor { regions, position: Position::Chunk { k, j: 0 } };
            }
            assert(chunk_count(regions@[k as int].size) == 0);
            k += 1;
        }
        Cursor { regions, position: Position::End }
    }

    fn from_chunk<S, T>(regions: Vec<Region>, k: usize, j: u64) -> (cursor: Cursor)
        requires
            k < regions@.len(),
            j <= chunk_count(regions@[k as int].size),
        ensures
            forall|visit: spec_fn(u64, u64, S) -> Search<(S, Option<T>)>, s: S|
                #![trigger cursor.rest(visit, s)]
                cursor.rest(visit, s) == script::search(
                    chunk_count(regions@[k as int].size),
                    chunk_visit(visit, regions@[k as int]),
                    j as nat,
                    s,
                ).chain(
                    script::after(regions@.len(), region_visit(visit, regions@), k as nat),
                ),
            cursor.left() == 0,
    {
        let size: u64 = regions[k].size;
        if size > 0 && j <= (size - 1) / CHUNK {
            Cursor { regions, position: Position::Chunk { k, j } }
        } else {
            assert(k < regions.len());
            Cursor::from_region::<S, T>(regions, k + 1)
        }
    }

    fn from_word<S, T>(regions: Vec<Region>, k: usize, j: u64, data: Vec<u8>, i: usize) -> (cursor:
        Cursor)
        requires
            k < regions@.len(),
            j < chunk_count(regions@[k as int].size),
            i <= data@.len() / 8,
        ensures
            forall|visit: spec_fn(u64, u64, S) -> Search<(S, Option<T>)>, s: S|
                #![trigger cursor.rest(visit, s)]
                cursor.rest(visit, s) == script::search(
                    data@.len() / 8,
                    word_visit(visit, chunk_start(regions@[k as int], j as nat), data@),
                    i as nat,
                    s,
                ).chain(
                    script::after(
                        chunk_count(regions@[k as int].size),
                        chunk_visit(visit, regions@[k as int]),
                        j as nat,
                    ),
                ).chain(
                    script::after(regions@.len(), region_visit(visit, regions@), k as nat),
                ),
            cursor.left() <= data@.len() / 8 - i,
    {
        if i < data.len() / 8 {
            Cursor { regions, position: Position::Word { k, j, data, i } }
        } else {
            Cursor::from_chunk::<S, T>(regions, k, j + 1)
        }
    }

    /// Goes on to what comes after the word that the scan stands at.
    pub fn pass<S, T>(self) -> (cursor: Cursor)
        requires
            self.stop() is Word,
        ensures
            forall|visit: spec_fn(u64, u64, S) -> Search<(S, Option<T>)>, s: S|
                #![trigger cursor.rest(visit, s)]
                cursor.rest(visit, s) == self.pending(visit, Script::End((s, None))),
            cursor.left() < self.left(),
    {
        proof {
            use_type_invariant(&self);
        }
        match self.position {
            Position::Word { k, j, data, i } => {
                assert(i < data.len());
                Cursor::from_word::<S, T>(self.regions, k, j, data, i + 1)
            },
            position => Cursor { regions: self.regions, position },
        }
    }

    /// Takes the answer to the read of the chunk that the scan stands before.
    pub fn load<S, T>(self, answer: Answer) -> (cursor: Cursor)
        requires
            self.stop() is Chunk,
        ensures
            forall|visit: spec_fn(u64, u64, S) -> Search<(S, Option<T>)>, s: S|
                #![trigger cursor.rest(visit, s)]
                cursor.rest(visit, s) == self.rest(visit, s).answered(answer@),
    {
        proof {
            use_type_invariant(&self);
            self.lemma_load::<S, T>(answer@);
        }
        let stop = self.at();
        match self.position {
            Position::Chunk { k, j } => {
                let len: u64 = match stop {
                    Stop::Chunk { len, .. } => len,
                    _ => 0,
                };
                match answer.bytes(len) {
                    Ok(data) => Cursor::from_word::<S, T>(self.regions, k, j, data, 0),
                    Err(_) => Cursor::from_chunk::<S, T>(self.regions, k, j + 1),
                }
            },
            position => Cursor { regions: self.regions, position },
        }
    }

    /// What the answer to the read of a chunk comes to.
    proof fn lemma_load<S, T>(&self, a: Reply)
        ensures
            forall|visit: spec_fn(u64, u64, S) -> Search<(S, Option<T>)>, s: S|
                #![trigger self.rest(visit, s)]
                self.position matches Position::Chunk { k, j } ==> {
                    let region = self.regions@[k as int];
                    self.rest(visit, s).answered(a) == chunk_visit(visit, region)(
                        j as nat,
                        s,
                    ).answered(a).chain(
                        script::after(
                            chunk_count(region.size),
                            chunk_visit(visit, region),
                            j as nat,
                        ),
                    ).chain(
                        script::after(
                            self.regions@.len(),
                            region_visit(visit, self.regions@),
                            k as nat,
                        ),
                    )
                },
    {
        if let Position::Chunk { k, j } = self.position {
            let region = self.regions@[k as int];
            assert forall|visit: spec_fn(u64, u64, S) -> Search<(S, Option<T>)>, s: S|
                #![trigger self.rest(visit, s)]
                self.rest(visit, s).answered(a) == chunk_visit(visit, region)(
                    j as nat,
                    s,
                ).answered(a).chain(
                    script::after(
                        chunk_count(region.size),
                        chunk_visit(visit, region),
                        j as nat,
                    ),
                ).chain(
                    script::after(
                        self.regions@.len(),
                        region_visit(visit, self.regions@),
                        k as nat,
                    ),
                ) by {
                let p = chunk_visit(visit, region)(j as nat, s);
                let f = script::after(
                    chunk_count(region.size),
                    chunk_visit(visit, region),
                    j as nat,
                );
                let g = script::after(
                    self.regions@.len(),
                    region_visit(visit, self.regions@),
                    k as nat,
                );
                script::lemma_chain_ask(p, f, a);
                script::lemma_chain_ask(p.chain(f), g, a);
            }
        }
    }
}

/// The aligned words of the bytes that were read at `at`, with their addresses.
pub open spec fn words_of(at: u64, data: Seq<u8>) -> Seq<(u64, u64)> {
    Seq::new(
        data.len() / 8,
        |i: int| (region::offset(at, 8 * i), bytes::le_u64(data, 8 * i)),
    )
}

/// The words of a chunk in a world that does not change; none where it cannot be read.
pub open spec fn chunk_words(world: spec_fn(Query) -> Reply, region: Region, j: nat) -> Seq<
    (u64, u64),
> {
    let at = chunk_start(region, j);
    let len = chunk_len(region.size, j);
    match world(Query::Read { addr: at, len }).bytes(len) {
        Ok(data) => words_of(at, data),
        Err(_) => Seq::empty(),
    }
}

/// The words of a region from chunk `j` on.
pub open spec fn region_words(world: spec_fn(Query) -> Reply, region: Region, j: nat) -> Seq<
    (u64, u64),
>
    decreases chunk_count(region.size) - j,
{
    if j >= chunk_count(region.size) {
        Seq::empty()
    } else {
        chunk_words(world, region, j) + region_words(world, region, j + 1)
    }
}

/// The words of the regions from region `k` on.
pub open spec fn words_in(world: spec_fn(Query) -> Reply, regions: Seq<Region>, k: nat) -> Seq<
    (u64, u64),
>
    decreases regions.len() - k,
{
    if k >= regions.len() {
        Seq::empty()
    } else {
        region_words(world, regions[k as int], 0) + words_in(world, regions, k + 1)
    }
}

/// What is found at the first of the words at which something is found.
pub open spec fn first_of<T>(
    words: Seq<(u64, u64)>,
    found: spec_fn(u64, u64) -> Option<T>,
) -> Option<T>
    decreases words.len(),
{
    if words.len() == 0 {
        None
    } else if found(words[0].0, words[0].1) is Some {
        found(words[0].0, words[0].1)
    } else {
        first_of(words.skip(1), found)
    }
}

/// What is found first is found at one of the words, and nothing is found at those before it.
pub proof fn lemma_first_of<T>(words: Seq<(u64, u64)>, found: spec_fn(u64, u64) -> Option<T>)
    ensures
        match first_of(words, found) {
            Some(t) => exists|i: int|
                0 <= i < words.len() && found((#[trigger] words[i]).0, words[i].1) == Some(t)
                    && forall|j: int|
                    0 <= j < i ==> found((#[trigger] words[j]).0, words[j].1) is None,
            None => forall|i: int|
                0 <= i < words.len() ==> found((#[trigger] words[i]).0, words[i].1) is None,
        },
    decreases words.len(),
{
    if words.len() > 0 {
        if found(words[0].0, words[0].1) is Some {
            assert(found(words[0].0, words[0].1) == first_of(words, found));
        } else {
            let rest = words.skip(1);
            lemma_first_of(rest, found);
            match first_of(words, found) {
                Some(t) => {
                    let i = choose|i: int|
                        0 <= i < rest.len() && found((#[trigger] rest[i]).0, rest[i].1) == Some(t)
                            && forall|j: int|
                            0 <= j < i ==> found((#[trigger] rest[j]).0, rest[j].1) is None;
                    assert(words[i + 1] == rest[i]);
                    assert forall|j: int| 0 <= j < i + 1 implies found(
                        (#[trigger] words[j]).0,
                        words[j].1,
                    ) is None by {
                        if j > 0 {
                            assert(rest[j - 1] == words[j]);
                        }
                    }
                },
                None => {
                    assert forall|i: int| 0 <= i < words.len() implies found(
                        (#[trigger] words[i]).0,
                        words[i].1,
                    ) is None by {
                        if i > 0 {
                            assert(rest[i - 1] == words[i]);
                        }
                    }
                },
            }
        }
    }
}

proof fn lemma_first_of_both<T>(
    a: Seq<(u64, u64)>,
    b: Seq<(u64, u64)>,
    found: spec_fn(u64, u64) -> Option<T>,
)
    ensures
        first_of(a + b, found) == if first_of(a, found) is Some {
            first_of(a, found)
        } else {
            first_of(b, found)
        },
    decreases a.len(),
{
    if a.len() == 0 {
        assert(a + b =~= b);
    } else {
        assert((a + b)[0] == a[0]);
        if found(a[0].0, a[0].1) is None {
            assert((a + b).skip(1) =~= a.skip(1) + b);
            lemma_first_of_both(a.skip(1), b, found);
        }
    }
}

/// Each visit finds the same whatever is remembered, as long as that keeps to `inv`.
pub open spec fn steady<S, T>(
    world: spec_fn(Query) -> Reply,
    visit: spec_fn(u64, u64, S) -> Search<(S, Option<T>)>,
    inv: spec_fn(S) -> bool,
    found: spec_fn(u64, u64) -> Option<T>,
) -> bool {
    forall|addr: u64, word: u64, s: S|
        #![trigger visit(addr, word, s)]
        inv(s) ==> {
            let r = visit(addr, word, s).run(world);
            r.1 == found(addr, word) && (r.1 is None ==> inv(r.0))
        }
}

proof fn lemma_words_run<S, T>(
    world: spec_fn(Query) -> Reply,
    at: u64,
    data: Seq<u8>,
    visit: spec_fn(u64, u64, S) -> Search<(S, Option<T>)>,
    i: nat,
    s: S,
    inv: spec_fn(S) -> bool,
    found: spec_fn(u64, u64) -> Option<T>,
)
    requires
        inv(s),
        steady(world, visit, inv, found),
        i <= data.len() / 8,
    ensures
        ({
            let r = script::search(data.len() / 8, word_visit(visit, at, data), i, s).run(world);
            r.1 == first_of(words_of(at, data).skip(i as int), found) && (r.1 is None ==> inv(r.0))
        }),
    decreases data.len() / 8 - i,
{
    let n = (data.len() / 8) as nat;
    let v = word_visit(visit, at, data);
    let words = words_of(at, data).skip(i as int);
    if i < n {
        let p = v(i, s);
        script::lemma_run_chain(p, script::after(n, v, i), world);
        assert(words[0] == words_of(at, data)[i as int]);
        assert(p == visit(words[0].0, words[0].1, s));
        assert(words.skip(1) =~= words_of(at, data).skip(i as int + 1));
        if p.run(world).1 is None {
            lemma_words_run(world, at, data, visit, i + 1, p.run(world).0, inv, found);
        }
    }
}

proof fn lemma_chunks_run<S, T>(
    world: spec_fn(Query) -> Reply,
    region: Region,
    visit: spec_fn(u64, u64, S) -> Search<(S, Option<T>)>,
    j: nat,
    s: S,
    inv: spec_fn(S) -> bool,
    found: spec_fn(u64, u64) -> Option<T>,
)
    requires
        inv(s),
        steady(world, visit, inv, found),
    ensures
        ({
            let r = script::search(
                chunk_count(region.size),
                chunk_visit(visit, region),
                j,
                s,
            ).run(world);
            r.1 == first_of(region_words(world, region, j), found) && (r.1 is None ==> inv(r.0))
        }),
    decreases chunk_count(region.size) - j,
{
    let n = chunk_count(region.size);
    let v = chunk_visit(visit, region);
    if j < n {
        let p = v(j, s);
        let at = chunk_start(region, j);
        let len = chunk_len(region.size, j);
        script::lemma_run_chain(p, script::after(n, v, j), world);
        let reply = world(Query::Read { addr: at, len });
        if let Ok(data) = reply.bytes(len) {
            lemma_words_run(world, at, data, visit, 0, s, inv, found);
            assert(words_of(at, data).skip(0) =~= words_of(at, data));
            assert(p.run(world) == script::search(
                data.len() / 8,
                word_visit(visit, at, data),
                0,
                s,
            ).run(world));
        } else {
            assert(p.answered(reply) == Script::<Query, Reply, _>::End((s, None::<T>)));
            reveal_with_fuel(Script::run, 2);
        }
        lemma_first_of_both(
            chunk_words(world, region, j),
            region_words(world, region, j + 1),
            found,
        );
        if p.run(world).1 is None {
            lemma_chunks_run(world, region, visit, j + 1, p.run(world).0, inv, found);
        }
    }
}

proof fn lemma_regions_run<S, T>(
    world: spec_fn(Query) -> Reply,
    regions: Seq<Region>,
    visit: spec_fn(u64, u64, S) -> Search<(S, Option<T>)>,
    k: nat,
    s: S,
    inv: spec_fn(S) -> bool,
    found: spec_fn(u64, u64) -> Option<T>,
)
    requires
        inv(s),
        steady(world, visit, inv, found),
    ensures
        script::search(regions.len(), region_visit(visit, regions), k, s).run(world).1 == first_of(
            words_in(world, regions, k),
            found,
        ),
    decreases regions.len() - k,
{
    let n = regions.len();
    let v = region_visit(visit, regions);
    if k < n {
        let p = v(k, s);
        script::lemma_run_chain(p, script::after(n, v, k), world);
        lemma_chunks_run(world, regions[k as int], visit, 0, s, inv, found);
        lemma_first_of_both(
            region_words(world, regions[k as int], 0),
            words_in(world, regions, k + 1),
            found,
        );
        if p.run(world).1 is None {
            lemma_regions_run(world, regions, visit, k + 1, p.run(world).0, inv, found);
        }
    }
}

/// In a world that does not change, a scan whose visits are steady gives what is found at the
/// first of the words that can be read, in the order of the regions and of their addresses.
pub proof fn scanning_gives_the_first<S, T>(
    world: spec_fn(Query) -> Reply,
    regions: Seq<Region>,
    visit: spec_fn(u64, u64, S) -> Search<(S, Option<T>)>,
    s: S,
    inv: spec_fn(S) -> bool,
    found: spec_fn(u64, u64) -> Option<T>,
)
    requires
        inv(s),
        steady(world, visit, inv, found),
    ensures
        scanning(regions, visit, s).run(world).1 == first_of(words_in(world, regions, 0), found),
{
    lemma_regions_run(world, regions, visit, 0, s, inv, found);
}

/// Where every visit finds something good, if anything, a scan does, whatever the answers are.
pub proof fn scanning_finds_good<S, T>(
    regions: Seq<Region>,
    visit: spec_fn(u64, u64, S) -> Search<(S, Option<T>)>,
    s: S,
    good: spec_fn((S, Option<T>)) -> bool,
)
    requires
        forall|addr: u64, word: u64, s: S| script::always(#[trigger] visit(addr, word, s), good),
        forall|s: S| #[trigger] good((s, None)),
    ensures
        script::always(scanning(regions, visit, s), good),
{
    let v = region_visit(visit, regions);
    assert forall|k: nat, s: S| k < regions.len() implies script::always(
        #[trigger] v(k, s),
        good,
    ) by {
        let region = regions[k as int];
        let w = chunk_visit(visit, region);
        assert forall|j: nat, s: S| j < chunk_count(region.size) implies script::always(
            #[trigger] w(j, s),
            good,
        ) by {
            let at = chunk_start(region, j);
            let len = chunk_len(region.size, j);
            assert forall|a: Reply| script::always(#[trigger] w(j, s).answered(a), good) by {
                if let Ok(data) = a.bytes(len) {
                    let x = word_visit(visit, at, data);
                    assert forall|i: nat, s: S| i < data.len() / 8 implies script::always(
                        #[trigger] x(i, s),
                        good,
                    ) by {}
                    script::lemma_always_search(data.len() / 8, x, 0, s, good);
                }
            }
            script::lemma_always_ask(w(j, s), good);
        }
        script::lemma_always_search(chunk_count(region.size), w, 0, s, good);
    }
    script::lemma_always_search(regions.len(), v, 0, s, good);
}

/// A scan writes nothing if its visits write nothing.
pub proof fn scanning_is_harmless<S, T>(
    regions: Seq<Region>,
    visit: spec_fn(u64, u64, S) -> Search<(S, Option<T>)>,
    s: S,
)
    requires
        forall|addr: u64, word: u64, s: S|
            script::only_asks(#[trigger] visit(addr, word, s), memory::harmless()),
    ensures
        script::only_asks(scanning(regions, visit, s), memory::harmless()),
{
    let ok = memory::harmless();
    let v = region_visit(visit, regions);
    assert forall|k: nat, s: S| k < regions.len() implies script::only_asks(
        #[trigger] v(k, s),
        ok,
    ) by {
        let region = regions[k as int];
        let w = chunk_visit(visit, region);
        assert forall|j: nat, s: S| j < chunk_count(region.size) implies script::only_asks(
            #[trigger] w(j, s),
            ok,
        ) by {
            let at = chunk_start(region, j);
            let len = chunk_len(region.size, j);
            assert forall|a: Reply| script::only_asks(#[trigger] w(j, s).answered(a), ok) by {
                if let Ok(data) = a.bytes(len) {
                    let x = word_visit(visit, at, data);
                    assert forall|i: nat, s: S| i < data.len() / 8 implies script::only_asks(
                        #[trigger] x(i, s),
                        ok,
                    ) by {}
                    script::lemma_only_search(data.len() / 8, x, 0, s, ok);
                }
            }
            script::lemma_only_ask(w(j, s), ok);
        }
        script::lemma_only_search(chunk_count(region.size), w, 0, s, ok);
    }
    script::lemma_only_search(regions.len(), v, 0, s, ok);
}

/// The aligned word `i` of a region, in a world that does not change. The region is read in pieces
/// of a megabyte, the last of which may be shorter; of a piece that cannot be read, no word is
/// known.
pub open spec fn word_at(world: spec_fn(Query) -> Reply, region: Region, i: int) -> Option<u64> {
    let piece = i / 0x2_0000;
    let left = region.size - 0x10_0000 * piece;
    let len = if left < 0x10_0000 {
        left
    } else {
        0x10_0000
    };
    let addr = region::offset(region.start, 0x10_0000 * piece);
    if i < 0 || 8 * i + 8 > region.size {
        None
    } else {
        match world(Query::Read { addr, len: len as u64 }) {
            Reply::Bytes { status, data } => if status == 0 && data.len() == len {
                Some(bytes::le_u64(data, 8 * (i % 0x2_0000)))
            } else {
                None
            },
            _ => None,
        }
    }
}

/// What is found at word `i` of a region.
pub open spec fn found_at<T>(
    world: spec_fn(Query) -> Reply,
    region: Region,
    found: spec_fn(u64, u64) -> Option<T>,
    i: int,
) -> Option<T> {
    match word_at(world, region, i) {
        Some(word) => found(region::offset(region.start, 8 * i), word),
        None => None,
    }
}

/// What is found at word `i` of region `k`, where that region is to be looked at.
pub open spec fn found_in<T>(
    world: spec_fn(Query) -> Reply,
    regions: Seq<Region>,
    wanted: spec_fn(Region) -> bool,
    found: spec_fn(u64, u64) -> Option<T>,
    k: int,
    i: int,
) -> Option<T> {
    if 0 <= k < regions.len() && wanted(regions[k]) {
        found_at(world, regions[k], found, i)
    } else {
        None
    }
}

/// Word `i` of region `k` comes before word `i2` of region `k2`.
pub open spec fn earlier(k: int, i: int, k2: int, i2: int) -> bool {
    k < k2 || (k == k2 && i < i2)
}

proof fn lemma_chunk_first<T>(
    world: spec_fn(Query) -> Reply,
    region: Region,
    found: spec_fn(u64, u64) -> Option<T>,
    j: nat,
)
    requires
        j < chunk_count(region.size),
    ensures
        match first_of(chunk_words(world, region, j), found) {
            Some(t) => exists|i: int|
                0x2_0000 * j <= i < 0x2_0000 * (j + 1) && #[trigger] found_at(
                    world,
                    region,
                    found,
                    i,
                ) == Some(t) && forall|o: int|
                    0x2_0000 * j <= o < i ==> #[trigger] found_at(world, region, found, o) is None,
            None => forall|i: int|
                0x2_0000 * j <= i < 0x2_0000 * (j + 1) ==> #[trigger] found_at(
                    world,
                    region,
                    found,
                    i,
                ) is None,
        },
{
    let words = chunk_words(world, region, j);
    lemma_first_of(words, found);
    let at = chunk_start(region, j);
    let len = chunk_len(region.size, j);
    let reply = world(Query::Read { addr: at, len });
    let base = 0x2_0000 * j;
    assert forall|i: int| base <= i < base + 0x2_0000 implies #[trigger] found_at(
        world,
        region,
        found,
        i,
    ) == if i - base < words.len() {
        found(words[i - base].0, words[i - base].1)
    } else {
        None
    } by {
        assert(i / 0x2_0000 == j);
        assert(i % 0x2_0000 == i - base);
        region::addresses_go_round(region.start, 0x10_0000 * j as int, 8 * (i - base));
    }
    match first_of(words, found) {
        Some(t) => {
            let l = choose|l: int|
                0 <= l < words.len() && found((#[trigger] words[l]).0, words[l].1) == Some(t)
                    && forall|m: int|
                    0 <= m < l ==> found((#[trigger] words[m]).0, words[m].1) is None;
            assert(words.len() <= 0x2_0000);
            assert(found_at(world, region, found, base + l) == Some(t));
            assert forall|o: int| base <= o < base + l implies #[trigger] found_at(
                world,
                region,
                found,
                o,
            ) is None by {
                assert(found(words[o - base].0, words[o - base].1) is None);
            }
        },
        None => {},
    }
}

proof fn lemma_region_first<T>(
    world: spec_fn(Query) -> Reply,
    region: Region,
    found: spec_fn(u64, u64) -> Option<T>,
    j: nat,
)
    requires
        j <= chunk_count(region.size),
    ensures
        match first_of(region_words(world, region, j), found) {
            Some(t) => exists|i: int|
                0x2_0000 * j <= i && #[trigger] found_at(world, region, found, i) == Some(t)
                    && forall|o: int|
                    0x2_0000 * j <= o < i ==> #[trigger] found_at(world, region, found, o) is None,
            None => forall|i: int|
                0x2_0000 * j <= i ==> #[trigger] found_at(world, region, found, i) is None,
        },
    decreases chunk_count(region.size) - j,
{
    if j < chunk_count(region.size) {
        let here = chunk_words(world, region, j);
        let rest = region_words(world, region, j + 1);
        lemma_chunk_first(world, region, found, j);
        lemma_region_first(world, region, found, j + 1);
        lemma_first_of_both(here, rest, found);
        let base = 0x2_0000 * j;
        if first_of(here, found) is None {
            if let Some(t) = first_of(rest, found) {
                let i = choose|i: int|
                    0x2_0000 * (j + 1) <= i && #[trigger] found_at(world, region, found, i) == Some(
                        t,
                    ) && forall|o: int|
                        0x2_0000 * (j + 1) <= o < i ==> #[trigger] found_at(world, region, found, o)
                            is None;
                assert forall|o: int| base <= o < i implies #[trigger] found_at(
                    world,
                    region,
                    found,
                    o,
                ) is None by {}
            }
        }
    } else {
        assert forall|i: int| 0x2_0000 * j <= i implies #[trigger] found_at(
            world,
            region,
            found,
            i,
        ) is None by {
            assert(8 * i + 8 > region.size);
        }
    }
}

proof fn lemma_words_push(
    world: spec_fn(Query) -> Reply,
    regions: Seq<Region>,
    region: Region,
    k: nat,
)
    requires
        k <= regions.len(),
    ensures
        words_in(world, regions.push(region), k) == words_in(world, regions, k) + region_words(
            world,
            region,
            0,
        ),
    decreases regions.len() - k,
{
    let all = regions.push(region);
    if k < regions.len() {
        lemma_words_push(world, regions, region, k + 1);
        assert(all[k as int] == regions[k as int]);
        assert(words_in(world, all, k) =~= words_in(world, regions, k) + region_words(
            world,
            region,
            0,
        ));
    } else {
        assert(words_in(world, all, k + 1) =~= Seq::empty());
        assert(words_in(world, all, k) =~= words_in(world, regions, k) + region_words(
            world,
            region,
            0,
        ));
    }
}

/// In a world that does not change, what is found first in the regions that are wanted is found at
/// a word of one of them, and nothing is found at the words before it: at those of the regions
/// before, and at those at lower addresses of the same region. Where nothing is found, nothing is
/// found at any word.
pub proof fn what_is_found_first_comes_first<T>(
    world: spec_fn(Query) -> Reply,
    regions: Seq<Region>,
    wanted: spec_fn(Region) -> bool,
    found: spec_fn(u64, u64) -> Option<T>,
)
    ensures
        match first_of(words_in(world, regions.filter(wanted), 0), found) {
            Some(t) => exists|k: int, i: int| #[trigger]
                found_in(world, regions, wanted, found, k, i) == Some(t) && forall|k2: int, i2: int|
                    earlier(k2, i2, k, i) ==> #[trigger] found_in(
                        world,
                        regions,
                        wanted,
                        found,
                        k2,
                        i2,
                    ) is None,
            None => forall|k: int, i: int| #[trigger]
                found_in(world, regions, wanted, found, k, i) is None,
        },
    decreases regions.len(),
{
    reveal(Seq::filter);
    if regions.len() == 0 {
        assert(words_in(world, regions.filter(wanted), 0) =~= Seq::empty());
    } else {
        let before = regions.drop_last();
        let last = regions.last();
        let n = regions.len() - 1;
        what_is_found_first_comes_first(world, before, wanted, found);
        assert forall|k: int, i: int| #[trigger]
            found_in(world, regions, wanted, found, k, i) == if k == n {
                if wanted(last) {
                    found_at(world, last, found, i)
                } else {
                    None
                }
            } else {
                found_in(world, before, wanted, found, k, i)
            } by {}
        let kept = before.filter(wanted);
        let here = words_in(world, kept, 0);
        let rest = region_words(world, last, 0);
        if wanted(last) {
            lemma_words_push(world, kept, last, 0);
            lemma_first_of_both(here, rest, found);
            lemma_region_first(world, last, found, 0);
        }
        if let Some(t) = first_of(here, found) {
            let (k, i) = choose|k: int, i: int| #[trigger]
                found_in(world, before, wanted, found, k, i) == Some(t) && forall|k2: int, i2: int|
                    earlier(k2, i2, k, i) ==> #[trigger] found_in(
                        world,
                        before,
                        wanted,
                        found,
                        k2,
                        i2,
                    ) is None;
            assert(found_in(world, regions, wanted, found, k, i) == Some(t));
        } else if wanted(last) {
            if let Some(t) = first_of(rest, found) {
                let i = choose|i: int|
                    0 <= i && #[trigger] found_at(world, last, found, i) == Some(t) && forall|
                        o: int,
                    |
                        0 <= o < i ==> #[trigger] found_at(world, last, found, o) is None;
                assert(found_in(world, regions, wanted, found, n, i) == Some(t));
                assert forall|k2: int, i2: int| earlier(k2, i2, n, i) implies #[trigger] found_in(
                    world,
                    regions,
                    wanted,
                    found,
                    k2,
                    i2,
                ) is None by {
                    if k2 == n && i2 < 0 {
                        assert(found_at(world, last, found, i2) is None);
                    }
                }
            } else {
                assert forall|k: int, i: int| #[trigger]
                    found_in(world, regions, wanted, found, k, i) is None by {
                    if k == n && i < 0 {
                        assert(found_at(world, last, found, i) is None);
                    }
                }
            }
        }
    }
}

} // verus!
