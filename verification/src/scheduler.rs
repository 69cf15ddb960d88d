//! Looking for the scheduler: an object that an image points to and that has a list of jobs.
use vstd::prelude::*;

use std::collections::HashSet;

use crate::bytes;
use crate::error::Error;
use crate::jobs;
use crate::jobs::JobSearch;
use crate::memory;
use crate::memory::{Answer, Query, Reply, Search};
use crate::region;
use crate::region::Region;
use crate::scan;
use crate::scan::{Cursor, Stop};
use crate::script;
use crate::script::Script;

verus! {

/// How many bytes of an object are looked at.
pub const HEAD: u64 = 0x200;

/// The regions of an image that hold data: those that can be read and not executed.
pub open spec fn data_regions(image: Seq<Region>) -> Seq<Region> {
    image.filter(|r: Region| region::readable(r.prot) && !region::executable(r.prot))
}

/// Asks of the words before `off`, from word `i` on, which of them are frame intervals. Gives
/// the place of the last one, or `best` where there is none.
pub open spec fn intervals(head: Seq<u8>, off: u64, i: nat, best: Option<u64>) -> Search<
    Option<u64>,
>
    decreases off + 8 - 8 * i,
{
    if 8 * i >= off {
        Script::End(best)
    } else {
        Script::Ask(
            Query::IsInterval { bits: bytes::le_u64(head, 8 * i as int) },
            |reply: Reply|
                intervals(
                    head,
                    off,
                    i + 1,
                    if reply.flag() {
                        Some((8 * i) as u64)
                    } else {
                        best
                    },
                ),
        )
    }
}

/// What is found in the object at `ptr` with an interval at this place.
pub open spec fn with_interval(seen: Set<u64>, ptr: u64) -> spec_fn(Option<u64>) -> Search<
    (Set<u64>, Option<(u64, u64)>),
> {
    |place: Option<u64>|
        Script::End(
            (
                seen,
                match place {
                    Some(off) => Some((ptr, off)),
                    None => None,
                },
            ),
        )
}

/// What is left once the job list of the object at `ptr` has been looked for.
pub open spec fn with_list(seen: Set<u64>, ptr: u64, head: Seq<u8>) -> spec_fn(
    Option<u64>,
) -> Search<(Set<u64>, Option<(u64, u64)>)> {
    |list: Option<u64>|
        match list {
            Some(off) => intervals(head, off, 0, None).chain(with_interval(seen, ptr)),
            None => Script::End((seen, None)),
        }
}

/// Looks at the object at `ptr`.
pub open spec fn object_visit(seen: Set<u64>, ptr: u64) -> Search<
    (Set<u64>, Option<(u64, u64)>),
> {
    Script::Ask(
        Query::Read { addr: ptr, len: HEAD },
        |reply: Reply|
            match reply.bytes(HEAD) {
                Ok(head) => jobs::looking(head).chain(with_list(seen, ptr, head)),
                Err(_) => Script::End((seen, None)),
            },
    )
}

/// Looks at the object that a word of the image points to, unless it has been looked at or
/// does not lie in the regions of the process.
pub open spec fn word_visit(heap: Seq<Region>) -> spec_fn(u64, u64, Set<u64>) -> Search<
    (Set<u64>, Option<(u64, u64)>),
> {
    |addr: u64, ptr: u64, seen: Set<u64>|
        if seen.contains(ptr) || !region::held(heap, ptr, HEAD) {
            Script::End((seen.insert(ptr), None))
        } else {
            object_visit(seen.insert(ptr), ptr)
        }
}

/// What the search comes to.
pub open spec fn outcome() -> spec_fn((Set<u64>, Option<(u64, u64)>)) -> Search<
    Result<(u64, u64), Error>,
> {
    |r: (Set<u64>, Option<(u64, u64)>)|
        Script::End(
            match r.1 {
                Some(found) => Ok(found),
                None => Err(Error::SchedulerNotFound),
            },
        )
}

/// Looks for the scheduler: for its address and for the place of its frame interval.
pub open spec fn looking(image: Seq<Region>, heap: Seq<Region>) -> Search<
    Result<(u64, u64), Error>,
> {
    scan::scanning(data_regions(image), word_visit(heap), Set::<u64>::empty()).chain(outcome())
}

/// The regions of an image that hold data.
fn find_data_regions(image: &[Region]) -> (found: Vec<Region>)
    ensures
        found@ == data_regions(image@),
{
    let mut found: Vec<Region> = Vec::new();
    let ghost data = |r: Region| region::readable(r.prot) && !region::executable(r.prot);
    let mut i: usize = 0;
    assert(image@.take(0).filter(data) =~= Seq::empty()) by {
        reveal(Seq::filter);
    }
    while i < image.len()
        invariant
            i <= image@.len(),
            data == (|r: Region| region::readable(r.prot) && !region::executable(r.prot)),
            found@ == image@.take(i as int).filter(data),
        decreases image@.len() - i,
    {
        let region = image[i];
        proof {
            reveal(Seq::filter);
            assert(image@.take(i + 1).drop_last() =~= image@.take(i as int));
            assert(image@.take(i + 1).last() == region);
        }
        if region.prot & 1 != 0 && region.prot & 4 == 0 {
            found.push(region);
        }
        i += 1;
    }
    assert(image@.take(i as int) =~= image@);
    found
}

enum State {
    /// Going through the image.
    Scan,
    /// Reading the object that the word at hand points to.
    Object { ptr: u64 },
    /// Looking for a job list in it.
    Jobs { ptr: u64, head: Vec<u8>, search: JobSearch },
    /// Looking for intervals in it.
    Interval { ptr: u64, head: Vec<u8>, off: u64, i: u64, best: Option<u64> },
    End(Result<(u64, u64), Error>),
}

/// A search for the scheduler that is under way.
pub struct SchedulerSearch {
    heap: Vec<Region>,
    cursor: Cursor,
    seen: HashSet<u64>,
    state: State,
}

impl View for SchedulerSearch {
    type V = Search<Result<(u64, u64), Error>>;

    closed spec fn view(&self) -> Search<Result<(u64, u64), Error>> {
        match self.state {
            State::End(result) => Script::End(result),
            State::Scan => self.cursor.rest(word_visit(self.heap@), self.seen@).chain(outcome()),
            _ => self.cursor.pending(word_visit(self.heap@), self.visit()).chain(outcome()),
        }
    }
}

impl SchedulerSearch {
    /// The visit to the word at hand.
    spec fn visit(&self) -> Search<(Set<u64>, Option<(u64, u64)>)> {
        match self.state {
            State::Object { ptr } => object_visit(self.seen@, ptr),
            State::Jobs { ptr, head, search } => search@.chain(
                with_list(self.seen@, ptr, head@),
            ),
            State::Interval { ptr, head, off, i, best } => intervals(
                head@,
                off,
                i as nat,
                best,
            ).chain(with_interval(self.seen@, ptr)),
            _ => Script::End((self.seen@, None)),
        }
    }

    #[verifier::type_invariant]
    spec fn inv(&self) -> bool {
        match self.state {
            State::Scan => self.cursor.stop() is Chunk,
            State::Object { ptr } => self.cursor.stop() is Word,
            State::Jobs { ptr, head, search } => {
                &&& self.cursor.stop() is Word
                &&& head@.len() == HEAD
                &&& search.object() == head@
                &&& search@ is Ask
            },
            State::Interval { ptr, head, off, i, best } => {
                &&& self.cursor.stop() is Word
                &&& head@.len() == HEAD
                &&& 8 * i < off
                &&& off + 16 < HEAD
            },
            State::End(_) => true,
        }
    }

    /// Looks for the scheduler of a process with these regions, through this image.
    pub fn scheduler(image: &[Region], heap: Vec<Region>) -> (search: SchedulerSearch)
        ensures
            search@ == looking(image@, heap@),
    {
        broadcast use vstd::std_specs::hash::group_hash_axioms;

        let regions = find_data_regions(image);
        let cursor = Cursor::new::<Set<u64>, (u64, u64)>(regions);
        let seen: HashSet<u64> = HashSet::new();
        assert(seen@ =~= Set::<u64>::empty());
        SchedulerSearch::go_on(heap, cursor, seen)
    }

    fn go_on(heap: Vec<Region>, from: Cursor, known: HashSet<u64>) -> (search: SchedulerSearch)
        ensures
            search@ == from.rest(word_visit(heap@), known@).chain(outcome()),
    {
        broadcast use vstd::std_specs::hash::group_hash_axioms;

        let ghost visit = word_visit(heap@);
        let mut cursor = from;
        let mut seen = known;
        loop
            invariant
                visit == word_visit(heap@),
                cursor.rest(visit, seen@) == from.rest(visit, known@),
            decreases cursor.left(),
        {
            proof {
                cursor.lemma_at_word(visit, seen@);
            }
            match cursor.at() {
                Stop::Word { addr: _, word } => {
                    let ghost before = seen@;
                    let new: bool = seen.insert(word);
                    if new && region::inside(&heap, word, HEAD) {
                        return SchedulerSearch {
                            heap,
                            cursor,
                            seen,
                            state: State::Object { ptr: word },
                        };
                    }
                    assert(seen@ =~= before.insert(word));
                    cursor = cursor.pass::<Set<u64>, (u64, u64)>();
                },
                Stop::Chunk { .. } => {
                    return SchedulerSearch { heap, cursor, seen, state: State::Scan };
                },
                Stop::End => {
                    return SchedulerSearch {
                        heap,
                        cursor,
                        seen,
                        state: State::End(Err(Error::SchedulerNotFound)),
                    };
                },
            }
        }
    }

    /// The question that the search stands at, and what an answer to it comes to.
    proof fn lemma_asks(&self, a: Reply)
        requires
            self.inv(),
        ensures
            match self.state {
                State::Scan => {
                    &&& self@.question() == self.cursor.rest(
                        word_visit(self.heap@),
                        self.seen@,
                    ).question()
                    &&& self@.answered(a) == self.cursor.rest(
                        word_visit(self.heap@),
                        self.seen@,
                    ).answered(a).chain(outcome())
                },
                State::End(_) => true,
                _ => {
                    &&& self.visit() is Ask
                    &&& self@.question() == self.visit().question()
                    &&& self@.answered(a) == self.cursor.pending(
                        word_visit(self.heap@),
                        self.visit().answered(a),
                    ).chain(outcome())
                },
            },
    {
        let visit = word_visit(self.heap@);
        match self.state {
            State::Scan => {
                self.cursor.lemma_at_word(visit, self.seen@);
                script::lemma_chain_ask(self.cursor.rest(visit, self.seen@), outcome(), a);
            },
            State::End(_) => {},
            _ => {
                match self.state {
                    State::Jobs { ptr, head, search } => script::lemma_chain_ask(
                        search@,
                        with_list(self.seen@, ptr, head@),
                        a,
                    ),
                    State::Interval { ptr, head, off, i, best } => script::lemma_chain_ask(
                        intervals(head@, off, i as nat, best),
                        with_interval(self.seen@, ptr),
                        a,
                    ),
                    _ => {},
                }
                self.cursor.lemma_pending(visit, self.visit(), a);
                script::lemma_chain_ask(self.cursor.pending(visit, self.visit()), outcome(), a);
            },
        }
    }

    /// What to ask next; nothing once the search is over.
    pub fn query(&self) -> (query: Option<Query>)
        ensures
            query == self@.question(),
    {
        proof {
            use_type_invariant(self);
            self.lemma_asks(Reply::Done);
            self.cursor.lemma_at_word(word_visit(self.heap@), self.seen@);
        }
        match &self.state {
            State::Scan => match self.cursor.at() {
                Stop::Chunk { addr, len } => Some(Query::Read { addr, len }),
                _ => None,
            },
            State::Object { ptr } => Some(Query::Read { addr: *ptr, len: HEAD }),
            State::Jobs { ptr, head, search } => {
                proof {
                    script::lemma_chain_ask(
                        search@,
                        with_list(self.seen@, *ptr, head@),
                        Reply::Done,
                    );
                }
                search.query()
            },
            State::Interval { ptr, head, off, i, best } => {
                proof {
                    script::lemma_chain_ask(
                        intervals(head@, *off, *i as nat, *best),
                        with_interval(self.seen@, *ptr),
                        Reply::Done,
                    );
                }
                Some(Query::IsInterval { bits: bytes::read_u64(head, 8 * (*i as usize)) })
            },
            State::End(_) => None,
        }
    }

    /// Takes the answer to what `query` asks.
    pub fn answer(self, answer: Answer) -> (search: SchedulerSearch)
        ensures
            search@ == self@.answered(answer@),
    {
        proof {
            use_type_invariant(&self);
            self.lemma_asks(answer@);
        }
        let heap = self.heap;
        let cursor = self.cursor;
        let seen = self.seen;
        match self.state {
            State::Scan => {
                let cursor = cursor.load::<Set<u64>, (u64, u64)>(answer);
                SchedulerSearch::go_on(heap, cursor, seen)
            },
            State::Object { ptr } => match answer.bytes(HEAD) {
                Ok(head) => {
                    let search = JobSearch::jobs(bytes::copy(&head, 0, head.len()));
                    assert(head@.subrange(0, head@.len() as int) =~= head@);
                    SchedulerSearch::with_search(heap, cursor, seen, ptr, head, search)
                },
                Err(_) => SchedulerSearch::passed(heap, cursor, seen),
            },
            State::Jobs { ptr, head, search } => {
                proof {
                    script::lemma_chain_ask(
                        search@,
                        with_list(seen@, ptr, head@),
                        answer@,
                    );
                }
                let search = search.answer(answer);
                SchedulerSearch::with_search(heap, cursor, seen, ptr, head, search)
            },
            State::Interval { ptr, head, off, i, best } => {
                proof {
                    script::lemma_chain_ask(
                        intervals(head@, off, i as nat, best),
                        with_interval(seen@, ptr),
                        answer@,
                    );
                }
                let best = if answer.flag() {
                    Some(8 * i)
                } else {
                    best
                };
                SchedulerSearch::with_best(heap, cursor, seen, ptr, head, off, i + 1, best)
            },
            State::End(result) => SchedulerSearch {
                heap,
                cursor,
                seen,
                state: State::End(result),
            },
        }
    }

    fn passed(heap: Vec<Region>, cursor: Cursor, seen: HashSet<u64>) -> (search: SchedulerSearch)
        requires
            cursor.stop() is Word,
        ensures
            search@ == cursor.pending(word_visit(heap@), Script::End((seen@, None))).chain(
                outcome(),
            ),
    {
        let cursor = cursor.pass::<Set<u64>, (u64, u64)>();
        SchedulerSearch::go_on(heap, cursor, seen)
    }

    fn with_search(
        heap: Vec<Region>,
        cursor: Cursor,
        seen: HashSet<u64>,
        ptr: u64,
        head: Vec<u8>,
        search: JobSearch,
    ) -> (next: SchedulerSearch)
        requires
            cursor.stop() is Word,
            head@.len() == HEAD,
            search.object() == head@,
        ensures
            next@ == cursor.pending(
                word_visit(heap@),
                search@.chain(with_list(seen@, ptr, head@)),
            ).chain(outcome()),
    {
        if search.query().is_some() {
            return SchedulerSearch {
                heap,
                cursor,
                seen,
                state: State::Jobs { ptr, head, search },
            };
        }
        match search.position() {
            Some(off) => SchedulerSearch::with_best(heap, cursor, seen, ptr, head, off, 0, None),
            None => SchedulerSearch::passed(heap, cursor, seen),
        }
    }

    fn with_best(
        heap: Vec<Region>,
        cursor: Cursor,
        seen: HashSet<u64>,
        ptr: u64,
        head: Vec<u8>,
        off: u64,
        i: u64,
        best: Option<u64>,
    ) -> (next: SchedulerSearch)
        requires
            cursor.stop() is Word,
            head@.len() == HEAD,
            off + 16 < HEAD,
            i <= HEAD,
        ensures
            next@ == cursor.pending(
                word_visit(heap@),
                intervals(head@, off, i as nat, best).chain(with_interval(seen@, ptr)),
            ).chain(outcome()),
    {
        if 8 * i < off {
            return SchedulerSearch {
                heap,
                cursor,
                seen,
                state: State::Interval { ptr, head, off, i, best },
            };
        }
        match best {
            Some(place) => {
                proof {
                    cursor.lemma_pending(
                        word_visit(heap@),
                        Script::End((seen@, Some((ptr, place)))),
                        Reply::Done,
                    );
                }
                SchedulerSearch { heap, cursor, seen, state: State::End(Ok((ptr, place))) }
            },
            None => SchedulerSearch::passed(heap, cursor, seen),
        }
    }

    /// The scheduler and the place of its interval, once there is nothing more to ask.
    pub fn found(&self) -> (found: Result<(u64, u64), Error>)
        ensures
            self@ matches Script::End(result) ==> found == result,
    {
        proof {
            use_type_invariant(self);
            self.lemma_asks(Reply::Done);
            self.cursor.lemma_at_word(word_visit(self.heap@), self.seen@);
        }
        match &self.state {
            State::End(result) => *result,
            _ => Err(Error::SchedulerNotFound),
        }
    }
}

/// The word at `off` of an object is a frame interval, in a world that does not change.
pub open spec fn interval_in(world: spec_fn(Query) -> Reply, head: Seq<u8>, off: int) -> bool {
    world(Query::IsInterval { bits: bytes::le_u64(head, off) }).flag()
}

/// The place of the last frame interval among the first `n` words of an object.
pub open spec fn last_interval_in(world: spec_fn(Query) -> Reply, head: Seq<u8>, n: nat) -> Option<
    u64,
>
    decreases n,
{
    if n == 0 {
        None
    } else if interval_in(world, head, 8 * (n - 1)) {
        Some((8 * (n - 1)) as u64)
    } else {
        last_interval_in(world, head, (n - 1) as nat)
    }
}

/// How many words begin before `off`.
pub open spec fn words_before(off: u64) -> nat {
    ((off + 7) / 8) as nat
}

/// The scheduler is at `ptr`, in a world that does not change: an object in the regions of the
/// process that can be read, with a job list, and with a frame interval before that list. The
/// last such interval is the scheduler's.
pub open spec fn scheduler_in(
    world: spec_fn(Query) -> Reply,
    heap: Seq<Region>,
    ptr: u64,
) -> Option<(u64, u64)> {
    if region::held(heap, ptr, HEAD) {
        match world(Query::Read { addr: ptr, len: HEAD }).bytes(HEAD) {
            Ok(head) => match jobs::looking(head).run(world) {
                Some(off) => match last_interval_in(world, head, words_before(off)) {
                    Some(place) => Some((ptr, place)),
                    None => None,
                },
                None => None,
            },
            Err(_) => None,
        }
    } else {
        None
    }
}

proof fn lemma_intervals_run(
    world: spec_fn(Query) -> Reply,
    head: Seq<u8>,
    off: u64,
    i: nat,
)
    requires
        i <= words_before(off),
    ensures
        intervals(head, off, i, last_interval_in(world, head, i)).run(world) == last_interval_in(
            world,
            head,
            words_before(off),
        ),
    decreases words_before(off) - i,
{
    if i < words_before(off) {
        let best = last_interval_in(world, head, i);
        assert(last_interval_in(world, head, i + 1) == if interval_in(world, head, 8 * i as int) {
            Some((8 * i) as u64)
        } else {
            best
        });
        lemma_intervals_run(world, head, off, i + 1);
    }
}

/// The last frame interval is one, and there is none after it.
pub proof fn last_interval_is_last(world: spec_fn(Query) -> Reply, head: Seq<u8>, n: nat)
    requires
        8 * n <= u64::MAX,
    ensures
        match last_interval_in(world, head, n) {
            Some(place) => {
                &&& place % 8 == 0
                &&& place < 8 * n
                &&& interval_in(world, head, place as int)
                &&& forall|o: int|
                    place < o < 8 * n && o % 8 == 0 ==> !#[trigger] interval_in(world, head, o)
            },
            None => forall|o: int|
                0 <= o < 8 * n && o % 8 == 0 ==> !#[trigger] interval_in(world, head, o),
        },
    decreases n,
{
    if n > 0 && !interval_in(world, head, 8 * (n - 1)) {
        last_interval_is_last(world, head, (n - 1) as nat);
    }
}

/// The object that is taken for the scheduler has a job list, and a frame interval before it
/// with no further one between the two.
pub proof fn schedulers_have_jobs_and_an_interval(
    world: spec_fn(Query) -> Reply,
    heap: Seq<Region>,
    ptr: u64,
)
    requires
        scheduler_in(world, heap, ptr) is Some,
    ensures
        ({
            let (found, place) = scheduler_in(world, heap, ptr)->0;
            let head = world(Query::Read { addr: ptr, len: HEAD }).bytes(HEAD)->Ok_0;
            &&& found == ptr
            &&& region::held(heap, ptr, HEAD)
            &&& place % 8 == 0
            &&& interval_in(world, head, place as int)
            &&& exists|off: int| #[trigger]
                jobs::job_list_in(world, head, off) && place < off && off + 16 < HEAD
                    && forall|o: int|
                    place < o < off && o % 8 == 0 ==> !#[trigger] interval_in(world, head, o)
        }),
{
    let head = world(Query::Read { addr: ptr, len: HEAD }).bytes(HEAD)->Ok_0;
    let off = jobs::looking(head).run(world)->0;
    jobs::looking_gives_the_first_list(world, head);
    last_interval_is_last(world, head, words_before(off));
    assert(8 * words_before(off) == off);
    assert(jobs::job_list_in(world, head, off as int));
}

proof fn lemma_object_run(
    world: spec_fn(Query) -> Reply,
    heap: Seq<Region>,
    seen: Set<u64>,
    ptr: u64,
)
    requires
        region::held(heap, ptr, HEAD),
    ensures
        object_visit(seen, ptr).run(world) == (seen, scheduler_in(world, heap, ptr)),
{
    let reply = world(Query::Read { addr: ptr, len: HEAD });
    reveal_with_fuel(Script::run, 2);
    if let Ok(head) = reply.bytes(HEAD) {
        let search = jobs::looking(head);
        script::lemma_run_chain(search, with_list(seen, ptr, head), world);
        if let Some(off) = search.run(world) {
            lemma_intervals_run(world, head, off, 0);
            script::lemma_run_chain(
                intervals(head, off, 0, None),
                with_interval(seen, ptr),
                world,
            );
        }
        assert(object_visit(seen, ptr).run(world) == search.chain(
            with_list(seen, ptr, head),
        ).run(world));
    }
}

/// In a world that does not change, the search gives the first object that a word of the image
/// points to and that is a scheduler; there, the place of its last frame interval before the
/// job list. That words are not followed twice makes no difference.
pub proof fn looking_gives_the_first_scheduler(
    world: spec_fn(Query) -> Reply,
    image: Seq<Region>,
    heap: Seq<Region>,
)
    ensures
        looking(image, heap).run(world) == match scan::first_of(
            scan::words_in(world, data_regions(image), 0),
            |addr: u64, ptr: u64| scheduler_in(world, heap, ptr),
        ) {
            Some(found) => Ok::<(u64, u64), Error>(found),
            None => Err(Error::SchedulerNotFound),
        },
{
    let regions = data_regions(image);
    let visit = word_visit(heap);
    let found = |addr: u64, ptr: u64| scheduler_in(world, heap, ptr);
    let inv = |seen: Set<u64>|
        forall|p: u64| #[trigger] seen.contains(p) ==> scheduler_in(world, heap, p) is None;
    assert forall|addr: u64, ptr: u64, seen: Set<u64>|
        #![trigger visit(addr, ptr, seen)]
        inv(seen) implies {
        let r = visit(addr, ptr, seen).run(world);
        r.1 == found(addr, ptr) && (r.1 is None ==> inv(r.0))
    } by {
        if !seen.contains(ptr) && region::held(heap, ptr, HEAD) {
            lemma_object_run(world, heap, seen.insert(ptr), ptr);
        }
    }
    scan::scanning_gives_the_first(world, regions, visit, Set::<u64>::empty(), inv, found);
    script::lemma_run_chain(
        scan::scanning(regions, visit, Set::<u64>::empty()),
        outcome(),
        world,
    );
}

/// An object in the regions of the process, with a place in its first bytes that a word can
/// stand at, or nothing.
pub open spec fn in_heap(heap: Seq<Region>) -> spec_fn(Result<(u64, u64), Error>) -> bool {
    |r: Result<(u64, u64), Error>|
        match r {
            Ok((ptr, place)) => region::held(heap, ptr, HEAD) && place % 8 == 0 && place + 16
                < HEAD,
            Err(e) => e == Error::SchedulerNotFound,
        }
}

proof fn lemma_intervals_place(head: Seq<u8>, off: u64, i: nat, best: Option<u64>)
    requires
        off + 16 < HEAD,
        jobs::in_object(HEAD as nat)(best),
    ensures
        script::always(intervals(head, off, i, best), jobs::in_object(HEAD as nat)),
    decreases off + 8 - 8 * i,
{
    let good = jobs::in_object(HEAD as nat);
    if 8 * i < off {
        let p = intervals(head, off, i, best);
        assert forall|a: Reply| script::always(#[trigger] p.answered(a), good) by {
            lemma_intervals_place(
                head,
                off,
                i + 1,
                if a.flag() {
                    Some((8 * i) as u64)
                } else {
                    best
                },
            );
        }
        script::lemma_always_ask(p, good);
    }
}

/// Whatever the answers are, the search gives an object in the regions of the process and a
/// place in its first bytes, or the error that there is none.
pub proof fn schedulers_lie_in_the_heap(image: Seq<Region>, heap: Seq<Region>)
    ensures
        script::always(looking(image, heap), in_heap(heap)),
{
    let visit = word_visit(heap);
    let good = |r: (Set<u64>, Option<(u64, u64)>)|
        r.1 matches Some(found) ==> in_heap(heap)(Ok(found));
    let place = jobs::in_object(HEAD as nat);
    assert forall|addr: u64, ptr: u64, seen: Set<u64>| script::always(
        #[trigger] visit(addr, ptr, seen),
        good,
    ) by {
        if !seen.contains(ptr) && region::held(heap, ptr, HEAD) {
            let now = seen.insert(ptr);
            let p = object_visit(now, ptr);
            assert forall|a: Reply| script::always(#[trigger] p.answered(a), good) by {
                if let Ok(head) = a.bytes(HEAD) {
                    let f = with_list(now, ptr, head);
                    jobs::lists_lie_in_the_object(head);
                    assert forall|list: Option<u64>| #[trigger] place(
                        list,
                    ) implies script::always(f(list), good) by {
                        if let Some(off) = list {
                            lemma_intervals_place(head, off, 0, None);
                            script::lemma_always_chain(
                                intervals(head, off, 0, None),
                                with_interval(now, ptr),
                                place,
                                good,
                            );
                        }
                    }
                    script::lemma_always_chain(jobs::looking(head), f, place, good);
                }
            }
            script::lemma_always_ask(p, good);
        }
    }
    let all = scan::scanning(data_regions(image), visit, Set::<u64>::empty());
    scan::scanning_finds_good(data_regions(image), visit, Set::<u64>::empty(), good);
    script::lemma_always_chain(all, outcome(), good, in_heap(heap));
}

proof fn lemma_intervals_harmless(head: Seq<u8>, off: u64, i: nat, best: Option<u64>)
    ensures
        script::only_asks(intervals(head, off, i, best), memory::harmless()),
    decreases off + 8 - 8 * i,
{
    let ok = memory::harmless();
    let p = intervals(head, off, i, best);
    if 8 * i < off {
        assert forall|a: Reply| script::only_asks(#[trigger] p.answered(a), ok) by {
            lemma_intervals_harmless(head, off, i + 1, best);
            lemma_intervals_harmless(head, off, i + 1, Some((8 * i) as u64));
        }
        script::lemma_only_ask(p, ok);
    }
}

proof fn lemma_object_harmless(seen: Set<u64>, ptr: u64)
    ensures
        script::only_asks(object_visit(seen, ptr), memory::harmless()),
{
    let ok = memory::harmless();
    let p = object_visit(seen, ptr);
    assert forall|a: Reply| script::only_asks(#[trigger] p.answered(a), ok) by {
        if let Ok(head) = a.bytes(HEAD) {
            let f = with_list(seen, ptr, head);
            assert forall|list: Option<u64>| script::only_asks(#[trigger] f(list), ok) by {
                if let Some(off) = list {
                    let g = with_interval(seen, ptr);
                    assert forall|place: Option<u64>| script::only_asks(
                        #[trigger] g(place),
                        ok,
                    ) by {}
                    lemma_intervals_harmless(head, off, 0, None);
                    script::lemma_only_chain(intervals(head, off, 0, None), g, ok);
                }
            }
            jobs::looking_is_harmless(head);
            script::lemma_only_chain(jobs::looking(head), f, ok);
        }
    }
    script::lemma_only_ask(p, ok);
}

/// Looking for the scheduler writes nothing.
pub proof fn looking_is_harmless(image: Seq<Region>, heap: Seq<Region>)
    ensures
        script::only_asks(looking(image, heap), memory::harmless()),
{
    let ok = memory::harmless();
    let visit = word_visit(heap);
    assert forall|addr: u64, ptr: u64, seen: Set<u64>| script::only_asks(
        #[trigger] visit(addr, ptr, seen),
        ok,
    ) by {
        lemma_object_harmless(seen.insert(ptr), ptr);
    }
    let all = scan::scanning(data_regions(image), visit, Set::<u64>::empty());
    scan::scanning_is_harmless(data_regions(image), visit, Set::<u64>::empty());
    let f = outcome();
    assert forall|r: (Set<u64>, Option<(u64, u64)>)| script::only_asks(#[trigger] f(r), ok) by {}
    script::lemma_only_chain(all, f, ok);
}

/// The word at `place` of an object is a frame interval.
pub open spec fn interval_at(world: spec_fn(Query) -> Reply, head: Seq<u8>, place: int) -> bool {
    world(Query::IsInterval { bits: bytes::le_u64(head, place) }) == Reply::Flag(true)
}

/// The scheduler is at `ptr`, with its interval at `place`: word `i` of region `k` of the image,
/// which can be read and not executed, is `ptr`; 512 bytes are held there and can be read; they
/// have a list of jobs; and `place` is the last multiple of eight before the first such list at
/// which a frame interval stands.
pub open spec fn scheduler_at(
    world: spec_fn(Query) -> Reply,
    image: Seq<Region>,
    heap: Seq<Region>,
    k: int,
    i: int,
    ptr: u64,
    place: u64,
) -> bool {
    &&& 0 <= k < image.len()
    &&& image[k].prot % 2 == 1
    &&& image[k].prot % 8 < 4
    &&& scan::word_at(world, image[k], i) == Some(ptr)
    &&& region::held(heap, ptr, 512)
    &&& world(Query::Read { addr: ptr, len: 512 }).bytes(512) matches Ok(head)
    &&& jobs::looking(head).run(world) matches Some(list)
    &&& place % 8 == 0
    &&& place < list
    &&& interval_at(world, head, place as int)
    &&& forall|o: int| place < o < list && o % 8 == 0 ==> !#[trigger] interval_at(world, head, o)
}

/// Word `i` of region `k` of the image leads to no scheduler.
pub open spec fn no_scheduler_at(
    world: spec_fn(Query) -> Reply,
    image: Seq<Region>,
    heap: Seq<Region>,
    k: int,
    i: int,
) -> bool {
    forall|ptr: u64, place: u64| !#[trigger] scheduler_at(world, image, heap, k, i, ptr, place)
}

/// The first scheduler that the image leads to, in the order of its regions and of their words.
pub open spec fn first_scheduler_at(
    world: spec_fn(Query) -> Reply,
    image: Seq<Region>,
    heap: Seq<Region>,
    k: int,
    i: int,
    ptr: u64,
    place: u64,
) -> bool {
    &&& scheduler_at(world, image, heap, k, i, ptr, place)
    &&& forall|k2: int, i2: int|
        scan::earlier(k2, i2, k, i) ==> #[trigger] no_scheduler_at(world, image, heap, k2, i2)
}

proof fn lemma_scheduler_at(
    world: spec_fn(Query) -> Reply,
    image: Seq<Region>,
    heap: Seq<Region>,
    k: int,
    i: int,
)
    ensures
        ({
            let found = scan::found_in(
                world,
                image,
                |r: Region| region::readable(r.prot) && !region::executable(r.prot),
                |addr: u64, ptr: u64| scheduler_in(world, heap, ptr),
                k,
                i,
            );
            &&& forall|ptr: u64, place: u64| #[trigger]
                scheduler_at(world, image, heap, k, i, ptr, place) == (found == Some((ptr, place)))
            &&& no_scheduler_at(world, image, heap, k, i) == (found is None)
        }),
{
    let found = scan::found_in(
        world,
        image,
        |r: Region| region::readable(r.prot) && !region::executable(r.prot),
        |addr: u64, ptr: u64| scheduler_in(world, heap, ptr),
        k,
        i,
    );
    assert forall|ptr: u64, place: u64| #[trigger]
        scheduler_at(world, image, heap, k, i, ptr, place) == (found == Some((ptr, place))) by {
        if 0 <= k < image.len() {
            region::protection_is_bit_by_bit(image[k].prot);
            if let Some(word) = scan::word_at(world, image[k], i) {
                if let Ok(head) = world(Query::Read { addr: word, len: 512 }).bytes(512) {
                    if let Some(list) = jobs::looking(head).run(world) {
                        jobs::looking_gives_the_first_list(world, head);
                        assert(8 * words_before(list) == list);
                        last_interval_is_last(world, head, words_before(list));
                        assert forall|o: int| #[trigger] interval_at(world, head, o) == interval_in(
                            world,
                            head,
                            o,
                        ) by {}
                        if let Some(last) = last_interval_in(world, head, words_before(list)) {
                            assert(interval_at(world, head, last as int));
                            assert(interval_in(world, head, place as int) == interval_at(
                                world,
                                head,
                                place as int,
                            ));
                            assert forall|o: int| last < o < list && o % 8 == 0 implies
                                !#[trigger] interval_at(world, head, o) by {
                                assert(!interval_in(world, head, o));
                            }
                        } else if place < list && place % 8 == 0 {
                            assert(!interval_in(world, head, place as int));
                        }
                    }
                }
            }
        }
    }
    if let Some((ptr, place)) = found {
        assert(scheduler_at(world, image, heap, k, i, ptr, place));
    }
}

/// In a world that does not change, the search gives the first scheduler that the image leads to,
/// in the order of its regions and of their words, and the error that there is none exactly where
/// there is none.
pub proof fn the_first_scheduler_is_found(
    world: spec_fn(Query) -> Reply,
    image: Seq<Region>,
    heap: Seq<Region>,
)
    ensures
        match looking(image, heap).run(world) {
            Ok((ptr, place)) => exists|k: int, i: int| #[trigger]
                first_scheduler_at(world, image, heap, k, i, ptr, place),
            Err(e) => e == Error::SchedulerNotFound && forall|k: int, i: int| #[trigger]
                no_scheduler_at(world, image, heap, k, i),
        },
{
    let wanted = |r: Region| region::readable(r.prot) && !region::executable(r.prot);
    let found = |addr: u64, ptr: u64| scheduler_in(world, heap, ptr);
    looking_gives_the_first_scheduler(world, image, heap);
    scan::what_is_found_first_comes_first(world, image, wanted, found);
    match looking(image, heap).run(world) {
        Ok((ptr, place)) => {
            let (k, i) = choose|k: int, i: int| #[trigger]
                scan::found_in(world, image, wanted, found, k, i) == Some((ptr, place)) && forall|
                    k2: int,
                    i2: int,
                |
                    scan::earlier(k2, i2, k, i) ==> #[trigger] scan::found_in(
                        world,
                        image,
                        wanted,
                        found,
                        k2,
                        i2,
                    ) is None;
            lemma_scheduler_at(world, image, heap, k, i);
            assert forall|k2: int, i2: int| scan::earlier(k2, i2, k, i) implies #[trigger]
                no_scheduler_at(world, image, heap, k2, i2) by {
                lemma_scheduler_at(world, image, heap, k2, i2);
                assert(scan::found_in(world, image, wanted, found, k2, i2) is None);
            }
            assert(first_scheduler_at(world, image, heap, k, i, ptr, place));
        },
        Err(e) => {
            assert forall|k: int, i: int| #[trigger] no_scheduler_at(world, image, heap, k, i) by {
                lemma_scheduler_at(world, image, heap, k, i);
                assert(scan::found_in(world, image, wanted, found, k, i) is None);
            }
        },
    }
}

/// What was looked at, or was not held, is not looked at: nothing is asked. What is looked at
/// counts as such from then on, whatever comes of it.
pub proof fn nothing_is_looked_at_twice(heap: Seq<Region>, addr: u64, ptr: u64, seen: Set<u64>)
    ensures
        seen.contains(ptr) || !region::held(heap, ptr, 512) ==> word_visit(heap)(addr, ptr, seen)
            == Script::<Query, Reply, _>::End((seen.insert(ptr), None::<(u64, u64)>)),
        !seen.contains(ptr) && region::held(heap, ptr, 512) ==> word_visit(heap)(
            addr,
            ptr,
            seen,
        ).question() == Some(Query::Read { addr: ptr, len: 512 }),
        script::always(
            word_visit(heap)(addr, ptr, seen),
            |r: (Set<u64>, Option<(u64, u64)>)| r.0 == seen.insert(ptr),
        ),
{
    let now = seen.insert(ptr);
    let good = |r: (Set<u64>, Option<(u64, u64)>)| r.0 == seen.insert(ptr);
    if !seen.contains(ptr) && region::held(heap, ptr, HEAD) {
        let p = object_visit(now, ptr);
        assert forall|a: Reply| script::always(#[trigger] p.answered(a), good) by {
            if let Ok(head) = a.bytes(HEAD) {
                let f = with_list(now, ptr, head);
                assert forall|list: Option<u64>| script::always(#[trigger] f(list), good) by {
                    if let Some(off) = list {
                        let g = with_interval(now, ptr);
                        assert forall|place: Option<u64>| script::always(
                            #[trigger] g(place),
                            good,
                        ) by {}
                        script::lemma_always_after(intervals(head, off, 0, None), g, good);
                    }
                }
                script::lemma_always_after(jobs::looking(head), f, good);
            }
        }
        script::lemma_always_ask(p, good);
    }
}

} // verus!
