//! Looking for a list of jobs in the first bytes of an object.
use vstd::prelude::*;
use vstd::string::StringSliceAdditionalSpecFns;

use crate::bytes;
use crate::memory;
use crate::memory::{Answer, Query, Reply, Search};
use crate::name;
use crate::name::NameReader;
use crate::region;
use crate::script;
use crate::script::Script;

verus! {

/// How many bytes an entry of a job list has: the job and its reference count block.
pub const ENTRY: u64 = 16;

/// How many places for the name of a job are tried, eight bytes apart.
pub const NAME_PLACES: u64 = 16;

/// `begin` and `end` could bound a list of 20 to 299 entries.
pub open spec fn list_like(begin: u64, end: u64) -> bool {
    &&& region::pointer_like(begin)
    &&& begin < end
    &&& end - begin <= 0x10000
    &&& (end - begin) % 16 == 0
    &&& 20 <= (end - begin) / 16 < 300
}

/// The first words of the entries of a list.
pub open spec fn entries(list: Seq<u8>) -> Seq<u64> {
    Seq::new(list.len() / 16, |i: int| bytes::le_u64(list, 16 * i))
}

/// The entries of a list that look like pointers.
pub open spec fn jobs_of(list: Seq<u8>) -> Seq<u64> {
    entries(list).filter(|p: u64| region::pointer_like(p))
}

/// Nine tenths of the entries of a list look like pointers.
pub open spec fn mostly_pointers(list: Seq<u8>) -> bool {
    jobs_of(list).len() * 10 >= (list.len() / 16) * 9
}

/// `name` is what the scheduler might call one of its jobs.
pub open spec fn jobish(name: Seq<u8>) -> bool {
    ||| bytes::occurs(name, "Job".spec_bytes())
    ||| bytes::occurs(name, "Task".spec_bytes())
    ||| bytes::occurs(name, "Render".spec_bytes())
    ||| bytes::occurs(name, "Physics".spec_bytes())
    ||| bytes::occurs(name, "Heartbeat".spec_bytes())
    ||| bytes::occurs(name, "Replicat".spec_bytes())
}

/// Enough of `n` entries have a name, and enough of the names are those of jobs.
pub open spec fn well_named(n: nat, named: nat, jobish: nat) -> bool {
    named * 10 >= n * 7 && jobish >= 5
}

/// How many positions of an object of `len` bytes can hold the bounds of a list.
pub open spec fn positions(len: nat) -> nat {
    if len <= 16 {
        0
    } else {
        ((len - 16 + 7) / 8) as nat
    }
}

/// How a count goes on once the name of job `i` has been looked up.
pub open spec fn counted(
    jobs: Seq<u64>,
    place: u64,
    i: nat,
    named: nat,
    jobs_named: nat,
) -> spec_fn(Option<Seq<u8>>) -> Search<(nat, nat)>
    decreases jobs.len() - i, 0nat,
{
    |found: Option<Seq<u8>>|
        if i >= jobs.len() {
            Script::End((named, jobs_named))
        } else {
            match found {
                Some(s) => count(
                    jobs,
                    place,
                    i + 1,
                    named + 1,
                    if jobish(s) {
                        jobs_named + 1
                    } else {
                        jobs_named
                    },
                ),
                None => count(jobs, place, i + 1, named, jobs_named),
            }
        }
}

/// Counts the jobs from `i` on that have a name `place` bytes into them, and those among them
/// whose name is that of a job.
pub open spec fn count(jobs: Seq<u64>, place: u64, i: nat, named: nat, jobs_named: nat) -> Search<
    (nat, nat),
>
    decreases jobs.len() - i, 1nat,
{
    if i >= jobs.len() {
        Script::End((named, jobs_named))
    } else {
        name::reading(region::offset(jobs[i as int], place as int)).chain(
            counted(jobs, place, i, named, jobs_named),
        )
    }
}

/// What the counts say of one place for the names.
pub open spec fn judged(n: nat) -> spec_fn((nat, nat)) -> Search<((), Option<()>)> {
    |c: (nat, nat)|
        Script::End(
            (
                (),
                if well_named(n, c.0, c.1) {
                    Some(())
                } else {
                    None
                },
            ),
        )
}

/// Tries the places for the names of the jobs, one after the other.
pub open spec fn name_visit(n: nat, jobs: Seq<u64>) -> spec_fn(nat, ()) -> Search<
    ((), Option<()>),
> {
    |m: nat, s: ()| count(jobs, (8 * m) as u64, 0, 0, 0).chain(judged(n))
}

/// Gives the position of the list where a place for the names was found.
pub open spec fn located(k: nat) -> spec_fn(((), Option<()>)) -> Search<((), Option<u64>)> {
    |r: ((), Option<()>)|
        Script::End(
            (
                (),
                match r.1 {
                    Some(_) => Some((8 * k) as u64),
                    None => None,
                },
            ),
        )
}

/// What a list at position `k` comes to once it has been read.
pub open spec fn listed(k: nat, reply: Reply, len: u64) -> Search<((), Option<u64>)> {
    match reply.bytes(len) {
        Ok(list) => if mostly_pointers(list) {
            script::search(
                NAME_PLACES as nat,
                name_visit(list.len() / 16, jobs_of(list)),
                0,
                (),
            ).chain(located(k))
        } else {
            Script::End(((), None))
        },
        Err(_) => Script::End(((), None)),
    }
}

/// Tries the bounds at position `k` of the object that begins with `head`.
pub open spec fn list_visit(head: Seq<u8>) -> spec_fn(nat, ()) -> Search<((), Option<u64>)> {
    |k: nat, s: ()|
        {
            let begin = bytes::le_u64(head, 8 * k as int);
            let end = bytes::le_u64(head, 8 * k as int + 8);
            let len = (end - begin) as u64;
            if list_like(begin, end) {
                Script::Ask(
                    Query::Read { addr: begin, len },
                    |reply: Reply| listed(k, reply, len),
                )
            } else {
                Script::End(((), None))
            }
        }
}

/// The result without what was remembered.
pub open spec fn outcome() -> spec_fn(((), Option<u64>)) -> Search<Option<u64>> {
    |r: ((), Option<u64>)| Script::End(r.1)
}

/// Looks for the first position at which the object that begins with `head` has a list of
/// jobs.
pub open spec fn looking(head: Seq<u8>) -> Search<Option<u64>> {
    script::search(positions(head.len()), list_visit(head), 0, ()).chain(outcome())
}

/// `inner` is the visit to position `k`; the search goes on after it.
spec fn at_list(head: Seq<u8>, k: nat, inner: Search<((), Option<u64>)>) -> Search<Option<u64>> {
    inner.chain(script::after(positions(head.len()), list_visit(head), k)).chain(outcome())
}

/// `inner` is the visit to place `m` for the names of the jobs of the list at position `k`.
spec fn at_place(
    head: Seq<u8>,
    k: nat,
    n: nat,
    jobs: Seq<u64>,
    m: nat,
    inner: Search<((), Option<()>)>,
) -> Search<Option<u64>> {
    at_list(
        head,
        k,
        inner.chain(script::after(NAME_PLACES as nat, name_visit(n, jobs), m)).chain(located(k)),
    )
}

/// `inner` reads the name of job `i` at place `m`.
spec fn at_job(
    head: Seq<u8>,
    k: nat,
    n: nat,
    jobs: Seq<u64>,
    m: nat,
    i: nat,
    named: nat,
    jobs_named: nat,
    inner: Search<Option<Seq<u8>>>,
) -> Search<Option<u64>> {
    at_place(
        head,
        k,
        n,
        jobs,
        m,
        inner.chain(counted(jobs, (8 * m) as u64, i, named, jobs_named)).chain(judged(n)),
    )
}

proof fn lemma_at_list(head: Seq<u8>, k: nat, inner: Search<((), Option<u64>)>, a: Reply)
    requires
        inner is Ask,
    ensures
        at_list(head, k, inner) is Ask,
        at_list(head, k, inner).question() == inner.question(),
        at_list(head, k, inner).answered(a) == at_list(head, k, inner.answered(a)),
{
    let f = script::after(positions(head.len()), list_visit(head), k);
    script::lemma_chain_ask(inner, f, a);
    script::lemma_chain_ask(inner.chain(f), outcome(), a);
}

proof fn lemma_at_job(
    head: Seq<u8>,
    k: nat,
    n: nat,
    jobs: Seq<u64>,
    m: nat,
    i: nat,
    named: nat,
    jobs_named: nat,
    inner: Search<Option<Seq<u8>>>,
    a: Reply,
)
    requires
        inner is Ask,
    ensures
        at_job(head, k, n, jobs, m, i, named, jobs_named, inner) is Ask,
        at_job(head, k, n, jobs, m, i, named, jobs_named, inner).question() == inner.question(),
        at_job(head, k, n, jobs, m, i, named, jobs_named, inner).answered(a) == at_job(
            head,
            k,
            n,
            jobs,
            m,
            i,
            named,
            jobs_named,
            inner.answered(a),
        ),
{
    let f1 = counted(jobs, (8 * m) as u64, i, named, jobs_named);
    let f3 = script::after(NAME_PLACES as nat, name_visit(n, jobs), m);
    script::lemma_chain_ask(inner, f1, a);
    script::lemma_chain_ask(inner.chain(f1), judged(n), a);
    script::lemma_chain_ask(inner.chain(f1).chain(judged(n)), f3, a);
    script::lemma_chain_ask(inner.chain(f1).chain(judged(n)).chain(f3), located(k), a);
    lemma_at_list(head, k, inner.chain(f1).chain(judged(n)).chain(f3).chain(located(k)), a);
}

/// Once there is no list at position `k`, the next position is tried.
proof fn lemma_list_passed(head: Seq<u8>, k: nat)
    requires
        k < positions(head.len()),
    ensures
        at_list(head, k, Script::End(((), None))) == script::search(
            positions(head.len()),
            list_visit(head),
            k + 1,
            (),
        ).chain(outcome()),
{
}

/// Once the name of job `i` has been read, the next job is counted.
proof fn lemma_job_read(
    head: Seq<u8>,
    k: nat,
    n: nat,
    jobs: Seq<u64>,
    m: nat,
    i: nat,
    named: nat,
    jobs_named: nat,
    found: Option<Seq<u8>>,
)
    requires
        i < jobs.len(),
    ensures
        at_job(head, k, n, jobs, m, i, named, jobs_named, Script::End(found)) == at_place(
            head,
            k,
            n,
            jobs,
            m,
            count(
                jobs,
                (8 * m) as u64,
                i + 1,
                if found is Some {
                    named + 1
                } else {
                    named
                },
                if found is Some && jobish(found->0) {
                    jobs_named + 1
                } else {
                    jobs_named
                },
            ).chain(judged(n)),
        ),
{
}

/// The pointers among the entries of a list.
fn find_jobs(list: &[u8]) -> (jobs: Vec<u64>)
    ensures
        jobs@ == jobs_of(list@),
        jobs@.len() <= list@.len() / 16,
{
    let mut jobs: Vec<u64> = Vec::new();
    let n: usize = list.len() / 16;
    let ghost like = |p: u64| region::pointer_like(p);
    let ghost all = entries(list@);
    let mut i: usize = 0;
    assert(all.take(0).filter(like) =~= Seq::empty()) by {
        reveal(Seq::filter);
    }
    while i < n
        invariant
            i <= n == list@.len() / 16,
            all == entries(list@),
            like == (|p: u64| region::pointer_like(p)),
            jobs@ == all.take(i as int).filter(like),
            jobs@.len() <= i,
        decreases n - i,
    {
        assert(16 * i + 16 <= list.len());
        let ptr: u64 = bytes::read_u64(list, 16 * i);
        proof {
            reveal(Seq::filter);
            assert(all.take(i + 1).drop_last() =~= all.take(i as int));
            assert(all.take(i + 1).last() == ptr);
        }
        if region::is_ptr(ptr) {
            jobs.push(ptr);
        }
        i += 1;
    }
    assert(all.take(n as int) =~= all);
    jobs
}

/// Whether `name` is what the scheduler might call one of its jobs.
pub fn is_jobish(name: &[u8]) -> (yes: bool)
    ensures
        yes == jobish(name@),
{
    bytes::contains(name, "Job".as_bytes()) || bytes::contains(name, "Task".as_bytes())
        || bytes::contains(name, "Render".as_bytes()) || bytes::contains(
        name,
        "Physics".as_bytes(),
    ) || bytes::contains(name, "Heartbeat".as_bytes()) || bytes::contains(
        name,
        "Replicat".as_bytes(),
    )
}

enum State {
    /// Reading the list whose bounds stand at a position.
    List { k: usize, begin: u64, len: u64 },
    /// Reading the name of a job.
    Name {
        k: usize,
        n: u64,
        jobs: Vec<u64>,
        m: u64,
        i: usize,
        named: u64,
        jobs_named: u64,
        reader: NameReader,
    },
    End(Option<u64>),
}

/// A search for a job list that is under way.
pub struct JobSearch {
    head: Vec<u8>,
    state: State,
}

impl View for JobSearch {
    type V = Search<Option<u64>>;

    closed spec fn view(&self) -> Search<Option<u64>> {
        match self.state {
            State::List { k, begin, len } => at_list(
                self.head@,
                k as nat,
                list_visit(self.head@)(k as nat, ()),
            ),
            State::Name { k, n, jobs, m, i, named, jobs_named, reader } => at_job(
                self.head@,
                k as nat,
                n as nat,
                jobs@,
                m as nat,
                i as nat,
                named as nat,
                jobs_named as nat,
                reader@,
            ),
            State::End(off) => Script::End(off),
        }
    }
}

impl JobSearch {
    #[verifier::type_invariant]
    spec fn inv(&self) -> bool {
        match self.state {
            State::List { k, begin, len } => {
                &&& k < positions(self.head@.len())
                &&& begin == bytes::le_u64(self.head@, 8 * k)
                &&& begin + len == bytes::le_u64(self.head@, 8 * k + 8)
                &&& list_like(begin, (begin + len) as u64)
            },
            State::Name { k, n, jobs, m, i, named, jobs_named, reader } => {
                &&& k < positions(self.head@.len())
                &&& n < 300
                &&& m < NAME_PLACES
                &&& i < jobs@.len() < 300
                &&& jobs_named <= named <= i
                &&& reader@ is Ask
            },
            State::End(off) => off matches Some(off) ==> off + 16 < self.head@.len(),
        }
    }

    /// The first bytes of the object that is searched.
    pub closed spec fn object(&self) -> Seq<u8> {
        self.head@
    }

    /// Looks for a list of jobs in the object that begins with `head`.
    pub fn jobs(head: Vec<u8>) -> (search: JobSearch)
        ensures
            search@ == looking(head@),
            search.object() == head@,
    {
        JobSearch::from_list(head, 0)
    }

    /// The question that the search stands at, and what an answer to it comes to.
    proof fn lemma_asks(&self, a: Reply)
        requires
            self.inv(),
        ensures
            match self.state {
                State::List { k, begin, len } => {
                    &&& self@.question() == Some(Query::Read { addr: begin, len })
                    &&& self@.answered(a) == at_list(
                        self.head@,
                        k as nat,
                        listed(k as nat, a, len),
                    )
                },
                State::Name { k, n, jobs, m, i, named, jobs_named, reader } => {
                    &&& self@.question() == reader@.question()
                    &&& self@.answered(a) == at_job(
                        self.head@,
                        k as nat,
                        n as nat,
                        jobs@,
                        m as nat,
                        i as nat,
                        named as nat,
                        jobs_named as nat,
                        reader@.answered(a),
                    )
                },
                State::End(off) => true,
            },
    {
        match self.state {
            State::List { k, begin, len } => {
                lemma_at_list(self.head@, k as nat, list_visit(self.head@)(k as nat, ()), a);
            },
            State::Name { k, n, jobs, m, i, named, jobs_named, reader } => {
                lemma_at_job(
                    self.head@,
                    k as nat,
                    n as nat,
                    jobs@,
                    m as nat,
                    i as nat,
                    named as nat,
                    jobs_named as nat,
                    reader@,
                    a,
                );
            },
            State::End(off) => {},
        }
    }

    /// What to ask next; nothing once the search is over.
    pub fn query(&self) -> (query: Option<Query>)
        ensures
            query == self@.question(),
    {
        proof {
            use_type_invariant(self);
            self.lemma_asks(Reply::Done);
        }
        match &self.state {
            State::List { begin, len, .. } => Some(Query::Read { addr: *begin, len: *len }),
            State::Name { reader, .. } => reader.query(),
            State::End(_) => None,
        }
    }

    /// Takes the answer to what `query` asks.
    pub fn answer(self, answer: Answer) -> (search: JobSearch)
        ensures
            search@ == self@.answered(answer@),
            search.object() == self.object(),
    {
        proof {
            use_type_invariant(&self);
            self.lemma_asks(answer@);
        }
        let head = self.head;
        match self.state {
            State::List { k, begin: _, len } => JobSearch::with_list(head, k, len, answer),
            State::Name { k, n, jobs, m, i, named, jobs_named, reader } => {
                let reader = reader.answer(answer);
                if reader.query().is_some() {
                    JobSearch {
                        head,
                        state: State::Name { k, n, jobs, m, i, named, jobs_named, reader },
                    }
                } else {
                    let found = reader.name();
                    JobSearch::with_name(head, k, n, jobs, m, i, named, jobs_named, found)
                }
            },
            State::End(off) => JobSearch { head, state: State::End(off) },
        }
    }

    fn with_list(head: Vec<u8>, k: usize, len: u64, answer: Answer) -> (search: JobSearch)
        requires
            k < positions(head@.len()),
            20 <= len / 16 < 300,
            len % 16 == 0,
        ensures
            search@ == at_list(head@, k as nat, listed(k as nat, answer@, len)),
            search.head@ == head@,
    {
        assert(8 * k + 16 < head.len());
        proof {
            lemma_list_passed(head@, k as nat);
        }
        match answer.bytes(len) {
            Ok(list) => {
                let n: u64 = len / 16;
                let jobs = find_jobs(&list);
                if (jobs.len() as u64) * 10 < n * 9 {
                    JobSearch::from_list(head, k + 1)
                } else {
                    JobSearch::from_place(head, k, n, jobs, 0)
                }
            },
            Err(_) => JobSearch::from_list(head, k + 1),
        }
    }

    fn with_name(
        head: Vec<u8>,
        k: usize,
        n: u64,
        jobs: Vec<u64>,
        m: u64,
        i: usize,
        named: u64,
        jobs_named: u64,
        found: Option<Vec<u8>>,
    ) -> (search: JobSearch)
        requires
            k < positions(head@.len()),
            n < 300,
            m < NAME_PLACES,
            i < jobs@.len() < 300,
            jobs_named <= named <= i,
        ensures
            search@ == at_job(
                head@,
                k as nat,
                n as nat,
                jobs@,
                m as nat,
                i as nat,
                named as nat,
                jobs_named as nat,
                Script::End(bytes::seen(found)),
            ),
            search.head@ == head@,
    {
        let mut now_named: u64 = named;
        let mut now_jobs: u64 = jobs_named;
        proof {
            lemma_job_read(
                head@,
                k as nat,
                n as nat,
                jobs@,
                m as nat,
                i as nat,
                named as nat,
                jobs_named as nat,
                bytes::seen(found),
            );
        }
        if let Some(s) = found {
            now_named = named + 1;
            if is_jobish(&s) {
                now_jobs = jobs_named + 1;
            }
        }
        JobSearch::from_job(head, k, n, jobs, m, i + 1, now_named, now_jobs)
    }

    fn from_list(head: Vec<u8>, from: usize) -> (search: JobSearch)
        requires
            from <= positions(head@.len()),
        ensures
            search@ == script::search(
                positions(head@.len()),
                list_visit(head@),
                from as nat,
                (),
            ).chain(outcome()),
            search.head@ == head@,
    {
        let mut k: usize = from;
        let len: usize = head.len();
        while len >= 16 && k < (len - 16 + 7) / 8
            invariant
                from <= k <= positions(head@.len()),
                len == head@.len(),
                script::search(positions(head@.len()), list_visit(head@), from as nat, ())
                    == script::search(positions(head@.len()), list_visit(head@), k as nat, ()),
            decreases len - k,
        {
            let at: usize = 8 * k;
            let begin: u64 = bytes::read_u64(&head, at);
            let end: u64 = bytes::read_u64(&head, at + 8);
            if region::is_ptr(begin) && begin < end && end - begin <= 0x10000 && (end - begin) % 16
                == 0 && 20 <= (end - begin) / 16 && (end - begin) / 16 < 300 {
                return JobSearch { head, state: State::List { k, begin, len: end - begin } };
            }
            assert(list_visit(head@)(k as nat, ()) == Script::<Query, Reply, _>::End(
                ((), None::<u64>),
            ));
            k += 1;
        }
        JobSearch { head, state: State::End(None) }
    }

    fn from_place(head: Vec<u8>, k: usize, n: u64, jobs: Vec<u64>, m: u64) -> (search: JobSearch)
        requires
            k < positions(head@.len()),
            n < 300,
            m <= NAME_PLACES,
            0 < jobs@.len() < 300,
        ensures
            search@ == at_list(
                head@,
                k as nat,
                script::search(NAME_PLACES as nat, name_visit(n as nat, jobs@), m as nat, ()).chain(
                    located(k as nat),
                ),
            ),
            search.head@ == head@,
        decreases NAME_PLACES - m, 1nat,
    {
        if m < NAME_PLACES {
            JobSearch::from_job(head, k, n, jobs, m, 0, 0, 0)
        } else {
            assert(8 * k + 16 < head.len());
            proof {
                lemma_list_passed(head@, k as nat);
            }
            JobSearch::from_list(head, k + 1)
        }
    }

    fn from_job(
        head: Vec<u8>,
        k: usize,
        n: u64,
        jobs: Vec<u64>,
        m: u64,
        i: usize,
        named: u64,
        jobs_named: u64,
    ) -> (search: JobSearch)
        requires
            k < positions(head@.len()),
            n < 300,
            m < NAME_PLACES,
            i <= jobs@.len(),
            0 < jobs@.len() < 300,
            jobs_named <= named <= i,
        ensures
            search@ == at_place(
                head@,
                k as nat,
                n as nat,
                jobs@,
                m as nat,
                count(
                    jobs@,
                    (8 * m) as u64,
                    i as nat,
                    named as nat,
                    jobs_named as nat,
                ).chain(judged(n as nat)),
            ),
            search.head@ == head@,
        decreases NAME_PLACES - m, 0nat,
    {
        if i < jobs.len() {
            let reader = NameReader::text(region::address(jobs[i], 8 * m));
            JobSearch {
                head,
                state: State::Name { k, n, jobs, m, i, named, jobs_named, reader },
            }
        } else if named * 10 >= n * 7 && jobs_named >= 5 {
            assert(8 * k + 16 < head.len());
            JobSearch { head, state: State::End(Some((8 * k) as u64)) }
        } else {
            JobSearch::from_place(head, k, n, jobs, m + 1)
        }
    }

    /// The position of the list, once there is nothing more to ask.
    pub fn position(&self) -> (off: Option<u64>)
        ensures
            self@ matches Script::End(result) ==> off == result,
            off matches Some(off) ==> off + 16 < self.object().len(),
    {
        proof {
            use_type_invariant(self);
            self.lemma_asks(Reply::Done);
        }
        match &self.state {
            State::End(off) => *off,
            _ => None,
        }
    }
}

/// The job at `job` has a name `place` bytes into it.
pub open spec fn named_in(world: spec_fn(Query) -> Reply, place: u64) -> spec_fn(u64) -> bool {
    |job: u64| name::name_in(world, region::offset(job, place as int)) is Some
}

/// The job at `job` has the name of a job `place` bytes into it.
pub open spec fn jobish_in(world: spec_fn(Query) -> Reply, place: u64) -> spec_fn(u64) -> bool {
    |job: u64|
        {
            let found = name::name_in(world, region::offset(job, place as int));
            found is Some && jobish(found->0)
        }
}

/// Enough jobs of a list of `n` entries have names `place` bytes into them.
pub open spec fn named_at(
    world: spec_fn(Query) -> Reply,
    n: nat,
    jobs: Seq<u64>,
    place: u64,
) -> bool {
    well_named(
        n,
        jobs.filter(named_in(world, place)).len(),
        jobs.filter(jobish_in(world, place)).len(),
    )
}

/// In a world that does not change, the bounds of a job list stand at `off` in `head`: a list
/// that can be read, most of whose entries are pointers, and most of these have names at one of
/// the places for them.
#[verifier::opaque]
pub open spec fn job_list_in(world: spec_fn(Query) -> Reply, head: Seq<u8>, off: int) -> bool {
    let begin = bytes::le_u64(head, off);
    let end = bytes::le_u64(head, off + 8);
    &&& list_like(begin, end)
    &&& name::read_in(world, begin, (end - begin) as u64) matches Some(list)
    &&& mostly_pointers(list)
    &&& exists|m: nat|
        m < NAME_PLACES && #[trigger] named_at(
            world,
            list.len() / 16,
            jobs_of(list),
            (8 * m) as u64,
        )
}

proof fn lemma_count_run(
    world: spec_fn(Query) -> Reply,
    jobs: Seq<u64>,
    place: u64,
    i: nat,
    named: nat,
    jobs_named: nat,
)
    requires
        i <= jobs.len(),
        named == jobs.take(i as int).filter(named_in(world, place)).len(),
        jobs_named == jobs.take(i as int).filter(jobish_in(world, place)).len(),
    ensures
        count(jobs, place, i, named, jobs_named).run(world) == (
            jobs.filter(named_in(world, place)).len(),
            jobs.filter(jobish_in(world, place)).len(),
        ),
    decreases jobs.len() - i,
{
    if i < jobs.len() {
        let at = region::offset(jobs[i as int], place as int);
        let found = name::name_in(world, at);
        name::reading_gives_the_name(world, at);
        script::lemma_run_chain(
            name::reading(at),
            counted(jobs, place, i, named, jobs_named),
            world,
        );
        reveal(Seq::filter);
        let more = jobs.take(i as int + 1);
        assert(more.drop_last() =~= jobs.take(i as int));
        assert(more.last() == jobs[i as int]);
        let now_named = if found is Some {
            named + 1
        } else {
            named
        };
        let now_jobs = if found is Some && jobish(found->0) {
            jobs_named + 1
        } else {
            jobs_named
        };
        lemma_count_run(world, jobs, place, i + 1, now_named, now_jobs);
    } else {
        assert(jobs.take(i as int) =~= jobs);
    }
}

proof fn lemma_list_run(world: spec_fn(Query) -> Reply, head: Seq<u8>, k: nat)
    ensures
        list_visit(head)(k, ()).run(world).1 == if job_list_in(world, head, 8 * k as int) {
            Some((8 * k) as u64)
        } else {
            None
        },
{
    let begin = bytes::le_u64(head, 8 * k as int);
    let end = bytes::le_u64(head, 8 * k as int + 8);
    let len = (end - begin) as u64;
    reveal_with_fuel(Script::run, 2);
    reveal(job_list_in);
    if list_like(begin, end) && name::read_in(world, begin, len) is Some {
        let list = name::read_in(world, begin, len)->0;
        let jobs = jobs_of(list);
        let n = (list.len() / 16) as nat;
        if mostly_pointers(list) {
            let visit = name_visit(n, jobs);
            let found = |m: nat|
                if named_at(world, n, jobs, (8 * m) as u64) {
                    Some(())
                } else {
                    None
                };
            assert forall|m: nat, s: ()| #![trigger visit(m, s)] m < NAME_PLACES implies {
                let r = visit(m, s).run(world);
                r.1 == found(m)
            } by {
                let place = (8 * m) as u64;
                assert(jobs.take(0).filter(named_in(world, place)) =~= Seq::empty()) by {
                    reveal(Seq::filter);
                }
                assert(jobs.take(0).filter(jobish_in(world, place)) =~= Seq::empty()) by {
                    reveal(Seq::filter);
                }
                lemma_count_run(world, jobs, place, 0, 0, 0);
                script::lemma_run_chain(count(jobs, place, 0, 0, 0), judged(n), world);
            }
            let all = script::search(NAME_PLACES as nat, visit, 0, ());
            script::lemma_run_search(
                NAME_PLACES as nat,
                visit,
                0,
                (),
                world,
                |s: ()| true,
                found,
            );
            script::lemma_first(NAME_PLACES as nat, found, 0);
            script::lemma_run_chain(all, located(k), world);
            if script::first(NAME_PLACES as nat, found, 0) is Some {
                let m = choose|m: nat| m < NAME_PLACES && #[trigger] found(m) == Some(());
                assert(named_at(world, n, jobs, (8 * m) as u64));
                assert(job_list_in(world, head, 8 * k as int));
            } else {
                assert forall|m: nat| m < NAME_PLACES implies !#[trigger] named_at(
                    world,
                    n,
                    jobs,
                    (8 * m) as u64,
                ) by {
                    assert(found(m) is None);
                }
            }
        }
    }
}

/// The multiples of eight that have a property.
spec fn multiples(p: spec_fn(int) -> bool) -> spec_fn(nat) -> Option<u64> {
    |k: nat|
        if p(8 * k as int) {
            Some((8 * k) as u64)
        } else {
            None
        }
}

proof fn lemma_first_multiple(n: nat, p: spec_fn(int) -> bool)
    requires
        8 * n <= u64::MAX,
    ensures
        match script::first(n, multiples(p), 0) {
            Some(off) => {
                &&& off % 8 == 0
                &&& off < 8 * n
                &&& p(off as int)
                &&& forall|o: int| 0 <= o < off && o % 8 == 0 ==> !#[trigger] p(o)
            },
            None => forall|o: int| 0 <= o < 8 * n && o % 8 == 0 ==> !#[trigger] p(o),
        },
{
    let found = multiples(p);
    script::lemma_first(n, found, 0);
    let result = script::first(n, found, 0);
    let end = if result is Some {
        result->0 as int
    } else {
        8 * n as int
    };
    assert forall|o: int| 0 <= o < end && o % 8 == 0 implies !#[trigger] p(o) by {
        assert(o == 8 * ((o / 8) as nat));
        assert(found((o / 8) as nat) is None);
    }
}

proof fn lemma_looking_run(world: spec_fn(Query) -> Reply, head: Seq<u8>)
    ensures
        looking(head).run(world) == script::first(
            positions(head.len()),
            multiples(|o: int| job_list_in(world, head, o)),
            0,
        ),
{
    let n = positions(head.len());
    let visit = list_visit(head);
    let found = multiples(|o: int| job_list_in(world, head, o));
    assert forall|k: nat, s: ()| #![trigger visit(k, s)] k < n implies {
        let r = visit(k, s).run(world);
        r.1 == found(k)
    } by {
        assert(s == ());
        lemma_list_run(world, head, k);
    }
    script::lemma_run_search(n, visit, 0, (), world, |s: ()| true, found);
    script::lemma_run_chain(script::search(n, visit, 0, ()), outcome(), world);
}

/// In a world that does not change, a search gives the first multiple of eight at which the
/// bounds of a job list stand, and nothing where there is none.
pub proof fn looking_gives_the_first_list(world: spec_fn(Query) -> Reply, head: Seq<u8>)
    requires
        head.len() <= u64::MAX,
    ensures
        match looking(head).run(world) {
            Some(off) => {
                &&& off % 8 == 0
                &&& off + 16 < head.len()
                &&& job_list_in(world, head, off as int)
                &&& forall|o: int|
                    0 <= o < off && o % 8 == 0 ==> !#[trigger] job_list_in(world, head, o)
            },
            None => forall|o: int|
                0 <= o < head.len() - 16 && o % 8 == 0 ==> !#[trigger] job_list_in(world, head, o),
        },
{
    let p = |o: int| job_list_in(world, head, o);
    lemma_looking_run(world, head);
    lemma_first_multiple(positions(head.len()), p);
    assert forall|o: int| p(o) == #[trigger] job_list_in(world, head, o) by {}
}

/// `off` is nothing, or a multiple of eight with two words after it in an object of `len`
/// bytes.
pub open spec fn in_object(len: nat) -> spec_fn(Option<u64>) -> bool {
    |off: Option<u64>| off matches Some(off) ==> off % 8 == 0 && off + 16 < len
}

/// Only positions of the object are given.
spec fn located_in(len: nat) -> spec_fn(((), Option<u64>)) -> bool {
    |r: ((), Option<u64>)| in_object(len)(r.1)
}

proof fn lemma_list_in_object(head: Seq<u8>, k: nat)
    requires
        head.len() <= u64::MAX,
        k < positions(head.len()),
    ensures
        script::always(list_visit(head)(k, ()), located_in(head.len())),
{
    let good = located_in(head.len());
    let p = list_visit(head)(k, ());
    let begin = bytes::le_u64(head, 8 * k as int);
    let end = bytes::le_u64(head, 8 * k as int + 8);
    if list_like(begin, end) {
        let len = (end - begin) as u64;
        let f = located(k);
        assert forall|r: ((), Option<()>)| script::always(#[trigger] f(r), good) by {}
        assert forall|a: Reply| script::always(#[trigger] p.answered(a), good) by {
            if let Ok(list) = a.bytes(len) {
                if mostly_pointers(list) {
                    let names = name_visit(list.len() / 16, jobs_of(list));
                    let all = script::search(NAME_PLACES as nat, names, 0, ());
                    script::lemma_always_after(all, f, good);
                }
            }
        }
        script::lemma_always_ask(p, good);
    }
}

/// Whatever the answers are, a search gives a multiple of eight at which two words stand.
pub proof fn lists_lie_in_the_object(head: Seq<u8>)
    requires
        head.len() <= u64::MAX,
    ensures
        script::always(looking(head), in_object(head.len())),
{
    let n = positions(head.len());
    let visit = list_visit(head);
    let good = located_in(head.len());
    assert forall|k: nat, s: ()| k < n implies script::always(#[trigger] visit(k, s), good) by {
        lemma_list_in_object(head, k);
    }
    script::lemma_always_search(n, visit, 0, (), good);
    script::lemma_always_chain(
        script::search(n, visit, 0, ()),
        outcome(),
        good,
        in_object(head.len()),
    );
}

proof fn lemma_count_harmless(
    jobs: Seq<u64>,
    place: u64,
    i: nat,
    named: nat,
    jobs_named: nat,
)
    ensures
        script::only_asks(count(jobs, place, i, named, jobs_named), memory::harmless()),
    decreases jobs.len() - i,
{
    let ok = memory::harmless();
    if i < jobs.len() {
        let at = region::offset(jobs[i as int], place as int);
        let f = counted(jobs, place, i, named, jobs_named);
        assert forall|found: Option<Seq<u8>>| script::only_asks(#[trigger] f(found), ok) by {
            lemma_count_harmless(jobs, place, i + 1, named, jobs_named);
            lemma_count_harmless(jobs, place, i + 1, named + 1, jobs_named);
            lemma_count_harmless(jobs, place, i + 1, named + 1, jobs_named + 1);
        }
        name::reading_is_harmless(at);
        script::lemma_only_chain(name::reading(at), f, ok);
    }
}

proof fn lemma_list_harmless(head: Seq<u8>, k: nat)
    ensures
        script::only_asks(list_visit(head)(k, ()), memory::harmless()),
{
    let ok = memory::harmless();
    let p = list_visit(head)(k, ());
    let begin = bytes::le_u64(head, 8 * k as int);
    let end = bytes::le_u64(head, 8 * k as int + 8);
    if list_like(begin, end) {
        let len = (end - begin) as u64;
        assert forall|a: Reply| script::only_asks(#[trigger] p.answered(a), ok) by {
            if let Ok(list) = a.bytes(len) {
                if mostly_pointers(list) {
                    lemma_places_harmless(list.len() / 16, jobs_of(list), k);
                }
            }
        }
        script::lemma_only_ask(p, ok);
    }
}

proof fn lemma_places_harmless(n: nat, jobs: Seq<u64>, k: nat)
    ensures
        script::only_asks(
            script::search(NAME_PLACES as nat, name_visit(n, jobs), 0, ()).chain(located(k)),
            memory::harmless(),
        ),
{
    let ok = memory::harmless();
    let visit = name_visit(n, jobs);
    assert forall|m: nat, s: ()| m < NAME_PLACES implies script::only_asks(
        #[trigger] visit(m, s),
        ok,
    ) by {
        let f = judged(n);
        assert forall|c: (nat, nat)| script::only_asks(#[trigger] f(c), ok) by {}
        lemma_count_harmless(jobs, (8 * m) as u64, 0, 0, 0);
        script::lemma_only_chain(count(jobs, (8 * m) as u64, 0, 0, 0), f, ok);
    }
    let all = script::search(NAME_PLACES as nat, visit, 0, ());
    script::lemma_only_search(NAME_PLACES as nat, visit, 0, (), ok);
    let g = located(k);
    assert forall|r: ((), Option<()>)| script::only_asks(#[trigger] g(r), ok) by {}
    script::lemma_only_chain(all, g, ok);
}

/// Looking for a list of jobs writes nothing.
pub proof fn looking_is_harmless(head: Seq<u8>)
    ensures
        script::only_asks(looking(head), memory::harmless()),
{
    let ok = memory::harmless();
    let n = positions(head.len());
    let visit = list_visit(head);
    assert forall|k: nat, s: ()| k < n implies script::only_asks(#[trigger] visit(k, s), ok) by {
        lemma_list_harmless(head, k);
    }
    script::lemma_only_search(n, visit, 0, (), ok);
    let f = outcome();
    assert forall|r: ((), Option<u64>)| script::only_asks(#[trigger] f(r), ok) by {}
    script::lemma_only_chain(script::search(n, visit, 0, ()), f, ok);
}

/// The word `w` stands somewhere in `s`.
pub open spec fn stands_in(s: Seq<u8>, w: Seq<u8>) -> bool {
    exists|a: Seq<u8>, b: Seq<u8>| s == #[trigger] (a + w + b)
}

/// A name is that of a job exactly where one of six words stands in it, whatever stands before
/// and after the word.
pub proof fn jobs_are_told_by_six_words(s: Seq<u8>, a: Seq<u8>, b: Seq<u8>)
    ensures
        jobish(a + "Job".spec_bytes() + b),
        jobish(a + "Task".spec_bytes() + b),
        jobish(a + "Render".spec_bytes() + b),
        jobish(a + "Physics".spec_bytes() + b),
        jobish(a + "Heartbeat".spec_bytes() + b),
        jobish(a + "Replicat".spec_bytes() + b),
        jobish(s) ==> stands_in(s, "Job".spec_bytes()) || stands_in(s, "Task".spec_bytes())
            || stands_in(s, "Render".spec_bytes()) || stands_in(s, "Physics".spec_bytes())
            || stands_in(s, "Heartbeat".spec_bytes()) || stands_in(s, "Replicat".spec_bytes()),
{
    lemma_word(s, a, "Job".spec_bytes(), b);
    lemma_word(s, a, "Task".spec_bytes(), b);
    lemma_word(s, a, "Render".spec_bytes(), b);
    lemma_word(s, a, "Physics".spec_bytes(), b);
    lemma_word(s, a, "Heartbeat".spec_bytes(), b);
    lemma_word(s, a, "Replicat".spec_bytes(), b);
}

proof fn lemma_word(s: Seq<u8>, a: Seq<u8>, w: Seq<u8>, b: Seq<u8>)
    ensures
        bytes::occurs(a + w + b, w),
        bytes::occurs(s, w) == stands_in(s, w),
{
    bytes::what_occurs_stands_between(s, w);
    bytes::what_occurs_stands_between(a + w + b, w);
    assert(a + w + b == a + w + b);
}

proof fn lemma_tally_filter(s: Seq<u64>, p: spec_fn(u64) -> bool, q: spec_fn(u64) -> bool)
    ensures
        s.filter(p).len() == bytes::tally(s.len(), |i: int| p(s[i])),
        s.filter(p).filter(q).len() == bytes::tally(s.len(), |i: int| p(s[i]) && q(s[i])),
    decreases s.len(),
{
    reveal(Seq::filter);
    let once = |i: int| p(s[i]);
    let twice = |i: int| p(s[i]) && q(s[i]);
    if s.len() > 0 {
        let t = s.drop_last();
        lemma_tally_filter(t, p, q);
        bytes::lemma_tally(t.len(), |i: int| p(t[i]), once);
        bytes::lemma_tally(t.len(), |i: int| p(t[i]) && q(t[i]), twice);
        assert(s.last() == s[s.len() - 1]);
        assert(once(s.len() - 1) == p(s.last()));
        assert(twice(s.len() - 1) == (p(s.last()) && q(s.last())));
        if p(s.last()) {
            assert(t.filter(p).push(s.last()).drop_last() =~= t.filter(p));
        }
    }
}

/// The entry `i` of a list points to something that has a name `place` bytes into it.
pub open spec fn has_name(
    world: spec_fn(Query) -> Reply,
    list: Seq<u8>,
    place: int,
    i: int,
) -> bool {
    let job = bytes::le_u64(list, 16 * i);
    region::pointer_like(job) && name::reading(region::offset(job, place)).run(world) is Some
}

/// The entry `i` of a list points to something that has the name of a job `place` bytes into it.
pub open spec fn has_job_name(
    world: spec_fn(Query) -> Reply,
    list: Seq<u8>,
    place: int,
    i: int,
) -> bool {
    let job = bytes::le_u64(list, 16 * i);
    has_name(world, list, place, i) && jobish(
        name::reading(region::offset(job, place)).run(world)->0,
    )
}

/// Of the `n` entries of a list, at least seven in ten have a name `place` bytes into what they
/// point to, and at least five the name of a job.
pub open spec fn names_at(
    world: spec_fn(Query) -> Reply,
    list: Seq<u8>,
    n: nat,
    place: int,
) -> bool {
    &&& 10 * bytes::tally(n, |i: int| has_name(world, list, place, i)) >= 7 * n
    &&& bytes::tally(n, |i: int| has_job_name(world, list, place, i)) >= 5
}

/// `n` entries of 16 bytes can be read from `begin` on, at least nine in ten of them begin with
/// what looks like a pointer, and their names stand at one of the multiples of eight up to 120.
pub open spec fn list_at(world: spec_fn(Query) -> Reply, begin: u64, n: nat) -> bool {
    let reply = world(Query::Read { addr: begin, len: (16 * n) as u64 });
    &&& reply matches Reply::Bytes { status, data }
    &&& status == 0
    &&& data.len() == 16 * n
    &&& 10 * bytes::tally(n, |i: int| region::pointer_like(bytes::le_u64(data, 16 * i))) >= 9 * n
    &&& exists|place: int|
        0 <= place <= 120 && place % 8 == 0 && #[trigger] names_at(world, data, n, place)
}

/// At `off` stand a pointer to a list of 20 to 299 entries and one to its end.
pub open spec fn list_bounded_at(world: spec_fn(Query) -> Reply, head: Seq<u8>, off: int) -> bool {
    let begin = bytes::le_u64(head, off);
    let end = bytes::le_u64(head, off + 8);
    region::pointer_like(begin) && exists|n: nat|
        20 <= n <= 299 && end == begin + 16 * n && #[trigger] list_at(world, begin, n)
}

proof fn lemma_names(world: spec_fn(Query) -> Reply, list: Seq<u8>, n: nat, m: nat)
    requires
        list.len() == 16 * n,
        m < 16,
    ensures
        named_at(world, n, jobs_of(list), (8 * m) as u64) == names_at(
            world,
            list,
            n,
            8 * m as int,
        ),
{
    let all = entries(list);
    let place = (8 * m) as u64;
    let like = |p: u64| region::pointer_like(p);
    lemma_tally_filter(all, like, named_in(world, place));
    lemma_tally_filter(all, like, jobish_in(world, place));
    let named = |i: int| has_name(world, list, place as int, i);
    let jobs = |i: int| has_job_name(world, list, place as int, i);
    assert forall|i: int| 0 <= i < n implies #[trigger] named(i) == (like(all[i]) && named_in(
        world,
        place,
    )(all[i])) by {
        name::reading_gives_the_name(world, region::offset(all[i], place as int));
    }
    bytes::lemma_tally(n, named, |i: int| like(all[i]) && named_in(world, place)(all[i]));
    assert forall|i: int| 0 <= i < n implies #[trigger] jobs(i) == (like(all[i]) && jobish_in(
        world,
        place,
    )(all[i])) by {
        name::reading_gives_the_name(world, region::offset(all[i], place as int));
    }
    bytes::lemma_tally(n, jobs, |i: int| like(all[i]) && jobish_in(world, place)(all[i]));
}

proof fn lemma_list(world: spec_fn(Query) -> Reply, head: Seq<u8>, off: int)
    ensures
        job_list_in(world, head, off) == list_bounded_at(world, head, off),
{
    reveal(job_list_in);
    let begin = bytes::le_u64(head, off);
    let end = bytes::le_u64(head, off + 8);
    if region::pointer_like(begin) && begin < end && (end - begin) % 16 == 0 {
        let n = ((end - begin) / 16) as nat;
        let reply = world(Query::Read { addr: begin, len: (16 * n) as u64 });
        assert(end - begin == 16 * n);
        if reply.bytes((16 * n) as u64) is Ok {
            let list = reply.bytes((16 * n) as u64)->Ok_0;
            let like = |p: u64| region::pointer_like(p);
            let all = entries(list);
            lemma_tally_filter(all, like, like);
            bytes::lemma_tally(
                n,
                |i: int| region::pointer_like(bytes::le_u64(list, 16 * i)),
                |i: int| like(all[i]),
            );
            assert forall|m: nat| m < 16 implies #[trigger] named_at(
                world,
                n,
                jobs_of(list),
                (8 * m) as u64,
            ) == names_at(world, list, n, 8 * m as int) by {
                lemma_names(world, list, n, m);
            }
            if 20 <= n <= 299 {
                assert(list_at(world, begin, n) == job_list_in(world, head, off)) by {
                    if list_at(world, begin, n) {
                        let place = choose|place: int|
                            0 <= place <= 120 && place % 8 == 0 && #[trigger] names_at(
                                world,
                                list,
                                n,
                                place,
                            );
                        assert(place == 8 * ((place / 8) as nat));
                        assert(named_at(
                            world,
                            n,
                            jobs_of(list),
                            (8 * ((place / 8) as nat)) as u64,
                        ));
                    }
                    if job_list_in(world, head, off) {
                        let m = choose|m: nat|
                            m < NAME_PLACES && #[trigger] named_at(
                                world,
                                n,
                                jobs_of(list),
                                (8 * m) as u64,
                            );
                        assert(names_at(world, list, n, 8 * m as int));
                    }
                }
            }
        }
        if job_list_in(world, head, off) {
            assert(list_at(world, begin, n));
        }
    }
    if list_bounded_at(world, head, off) {
        let n = choose|n: nat|
            20 <= n <= 299 && end == begin + 16 * n && #[trigger] list_at(world, begin, n);
        assert(n == (end - begin) / 16);
        assert((end - begin) % 16 == 0);
    }
}

/// In a world that does not change, a search of an object finds the first multiple of eight, with
/// more than two words from there on, at which the bounds of a list stand whose entries point to
/// jobs, and finds nothing where there is none.
pub proof fn the_first_list_of_jobs_is_found(
    world: spec_fn(Query) -> Reply,
    head: Seq<u8>,
    off: u64,
)
    requires
        head.len() <= u64::MAX,
    ensures
        looking(head).run(world) == Some(off) <==> {
            &&& off % 8 == 0
            &&& off + 16 < head.len()
            &&& list_bounded_at(world, head, off as int)
            &&& forall|o: int|
                0 <= o < off && o % 8 == 0 ==> !#[trigger] list_bounded_at(world, head, o)
        },
        looking(head).run(world) is None <==> forall|o: int|
            0 <= o < head.len() - 16 && o % 8 == 0 ==> !#[trigger] list_bounded_at(world, head, o),
{
    looking_gives_the_first_list(world, head);
    assert forall|o: int| #[trigger] list_bounded_at(world, head, o) == job_list_in(
        world,
        head,
        o,
    ) by {
        lemma_list(world, head, o);
    }
    if let Some(first) = looking(head).run(world) {
        lemma_list(world, head, first as int);
        assert(list_bounded_at(world, head, first as int));
        assert forall|o: int| 0 <= o < first && o % 8 == 0 implies !#[trigger] list_bounded_at(
            world,
            head,
            o,
        ) by {
            lemma_list(world, head, o);
        }
    } else {
        assert forall|o: int| 0 <= o < head.len() - 16 && o % 8 == 0 implies
            !#[trigger] list_bounded_at(world, head, o) by {
            lemma_list(world, head, o);
        }
    }
}

} // verus!
