//! Starting a run: finding out what to write and where, and writing it for the first time.
use vstd::prelude::*;

use crate::bytes;
use crate::error::Error;
use crate::images;
use crate::images::Attachment;
use crate::layer;
use crate::layer::LayerSearch;
use crate::macho;
use crate::macho::ImageReader;
use crate::memory::{Answer, Query, Reply, Search};
use crate::metal;
use crate::metal::{Metal, MetalProbe};
use crate::region;
use crate::region::Region;
use crate::run;
use crate::run::{Apply, Restore, Run, RunState, Saved, Targets};
use crate::scheduler;
use crate::scheduler::SchedulerSearch;
use crate::script;
use crate::script::Script;

verus! {

/// The start has failed, and what was written has been switched back.
pub open spec fn given_up(error: Error) -> spec_fn(()) -> Search<Result<RunState, Error>> {
    |_done: ()| Script::End(Err(error))
}

/// What the first switch-over comes to. Where it failed, what it wrote is switched back.
pub open spec fn with_applied(targets: Targets, saved: Saved) -> spec_fn(
    Result<(), Error>,
) -> Search<Result<RunState, Error>> {
    |r: Result<(), Error>|
        match r {
            Ok(_) => Script::End(Ok(RunState { targets, saved, on: true })),
            Err(error) => run::restoring(targets, saved).chain(given_up(error)),
        }
}

/// Saves the flag byte and switches over.
pub open spec fn flag_saved(targets: Targets, interval: u64) -> Search<Result<RunState, Error>> {
    Script::Ask(
        Query::Read { addr: targets.sync, len: 1 },
        |reply: Reply|
            match reply.bytes(1) {
                Ok(data) => run::applying(targets).chain(
                    with_applied(targets, Saved { interval, sync: data[0] }),
                ),
                Err(status) => Script::End(Err(Error::Read(status))),
            },
    )
}

/// Saves what stands at the targets and switches over.
pub open spec fn taking_over(targets: Targets) -> Search<Result<RunState, Error>> {
    Script::Ask(
        Query::Read { addr: targets.interval, len: 8 },
        |reply: Reply|
            match reply.bytes(8) {
                Ok(data) => flag_saved(targets, bytes::le_u64(data, 0)),
                Err(status) => Script::End(Err(Error::Read(status))),
            },
    )
}

/// What to write and where.
pub open spec fn targets_of(metal: Metal, interval: u64, sync: u64) -> Targets {
    Targets { interval, sync, bit: metal.bit, off: metal.off }
}

/// Goes on once the flag has been looked for.
pub open spec fn with_flag(metal: Metal, interval: u64) -> spec_fn(Result<u64, Error>) -> Search<
    Result<RunState, Error>,
> {
    |r: Result<u64, Error>|
        match r {
            Ok(sync) => taking_over(targets_of(metal, interval, sync)),
            Err(error) => Script::End(Err(error)),
        }
}

/// Goes on once the scheduler has been looked for.
pub open spec fn with_scheduler(metal: Metal, heap: Seq<Region>) -> spec_fn(
    Result<(u64, u64), Error>,
) -> Search<Result<RunState, Error>> {
    |r: Result<(u64, u64), Error>|
        match r {
            Ok((ptr, place)) => layer::looking(metal, heap).chain(
                with_flag(metal, region::offset(ptr, place as int)),
            ),
            Err(error) => Script::End(Err(error)),
        }
}

/// Goes on once the image has been read.
pub open spec fn with_image(metal: Metal, heap: Seq<Region>) -> spec_fn(
    Result<Seq<Region>, Error>,
) -> Search<Result<RunState, Error>> {
    |r: Result<Seq<Region>, Error>|
        match r {
            Ok(image) => scheduler::looking(image, heap).chain(with_scheduler(metal, heap)),
            Err(error) => Script::End(Err(error)),
        }
}

/// Lists the regions of the process and reads the image.
pub open spec fn regions_read(metal: Metal, base: u64) -> Search<Result<RunState, Error>> {
    Script::Ask(
        Query::Regions,
        |reply: Reply| macho::reading(base).chain(with_image(metal, reply.regions())),
    )
}

/// Goes on once the process has been attached to.
pub open spec fn with_base(metal: Metal) -> spec_fn(Result<u64, Error>) -> Search<
    Result<RunState, Error>,
> {
    |r: Result<u64, Error>|
        match r {
            Ok(base) => regions_read(metal, base),
            Err(error) => Script::End(Err(error)),
        }
}

/// Goes on once a layer has been tried out.
pub open spec fn with_metal(pid: i32) -> spec_fn(Result<Metal, Error>) -> Search<
    Result<RunState, Error>,
> {
    |r: Result<Metal, Error>|
        match r {
            Ok(metal) => images::attaching(pid).chain(with_base(metal)),
            Err(error) => Script::End(Err(error)),
        }
}

/// Starts a run on a process. The first error ends it.
pub open spec fn starting(pid: i32) -> Search<Result<RunState, Error>> {
    metal::probing().chain(with_metal(pid))
}

/// A run or an error as a mathematical value.
pub open spec fn seen(run: Result<Run, Error>) -> Result<RunState, Error> {
    match run {
        Ok(run) => Ok(run@),
        Err(error) => Err(error),
    }
}

enum State {
    Metal { pid: i32, probe: MetalProbe },
    Attach { metal: Metal, attachment: Attachment },
    Regions { metal: Metal, base: u64 },
    Image { metal: Metal, heap: Vec<Region>, reader: ImageReader },
    Scheduler { metal: Metal, heap: Vec<Region>, search: SchedulerSearch },
    Layer { metal: Metal, interval: u64, layers: LayerSearch },
    SaveInterval { targets: Targets },
    SaveFlag { targets: Targets, interval: u64 },
    Apply { targets: Targets, saved: Saved, apply: Apply },
    Restore { error: Error, restore: Restore },
    End(Result<Run, Error>),
}

/// The start of a run that is under way.
pub struct Startup {
    state: State,
}

impl View for Startup {
    type V = Search<Result<RunState, Error>>;

    closed spec fn view(&self) -> Search<Result<RunState, Error>> {
        match self.state {
            State::Metal { pid, probe } => probe@.chain(with_metal(pid)),
            State::Attach { metal, attachment } => attachment@.chain(with_base(metal)),
            State::Regions { metal, base } => regions_read(metal, base),
            State::Image { metal, heap, reader } => reader@.chain(with_image(metal, heap@)),
            State::Scheduler { metal, heap, search } => search@.chain(
                with_scheduler(metal, heap@),
            ),
            State::Layer { metal, interval, layers } => layers@.chain(with_flag(metal, interval)),
            State::SaveInterval { targets } => taking_over(targets),
            State::SaveFlag { targets, interval } => flag_saved(targets, interval),
            State::Apply { targets, saved, apply } => apply@.chain(with_applied(targets, saved)),
            State::Restore { error, restore } => restore@.chain(given_up(error)),
            State::End(run) => Script::End(seen(run)),
        }
    }
}

impl Run {
    /// Starts a run on a process.
    pub fn start(pid: i32) -> (startup: Startup)
        ensures
            startup@ == starting(pid),
    {
        Startup::with_probe(pid, MetalProbe::metal())
    }
}

impl Startup {
    #[verifier::type_invariant]
    spec fn inv(&self) -> bool {
        match self.state {
            State::Metal { pid, probe } => probe@ is Ask,
            State::Attach { metal, attachment } => metal.inner < metal::DATA && attachment@ is Ask,
            State::Regions { metal, base } => metal.inner < metal::DATA,
            State::Image { metal, heap, reader } => metal.inner < metal::DATA && reader@ is Ask,
            State::Scheduler { metal, heap, search } => metal.inner < metal::DATA && search@ is Ask,
            State::Layer { metal, interval, layers } => layers@ is Ask,
            State::Apply { targets, saved, apply } => apply@ is Ask,
            State::Restore { error, restore } => restore@ is Ask,
            _ => true,
        }
    }

    /// What the part that is under way asks is asked, and the answer goes to it.
    proof fn lemma_asks(&self, a: Reply)
        requires
            self.inv(),
        ensures
            match self.state {
                State::Metal { pid, probe } => self@.question() == probe@.question()
                    && self@.answered(a) == probe@.answered(a).chain(with_metal(pid)),
                State::Attach { metal, attachment } => self@.question() == attachment@.question()
                    && self@.answered(a) == attachment@.answered(a).chain(with_base(metal)),
                State::Image { metal, heap, reader } => self@.question() == reader@.question()
                    && self@.answered(a) == reader@.answered(a).chain(with_image(metal, heap@)),
                State::Scheduler { metal, heap, search } => self@.question() == search@.question()
                    && self@.answered(a) == search@.answered(a).chain(
                    with_scheduler(metal, heap@),
                ),
                State::Layer { metal, interval, layers } => self@.question() == layers@.question()
                    && self@.answered(a) == layers@.answered(a).chain(with_flag(metal, interval)),
                State::Apply { targets, saved, apply } => self@.question() == apply@.question()
                    && self@.answered(a) == apply@.answered(a).chain(
                    with_applied(targets, saved),
                ),
                State::Restore { error, restore } => self@.question() == restore@.question()
                    && self@.answered(a) == restore@.answered(a).chain(given_up(error)),
                _ => true,
            },
    {
        match self.state {
            State::Metal { pid, probe } => script::lemma_chain_ask(probe@, with_metal(pid), a),
            State::Attach { metal, attachment } => script::lemma_chain_ask(
                attachment@,
                with_base(metal),
                a,
            ),
            State::Image { metal, heap, reader } => script::lemma_chain_ask(
                reader@,
                with_image(metal, heap@),
                a,
            ),
            State::Scheduler { metal, heap, search } => script::lemma_chain_ask(
                search@,
                with_scheduler(metal, heap@),
                a,
            ),
            State::Layer { metal, interval, layers } => script::lemma_chain_ask(
                layers@,
                with_flag(metal, interval),
                a,
            ),
            State::Apply { targets, saved, apply } => script::lemma_chain_ask(
                apply@,
                with_applied(targets, saved),
                a,
            ),
            State::Restore { error, restore } => script::lemma_chain_ask(
                restore@,
                given_up(error),
                a,
            ),
            _ => {},
        }
    }

    /// What to ask next; nothing once the run has started or failed to.
    pub fn query(&self) -> (query: Option<Query>)
        ensures
            query == self@.question(),
    {
        proof {
            use_type_invariant(self);
            self.lemma_asks(Reply::Done);
        }
        match &self.state {
            State::Metal { probe, .. } => probe.query(),
            State::Attach { attachment, .. } => attachment.query(),
            State::Regions { .. } => Some(Query::Regions),
            State::Image { reader, .. } => reader.query(),
            State::Scheduler { search, .. } => search.query(),
            State::Layer { layers, .. } => layers.query(),
            State::SaveInterval { targets } => Some(
                Query::Read { addr: targets.interval, len: 8 },
            ),
            State::SaveFlag { targets, .. } => Some(Query::Read { addr: targets.sync, len: 1 }),
            State::Apply { apply, .. } => apply.query(),
            State::Restore { restore, .. } => restore.query(),
            State::End(_) => None,
        }
    }

    /// Takes the answer to what `query` asks.
    pub fn answer(self, answer: Answer) -> (startup: Startup)
        ensures
            startup@ == self@.answered(answer@),
    {
        proof {
            use_type_invariant(&self);
            self.lemma_asks(answer@);
        }
        match self.state {
            State::Metal { pid, probe } => Startup::with_probe(pid, probe.answer(answer)),
            State::Attach { metal, attachment } => Startup::with_attachment(
                metal,
                attachment.answer(answer),
            ),
            State::Regions { metal, base } => Startup::with_reader(
                metal,
                answer.regions(),
                ImageReader::image_regions(base),
            ),
            State::Image { metal, heap, reader } => Startup::with_reader(
                metal,
                heap,
                reader.answer(answer),
            ),
            State::Scheduler { metal, heap, search } => Startup::with_scheduler_search(
                metal,
                heap,
                search.answer(answer),
            ),
            State::Layer { metal, interval, layers } => Startup::with_layer_search(
                metal,
                interval,
                layers.answer(answer),
            ),
            State::SaveInterval { targets } => match answer.bytes(8) {
                Ok(data) => Startup {
                    state: State::SaveFlag { targets, interval: bytes::read_u64(&data, 0) },
                },
                Err(status) => Startup::failed(Error::Read(status)),
            },
            State::SaveFlag { targets, interval } => match answer.bytes(1) {
                Ok(data) => Startup::with_apply(
                    targets,
                    Saved { interval, sync: data[0] },
                    Apply::apply(targets),
                ),
                Err(status) => Startup::failed(Error::Read(status)),
            },
            State::Apply { targets, saved, apply } => Startup::with_apply(
                targets,
                saved,
                apply.answer(answer),
            ),
            State::Restore { error, restore } => Startup::with_restore(
                error,
                restore.answer(answer),
            ),
            State::End(run) => Startup { state: State::End(run) },
        }
    }

    fn failed(error: Error) -> (startup: Startup)
        ensures
            startup@ == Script::<Query, Reply, Result<RunState, Error>>::End(Err(error)),
    {
        Startup { state: State::End(Err(error)) }
    }

    fn with_probe(pid: i32, probe: MetalProbe) -> (startup: Startup)
        ensures
            startup@ == probe@.chain(with_metal(pid)),
    {
        if probe.query().is_some() {
            return Startup { state: State::Metal { pid, probe } };
        }
        match probe.found() {
            Ok(metal) => Startup::with_attachment(metal, Attachment::attach(pid)),
            Err(error) => Startup::failed(error),
        }
    }

    fn with_attachment(metal: Metal, attachment: Attachment) -> (startup: Startup)
        requires
            metal.inner < metal::DATA,
        ensures
            startup@ == attachment@.chain(with_base(metal)),
    {
        if attachment.query().is_some() {
            return Startup { state: State::Attach { metal, attachment } };
        }
        match attachment.base() {
            Ok(base) => Startup { state: State::Regions { metal, base } },
            Err(error) => Startup::failed(error),
        }
    }

    fn with_reader(metal: Metal, heap: Vec<Region>, reader: ImageReader) -> (startup: Startup)
        requires
            metal.inner < metal::DATA,
        ensures
            startup@ == reader@.chain(with_image(metal, heap@)),
    {
        if reader.query().is_some() {
            return Startup { state: State::Image { metal, heap, reader } };
        }
        match reader.regions() {
            Ok(image) => {
                let search = SchedulerSearch::scheduler(&image, region::copy(&heap));
                Startup::with_scheduler_search(metal, heap, search)
            },
            Err(error) => Startup::failed(error),
        }
    }

    fn with_scheduler_search(metal: Metal, heap: Vec<Region>, search: SchedulerSearch) -> (startup:
        Startup)
        requires
            metal.inner < metal::DATA,
        ensures
            startup@ == search@.chain(with_scheduler(metal, heap@)),
    {
        if search.query().is_some() {
            return Startup { state: State::Scheduler { metal, heap, search } };
        }
        match search.found() {
            Ok((ptr, place)) => Startup::with_layer_search(
                metal,
                region::address(ptr, place),
                LayerSearch::sync(metal, heap),
            ),
            Err(error) => Startup::failed(error),
        }
    }

    fn with_layer_search(metal: Metal, interval: u64, layers: LayerSearch) -> (startup: Startup)
        ensures
            startup@ == layers@.chain(with_flag(metal, interval)),
    {
        if layers.query().is_some() {
            return Startup { state: State::Layer { metal, interval, layers } };
        }
        match layers.found() {
            Ok(sync) => Startup {
                state: State::SaveInterval {
                    targets: Targets { interval, sync, bit: metal.bit, off: metal.off },
                },
            },
            Err(error) => Startup::failed(error),
        }
    }

    fn with_apply(targets: Targets, saved: Saved, apply: Apply) -> (startup: Startup)
        ensures
            startup@ == apply@.chain(with_applied(targets, saved)),
    {
        if apply.query().is_some() {
            return Startup { state: State::Apply { targets, saved, apply } };
        }
        match apply.result() {
            Ok(_) => Startup { state: State::End(Ok(Run::begun(targets, saved))) },
            Err(error) => Startup::with_restore(error, Restore::restore(targets, saved)),
        }
    }

    fn with_restore(error: Error, restore: Restore) -> (startup: Startup)
        ensures
            startup@ == restore@.chain(given_up(error)),
    {
        if restore.query().is_some() {
            return Startup { state: State::Restore { error, restore } };
        }
        Startup::failed(error)
    }

    /// The run, or why it could not be started, once there is nothing more to ask.
    pub fn run(self) -> (run: Result<Run, Error>)
        ensures
            self@ matches Script::End(result) ==> seen(run) == result,
    {
        proof {
            use_type_invariant(&self);
            self.lemma_asks(Reply::Done);
        }
        match self.state {
            State::End(run) => run,
            _ => Err(Error::ImageNotFound),
        }
    }
}

} // verus!
