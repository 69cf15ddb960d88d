//! Finding out which bit of a Metal layer is its display sync, by switching it and looking at
//! what moves.
use vstd::prelude::*;

use crate::bytes;
use crate::error::Error;
use crate::memory;
use crate::memory::{Answer, Layer, Query, Reply, Search};
use crate::region;
use crate::script;
use crate::script::Script;

verus! {

/// The most bytes of the layer that are looked at.
pub const OBJECT_MAX: u64 = 0x100;

/// How many bytes are looked at where a field leads to.
pub const DATA: u64 = 0x300;

/// What tells a Metal layer and its display sync.
#[derive(Clone, Copy, Debug, PartialEq, Eq, Structural)]
pub struct Metal {
    /// The address of the class.
    pub class: u64,
    /// Which bits of an object's first word name its class.
    pub mask: u64,
    /// The place of the field that leads to the flag.
    pub field: u64,
    /// The place of the flag byte in what the field leads to.
    pub inner: u64,
    /// The bit that is the display sync.
    pub bit: u8,
    /// The flag byte with display sync on.
    pub base: u8,
    /// The flag byte with display sync off.
    pub off: u8,
}

/// A byte that moves by one bit with the display sync.
#[derive(Clone, Copy, Debug, PartialEq, Eq, Structural)]
pub struct Change {
    /// The field that leads to it.
    pub field: u64,
    /// Its place there.
    pub inner: u64,
    /// The bit.
    pub bit: u8,
    /// The byte with display sync on.
    pub on: u8,
    /// The byte with display sync off.
    pub off: u8,
}

/// A field that leads somewhere, and what stands there with display sync on.
pub struct Lead {
    pub field: u64,
    pub ptr: u64,
    pub on: Seq<u8>,
}

/// How many bytes of a layer are looked at.
pub open spec fn looked_at(layer: Layer) -> u64 {
    if layer.size < OBJECT_MAX {
        layer.size
    } else {
        OBJECT_MAX
    }
}

/// Exactly one bit of `byte` is set.
pub open spec fn single_bit(byte: u8) -> bool {
    byte == 1 || byte == 2 || byte == 4 || byte == 8 || byte == 16 || byte == 32 || byte == 64
        || byte == 128
}

/// The byte is the same whenever display sync is on, and differs in one bit when it is off.
pub open spec fn moves(on: u8, off: u8, again: u8) -> bool {
    on == again && single_bit(on ^ off)
}

/// The bytes among the first `n` of a lead that move.
pub open spec fn changes_up_to(lead: Lead, off: Seq<u8>, again: Seq<u8>, n: nat) -> Seq<Change>
    decreases n,
{
    if n == 0 {
        Seq::empty()
    } else {
        let before = changes_up_to(lead, off, again, (n - 1) as nat);
        let i = n - 1;
        if moves(lead.on[i], off[i], again[i]) {
            before.push(
                Change {
                    field: lead.field,
                    inner: i as u64,
                    bit: lead.on[i] ^ off[i],
                    on: lead.on[i],
                    off: off[i],
                },
            )
        } else {
            before
        }
    }
}

/// Follows the fields of the layer from the `i`-th word on, and keeps what can be read.
pub open spec fn following(object: Seq<u8>, i: nat, leads: Seq<Lead>) -> Search<Seq<Lead>>
    decreases object.len() + 8 - 8 * i,
{
    if 8 * i + 8 > object.len() {
        Script::End(leads)
    } else {
        let ptr = bytes::le_u64(object, 8 * i as int);
        if region::pointer_like(ptr) {
            Script::Ask(
                Query::ReadSelf { addr: ptr, len: DATA },
                |reply: Reply|
                    following(
                        object,
                        i + 1,
                        match reply.bytes(DATA) {
                            Ok(on) => leads.push(Lead { field: (8 * i) as u64, ptr, on }),
                            Err(_) => leads,
                        },
                    ),
            )
        } else {
            following(object, i + 1, leads)
        }
    }
}

/// The changes, and those that a second look at a lead adds to them.
pub open spec fn added(changes: Seq<Change>, lead: Lead, off: Seq<u8>, second: Reply) -> Seq<
    Change,
> {
    match second.bytes(DATA) {
        Ok(again) => changes + changes_up_to(lead, off, again, DATA as nat),
        Err(_) => changes,
    }
}

/// Switches the display sync off again.
pub open spec fn switched_back(changes: Seq<Change>) -> Search<Seq<Change>> {
    Script::Ask(Query::SetSync { on: false }, |_done: Reply| Script::End(changes))
}

/// Looks a second time at a lead with display sync on.
pub open spec fn read_again(lead: Lead, off: Seq<u8>, changes: Seq<Change>) -> Search<
    Seq<Change>,
> {
    Script::Ask(
        Query::ReadSelf { addr: lead.ptr, len: DATA },
        |second: Reply| switched_back(added(changes, lead, off, second)),
    )
}

/// Switches the display sync on once more, to look at a lead.
pub open spec fn switched_on(lead: Lead, off: Seq<u8>, changes: Seq<Change>) -> Search<
    Seq<Change>,
> {
    Script::Ask(Query::SetSync { on: true }, |_done: Reply| read_again(lead, off, changes))
}

/// Looks at a lead with display sync off, on and off once more, and adds the bytes that move
/// to `changes`. What cannot be read is left out.
pub open spec fn lead_compared(lead: Lead, changes: Seq<Change>) -> Search<Seq<Change>> {
    Script::Ask(
        Query::ReadSelf { addr: lead.ptr, len: DATA },
        |reply: Reply|
            match reply.bytes(DATA) {
                Ok(off) => switched_on(lead, off, changes),
                Err(_) => Script::End(changes),
            },
    )
}

/// How a comparison goes on after the `i`-th lead.
pub open spec fn compared(leads: Seq<Lead>, i: nat) -> spec_fn(Seq<Change>) -> Search<Seq<Change>>
    decreases leads.len() - i, 0nat,
{
    |changes: Seq<Change>|
        if i >= leads.len() {
            Script::End(changes)
        } else {
            comparing(leads, i + 1, changes)
        }
}

/// Looks at the leads from the `i`-th on, one after the other.
pub open spec fn comparing(leads: Seq<Lead>, i: nat, changes: Seq<Change>) -> Search<Seq<Change>>
    decreases leads.len() - i, 1nat,
{
    if i >= leads.len() {
        Script::End(changes)
    } else {
        lead_compared(leads[i as int], changes).chain(compared(leads, i))
    }
}

/// What the trial comes to: the one byte that moves, provided that the layer has a class mask
/// and that its display sync can be switched.
pub open spec fn verdict(
    layer: Layer,
    starts_on: bool,
    turns_off: bool,
    pointers: nat,
    changes: Seq<Change>,
) -> Result<Metal, Error> {
    if layer.mask != 0 && starts_on && turns_off && changes.len() == 1 {
        Ok(
            Metal {
                class: layer.class,
                mask: layer.mask,
                field: changes[0].field,
                inner: changes[0].inner,
                bit: changes[0].bit,
                base: changes[0].on,
                off: changes[0].off,
            },
        )
    } else {
        Err(
            Error::SyncFieldNotFound {
                size: looked_at(layer),
                pointers: pointers as u64,
                starts_on,
                turns_off,
                changes: changes.len() as u64,
            },
        )
    }
}

/// The end of the trial.
pub open spec fn with_changes(
    layer: Layer,
    starts_on: bool,
    turns_off: bool,
    pointers: nat,
) -> spec_fn(Seq<Change>) -> Search<Result<Metal, Error>> {
    |changes: Seq<Change>|
        Script::End(verdict(layer, starts_on, turns_off, pointers, changes))
}

/// Is the display sync off now? Goes on with the comparison.
pub open spec fn off_asked(layer: Layer, starts_on: bool, leads: Seq<Lead>) -> Search<
    Result<Metal, Error>,
> {
    Script::Ask(
        Query::SyncEnabled,
        |reply: Reply|
            comparing(leads, 0, Seq::empty()).chain(
                with_changes(layer, starts_on, !reply.flag(), leads.len()),
            ),
    )
}

/// What is left once the fields have been followed.
pub open spec fn with_leads(layer: Layer, starts_on: bool) -> spec_fn(Seq<Lead>) -> Search<
    Result<Metal, Error>,
> {
    |leads: Seq<Lead>|
        Script::Ask(
            Query::SetSync { on: false },
            |_done: Reply| off_asked(layer, starts_on, leads),
        )
}

/// Reads the layer and goes on.
pub open spec fn object_read(layer: Layer, starts_on: bool) -> Search<Result<Metal, Error>> {
    Script::Ask(
        Query::ReadSelf { addr: layer.object, len: looked_at(layer) },
        |reply: Reply|
            match reply.bytes(looked_at(layer)) {
                Ok(object) => following(object, 1, Seq::empty()).chain(
                    with_leads(layer, starts_on),
                ),
                Err(status) => Script::End(Err(Error::Read(status))),
            },
    )
}

/// Is the display sync on now? Goes on with the layer.
pub open spec fn on_asked(layer: Layer) -> Search<Result<Metal, Error>> {
    Script::Ask(Query::SyncEnabled, |reply: Reply| object_read(layer, reply.flag()))
}

/// Switches the display sync of a new layer on, and goes on.
pub open spec fn on_set(layer: Layer) -> Search<Result<Metal, Error>> {
    Script::Ask(Query::SetSync { on: true }, |_done: Reply| on_asked(layer))
}

/// Tries out a Metal layer.
pub open spec fn probing() -> Search<Result<Metal, Error>> {
    Script::Ask(Query::NewLayer, |reply: Reply| on_set(reply.layer()))
}

/// A field that leads somewhere.
struct Candidate {
    field: u64,
    ptr: u64,
    on: Vec<u8>,
}

impl View for Candidate {
    type V = Lead;

    closed spec fn view(&self) -> Lead {
        Lead { field: self.field, ptr: self.ptr, on: self.on@ }
    }
}

/// The leads that these fields are.
spec fn leads_of(candidates: Seq<Candidate>) -> Seq<Lead> {
    Seq::new(candidates.len(), |i: int| candidates[i]@)
}

/// Whether exactly one bit is set.
pub fn is_single_bit(byte: u8) -> (yes: bool)
    ensures
        yes == single_bit(byte),
{
    byte == 1 || byte == 2 || byte == 4 || byte == 8 || byte == 16 || byte == 32 || byte == 64
        || byte == 128
}

/// Adds the bytes of a lead that move.
fn add_changes(changes: &mut Vec<Change>, candidate: &Candidate, off: &[u8], again: &[u8])
    requires
        candidate@.on.len() == DATA,
        off@.len() == DATA,
        again@.len() == DATA,
    ensures
        final(changes)@ == old(changes)@ + changes_up_to(candidate@, off@, again@, DATA as nat),
        all_inside(old(changes)@) ==> all_inside(final(changes)@),
{
    let mut i: usize = 0;
    assert(changes@ =~= old(changes)@ + changes_up_to(candidate@, off@, again@, 0));
    while i < DATA as usize
        invariant
            i <= DATA,
            candidate@.on.len() == DATA,
            off@.len() == DATA,
            again@.len() == DATA,
            changes@ == old(changes)@ + changes_up_to(candidate@, off@, again@, i as nat),
        decreases DATA - i,
    {
        let on: u8 = candidate.on[i];
        let bit: u8 = on ^ off[i];
        if on == again[i] && is_single_bit(bit) {
            changes.push(
                Change { field: candidate.field, inner: i as u64, bit, on, off: off[i] },
            );
        }
        i += 1;
        assert(changes@ =~= old(changes)@ + changes_up_to(candidate@, off@, again@, i as nat));
    }
    proof {
        lemma_changes(candidate@, off@, again@, DATA as nat);
    }
}

/// The bytes that move stand in the data of their lead and move by one bit.
proof fn lemma_changes(lead: Lead, off: Seq<u8>, again: Seq<u8>, n: nat)
    requires
        n <= u64::MAX,
    ensures
        forall|j: int|
            0 <= j < changes_up_to(lead, off, again, n).len() ==> {
                let change = #[trigger] changes_up_to(lead, off, again, n)[j];
                &&& change.field == lead.field
                &&& change.inner < n
                &&& change.bit == change.on ^ change.off
                &&& single_bit(change.bit)
            },
    decreases n,
{
    if n > 0 {
        lemma_changes(lead, off, again, (n - 1) as nat);
        let before = changes_up_to(lead, off, again, (n - 1) as nat);
        let all = changes_up_to(lead, off, again, n);
        assert forall|j: int| 0 <= j < all.len() implies {
            let change = #[trigger] all[j];
            &&& change.field == lead.field
            &&& change.inner < n
            &&& change.bit == change.on ^ change.off
            &&& single_bit(change.bit)
        } by {
            if j < before.len() {
                assert(all[j] == before[j]);
            }
        }
    }
}

/// How far the look at a lead has come.
enum Step {
    /// Display sync is off, and what stands there now is to be read.
    First,
    /// It was read, and display sync is to be switched on.
    On { off: Vec<u8> },
    /// Display sync is on, and what stands there now is to be read.
    Second { off: Vec<u8> },
    /// The look is over, and display sync is to be switched off.
    Back,
}

enum State {
    New,
    SetOn { layer: Layer },
    IsOn { layer: Layer },
    Object { layer: Layer, starts_on: bool },
    Follow {
        layer: Layer,
        starts_on: bool,
        object: Vec<u8>,
        word: u64,
        candidates: Vec<Candidate>,
    },
    SetOff { layer: Layer, starts_on: bool, candidates: Vec<Candidate> },
    IsOff { layer: Layer, starts_on: bool, candidates: Vec<Candidate> },
    Compare {
        layer: Layer,
        starts_on: bool,
        turns_off: bool,
        candidates: Vec<Candidate>,
        i: usize,
        changes: Vec<Change>,
        step: Step,
    },
    End(Result<Metal, Error>),
}

/// A trial of a Metal layer that is under way.
pub struct MetalProbe {
    state: State,
}

/// All leads have been read.
spec fn all_read(candidates: Seq<Candidate>) -> bool {
    forall|i: int| 0 <= i < candidates.len() ==> (#[trigger] candidates[i])@.on.len() == DATA
}

/// All changes stand in what was read.
spec fn all_inside(changes: Seq<Change>) -> bool {
    forall|i: int| 0 <= i < changes.len() ==> (#[trigger] changes[i]).inner < DATA
}

/// What is left of the look at a lead.
spec fn look(lead: Lead, changes: Seq<Change>, step: Step) -> Search<Seq<Change>> {
    match step {
        Step::First => lead_compared(lead, changes),
        Step::On { off } => switched_on(lead, off@, changes),
        Step::Second { off } => read_again(lead, off@, changes),
        Step::Back => switched_back(changes),
    }
}

impl View for MetalProbe {
    type V = Search<Result<Metal, Error>>;

    closed spec fn view(&self) -> Search<Result<Metal, Error>> {
        match self.state {
            State::New => probing(),
            State::SetOn { layer } => on_set(layer),
            State::IsOn { layer } => on_asked(layer),
            State::Object { layer, starts_on } => object_read(layer, starts_on),
            State::Follow { layer, starts_on, object, word, candidates } => following(
                object@,
                word as nat,
                leads_of(candidates@),
            ).chain(with_leads(layer, starts_on)),
            State::SetOff { layer, starts_on, candidates } => with_leads(layer, starts_on)(
                leads_of(candidates@),
            ),
            State::IsOff { layer, starts_on, candidates } => off_asked(
                layer,
                starts_on,
                leads_of(candidates@),
            ),
            State::Compare { layer, starts_on, turns_off, candidates, i, changes, step } => look(
                candidates@[i as int]@,
                changes@,
                step,
            ).chain(compared(leads_of(candidates@), i as nat)).chain(
                with_changes(layer, starts_on, turns_off, candidates@.len()),
            ),
            State::End(result) => Script::End(result),
        }
    }
}

impl MetalProbe {
    #[verifier::type_invariant]
    spec fn inv(&self) -> bool {
        match self.state {
            State::Follow { layer, starts_on, object, word, candidates } => {
                &&& 8 * word + 8 <= object@.len() <= OBJECT_MAX
                &&& region::pointer_like(bytes::le_u64(object@, 8 * word))
                &&& all_read(candidates@)
            },
            State::SetOff { layer, starts_on, candidates } => all_read(candidates@),
            State::IsOff { layer, starts_on, candidates } => all_read(candidates@),
            State::Compare { layer, starts_on, turns_off, candidates, i, changes, step } => {
                &&& i < candidates@.len()
                &&& all_read(candidates@)
                &&& all_inside(changes@)
                &&& match step {
                    Step::On { off } => off@.len() == DATA,
                    Step::Second { off } => off@.len() == DATA,
                    _ => true,
                }
            },
            State::End(Ok(metal)) => metal.inner < DATA,
            _ => true,
        }
    }

    /// Tries out a Metal layer.
    pub fn metal() -> (probe: MetalProbe)
        ensures
            probe@ == probing(),
    {
        MetalProbe { state: State::New }
    }

    /// What to ask next; nothing once the trial is over.
    pub fn query(&self) -> (query: Option<Query>)
        ensures
            query == self@.question(),
    {
        proof {
            use_type_invariant(self);
            self.lemma_asks(Reply::Done);
        }
        match &self.state {
            State::New => Some(Query::NewLayer),
            State::SetOn { .. } => Some(Query::SetSync { on: true }),
            State::IsOn { .. } => Some(Query::SyncEnabled),
            State::Object { layer, .. } => Some(
                Query::ReadSelf { addr: layer.object, len: looked_at_bytes(layer) },
            ),
            State::Follow { object, word, .. } => Some(
                Query::ReadSelf {
                    addr: bytes::read_u64(object, 8 * (*word as usize)),
                    len: DATA,
                },
            ),
            State::SetOff { .. } => Some(Query::SetSync { on: false }),
            State::IsOff { .. } => Some(Query::SyncEnabled),
            State::Compare { candidates, i, step, .. } => match step {
                Step::First => Some(Query::ReadSelf { addr: candidates[*i].ptr, len: DATA }),
                Step::On { .. } => Some(Query::SetSync { on: true }),
                Step::Second { .. } => Some(
                    Query::ReadSelf { addr: candidates[*i].ptr, len: DATA },
                ),
                Step::Back => Some(Query::SetSync { on: false }),
            },
            State::End(_) => None,
        }
    }

    /// The question that the trial stands at, and what an answer to it comes to, where the
    /// script at hand is a chained one.
    proof fn lemma_asks(&self, a: Reply)
        requires
            self.inv(),
        ensures
            match self.state {
                State::Follow { layer, starts_on, object, word, candidates } => {
                    let p = following(object@, word as nat, leads_of(candidates@));
                    &&& p is Ask
                    &&& self@.question() == p.question()
                    &&& self@.answered(a) == p.answered(a).chain(with_leads(layer, starts_on))
                },
                State::Compare { layer, starts_on, turns_off, candidates, i, changes, step } => {
                    let p = look(candidates@[i as int]@, changes@, step);
                    &&& p is Ask
                    &&& self@.question() == p.question()
                    &&& self@.answered(a) == p.answered(a).chain(
                        compared(leads_of(candidates@), i as nat),
                    ).chain(with_changes(layer, starts_on, turns_off, candidates@.len()))
                },
                _ => true,
            },
    {
        match self.state {
            State::Follow { layer, starts_on, object, word, candidates } => {
                let p = following(object@, word as nat, leads_of(candidates@));
                script::lemma_chain_ask(p, with_leads(layer, starts_on), a);
            },
            State::Compare { layer, starts_on, turns_off, candidates, i, changes, step } => {
                let p = look(candidates@[i as int]@, changes@, step);
                let f = compared(leads_of(candidates@), i as nat);
                script::lemma_chain_ask(p, f, a);
                script::lemma_chain_ask(
                    p.chain(f),
                    with_changes(layer, starts_on, turns_off, candidates@.len()),
                    a,
                );
            },
            _ => {},
        }
    }

    /// Takes the answer to what `query` asks.
    pub fn answer(self, answer: Answer) -> (probe: MetalProbe)
        ensures
            probe@ == self@.answered(answer@),
    {
        proof {
            use_type_invariant(&self);
            self.lemma_asks(answer@);
        }
        match self.state {
            State::New => MetalProbe { state: State::SetOn { layer: answer.layer() } },
            State::SetOn { layer } => MetalProbe { state: State::IsOn { layer } },
            State::IsOn { layer } => MetalProbe {
                state: State::Object { layer, starts_on: answer.flag() },
            },
            State::Object { layer, starts_on } => match answer.bytes(looked_at_bytes(&layer)) {
                Ok(object) => {
                    let candidates: Vec<Candidate> = Vec::new();
                    assert(leads_of(candidates@) =~= Seq::empty());
                    MetalProbe::follow(layer, starts_on, object, 1, candidates)
                },
                Err(status) => MetalProbe { state: State::End(Err(Error::Read(status))) },
            },
            State::Follow { layer, starts_on, object, word, candidates } => {
                let mut candidates = candidates;
                let ghost before = leads_of(candidates@);
                let ptr: u64 = bytes::read_u64(&object, 8 * (word as usize));
                if let Ok(on) = answer.bytes(DATA) {
                    candidates.push(Candidate { field: 8 * word, ptr, on });
                    assert(leads_of(candidates@) =~= before.push(candidates@.last()@));
                }
                MetalProbe::follow(layer, starts_on, object, word + 1, candidates)
            },
            State::SetOff { layer, starts_on, candidates } => MetalProbe {
                state: State::IsOff { layer, starts_on, candidates },
            },
            State::IsOff { layer, starts_on, candidates } => {
                let changes: Vec<Change> = Vec::new();
                assert(changes@ =~= Seq::empty());
                MetalProbe::compare(layer, starts_on, !answer.flag(), candidates, 0, changes)
            },
            State::Compare { layer, starts_on, turns_off, candidates, i, changes, step } => {
                assert(i < candidates.len());
                assert(leads_of(candidates@)[i as int] == candidates@[i as int]@);
                match step {
                    Step::First => match answer.bytes(DATA) {
                        Ok(off) => MetalProbe {
                            state: State::Compare {
                                layer,
                                starts_on,
                                turns_off,
                                candidates,
                                i,
                                changes,
                                step: Step::On { off },
                            },
                        },
                        Err(_) => MetalProbe::compare(
                            layer,
                            starts_on,
                            turns_off,
                            candidates,
                            i + 1,
                            changes,
                        ),
                    },
                    Step::On { off } => MetalProbe {
                        state: State::Compare {
                            layer,
                            starts_on,
                            turns_off,
                            candidates,
                            i,
                            changes,
                            step: Step::Second { off },
                        },
                    },
                    Step::Second { off } => {
                        let mut changes = changes;
                        if let Ok(again) = answer.bytes(DATA) {
                            add_changes(&mut changes, &candidates[i], &off, &again);
                        }
                        MetalProbe {
                            state: State::Compare {
                                layer,
                                starts_on,
                                turns_off,
                                candidates,
                                i,
                                changes,
                                step: Step::Back,
                            },
                        }
                    },
                    Step::Back => MetalProbe::compare(
                        layer,
                        starts_on,
                        turns_off,
                        candidates,
                        i + 1,
                        changes,
                    ),
                }
            },
            State::End(result) => MetalProbe { state: State::End(result) },
        }
    }

    fn follow(
        layer: Layer,
        starts_on: bool,
        object: Vec<u8>,
        from: u64,
        candidates: Vec<Candidate>,
    ) -> (probe: MetalProbe)
        requires
            object@.len() <= OBJECT_MAX,
            from <= OBJECT_MAX,
            all_read(candidates@),
        ensures
            probe@ == following(object@, from as nat, leads_of(candidates@)).chain(
                with_leads(layer, starts_on),
            ),
    {
        let ghost leads = leads_of(candidates@);
        let mut i: u64 = from;
        while 8 * i + 8 <= object.len() as u64
            invariant
                from <= i <= OBJECT_MAX,
                object@.len() <= OBJECT_MAX,
                all_read(candidates@),
                leads == leads_of(candidates@),
                following(object@, i as nat, leads) == following(object@, from as nat, leads),
            decreases OBJECT_MAX - i,
        {
            if region::is_ptr(bytes::read_u64(&object, 8 * (i as usize))) {
                return MetalProbe {
                    state: State::Follow { layer, starts_on, object, word: i, candidates },
                };
            }
            i += 1;
        }
        MetalProbe { state: State::SetOff { layer, starts_on, candidates } }
    }

    fn compare(
        layer: Layer,
        starts_on: bool,
        turns_off: bool,
        candidates: Vec<Candidate>,
        i: usize,
        changes: Vec<Change>,
    ) -> (probe: MetalProbe)
        requires
            i <= candidates@.len(),
            all_read(candidates@),
            all_inside(changes@),
        ensures
            probe@ == comparing(leads_of(candidates@), i as nat, changes@).chain(
                with_changes(layer, starts_on, turns_off, candidates@.len()),
            ),
    {
        if i < candidates.len() {
            return MetalProbe {
                state: State::Compare {
                    layer,
                    starts_on,
                    turns_off,
                    candidates,
                    i,
                    changes,
                    step: Step::First,
                },
            };
        }
        if layer.mask != 0 && starts_on && turns_off && changes.len() == 1 {
            let change = changes[0];
            return MetalProbe {
                state: State::End(
                    Ok(
                        Metal {
                            class: layer.class,
                            mask: layer.mask,
                            field: change.field,
                            inner: change.inner,
                            bit: change.bit,
                            base: change.on,
                            off: change.off,
                        },
                    ),
                ),
            };
        }
        MetalProbe {
            state: State::End(
                Err(
                    Error::SyncFieldNotFound {
                        size: looked_at_bytes(&layer),
                        pointers: candidates.len() as u64,
                        starts_on,
                        turns_off,
                        changes: changes.len() as u64,
                    },
                ),
            ),
        }
    }

    /// What tells a layer and its display sync, once there is nothing more to ask.
    pub fn found(&self) -> (found: Result<Metal, Error>)
        ensures
            self@ matches Script::End(result) ==> found == result,
            found matches Ok(metal) ==> metal.inner < DATA,
    {
        proof {
            use_type_invariant(self);
            self.lemma_asks(Reply::Done);
        }
        match &self.state {
            State::End(result) => *result,
            _ => Err(Error::LayerNotFound),
        }
    }
}

/// How many bytes of a layer are looked at.
fn looked_at_bytes(layer: &Layer) -> (len: u64)
    ensures
        len == looked_at(*layer),
{
    if layer.size < OBJECT_MAX {
        layer.size
    } else {
        OBJECT_MAX
    }
}

/// The field lies in the bytes of the layer that are looked at, after its first word.
pub open spec fn field_fits(field: u64, looked_at: u64) -> bool {
    field % 8 == 0 && 8 <= field && field + 8 <= looked_at
}

/// All fields fit.
pub open spec fn all_fit(looked_at: u64) -> spec_fn(Seq<Lead>) -> bool {
    |leads: Seq<Lead>|
        forall|i: int| 0 <= i < leads.len() ==> field_fits(
            (#[trigger] leads[i]).field,
            looked_at,
        )
}

/// The change is one of a single bit in a place that was looked at.
pub open spec fn change_fits(change: Change, looked_at: u64) -> bool {
    &&& field_fits(change.field, looked_at)
    &&& change.inner < DATA
    &&& change.bit == change.on ^ change.off
    &&& single_bit(change.bit)
}

/// All changes fit.
pub open spec fn all_changes_fit(looked_at: u64) -> spec_fn(Seq<Change>) -> bool {
    |changes: Seq<Change>|
        forall|i: int| 0 <= i < changes.len() ==> change_fits(#[trigger] changes[i], looked_at)
}

/// The result tells one bit in a place of this layer that was looked at, or one of the two
/// errors.
pub open spec fn result_fits(layer: Layer) -> spec_fn(Result<Metal, Error>) -> bool {
    |r: Result<Metal, Error>|
        match r {
            Ok(metal) => {
                &&& metal.class == layer.class
                &&& metal.mask == layer.mask
                &&& metal.mask != 0
                &&& field_fits(metal.field, looked_at(layer))
                &&& metal.inner < DATA
                &&& metal.bit == metal.base ^ metal.off
                &&& single_bit(metal.bit)
            },
            Err(e) => e is Read || e is SyncFieldNotFound,
        }
}

proof fn lemma_following_fits(object: Seq<u8>, i: nat, leads: Seq<Lead>)
    requires
        object.len() <= OBJECT_MAX,
        1 <= i,
        all_fit(object.len() as u64)(leads),
    ensures
        script::always(following(object, i, leads), all_fit(object.len() as u64)),
    decreases object.len() + 8 - 8 * i,
{
    let good = all_fit(object.len() as u64);
    if 8 * i + 8 <= object.len() {
        let ptr = bytes::le_u64(object, 8 * i as int);
        let p = following(object, i, leads);
        if region::pointer_like(ptr) {
            assert forall|a: Reply| script::always(#[trigger] p.answered(a), good) by {
                match a.bytes(DATA) {
                    Ok(on) => {
                        let lead = Lead { field: (8 * i) as u64, ptr, on };
                        assert(field_fits(lead.field, object.len() as u64));
                        assert(good(leads.push(lead)));
                        lemma_following_fits(object, i + 1, leads.push(lead));
                    },
                    Err(_) => lemma_following_fits(object, i + 1, leads),
                }
            }
            script::lemma_always_ask(p, good);
        } else {
            lemma_following_fits(object, i + 1, leads);
        }
    }
}

proof fn lemma_lead_fits(lead: Lead, changes: Seq<Change>, looked_at: u64)
    requires
        field_fits(lead.field, looked_at),
        all_changes_fit(looked_at)(changes),
    ensures
        script::always(lead_compared(lead, changes), all_changes_fit(looked_at)),
{
    let good = all_changes_fit(looked_at);
    let p = lead_compared(lead, changes);
    assert forall|a: Reply| script::always(#[trigger] p.answered(a), good) by {
        if let Ok(off) = a.bytes(DATA) {
            let q = switched_on(lead, off, changes);
            assert forall|b: Reply| script::always(#[trigger] q.answered(b), good) by {
                let r = read_again(lead, off, changes);
                assert forall|c: Reply| script::always(#[trigger] r.answered(c), good) by {
                    let all = added(changes, lead, off, c);
                    assert(good(all)) by {
                        if let Ok(again) = c.bytes(DATA) {
                            lemma_changes(lead, off, again, DATA as nat);
                            let new = changes_up_to(lead, off, again, DATA as nat);
                            assert forall|j: int| 0 <= j < all.len() implies change_fits(
                                #[trigger] all[j],
                                looked_at,
                            ) by {
                                if j >= changes.len() {
                                    assert(all[j] == new[j - changes.len()]);
                                }
                            }
                        }
                    }
                    let s = switched_back(all);
                    assert forall|d: Reply| script::always(#[trigger] s.answered(d), good) by {}
                    script::lemma_always_ask(s, good);
                }
                script::lemma_always_ask(r, good);
            }
            script::lemma_always_ask(q, good);
        }
    }
    script::lemma_always_ask(p, good);
}

proof fn lemma_comparing_fits(leads: Seq<Lead>, i: nat, changes: Seq<Change>, looked_at: u64)
    requires
        all_fit(looked_at)(leads),
        all_changes_fit(looked_at)(changes),
    ensures
        script::always(comparing(leads, i, changes), all_changes_fit(looked_at)),
    decreases leads.len() - i,
{
    if i < leads.len() {
        let good = all_changes_fit(looked_at);
        lemma_lead_fits(leads[i as int], changes, looked_at);
        assert forall|c: Seq<Change>| #[trigger] good(c) implies script::always(
            compared(leads, i)(c),
            good,
        ) by {
            lemma_comparing_fits(leads, i + 1, c, looked_at);
        }
        script::lemma_always_chain(
            lead_compared(leads[i as int], changes),
            compared(leads, i),
            good,
            good,
        );
    }
}

/// Whatever the answers are, a trial tells a single bit that distinguishes the flag byte with
/// display sync on from that with display sync off, in a place of the layer that was looked at.
pub proof fn trials_tell_one_bit(reply: Reply)
    ensures
        script::always(probing().answered(reply), result_fits(reply.layer())),
{
    let layer = reply.layer();
    let good = result_fits(layer);
    let q = on_set(layer);
    assert forall|b: Reply| script::always(#[trigger] q.answered(b), good) by {
        let r = on_asked(layer);
        assert forall|c: Reply| script::always(#[trigger] r.answered(c), good) by {
            lemma_object_fits(layer, c.flag());
        }
        script::lemma_always_ask(r, good);
    }
    script::lemma_always_ask(q, good);
}

proof fn lemma_object_fits(layer: Layer, starts_on: bool)
    ensures
        script::always(object_read(layer, starts_on), result_fits(layer)),
{
    let good = result_fits(layer);
    let p = object_read(layer, starts_on);
    assert forall|a: Reply| script::always(#[trigger] p.answered(a), good) by {
        if let Ok(object) = a.bytes(looked_at(layer)) {
            lemma_following_fits(object, 1, Seq::empty());
            let f = with_leads(layer, starts_on);
            let fit = all_fit(looked_at(layer));
            assert forall|leads: Seq<Lead>| #[trigger] fit(leads) implies script::always(
                f(leads),
                good,
            ) by {
                let q = f(leads);
                assert forall|b: Reply| script::always(#[trigger] q.answered(b), good) by {
                    let r = off_asked(layer, starts_on, leads);
                    assert forall|c: Reply| script::always(#[trigger] r.answered(c), good) by {
                        lemma_comparing_fits(leads, 0, Seq::empty(), looked_at(layer));
                        let g = with_changes(layer, starts_on, !c.flag(), leads.len());
                        assert forall|changes: Seq<Change>| #[trigger]
                            all_changes_fit(looked_at(layer))(changes) implies script::always(
                            g(changes),
                            good,
                        ) by {
                            if changes.len() == 1 {
                                assert(change_fits(changes[0], looked_at(layer)));
                            }
                        }
                        script::lemma_always_chain(
                            comparing(leads, 0, Seq::empty()),
                            g,
                            all_changes_fit(looked_at(layer)),
                            good,
                        );
                    }
                    script::lemma_always_ask(r, good);
                }
                script::lemma_always_ask(q, good);
            }
            script::lemma_always_chain(
                following(object, 1, Seq::empty()),
                f,
                all_fit(looked_at(layer)),
                good,
            );
        }
    }
    script::lemma_always_ask(p, good);
}

/// A bit that tells the flag byte with display sync on from that with display sync off is set
/// in one of them and not in the other, and the other bits of both are the same.
pub proof fn the_bit_is_the_difference(base: u8, off: u8, bit: u8)
    requires
        bit == base ^ off,
    ensures
        base & !bit == off & !bit,
        (base & !bit) | (off & bit) == off,
        (off & !bit) | (base & bit) == base,
{
    assert(base & !bit == off & !bit && (base & !bit) | (off & bit) == off && (off & !bit) | (base
        & bit) == base) by (bit_vector)
        requires
            bit == base ^ off,
    ;
}

/// A byte of a lead counts exactly where it moves: it is the same in both readings with display
/// sync on, and one bit of it differs with display sync off. So one that differs between the
/// two readings with display sync on does not count.
pub proof fn only_bytes_that_move_count(
    lead: Lead,
    off: Seq<u8>,
    again: Seq<u8>,
    n: nat,
    change: Change,
)
    requires
        n <= u64::MAX,
    ensures
        changes_up_to(lead, off, again, n).contains(change) <==> {
            let i = change.inner as int;
            &&& i < n
            &&& moves(lead.on[i], off[i], again[i])
            &&& change == (Change {
                field: lead.field,
                inner: i as u64,
                bit: lead.on[i] ^ off[i],
                on: lead.on[i],
                off: off[i],
            })
        },
    decreases n,
{
    let all = changes_up_to(lead, off, again, n);
    if n > 0 {
        only_bytes_that_move_count(lead, off, again, (n - 1) as nat, change);
        let before = changes_up_to(lead, off, again, (n - 1) as nat);
        let i = n - 1;
        if before.contains(change) {
            let j = choose|j: int| 0 <= j < before.len() && before[j] == change;
            assert(all[j] == change);
        }
        if all.contains(change) && !before.contains(change) {
            let j = choose|j: int| 0 <= j < all.len() && all[j] == change;
            if j < before.len() {
                assert(before[j] == change);
            }
        }
        if moves(lead.on[i], off[i], again[i]) {
            assert(all.last() == all[all.len() - 1]);
        }
    }
}

/// The switch of a layer, and how many questions were asked so far.
pub struct Switch {
    pub on: bool,
    pub asked: nat,
}

/// This process with a layer whose display sync can be switched. What a read of so many bytes
/// at an address gives may depend on that switch, and on the moment: on how many questions were
/// asked before.
pub open spec fn switchable(layer: Layer, mem: spec_fn(nat, bool, u64, u64) -> Reply) -> spec_fn(
    Switch,
    Query,
) -> (Switch, Reply) {
    |s: Switch, query: Query|
        (
            Switch {
                on: match query {
                    Query::SetSync { on } => on,
                    _ => s.on,
                },
                asked: s.asked + 1,
            },
            match query {
                Query::NewLayer => Reply::Layer(layer),
                Query::SyncEnabled => Reply::Flag(s.on),
                Query::ReadSelf { addr, len } => mem(s.asked, s.on, addr, len),
                _ => Reply::Done,
            },
        )
}

/// The leads of the fields from the `i`-th word on, read with display sync on from moment `at`
/// on, and the moment after.
pub open spec fn leads_in(
    mem: spec_fn(nat, bool, u64, u64) -> Reply,
    object: Seq<u8>,
    i: nat,
    at: nat,
) -> (Seq<Lead>, nat)
    decreases object.len() + 8 - 8 * i,
{
    if 8 * i + 8 > object.len() {
        (Seq::empty(), at)
    } else {
        let ptr = bytes::le_u64(object, 8 * i as int);
        if region::pointer_like(ptr) {
            let (rest, end) = leads_in(mem, object, i + 1, at + 1);
            match mem(at, true, ptr, DATA).bytes(DATA) {
                Ok(on) => (seq![Lead { field: (8 * i) as u64, ptr, on }] + rest, end),
                Err(_) => (rest, end),
            }
        } else {
            leads_in(mem, object, i + 1, at)
        }
    }
}

/// The bytes of a lead that move, read with display sync off at moment `at` and with display
/// sync on two questions later; none where either cannot be read. Then the moment after.
pub open spec fn moved(mem: spec_fn(nat, bool, u64, u64) -> Reply, lead: Lead, at: nat) -> (
    Seq<Change>,
    nat,
) {
    match mem(at, false, lead.ptr, DATA).bytes(DATA) {
        Ok(off) => (
            match mem(at + 2, true, lead.ptr, DATA).bytes(DATA) {
                Ok(again) => changes_up_to(lead, off, again, DATA as nat),
                Err(_) => Seq::empty(),
            },
            at + 4,
        ),
        Err(_) => (Seq::empty(), at + 1),
    }
}

/// The bytes of the leads from the `i`-th on that move, looked at from moment `at` on.
pub open spec fn moved_in(
    mem: spec_fn(nat, bool, u64, u64) -> Reply,
    leads: Seq<Lead>,
    i: nat,
    at: nat,
) -> Seq<Change>
    decreases leads.len() - i,
{
    if i >= leads.len() {
        Seq::empty()
    } else {
        let (changes, next) = moved(mem, leads[i as int], at);
        changes + moved_in(mem, leads, i + 1, next)
    }
}

proof fn lemma_following_plays(
    layer: Layer,
    mem: spec_fn(nat, bool, u64, u64) -> Reply,
    object: Seq<u8>,
    i: nat,
    leads: Seq<Lead>,
    at: nat,
)
    ensures
        ({
            let (rest, end) = leads_in(mem, object, i, at);
            following(object, i, leads).play(
                switchable(layer, mem),
                Switch { on: true, asked: at },
            ) == (Switch { on: true, asked: end }, leads + rest)
        }),
    decreases object.len() + 8 - 8 * i,
{
    let (rest, end) = leads_in(mem, object, i, at);
    if 8 * i + 8 <= object.len() {
        let ptr = bytes::le_u64(object, 8 * i as int);
        if region::pointer_like(ptr) {
            match mem(at, true, ptr, DATA).bytes(DATA) {
                Ok(on) => {
                    let lead = Lead { field: (8 * i) as u64, ptr, on };
                    lemma_following_plays(layer, mem, object, i + 1, leads.push(lead), at + 1);
                    let later = leads_in(mem, object, i + 1, at + 1).0;
                    assert(leads.push(lead) + later =~= leads + rest);
                },
                Err(_) => {
                    lemma_following_plays(layer, mem, object, i + 1, leads, at + 1);
                },
            }
        } else {
            lemma_following_plays(layer, mem, object, i + 1, leads, at);
        }
    } else {
        assert(leads + rest =~= leads);
    }
}

proof fn lemma_comparing_plays(
    layer: Layer,
    mem: spec_fn(nat, bool, u64, u64) -> Reply,
    leads: Seq<Lead>,
    i: nat,
    changes: Seq<Change>,
    at: nat,
)
    ensures
        ({
            let (after, all) = comparing(leads, i, changes).play(
                switchable(layer, mem),
                Switch { on: false, asked: at },
            );
            !after.on && all == changes + moved_in(mem, leads, i, at)
        }),
    decreases leads.len() - i,
{
    let world = switchable(layer, mem);
    let s = Switch { on: false, asked: at };
    if i < leads.len() {
        let lead = leads[i as int];
        let p = lead_compared(lead, changes);
        let (new, next) = moved(mem, lead, at);
        let done = Switch { on: false, asked: next };
        assert(p.play(world, s) == (done, changes + new)) by {
            reveal_with_fuel(Script::play, 5);
            assert(changes + Seq::<Change>::empty() =~= changes);
        }
        script::lemma_play_chain(p, compared(leads, i), world, s);
        lemma_comparing_plays(layer, mem, leads, i + 1, changes + new, next);
        assert(changes + new + moved_in(mem, leads, i + 1, next) =~= changes + moved_in(
            mem,
            leads,
            i,
            at,
        ));
    } else {
        assert(changes + moved_in(mem, leads, i, at) =~= changes);
    }
}

/// What a trial that begins at moment `at` finds in a process with such a layer.
pub open spec fn metal_in(
    layer: Layer,
    mem: spec_fn(nat, bool, u64, u64) -> Reply,
    at: nat,
) -> Result<Metal, Error> {
    match mem(at + 3, true, layer.object, looked_at(layer)).bytes(looked_at(layer)) {
        Ok(object) => {
            let (leads, end) = leads_in(mem, object, 1, at + 4);
            verdict(layer, true, true, leads.len(), moved_in(mem, leads, 0, end + 2))
        },
        Err(status) => Err(Error::Read(status)),
    }
}

/// With a layer that can be switched, a trial finds the one byte that moves with the switch, and
/// nothing where none or more than one moves, whatever else changes in memory from moment to
/// moment. If the layer could be read, the display sync is off in the end.
pub proof fn trials_find_the_bit_that_moves(
    layer: Layer,
    mem: spec_fn(nat, bool, u64, u64) -> Reply,
    s: Switch,
)
    ensures
        probing().play(switchable(layer, mem), s).1 == metal_in(layer, mem, s.asked),
        !(metal_in(layer, mem, s.asked) matches Err(Error::Read(_))) ==> !probing().play(
            switchable(layer, mem),
            s,
        ).0.on,
{
    let world = switchable(layer, mem);
    let at = s.asked;
    let p = object_read(layer, true);
    let switched = Switch { on: true, asked: at + 3 };
    assert(probing().play(world, s) == p.play(world, switched)) by {
        reveal_with_fuel(Script::play, 4);
    }
    let read = Switch { on: true, asked: at + 4 };
    let reply = mem(at + 3, true, layer.object, looked_at(layer));
    match reply.bytes(looked_at(layer)) {
        Ok(object) => {
            let (leads, end) = leads_in(mem, object, 1, at + 4);
            let follow = following(object, 1, Seq::empty());
            let f = with_leads(layer, true);
            lemma_following_plays(layer, mem, object, 1, Seq::empty(), at + 4);
            assert(Seq::<Lead>::empty() + leads =~= leads);
            script::lemma_play_chain(follow, f, world, read);
            let followed = Switch { on: true, asked: end };
            assert(p.play(world, switched) == f(leads).play(world, followed));
            let compare = comparing(leads, 0, Seq::empty());
            let g = with_changes(layer, true, true, leads.len());
            let off = Switch { on: false, asked: end + 2 };
            assert(f(leads).play(world, followed) == compare.chain(g).play(world, off)) by {
                reveal_with_fuel(Script::play, 3);
            }
            lemma_comparing_plays(layer, mem, leads, 0, Seq::empty(), end + 2);
            let moving = moved_in(mem, leads, 0, end + 2);
            assert(Seq::<Change>::empty() + moving =~= moving);
            script::lemma_play_chain(compare, g, world, off);
        },
        Err(status) => {
            reveal_with_fuel(Script::play, 2);
        },
    }
}

proof fn lemma_following_harmless(object: Seq<u8>, i: nat, leads: Seq<Lead>)
    ensures
        script::only_asks(following(object, i, leads), memory::harmless()),
    decreases object.len() + 8 - 8 * i,
{
    let ok = memory::harmless();
    let p = following(object, i, leads);
    if 8 * i + 8 <= object.len() {
        let ptr = bytes::le_u64(object, 8 * i as int);
        if region::pointer_like(ptr) {
            assert forall|a: Reply| script::only_asks(#[trigger] p.answered(a), ok) by {
                lemma_following_harmless(object, i + 1, leads);
                if let Ok(on) = a.bytes(DATA) {
                    let lead = Lead { field: (8 * i) as u64, ptr, on };
                    lemma_following_harmless(object, i + 1, leads.push(lead));
                }
            }
            script::lemma_only_ask(p, ok);
        } else {
            lemma_following_harmless(object, i + 1, leads);
        }
    }
}

proof fn lemma_comparing_harmless(leads: Seq<Lead>, i: nat, changes: Seq<Change>)
    ensures
        script::only_asks(comparing(leads, i, changes), memory::harmless()),
    decreases leads.len() - i,
{
    let ok = memory::harmless();
    if i < leads.len() {
        let f = compared(leads, i);
        assert forall|c: Seq<Change>| script::only_asks(#[trigger] f(c), ok) by {
            lemma_comparing_harmless(leads, i + 1, c);
        }
        lemma_lead_harmless(leads[i as int], changes);
        script::lemma_only_chain(lead_compared(leads[i as int], changes), f, ok);
    }
}

proof fn lemma_lead_harmless(lead: Lead, changes: Seq<Change>)
    ensures
        script::only_asks(lead_compared(lead, changes), memory::harmless()),
{
    let ok = memory::harmless();
    let p = lead_compared(lead, changes);
    assert forall|a: Reply| script::only_asks(#[trigger] p.answered(a), ok) by {
        if let Ok(off) = a.bytes(DATA) {
            let q = switched_on(lead, off, changes);
            assert forall|b: Reply| script::only_asks(#[trigger] q.answered(b), ok) by {
                let r = read_again(lead, off, changes);
                assert forall|c: Reply| script::only_asks(#[trigger] r.answered(c), ok) by {
                    let s = switched_back(added(changes, lead, off, c));
                    assert forall|d: Reply| script::only_asks(#[trigger] s.answered(d), ok) by {}
                    script::lemma_only_ask(s, ok);
                }
                script::lemma_only_ask(r, ok);
            }
            script::lemma_only_ask(q, ok);
        }
    }
    script::lemma_only_ask(p, ok);
}

proof fn lemma_leads_harmless(layer: Layer, starts_on: bool, leads: Seq<Lead>)
    ensures
        script::only_asks(with_leads(layer, starts_on)(leads), memory::harmless()),
{
    let ok = memory::harmless();
    let p = with_leads(layer, starts_on)(leads);
    assert forall|a: Reply| script::only_asks(#[trigger] p.answered(a), ok) by {
        let q = off_asked(layer, starts_on, leads);
        assert forall|b: Reply| script::only_asks(#[trigger] q.answered(b), ok) by {
            let g = with_changes(layer, starts_on, !b.flag(), leads.len());
            assert forall|c: Seq<Change>| script::only_asks(#[trigger] g(c), ok) by {}
            lemma_comparing_harmless(leads, 0, Seq::empty());
            script::lemma_only_chain(comparing(leads, 0, Seq::empty()), g, ok);
        }
        script::lemma_only_ask(q, ok);
    }
    script::lemma_only_ask(p, ok);
}

proof fn lemma_object_harmless(layer: Layer, starts_on: bool)
    ensures
        script::only_asks(object_read(layer, starts_on), memory::harmless()),
{
    let ok = memory::harmless();
    let p = object_read(layer, starts_on);
    assert forall|a: Reply| script::only_asks(#[trigger] p.answered(a), ok) by {
        if let Ok(object) = a.bytes(looked_at(layer)) {
            let f = with_leads(layer, starts_on);
            assert forall|leads: Seq<Lead>| script::only_asks(#[trigger] f(leads), ok) by {
                lemma_leads_harmless(layer, starts_on, leads);
            }
            lemma_following_harmless(object, 1, Seq::empty());
            script::lemma_only_chain(following(object, 1, Seq::empty()), f, ok);
        }
    }
    script::lemma_only_ask(p, ok);
}

/// Trying out a layer writes nothing to the process.
pub proof fn probing_is_harmless()
    ensures
        script::only_asks(probing(), memory::harmless()),
{
    let ok = memory::harmless();
    let p = probing();
    assert forall|a: Reply| script::only_asks(#[trigger] p.answered(a), ok) by {
        let q = on_set(a.layer());
        assert forall|b: Reply| script::only_asks(#[trigger] q.answered(b), ok) by {
            let r = on_asked(a.layer());
            assert forall|c: Reply| script::only_asks(#[trigger] r.answered(c), ok) by {
                lemma_object_harmless(a.layer(), c.flag());
            }
            script::lemma_only_ask(r, ok);
        }
        script::lemma_only_ask(q, ok);
    }
    script::lemma_only_ask(p, ok);
}

/// One bit of a byte is set exactly where the byte is a power of two, and all eight powers of two
/// are such bytes.
pub proof fn single_bits_are_powers_of_two(byte: u8, k: u8)
    ensures
        k < 8 ==> single_bit(1u8 << k),
        single_bit(byte) <==> exists|j: u8| j < 8 && byte == #[trigger] (1u8 << j),
        single_bit(byte) <==> byte != 0 && byte & (byte - 1) as u8 == 0,
{
    lemma_bit(1u8 << k, k);
    if single_bit(byte) {
        let j: u8 = if byte == 1 {
            0
        } else if byte == 2 {
            1
        } else if byte == 4 {
            2
        } else if byte == 8 {
            3
        } else if byte == 16 {
            4
        } else if byte == 32 {
            5
        } else if byte == 64 {
            6
        } else {
            7
        };
        lemma_bit(byte, j);
        assert(byte == 1u8 << j) by (bit_vector)
            requires
                j < 8,
                byte == 1 && j == 0 || byte == 2 && j == 1 || byte == 4 && j == 2 || byte == 8 && j
                    == 3 || byte == 16 && j == 4 || byte == 32 && j == 5 || byte == 64 && j == 6
                    || byte == 128 && j == 7,
        ;
    }
    if exists|j: u8| j < 8 && byte == #[trigger] (1u8 << j) {
        let j = choose|j: u8| j < 8 && byte == #[trigger] (1u8 << j);
        lemma_bit(byte, j);
    }
    assert(byte != 0 && byte & (byte - 1) as u8 == 0 <==> (byte == 1 || byte == 2 || byte == 4
        || byte == 8 || byte == 16 || byte == 32 || byte == 64 || byte == 128)) by (bit_vector);
}

proof fn lemma_bit(byte: u8, k: u8)
    ensures
        k < 8 && byte == 1u8 << k ==> single_bit(byte),
{
    assert(k < 8 && byte == 1u8 << k ==> byte == 1 || byte == 2 || byte == 4 || byte == 8 || byte
        == 16 || byte == 32 || byte == 64 || byte == 128) by (bit_vector);
}

/// Two bytes differ in exactly one bit.
pub open spec fn one_bit_apart(a: u8, b: u8) -> bool {
    exists|k: u8| k < 8 && a ^ b == #[trigger] (1u8 << k)
}

/// A byte counts as moving exactly where it is the same in both readings with display sync on, and
/// exactly one bit of it, whichever it is, differs with display sync off.
pub proof fn what_moves_moves_by_one_bit(on: u8, off: u8, again: u8)
    ensures
        moves(on, off, again) <==> on == again && one_bit_apart(on, off),
{
    single_bits_are_powers_of_two(on ^ off, 0);
}

/// What a read gave.
pub open spec fn held(reply: Reply) -> Seq<u8> {
    match reply {
        Reply::Bytes { status, data } => data,
        _ => Seq::empty(),
    }
}

/// A read of `len` bytes gave all of them.
pub open spec fn whole(reply: Reply, len: int) -> bool {
    reply == (Reply::Bytes { status: 0, data: held(reply) }) && held(reply).len() == len
}

/// A memory that changes with the switch alone.
pub open spec fn still(m: spec_fn(bool, u64, u64) -> Reply) -> spec_fn(
    nat,
    bool,
    u64,
    u64,
) -> Reply {
    |at: nat, on: bool, addr: u64, len: u64| m(on, addr, len)
}

/// After the first word of the object, at a multiple of eight, stands a pointer to 768 bytes that
/// can be read with display sync on.
pub open spec fn leads_at(
    m: spec_fn(bool, u64, u64) -> Reply,
    object: Seq<u8>,
    field: int,
) -> bool {
    let ptr = bytes::le_u64(object, field);
    &&& field % 8 == 0
    &&& 8 <= field
    &&& field + 8 <= object.len()
    &&& region::pointer_like(ptr)
    &&& whole(m(true, ptr, 768), 768)
}

/// The byte `inner` of the 768 that the field leads to is one bit apart with display sync on and
/// with display sync off.
pub open spec fn flag_at(
    m: spec_fn(bool, u64, u64) -> Reply,
    object: Seq<u8>,
    field: int,
    inner: int,
) -> bool {
    let ptr = bytes::le_u64(object, field);
    &&& leads_at(m, object, field)
    &&& whole(m(false, ptr, 768), 768)
    &&& 0 <= inner < 768
    &&& one_bit_apart(held(m(true, ptr, 768))[inner], held(m(false, ptr, 768))[inner])
}

/// How many flags there are.
pub open spec fn flags(m: spec_fn(bool, u64, u64) -> Reply, object: Seq<u8>) -> nat {
    bytes::total(
        object.len() / 8,
        |k: int| bytes::tally(768, |inner: int| flag_at(m, object, 8 * k, inner)),
    )
}

/// `metal` tells a flag of the layer and both its values.
pub open spec fn tells_flag(
    layer: Layer,
    m: spec_fn(bool, u64, u64) -> Reply,
    object: Seq<u8>,
    metal: Metal,
) -> bool {
    let ptr = bytes::le_u64(object, metal.field as int);
    &&& metal.class == layer.class
    &&& metal.mask == layer.mask
    &&& metal.mask != 0
    &&& flag_at(m, object, metal.field as int, metal.inner as int)
    &&& metal.base == held(m(true, ptr, 768))[metal.inner as int]
    &&& metal.off == held(m(false, ptr, 768))[metal.inner as int]
    &&& metal.bit == metal.base ^ metal.off
}

/// The changes of the fields from the `i`-th word on.
spec fn still_changes(m: spec_fn(bool, u64, u64) -> Reply, object: Seq<u8>, i: nat) -> Seq<Change>
    decreases object.len() + 8 - 8 * i,
{
    if 8 * i + 8 > object.len() {
        Seq::empty()
    } else {
        let rest = still_changes(m, object, i + 1);
        let ptr = bytes::le_u64(object, 8 * i as int);
        if region::pointer_like(ptr) && m(true, ptr, DATA).bytes(DATA) is Ok {
            let on = m(true, ptr, DATA).bytes(DATA)->Ok_0;
            let lead = Lead { field: (8 * i) as u64, ptr, on };
            moved(still(m), lead, 0).0 + rest
        } else {
            rest
        }
    }
}

proof fn lemma_moved_later(
    mem: spec_fn(nat, bool, u64, u64) -> Reply,
    lead: Lead,
    rest: Seq<Lead>,
    i: nat,
    at: nat,
)
    ensures
        moved_in(mem, seq![lead] + rest, i + 1, at) == moved_in(mem, rest, i, at),
    decreases rest.len() - i,
{
    let all = seq![lead] + rest;
    if i < rest.len() {
        assert(all[i as int + 1] == rest[i as int]);
        lemma_moved_later(mem, lead, rest, i + 1, moved(mem, rest[i as int], at).1);
    }
}

proof fn lemma_still_moments(
    m: spec_fn(bool, u64, u64) -> Reply,
    leads: Seq<Lead>,
    i: nat,
    at: nat,
    also: nat,
)
    ensures
        moved_in(still(m), leads, i, at) == moved_in(still(m), leads, i, also),
    decreases leads.len() - i,
{
    if i < leads.len() {
        let lead = leads[i as int];
        lemma_still_moments(
            m,
            leads,
            i + 1,
            moved(still(m), lead, at).1,
            moved(still(m), lead, also).1,
        );
    }
}

proof fn lemma_still_leads(
    m: spec_fn(bool, u64, u64) -> Reply,
    object: Seq<u8>,
    i: nat,
    at: nat,
    late: nat,
)
    requires
        object.len() <= u64::MAX,
        1 <= i,
    ensures
        leads_in(still(m), object, i, at).0.len() == bytes::total(
            object.len() / 8,
            |k: int|
                if k >= i && leads_at(m, object, 8 * k) {
                    1nat
                } else {
                    0nat
                },
        ),
        moved_in(still(m), leads_in(still(m), object, i, at).0, 0, late) == still_changes(
            m,
            object,
            i,
        ),
    decreases object.len() + 8 - 8 * i,
{
    let n = (object.len() / 8) as nat;
    let count = |k: int|
        if k >= i && leads_at(m, object, 8 * k) {
            1nat
        } else {
            0nat
        };
    if 8 * i + 8 <= object.len() {
        let ptr = bytes::le_u64(object, 8 * i as int);
        let later = |k: int|
            if k >= i + 1 && leads_at(m, object, 8 * k) {
                1nat
            } else {
                0nat
            };
        bytes::lemma_total(n, count, later, i as int);
        let now = if region::pointer_like(ptr) {
            at + 1
        } else {
            at
        };
        lemma_still_leads(m, object, i + 1, now, late);
        if leads_at(m, object, 8 * i as int) {
            let on = m(true, ptr, DATA).bytes(DATA)->Ok_0;
            let lead = Lead { field: (8 * i) as u64, ptr, on };
            let rest = leads_in(still(m), object, i + 1, now).0;
            lemma_moved_later(still(m), lead, rest, 0, moved(still(m), lead, late).1);
            lemma_still_moments(m, rest, 0, moved(still(m), lead, late).1, late);
            assert((seq![lead] + rest)[0] == lead);
        }
    } else {
        bytes::lemma_total_zero(n, count);
    }
}

/// `change` tells a flag and both its values.
spec fn flag_change(
    m: spec_fn(bool, u64, u64) -> Reply,
    object: Seq<u8>,
    change: Change,
) -> bool {
    let ptr = bytes::le_u64(object, change.field as int);
    &&& flag_at(m, object, change.field as int, change.inner as int)
    &&& change.on == held(m(true, ptr, 768))[change.inner as int]
    &&& change.off == held(m(false, ptr, 768))[change.inner as int]
    &&& change.bit == change.on ^ change.off
}

proof fn lemma_changes_count(
    lead: Lead,
    off: Seq<u8>,
    again: Seq<u8>,
    n: nat,
    p: spec_fn(int) -> bool,
)
    requires
        forall|i: int| 0 <= i < n ==> #[trigger] p(i) == moves(lead.on[i], off[i], again[i]),
    ensures
        changes_up_to(lead, off, again, n).len() == bytes::tally(n, p),
    decreases n,
{
    if n > 0 {
        lemma_changes_count(lead, off, again, (n - 1) as nat, p);
        assert(p(n - 1) == moves(lead.on[n - 1], off[n - 1], again[n - 1]));
    }
}

proof fn lemma_tally_none(n: nat, p: spec_fn(int) -> bool)
    requires
        forall|i: int| 0 <= i < n ==> !#[trigger] p(i),
    ensures
        bytes::tally(n, p) == 0,
    decreases n,
{
    if n > 0 {
        lemma_tally_none((n - 1) as nat, p);
        assert(!p(n - 1));
    }
}

/// The changes of one field are its flags.
proof fn lemma_field_changes(
    m: spec_fn(bool, u64, u64) -> Reply,
    object: Seq<u8>,
    lead: Lead,
    change: Change,
)
    requires
        leads_at(m, object, lead.field as int),
        lead.ptr == bytes::le_u64(object, lead.field as int),
        lead.on == held(m(true, lead.ptr, 768)),
    ensures
        ({
            let changes = moved(still(m), lead, 0).0;
            &&& changes.len() == bytes::tally(
                768,
                |inner: int| flag_at(m, object, lead.field as int, inner),
            )
            &&& changes.contains(change) <==> change.field == lead.field && flag_change(
                m,
                object,
                change,
            )
        }),
{
    let p = |inner: int| flag_at(m, object, lead.field as int, inner);
    let second = m(false, lead.ptr, 768);
    if whole(second, 768) {
        let off = held(second);
        assert forall|i: int| 0 <= i < 768 implies #[trigger] p(i) == moves(
            lead.on[i],
            off[i],
            lead.on[i],
        ) by {
            what_moves_moves_by_one_bit(lead.on[i], off[i], lead.on[i]);
        }
        lemma_changes_count(lead, off, lead.on, 768, p);
        only_bytes_that_move_count(lead, off, lead.on, 768, change);
        assert(moved(still(m), lead, 0).0 == changes_up_to(lead, off, lead.on, 768));
        if change.inner < 768 {
            assert(p(change.inner as int) == moves(
                lead.on[change.inner as int],
                off[change.inner as int],
                lead.on[change.inner as int],
            ));
        }
    } else {
        lemma_tally_none(768, p);
        assert(moved(still(m), lead, 0).0 =~= Seq::empty());
    }
}

proof fn lemma_still_changes(
    m: spec_fn(bool, u64, u64) -> Reply,
    object: Seq<u8>,
    i: nat,
    change: Change,
)
    requires
        object.len() <= u64::MAX,
        1 <= i,
    ensures
        still_changes(m, object, i).len() == bytes::total(
            object.len() / 8,
            |k: int|
                if k >= i {
                    bytes::tally(768, |inner: int| flag_at(m, object, 8 * k, inner))
                } else {
                    0
                },
        ),
        still_changes(m, object, i).contains(change) <==> change.field >= 8 * i && flag_change(
            m,
            object,
            change,
        ),
    decreases object.len() + 8 - 8 * i,
{
    let n = (object.len() / 8) as nat;
    let count = |k: int|
        if k >= i {
            bytes::tally(768, |inner: int| flag_at(m, object, 8 * k, inner))
        } else {
            0
        };
    if 8 * i + 8 <= object.len() {
        let later = |k: int|
            if k >= i + 1 {
                bytes::tally(768, |inner: int| flag_at(m, object, 8 * k, inner))
            } else {
                0
            };
        bytes::lemma_total(n, count, later, i as int);
        lemma_still_changes(m, object, i + 1, change);
        let rest = still_changes(m, object, i + 1);
        let ptr = bytes::le_u64(object, 8 * i as int);
        if leads_at(m, object, 8 * i as int) {
            let lead = Lead { field: (8 * i) as u64, ptr, on: held(m(true, ptr, 768)) };
            lemma_field_changes(m, object, lead, change);
            let new = moved(still(m), lead, 0).0;
            lemma_contains(new, rest, change);
        } else {
            lemma_tally_none(768, |inner: int| flag_at(m, object, 8 * i as int, inner));
        }
    } else {
        bytes::lemma_total_zero(n, count);
    }
}

proof fn lemma_contains(a: Seq<Change>, b: Seq<Change>, change: Change)
    ensures
        (a + b).contains(change) <==> a.contains(change) || b.contains(change),
{
    let all = a + b;
    if a.contains(change) {
        let j = choose|j: int| 0 <= j < a.len() && a[j] == change;
        assert(all[j] == change);
    }
    if b.contains(change) {
        let j = choose|j: int| 0 <= j < b.len() && b[j] == change;
        assert(all[a.len() + j] == change);
    }
}

/// With a layer that can be switched, in a memory that changes with the switch alone, a trial
/// tells the flag of the layer exactly where there is one flag and no other, and else says how
/// many there are.
pub proof fn trials_tell_the_only_flag(
    layer: Layer,
    m: spec_fn(bool, u64, u64) -> Reply,
    s: Switch,
    object: Seq<u8>,
    metal: Metal,
)
    requires
        ({
            let size: u64 = if layer.size < 256 {
                layer.size
            } else {
                256
            };
            &&& object.len() == size
            &&& m(true, layer.object, size) == (Reply::Bytes { status: 0, data: object })
        }),
    ensures
        ({
            let result = probing().play(switchable(layer, still(m)), s).1;
            &&& result == Ok::<Metal, Error>(metal) <==> flags(m, object) == 1 && tells_flag(
                layer,
                m,
                object,
                metal,
            )
            &&& result is Err <==> flags(m, object) != 1 || layer.mask == 0
            &&& result is Err ==> result == Err::<Metal, Error>(
                Error::SyncFieldNotFound {
                    size: object.len() as u64,
                    pointers: bytes::tally(
                        object.len() / 8,
                        |k: int| leads_at(m, object, 8 * k),
                    ) as u64,
                    starts_on: true,
                    turns_off: true,
                    changes: flags(m, object) as u64,
                },
            )
        }),
{
    trials_find_the_bit_that_moves(layer, still(m), s);
    let (leads, end) = leads_in(still(m), object, 1, s.asked + 4);
    let changes = moved_in(still(m), leads, 0, end + 2);
    lemma_still_leads(m, object, 1, s.asked + 4, end + 2);
    let told = Change {
        field: metal.field,
        inner: metal.inner,
        bit: metal.bit,
        on: metal.base,
        off: metal.off,
    };
    lemma_still_changes(m, object, 1, told);
    let n = (object.len() / 8) as nat;
    let count = |k: int| bytes::tally(768, |inner: int| flag_at(m, object, 8 * k, inner));
    let later = |k: int|
        if k >= 1 {
            bytes::tally(768, |inner: int| flag_at(m, object, 8 * k, inner))
        } else {
            0
        };
    lemma_tally_none(768, |inner: int| flag_at(m, object, 8 * 0int, inner));
    bytes::lemma_total(n, count, later, 0);
    assert(changes.len() == flags(m, object));
    let led = |k: int|
        if k >= 1 && leads_at(m, object, 8 * k) {
            1nat
        } else {
            0nat
        };
    lemma_total_tally(n, led, |k: int| leads_at(m, object, 8 * k));
    if changes.len() == 1 {
        let first = changes[0];
        lemma_still_changes(m, object, 1, first);
        assert(changes.contains(first));
        if changes.contains(told) {
            let j = choose|j: int| 0 <= j < changes.len() && changes[j] == told;
            assert(told == first);
        }
    }
}

proof fn lemma_total_tally(n: nat, f: spec_fn(int) -> nat, p: spec_fn(int) -> bool)
    requires
        forall|k: int|
            0 <= k < n ==> #[trigger] f(k) == if p(k) {
                1nat
            } else {
                0nat
            },
    ensures
        bytes::total(n, f) == bytes::tally(n, p),
    decreases n,
{
    if n > 0 {
        lemma_total_tally((n - 1) as nat, f, p);
        assert(f(n - 1) == f(n - 1));
    }
}

/// With a layer that can be switched but not be read, a trial gives the kernel's code.
pub proof fn trials_tell_why_the_layer_cannot_be_read(
    layer: Layer,
    mem: spec_fn(nat, bool, u64, u64) -> Reply,
    s: Switch,
    size: u64,
    status: i32,
)
    requires
        size == if layer.size < 256 {
            layer.size
        } else {
            256
        },
        forall|at: nat| (#[trigger] mem(at, true, layer.object, size)).bytes(size) == Err::<
            Seq<u8>,
            i32,
        >(status),
    ensures
        probing().play(switchable(layer, mem), s).1 == Err::<Metal, Error>(Error::Read(status)),
{
    trials_find_the_bit_that_moves(layer, mem, s);
    assert(size == looked_at(layer));
    assert(mem(s.asked + 3, true, layer.object, size).bytes(size) is Err);
}

/// A layer whose display sync cannot be switched, since it is always on or always off, is refused.
pub proof fn what_cannot_be_switched_is_refused(world: spec_fn(Query) -> Reply, on: bool)
    requires
        world(Query::SyncEnabled) == Reply::Flag(on),
    ensures
        match probing().run(world) {
            Ok(metal) => false,
            Err(Error::SyncFieldNotFound { size, pointers, starts_on, turns_off, changes }) => {
                starts_on == on && turns_off == !on
            },
            Err(e) => e is Read,
        },
{
    let layer = world(Query::NewLayer).layer();
    let p = object_read(layer, on);
    assert(probing().run(world) == p.run(world)) by {
        reveal_with_fuel(Script::run, 4);
    }
    let reply = world(Query::ReadSelf { addr: layer.object, len: looked_at(layer) });
    assert(p.run(world) == p.answered(reply).run(world));
    if let Ok(object) = reply.bytes(looked_at(layer)) {
        let follow = following(object, 1, Seq::empty());
        let f = with_leads(layer, on);
        script::lemma_run_chain(follow, f, world);
        let leads = follow.run(world);
        let compare = comparing(leads, 0, Seq::empty());
        let g = with_changes(layer, on, !on, leads.len());
        script::lemma_run_chain(compare, g, world);
        assert(f(leads).run(world) == compare.chain(g).run(world)) by {
            reveal_with_fuel(Script::run, 3);
        }
    }
}

/// The byte `inner` of 768 that could be read is `byte`.
pub open spec fn shows(reply: Reply, inner: u64, byte: u8) -> bool {
    whole(reply, 768) && inner < 768 && held(reply)[inner as int] == byte
}

/// A field of the layer, as it was read at one moment, leads to a byte that was read with display
/// sync on, later with it off, and still later with it on again.
pub open spec fn seen_to_move(
    layer: Layer,
    mem: spec_fn(nat, bool, u64, u64) -> Reply,
    metal: Metal,
    at: nat,
    on: nat,
    off: nat,
    again: nat,
) -> bool {
    let size: u64 = if layer.size < 256 {
        layer.size
    } else {
        256
    };
    let ptr = bytes::le_u64(held(mem(at, true, layer.object, size)), metal.field as int);
    &&& at < on < off < again
    &&& whole(mem(at, true, layer.object, size), size as int)
    &&& metal.field % 8 == 0
    &&& 8 <= metal.field
    &&& metal.field + 8 <= size
    &&& region::pointer_like(ptr)
    &&& shows(mem(on, true, ptr, 768), metal.inner, metal.base)
    &&& shows(mem(off, false, ptr, 768), metal.inner, metal.off)
    &&& shows(mem(again, true, ptr, 768), metal.inner, metal.base)
}

/// The lead is a field of the object that was read with display sync on from moment `at` to before
/// `end`.
spec fn led(
    mem: spec_fn(nat, bool, u64, u64) -> Reply,
    object: Seq<u8>,
    lead: Lead,
    at: nat,
    end: nat,
) -> bool {
    &&& lead.field % 8 == 0
    &&& 8 <= lead.field
    &&& lead.field + 8 <= object.len()
    &&& lead.ptr == bytes::le_u64(object, lead.field as int)
    &&& region::pointer_like(lead.ptr)
    &&& exists|t: nat|
        at <= t < end && (#[trigger] mem(t, true, lead.ptr, DATA)).bytes(DATA) == Ok::<
            Seq<u8>,
            i32,
        >(lead.on)
}

proof fn lemma_led(
    mem: spec_fn(nat, bool, u64, u64) -> Reply,
    object: Seq<u8>,
    i: nat,
    at: nat,
    from: nat,
)
    requires
        object.len() <= OBJECT_MAX,
        1 <= i,
        from <= at,
    ensures
        ({
            let (leads, end) = leads_in(mem, object, i, at);
            &&& at <= end
            &&& forall|j: int|
                0 <= j < leads.len() ==> led(mem, object, #[trigger] leads[j], from, end)
        }),
    decreases object.len() + 8 - 8 * i,
{
    if 8 * i + 8 <= object.len() {
        let ptr = bytes::le_u64(object, 8 * i as int);
        if region::pointer_like(ptr) {
            lemma_led(mem, object, i + 1, at + 1, from);
            let (leads, end) = leads_in(mem, object, i, at);
            let rest = leads_in(mem, object, i + 1, at + 1).0;
            assert forall|j: int| 0 <= j < leads.len() implies led(
                mem,
                object,
                #[trigger] leads[j],
                from,
                end,
            ) by {
                if mem(at, true, ptr, DATA).bytes(DATA) is Ok {
                    if j > 0 {
                        assert(leads[j] == rest[j - 1]);
                    }
                } else {
                    assert(leads[j] == rest[j]);
                }
            }
        } else {
            lemma_led(mem, object, i + 1, at, from);
        }
    }
}

/// The change comes from one of the leads, which was read with display sync off at moment `off`
/// and with display sync on again later.
spec fn moved_by(
    mem: spec_fn(nat, bool, u64, u64) -> Reply,
    lead: Lead,
    change: Change,
    off: nat,
) -> bool {
    let there = mem(off, false, lead.ptr, DATA).bytes(DATA);
    let again = mem(off + 2, true, lead.ptr, DATA).bytes(DATA);
    let i = change.inner as int;
    &&& there is Ok
    &&& again is Ok
    &&& change.field == lead.field
    &&& change.inner < DATA
    &&& change.on == lead.on[i]
    &&& change.on == again->Ok_0[i]
    &&& change.off == there->Ok_0[i]
}

proof fn lemma_moved_by(
    mem: spec_fn(nat, bool, u64, u64) -> Reply,
    leads: Seq<Lead>,
    i: nat,
    at: nat,
    change: Change,
) -> (found: (int, nat))
    requires
        moved_in(mem, leads, i, at).contains(change),
    ensures
        0 <= found.0 < leads.len(),
        at <= found.1,
        moved_by(mem, leads[found.0], change, found.1),
    decreases leads.len() - i,
{
    let lead = leads[i as int];
    let (new, next) = moved(mem, lead, at);
    lemma_contains(new, moved_in(mem, leads, i + 1, next), change);
    if new.contains(change) {
        let off = mem(at, false, lead.ptr, DATA).bytes(DATA)->Ok_0;
        let again = mem(at + 2, true, lead.ptr, DATA).bytes(DATA)->Ok_0;
        only_bytes_that_move_count(lead, off, again, DATA as nat, change);
        (i as int, at)
    } else {
        lemma_moved_by(mem, leads, i + 1, next, change)
    }
}

/// With a layer that can be switched, however memory changes from moment to moment, what a trial
/// tells was seen to move: the byte was read with display sync on, later with it off and still
/// later with it on again, and was one bit apart in the second reading alone.
pub proof fn what_trials_tell_was_seen_to_move(
    layer: Layer,
    mem: spec_fn(nat, bool, u64, u64) -> Reply,
    s: Switch,
    metal: Metal,
)
    requires
        probing().play(switchable(layer, mem), s).1 == Ok::<Metal, Error>(metal),
    ensures
        metal.class == layer.class,
        metal.mask == layer.mask,
        metal.mask != 0,
        metal.bit == metal.base ^ metal.off,
        one_bit_apart(metal.base, metal.off),
        exists|at: nat, on: nat, off: nat, again: nat|
            s.asked <= at && #[trigger] seen_to_move(layer, mem, metal, at, on, off, again),
{
    trials_find_the_bit_that_moves(layer, mem, s);
    let size = looked_at(layer);
    let at = s.asked + 3;
    let object = mem(at, true, layer.object, size).bytes(size)->Ok_0;
    let (leads, end) = leads_in(mem, object, 1, at + 1);
    lemma_led(mem, object, 1, at + 1, at + 1);
    let changes = moved_in(mem, leads, 0, end + 2);
    let change = changes[0];
    assert(changes.contains(change));
    let (j, off) = lemma_moved_by(mem, leads, 0, end + 2, change);
    let lead = leads[j];
    assert(led(mem, object, lead, at + 1, end));
    let on = choose|t: nat|
        at + 1 <= t < end && (#[trigger] mem(t, true, lead.ptr, DATA)).bytes(DATA) == Ok::<
            Seq<u8>,
            i32,
        >(lead.on);
    assert(seen_to_move(layer, mem, metal, at, on, off, off + 2));
    lemma_moved_bits(mem, leads, 0, end + 2, change);
    single_bits_are_powers_of_two(metal.bit, 0);
}

proof fn lemma_moved_bits(
    mem: spec_fn(nat, bool, u64, u64) -> Reply,
    leads: Seq<Lead>,
    i: nat,
    at: nat,
    change: Change,
)
    requires
        moved_in(mem, leads, i, at).contains(change),
    ensures
        change.bit == change.on ^ change.off,
        single_bit(change.bit),
    decreases leads.len() - i,
{
    let lead = leads[i as int];
    let (new, next) = moved(mem, lead, at);
    lemma_contains(new, moved_in(mem, leads, i + 1, next), change);
    if new.contains(change) {
        let off = mem(at, false, lead.ptr, DATA).bytes(DATA)->Ok_0;
        let again = mem(at + 2, true, lead.ptr, DATA).bytes(DATA)->Ok_0;
        only_bytes_that_move_count(lead, off, again, DATA as nat, change);
    } else {
        lemma_moved_bits(mem, leads, i + 1, next, change);
    }
}

} // verus!
