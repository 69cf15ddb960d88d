//! The segments of a loaded 64-bit Mach-O image.
use vstd::prelude::*;
use vstd::string::StringSliceAdditionalSpecFns;

use crate::bytes;
use crate::error::Error;
use crate::memory;
use crate::memory::{Answer, Query, Reply, Search};
use crate::region;
use crate::region::Region;
use crate::script;
use crate::script::Script;

verus! {

/// The first word of a 64-bit Mach-O file.
pub const MH_MAGIC_64: u32 = 0xfeedfacf;

/// The load command of a segment.
pub const LC_SEGMENT_64: u32 = 0x19;

/// How many bytes the header has.
pub const HEADER: u64 = 32;

/// The fewest bytes of a segment's load command.
pub const SEGMENT: u32 = 72;

/// The most load commands of an image.
pub const COMMANDS_MAX: u32 = 1024;

/// The most bytes that the load commands of an image take up.
pub const COMMANDS_SIZE_MAX: u32 = 0x10_0000;

/// A segment as its load command gives it.
pub struct Segment {
    /// Where it wants to be loaded.
    pub vm: u64,
    /// How many bytes it has.
    pub size: u64,
    /// Its protection bits.
    pub prot: i32,
    /// It holds the program text.
    pub text: bool,
}

/// The header is that of a 64-bit image, and its load commands are not too many or too large.
pub open spec fn header_fits(header: Seq<u8>) -> bool {
    &&& bytes::le_u32(header, 0) == MH_MAGIC_64
    &&& bytes::le_u32(header, 16) <= COMMANDS_MAX
    &&& bytes::le_u32(header, 20) <= COMMANDS_SIZE_MAX
}

/// The segment whose load command stands at `at`.
pub open spec fn segment_at(data: Seq<u8>, at: int) -> Segment {
    Segment {
        vm: bytes::le_u64(data, at + 24),
        size: bytes::le_u64(data, at + 32),
        prot: bytes::le_i32(data, at + 60),
        text: bytes::occurs_at(data, "__TEXT".spec_bytes(), at + 8) && data[at + 14] == 0,
    }
}

/// The segments among the `n` load commands at `at`; nothing where a command is cut off or
/// claims fewer bytes than every command has.
pub open spec fn segments(data: Seq<u8>, at: int, n: nat) -> Option<Seq<Segment>>
    decreases n,
{
    if n == 0 {
        Some(Seq::empty())
    } else {
        let cmd = bytes::le_u32(data, at);
        let len = bytes::le_u32(data, at + 4);
        if at + 8 > data.len() || len < 8 || at + len > data.len() {
            None
        } else {
            match segments(data, at + len, (n - 1) as nat) {
                Some(rest) => if cmd == LC_SEGMENT_64 && len >= SEGMENT {
                    Some(seq![segment_at(data, at)] + rest)
                } else {
                    Some(rest)
                },
                None => None,
            }
        }
    }
}

/// Where the text segment wants to be loaded. The last one counts where there are several.
pub open spec fn text_of(segments: Seq<Segment>) -> Option<u64>
    decreases segments.len(),
{
    if segments.len() == 0 {
        None
    } else if segments.last().text {
        Some(segments.last().vm)
    } else {
        text_of(segments.drop_last())
    }
}

/// The segments, moved so that what wants to be at `text` is at `base`.
pub open spec fn moved(segments: Seq<Segment>, base: u64, text: u64) -> Seq<Region> {
    Seq::new(
        segments.len(),
        |i: int|
            Region {
                start: region::offset(segments[i].vm, base - text),
                size: segments[i].size,
                prot: segments[i].prot,
            },
    )
}

/// The regions of the image that is loaded at `base` and has these `n` load commands.
pub open spec fn image(base: u64, n: nat, data: Seq<u8>) -> Result<Seq<Region>, Error> {
    match segments(data, 0, n) {
        Some(segments) => match text_of(segments) {
            Some(text) => Ok(moved(segments, base, text)),
            None => Err(Error::BadMacho),
        },
        None => Err(Error::BadMacho),
    }
}

/// Reads the `n` load commands of the image at `base`, which take up `len` bytes.
pub open spec fn commands_read(base: u64, n: u32, len: u32) -> Search<
    Result<Seq<Region>, Error>,
> {
    Script::Ask(
        Query::Read { addr: region::offset(base, HEADER as int), len: len as u64 },
        |reply: Reply|
            match reply.bytes(len as u64) {
                Ok(data) => Script::End(image(base, n as nat, data)),
                Err(status) => Script::End(Err(Error::Read(status))),
            },
    )
}

/// Reads the regions of the image at `base`.
pub open spec fn reading(base: u64) -> Search<Result<Seq<Region>, Error>> {
    Script::Ask(
        Query::Read { addr: base, len: HEADER },
        |reply: Reply|
            match reply.bytes(HEADER) {
                Ok(header) => if header_fits(header) {
                    commands_read(base, bytes::le_u32(header, 16), bytes::le_u32(header, 20))
                } else {
                    Script::End(Err(Error::BadMacho))
                },
                Err(status) => Script::End(Err(Error::Read(status))),
            },
    )
}

/// The regions as a mathematical value.
pub open spec fn seen(regions: Result<Vec<Region>, Error>) -> Result<Seq<Region>, Error> {
    match regions {
        Ok(regions) => Ok(regions@),
        Err(error) => Err(error),
    }
}

/// `found`, and what is found after it.
spec fn joined(found: Seq<Segment>, rest: Option<Seq<Segment>>) -> Option<Seq<Segment>> {
    match rest {
        Some(rest) => Some(found + rest),
        None => None,
    }
}

/// The segments among the `n` load commands in `data`.
fn find_segments(data: &[u8], n: u32) -> (found: Option<Vec<Segment>>)
    ensures
        match found {
            Some(found) => segments(data@, 0, n as nat) == Some(found@),
            None => segments(data@, 0, n as nat) is None,
        },
{
    let mut found: Vec<Segment> = Vec::new();
    let mut at: usize = 0;
    let mut left: u32 = n;
    assert(found@ + segments(data@, 0, n as nat).unwrap_or(Seq::empty()) =~= segments(
        data@,
        0,
        n as nat,
    ).unwrap_or(Seq::empty()));
    while left > 0
        invariant
            at <= data@.len(),
            joined(found@, segments(data@, at as int, left as nat)) == segments(
                data@,
                0,
                n as nat,
            ),
        decreases left,
    {
        if data.len() - at < 8 {
            return None;
        }
        let cmd: u32 = bytes::read_u32(data, at);
        let len: u32 = bytes::read_u32(data, at + 4);
        if len < 8 || len as usize > data.len() - at {
            return None;
        }
        let ghost before = found@;
        let ghost rest = segments(data@, at + len, (left - 1) as nat);
        if cmd == LC_SEGMENT_64 && len >= SEGMENT {
            let segment = Segment {
                vm: bytes::read_u64(data, at + 24),
                size: bytes::read_u64(data, at + 32),
                prot: bytes::read_i32(data, at + 60),
                text: bytes::is_at(data, "__TEXT".as_bytes(), at + 8) && data[at + 14] == 0,
            };
            found.push(segment);
            proof {
                if rest is Some {
                    assert(before + (seq![segment] + rest->0) =~= found@ + rest->0);
                }
            }
        }
        at += len as usize;
        left -= 1;
    }
    assert(found@ + Seq::<Segment>::empty() =~= found@);
    Some(found)
}

/// Where the text segment wants to be loaded.
fn find_text(segments: &[Segment]) -> (text: Option<u64>)
    ensures
        text == text_of(segments@),
{
    let mut i: usize = segments.len();
    assert(segments@.take(i as int) =~= segments@);
    while i > 0
        invariant
            i <= segments@.len(),
            text_of(segments@) == text_of(segments@.take(i as int)),
        decreases i,
    {
        assert(segments@.take(i as int).drop_last() =~= segments@.take(i - 1));
        if segments[i - 1].text {
            return Some(segments[i - 1].vm);
        }
        i -= 1;
    }
    None
}

/// The regions of the image that is loaded at `base` and has these `n` load commands.
pub fn parse(base: u64, n: u32, data: &[u8]) -> (regions: Result<Vec<Region>, Error>)
    ensures
        seen(regions) == image(base, n as nat, data@),
{
    let segments = match find_segments(data, n) {
        Some(segments) => segments,
        None => {
            return Err(Error::BadMacho);
        },
    };
    let text: u64 = match find_text(&segments) {
        Some(text) => text,
        None => {
            return Err(Error::BadMacho);
        },
    };
    let slide: u64 = base.wrapping_sub(text);
    let mut regions: Vec<Region> = Vec::new();
    let mut i: usize = 0;
    while i < segments.len()
        invariant
            i <= segments@.len(),
            slide == region::offset(base, -text),
            regions@ == moved(segments@, base, text).take(i as int),
        decreases segments@.len() - i,
    {
        let start: u64 = region::address(segments[i].vm, slide);
        let region = Region { start, size: segments[i].size, prot: segments[i].prot };
        regions.push(region);
        i += 1;
        assert(regions@ =~= moved(segments@, base, text).take(i as int));
    }
    assert(regions@ =~= moved(segments@, base, text));
    Ok(regions)
}

enum State {
    Header { base: u64 },
    Commands { base: u64, n: u32, len: u32 },
    End(Result<Vec<Region>, Error>),
}

/// A reading of an image that is under way.
pub struct ImageReader {
    state: State,
}

impl View for ImageReader {
    type V = Search<Result<Seq<Region>, Error>>;

    closed spec fn view(&self) -> Search<Result<Seq<Region>, Error>> {
        match self.state {
            State::Header { base } => reading(base),
            State::Commands { base, n, len } => commands_read(base, n, len),
            State::End(regions) => Script::End(seen(regions)),
        }
    }
}

impl ImageReader {
    /// Reads the regions of the image at `base`.
    pub fn image_regions(base: u64) -> (reader: ImageReader)
        ensures
            reader@ == reading(base),
    {
        ImageReader { state: State::Header { base } }
    }

    /// What to ask next; nothing once the reading is over.
    pub fn query(&self) -> (query: Option<Query>)
        ensures
            query == self@.question(),
    {
        match self.state {
            State::Header { base } => Some(Query::Read { addr: base, len: HEADER }),
            State::Commands { base, len, .. } => Some(
                Query::Read { addr: region::address(base, HEADER), len: len as u64 },
            ),
            State::End(_) => None,
        }
    }

    /// Takes the answer to what `query` asks.
    pub fn answer(self, answer: Answer) -> (reader: ImageReader)
        ensures
            reader@ == self@.answered(answer@),
    {
        match self.state {
            State::Header { base } => match answer.bytes(HEADER) {
                Ok(header) => {
                    let n: u32 = bytes::read_u32(&header, 16);
                    let len: u32 = bytes::read_u32(&header, 20);
                    if bytes::read_u32(&header, 0) != MH_MAGIC_64 || n > COMMANDS_MAX || len
                        > COMMANDS_SIZE_MAX {
                        return ImageReader { state: State::End(Err(Error::BadMacho)) };
                    }
                    ImageReader { state: State::Commands { base, n, len } }
                },
                Err(status) => ImageReader { state: State::End(Err(Error::Read(status))) },
            },
            State::Commands { base, n, len } => match answer.bytes(len as u64) {
                Ok(data) => ImageReader { state: State::End(parse(base, n, &data)) },
                Err(status) => ImageReader { state: State::End(Err(Error::Read(status))) },
            },
            State::End(regions) => ImageReader { state: State::End(regions) },
        }
    }

    /// The regions, once there is nothing more to ask.
    pub fn regions(self) -> (regions: Result<Vec<Region>, Error>)
        ensures
            self@ matches Script::End(result) ==> seen(regions) == result,
    {
        match self.state {
            State::End(regions) => regions,
            _ => Err(Error::BadMacho),
        }
    }
}

/// The text segment of a loaded image is at its base.
pub proof fn text_is_at_the_base(segments: Seq<Segment>, base: u64)
    requires
        text_of(segments) is Some,
    ensures
        exists|i: int|
            0 <= i < segments.len() && segments[i].text && (#[trigger] moved(
                segments,
                base,
                text_of(segments)->0,
            )[i]).start == base,
{
    let text = text_of(segments)->0;
    lemma_text(segments);
    let i = choose|i: int| 0 <= i < segments.len() && (#[trigger] segments[i]).text
        && segments[i].vm == text;
    assert(moved(segments, base, text)[i].start == base);
}

proof fn lemma_text(segments: Seq<Segment>)
    requires
        text_of(segments) is Some,
    ensures
        exists|i: int|
            0 <= i < segments.len() && (#[trigger] segments[i]).text && segments[i].vm == text_of(
                segments,
            )->0,
    decreases segments.len(),
{
    if segments.last().text {
        assert(segments[segments.len() - 1].text);
    } else {
        let before = segments.drop_last();
        lemma_text(before);
        let i = choose|i: int| 0 <= i < before.len() && (#[trigger] before[i]).text && before[i].vm
            == text_of(before)->0;
        assert(segments[i] == before[i]);
    }
}

/// The segments of a loaded image keep their distances, up to whole rounds of the address
/// space.
pub proof fn segments_keep_their_distances(
    segments: Seq<Segment>,
    base: u64,
    text: u64,
    i: int,
    j: int,
)
    requires
        0 <= i < segments.len(),
        0 <= j < segments.len(),
    ensures
        region::offset(moved(segments, base, text)[i].start, segments[j].vm - segments[i].vm)
            == moved(segments, base, text)[j].start,
{
}

/// Reading an image writes nothing.
pub proof fn reading_is_harmless(base: u64)
    ensures
        script::only_asks(reading(base), memory::harmless()),
{
    let ok = memory::harmless();
    let p = reading(base);
    assert forall|a: Reply| script::only_asks(#[trigger] p.answered(a), ok) by {
        if let Ok(header) = a.bytes(HEADER) {
            let q = commands_read(
                base,
                bytes::le_u32(header, 16),
                bytes::le_u32(header, 20),
            );
            assert forall|b: Reply| script::only_asks(#[trigger] q.answered(b), ok) by {}
            script::lemma_only_ask(q, ok);
        }
    }
    script::lemma_only_ask(p, ok);
}

/// The load commands in `data` begin at these places, and end at the last of them: each is as
/// long as its second word says, eight bytes at least, and lies in the data.
pub open spec fn commands_at(data: Seq<u8>, places: Seq<int>) -> bool {
    &&& places.len() > 0
    &&& forall|i: int|
        0 <= i < places.len() - 1 ==> {
            &&& 0 <= #[trigger] places[i]
            &&& places[i] + 8 <= data.len()
            &&& bytes::le_u32(data, places[i] + 4) >= 8
            &&& places[i + 1] == places[i] + bytes::le_u32(data, places[i] + 4)
            &&& places[i + 1] <= data.len()
        }
}

/// The load command at `at` is that of a segment: it has the number 0x19, and 72 bytes or any
/// number above.
pub open spec fn has_segment(data: Seq<u8>) -> spec_fn(int) -> bool {
    |at: int| bytes::le_u32(data, at) == 0x19 && bytes::le_u32(data, at + 4) >= 72
}

/// The name that begins at `at` is `__TEXT`, and nothing more.
pub open spec fn named_text(data: Seq<u8>, at: int) -> bool {
    &&& data[at] == '_' as u8
    &&& data[at + 1] == '_' as u8
    &&& data[at + 2] == 'T' as u8
    &&& data[at + 3] == 'E' as u8
    &&& data[at + 4] == 'X' as u8
    &&& data[at + 5] == 'T' as u8
    &&& data[at + 6] == 0
}

/// The segment that the load command at a place is: its address at byte 24, its size at byte 32,
/// its first protection at byte 60, and its name at byte 8.
pub open spec fn segment_there(data: Seq<u8>) -> spec_fn(int) -> Segment {
    |at: int|
        Segment {
            vm: bytes::le_u64(data, at + 24),
            size: bytes::le_u64(data, at + 32),
            prot: bytes::le_i32(data, at + 60),
            text: named_text(data, at + 8),
        }
}

/// The segments among the load commands at these places, in order.
pub open spec fn segments_there(data: Seq<u8>, places: Seq<int>) -> Seq<Segment> {
    places.drop_last().filter(has_segment(data)).map_values(segment_there(data))
}

proof fn lemma_text_name(data: Seq<u8>, at: int)
    requires
        0 <= at,
        at + 7 <= data.len(),
    ensures
        (bytes::occurs_at(data, "__TEXT".spec_bytes(), at) && data[at + 6] == 0) == named_text(
            data,
            at,
        ),
{
    let name = "__TEXT".spec_bytes();
    reveal_strlit("__TEXT");
    assert(vstd::string::is_ascii("__TEXT"));
    vstd::string::is_ascii_spec_bytes("__TEXT");
    assert(name.len() == 6);
    assert(name[0] == '_' as u8 && name[1] == '_' as u8 && name[2] == 'T' as u8 && name[3]
        == 'E' as u8 && name[4] == 'X' as u8 && name[5] == 'T' as u8);
    let part = data.subrange(at, at + 6);
    assert(part[0] == data[at] && part[1] == data[at + 1] && part[2] == data[at + 2] && part[3]
        == data[at + 3] && part[4] == data[at + 4] && part[5] == data[at + 5]);
    if named_text(data, at) {
        assert(part =~= name);
    }
}

proof fn lemma_segments_there(data: Seq<u8>, places: Seq<int>)
    requires
        commands_at(data, places),
        0 <= places[0],
    ensures
        segments(data, places[0], (places.len() - 1) as nat) == Some(segments_there(data, places)),
    decreases places.len(),
{
    let n = (places.len() - 1) as nat;
    let here = places.drop_last();
    let pred = has_segment(data);
    let f = segment_there(data);
    if n == 0 {
        assert(here =~= Seq::empty());
        reveal(Seq::filter);
        assert(segments_there(data, places) =~= Seq::empty());
    } else {
        let at = places[0];
        let rest = places.skip(1);
        assert(places[0] + 8 <= data.len());
        assert forall|i: int| 0 <= i < rest.len() - 1 implies {
            &&& 0 <= #[trigger] rest[i]
            &&& rest[i] + 8 <= data.len()
            &&& bytes::le_u32(data, rest[i] + 4) >= 8
            &&& rest[i + 1] == rest[i] + bytes::le_u32(data, rest[i] + 4)
            &&& rest[i + 1] <= data.len()
        } by {
            assert(rest[i] == places[i + 1]);
            assert(rest[i + 1] == places[i + 2]);
        }
        assert(rest[0] == places[1]);
        lemma_segments_there(data, rest);
        assert(here =~= seq![at] + rest.drop_last());
        Seq::filter_distributes_over_add(seq![at], rest.drop_last(), pred);
        let later = rest.drop_last().filter(pred);
        assert(seq![at].filter(pred) =~= if pred(at) {
            seq![at]
        } else {
            Seq::empty()
        }) by {
            reveal(Seq::filter);
            assert(seq![at].drop_last() =~= Seq::empty());
            assert(seq![at].drop_last().filter(pred) =~= Seq::empty());
        }
        if pred(at) {
            lemma_text_name(data, at + 8);
            assert(segment_at(data, at) == f(at));
            assert(segments_there(data, places) =~= seq![f(at)] + later.map_values(f));
        } else {
            assert(segments_there(data, places) =~= later.map_values(f));
        }
    }
}

/// Where the load commands follow each other in the data, the segments are those of the commands
/// with the number of one and at least its length, whatever else they hold, in order.
pub proof fn segments_are_those_of_the_commands(data: Seq<u8>, places: Seq<int>)
    requires
        commands_at(data, places),
        places[0] == 0,
    ensures
        segments(data, 0, (places.len() - 1) as nat) == Some(segments_there(data, places)),
{
    lemma_segments_there(data, places);
}

/// There are segments only where the load commands follow each other in the data.
pub proof fn segments_need_their_commands(data: Seq<u8>, at: int, n: nat)
    requires
        0 <= at,
    ensures
        segments(data, at, n) is Some ==> exists|places: Seq<int>| #[trigger]
            commands_at(data, places) && places.len() == n + 1 && places[0] == at,
    decreases n,
{
    if segments(data, at, n) is Some {
        if n == 0 {
            let places = seq![at];
            assert(commands_at(data, places));
        } else {
            let len = bytes::le_u32(data, at + 4);
            segments_need_their_commands(data, at + len, (n - 1) as nat);
            let rest = choose|rest: Seq<int>| #[trigger]
                commands_at(data, rest) && rest.len() == n && rest[0] == at + len;
            let places = seq![at] + rest;
            assert forall|i: int| 0 <= i < places.len() - 1 implies {
                &&& 0 <= #[trigger] places[i]
                &&& places[i] + 8 <= data.len()
                &&& bytes::le_u32(data, places[i] + 4) >= 8
                &&& places[i + 1] == places[i] + bytes::le_u32(data, places[i] + 4)
                &&& places[i + 1] <= data.len()
            } by {
                if i > 0 {
                    assert(places[i] == rest[i - 1]);
                    assert(places[i + 1] == rest[i]);
                } else {
                    assert(places[1] == rest[0]);
                }
            }
            assert(commands_at(data, places));
        }
    }
}

/// Segment `t` is the last of the text segments.
pub open spec fn last_text(segments: Seq<Segment>, t: int) -> bool {
    &&& 0 <= t < segments.len()
    &&& segments[t].text
    &&& forall|i: int| t < i < segments.len() ==> !(#[trigger] segments[i]).text
}

/// The text segment that counts is the last one, if there is one.
pub proof fn the_last_text_counts(segments: Seq<Segment>, t: int)
    ensures
        last_text(segments, t) ==> text_of(segments) == Some(segments[t].vm),
        text_of(segments) is None <==> forall|i: int|
            0 <= i < segments.len() ==> !(#[trigger] segments[i]).text,
    decreases segments.len(),
{
    if segments.len() > 0 {
        let before = segments.drop_last();
        let last = segments.len() - 1;
        the_last_text_counts(before, t);
        if !segments.last().text {
            assert(!segments[last].text);
            if last_text(segments, t) {
                assert(last_text(before, t));
            }
            assert forall|i: int| 0 <= i < before.len() implies #[trigger] before[i].text
                == segments[i].text by {}
            if text_of(before) is None {
                assert forall|i: int| 0 <= i < segments.len() implies !(
                #[trigger] segments[i]).text by {
                    if i < last {
                        assert(!before[i].text);
                    }
                }
            } else if forall|i: int| 0 <= i < segments.len() ==> !(#[trigger] segments[i]).text {
                assert forall|i: int| 0 <= i < before.len() implies !(
                #[trigger] before[i]).text by {
                    assert(!segments[i].text);
                }
            }
        } else {
            assert(segments[last].text);
        }
    }
}

/// The header is that of a 64-bit image: its first four bytes are `cf fa ed fe`, it has at most
/// 1024 load commands, and they take up at most a mebibyte.
pub open spec fn is_header(header: Seq<u8>) -> bool {
    &&& header.len() == 32
    &&& header[0] == 0xcf && header[1] == 0xfa && header[2] == 0xed && header[3] == 0xfe
    &&& bytes::le_u32(header, 16) <= 1024
    &&& bytes::le_u32(header, 20) <= 0x10_0000
}

/// In a world that does not change, the regions of an image are its segments, moved so that its
/// text is where the image is; they are read where the header fits and the load commands, as
/// many as it says, follow each other in the bytes after it. What cannot be read is told with
/// the kernel's code, and what does not fit as a bad image.
pub proof fn images_are_their_segments(
    world: spec_fn(Query) -> Reply,
    base: u64,
    header: Seq<u8>,
    data: Seq<u8>,
    places: Seq<int>,
    t: int,
)
    requires
        world(Query::Read { addr: base, len: 32 }) == (Reply::Bytes { status: 0, data: header }),
        header.len() == 32,
    ensures
        !is_header(header) ==> reading(base).run(world) == Err::<Seq<Region>, Error>(
            Error::BadMacho,
        ),
        is_header(header) && world(
            Query::Read {
                addr: region::offset(base, 32),
                len: bytes::le_u32(header, 20) as u64,
            },
        ) == (Reply::Bytes { status: 0, data }) && data.len() == bytes::le_u32(header, 20) ==> {
            let result = reading(base).run(world);
            let n = bytes::le_u32(header, 16);
            &&& result matches Err(error) ==> error == Error::BadMacho
            &&& result is Ok ==> exists|p: Seq<int>| #[trigger]
                commands_at(data, p) && p.len() == n + 1 && p[0] == 0
            &&& commands_at(data, places) && places.len() == n + 1 && places[0] == 0 ==> {
                let found = segments_there(data, places);
                &&& result is Err <==> forall|i: int|
                    0 <= i < found.len() ==> !(#[trigger] found[i]).text
                &&& last_text(found, t) ==> {
                    &&& result is Ok
                    &&& result->Ok_0.len() == found.len()
                    &&& forall|i: int|
                        0 <= i < found.len() ==> #[trigger] result->Ok_0[i] == (Region {
                            start: region::offset(found[i].vm, base - found[t].vm),
                            size: found[i].size,
                            prot: found[i].prot,
                        })
                }
            }
        },
{
    reveal_with_fuel(Script::run, 3);
    assert(is_header(header) == header_fits(header)) by {
        bytes::words_are_little_endian(header, 0);
        let word = bytes::le_u32(header, 0);
        assert(word == header[0] + 0x100 * header[1] + 0x1_0000 * header[2] + 0x100_0000
            * header[3]);
    }
    if is_header(header) {
        let n = bytes::le_u32(header, 16);
        let len = bytes::le_u32(header, 20);
        let second = world(Query::Read { addr: region::offset(base, 32), len: len as u64 });
        if second == (Reply::Bytes { status: 0, data }) && data.len() == len {
            assert(reading(base).run(world) == image(base, n as nat, data));
            segments_need_their_commands(data, 0, n as nat);
            if commands_at(data, places) && places.len() == n + 1 && places[0] == 0 {
                lemma_segments_there(data, places);
                the_last_text_counts(segments_there(data, places), t);
            }
        }
    }
}

/// In a world that does not change, what cannot be read of an image is told with the kernel's
/// code.
pub proof fn unreadable_images_are_told(
    world: spec_fn(Query) -> Reply,
    base: u64,
    header: Seq<u8>,
    code: i32,
)
    ensures
        world(Query::Read { addr: base, len: 32 }).bytes(32) == Err::<Seq<u8>, i32>(code)
            ==> reading(base).run(world) == Err::<Seq<Region>, Error>(Error::Read(code)),
        world(Query::Read { addr: base, len: 32 }).bytes(32) == Ok::<Seq<u8>, i32>(header)
            && is_header(header) && world(
            Query::Read {
                addr: region::offset(base, 32),
                len: bytes::le_u32(header, 20) as u64,
            },
        ).bytes(bytes::le_u32(header, 20) as u64) == Err::<Seq<u8>, i32>(code) ==> reading(
            base,
        ).run(world) == Err::<Seq<Region>, Error>(Error::Read(code)),
{
    reveal_with_fuel(Script::run, 3);
    if world(Query::Read { addr: base, len: 32 }).bytes(32) == Ok::<Seq<u8>, i32>(header)
        && is_header(header) {
        assert(header_fits(header)) by {
            let word = bytes::le_u32(header, 0);
            assert(word == header[0] + 0x100 * header[1] + 0x1_0000 * header[2] + 0x100_0000
                * header[3]);
        }
    }
}

} // verus!
