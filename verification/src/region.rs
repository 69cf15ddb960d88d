//! Address ranges of a process, and the walk that lists them.
use vstd::prelude::*;

verus! {

/// A mapped range of addresses with its protection bits.
#[derive(Clone, Copy, Debug, PartialEq, Eq, Structural)]
pub struct Region {
    pub start: u64,
    pub size: u64,
    pub prot: i32,
}

/// The kernel's code for success.
pub const KERN_SUCCESS: i32 = 0;

/// The sum, or the largest word where the sum does not fit.
pub open spec fn capped_sum(a: u64, b: u64) -> int {
    if a + b > u64::MAX {
        u64::MAX as int
    } else {
        a + b
    }
}

/// The sum of two addresses, modulo two to the sixty-fourth.
pub open spec fn offset(addr: u64, by: int) -> u64 {
    ((addr + by) % 0x1_0000_0000_0000_0000) as u64
}

/// `value` is what a pointer to a heap object looks like: above the first four gigabytes, in
/// user space, and aligned to eight.
pub open spec fn pointer_like(value: u64) -> bool {
    0x1_0000_0000 <= value < 0x8000_0000_0000 && value % 8 == 0
}

/// The protection bits let the region be read.
pub open spec fn readable(prot: i32) -> bool {
    prot & 1 != 0
}

/// The protection bits let the region be read and written.
pub open spec fn read_write(prot: i32) -> bool {
    prot & 3 == 3
}

/// The protection bits let the region be executed.
pub open spec fn executable(prot: i32) -> bool {
    prot & 4 != 0
}

impl Region {
    /// Where the region ends. An end beyond the address space counts as the last address.
    pub open spec fn end(self) -> int {
        capped_sum(self.start, self.size)
    }

    /// The region begins below `addr` and ends at or below it.
    pub open spec fn below(self, addr: u64) -> bool {
        self.start < addr && self.end() <= addr
    }

    /// The region can be read, and `size` bytes at `addr` lie in it. Ends beyond the address
    /// space count as the last address.
    pub open spec fn holds(self, addr: u64, size: u64) -> bool {
        &&& readable(self.prot)
        &&& self.start <= addr
        &&& capped_sum(addr, size) <= capped_sum(self.start, self.size)
    }
}

/// Some region holds `size` bytes at `addr`.
pub open spec fn held(regions: Seq<Region>, addr: u64, size: u64) -> bool {
    exists|i: int| 0 <= i < regions.len() && (#[trigger] regions[i]).holds(addr, size)
}

/// The address `by` bytes after `addr`, going round at the end of the address space.
pub fn address(addr: u64, by: u64) -> (sum: u64)
    ensures
        sum == offset(addr, by as int),
{
    addr.wrapping_add(by)
}

/// Whether `ptr` looks like a pointer.
pub fn is_ptr(ptr: u64) -> (yes: bool)
    ensures
        yes == pointer_like(ptr),
{
    assert((ptr & 7 == 0) == (ptr % 8 == 0)) by (bit_vector);
    ptr >= 0x1_0000_0000 && ptr < 0x8000_0000_0000 && ptr & 7 == 0
}

/// Whether `size` bytes at `addr` lie in one of the readable regions.
pub fn inside(regions: &[Region], addr: u64, size: u64) -> (yes: bool)
    ensures
        yes == held(regions@, addr, size),
{
    let mut i: usize = 0;
    while i < regions.len()
        invariant
            i <= regions@.len(),
            forall|k: int| 0 <= k < i ==> !(#[trigger] regions@[k]).holds(addr, size),
        decreases regions@.len() - i,
    {
        let region = regions[i];
        if region.prot & 1 != 0 && addr >= region.start && addr.saturating_add(size)
            <= region.start.saturating_add(region.size) {
            assert(regions@[i as int].holds(addr, size));
            return true;
        }
        i += 1;
    }
    false
}

/// A copy of the regions.
pub fn copy(regions: &[Region]) -> (copied: Vec<Region>)
    ensures
        copied@ == regions@,
{
    let mut copied: Vec<Region> = Vec::new();
    let mut i: usize = 0;
    while i < regions.len()
        invariant
            i <= regions@.len(),
            copied@ == regions@.take(i as int),
        decreases regions@.len() - i,
    {
        copied.push(regions[i]);
        i += 1;
        assert(copied@ =~= regions@.take(i as int));
    }
    assert(copied@ =~= regions@);
    copied
}

/// What the kernel says of the first region at or above an address.
#[derive(Clone, Copy, Debug, PartialEq, Eq, Structural)]
pub struct RegionReply {
    pub status: i32,
    pub region: Region,
}

/// How far a walk over the regions has come: the address to look up next, or nothing once the
/// walk is over, and the regions found so far.
pub struct WalkState {
    pub at: Option<u64>,
    pub found: Seq<Region>,
}

impl WalkState {
    /// A walk that has seen nothing. It begins at address one.
    pub open spec fn start() -> WalkState {
        WalkState { at: Some(1), found: Seq::empty() }
    }

    /// The walk after the kernel's reply for the address `at`. A failed look-up ends the walk.
    /// A region that is not empty is kept, and the walk goes on at its end, unless that end is
    /// not above its start.
    pub open spec fn replied(self, reply: RegionReply) -> WalkState {
        let end = capped_sum(reply.region.start, reply.region.size);
        if self.at is None {
            self
        } else if reply.status != KERN_SUCCESS {
            WalkState { at: None, found: self.found }
        } else {
            WalkState {
                at: if end > reply.region.start {
                    Some(end as u64)
                } else {
                    None
                },
                found: if reply.region.size > 0 {
                    self.found.push(reply.region)
                } else {
                    self.found
                },
            }
        }
    }

    /// The walk after these replies, from its start.
    pub open spec fn walked(replies: Seq<RegionReply>) -> WalkState
        decreases replies.len(),
    {
        if replies.len() == 0 {
            WalkState::start()
        } else {
            WalkState::walked(replies.drop_last()).replied(replies.last())
        }
    }

    /// No region found is empty, each begins below the next and ends at or below where that
    /// begins, and so for the address to look up next. Ends beyond the address space count as the
    /// last address.
    pub open spec fn ascending(self) -> bool {
        &&& forall|i: int| 0 <= i < self.found.len() ==> (#[trigger] self.found[i]).size > 0
        &&& forall|i: int, j: int|
            0 <= i < j < self.found.len() ==> (#[trigger] self.found[i]).below(
                (#[trigger] self.found[j]).start,
            )
        &&& self.at matches Some(at) ==> forall|i: int|
            0 <= i < self.found.len() ==> (#[trigger] self.found[i]).below(at)
    }
}

/// Each region that the kernel gives begins at or above the address that was asked for.
pub open spec fn upwards(replies: Seq<RegionReply>) -> bool {
    forall|i: int|
        0 <= i < replies.len() ==> above(
            WalkState::walked(replies.take(i)),
            #[trigger] replies[i],
        )
}

/// The region in the reply, if there is one, begins at or above the address that was asked for.
pub open spec fn above(walk: WalkState, reply: RegionReply) -> bool {
    walk.at matches Some(at) ==> reply.status == KERN_SUCCESS ==> at <= reply.region.start
}

/// The walk was still going on at this reply, and the reply gave a region that is not empty.
pub open spec fn reported(replies: Seq<RegionReply>, i: int) -> bool {
    &&& 0 <= i < replies.len()
    &&& WalkState::walked(replies.take(i)).at is Some
    &&& replies[i].status == KERN_SUCCESS
    &&& replies[i].region.size > 0
}

/// The walk over all regions of a process, from the lowest address up.
pub struct RegionWalk {
    addr: Option<u64>,
    regions: Vec<Region>,
}

impl View for RegionWalk {
    type V = WalkState;

    closed spec fn view(&self) -> WalkState {
        WalkState { at: self.addr, found: self.regions@ }
    }
}

impl RegionWalk {
    /// A walk that has seen nothing.
    pub fn new() -> (walk: RegionWalk)
        ensures
            walk@ == WalkState::start(),
    {
        let walk = RegionWalk { addr: Some(1), regions: Vec::new() };
        assert(walk@.found =~= Seq::empty());
        walk
    }

    /// The address to look up next.
    pub fn query(&self) -> (addr: Option<u64>)
        ensures
            addr == self@.at,
    {
        self.addr
    }

    /// Takes the kernel's reply for the address that `query` gave.
    pub fn reply(&mut self, reply: RegionReply)
        ensures
            final(self)@ == old(self)@.replied(reply),
    {
        if self.addr.is_none() {
            return ;
        }
        if reply.status != KERN_SUCCESS {
            self.addr = None;
            return ;
        }
        if reply.region.size > 0 {
            self.regions.push(reply.region);
        }
        let next: u64 = reply.region.start.saturating_add(reply.region.size);
        if next <= reply.region.start {
            self.addr = None;
        } else {
            self.addr = Some(next);
        }
    }

    /// The regions found, in the order of the walk.
    pub fn regions(self) -> (regions: Vec<Region>)
        ensures
            regions@ == self@.found,
    {
        self.regions
    }
}

/// Whatever the kernel replies, a walk never lists an empty region.
pub proof fn walks_list_no_empty_region(replies: Seq<RegionReply>)
    ensures
        forall|i: int|
            0 <= i < WalkState::walked(replies).found.len() ==> (#[trigger] WalkState::walked(
                replies,
            ).found[i]).size > 0,
    decreases replies.len(),
{
    if replies.len() > 0 {
        walks_list_no_empty_region(replies.drop_last());
    }
}

/// Where the kernel replies with regions at or above the addresses asked for, a walk lists them
/// in ascending order, without overlap.
pub proof fn walks_ascend(replies: Seq<RegionReply>)
    requires
        upwards(replies),
    ensures
        WalkState::walked(replies).ascending(),
    decreases replies.len(),
{
    if replies.len() > 0 {
        let before = replies.drop_last();
        assert forall|i: int| 0 <= i < before.len() implies above(
            WalkState::walked(before.take(i)),
            #[trigger] before[i],
        ) by {
            assert(before.take(i) =~= replies.take(i));
            assert(before[i] == replies[i]);
            assert(above(WalkState::walked(replies.take(i)), replies[i]));
        }
        walks_ascend(before);
        let last = replies.len() - 1;
        assert(replies.take(last) =~= before);
        assert(above(WalkState::walked(replies.take(last)), replies[last]));
        lemma_step_ascends(WalkState::walked(before), replies.last());
    }
}

proof fn lemma_step_ascends(walk: WalkState, reply: RegionReply)
    requires
        walk.ascending(),
        above(walk, reply),
    ensures
        walk.replied(reply).ascending(),
{
    let next = walk.replied(reply);
    if walk.at is Some && reply.status == KERN_SUCCESS {
        assert forall|i: int, j: int| 0 <= i < j < next.found.len() implies (
        #[trigger] next.found[i]).below((#[trigger] next.found[j]).start) by {
            assert(next.found[i] == walk.found[i]);
            if j < walk.found.len() {
                assert(next.found[j] == walk.found[j]);
            }
        }
        if next.at is Some {
            assert forall|i: int| 0 <= i < next.found.len() implies (
            #[trigger] next.found[i]).below(next.at->0) by {
                if i < walk.found.len() {
                    assert(next.found[i] == walk.found[i]);
                }
            }
        }
    }
}

/// Under the same condition, each look-up but the last is at a higher address than the one
/// before it.
pub proof fn walks_move_upwards(walk: WalkState, reply: RegionReply)
    requires
        walk.at is Some,
        above(walk, reply),
    ensures
        walk.replied(reply).at matches Some(at) ==> walk.at->0 < at,
{
}

/// A walk lists every region that is reported to it before it ends, and no other.
pub proof fn walks_list_what_is_reported(replies: Seq<RegionReply>, region: Region)
    ensures
        WalkState::walked(replies).found.contains(region) <==> exists|i: int| #[trigger]
            reported(replies, i) && replies[i].region == region,
    decreases replies.len(),
{
    if replies.len() > 0 {
        let before = replies.drop_last();
        let last = replies.len() - 1;
        walks_list_what_is_reported(before, region);
        let walk = WalkState::walked(before);
        let next = WalkState::walked(replies);
        assert(replies.take(last) =~= before);
        assert forall|i: int| #![trigger reported(before, i)] 0 <= i < last implies reported(
            before,
            i,
        ) == reported(replies, i) by {
            assert(before.take(i) =~= replies.take(i));
        }
        if walk.found.contains(region) {
            let i = choose|i: int| #[trigger]
                reported(before, i) && before[i].region == region;
            assert(reported(replies, i));
            let k = choose|k: int| 0 <= k < walk.found.len() && walk.found[k] == region;
            assert(next.found[k] == region);
        }
        if reported(replies, last) {
            assert(next.found == walk.found.push(replies[last].region));
            assert(next.found[walk.found.len() as int] == replies[last].region);
        } else {
            assert(next.found == walk.found);
        }
        if exists|i: int| #[trigger] reported(replies, i) && replies[i].region == region {
            let i = choose|i: int| #[trigger]
                reported(replies, i) && replies[i].region == region;
            if i < last {
                assert(reported(before, i) && before[i].region == region);
            }
        }
        if next.found.contains(region) && !walk.found.contains(region) {
            let k = choose|k: int| 0 <= k < next.found.len() && next.found[k] == region;
            if k < walk.found.len() {
                assert(walk.found[k] == region);
            }
            assert(reported(replies, last));
        }
    }
}

/// A range that a region holds lies in it byte for byte, where neither reaches beyond the last
/// address.
pub proof fn held_ranges_are_inside(region: Region, addr: u64, size: u64, at: int)
    requires
        region.holds(addr, size),
        addr + size <= u64::MAX,
        addr <= at < addr + size,
    ensures
        region.start <= at < region.start + region.size,
{
}

/// A smaller part of a held range is held too.
pub proof fn held_is_monotone(regions: Seq<Region>, addr: u64, size: u64, part: u64)
    requires
        held(regions, addr, size),
        part <= size,
    ensures
        held(regions, addr, part),
{
    let i = choose|i: int| 0 <= i < regions.len() && (#[trigger] regions[i]).holds(addr, size);
    assert(regions[i].holds(addr, part));
}

/// The protection bits say what can be done with a region: the lowest bit is for reading, the
/// next for writing, the one after for executing.
pub proof fn protection_is_bit_by_bit(prot: i32)
    ensures
        readable(prot) <==> prot % 2 == 1,
        read_write(prot) <==> prot % 4 == 3,
        executable(prot) <==> prot % 8 >= 4,
{
    assert(prot & 1 != 0 <==> prot % 2 == 1) by (bit_vector);
    assert(prot & 3 == 3 <==> prot % 4 == 3) by (bit_vector);
    assert(prot & 4 != 0 <==> prot % 8 >= 4) by (bit_vector);
}

/// Addresses go round at the end of the address space, and distances add up.
pub proof fn addresses_go_round(addr: u64, a: int, b: int)
    ensures
        0 <= addr + a <= u64::MAX ==> offset(addr, a) == addr + a,
        offset(addr, a + 0x1_0000_0000_0000_0000) == offset(addr, a),
        offset(offset(addr, a), b) == offset(addr, a + b),
{
}

/// A pointer has none of its three lowest bits set, some above the lowest 32, and none above
/// the lowest 47.
pub proof fn pointers_are_told_by_their_bits(value: u64)
    ensures
        pointer_like(value) <==> value & 7 == 0 && value >> 32 != 0 && value >> 47 == 0,
{
    assert((value & 7 == 0) == (value % 8 == 0)) by (bit_vector);
    assert((value >> 32 != 0) == (value >= 0x1_0000_0000)) by (bit_vector);
    assert((value >> 47 == 0) == (value < 0x8000_0000_0000)) by (bit_vector);
}

/// A range is held exactly where it begins in one region that can be read and does not end
/// after it. What reaches the last address or beyond ends there.
pub proof fn ranges_are_held_where_they_lie(regions: Seq<Region>, addr: u64, size: u64)
    ensures
        held(regions, addr, size) <==> exists|i: int|
            0 <= i < regions.len() && (#[trigger] regions[i]).prot % 2 == 1 && regions[i].start
                <= addr && (addr + size <= regions[i].start + regions[i].size
                || regions[i].start + regions[i].size >= u64::MAX),
{
    assert forall|i: int| 0 <= i < regions.len() implies (#[trigger] regions[i]).holds(addr, size)
        == (regions[i].prot % 2 == 1 && regions[i].start <= addr && (addr + size
        <= regions[i].start + regions[i].size || regions[i].start + regions[i].size
        >= u64::MAX)) by {
        protection_is_bit_by_bit(regions[i].prot);
    }
}

/// How a walk goes on: it ends at a failure, at an empty region, and at one that begins at the
/// last address; else it goes on at the end of the region, or at the last address where the
/// region reaches beyond that. Each region that is not empty is listed after those before it.
pub proof fn walks_go_on_at_the_end(walk: WalkState, reply: RegionReply)
    requires
        walk.at is Some,
    ensures
        ({
            let next = walk.replied(reply);
            let region = reply.region;
            if reply.status != 0 || region.size == 0 {
                next.at is None && next.found == walk.found
            } else {
                &&& next.found == walk.found.push(region)
                &&& region.start == u64::MAX ==> next.at is None
                &&& region.start < u64::MAX ==> next.at is Some && next.at->0 == if region.start
                    + region.size < u64::MAX {
                    region.start + region.size
                } else {
                    u64::MAX as int
                }
            }
        }),
{
}

/// The map of an address space: regions in ascending order that are not empty, do not overlap
/// and end before the last address; the first ends above address one.
pub open spec fn is_map(map: Seq<Region>) -> bool {
    &&& forall|i: int|
        0 <= i < map.len() ==> (#[trigger] map[i]).size > 0 && 1 < map[i].start + map[i].size
            <= u64::MAX
    &&& forall|i: int, j: int|
        0 <= i < j < map.len() ==> (#[trigger] map[i]).start + map[i].size <= (
        #[trigger] map[j]).start
}

/// The reply to a look-up at `addr` is right for this map: the first region that ends above the
/// address, or a failure where there is none.
pub open spec fn tells(map: Seq<Region>, addr: u64, reply: RegionReply) -> bool {
    ||| exists|k: int|
        0 <= k < map.len() && reply.status == 0 && reply.region == #[trigger] map[k] && addr
            < map[k].start + map[k].size && forall|i: int|
            0 <= i < k ==> (#[trigger] map[i]).start + map[i].size <= addr
    ||| reply.status != 0 && forall|i: int|
        0 <= i < map.len() ==> (#[trigger] map[i]).start + map[i].size <= addr
}

/// A walk over an address space looks up one address for each region, and one more; it begins at
/// address one, and lists the whole map.
pub proof fn walks_list_the_whole_map(map: Seq<Region>, replies: Seq<RegionReply>)
    requires
        is_map(map),
        replies.len() == map.len() + 1,
        forall|i: int|
            0 <= i < replies.len() ==> (WalkState::walked(replies.take(i)).at matches Some(at)
                ==> tells(map, at, #[trigger] replies[i])),
    ensures
        WalkState::walked(replies).found == map,
        WalkState::walked(replies).at is None,
        forall|i: int|
            0 <= i < replies.len() ==> (#[trigger] WalkState::walked(replies.take(i))).at is Some,
        WalkState::walked(replies.take(0)).at == Some(1u64),
{
    assert(replies.take(0) =~= Seq::empty());
    assert forall|i: int| 0 <= i <= map.len() implies {
        let walk = #[trigger] WalkState::walked(replies.take(i));
        walk.found == map.take(i) && walk.at == Some(next_look(map, i))
    } by {
        lemma_map_walked(map, replies, i);
    }
    let n = map.len() as int;
    let walk = WalkState::walked(replies.take(n));
    assert(replies.take(n) =~= replies.drop_last());
    assert(tells(map, walk.at->0, replies[n]));
    assert(map.take(n) =~= map);
    if n > 0 {
        assert forall|i: int| 0 <= i < n implies (#[trigger] map[i]).start + map[i].size
            <= walk.at->0 by {
            if i < n - 1 {
                assert(map[i].start + map[i].size <= map[n - 1].start);
            }
        }
    }
}

/// The address to look up after `i` regions of the map.
spec fn next_look(map: Seq<Region>, i: int) -> u64 {
    if i == 0 {
        1
    } else {
        (map[i - 1].start + map[i - 1].size) as u64
    }
}

proof fn lemma_map_walked(map: Seq<Region>, replies: Seq<RegionReply>, i: int)
    requires
        is_map(map),
        replies.len() == map.len() + 1,
        forall|i: int|
            0 <= i < replies.len() ==> (WalkState::walked(replies.take(i)).at matches Some(at)
                ==> tells(map, at, #[trigger] replies[i])),
        0 <= i <= map.len(),
    ensures
        ({
            let walk = WalkState::walked(replies.take(i));
            walk.found == map.take(i) && walk.at == Some(next_look(map, i))
        }),
    decreases i,
{
    if i == 0 {
        assert(replies.take(0) =~= Seq::empty());
        assert(map.take(0) =~= Seq::empty());
    } else {
        lemma_map_walked(map, replies, i - 1);
        let before = WalkState::walked(replies.take(i - 1));
        let at = next_look(map, i - 1);
        assert(replies.take(i).drop_last() =~= replies.take(i - 1));
        assert(replies.take(i).last() == replies[i - 1]);
        assert(tells(map, at, replies[i - 1]));
        assert(at < map[i - 1].start + map[i - 1].size) by {
            if i >= 2 {
                assert(map[i - 2].start + map[i - 2].size <= map[i - 1].start);
            }
        }
        assert(replies[i - 1].region == map[i - 1]) by {
            let k = choose|k: int|
                0 <= k < map.len() && replies[i - 1].status == 0 && replies[i - 1].region
                    == #[trigger] map[k] && at < map[k].start + map[k].size && forall|j: int|
                    0 <= j < k ==> (#[trigger] map[j]).start + map[j].size <= at;
            if k < i - 1 {
                assert(map[k].start + map[k].size <= at) by {
                    if k < i - 2 {
                        assert(map[k].start + map[k].size <= map[i - 2].start);
                    }
                }
            }
            if k > i - 1 {
                assert(map[i - 1].start + map[i - 1].size <= at);
            }
        }
        assert(map.take(i) =~= map.take(i - 1).push(map[i - 1]));
    }
}

} // verus!
