use fps_unlocker::region::{inside, is_ptr, Region, RegionReply, RegionWalk};

fn region(start: u64, size: u64, prot: i32) -> Region {
    Region { start, size, prot }
}

fn walk(replies: &[(i32, u64, u64, i32)]) -> (Vec<u64>, Vec<Region>) {
    let mut walk = RegionWalk::new();
    let mut asked = Vec::new();
    let mut next = replies.iter();
    while let Some(addr) = walk.query() {
        asked.push(addr);
        let (status, start, size, prot) = *next.next().expect("the walk goes on for too long");
        walk.reply(RegionReply { status, region: region(start, size, prot) });
    }
    (asked, walk.regions())
}

#[test]
fn pointers_lie_in_user_space_and_are_aligned() {
    assert!(is_ptr(0x1_0000_0000));
    assert!(is_ptr(0x7fff_ffff_fff8));
    assert!(!is_ptr(0xffff_fff8));
    assert!(!is_ptr(0x8000_0000_0000));
    assert!(!is_ptr(0x1_0000_0004));
    assert!(!is_ptr(0x1_0000_0001));
    assert!(!is_ptr(0));
}

#[test]
fn ranges_lie_in_one_readable_region() {
    let regions = [region(0x1000, 0x1000, 3), region(0x2000, 0x1000, 2), region(0x4000, 0x10, 1)];
    assert!(inside(&regions, 0x1000, 0x1000));
    assert!(inside(&regions, 0x1fff, 1));
    assert!(!inside(&regions, 0x1fff, 2));
    assert!(!inside(&regions, 0xfff, 1));
    assert!(!inside(&regions, 0x2000, 1));
    assert!(inside(&regions, 0x4000, 0x10));
    assert!(inside(&regions, 0x4010, 0));
    assert!(!inside(&[], 0x1000, 0));
}

#[test]
fn ranges_at_the_end_of_the_address_space_count_as_ending_there() {
    let regions = [region(u64::MAX - 0xf, 0x20, 1)];
    assert!(inside(&regions, u64::MAX - 0xf, 0x10));
    assert!(inside(&regions, u64::MAX, u64::MAX));
    assert!(!inside(&[region(0x1000, 0x1000, 1)], u64::MAX, u64::MAX));
}

#[test]
fn a_walk_goes_from_region_to_region() {
    let (asked, regions) = walk(&[
        (0, 0x1000, 0x1000, 5),
        (0, 0x2000, 0x1000, 3),
        (0, 0x9000, 0x1000, 1),
        (1, 0, 0, 0),
    ]);
    assert_eq!(asked, vec![1, 0x2000, 0x3000, 0xa000]);
    assert_eq!(
        regions,
        vec![region(0x1000, 0x1000, 5), region(0x2000, 0x1000, 3), region(0x9000, 0x1000, 1)]
    );
}

#[test]
fn a_walk_ends_at_an_empty_region() {
    let (asked, regions) = walk(&[(0, 0x1000, 0x1000, 5), (0, 0x3000, 0, 3)]);
    assert_eq!(asked, vec![1, 0x2000]);
    assert_eq!(regions, vec![region(0x1000, 0x1000, 5)]);
}

#[test]
fn a_walk_ends_at_the_end_of_the_address_space() {
    let (asked, regions) = walk(&[(0, u64::MAX - 1, 0x1000, 1), (0, u64::MAX, 0x1000, 1)]);
    assert_eq!(asked, vec![1, u64::MAX]);
    assert_eq!(regions, vec![region(u64::MAX - 1, 0x1000, 1), region(u64::MAX, 0x1000, 1)]);
}

#[test]
fn a_walk_that_fails_at_once_lists_nothing() {
    let (asked, regions) = walk(&[(5, 0x1000, 0x1000, 1)]);
    assert_eq!(asked, vec![1]);
    assert!(regions.is_empty());
}

#[test]
fn replies_after_the_end_of_a_walk_change_nothing() {
    let mut walk = RegionWalk::new();
    walk.reply(RegionReply { status: 1, region: region(0, 0, 0) });
    walk.reply(RegionReply { status: 0, region: region(0x1000, 0x1000, 1) });
    assert_eq!(walk.query(), None);
    assert!(walk.regions().is_empty());
}
