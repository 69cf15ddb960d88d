use fps_unlocker::cstring::TextReader;
use fps_unlocker::error::Error;
use fps_unlocker::images::Attachment;
use fps_unlocker::jobs::JobSearch;
use fps_unlocker::layer::LayerSearch;
use fps_unlocker::macho::{parse, ImageReader};
use fps_unlocker::memory::{Answer, Layer, Query};
use fps_unlocker::metal::{Metal, MetalProbe};
use fps_unlocker::name::NameReader;
use fps_unlocker::region::Region;
use fps_unlocker::run::{Apply, Restore, Run, Saved, Targets, INTERVAL};
use fps_unlocker::scheduler::SchedulerSearch;
use fps_unlocker::start::Startup;

const BASE: u64 = 0x1_0400_0000;
const IMAGE_DATA: u64 = 0x1_0400_4000;
const HEAP: u64 = 0x6000_0000_0000;
const SCHEDULER: u64 = HEAP + 0x1000;
const LIST: u64 = HEAP + 0x2000;
const JOBS: u64 = HEAP + 0x3000;
const LAYER: u64 = HEAP + 0x8000;
const LAYER_DATA: u64 = HEAP + 0x9000;
const DYLD: u64 = 0x2_0000_0000;
const CLASS: u64 = 0x7ff8_1234_5678;
const MASK: u64 = 0x7fff_ffff_fff8;

const OWN_LAYER: u64 = 0x7_0000_0000;
const OWN_DATA: u64 = 0x7_0000_1000;

/// A process to attach to, and this process with its layer.
struct World {
    mem: Vec<(u64, Vec<u8>)>,
    regions: Vec<Region>,
    attach: i32,
    dyld: Option<u64>,
    own: Vec<(u64, Vec<u8>)>,
    layer: Layer,
    sync: bool,
    stuck: bool,
    flips: Vec<(u64, u8)>,
    /// Bytes of this process that change whenever the layer is switched.
    flickers: Vec<u64>,
    /// Addresses of which the n-th read fails.
    fails: Vec<(u64, usize)>,
    refuses: Vec<u64>,
    writes: usize,
}

fn put(mem: &mut Vec<(u64, Vec<u8>)>, addr: u64, data: &[u8]) {
    for (start, bytes) in mem.iter_mut() {
        if addr >= *start && addr + data.len() as u64 <= *start + bytes.len() as u64 {
            let at = (addr - *start) as usize;
            bytes[at..at + data.len()].copy_from_slice(data);
            return;
        }
    }
    panic!("no memory at {addr:#x}");
}

fn get(mem: &[(u64, Vec<u8>)], addr: u64, len: u64) -> Option<Vec<u8>> {
    for (start, bytes) in mem.iter() {
        if addr >= *start && addr.checked_add(len)? <= *start + bytes.len() as u64 {
            let at = (addr - *start) as usize;
            return Some(bytes[at..at + len as usize].to_vec());
        }
    }
    None
}

fn is_interval(bits: u64) -> bool {
    let val = f64::from_bits(bits);
    if !val.is_finite() || val <= 0.0 {
        return false;
    }
    let fps = 1.0 / val;
    (20.0..=1000.0).contains(&fps) && (fps - fps.round()).abs() < 0.05
}

impl World {
    fn word(&self, addr: u64) -> u64 {
        u64::from_le_bytes(get(&self.mem, addr, 8).unwrap().try_into().unwrap())
    }

    fn byte(&self, addr: u64) -> u8 {
        get(&self.mem, addr, 1).unwrap()[0]
    }

    fn put_word(&mut self, addr: u64, word: u64) {
        put(&mut self.mem, addr, &word.to_le_bytes());
    }

    fn read(data: Option<Vec<u8>>) -> Answer {
        match data {
            Some(data) => Answer::Bytes { status: 0, data },
            None => Answer::Bytes { status: 1, data: Vec::new() },
        }
    }

    fn answer(&mut self, query: Query) -> Answer {
        match query {
            Query::NewLayer => Answer::Layer(self.layer),
            Query::SetSync { on } => {
                for addr in self.flickers.clone() {
                    let byte = get(&self.own, addr, 1).unwrap()[0];
                    put(&mut self.own, addr, &[byte + 1]);
                }
                if !self.stuck && on != self.sync {
                    self.sync = on;
                    for (addr, bit) in self.flips.clone() {
                        let byte = get(&self.own, addr, 1).unwrap()[0];
                        put(&mut self.own, addr, &[byte ^ bit]);
                    }
                }
                Answer::Done
            }
            Query::SyncEnabled => Answer::Flag(self.sync),
            Query::ReadSelf { addr, len } => World::read(get(&self.own, addr, len)),
            Query::Attach { .. } => Answer::Status(self.attach),
            Query::DyldInfo => match self.dyld {
                Some(addr) => Answer::Address { status: 0, addr },
                None => Answer::Address { status: 5, addr: 0 },
            },
            Query::Regions => Answer::Regions(self.regions.clone()),
            Query::Read { addr, len } => {
                for (failing, reads) in self.fails.iter_mut() {
                    if *failing == addr && *reads > 0 {
                        *reads -= 1;
                        if *reads == 0 {
                            return World::read(None);
                        }
                    }
                }
                World::read(get(&self.mem, addr, len))
            }
            Query::IsInterval { bits } => Answer::Flag(is_interval(bits)),
            Query::WriteWord { addr, word } => {
                if self.refuses.contains(&addr) {
                    return Answer::Status(2);
                }
                self.writes += 1;
                self.put_word(addr, word);
                Answer::Status(0)
            }
            Query::WriteByte { addr, byte } => {
                if self.refuses.contains(&addr) {
                    return Answer::Status(2);
                }
                self.writes += 1;
                put(&mut self.mem, addr, &[byte]);
                Answer::Status(0)
            }
        }
    }
}

fn drive<M>(
    start: M,
    query: fn(&M) -> Option<Query>,
    answer: fn(M, Answer) -> M,
    world: &mut World,
) -> M {
    let mut machine = start;
    while let Some(asked) = query(&machine) {
        machine = answer(machine, world.answer(asked));
    }
    machine
}

fn segment(name: &[u8], vm: u64, size: u64, prot: i32) -> Vec<u8> {
    let mut command = vec![0u8; 72];
    command[0..4].copy_from_slice(&0x19u32.to_le_bytes());
    command[4..8].copy_from_slice(&72u32.to_le_bytes());
    command[8..8 + name.len()].copy_from_slice(name);
    command[24..32].copy_from_slice(&vm.to_le_bytes());
    command[32..40].copy_from_slice(&size.to_le_bytes());
    command[60..64].copy_from_slice(&prot.to_le_bytes());
    command
}

fn short_name(name: &str) -> Vec<u8> {
    let mut object = vec![0u8; 24];
    object[..name.len()].copy_from_slice(name.as_bytes());
    object[23] = name.len() as u8;
    object
}

/// A process with a scheduler and a layer, as they are looked for.
fn world() -> World {
    let mut world = World {
        mem: vec![
            (BASE, vec![0u8; 0x5000]),
            (HEAP, vec![0u8; 0x1_0000]),
            (DYLD, vec![0u8; 0x1000]),
        ],
        regions: vec![
            Region { start: BASE, size: 0x4000, prot: 5 },
            Region { start: IMAGE_DATA, size: 0x1000, prot: 3 },
            Region { start: DYLD, size: 0x1000, prot: 1 },
            Region { start: HEAP, size: 0x1_0000, prot: 3 },
        ],
        attach: 0,
        dyld: Some(DYLD),
        own: vec![(OWN_LAYER, vec![0u8; 0x100]), (OWN_DATA, vec![0u8; 0x300])],
        layer: Layer { object: OWN_LAYER, class: CLASS, mask: MASK, size: 0x60 },
        sync: false,
        stuck: false,
        flips: vec![(OWN_DATA + 0x21, 0x10)],
        flickers: Vec::new(),
        fails: Vec::new(),
        refuses: Vec::new(),
        writes: 0,
    };

    put(&mut world.own, OWN_LAYER + 0x18, &OWN_DATA.to_le_bytes());
    put(&mut world.own, OWN_DATA + 0x21, &[0x83]);

    let mut commands = segment(b"__PAGEZERO", 0, 0x1_0000_0000, 0);
    commands.extend(segment(b"__TEXT", 0x1_0000_0000, 0x4000, 5));
    commands.extend(segment(b"__DATA", 0x1_0000_4000, 0x1000, 3));
    let mut header = vec![0u8; 32];
    header[0..4].copy_from_slice(&0xfeedfacfu32.to_le_bytes());
    header[16..20].copy_from_slice(&3u32.to_le_bytes());
    header[20..24].copy_from_slice(&(commands.len() as u32).to_le_bytes());
    put(&mut world.mem, BASE, &header);
    put(&mut world.mem, BASE + 32, &commands);

    put(&mut world.mem, DYLD + 4, &2u32.to_le_bytes());
    world.put_word(DYLD + 8, DYLD + 0x100);
    world.put_word(DYLD + 0x100, 0x1234_0000);
    world.put_word(DYLD + 0x108, DYLD + 0x200);
    world.put_word(DYLD + 0x118, BASE);
    world.put_word(DYLD + 0x120, DYLD + 0x300);
    put(&mut world.mem, DYLD + 0x200, b"/usr/lib/dyld\0");
    put(&mut world.mem, DYLD + 0x300, b"/Applications/Roblox.app/Contents/MacOS/RobloxPlayer\0");

    world.put_word(IMAGE_DATA + 0x10, HEAP + 0x100);
    world.put_word(IMAGE_DATA + 0x40, SCHEDULER);
    world.put_word(SCHEDULER + 0x20, (1.0f64 / 60.0).to_bits());
    world.put_word(SCHEDULER + 0x48, (1.0f64 / 240.0).to_bits());
    world.put_word(SCHEDULER + 0x50, (1.0f64 / 60.5).to_bits());
    world.put_word(SCHEDULER + 0x60, LIST);
    world.put_word(SCHEDULER + 0x68, LIST + 20 * 16);
    world.put_word(SCHEDULER + 0x80, (1.0f64 / 30.0).to_bits());
    for i in 0..20 {
        world.put_word(LIST + 16 * i, JOBS + 0x100 * i);
        let name = if i < 5 { "RenderJob" } else { "Network" };
        put(&mut world.mem, JOBS + 0x100 * i + 0x10, &short_name(name));
    }

    world.put_word(LAYER, CLASS | 0x0100_0000_0000_0001);
    world.put_word(LAYER + 0x18, LAYER_DATA);
    put(&mut world.mem, LAYER_DATA + 0x21, &[0x93]);
    world
}

fn metal() -> Metal {
    Metal { class: CLASS, mask: MASK, field: 0x18, inner: 0x21, bit: 0x10, base: 0x93, off: 0x83 }
}

fn start(world: &mut World) -> Result<Run, Error> {
    drive(Run::start(4711), Startup::query, Startup::answer, world).run()
}

fn probe(world: &mut World) -> Result<Metal, Error> {
    drive(MetalProbe::metal(), MetalProbe::query, MetalProbe::answer, world).found()
}

fn image(world: &mut World) -> Result<Vec<Region>, Error> {
    drive(ImageReader::image_regions(BASE), ImageReader::query, ImageReader::answer, world).regions()
}

fn scheduler(world: &mut World) -> Result<(u64, u64), Error> {
    let image = [Region { start: IMAGE_DATA, size: 0x1000, prot: 3 }];
    let search = SchedulerSearch::scheduler(&image, world.regions.clone());
    drive(search, SchedulerSearch::query, SchedulerSearch::answer, world).found()
}

fn flag(world: &mut World) -> Result<u64, Error> {
    let search = LayerSearch::sync(metal(), world.regions.clone());
    drive(search, LayerSearch::query, LayerSearch::answer, world).found()
}

fn attach(world: &mut World) -> Result<u64, Error> {
    drive(Attachment::attach(4711), Attachment::query, Attachment::answer, world).base()
}

fn name(world: &mut World, addr: u64) -> Option<Vec<u8>> {
    drive(NameReader::text(addr), NameReader::query, NameReader::answer, world).name()
}

fn text(world: &mut World, addr: u64) -> Option<Vec<u8>> {
    drive(TextReader::read_cstr(addr), TextReader::query, TextReader::answer, world).text()
}

fn jobs(world: &mut World) -> Option<u64> {
    let head = get(&world.mem, SCHEDULER, 0x200).unwrap();
    drive(JobSearch::jobs(head), JobSearch::query, JobSearch::answer, world).position()
}

#[test]
fn the_interval_is_a_thousandth_of_a_second() {
    assert_eq!(INTERVAL, (1.0f64 / 1000.0).to_bits());
}

#[test]
fn a_run_switches_over_and_back() {
    let mut world = world();
    let before = world.mem.clone();
    let mut run = start(&mut world).ok().unwrap();
    assert!(run.is_on());
    assert_eq!(world.word(SCHEDULER + 0x48), INTERVAL);
    assert_eq!(world.byte(LAYER_DATA + 0x21), 0x83);
    assert_eq!(world.writes, 2);
    let restore = run.stop().unwrap();
    assert!(!run.is_on());
    drive(restore, Restore::query, Restore::answer, &mut world);
    assert_eq!(world.mem, before);
    assert!(run.stop().is_none());
    assert!(run.apply().is_none());
}

#[test]
fn a_run_keeps_switching_over() {
    let mut world = world();
    let mut run = start(&mut world).ok().unwrap();
    world.put_word(SCHEDULER + 0x48, (1.0f64 / 240.0).to_bits());
    put(&mut world.mem, LAYER_DATA + 0x21, &[0x97]);
    let apply = drive(run.apply().unwrap(), Apply::query, Apply::answer, &mut world);
    assert_eq!(apply.result(), Ok(()));
    assert!(run.applied(apply.result()).is_none());
    assert!(run.is_on());
    assert_eq!(world.word(SCHEDULER + 0x48), INTERVAL);
    assert_eq!(world.byte(LAYER_DATA + 0x21), 0x87);
    let again = world.mem.clone();
    drive(run.apply().unwrap(), Apply::query, Apply::answer, &mut world);
    assert_eq!(world.mem, again);
}

#[test]
fn a_run_that_cannot_be_kept_up_stops() {
    let mut world = world();
    let mut run = start(&mut world).ok().unwrap();
    world.refuses = vec![LAYER_DATA + 0x21];
    let apply = drive(run.apply().unwrap(), Apply::query, Apply::answer, &mut world);
    assert_eq!(apply.result(), Err(Error::Write(2)));
    let restore = run.applied(apply.result()).unwrap();
    assert!(!run.is_on());
    drive(restore, Restore::query, Restore::answer, &mut world);
    assert_eq!(world.word(SCHEDULER + 0x48), (1.0f64 / 240.0).to_bits());
    assert!(run.applied(Err(Error::Write(2))).is_none());
    assert!(run.stop().is_none());
}

#[test]
fn switching_back_keeps_the_other_bits() {
    let mut world = world();
    let targets = Targets { interval: HEAP, sync: HEAP + 0x10, bit: 0x10, off: 0x00 };
    let saved = Saved { interval: 0x0102_0304_0506_0708, sync: 0x1f };
    put(&mut world.mem, HEAP + 0x10, &[0xa0]);
    drive(Restore::restore(targets, saved), Restore::query, Restore::answer, &mut world);
    assert_eq!(world.byte(HEAP + 0x10), 0xb0);
    assert_eq!(get(&world.mem, HEAP, 8).unwrap(), vec![8, 7, 6, 5, 4, 3, 2, 1]);
    drive(Apply::apply(targets), Apply::query, Apply::answer, &mut world);
    assert_eq!(world.byte(HEAP + 0x10), 0xa0);
    assert_eq!(world.word(HEAP), INTERVAL);
}

#[test]
fn switching_back_passes_over_failures() {
    let mut world = world();
    let targets = Targets { interval: HEAP, sync: 0x10, bit: 0x10, off: 0x00 };
    let saved = Saved { interval: 1, sync: 0 };
    world.refuses = vec![HEAP];
    drive(Restore::restore(targets, saved), Restore::query, Restore::answer, &mut world);
    assert_eq!(world.writes, 0);
    let apply = drive(Apply::apply(targets), Apply::query, Apply::answer, &mut world);
    assert_eq!(apply.result(), Err(Error::Write(2)));
    world.refuses = Vec::new();
    let apply = drive(Apply::apply(targets), Apply::query, Apply::answer, &mut world);
    assert_eq!(apply.result(), Err(Error::Read(1)));
}

#[test]
fn a_start_that_fails_leaves_memory_as_it_was() {
    for refused in [SCHEDULER + 0x48, LAYER_DATA + 0x21] {
        let mut world = world();
        let before = world.mem.clone();
        world.refuses = vec![refused];
        assert_eq!(start(&mut world).err(), Some(Error::Write(2)));
        assert_eq!(world.mem, before);
    }
}

#[test]
fn a_start_whose_first_switch_over_cannot_read_the_flag_puts_the_interval_back() {
    let mut world = world();
    let before = world.mem.clone();
    world.fails = vec![(LAYER_DATA + 0x21, 3)];
    assert_eq!(start(&mut world).err(), Some(Error::Read(1)));
    assert_eq!(world.mem, before);
    assert_eq!(world.writes, 3);
}

#[test]
fn switching_back_undoes_also_where_the_flag_is_in_the_interval() {
    let mut world = world();
    put(&mut world.mem, HEAP, &[1, 2, 3, 4, 5, 6, 7, 8]);
    let before = world.mem.clone();
    let targets = Targets { interval: HEAP, sync: HEAP + 3, bit: 0x04, off: 0x00 };
    let saved = Saved { interval: world.word(HEAP), sync: world.byte(HEAP + 3) };
    drive(Apply::apply(targets), Apply::query, Apply::answer, &mut world);
    let once = world.mem.clone();
    assert_ne!(once, before);
    drive(Apply::apply(targets), Apply::query, Apply::answer, &mut world);
    assert_eq!(world.mem, once);
    drive(Restore::restore(targets, saved), Restore::query, Restore::answer, &mut world);
    assert_eq!(world.mem, before);
}

#[test]
fn the_first_repeat_that_fails_is_the_last() {
    let mut world = world();
    let mut run = start(&mut world).ok().unwrap();
    let mut restores = 0;
    for beat in 0..6 {
        world.put_word(SCHEDULER + 0x48, (1.0f64 / 30.0).to_bits() + beat);
        if beat == 3 {
            world.fails = vec![(LAYER_DATA + 0x21, 1)];
        }
        let writes = world.writes;
        if let Some(apply) = run.apply() {
            let apply = drive(apply, Apply::query, Apply::answer, &mut world);
            if let Some(restore) = run.applied(apply.result()) {
                restores += 1;
                drive(restore, Restore::query, Restore::answer, &mut world);
            }
        }
        assert_eq!(run.is_on(), beat < 3);
        if beat < 3 {
            assert_eq!(world.word(SCHEDULER + 0x48), INTERVAL);
        } else if beat == 3 {
            assert_eq!(world.word(SCHEDULER + 0x48), (1.0f64 / 240.0).to_bits());
            assert_eq!(world.byte(LAYER_DATA + 0x21), 0x93);
        } else {
            assert_eq!(world.writes, writes);
        }
    }
    assert_eq!(restores, 1);
}

#[test]
fn a_byte_that_differs_between_two_readings_does_not_count() {
    let mut world = world();
    world.flickers = vec![OWN_DATA + 0x40];
    put(&mut world.own, OWN_DATA + 0x40, &[1]);
    assert_eq!(probe(&mut world), Ok(metal()));
    world.flips = Vec::new();
    put(&mut world.own, OWN_DATA + 0x40, &[1]);
    assert!(matches!(probe(&mut world), Err(Error::SyncFieldNotFound { changes: 0, .. })));
}

#[test]
fn the_bit_that_moves_is_the_display_sync() {
    let mut world = world();
    assert_eq!(probe(&mut world), Ok(metal()));
    assert!(!world.sync);
}

#[test]
fn a_trial_needs_exactly_one_bit_that_moves() {
    let none = Error::SyncFieldNotFound {
        size: 0x60,
        pointers: 1,
        starts_on: true,
        turns_off: true,
        changes: 0,
    };
    let mut still = world();
    still.flips = Vec::new();
    assert_eq!(probe(&mut still), Err(none));

    let mut byte = world();
    byte.flips = vec![(OWN_DATA + 0x21, 0x11)];
    assert_eq!(probe(&mut byte), Err(none));

    let mut two = world();
    two.flips = vec![(OWN_DATA + 0x21, 0x10), (OWN_DATA + 0x2ff, 0x01)];
    assert_eq!(
        probe(&mut two),
        Err(Error::SyncFieldNotFound {
            size: 0x60,
            pointers: 1,
            starts_on: true,
            turns_off: true,
            changes: 2,
        })
    );
}

#[test]
fn a_trial_needs_a_switch_and_a_mask() {
    let mut stuck = world();
    stuck.stuck = true;
    assert_eq!(
        probe(&mut stuck),
        Err(Error::SyncFieldNotFound {
            size: 0x60,
            pointers: 1,
            starts_on: false,
            turns_off: true,
            changes: 0,
        })
    );
    let mut bare = world();
    bare.layer.mask = 0;
    assert!(matches!(probe(&mut bare), Err(Error::SyncFieldNotFound { changes: 1, .. })));
}

#[test]
fn a_trial_looks_at_the_first_bytes_of_a_large_layer() {
    let mut large = world();
    large.layer.size = 0x1000;
    assert_eq!(probe(&mut large), Ok(metal()));
    let mut small = world();
    small.layer.size = 0x1f;
    assert!(matches!(
        probe(&mut small),
        Err(Error::SyncFieldNotFound { size: 0x1f, pointers: 0, .. })
    ));
    let mut empty = world();
    empty.layer.size = 0;
    assert!(matches!(probe(&mut empty), Err(Error::SyncFieldNotFound { size: 0, .. })));
}

#[test]
fn a_layer_that_cannot_be_read_is_told() {
    let mut world = world();
    world.layer.object = 0x10;
    assert_eq!(probe(&mut world), Err(Error::Read(1)));
    assert_eq!(start(&mut world).err(), Some(Error::Read(1)));
}

#[test]
fn attaching_gives_the_base_of_the_player() {
    assert_eq!(attach(&mut world()), Ok(BASE));
}

#[test]
fn a_process_that_refuses_is_told() {
    let mut world = world();
    world.attach = 5;
    assert_eq!(attach(&mut world), Err(Error::TaskForPid(5)));
    assert_eq!(start(&mut world).err(), Some(Error::TaskForPid(5)));
}

#[test]
fn a_process_without_the_player_is_told() {
    let mut gone = world();
    gone.dyld = None;
    assert_eq!(attach(&mut gone), Err(Error::ImageNotFound));

    let mut short = world();
    put(&mut short.mem, DYLD + 4, &1u32.to_le_bytes());
    assert_eq!(attach(&mut short), Err(Error::ImageNotFound));

    let mut other = world();
    put(&mut other.mem, DYLD + 0x300, b"/Applications/Roblox.app/Contents/MacOS/RobloxPlayerBeta\0");
    assert_eq!(attach(&mut other), Err(Error::ImageNotFound));

    let mut cut = world();
    cut.put_word(DYLD + 8, DYLD + 0x1000 - 0x20);
    assert_eq!(attach(&mut cut), Err(Error::ImageNotFound));
}

#[test]
fn an_entry_with_an_unreadable_path_is_passed_over() {
    let mut world = world();
    world.put_word(DYLD + 0x108, 0x10);
    assert_eq!(attach(&mut world), Ok(BASE));
}

#[test]
fn paths_are_well_formed_text() {
    let mut bad = world();
    put(&mut bad.mem, DYLD + 0x300, b"/\xff/MacOS/RobloxPlayer\0");
    assert_eq!(attach(&mut bad), Err(Error::ImageNotFound));
    let mut good = world();
    put(&mut good.mem, DYLD + 0x300, "/\u{e9}\u{20ac}/MacOS/RobloxPlayer\0".as_bytes());
    assert_eq!(attach(&mut good), Ok(BASE));
}

#[test]
fn texts_end_at_the_first_zero_byte() {
    let mut world = world();
    assert_eq!(text(&mut world, DYLD + 0x200), Some(b"/usr/lib/dyld".to_vec()));
    assert_eq!(text(&mut world, DYLD + 0x400), Some(Vec::new()));
    put(&mut world.mem, HEAP, &[b'a'; 255]);
    assert_eq!(text(&mut world, HEAP), Some(vec![b'a'; 255]));
    put(&mut world.mem, HEAP, &[b'a'; 256]);
    assert_eq!(text(&mut world, HEAP), None);
    assert_eq!(text(&mut world, HEAP + 1), Some(vec![b'a'; 255]));
    assert_eq!(text(&mut world, DYLD + 0x1000 - 31), None);
    put(&mut world.mem, DYLD + 0x1000 - 32, b"last words\0");
    assert_eq!(text(&mut world, DYLD + 0x1000 - 32), Some(b"last words".to_vec()));
    put(&mut world.mem, DYLD + 0x1000 - 32, &[b'a'; 32]);
    assert_eq!(text(&mut world, DYLD + 0x1000 - 32), None);
    put(&mut world.mem, HEAP, &[0xc3, 0xa9, 0, 0xff]);
    assert_eq!(text(&mut world, HEAP), Some(vec![0xc3, 0xa9]));
    put(&mut world.mem, HEAP, &[0xc3, 0]);
    assert_eq!(text(&mut world, HEAP), None);
    put(&mut world.mem, HEAP, &[0xed, 0xa0, 0x80, 0]);
    assert_eq!(text(&mut world, HEAP), None);
}

#[test]
fn segments_are_moved_to_where_the_image_is() {
    let mut world = world();
    assert_eq!(
        image(&mut world),
        Ok(vec![
            Region { start: 0x0400_0000, size: 0x1_0000_0000, prot: 0 },
            Region { start: BASE, size: 0x4000, prot: 5 },
            Region { start: IMAGE_DATA, size: 0x1000, prot: 3 },
        ])
    );
}

#[test]
fn images_below_their_place_go_round() {
    let mut data = segment(b"__TEXT", 0x1000, 0x10, 5);
    data.extend(segment(b"__DATA", 0x10, 0x20, -1));
    assert_eq!(
        parse(0, 2, &data),
        Ok(vec![
            Region { start: 0, size: 0x10, prot: 5 },
            Region { start: 0xffff_ffff_ffff_f010, size: 0x20, prot: -1 },
        ])
    );
}

#[test]
fn the_last_text_segment_counts() {
    let mut data = segment(b"__TEXT", 0x1000, 0x10, 5);
    data.extend(segment(b"__TEXT_EXEC", 0x2000, 0x10, 5));
    data.extend(segment(b"__TEXT", 0x3000, 0x10, 5));
    let regions = parse(0x10_0000, 3, &data).unwrap();
    assert_eq!(regions[2].start, 0x10_0000);
    assert_eq!(regions[0].start, 0x10_0000 - 0x2000);
}

#[test]
fn images_of_another_shape_are_bad() {
    let text = segment(b"__TEXT", 0x1000, 0x10, 5);
    assert_eq!(parse(0, 1, &text[..71]), Err(Error::BadMacho));
    assert_eq!(parse(0, 2, &text), Err(Error::BadMacho));
    assert_eq!(parse(0, 0, &text), Err(Error::BadMacho));
    assert_eq!(parse(0, 1, &segment(b"__TEXTS", 0x1000, 0x10, 5)), Err(Error::BadMacho));
    let mut short = text.clone();
    short[4..8].copy_from_slice(&7u32.to_le_bytes());
    assert_eq!(parse(0, 1, &short), Err(Error::BadMacho));
    let mut other = text.clone();
    other[0..4].copy_from_slice(&0x1au32.to_le_bytes());
    assert_eq!(parse(0, 1, &other), Err(Error::BadMacho));
    let mut small = text.clone();
    small[4..8].copy_from_slice(&64u32.to_le_bytes());
    assert_eq!(parse(0, 1, &small), Err(Error::BadMacho));
    assert!(parse(0, 1, &text).is_ok());
}

#[test]
fn headers_of_another_shape_are_bad() {
    for (at, word) in [(0, 0xfeedfaceu32), (16, 1025), (20, 0x10_0001)] {
        let mut world = world();
        put(&mut world.mem, BASE + at, &word.to_le_bytes());
        assert_eq!(image(&mut world), Err(Error::BadMacho));
        assert_eq!(start(&mut world).err(), Some(Error::BadMacho));
    }
    let mut cut = world();
    put(&mut cut.mem, BASE + 20, &0x10_0000u32.to_le_bytes());
    assert_eq!(image(&mut cut), Err(Error::Read(1)));
    let mut gone = world();
    gone.mem.remove(0);
    assert_eq!(image(&mut gone), Err(Error::Read(1)));
}

#[test]
fn names_are_read_in_both_layouts() {
    let mut world = world();
    put(&mut world.mem, HEAP, &short_name("Heartbeat"));
    assert_eq!(name(&mut world, HEAP), Some(b"Heartbeat".to_vec()));

    let mut intel = vec![0u8; 24];
    intel[0] = 2 * 5;
    intel[1..6].copy_from_slice(b"Steps");
    put(&mut world.mem, HEAP, &intel);
    assert_eq!(name(&mut world, HEAP), Some(b"Steps".to_vec()));

    let mut arm = vec![0u8; 24];
    arm[0..8].copy_from_slice(&(HEAP + 0x400).to_le_bytes());
    arm[8..16].copy_from_slice(&30u64.to_le_bytes());
    arm[23] = 0x80;
    put(&mut world.mem, HEAP, &arm);
    put(&mut world.mem, HEAP + 0x400, b"A name that is longer than 23.");
    assert_eq!(name(&mut world, HEAP), Some(b"A name that is longer than 23.".to_vec()));

    let mut long = vec![0u8; 24];
    long[0] = 0x41;
    long[8..16].copy_from_slice(&30u64.to_le_bytes());
    long[16..24].copy_from_slice(&(HEAP + 0x400).to_le_bytes());
    put(&mut world.mem, HEAP, &long);
    assert_eq!(name(&mut world, HEAP), Some(b"A name that is longer than 23.".to_vec()));
}

#[test]
fn names_are_printable_and_of_some_length() {
    let mut world = world();
    for bad in ["", "ab", "tab\there", "caf\u{e9}s"] {
        put(&mut world.mem, HEAP, &short_name(bad));
        assert_eq!(name(&mut world, HEAP), None, "{bad:?}");
    }
    put(&mut world.mem, HEAP, &short_name("abc"));
    assert_eq!(name(&mut world, HEAP), Some(b"abc".to_vec()));
    let mut long = vec![0u8; 24];
    long[0..8].copy_from_slice(&(HEAP + 0x400).to_le_bytes());
    long[23] = 0x80;
    put(&mut world.mem, HEAP + 0x400, &[b'x'; 200]);
    for (len, good) in [(47u64, true), (48, false), (128, false), (129, false)] {
        long[8..16].copy_from_slice(&len.to_le_bytes());
        put(&mut world.mem, HEAP, &long);
        assert_eq!(name(&mut world, HEAP).is_some(), good);
    }
    assert_eq!(name(&mut world, 0x10), None);
}

#[test]
fn a_list_of_jobs_is_told_by_its_names() {
    assert_eq!(jobs(&mut world()), Some(0x60));

    let mut four = world();
    put(&mut four.mem, JOBS + 0x10, &short_name("Network"));
    assert_eq!(jobs(&mut four), None);

    let mut nameless = world();
    for i in 13..20 {
        put(&mut nameless.mem, JOBS + 0x100 * i + 0x10, &short_name(""));
    }
    assert_eq!(jobs(&mut nameless), None);
    put(&mut nameless.mem, JOBS + 0x100 * 13 + 0x10, &short_name("Network"));
    assert_eq!(jobs(&mut nameless), Some(0x60));
}

#[test]
fn a_list_of_jobs_has_the_right_size_and_mostly_pointers() {
    let mut short = world();
    short.put_word(SCHEDULER + 0x68, LIST + 19 * 16);
    assert_eq!(jobs(&mut short), None);

    let mut odd = world();
    odd.put_word(SCHEDULER + 0x68, LIST + 20 * 16 + 8);
    assert_eq!(jobs(&mut odd), None);

    let mut backwards = world();
    backwards.put_word(SCHEDULER + 0x68, LIST);
    assert_eq!(jobs(&mut backwards), None);

    let mut two = world();
    for i in 18..20 {
        two.put_word(LIST + 16 * i, 1);
    }
    assert_eq!(jobs(&mut two), Some(0x60));
    two.put_word(LIST + 16 * 17, 1);
    assert_eq!(jobs(&mut two), None);
}

#[test]
fn the_scheduler_is_found_with_its_last_interval() {
    assert_eq!(scheduler(&mut world()), Ok((SCHEDULER, 0x48)));
    let mut one = world();
    one.put_word(SCHEDULER + 0x48, (-1.0f64 / 60.0).to_bits());
    assert_eq!(scheduler(&mut one), Ok((SCHEDULER, 0x20)));
}

#[test]
fn a_scheduler_needs_an_interval_a_list_and_a_place_in_the_heap() {
    let mut no_interval = world();
    no_interval.put_word(SCHEDULER + 0x20, f64::NAN.to_bits());
    no_interval.put_word(SCHEDULER + 0x48, (1.0f64 / 1001.0).to_bits());
    assert_eq!(scheduler(&mut no_interval), Err(Error::SchedulerNotFound));
    assert_eq!(start(&mut no_interval).err(), Some(Error::SchedulerNotFound));

    let mut no_list = world();
    no_list.put_word(SCHEDULER + 0x60, 0);
    assert_eq!(scheduler(&mut no_list), Err(Error::SchedulerNotFound));

    let mut no_heap = world();
    no_heap.regions.pop();
    assert_eq!(scheduler(&mut no_heap), Err(Error::SchedulerNotFound));

    let mut no_pointer = world();
    no_pointer.put_word(IMAGE_DATA + 0x40, 0);
    assert_eq!(scheduler(&mut no_pointer), Err(Error::SchedulerNotFound));
}

#[test]
fn executable_regions_are_not_searched_for_the_scheduler() {
    let mut world = world();
    let image = [Region { start: IMAGE_DATA, size: 0x1000, prot: 7 }];
    let search = SchedulerSearch::scheduler(&image, world.regions.clone());
    let search = drive(search, SchedulerSearch::query, SchedulerSearch::answer, &mut world);
    assert_eq!(search.found(), Err(Error::SchedulerNotFound));
}

#[test]
fn an_object_is_looked_at_once() {
    let mut world = world();
    world.put_word(SCHEDULER + 0x60, 0);
    for i in 0..0x200 {
        world.put_word(IMAGE_DATA + 8 * i, SCHEDULER);
    }
    let image = [Region { start: IMAGE_DATA, size: 0x1000, prot: 3 }];
    let mut search = SchedulerSearch::scheduler(&image, world.regions.clone());
    let mut reads = 0;
    while let Some(query) = search.query() {
        if query == (Query::Read { addr: SCHEDULER, len: 0x200 }) {
            reads += 1;
        }
        search = search.answer(world.answer(query));
    }
    assert_eq!(reads, 1);
    assert_eq!(search.found(), Err(Error::SchedulerNotFound));
}

#[test]
fn regions_are_read_in_chunks() {
    let mut world = world();
    let start = 0x5_0000_0000;
    world.mem.push((start, vec![0u8; 0x20_0010]));
    world.put_word(start + 0x20_0008, SCHEDULER);
    let image = [Region { start, size: 0x20_0010, prot: 3 }];
    let mut search = SchedulerSearch::scheduler(&image, world.regions.clone());
    let mut chunks = Vec::new();
    while let Some(query) = search.query() {
        if let Query::Read { addr, len } = query {
            if addr >= start && addr < start + 0x20_0010 {
                chunks.push((addr, len));
            }
        }
        search = search.answer(world.answer(query));
    }
    assert_eq!(
        chunks,
        vec![(start, 0x10_0000), (start + 0x10_0000, 0x10_0000), (start + 0x20_0000, 0x10)]
    );
    assert_eq!(search.found(), Ok((SCHEDULER, 0x48)));
}

#[test]
fn a_chunk_that_cannot_be_read_is_left_out() {
    let mut world = world();
    let start = 0x5_0000_0000;
    world.mem.push((start + 0x10_0000, vec![0u8; 0x10]));
    world.put_word(start + 0x10_0000, SCHEDULER);
    let image = [Region { start, size: 0x10_0010, prot: 1 }];
    let search = SchedulerSearch::scheduler(&image, world.regions.clone());
    let search = drive(search, SchedulerSearch::query, SchedulerSearch::answer, &mut world);
    assert_eq!(search.found(), Ok((SCHEDULER, 0x48)));
}

#[test]
fn the_flag_of_the_layer_is_found() {
    assert_eq!(flag(&mut world()), Ok(LAYER_DATA + 0x21));
    let mut off = world();
    put(&mut off.mem, LAYER_DATA + 0x21, &[0x83]);
    assert_eq!(flag(&mut off), Ok(LAYER_DATA + 0x21));
}

#[test]
fn a_layer_needs_its_class_its_data_and_a_likely_flag() {
    let mut class = world();
    class.put_word(LAYER, CLASS + 8);
    assert_eq!(flag(&mut class), Err(Error::LayerNotFound));
    assert_eq!(start(&mut class).err(), Some(Error::LayerNotFound));
    assert_eq!(class.writes, 0);

    let mut data = world();
    data.put_word(LAYER + 0x18, HEAP + 0x1_0000 - 0x21);
    assert_eq!(flag(&mut data), Err(Error::LayerNotFound));

    let mut byte = world();
    put(&mut byte.mem, LAYER_DATA + 0x21, &[0x92]);
    assert_eq!(flag(&mut byte), Err(Error::LayerNotFound));

    let mut second = world();
    second.put_word(LAYER + 0x18, 0x10);
    second.put_word(LAYER + 0x100, CLASS);
    second.put_word(LAYER + 0x118, LAYER_DATA);
    assert_eq!(flag(&mut second), Ok(LAYER_DATA + 0x21));
}

#[test]
fn layers_are_not_looked_for_in_large_or_read_only_regions() {
    let mut large = world();
    large.regions[3].size = 200_000_000;
    assert_eq!(flag(&mut large), Err(Error::LayerNotFound));
    let mut read_only = world();
    read_only.regions[3].prot = 1;
    assert_eq!(flag(&mut read_only), Err(Error::LayerNotFound));
}

#[test]
fn writes_are_read_back() {
    let mut world = world();
    let before = world.mem.clone();
    let write = Query::WriteWord { addr: HEAP + 4, word: 0x0102_0304_0506_0708 };
    assert_eq!(world.answer(write).written(), Ok(()));
    let back = world.answer(Query::Read { addr: HEAP + 4, len: 8 }).bytes(8);
    assert_eq!(back, Ok(vec![8, 7, 6, 5, 4, 3, 2, 1]));
    world.answer(Query::WriteWord { addr: HEAP + 4, word: 0 });
    assert_eq!(world.mem, before);

    world.refuses = vec![HEAP];
    let refused = world.answer(Query::WriteByte { addr: HEAP, byte: 9 }).written();
    assert_eq!(refused, Err(Error::Write(2)));
    assert_eq!(refused.unwrap_err().message(), "write failed: 2");
    assert_eq!(world.mem, before);
    assert_eq!(Answer::Status(0).written(), Ok(()));
    assert_eq!(Answer::Status(-1).written(), Err(Error::Write(-1)));
    assert_eq!(Answer::Done.written(), Err(Error::Write(5)));
}

#[test]
fn errors_have_their_messages() {
    assert_eq!(Error::Read(1).message(), "read failed: 1");
    assert_eq!(Error::Write(-308).message(), "write failed: -308");
    assert_eq!(Error::TaskForPid(5).message(), "task_for_pid failed: 5");
    assert_eq!(Error::TaskForPid(i32::MIN).message(), "task_for_pid failed: -2147483648");
    assert_eq!(Error::ImageNotFound.message(), "Roblox image not found");
    assert_eq!(Error::BadMacho.message(), "bad macho");
    assert_eq!(Error::SchedulerNotFound.message(), "scheduler not found");
    assert_eq!(Error::LayerNotFound.message(), "Metal layer not found");
    let field = Error::SyncFieldNotFound {
        size: 0x60,
        pointers: 12,
        starts_on: true,
        turns_off: false,
        changes: 0,
    };
    assert_eq!(
        field.message(),
        "display sync field not found: size=0x60 pointers=12 setter=true/false changes=0"
    );
    let empty = Error::SyncFieldNotFound {
        size: 0,
        pointers: 0,
        starts_on: false,
        turns_off: true,
        changes: 23809,
    };
    assert_eq!(
        empty.message(),
        "display sync field not found: size=0x0 pointers=0 setter=false/true changes=23809"
    );
}

#[test]
fn answers_of_the_wrong_kind_are_failed_answers() {
    let mut startup = Run::start(1);
    while let Some(_) = startup.query() {
        startup = startup.answer(Answer::Done);
    }
    assert_eq!(startup.run().err(), Some(Error::Read(5)));
}
