//! The player as the system sees it: whether it runs, whether it can be attached to, and
//! signing it anew so that it can.
use vstd::prelude::*;
use vstd::string::StringSliceAdditionalSpecFns;

use crate::bytes;
use crate::region::KERN_SUCCESS;
use crate::script;
use crate::script::Script;
use crate::text;
use crate::text::{push_decimal, trim};

verus! {

/// The player among the running applications.
pub const BUNDLE: &'static str = "com.roblox.RobloxPlayer";

/// The name of the player's process.
pub const PROCESS: &'static str = "RobloxPlayer";

/// The player's program.
pub const PROGRAM: &'static str = "/Applications/Roblox.app/Contents/MacOS/RobloxPlayer";

/// How often it is looked whether the player has quit.
pub const ATTEMPTS: u32 = 20;

/// How many milliseconds to wait before the next look.
pub const PAUSE_MS: u64 = 100;

/// The entitlements to sign with.
pub const ENTITLEMENTS: &'static str = "<?xml version=\"1.0\" encoding=\"UTF-8\"?>\n<!DOCTYPE plist PUBLIC \"-//Apple//DTD PLIST 1.0//EN\" \"http://www.apple.com/DTDs/PropertyList-1.0.dtd\">\n<plist version=\"1.0\"><dict><key>com.apple.security.get-task-allow</key><true/></dict></plist>";

/// The first process number that is one.
pub open spec fn first_process(pids: Seq<i32>) -> Option<i32>
    decreases pids.len(),
{
    if pids.len() == 0 {
        None
    } else if pids[0] > 0 {
        Some(pids[0])
    } else {
        first_process(pids.skip(1))
    }
}

/// The player's process, given the process numbers of the applications with its bundle
/// identifier.
pub fn roblox(pids: &[i32]) -> (pid: Option<i32>)
    ensures
        pid == first_process(pids@),
{
    let mut i: usize = 0;
    assert(pids@.skip(0) =~= pids@);
    while i < pids.len()
        invariant
            i <= pids@.len(),
            first_process(pids@) == first_process(pids@.skip(i as int)),
        decreases pids@.len() - i,
    {
        assert(pids@.skip(i as int).skip(1) =~= pids@.skip(i + 1));
        if pids[i] > 0 {
            return Some(pids[i]);
        }
        i += 1;
    }
    None
}

/// Tries to attach to the processes from the `i`-th on, until that succeeds with one.
pub open spec fn trying(pids: Seq<i32>, i: nat) -> Script<i32, i32, Option<i32>>
    decreases pids.len() - i,
{
    if i >= pids.len() {
        Script::End(None)
    } else if pids[i as int] < 1 {
        trying(pids, i + 1)
    } else {
        Script::Ask(
            pids[i as int],
            |status: i32|
                if status == KERN_SUCCESS {
                    Script::End(Some(pids[i as int]))
                } else {
                    trying(pids, i + 1)
                },
        )
    }
}

/// A look for a process that can be attached to. It asks what the kernel says to an attempt to
/// attach to a process.
pub struct Ready {
    pids: Vec<i32>,
    i: usize,
    found: Option<i32>,
}

impl View for Ready {
    type V = Script<i32, i32, Option<i32>>;

    closed spec fn view(&self) -> Script<i32, i32, Option<i32>> {
        match self.found {
            Some(pid) => Script::End(Some(pid)),
            None => trying(self.pids@, self.i as nat),
        }
    }
}

impl Ready {
    #[verifier::type_invariant]
    spec fn inv(&self) -> bool {
        self.i <= self.pids@.len() && (self.i < self.pids@.len() ==> self.pids@[self.i as int] >= 1)
    }

    /// Looks among the processes with these numbers.
    pub fn ready(pids: Vec<i32>) -> (ready: Ready)
        ensures
            ready@ == trying(pids@, 0),
    {
        Ready::from(pids, 0)
    }

    fn from(pids: Vec<i32>, from: usize) -> (ready: Ready)
        requires
            from <= pids@.len(),
        ensures
            ready@ == trying(pids@, from as nat),
    {
        let mut i: usize = from;
        while i < pids.len() && pids[i] < 1
            invariant
                from <= i <= pids@.len(),
                trying(pids@, i as nat) == trying(pids@, from as nat),
            decreases pids@.len() - i,
        {
            i += 1;
        }
        Ready { pids, i, found: None }
    }

    /// The process to try next; nothing once the look is over.
    pub fn query(&self) -> (pid: Option<i32>)
        ensures
            pid == self@.question(),
    {
        proof {
            use_type_invariant(self);
        }
        if self.found.is_none() && self.i < self.pids.len() {
            Some(self.pids[self.i])
        } else {
            None
        }
    }

    /// Takes what the kernel says to the attempt.
    pub fn answer(self, status: i32) -> (ready: Ready)
        ensures
            ready@ == self@.answered(status),
    {
        proof {
            use_type_invariant(&self);
        }
        if self.found.is_some() || self.i >= self.pids.len() {
            return self;
        }
        if status == KERN_SUCCESS {
            let pid: i32 = self.pids[self.i];
            return Ready { pids: self.pids, i: self.i, found: Some(pid) };
        }
        Ready::from(self.pids, self.i + 1)
    }

    /// A process that can be attached to, once there is nothing more to try.
    pub fn pid(&self) -> (pid: Option<i32>)
        ensures
            self@ matches Script::End(result) ==> pid == result,
    {
        proof {
            use_type_invariant(self);
        }
        self.found
    }
}

/// The player's process is the first number above zero, if there is one.
pub proof fn the_player_is_the_first_above_zero(pids: Seq<i32>)
    ensures
        match first_process(pids) {
            Some(pid) => exists|i: int|
                0 <= i < pids.len() && #[trigger] pids[i] == pid && pid > 0 && forall|j: int|
                    0 <= j < i ==> #[trigger] pids[j] <= 0,
            None => forall|i: int| 0 <= i < pids.len() ==> #[trigger] pids[i] <= 0,
        },
    decreases pids.len(),
{
    if pids.len() > 0 {
        if pids[0] > 0 {
            assert(pids[0] == first_process(pids)->0);
        } else {
            let rest = pids.skip(1);
            the_player_is_the_first_above_zero(rest);
            match first_process(rest) {
                Some(pid) => {
                    let i = choose|i: int|
                        0 <= i < rest.len() && #[trigger] rest[i] == pid && pid > 0 && forall|
                            j: int,
                        |
                            0 <= j < i ==> #[trigger] rest[j] <= 0;
                    assert(pids[i + 1] == pid);
                    assert forall|j: int| 0 <= j < i + 1 implies #[trigger] pids[j] <= 0 by {
                        if j > 0 {
                            assert(rest[j - 1] == pids[j]);
                        }
                    }
                },
                None => {
                    assert forall|i: int| 0 <= i < pids.len() implies #[trigger] pids[i] <= 0 by {
                        if i > 0 {
                            assert(rest[i - 1] == pids[i]);
                        }
                    }
                },
            }
        }
    }
}

/// Whatever the kernel says, a process that is given is one of those asked for. So where one
/// can be attached to, the player runs.
pub proof fn ready_processes_run(pids: Seq<i32>)
    ensures
        script::always(
            trying(pids, 0),
            |r: Option<i32>|
                r matches Some(pid) ==> pid > 0 && pids.contains(pid) && first_process(
                    pids,
                ) is Some,
        ),
{
    lemma_trying(pids, 0);
}

proof fn lemma_trying(pids: Seq<i32>, i: nat)
    ensures
        script::always(
            trying(pids, i),
            |r: Option<i32>|
                r matches Some(pid) ==> pid > 0 && pids.contains(pid) && first_process(
                    pids,
                ) is Some,
        ),
    decreases pids.len() - i,
{
    let good = |r: Option<i32>|
        r matches Some(pid) ==> pid > 0 && pids.contains(pid) && first_process(pids) is Some;
    if i < pids.len() {
        lemma_trying(pids, i + 1);
        if pids[i as int] >= 1 {
            lemma_first_process(pids, i as int);
            let p = trying(pids, i);
            assert forall|a: i32| script::always(#[trigger] p.answered(a), good) by {}
            script::lemma_always_ask(p, good);
        }
    }
}

proof fn lemma_first_process(pids: Seq<i32>, i: int)
    requires
        0 <= i < pids.len(),
        pids[i] > 0,
    ensures
        first_process(pids) is Some,
    decreases pids.len(),
{
    if pids[0] <= 0 {
        assert(pids.skip(1)[i - 1] == pids[i]);
        lemma_first_process(pids.skip(1), i - 1);
    }
}

/// Where the kernel says the same of a process every time, the first process that it lets
/// attach to is given.
pub proof fn the_first_ready_process_is_given(pids: Seq<i32>, status: spec_fn(i32) -> i32)
    ensures
        trying(pids, 0).run(status) == script::first(
            pids.len(),
            |i: nat|
                if pids[i as int] > 0 && status(pids[i as int]) == KERN_SUCCESS {
                    Some(pids[i as int])
                } else {
                    None
                },
            0,
        ),
{
    lemma_first_ready(pids, status, 0);
}

proof fn lemma_first_ready(pids: Seq<i32>, status: spec_fn(i32) -> i32, i: nat)
    ensures
        trying(pids, i).run(status) == script::first(
            pids.len(),
            |i: nat|
                if pids[i as int] > 0 && status(pids[i as int]) == KERN_SUCCESS {
                    Some(pids[i as int])
                } else {
                    None
                },
            i,
        ),
    decreases pids.len() - i,
{
    if i < pids.len() {
        reveal_with_fuel(Script::run, 2);
        lemma_first_ready(pids, status, i + 1);
    }
}

/// What signing the player asks of the system.
#[derive(Clone, Copy, Debug, PartialEq, Eq, Structural)]
pub enum SignQuery {
    /// Ask the player's processes to quit.
    Quit,
    /// The process numbers of the applications with the player's bundle identifier.
    Players,
    /// Wait a little.
    Pause,
    /// Write the entitlements to a file.
    WriteEntitlements,
    /// Sign the player's program with that file.
    Sign,
    /// Remove that file.
    RemoveEntitlements,
    /// The entitlements that the player's program is signed with.
    Entitlements,
}

/// What a command has put out.
pub struct Output {
    /// It succeeded.
    pub success: bool,
    pub stdout: Vec<u8>,
    pub stderr: Vec<u8>,
}

/// An answer of the system. What comes back in place of the kind that the question calls for
/// counts as a failure.
pub enum SignAnswer {
    /// It is done.
    Done,
    /// It could not be done, for this reason.
    Failed(String),
    /// Process numbers.
    Players(Vec<i32>),
    /// A command has run.
    Output(Output),
}

/// An answer as a mathematical value.
pub enum SignReply {
    Done,
    Failed(Seq<char>),
    Players(Seq<i32>),
    Output { success: bool, stdout: Seq<u8>, stderr: Seq<u8> },
}

impl View for SignAnswer {
    type V = SignReply;

    open spec fn view(&self) -> SignReply {
        match *self {
            SignAnswer::Done => SignReply::Done,
            SignAnswer::Failed(reason) => SignReply::Failed(reason@),
            SignAnswer::Players(pids) => SignReply::Players(pids@),
            SignAnswer::Output(output) => SignReply::Output {
                success: output.success,
                stdout: output.stdout@,
                stderr: output.stderr@,
            },
        }
    }
}

impl SignReply {
    /// A process of the player is among these.
    pub open spec fn running(self) -> bool {
        self matches SignReply::Players(pids) && first_process(pids) is Some
    }

    /// Why it could not be done; nothing where it is done.
    pub open spec fn failure(self) -> Option<Seq<char>> {
        match self {
            SignReply::Done => None,
            SignReply::Failed(reason) => Some(reason),
            _ => Some(Seq::empty()),
        }
    }

    /// The output, standard output first, tells of the entitlement to be attached to. It may
    /// reach from the one into the other.
    pub open spec fn entitled(self) -> bool {
        self matches SignReply::Output { success, stdout, stderr } && bytes::occurs(
            stdout + stderr,
            "com.apple.security.get-task-allow".spec_bytes(),
        )
    }
}

/// Whether the player is signed so that it can be attached to, given what the system says of
/// its entitlements.
pub fn is_resigned(answer: SignAnswer) -> (yes: bool)
    ensures
        yes == answer@.entitled(),
{
    match answer {
        SignAnswer::Output(output) => {
            let mut data = output.stdout;
            let mut stderr = output.stderr;
            data.append(&mut stderr);
            bytes::contains(&data, "com.apple.security.get-task-allow".as_bytes())
        },
        _ => false,
    }
}

/// The text that bytes are read as where they need not be well-formed UTF-8.
pub uninterp spec fn lossy(s: Seq<u8>) -> Seq<char>;

/// The text of these bytes, by `String::from_utf8_lossy`: bytes that are well-formed UTF-8
/// give their characters. Of others it is only said that the same bytes give the same text.
#[verifier::external_body]
fn decode(s: &[u8]) -> (decoded: String)
    ensures
        decoded@ == lossy(s@),
        vstd::utf8::valid_utf8(s@) ==> decoded@ == vstd::utf8::decode_utf8(s@),
{
    String::from_utf8_lossy(s).into_owned()
}

/// The reason that a failed command gives: its error output without white space around it.
pub open spec fn complaint(stderr: Seq<u8>) -> Seq<char> {
    text::trimmed(lossy(stderr))
}

/// The signature is looked at.
pub open spec fn checking(stderr: Seq<u8>) -> Script<SignQuery, SignReply, Result<(), Seq<char>>> {
    Script::Ask(
        SignQuery::Entitlements,
        |reply: SignReply|
            Script::End(
                if reply.entitled() {
                    Ok(())
                } else {
                    Err(complaint(stderr))
                },
            ),
    )
}

/// The file is removed once the command has run, whether it succeeded or not.
pub open spec fn removing(success: bool, stderr: Seq<u8>) -> Script<
    SignQuery,
    SignReply,
    Result<(), Seq<char>>,
> {
    Script::Ask(
        SignQuery::RemoveEntitlements,
        |_reply: SignReply|
            if success {
                checking(stderr)
            } else {
                Script::End(Err(complaint(stderr)))
            },
    )
}

/// The program is signed.
pub open spec fn signing() -> Script<SignQuery, SignReply, Result<(), Seq<char>>> {
    Script::Ask(
        SignQuery::Sign,
        |reply: SignReply|
            match reply {
                SignReply::Output { success, stdout, stderr } => removing(success, stderr),
                SignReply::Failed(reason) => Script::End(Err(reason)),
                _ => Script::End(Err(Seq::empty())),
            },
    )
}

/// The file is written.
pub open spec fn writing() -> Script<SignQuery, SignReply, Result<(), Seq<char>>> {
    Script::Ask(
        SignQuery::WriteEntitlements,
        |reply: SignReply|
            match reply.failure() {
                Some(reason) => Script::End(Err(reason)),
                None => signing(),
            },
    )
}

/// The last look at whether the player has quit.
pub open spec fn last_look() -> Script<SignQuery, SignReply, Result<(), Seq<char>>> {
    Script::Ask(
        SignQuery::Players,
        |reply: SignReply|
            if reply.running() {
                Script::End(Err("Roblox did not quit"@))
            } else {
                writing()
            },
    )
}

/// Waits for the player to quit, with as many looks left as `left` says.
pub open spec fn waiting(left: nat) -> Script<SignQuery, SignReply, Result<(), Seq<char>>>
    decreases left, 0nat,
{
    if left == 0 {
        last_look()
    } else {
        Script::Ask(
            SignQuery::Players,
            |reply: SignReply|
                if reply.running() {
                    paused((left - 1) as nat)
                } else {
                    last_look()
                },
        )
    }
}

/// Waits a little, and goes on waiting for the player to quit.
pub open spec fn paused(left: nat) -> Script<SignQuery, SignReply, Result<(), Seq<char>>>
    decreases left, 1nat,
{
    Script::Ask(SignQuery::Pause, |_reply: SignReply| waiting(left))
}

/// Signs the player anew: makes it quit, and signs its program so that it can be attached to.
pub open spec fn resigning() -> Script<SignQuery, SignReply, Result<(), Seq<char>>> {
    Script::Ask(SignQuery::Quit, |_reply: SignReply| waiting(ATTEMPTS as nat))
}

/// The result as a mathematical value.
pub open spec fn seen(result: Result<(), String>) -> Result<(), Seq<char>> {
    match result {
        Ok(_) => Ok(()),
        Err(reason) => Err(reason@),
    }
}

/// The reason that a failed command gives.
fn complain(stderr: &[u8]) -> (reason: String)
    ensures
        reason@ == complaint(stderr@),
{
    let decoded = decode(stderr);
    let mut reason = String::new();
    reason.append(trim(decoded.as_str()));
    assert(reason@ =~= complaint(stderr@));
    reason
}

enum State {
    Quit,
    Look { left: u32 },
    Pause { left: u32 },
    LastLook,
    Write,
    Sign,
    Remove { success: bool, stderr: Vec<u8> },
    Check { stderr: Vec<u8> },
    End(Result<(), String>),
}

/// Signing the player anew, under way.
pub struct Resign {
    state: State,
}

impl View for Resign {
    type V = Script<SignQuery, SignReply, Result<(), Seq<char>>>;

    closed spec fn view(&self) -> Script<SignQuery, SignReply, Result<(), Seq<char>>> {
        match self.state {
            State::Quit => resigning(),
            State::Look { left } => waiting(left as nat),
            State::Pause { left } => paused(left as nat),
            State::LastLook => last_look(),
            State::Write => writing(),
            State::Sign => signing(),
            State::Remove { success, stderr } => removing(success, stderr@),
            State::Check { stderr } => checking(stderr@),
            State::End(result) => Script::End(seen(result)),
        }
    }
}

impl Resign {
    /// Signs the player anew.
    pub fn resign() -> (resign: Resign)
        ensures
            resign@ == resigning(),
    {
        Resign { state: State::Quit }
    }

    /// What to ask next; nothing once it is over.
    pub fn query(&self) -> (query: Option<SignQuery>)
        ensures
            query == self@.question(),
    {
        match &self.state {
            State::Quit => Some(SignQuery::Quit),
            State::Look { .. } => Some(SignQuery::Players),
            State::Pause { .. } => Some(SignQuery::Pause),
            State::LastLook => Some(SignQuery::Players),
            State::Write => Some(SignQuery::WriteEntitlements),
            State::Sign => Some(SignQuery::Sign),
            State::Remove { .. } => Some(SignQuery::RemoveEntitlements),
            State::Check { .. } => Some(SignQuery::Entitlements),
            State::End(_) => None,
        }
    }

    /// Takes the answer to what `query` asks.
    pub fn answer(self, answer: SignAnswer) -> (resign: Resign)
        ensures
            resign@ == self@.answered(answer@),
    {
        let state = match self.state {
            State::Quit => State::Look { left: ATTEMPTS },
            State::Look { left } => if left == 0 {
                after_last_look(answer)
            } else if is_running(&answer) {
                State::Pause { left: left - 1 }
            } else {
                State::LastLook
            },
            State::Pause { left } => State::Look { left },
            State::LastLook => after_last_look(answer),
            State::Write => match answer {
                SignAnswer::Done => State::Sign,
                SignAnswer::Failed(reason) => State::End(Err(reason)),
                _ => State::End(Err(no_reason())),
            },
            State::Sign => match answer {
                SignAnswer::Output(output) => State::Remove {
                    success: output.success,
                    stderr: output.stderr,
                },
                SignAnswer::Failed(reason) => State::End(Err(reason)),
                _ => State::End(Err(no_reason())),
            },
            State::Remove { success, stderr } => if success {
                State::Check { stderr }
            } else {
                State::End(Err(complain(&stderr)))
            },
            State::Check { stderr } => if is_resigned(answer) {
                State::End(Ok(()))
            } else {
                State::End(Err(complain(&stderr)))
            },
            State::End(result) => State::End(result),
        };
        Resign { state }
    }

    /// Whether it went well, and why not, once there is nothing more to ask.
    pub fn result(self) -> (result: Result<(), String>)
        ensures
            self@ matches Script::End(r) ==> seen(result) == r,
    {
        match self.state {
            State::End(result) => result,
            _ => Err(no_reason()),
        }
    }
}

/// Whether a process of the player is among those in the answer.
fn is_running(answer: &SignAnswer) -> (yes: bool)
    ensures
        yes == answer@.running(),
{
    match answer {
        SignAnswer::Players(pids) => roblox(pids).is_some(),
        _ => false,
    }
}

/// No reason at all.
fn no_reason() -> (reason: String)
    ensures
        reason@ == Seq::<char>::empty(),
{
    let reason = String::new();
    assert(reason@ =~= Seq::empty());
    reason
}

fn after_last_look(answer: SignAnswer) -> (state: State)
    ensures
        (Resign { state })@ == last_look().answered(answer@),
{
    if is_running(&answer) {
        let mut reason = String::new();
        reason.append("Roblox did not quit");
        assert(reason@ =~= "Roblox did not quit"@);
        State::End(Err(reason))
    } else {
        State::Write
    }
}

/// What signing comes to in a world that does not change.
pub open spec fn resign_in(world: spec_fn(SignQuery) -> SignReply) -> Result<(), Seq<char>> {
    if world(SignQuery::Players).running() {
        Err("Roblox did not quit"@)
    } else {
        match world(SignQuery::WriteEntitlements).failure() {
            Some(reason) => Err(reason),
            None => match world(SignQuery::Sign) {
                SignReply::Output { success, stdout, stderr } => if success && world(
                    SignQuery::Entitlements,
                ).entitled() {
                    Ok(())
                } else {
                    Err(complaint(stderr))
                },
                SignReply::Failed(reason) => Err(reason),
                _ => Err(Seq::empty()),
            },
        }
    }
}

proof fn lemma_waiting(world: spec_fn(SignQuery) -> SignReply, left: nat)
    ensures
        waiting(left).run(world) == resign_in(world),
    decreases left,
{
    assert(last_look().run(world) == resign_in(world)) by {
        reveal_with_fuel(Script::run, 6);
    }
    if left > 0 {
        if world(SignQuery::Players).running() {
            lemma_waiting(world, (left - 1) as nat);
            assert(waiting(left).run(world) == paused((left - 1) as nat).run(world));
        } else {
            assert(waiting(left).run(world) == last_look().run(world));
        }
    }
}

/// In a world that does not change, signing succeeds exactly where the player is closed, the
/// file can be written, the command succeeds and the entitlement is there afterwards. Else the
/// first of these that is amiss is what is told.
pub proof fn signing_succeeds_where_it_can(world: spec_fn(SignQuery) -> SignReply)
    ensures
        resigning().run(world) == resign_in(world),
{
    lemma_waiting(world, ATTEMPTS as nat);
}

/// A world that answers by all that it was asked so far. The state is what it was asked.
pub open spec fn remembering(replies: spec_fn(Seq<SignQuery>) -> SignReply) -> spec_fn(
    Seq<SignQuery>,
    SignQuery,
) -> (Seq<SignQuery>, SignReply) {
    |asked: Seq<SignQuery>, query: SignQuery| (asked.push(query), replies(asked.push(query)))
}

/// How often it was asked to wait.
pub open spec fn pauses(asked: Seq<SignQuery>) -> nat
    decreases asked.len(),
{
    if asked.len() == 0 {
        0
    } else if asked.last() == SignQuery::Pause {
        pauses(asked.drop_last()) + 1
    } else {
        pauses(asked.drop_last())
    }
}

proof fn lemma_pauses(asked: Seq<SignQuery>, query: SignQuery)
    ensures
        pauses(asked.push(query)) == pauses(asked) + if query == SignQuery::Pause {
            1nat
        } else {
            0
        },
{
    assert(asked.push(query).drop_last() =~= asked);
}

/// The rest after the wait asks for no further wait, and ends well only after a look at the
/// entitlements that found what it should.
proof fn lemma_last_look_pauses(
    replies: spec_fn(Seq<SignQuery>) -> SignReply,
    asked: Seq<SignQuery>,
)
    ensures
        pauses(last_look().play(remembering(replies), asked).0) == pauses(asked),
        last_look().play(remembering(replies), asked).1 is Ok ==> {
            let all = last_look().play(remembering(replies), asked).0;
            all.last() == SignQuery::Entitlements && replies(all).entitled()
        },
{
    reveal_with_fuel(Script::play, 7);
    let a1 = asked.push(SignQuery::Players);
    let a2 = a1.push(SignQuery::WriteEntitlements);
    let a3 = a2.push(SignQuery::Sign);
    let a4 = a3.push(SignQuery::RemoveEntitlements);
    lemma_pauses(asked, SignQuery::Players);
    lemma_pauses(a1, SignQuery::WriteEntitlements);
    lemma_pauses(a2, SignQuery::Sign);
    lemma_pauses(a3, SignQuery::RemoveEntitlements);
    lemma_pauses(a4, SignQuery::Entitlements);
}

proof fn lemma_waiting_pauses(
    replies: spec_fn(Seq<SignQuery>) -> SignReply,
    asked: Seq<SignQuery>,
    left: nat,
)
    ensures
        pauses(waiting(left).play(remembering(replies), asked).0) <= pauses(asked) + left,
        waiting(left).play(remembering(replies), asked).1 is Ok ==> {
            let all = waiting(left).play(remembering(replies), asked).0;
            all.last() == SignQuery::Entitlements && replies(all).entitled()
        },
    decreases left,
{
    let world = remembering(replies);
    if left == 0 {
        lemma_last_look_pauses(replies, asked);
    } else {
        let looked = asked.push(SignQuery::Players);
        let waited = looked.push(SignQuery::Pause);
        lemma_pauses(asked, SignQuery::Players);
        lemma_pauses(looked, SignQuery::Pause);
        lemma_last_look_pauses(replies, looked);
        lemma_waiting_pauses(replies, waited, (left - 1) as nat);
        if replies(looked).running() {
            let p = paused((left - 1) as nat);
            assert(waiting(left).play(world, asked) == p.play(world, looked));
            assert(p.play(world, looked) == waiting((left - 1) as nat).play(world, waited));
        } else {
            assert(waiting(left).play(world, asked) == last_look().play(world, looked));
        }
    }
}

/// Whatever the answers are, signing waits no more than twenty times, and ends well only after
/// the entitlement was seen.
pub proof fn signing_waits_and_checks(replies: spec_fn(Seq<SignQuery>) -> SignReply)
    ensures
        ({
            let (asked, result) = resigning().play(remembering(replies), Seq::empty());
            &&& pauses(asked) <= ATTEMPTS
            &&& result is Ok ==> asked.last() == SignQuery::Entitlements && replies(
                asked,
            ).entitled()
        }),
{
    let asked = Seq::empty().push(SignQuery::Quit);
    lemma_pauses(Seq::empty(), SignQuery::Quit);
    lemma_waiting_pauses(replies, asked, ATTEMPTS as nat);
    assert(resigning().play(remembering(replies), Seq::empty()) == waiting(ATTEMPTS as nat).play(
        remembering(replies),
        asked,
    ));
}

/// The name of the file with the entitlements, for a process with this number.
pub fn entitlements_file(process: u32) -> (name: String)
    ensures
        name@ == "fps-unlocker-"@ + text::decimal(process as nat) + ".plist"@,
{
    let mut name = String::new();
    name.append("fps-unlocker-");
    push_decimal(&mut name, process as u64);
    name.append(".plist");
    assert(name@ =~= "fps-unlocker-"@ + text::decimal(process as nat) + ".plist"@);
    name
}

/// The system lists a process of the player: a number above zero.
pub open spec fn lists_a_process(reply: SignReply) -> bool {
    reply matches SignReply::Players(pids) && exists|i: int|
        0 <= i < pids.len() && #[trigger] pids[i] > 0
}

/// The player counts as running exactly where the system lists a number above zero, however many
/// others it lists.
pub proof fn running_is_a_number_above_zero(reply: SignReply)
    ensures
        reply.running() <==> lists_a_process(reply),
{
    if let SignReply::Players(pids) = reply {
        the_player_is_the_first_above_zero(pids);
    }
}

/// The name of the entitlement stands somewhere, with anything before and after it.
pub open spec fn holds_the_name(all: Seq<u8>) -> bool {
    exists|a: Seq<u8>, b: Seq<u8>|
        all == #[trigger] (a + "com.apple.security.get-task-allow".spec_bytes() + b)
}

/// The player counts as signed exactly where the name of the entitlement stands somewhere in the
/// output, whatever is before and after it, and whether or not the command succeeded.
pub proof fn entitled_is_to_hold_the_name(success: bool, stdout: Seq<u8>, stderr: Seq<u8>)
    ensures
        (SignReply::Output { success, stdout, stderr }).entitled() <==> holds_the_name(
            stdout + stderr,
        ),
{
    bytes::what_occurs_stands_between(
        stdout + stderr,
        "com.apple.security.get-task-allow".spec_bytes(),
    );
}

/// What is no output of a command tells of no signature.
pub proof fn without_output_nothing_is_signed(reply: SignReply)
    ensures
        !(reply is Output) ==> !reply.entitled(),
{
}

/// Question `i` of those asked is in order: it comes after the one that it follows, and that one
/// was answered so that this one is due. The answer to a question depends on all that was asked
/// up to it.
pub open spec fn in_order(
    replies: spec_fn(Seq<SignQuery>) -> SignReply,
    asked: Seq<SignQuery>,
    i: int,
) -> bool {
    let before = replies(asked.take(i));
    match asked[i] {
        SignQuery::Quit => i == 0,
        SignQuery::Players => {
            &&& i >= 1
            &&& asked[i - 1] == SignQuery::Quit || asked[i - 1] == SignQuery::Pause || (asked[i - 1]
                == SignQuery::Players && !lists_a_process(before))
        },
        SignQuery::Pause => i >= 1 && asked[i - 1] == SignQuery::Players && lists_a_process(before),
        SignQuery::WriteEntitlements => {
            &&& i >= 2
            &&& asked[i - 1] == SignQuery::Players
            &&& !lists_a_process(before)
            &&& asked[i - 2] == SignQuery::Players || pauses(asked.take(i)) == 20
        },
        SignQuery::Sign => i >= 1 && asked[i - 1] == SignQuery::WriteEntitlements && before
            == SignReply::Done,
        SignQuery::RemoveEntitlements => i >= 1 && asked[i - 1] == SignQuery::Sign
            && before is Output,
        SignQuery::Entitlements => {
            &&& i >= 2
            &&& asked[i - 1] == SignQuery::RemoveEntitlements
            &&& asked[i - 2] == SignQuery::Sign
            &&& replies(asked.take(i - 1)) matches SignReply::Output { success, .. } && success
        },
    }
}

/// All that was asked is in order.
pub open spec fn all_in_order(
    replies: spec_fn(Seq<SignQuery>) -> SignReply,
    asked: Seq<SignQuery>,
) -> bool {
    forall|i: int| 0 <= i < asked.len() ==> #[trigger] in_order(replies, asked, i)
}

/// The reason for a failure is told, and no reason for what is no answer at all.
pub open spec fn fails_with(reply: SignReply, result: Result<(), Seq<char>>) -> bool {
    match reply {
        SignReply::Failed(reason) => result == Err::<(), Seq<char>>(reason),
        _ => result == Err::<(), Seq<char>>(Seq::empty()),
    }
}

/// What signing comes to, by the last question and its answer.
pub open spec fn ends_as_told(
    replies: spec_fn(Seq<SignQuery>) -> SignReply,
    asked: Seq<SignQuery>,
    result: Result<(), Seq<char>>,
) -> bool {
    let n = asked.len() as int;
    let reply = replies(asked);
    match asked.last() {
        SignQuery::Players => {
            &&& lists_a_process(reply)
            &&& asked[n - 2] == SignQuery::Players || pauses(asked) == 20
            &&& result == Err::<(), Seq<char>>("Roblox did not quit"@)
        },
        SignQuery::WriteEntitlements => reply != SignReply::Done && fails_with(reply, result),
        SignQuery::Sign => !(reply is Output) && fails_with(reply, result),
        SignQuery::RemoveEntitlements => replies(asked.take(n - 1)) matches SignReply::Output {
            success,
            stdout,
            stderr,
        } && !success && result == Err::<(), Seq<char>>(text::trimmed(lossy(stderr))),
        SignQuery::Entitlements => replies(asked.take(n - 2)) matches SignReply::Output {
            success,
            stdout,
            stderr,
        } && result == if reply.entitled() {
            Ok::<(), Seq<char>>(())
        } else {
            Err(text::trimmed(lossy(stderr)))
        },
        _ => false,
    }
}

proof fn lemma_order_push(
    replies: spec_fn(Seq<SignQuery>) -> SignReply,
    asked: Seq<SignQuery>,
    query: SignQuery,
)
    requires
        all_in_order(replies, asked),
        in_order(replies, asked.push(query), asked.len() as int),
    ensures
        all_in_order(replies, asked.push(query)),
{
    let all = asked.push(query);
    assert forall|i: int| 0 <= i < all.len() implies #[trigger] in_order(replies, all, i) by {
        if i < asked.len() {
            assert(in_order(replies, asked, i));
            assert(all.take(i) =~= asked.take(i));
            if i >= 1 {
                assert(all.take(i - 1) =~= asked.take(i - 1));
            }
        }
    }
}

proof fn lemma_last_look_order(
    replies: spec_fn(Seq<SignQuery>) -> SignReply,
    asked: Seq<SignQuery>,
)
    requires
        all_in_order(replies, asked),
        asked.len() > 0,
        ((asked.last() == SignQuery::Quit || asked.last() == SignQuery::Pause) && pauses(asked)
            == 20) || (asked.last() == SignQuery::Players && !lists_a_process(replies(asked))),
    ensures
        ({
            let (all, result) = last_look().play(remembering(replies), asked);
            all_in_order(replies, all) && ends_as_told(replies, all, result)
        }),
{
    reveal_with_fuel(Script::play, 7);
    let a1 = asked.push(SignQuery::Players);
    let a2 = a1.push(SignQuery::WriteEntitlements);
    let a3 = a2.push(SignQuery::Sign);
    let a4 = a3.push(SignQuery::RemoveEntitlements);
    let a5 = a4.push(SignQuery::Entitlements);
    let n = asked.len() as int;
    assert(a1.take(n) =~= asked);
    assert(a2.take(n + 1) =~= a1);
    assert(a3.take(n + 2) =~= a2);
    assert(a4.take(n + 3) =~= a3);
    assert(a5.take(n + 4) =~= a4);
    assert(a5.take(n + 3) =~= a3);
    running_is_a_number_above_zero(replies(a1));
    lemma_pauses(asked, SignQuery::Players);
    lemma_order_push(replies, asked, SignQuery::Players);
    if !replies(a1).running() {
        lemma_order_push(replies, a1, SignQuery::WriteEntitlements);
        if replies(a2) == SignReply::Done {
            lemma_order_push(replies, a2, SignQuery::Sign);
            if let SignReply::Output { success, stdout, stderr } = replies(a3) {
                lemma_order_push(replies, a3, SignQuery::RemoveEntitlements);
                if success {
                    lemma_order_push(replies, a4, SignQuery::Entitlements);
                }
            }
        }
    }
}

proof fn lemma_waiting_order(
    replies: spec_fn(Seq<SignQuery>) -> SignReply,
    asked: Seq<SignQuery>,
    left: nat,
)
    requires
        all_in_order(replies, asked),
        asked.len() > 0,
        asked.last() == SignQuery::Quit || asked.last() == SignQuery::Pause,
        pauses(asked) + left == 20,
    ensures
        ({
            let (all, result) = waiting(left).play(remembering(replies), asked);
            all_in_order(replies, all) && ends_as_told(replies, all, result)
        }),
    decreases left,
{
    let world = remembering(replies);
    if left == 0 {
        lemma_last_look_order(replies, asked);
    } else {
        let looked = asked.push(SignQuery::Players);
        let waited = looked.push(SignQuery::Pause);
        let n = asked.len() as int;
        assert(looked.take(n) =~= asked);
        assert(waited.take(n + 1) =~= looked);
        running_is_a_number_above_zero(replies(looked));
        lemma_pauses(asked, SignQuery::Players);
        lemma_pauses(looked, SignQuery::Pause);
        lemma_order_push(replies, asked, SignQuery::Players);
        if replies(looked).running() {
            lemma_order_push(replies, looked, SignQuery::Pause);
            let p = paused((left - 1) as nat);
            assert(waiting(left).play(world, asked) == p.play(world, looked));
            assert(p.play(world, looked) == waiting((left - 1) as nat).play(world, waited));
            lemma_waiting_order(replies, waited, (left - 1) as nat);
        } else {
            assert(waiting(left).play(world, asked) == last_look().play(world, looked));
            lemma_last_look_order(replies, looked);
        }
    }
}

/// Whatever the answers are, signing asks everything in order, and ends as the last answer says.
/// So nothing is written or signed unless the look just before found no process of the player,
/// and the one before that as well, unless it was waited twenty times. The signature is looked at
/// only after the command succeeded, and it is waited only while the player runs.
pub proof fn signing_goes_step_by_step(replies: spec_fn(Seq<SignQuery>) -> SignReply)
    ensures
        ({
            let (asked, result) = resigning().play(remembering(replies), Seq::empty());
            &&& all_in_order(replies, asked)
            &&& ends_as_told(replies, asked, result)
            &&& asked[0] == SignQuery::Quit
            &&& pauses(asked) <= 20
        }),
{
    let none = Seq::<SignQuery>::empty();
    let asked = none.push(SignQuery::Quit);
    lemma_order_push(replies, none, SignQuery::Quit);
    lemma_pauses(none, SignQuery::Quit);
    lemma_waiting_order(replies, asked, ATTEMPTS as nat);
    signing_waits_and_checks(replies);
    assert(resigning().play(remembering(replies), none) == waiting(ATTEMPTS as nat).play(
        remembering(replies),
        asked,
    ));
    let (all, result) = resigning().play(remembering(replies), none);
    lemma_waiting_keeps(replies, asked, ATTEMPTS as nat);
}

/// What was asked before stays asked.
proof fn lemma_waiting_keeps(
    replies: spec_fn(Seq<SignQuery>) -> SignReply,
    asked: Seq<SignQuery>,
    left: nat,
)
    requires
        asked.len() > 0,
    ensures
        ({
            let all = waiting(left).play(remembering(replies), asked).0;
            all.len() > 0 && all[0] == asked[0]
        }),
    decreases left,
{
    let world = remembering(replies);
    let looked = asked.push(SignQuery::Players);
    assert forall|h: Seq<SignQuery>| h.len() > 0 implies {
        let all = #[trigger] last_look().play(world, h).0;
        all.len() > 0 && all[0] == h[0]
    } by {
        reveal_with_fuel(Script::play, 7);
    }
    if left > 0 {
        let waited = looked.push(SignQuery::Pause);
        lemma_waiting_keeps(replies, waited, (left - 1) as nat);
        if replies(looked).running() {
            let p = paused((left - 1) as nat);
            assert(waiting(left).play(world, asked) == p.play(world, looked));
            assert(p.play(world, looked) == waiting((left - 1) as nat).play(world, waited));
        } else {
            assert(waiting(left).play(world, asked) == last_look().play(world, looked));
        }
    }
}

proof fn lemma_waiting_in_vain(
    replies: spec_fn(Seq<SignQuery>) -> SignReply,
    asked: Seq<SignQuery>,
    left: nat,
)
    requires
        forall|h: Seq<SignQuery>|
            h.len() > 0 && h.last() == SignQuery::Players ==> lists_a_process(
                #[trigger] replies(h),
            ),
    ensures
        ({
            let (all, result) = waiting(left).play(remembering(replies), asked);
            &&& result == Err::<(), Seq<char>>("Roblox did not quit"@)
            &&& pauses(all) == pauses(asked) + left
            &&& all.len() == asked.len() + 2 * left + 1
        }),
    decreases left,
{
    let world = remembering(replies);
    let looked = asked.push(SignQuery::Players);
    assert(looked.last() == SignQuery::Players);
    assert(lists_a_process(replies(looked)));
    running_is_a_number_above_zero(replies(looked));
    lemma_pauses(asked, SignQuery::Players);
    if left == 0 {
        reveal_with_fuel(Script::play, 2);
    } else {
        let waited = looked.push(SignQuery::Pause);
        lemma_pauses(looked, SignQuery::Pause);
        lemma_waiting_in_vain(replies, waited, (left - 1) as nat);
        let p = paused((left - 1) as nat);
        assert(waiting(left).play(world, asked) == p.play(world, looked));
        assert(p.play(world, looked) == waiting((left - 1) as nat).play(world, waited));
    }
}

/// A player that never quits is waited for twenty times, and then told of. Nothing is written.
pub proof fn a_player_that_stays_is_not_signed(replies: spec_fn(Seq<SignQuery>) -> SignReply)
    requires
        forall|h: Seq<SignQuery>|
            h.len() > 0 && h.last() == SignQuery::Players ==> lists_a_process(
                #[trigger] replies(h),
            ),
    ensures
        ({
            let (asked, result) = resigning().play(remembering(replies), Seq::empty());
            &&& result == Err::<(), Seq<char>>("Roblox did not quit"@)
            &&& pauses(asked) == 20
            &&& asked.len() == 42
        }),
{
    let none = Seq::<SignQuery>::empty();
    let asked = none.push(SignQuery::Quit);
    lemma_pauses(none, SignQuery::Quit);
    lemma_waiting_in_vain(replies, asked, ATTEMPTS as nat);
    assert(resigning().play(remembering(replies), none) == waiting(ATTEMPTS as nat).play(
        remembering(replies),
        asked,
    ));
}

/// In a world that does not change, signing succeeds exactly where no process of the player is
/// listed, the file can be written, the command succeeds, and the entitlement is there
/// afterwards.
pub proof fn signing_succeeds_exactly_where_it_can(world: spec_fn(SignQuery) -> SignReply)
    ensures
        resigning().run(world) is Ok <==> !lists_a_process(world(SignQuery::Players)) && world(
            SignQuery::WriteEntitlements,
        ) == SignReply::Done && (world(SignQuery::Sign) matches SignReply::Output {
            success,
            ..
        } && success) && world(SignQuery::Entitlements).entitled(),
{
    signing_succeeds_where_it_can(world);
    running_is_a_number_above_zero(world(SignQuery::Players));
}

/// Whatever the answers are, the player is never signed while it runs: the command is run only
/// right after the file was written, and that only right after a look at the processes that listed
/// no number above zero.
pub proof fn a_running_player_is_never_signed(
    replies: spec_fn(Seq<SignQuery>) -> SignReply,
    i: int,
)
    ensures
        ({
            let asked = resigning().play(remembering(replies), Seq::empty()).0;
            0 <= i < asked.len() && asked[i] == SignQuery::Sign ==> {
                &&& i >= 3
                &&& asked[i - 1] == SignQuery::WriteEntitlements
                &&& asked[i - 2] == SignQuery::Players
                &&& !lists_a_process(replies(asked.take(i - 1)))
            }
        }),
{
    let asked = resigning().play(remembering(replies), Seq::empty()).0;
    signing_goes_step_by_step(replies);
    if 0 <= i < asked.len() && asked[i] == SignQuery::Sign {
        assert(in_order(replies, asked, i));
        assert(in_order(replies, asked, i - 1));
    }
}

} // verus!
