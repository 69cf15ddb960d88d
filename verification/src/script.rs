//! Scripts: what a search asks of the outside, answer by answer, and what it ends with.
//!
//! The searches of this crate cannot touch another process themselves. Each of them is a value
//! that says what it wants to know next and is then handed the answer. A [`Script`] is the
//! mathematical picture of such a value: a tree that branches on every possible answer. It is
//! well-founded, so a search that is described by a script comes to its end whatever it is told.
use vstd::prelude::*;

verus! {

/// Either the end, with its result, or a question and how to go on after each answer.
#[verifier::reject_recursive_types(A)]
pub enum Script<Q, A, R> {
    End(R),
    Ask(Q, spec_fn(A) -> Script<Q, A, R>),
}

impl<Q, A, R> Script<Q, A, R> {
    /// This script, followed by the one that `f` gives for its result.
    pub open spec fn chain<T>(self, f: spec_fn(R) -> Script<Q, A, T>) -> Script<Q, A, T>
        decreases self,
    {
        match self {
            Script::End(r) => f(r),
            Script::Ask(q, k) => Script::Ask(q, |a: A| k(a).chain(f)),
        }
    }

    /// What is left of the script once its question is answered with `a`.
    pub open spec fn answered(self, a: A) -> Script<Q, A, R> {
        match self {
            Script::End(r) => self,
            Script::Ask(q, k) => k(a),
        }
    }

    /// The question that the script asks next, if it is not at its end.
    pub open spec fn question(self) -> Option<Q> {
        match self {
            Script::End(r) => None,
            Script::Ask(q, k) => Some(q),
        }
    }

    /// The result in a world that answers each question by `world`, and the same question the
    /// same way every time.
    pub open spec fn run(self, world: spec_fn(Q) -> A) -> R
        decreases self,
    {
        match self {
            Script::End(r) => r,
            Script::Ask(q, k) => k(world(q)).run(world),
        }
    }

    /// What becomes of a world that questions can change, and the result in it. The world in
    /// state `s` answers a question by `world`, which also gives the state that it is left in.
    pub open spec fn play<S>(self, world: spec_fn(S, Q) -> (S, A), s: S) -> (S, R)
        decreases self,
    {
        match self {
            Script::End(r) => (s, r),
            Script::Ask(q, k) => k(world(s, q).1).play(world, world(s, q).0),
        }
    }
}

/// Whatever the answers are, the script ends with a result that has the property.
pub open spec fn always<Q, A, R>(p: Script<Q, A, R>, good: spec_fn(R) -> bool) -> bool
    decreases p,
{
    match p {
        Script::End(r) => good(r),
        Script::Ask(q, k) => forall|a: A| always(#[trigger] k(a), good),
    }
}

/// Whatever the answers are, the script asks only questions that are allowed.
pub open spec fn only_asks<Q, A, R>(p: Script<Q, A, R>, allowed: spec_fn(Q) -> bool) -> bool
    decreases p,
{
    match p {
        Script::End(r) => true,
        Script::Ask(q, k) => allowed(q) && forall|a: A| only_asks(#[trigger] k(a), allowed),
    }
}

/// How a search over positions goes on after the visit to position `i`.
pub open spec fn after<Q, A, S, T>(
    n: nat,
    visit: spec_fn(nat, S) -> Script<Q, A, (S, Option<T>)>,
    i: nat,
) -> spec_fn((S, Option<T>)) -> Script<Q, A, (S, Option<T>)>
    decreases n - i, 0nat,
{
    |r: (S, Option<T>)|
        if r.1 is Some || i >= n {
            Script::End(r)
        } else {
            search(n, visit, i + 1, r.0)
        }
}

/// Visits the positions from `i` up to `n`, in order, until a visit finds something. What a
/// visit remembers is handed on to the next one.
pub open spec fn search<Q, A, S, T>(
    n: nat,
    visit: spec_fn(nat, S) -> Script<Q, A, (S, Option<T>)>,
    i: nat,
    s: S,
) -> Script<Q, A, (S, Option<T>)>
    decreases n - i, 1nat,
{
    if i >= n {
        Script::End((s, None))
    } else {
        visit(i, s).chain(after(n, visit, i))
    }
}

/// A chained script asks what its first part asks, and the answer goes to that part.
pub proof fn lemma_chain_ask<Q, A, R, T>(
    p: Script<Q, A, R>,
    f: spec_fn(R) -> Script<Q, A, T>,
    a: A,
)
    requires
        p is Ask,
    ensures
        p.chain(f) is Ask,
        p.chain(f).question() == p.question(),
        p.chain(f).answered(a) == p.answered(a).chain(f),
{
}

/// A chained script gives what its second part gives for the result of the first.
pub proof fn lemma_run_chain<Q, A, R, T>(
    p: Script<Q, A, R>,
    f: spec_fn(R) -> Script<Q, A, T>,
    world: spec_fn(Q) -> A,
)
    ensures
        p.chain(f).run(world) == f(p.run(world)).run(world),
    decreases p,
{
    match p {
        Script::End(r) => {},
        Script::Ask(q, k) => {
            lemma_run_chain(k(world(q)), f, world);
        },
    }
}

/// A chained script is played by playing its first part, and the second in the world that the
/// first has left behind.
pub proof fn lemma_play_chain<Q, A, R, T, S>(
    p: Script<Q, A, R>,
    f: spec_fn(R) -> Script<Q, A, T>,
    world: spec_fn(S, Q) -> (S, A),
    s: S,
)
    ensures
        p.chain(f).play(world, s) == f(p.play(world, s).1).play(world, p.play(world, s).0),
    decreases p,
{
    match p {
        Script::End(r) => {},
        Script::Ask(q, k) => {
            lemma_play_chain(k(world(s, q).1), f, world, world(s, q).0);
        },
    }
}

/// The first of the findings at the positions from `i` up to `n`.
pub open spec fn first<T>(n: nat, found: spec_fn(nat) -> Option<T>, i: nat) -> Option<T>
    decreases n - i,
{
    if i >= n {
        None
    } else if found(i) is Some {
        found(i)
    } else {
        first(n, found, i + 1)
    }
}

/// The first finding is found at some position, and nothing is found at those before it.
pub proof fn lemma_first<T>(n: nat, found: spec_fn(nat) -> Option<T>, i: nat)
    ensures
        match first(n, found, i) {
            Some(t) => exists|k: nat|
                #![trigger found(k)]
                i <= k < n && found(k) == Some(t) && forall|j: nat|
                    i <= j < k ==> #[trigger] found(j) is None,
            None => forall|k: nat| i <= k < n ==> #[trigger] found(k) is None,
        },
    decreases n - i,
{
    if i < n && found(i) is None {
        lemma_first(n, found, i + 1);
        if first(n, found, i) is Some {
            let t = first(n, found, i)->0;
            let k = choose|k: nat|
                #![trigger found(k)]
                i + 1 <= k < n && found(k) == Some(t) && forall|j: nat|
                    i + 1 <= j < k ==> #[trigger] found(j) is None;
            assert(found(k) == Some(t));
            assert forall|j: nat| i <= j < k implies #[trigger] found(j) is None by {
                if j > i {
                    assert(i + 1 <= j);
                }
            }
        } else {
            assert forall|k: nat| i <= k < n implies #[trigger] found(k) is None by {
                if k > i {
                    assert(i + 1 <= k);
                }
            }
        }
    } else if i < n {
        assert(found(i) == Some(first(n, found, i)->0));
    }
}

/// Where a visit finds the same whatever is remembered, as long as what is remembered keeps to
/// `inv`, a search finds what is found first.
pub proof fn lemma_run_search<Q, A, S, T>(
    n: nat,
    visit: spec_fn(nat, S) -> Script<Q, A, (S, Option<T>)>,
    i: nat,
    s: S,
    world: spec_fn(Q) -> A,
    inv: spec_fn(S) -> bool,
    found: spec_fn(nat) -> Option<T>,
)
    requires
        inv(s),
        forall|k: nat, s: S|
            #![trigger visit(k, s)]
            i <= k < n && inv(s) ==> {
                let r = visit(k, s).run(world);
                r.1 == found(k) && (r.1 is None ==> inv(r.0))
            },
    ensures
        search(n, visit, i, s).run(world).1 == first(n, found, i),
        first(n, found, i) is None ==> inv(search(n, visit, i, s).run(world).0),
    decreases n - i,
{
    if i < n {
        let r = visit(i, s).run(world);
        lemma_run_chain(visit(i, s), after(n, visit, i), world);
        if r.1 is None {
            lemma_run_search(n, visit, i + 1, r.0, world, inv, found);
        }
    }
}

/// Where the first part always gives something from which the second always gives something
/// good, the whole always gives something good.
pub proof fn lemma_always_chain<Q, A, R, T>(
    p: Script<Q, A, R>,
    f: spec_fn(R) -> Script<Q, A, T>,
    mid: spec_fn(R) -> bool,
    good: spec_fn(T) -> bool,
)
    requires
        always(p, mid),
        forall|r: R| #[trigger] mid(r) ==> always(f(r), good),
    ensures
        always(p.chain(f), good),
    decreases p,
{
    match p {
        Script::End(r) => {
            assert(mid(r));
        },
        Script::Ask(q, k) => {
            assert forall|a: A| always(#[trigger] p.chain(f).answered(a), good) by {
                lemma_chain_ask(p, f, a);
                assert(always(k(a), mid));
                lemma_always_chain(k(a), f, mid, good);
            }
            lemma_always_ask(p.chain(f), good);
        },
    }
}

/// Where a second part always gives something good, the whole does.
pub proof fn lemma_always_after<Q, A, R, T>(
    p: Script<Q, A, R>,
    f: spec_fn(R) -> Script<Q, A, T>,
    good: spec_fn(T) -> bool,
)
    requires
        forall|r: R| always(#[trigger] f(r), good),
    ensures
        always(p.chain(f), good),
{
    let anything = |r: R| true;
    lemma_always_ends(p);
    assert forall|r: R| #[trigger] anything(r) implies always(f(r), good) by {}
    lemma_always_chain(p, f, anything, good);
}

/// Whatever the answers are, a script ends.
pub proof fn lemma_always_ends<Q, A, R>(p: Script<Q, A, R>)
    ensures
        always(p, |r: R| true),
    decreases p,
{
    if let Script::Ask(q, k) = p {
        assert forall|a: A| always(#[trigger] k(a), |r: R| true) by {
            lemma_always_ends(k(a));
        }
    }
}

/// What holds of the results of a script still holds if less is claimed.
pub proof fn lemma_always_weaker<Q, A, R>(
    p: Script<Q, A, R>,
    strong: spec_fn(R) -> bool,
    good: spec_fn(R) -> bool,
)
    requires
        always(p, strong),
        forall|r: R| #[trigger] strong(r) ==> good(r),
    ensures
        always(p, good),
    decreases p,
{
    match p {
        Script::End(r) => {
            assert(strong(r));
        },
        Script::Ask(q, k) => {
            assert forall|a: A| always(#[trigger] k(a), good) by {
                assert(always(k(a), strong));
                lemma_always_weaker(k(a), strong, good);
            }
        },
    }
}

/// What holds after every answer holds of a script that asks.
pub proof fn lemma_always_ask<Q, A, R>(p: Script<Q, A, R>, good: spec_fn(R) -> bool)
    requires
        p is Ask,
        forall|a: A| always(#[trigger] p.answered(a), good),
    ensures
        always(p, good),
{
    if let Script::Ask(q, k) = p {
        assert forall|a: A| always(#[trigger] k(a), good) by {
            assert(p.answered(a) == k(a));
        }
    }
}

/// Where every visit finds something good, if anything, a search does.
pub proof fn lemma_always_search<Q, A, S, T>(
    n: nat,
    visit: spec_fn(nat, S) -> Script<Q, A, (S, Option<T>)>,
    i: nat,
    s: S,
    good: spec_fn((S, Option<T>)) -> bool,
)
    requires
        forall|k: nat, s: S| k < n ==> always(#[trigger] visit(k, s), good),
        forall|s: S| #[trigger] good((s, None)),
    ensures
        always(search(n, visit, i, s), good),
    decreases n - i,
{
    if i < n {
        let f = after(n, visit, i);
        assert forall|r: (S, Option<T>)| #[trigger] good(r) implies always(f(r), good) by {
            if r.1 is None {
                lemma_always_search(n, visit, i + 1, r.0, good);
            }
        }
        lemma_always_chain(visit(i, s), f, good, good);
    }
}

/// A script whose question is allowed, and after every answer all further ones, asks only what
/// is allowed.
pub proof fn lemma_only_ask<Q, A, R>(p: Script<Q, A, R>, allowed: spec_fn(Q) -> bool)
    requires
        p matches Script::Ask(q, k) ==> allowed(q),
        forall|a: A| only_asks(#[trigger] p.answered(a), allowed),
    ensures
        only_asks(p, allowed),
{
    if let Script::Ask(q, k) = p {
        assert forall|a: A| only_asks(#[trigger] k(a), allowed) by {
            assert(p.answered(a) == k(a));
        }
    }
}

/// A chained script asks only what is allowed if both parts do.
pub proof fn lemma_only_chain<Q, A, R, T>(
    p: Script<Q, A, R>,
    f: spec_fn(R) -> Script<Q, A, T>,
    allowed: spec_fn(Q) -> bool,
)
    requires
        only_asks(p, allowed),
        forall|r: R| only_asks(#[trigger] f(r), allowed),
    ensures
        only_asks(p.chain(f), allowed),
    decreases p,
{
    match p {
        Script::End(r) => {
            assert(only_asks(f(r), allowed));
        },
        Script::Ask(q, k) => {
            assert forall|a: A| only_asks(#[trigger] p.chain(f).answered(a), allowed) by {
                lemma_chain_ask(p, f, a);
                assert(only_asks(k(a), allowed));
                lemma_only_chain(k(a), f, allowed);
            }
            lemma_only_ask(p.chain(f), allowed);
        },
    }
}

/// A search asks only what is allowed if its visits do.
pub proof fn lemma_only_search<Q, A, S, T>(
    n: nat,
    visit: spec_fn(nat, S) -> Script<Q, A, (S, Option<T>)>,
    i: nat,
    s: S,
    allowed: spec_fn(Q) -> bool,
)
    requires
        forall|k: nat, s: S| k < n ==> only_asks(#[trigger] visit(k, s), allowed),
    ensures
        only_asks(search(n, visit, i, s), allowed),
    decreases n - i,
{
    if i < n {
        let f = after(n, visit, i);
        assert forall|r: (S, Option<T>)| only_asks(#[trigger] f(r), allowed) by {
            if r.1 is None {
                lemma_only_search(n, visit, i + 1, r.0, allowed);
            }
        }
        lemma_only_chain(visit(i, s), f, allowed);
    }
}

/// What the allowed questions leave as it is, a script that asks only them leaves as it is.
pub proof fn lemma_only_play<Q, A, R, S, T>(
    p: Script<Q, A, R>,
    allowed: spec_fn(Q) -> bool,
    world: spec_fn(S, Q) -> (S, A),
    s: S,
    part: spec_fn(S) -> T,
)
    requires
        only_asks(p, allowed),
        forall|s: S, q: Q| allowed(q) ==> part((#[trigger] world(s, q)).0) == part(s),
    ensures
        part(p.play(world, s).0) == part(s),
    decreases p,
{
    if let Script::Ask(q, k) = p {
        let (t, a) = world(s, q);
        assert(only_asks(k(a), allowed));
        lemma_only_play(k(a), allowed, world, t, part);
    }
}

/// Where the world answers the allowed questions by `fixed` as long as it keeps to `inv`, and
/// keeps to it under them, a script that asks only them gives what it gives in the world that
/// does not change.
pub proof fn lemma_play_is_run<Q, A, R, S>(
    p: Script<Q, A, R>,
    allowed: spec_fn(Q) -> bool,
    world: spec_fn(S, Q) -> (S, A),
    s: S,
    inv: spec_fn(S) -> bool,
    fixed: spec_fn(Q) -> A,
)
    requires
        only_asks(p, allowed),
        inv(s),
        forall|s: S, q: Q|
            inv(s) && allowed(q) ==> inv((#[trigger] world(s, q)).0) && world(s, q).1 == fixed(q),
    ensures
        p.play(world, s).1 == p.run(fixed),
        inv(p.play(world, s).0),
    decreases p,
{
    if let Script::Ask(q, k) = p {
        let (t, a) = world(s, q);
        assert(only_asks(k(a), allowed));
        lemma_play_is_run(k(a), allowed, world, t, inv, fixed);
    }
}

} // verus!
