//! Little-endian words and plain searches in byte strings.
use vstd::prelude::*;

verus! {

/// The 32-bit word at `at`, least significant byte first.
pub open spec fn le_u32(s: Seq<u8>, at: int) -> u32 {
    (s[at] + 0x100 * s[at + 1] + 0x1_0000 * s[at + 2] + 0x100_0000 * s[at + 3]) as u32
}

/// The 64-bit word at `at`, least significant byte first.
pub open spec fn le_u64(s: Seq<u8>, at: int) -> u64 {
    (le_u32(s, at) + 0x1_0000_0000 * le_u32(s, at + 4)) as u64
}

/// The signed 32-bit word at `at`, least significant byte first, in two's complement.
pub open spec fn le_i32(s: Seq<u8>, at: int) -> i32 {
    let word = le_u32(s, at);
    if word < 0x8000_0000 {
        word as i32
    } else {
        (word - 0x1_0000_0000) as i32
    }
}

/// The eight bytes of a word, least significant byte first.
pub open spec fn le_bytes(word: u64) -> Seq<u8> {
    Seq::new(8, |i: int| ((word as int / pow256(i)) % 256) as u8)
}

/// `256` to the power of a byte's place in a word.
pub open spec fn pow256(i: int) -> int {
    if i == 0 {
        1
    } else if i == 1 {
        0x100
    } else if i == 2 {
        0x1_0000
    } else if i == 3 {
        0x100_0000
    } else if i == 4 {
        0x1_0000_0000
    } else if i == 5 {
        0x100_0000_0000
    } else if i == 6 {
        0x1_0000_0000_0000
    } else {
        0x100_0000_0000_0000
    }
}

/// `needle` stands somewhere in `hay`.
pub open spec fn occurs(hay: Seq<u8>, needle: Seq<u8>) -> bool {
    exists|i: int| #[trigger] occurs_at(hay, needle, i)
}

/// `needle` stands in `hay` at `i`.
pub open spec fn occurs_at(hay: Seq<u8>, needle: Seq<u8>, i: int) -> bool {
    0 <= i && i + needle.len() <= hay.len() && hay.subrange(i, i + needle.len()) == needle
}

/// `s` ends with `suffix`.
pub open spec fn finishes_with(s: Seq<u8>, suffix: Seq<u8>) -> bool {
    occurs_at(s, suffix, s.len() - suffix.len())
}

/// Where the first zero byte of `s` stands.
pub open spec fn first_zero(s: Seq<u8>) -> Option<int> {
    if exists|i: int| 0 <= i < s.len() && s[i] == 0 {
        Some(
            choose|i: int|
                0 <= i < s.len() && s[i] == 0 && forall|j: int| 0 <= j < i ==> s[j] != 0,
        )
    } else {
        None
    }
}

/// The view of an optional byte string.
pub open spec fn seen(s: Option<Vec<u8>>) -> Option<Seq<u8>> {
    match s {
        Some(s) => Some(s@),
        None => None,
    }
}

/// The 32-bit word at `at`.
pub fn read_u32(s: &[u8], at: usize) -> (word: u32)
    requires
        at + 4 <= s@.len(),
    ensures
        word == le_u32(s@, at as int),
{
    (s[at] as u32) + 0x100 * (s[at + 1] as u32) + 0x1_0000 * (s[at + 2] as u32) + 0x100_0000 * (
    s[at + 3] as u32)
}

/// The 64-bit word at `at`.
pub fn read_u64(s: &[u8], at: usize) -> (word: u64)
    requires
        at + 8 <= s@.len(),
    ensures
        word == le_u64(s@, at as int),
{
    assert(at + 8 <= s.len());
    (read_u32(s, at) as u64) + 0x1_0000_0000 * (read_u32(s, at + 4) as u64)
}

/// The signed 32-bit word at `at`.
pub fn read_i32(s: &[u8], at: usize) -> (word: i32)
    requires
        at + 4 <= s@.len(),
    ensures
        word == le_i32(s@, at as int),
{
    let word: u32 = read_u32(s, at);
    if word < 0x8000_0000 {
        word as i32
    } else {
        ((word as i64) - 0x1_0000_0000) as i32
    }
}

/// A copy of the bytes from `from` up to `to`.
pub fn copy(s: &[u8], from: usize, to: usize) -> (part: Vec<u8>)
    requires
        from <= to <= s@.len(),
    ensures
        part@ == s@.subrange(from as int, to as int),
{
    let mut part: Vec<u8> = Vec::new();
    let mut i: usize = from;
    while i < to
        invariant
            from <= i <= to <= s@.len(),
            part@ == s@.subrange(from as int, i as int),
        decreases to - i,
    {
        part.push(s[i]);
        i += 1;
        assert(part@ =~= s@.subrange(from as int, i as int));
    }
    part
}

/// Whether `needle` stands in `hay` at `i`.
pub fn is_at(hay: &[u8], needle: &[u8], i: usize) -> (yes: bool)
    ensures
        yes == occurs_at(hay@, needle@, i as int),
{
    if needle.len() > hay.len() || i > hay.len() - needle.len() {
        return false;
    }
    let mut j: usize = 0;
    while j < needle.len()
        invariant
            j <= needle@.len(),
            i + needle@.len() <= hay.len(),
            forall|k: int| 0 <= k < j ==> hay@[i + k] == needle@[k],
        decreases needle@.len() - j,
    {
        if hay[i + j] != needle[j] {
            assert(hay@.subrange(i as int, i + needle@.len())[j as int] != needle@[j as int]);
            return false;
        }
        j += 1;
    }
    assert(hay@.subrange(i as int, i + needle@.len()) =~= needle@);
    true
}

/// Whether `needle` stands somewhere in `hay`.
pub fn contains(hay: &[u8], needle: &[u8]) -> (yes: bool)
    ensures
        yes == occurs(hay@, needle@),
{
    if needle.len() > hay.len() {
        return false;
    }
    let last: usize = hay.len() - needle.len();
    let mut i: usize = 0;
    while i <= last
        invariant
            i <= last + 1,
            last == hay@.len() - needle@.len(),
            forall|k: int| 0 <= k < i ==> !#[trigger] occurs_at(hay@, needle@, k),
        decreases last + 1 - i,
    {
        if is_at(hay, needle, i) {
            return true;
        }
        if i == last {
            return false;
        }
        i += 1;
    }
    false
}

/// Whether `s` ends with `suffix`.
pub fn ends_with(s: &[u8], suffix: &[u8]) -> (yes: bool)
    ensures
        yes == finishes_with(s@, suffix@),
{
    if suffix.len() > s.len() {
        false
    } else {
        is_at(s, suffix, s.len() - suffix.len())
    }
}

/// The place of the first zero byte.
pub fn find_zero(s: &[u8]) -> (place: Option<usize>)
    ensures
        match place {
            Some(i) => first_zero(s@) == Some(i as int) && i < s@.len(),
            None => first_zero(s@) is None,
        },
        match place {
            Some(i) => s@[i as int] == 0 && forall|j: int| 0 <= j < i ==> s@[j] != 0,
            None => forall|j: int| 0 <= j < s@.len() ==> s@[j] != 0,
        },
{
    let mut i: usize = 0;
    while i < s.len()
        invariant
            i <= s@.len(),
            forall|j: int| 0 <= j < i ==> s@[j] != 0,
        decreases s@.len() - i,
    {
        if s[i] == 0 {
            proof {
                lemma_first_zero(s@, i as int);
            }
            return Some(i);
        }
        i += 1;
    }
    None
}

/// A zero byte with none before it is the first one.
pub proof fn lemma_first_zero(s: Seq<u8>, i: int)
    requires
        0 <= i < s.len(),
        s[i] == 0,
        forall|j: int| 0 <= j < i ==> s[j] != 0,
    ensures
        first_zero(s) == Some(i),
{
    let c = choose|c: int|
        0 <= c < s.len() && s[c] == 0 && forall|j: int| 0 <= j < c ==> s[j] != 0;
    assert(s[c] == 0);
    assert(c == i) by {
        if c < i {
            assert(s[c] != 0);
        }
        if i < c {
            assert(s[i] != 0);
        }
    }
}

/// Where there is a zero byte, the first one is a zero byte with none before it.
pub proof fn lemma_zero_found(s: Seq<u8>)
    requires
        first_zero(s) is Some,
    ensures
        0 <= first_zero(s)->0 < s.len(),
        s[first_zero(s)->0] == 0,
        forall|j: int| 0 <= j < first_zero(s)->0 ==> s[j] != 0,
{
    let i = choose|i: int| 0 <= i < s.len() && s[i] == 0;
    lemma_earliest_zero(s, i);
}

proof fn lemma_earliest_zero(s: Seq<u8>, i: int)
    requires
        0 <= i < s.len(),
        s[i] == 0,
    ensures
        exists|c: int| 0 <= c < s.len() && s[c] == 0 && forall|j: int| 0 <= j < c ==> s[j] != 0,
    decreases i,
{
    if exists|j: int| 0 <= j < i && s[j] == 0 {
        let j = choose|j: int| 0 <= j < i && s[j] == 0;
        lemma_earliest_zero(s, j);
    }
}

/// A word is what its bytes say.
pub proof fn word_from_its_bytes(word: u64)
    ensures
        le_bytes(word).len() == 8,
        le_u64(le_bytes(word), 0) == word,
{
    let b = le_bytes(word);
    let w0 = word as int;
    let w1 = w0 / 256;
    let w2 = w1 / 256;
    let w3 = w2 / 256;
    let w4 = w3 / 256;
    let w5 = w4 / 256;
    let w6 = w5 / 256;
    let w7 = w6 / 256;
    assert(w0 / 0x1_0000 == w2);
    assert(w0 / 0x100_0000 == w3);
    assert(w0 / 0x1_0000_0000 == w4);
    assert(w0 / 0x100_0000_0000 == w5);
    assert(w0 / 0x1_0000_0000_0000 == w6);
    assert(w0 / 0x100_0000_0000_0000 == w7);
    assert(w7 % 256 == w7);
    assert(b[0] == w0 % 256 && b[1] == w1 % 256 && b[2] == w2 % 256 && b[3] == w3 % 256);
    assert(b[4] == w4 % 256 && b[5] == w5 % 256 && b[6] == w6 % 256 && b[7] == w7 % 256);
    assert(le_u32(b, 4) == w4);
    assert(le_u32(b, 0) == w0 - 0x1_0000_0000 * w4);
}

proof fn lemma_lowest(b: u8, rest: int)
    ensures
        (b + 256 * rest) % 256 == b,
        (b + 256 * rest) / 256 == rest,
{
}

/// Eight bytes are those of the word that they are.
pub proof fn bytes_from_their_word(s: Seq<u8>)
    requires
        s.len() == 8,
    ensures
        le_bytes(le_u64(s, 0)) == s,
{
    let w7 = s[7] as int;
    let w6 = s[6] + 256 * w7;
    let w5 = s[5] + 256 * w6;
    let w4 = s[4] + 256 * w5;
    let w3 = s[3] + 256 * w4;
    let w2 = s[2] + 256 * w3;
    let w1 = s[1] + 256 * w2;
    let w0 = s[0] + 256 * w1;
    assert(w0 == le_u64(s, 0)) by {
        let low = le_u32(s, 0) as int;
        let high = le_u32(s, 4) as int;
        assert(low == s[0] + 0x100 * s[1] + 0x1_0000 * s[2] + 0x100_0000 * s[3]);
        assert(high == s[4] + 0x100 * s[5] + 0x1_0000 * s[6] + 0x100_0000 * s[7]);
    }
    lemma_lowest(s[0], w1);
    lemma_lowest(s[1], w2);
    lemma_lowest(s[2], w3);
    lemma_lowest(s[3], w4);
    lemma_lowest(s[4], w5);
    lemma_lowest(s[5], w6);
    lemma_lowest(s[6], w7);
    lemma_lowest(s[7], 0);
    lemma_divisions(w0);
    assert(le_bytes(le_u64(s, 0)) =~= s);
}

/// Division by a power of 256, byte by byte.
proof fn lemma_divisions(w: int)
    requires
        0 <= w <= u64::MAX,
    ensures
        w / 0x1_0000 == w / 256 / 256,
        w / 0x100_0000 == w / 256 / 256 / 256,
        w / 0x1_0000_0000 == w / 256 / 256 / 256 / 256,
        w / 0x100_0000_0000 == w / 256 / 256 / 256 / 256 / 256,
        w / 0x1_0000_0000_0000 == w / 256 / 256 / 256 / 256 / 256 / 256,
        w / 0x100_0000_0000_0000 == w / 256 / 256 / 256 / 256 / 256 / 256 / 256,
{
}

proof fn lemma_u32_bits(b0: u8, b1: u8, b2: u8, b3: u8, w: u32)
    requires
        w == b0 + 0x100 * b1 + 0x1_0000 * b2 + 0x100_0000 * b3,
    ensures
        w & 0xff == b0,
        (w >> 8) & 0xff == b1,
        (w >> 16) & 0xff == b2,
        w >> 24 == b3,
{
    assert(w & 0xff == b0 && (w >> 8) & 0xff == b1 && (w >> 16) & 0xff == b2 && w >> 24 == b3)
        by (bit_vector)
        requires
            w == b0 + 0x100 * b1 + 0x1_0000 * b2 + 0x100_0000 * b3,
    ;
}

/// The bytes of a word are its bits, eight at a time, the lowest ones first; a signed word has
/// the bits of the unsigned one.
pub proof fn words_are_little_endian(s: Seq<u8>, at: int)
    ensures
        le_u32(s, at) & 0xff == s[at],
        (le_u32(s, at) >> 8) & 0xff == s[at + 1],
        (le_u32(s, at) >> 16) & 0xff == s[at + 2],
        le_u32(s, at) >> 24 == s[at + 3],
        le_u64(s, at) & 0xffff_ffff == le_u32(s, at),
        le_u64(s, at) >> 32 == le_u32(s, at + 4),
        le_i32(s, at) as u32 == le_u32(s, at),
{
    lemma_u32_bits(s[at], s[at + 1], s[at + 2], s[at + 3], le_u32(s, at));
    let low = le_u32(s, at);
    let high = le_u32(s, at + 4);
    let word = le_u64(s, at);
    assert(word & 0xffff_ffff == low && word >> 32 == high) by (bit_vector)
        requires
            word == low + 0x1_0000_0000 * high,
    ;
    let signed = le_i32(s, at);
    if low < 0x8000_0000 {
        assert(signed as u32 == low) by (bit_vector)
            requires
                signed == low,
        ;
    } else {
        assert(signed as u32 == low) by (bit_vector)
            requires
                signed == low - 0x1_0000_0000,
        ;
    }
}

/// A byte string stands in another exactly where that is it with something before and after.
pub proof fn what_occurs_stands_between(hay: Seq<u8>, needle: Seq<u8>)
    ensures
        occurs(hay, needle) <==> exists|a: Seq<u8>, b: Seq<u8>| hay == #[trigger] (a + needle + b),
{
    if occurs(hay, needle) {
        let i = choose|i: int| #[trigger] occurs_at(hay, needle, i);
        let a = hay.take(i);
        let b = hay.skip(i + needle.len());
        assert(hay =~= a + needle + b) by {
            assert forall|k: int| 0 <= k < hay.len() implies hay[k] == (a + needle + b)[k] by {
                if i <= k < i + needle.len() {
                    assert(hay.subrange(i, i + needle.len())[k - i] == needle[k - i]);
                }
            }
        }
    }
    if exists|a: Seq<u8>, b: Seq<u8>| hay == #[trigger] (a + needle + b) {
        let (a, b) = choose|a: Seq<u8>, b: Seq<u8>| hay == #[trigger] (a + needle + b);
        assert(hay.subrange(a.len() as int, (a.len() + needle.len()) as int) =~= needle);
        assert(occurs_at(hay, needle, a.len() as int));
    }
}

/// A byte string ends with another exactly where it is that with something before.
pub proof fn what_finishes_stands_last(s: Seq<u8>, suffix: Seq<u8>)
    ensures
        finishes_with(s, suffix) <==> exists|a: Seq<u8>| s == #[trigger] (a + suffix),
{
    if finishes_with(s, suffix) {
        let a = s.take(s.len() - suffix.len());
        assert(s =~= a + suffix) by {
            assert forall|k: int| 0 <= k < s.len() implies s[k] == (a + suffix)[k] by {
                let i = s.len() - suffix.len();
                if i <= k {
                    assert(s.subrange(i, i + suffix.len())[k - i] == suffix[k - i]);
                }
            }
        }
    }
    if exists|a: Seq<u8>| s == #[trigger] (a + suffix) {
        let a = choose|a: Seq<u8>| s == #[trigger] (a + suffix);
        assert(s.subrange(a.len() as int, (a.len() + suffix.len()) as int) =~= suffix);
    }
}

/// How many of the first `n` indices have a property.
pub open spec fn tally(n: nat, p: spec_fn(int) -> bool) -> nat
    decreases n,
{
    if n == 0 {
        0
    } else if p(n - 1) {
        tally((n - 1) as nat, p) + 1
    } else {
        tally((n - 1) as nat, p)
    }
}

/// Properties that agree on the first `n` indices hold of as many of them.
pub proof fn lemma_tally(n: nat, p: spec_fn(int) -> bool, q: spec_fn(int) -> bool)
    requires
        forall|i: int| 0 <= i < n ==> #[trigger] p(i) == q(i),
    ensures
        tally(n, p) == tally(n, q),
    decreases n,
{
    if n > 0 {
        lemma_tally((n - 1) as nat, p, q);
        assert(p(n - 1) == q(n - 1));
    }
}

/// The sum of a number for each of the first `n` indices.
pub open spec fn total(n: nat, f: spec_fn(int) -> nat) -> nat
    decreases n,
{
    if n == 0 {
        0
    } else {
        total((n - 1) as nat, f) + f(n - 1)
    }
}

/// Numbers that agree on the first `n` indices but for index `i`, where the second is zero.
pub proof fn lemma_total(n: nat, f: spec_fn(int) -> nat, g: spec_fn(int) -> nat, i: int)
    requires
        0 <= i,
        g(i) == 0,
        forall|k: int| 0 <= k < n && k != i ==> #[trigger] f(k) == g(k),
    ensures
        total(n, f) == total(n, g) + if i < n {
            f(i)
        } else {
            0
        },
    decreases n,
{
    if n > 0 {
        lemma_total((n - 1) as nat, f, g, i);
        if n - 1 != i {
            assert(f(n - 1) == g(n - 1));
        }
    }
}

/// The sum is zero where all numbers are.
pub proof fn lemma_total_zero(n: nat, f: spec_fn(int) -> nat)
    requires
        forall|k: int| 0 <= k < n ==> #[trigger] f(k) == 0,
    ensures
        total(n, f) == 0,
    decreases n,
{
    if n > 0 {
        lemma_total_zero((n - 1) as nat, f);
        assert(f(n - 1) == 0);
    }
}

} // verus!
