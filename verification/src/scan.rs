//! Scanning primitives: where a component ends, where the port starts, and
//! what number the port's digits spell.

use vstd::prelude::*;

verus! {

pub const COLON: u8 = 0x3a;

pub const SLASH: u8 = 0x2f;

pub const QUESTION: u8 = 0x3f;

pub const HASH: u8 = 0x23;

pub const AT: u8 = 0x40;

/// The bytes at which the scan of a component stops.
#[derive(Clone, Copy, Debug)]
pub enum Stop {
    /// `:`, which ends the scheme.
    Colon,
    /// `@`, which ends the userinfo.
    At,
    /// `/`, `?` or `#`, which end the host.
    AfterHost,
    /// `?` or `#`, which end the path.
    AfterPath,
    /// `#`, which ends the query.
    Hash,
}

impl Stop {
    pub open spec fn stops_at(self, b: u8) -> bool {
        match self {
            Stop::Colon => b == COLON,
            Stop::At => b == AT,
            Stop::AfterHost => b == SLASH || b == QUESTION || b == HASH,
            Stop::AfterPath => b == QUESTION || b == HASH,
            Stop::Hash => b == HASH,
        }
    }

    pub fn is_stop(self, b: u8) -> (r: bool)
        ensures
            r == self.stops_at(b),
    {
        match self {
            Stop::Colon => b == COLON,
            Stop::At => b == AT,
            Stop::AfterHost => b == SLASH || b == QUESTION || b == HASH,
            Stop::AfterPath => b == QUESTION || b == HASH,
            Stop::Hash => b == HASH,
        }
    }
}

/// The index of the first stop byte of `s` at or after `from`, or the length
/// of `s` where there is none.
pub open spec fn first_stop(s: Seq<u8>, from: int, stop: Stop) -> int
    recommends
        0 <= from,
    decreases s.len() - from,
{
    if from >= s.len() {
        s.len() as int
    } else if stop.stops_at(s[from]) {
        from
    } else {
        first_stop(s, from + 1, stop)
    }
}

/// What `first_stop` finds: no stop byte before it, and a stop byte at it
/// unless it is the end.
pub proof fn lemma_first_stop(s: Seq<u8>, from: int, stop: Stop)
    requires
        0 <= from <= s.len(),
    ensures
        from <= first_stop(s, from, stop) <= s.len(),
        forall|j: int| from <= j < first_stop(s, from, stop) ==> !stop.stops_at(#[trigger] s[j]),
        first_stop(s, from, stop) < s.len() ==> stop.stops_at(s[first_stop(s, from, stop)]),
    decreases s.len() - from,
{
    if from < s.len() && !stop.stops_at(s[from]) {
        lemma_first_stop(s, from + 1, stop);
    }
}

/// Any position with these properties is the one that `first_stop` finds.
pub proof fn lemma_first_stop_is(s: Seq<u8>, from: int, stop: Stop, at: int)
    requires
        0 <= from <= at <= s.len(),
        forall|j: int| from <= j < at ==> !stop.stops_at(#[trigger] s[j]),
        at < s.len() ==> stop.stops_at(s[at]),
    ensures
        first_stop(s, from, stop) == at,
    decreases at - from,
{
    if from < at {
        assert(!stop.stops_at(s[from]));
        lemma_first_stop_is(s, from + 1, stop, at);
    }
}

/// Finds the first stop byte of `src` at or after `from`.
pub fn find_stop(src: &[u8], from: usize, stop: Stop) -> (r: usize)
    requires
        from <= src@.len(),
    ensures
        r == first_stop(src@, from as int, stop),
        from <= r <= src@.len(),
{
    let mut i: usize = from;
    while i < src.len() && !stop.is_stop(src[i])
        invariant
            from <= i <= src@.len(),
            first_stop(src@, from as int, stop) == first_stop(src@, i as int, stop),
        decreases src@.len() - i,
    {
        i = i + 1;
    }
    i
}

/// The index of the last colon of `s`, or -1 where it has none.
pub open spec fn last_colon(s: Seq<u8>) -> int
    decreases s.len(),
{
    if s.len() == 0 {
        -1
    } else if s.last() == COLON {
        s.len() - 1
    } else {
        last_colon(s.drop_last())
    }
}

pub proof fn lemma_last_colon(s: Seq<u8>)
    ensures
        -1 <= last_colon(s) < s.len(),
        last_colon(s) >= 0 ==> s[last_colon(s)] == COLON,
        forall|j: int| last_colon(s) < j < s.len() ==> #[trigger] s[j] != COLON,
    decreases s.len(),
{
    if s.len() > 0 && s.last() != COLON {
        let t = s.drop_last();
        lemma_last_colon(t);
        assert forall|j: int| last_colon(s) < j < s.len() implies #[trigger] s[j] != COLON by {
            if j < t.len() {
                assert(t[j] != COLON);
            }
        }
    }
}

/// Finds the last colon of `src[lo..hi]`, as an index into `src`.
pub fn find_last_colon(src: &[u8], lo: usize, hi: usize) -> (r: Option<usize>)
    requires
        lo <= hi <= src@.len(),
    ensures
        match r {
            Some(at) => lo <= at < hi && at - lo == last_colon(
                src@.subrange(lo as int, hi as int),
            ),
            None => last_colon(src@.subrange(lo as int, hi as int)) == -1,
        },
{
    let mut i: usize = hi;
    assert(src@.subrange(lo as int, hi as int) == src@.subrange(lo as int, i as int));
    while i > lo
        invariant
            lo <= i <= hi <= src@.len(),
            last_colon(src@.subrange(lo as int, hi as int)) == last_colon(
                src@.subrange(lo as int, i as int),
            ),
        decreases i - lo,
    {
        assert(src@.subrange(lo as int, i as int).drop_last() =~= src@.subrange(
            lo as int,
            i - 1,
        ));
        if src[i - 1] == COLON {
            return Some(i - 1);
        }
        i = i - 1;
    }
    None
}

pub open spec fn is_digit(b: u8) -> bool {
    0x30 <= b <= 0x39
}

pub open spec fn all_digits(s: Seq<u8>) -> bool {
    forall|i: int| 0 <= i < s.len() ==> is_digit(#[trigger] s[i])
}

/// The number that a string of decimal digits spells.
pub open spec fn decimal(s: Seq<u8>) -> nat
    decreases s.len(),
{
    if s.len() == 0 {
        0
    } else {
        (decimal(s.drop_last()) * 10 + (s.last() - 0x30)) as nat
    }
}

/// A string of digits spells at least what any of its prefixes spells.
pub proof fn lemma_decimal_grows(s: Seq<u8>, k: int)
    requires
        all_digits(s),
        0 <= k <= s.len(),
    ensures
        decimal(s.subrange(0, k)) <= decimal(s),
    decreases s.len() - k,
{
    if k == s.len() {
        assert(s.subrange(0, k) =~= s);
    } else {
        assert(s.drop_last().subrange(0, k) =~= s.subrange(0, k));
        assert(is_digit(s[s.len() - 1]));
        lemma_decimal_grows(s.drop_last(), k);
    }
}

/// The number that `src[lo..hi]` spells, where it is made of digits and the
/// number fits sixteen bits.
pub fn read_decimal(src: &[u8], lo: usize, hi: usize) -> (r: Option<u16>)
    requires
        lo <= hi <= src@.len(),
    ensures
        ({
            let digits = src@.subrange(lo as int, hi as int);
            match r {
                Some(v) => all_digits(digits) && decimal(digits) == v,
                None => !all_digits(digits) || decimal(digits) > 0xffff,
            }
        }),
{
    let ghost digits = src@.subrange(lo as int, hi as int);
    let mut acc: u32 = 0;
    let mut i: usize = lo;
    assert(digits.subrange(0, 0) =~= Seq::<u8>::empty());
    while i < hi
        invariant
            lo <= i <= hi <= src@.len(),
            digits == src@.subrange(lo as int, hi as int),
            all_digits(digits.subrange(0, i - lo)),
            acc == decimal(digits.subrange(0, i - lo)),
            acc <= 0xffff,
        decreases hi - i,
    {
        let b: u8 = src[i];
        assert(digits[i - lo] == b);
        if b < 0x30 || b > 0x39 {
            return None;
        }
        let ghost next = digits.subrange(0, i - lo + 1);
        assert(next.drop_last() =~= digits.subrange(0, i - lo));
        assert(next.last() == b);
        acc = acc * 10 + (b - 0x30) as u32;
        if acc > 0xffff {
            proof {
                if all_digits(digits) {
                    lemma_decimal_grows(digits, i - lo + 1);
                }
            }
            return None;
        }
        i = i + 1;
    }
    assert(digits.subrange(0, hi - lo) =~= digits);
    Some(acc as u16)
}

} // verus!
