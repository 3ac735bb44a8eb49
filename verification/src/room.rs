//! Rooms that a connecting peer may ask for, and how a route segment names one.

use vstd::prelude::*;
use vstd::string::*;

verus! {

/// The mathematical value of a [`RequestedRoom`].
pub enum RoomKey {
    /// A persistent room addressed by a shared identifier.
    Id(Seq<char>),
    /// An ephemeral room that dissolves once this many peers have met.
    Next(nat),
}

/// The room a connection asks for, fixed once when the connection is accepted.
#[derive(Debug, PartialEq, Eq)]
pub enum RequestedRoom {
    /// Join the persistent room with this identifier.
    Id(String),
    /// Be grouped with the next peers that ask for a group of this size.
    Next(usize),
}

impl View for RequestedRoom {
    type V = RoomKey;

    open spec fn view(&self) -> RoomKey {
        match self {
            RequestedRoom::Id(id) => RoomKey::Id(id@),
            RequestedRoom::Next(size) => RoomKey::Next(*size as nat),
        }
    }
}

impl RoomKey {
    /// A group size of zero names no room: a group holds at least its founder.
    pub open spec fn valid(self) -> bool {
        match self {
            RoomKey::Id(_) => true,
            RoomKey::Next(size) => size >= 1,
        }
    }
}

impl Clone for RequestedRoom {
    fn clone(&self) -> (room: Self)
        ensures
            room@ == self@,
    {
        match self {
            RequestedRoom::Id(id) => RequestedRoom::Id(id.clone()),
            RequestedRoom::Next(size) => RequestedRoom::Next(*size),
        }
    }
}

impl RequestedRoom {
    /// Whether two requests name the same room.
    pub fn same_as(&self, other: &RequestedRoom) -> (same: bool)
        ensures
            same == (self@ == other@),
    {
        match (self, other) {
            (RequestedRoom::Id(a), RequestedRoom::Id(b)) => *a == *b,
            (RequestedRoom::Next(a), RequestedRoom::Next(b)) => *a == *b,
            _ => false,
        }
    }
}

/// The literal that introduces a group size in a route segment: `next_`.
pub open spec fn size_prefix() -> Seq<char> {
    seq!['n', 'e', 'x', 't', '_']
}

pub open spec fn is_digit(c: char) -> bool {
    '0' <= c <= '9'
}

pub open spec fn all_digits(s: Seq<char>) -> bool {
    forall|i: int| 0 <= i < s.len() ==> is_digit(#[trigger] s[i])
}

/// The number that a string of decimal digits denotes, most significant first.
pub open spec fn decimal_value(s: Seq<char>) -> nat
    decreases s.len(),
{
    if s.len() == 0 {
        0
    } else {
        decimal_value(s.drop_last()) * 10 + (s.last() as nat - '0' as nat) as nat
    }
}

/// A written number without its optional leading `+`.
pub open spec fn unsigned_part(s: Seq<char>) -> Seq<char> {
    if s.len() > 0 && s[0] == '+' {
        s.skip(1)
    } else {
        s
    }
}

/// The group size that a route segment asks for, if it asks for one: the
/// segment is `next_`, an optional `+`, and one or more decimal digits whose
/// value is at least one and fits the machine word.
pub open spec fn requested_size(id: Seq<char>) -> Option<usize> {
    let digits = unsigned_part(id.skip(5));
    if id.len() >= 5 && id.take(5) == size_prefix() && digits.len() > 0 && all_digits(digits)
        && 1 <= decimal_value(digits) <= usize::MAX {
        Some(decimal_value(digits) as usize)
    } else {
        None
    }
}

/// The room that a route segment names.
pub open spec fn room_of(id: Seq<char>) -> RoomKey {
    match requested_size(id) {
        Some(size) => RoomKey::Next(size as nat),
        None => RoomKey::Id(id),
    }
}

/// A number never gets smaller by writing more digits behind it.
proof fn lemma_decimal_value_grows(s: Seq<char>, k: int)
    requires
        0 <= k <= s.len(),
        all_digits(s),
    ensures
        decimal_value(s.take(k)) <= decimal_value(s),
    decreases s.len() - k,
{
    if k == s.len() {
        assert(s.take(k) =~= s);
    } else {
        lemma_decimal_value_grows(s, k + 1);
        assert(s.take(k + 1).drop_last() =~= s.take(k));
    }
}

fn ascii_at(s: &str, i: usize) -> (c: char)
    requires
        is_ascii(s),
        i < s@.len(),
    ensures
        c == s@[i as int],
{
    let b = s.get_ascii(i);
    b as char
}

/// Reads the group size out of a route segment.
fn parse_size(id: &str) -> (size: Option<usize>)
    ensures
        size == requested_size(id@),
{
    if !id.is_ascii() {
        proof {
            if requested_size(id@) is Some {
                lemma_sized_segment_is_ascii(id@);
            }
        }
        return None;
    }
    proof {
        is_ascii_spec_bytes(id);
        assert(id.spec_bytes().len() == id@.len());
    }
    let n = id.as_bytes().len();
    if n < 6 {
        return None;
    }
    if ascii_at(id, 0) != 'n' || ascii_at(id, 1) != 'e' || ascii_at(id, 2) != 'x' || ascii_at(
        id,
        3,
    ) != 't' || ascii_at(id, 4) != '_' {
        return None;
    }
    assert(id@.take(5) =~= size_prefix());
    let start: usize = if ascii_at(id, 5) == '+' {
        6
    } else {
        5
    };
    let ghost digits = unsigned_part(id@.skip(5));
    assert(digits =~= id@.skip(start as int));
    if start >= n {
        return None;
    }
    let mut acc: usize = 0;
    let mut i: usize = start;
    while i < n
        invariant
            start <= i <= n,
            n == id@.len(),
            is_ascii(id),
            digits == id@.skip(start as int),
            digits == unsigned_part(id@.skip(5)),
            id@.take(5) == size_prefix(),
            all_digits(digits.take(i - start)),
            acc == decimal_value(digits.take(i - start)),
        decreases n - i,
    {
        let c = ascii_at(id, i);
        assert(digits[i - start] == c);
        if c < '0' || c > '9' {
            assert(!is_digit(digits[i - start]));
            return None;
        }
        let d: usize = (c as u8 - '0' as u8) as usize;
        proof {
            assert(digits.take(i + 1 - start).drop_last() =~= digits.take(i - start));
            assert(digits.take(i + 1 - start).last() == c);
            assert forall|j: int| 0 <= j < i + 1 - start implies is_digit(
                #[trigger] digits.take(i + 1 - start)[j],
            ) by {
                if j < i - start {
                    assert(digits.take(i - start)[j] == digits[j]);
                }
            }
            assert(decimal_value(digits.take(i + 1 - start)) == acc * 10 + d);
            if all_digits(digits) {
                lemma_decimal_value_grows(digits, i + 1 - start);
            }
        }
        let next = match acc.checked_mul(10) {
            Some(tens) => tens.checked_add(d),
            None => None,
        };
        match next {
            Some(value) => {
                acc = value;
            },
            None => {
                return None;
            },
        }
        i = i + 1;
    }
    assert(digits.take(n - start) =~= digits);
    if acc == 0 {
        None
    } else {
        Some(acc)
    }
}

/// A segment that asks for a group size is written in ASCII throughout.
proof fn lemma_sized_segment_is_ascii(id: Seq<char>)
    requires
        requested_size(id) is Some,
    ensures
        vstd::utf8::is_ascii_chars(id),
{
    let digits = unsigned_part(id.skip(5));
    assert forall|i: int| 0 <= i < id.len() implies '\0' <= #[trigger] id[i] <= '\u{7f}' by {
        if i < 5 {
            assert(id[i] == id.take(5)[i]);
        } else if digits.len() == id.len() - 5 {
            assert(is_digit(digits[i - 5]));
        } else if i == 5 {
        } else {
            assert(is_digit(digits[i - 6]));
        }
    }
}

/// Decides which room a route segment names: `next_` followed by a positive
/// number asks for a group of that size, anything else is a room's identifier.
pub fn parse_room_id(id: String) -> (room: RequestedRoom)
    ensures
        room@ == room_of(id@),
        room@.valid(),
{
    match parse_size(id.as_str()) {
        Some(size) => RequestedRoom::Next(size),
        None => RequestedRoom::Id(id),
    }
}

} // verus!
