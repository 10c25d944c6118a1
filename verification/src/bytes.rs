//! Searching in bytes, and bytes as text.
use vstd::prelude::*;
use vstd::utf8::{decode_utf8, valid_utf8};

verus! {

/// Whether `needle` stands in `hay` at position `at`.
pub open spec fn occurs_at(hay: Seq<u8>, needle: Seq<u8>, at: int) -> bool {
    0 <= at && at + needle.len() <= hay.len() && hay.subrange(at, at + needle.len()) == needle
}

/// Whether `needle` stands in `hay` anywhere.
pub open spec fn occurs(hay: Seq<u8>, needle: Seq<u8>) -> bool {
    exists|at: int| occurs_at(hay, needle, at)
}

/// Whether position `at` holds the first `b` in `s`.
pub open spec fn is_first(s: Seq<u8>, b: u8, at: int) -> bool {
    &&& 0 <= at < s.len()
    &&& s[at] == b
    &&& forall|j: int| 0 <= j < at ==> s[j] != b
}

/// Whether position `at` holds the last `b` in `s`.
pub open spec fn is_last(s: Seq<u8>, b: u8, at: int) -> bool {
    &&& 0 <= at < s.len()
    &&& s[at] == b
    &&& forall|j: int| at < j < s.len() ==> s[j] != b
}

/// The position of the last `b` in `s`.
pub fn find_last_byte(s: &[u8], b: u8) -> (at: Option<usize>)
    ensures
        match at {
            Some(i) => is_last(s@, b, i as int),
            None => !s@.contains(b),
        },
{
    let mut i: usize = s.len();
    while i > 0
        invariant
            i <= s@.len(),
            forall|j: int| i <= j < s@.len() ==> s@[j] != b,
        decreases i,
    {
        i = i - 1;
        if s[i] == b {
            return Some(i);
        }
    }
    None
}

/// The position of the first `b` in `s`.
pub fn find_byte(s: &[u8], b: u8) -> (at: Option<usize>)
    ensures
        match at {
            Some(i) => is_first(s@, b, i as int),
            None => !s@.contains(b),
        },
{
    let mut i: usize = 0;
    while i < s.len()
        invariant
            i <= s@.len(),
            forall|j: int| 0 <= j < i ==> s@[j] != b,
        decreases s@.len() - i,
    {
        if s[i] == b {
            return Some(i);
        }
        i = i + 1;
    }
    None
}

/// Whether two rows of bytes are the same.
pub fn same_bytes(a: &[u8], b: &[u8]) -> (same: bool)
    ensures
        same == (a@ == b@),
{
    if a.len() != b.len() {
        return false;
    }
    let mut i: usize = 0;
    while i < a.len()
        invariant
            i <= a@.len(),
            a@.len() == b@.len(),
            forall|j: int| 0 <= j < i ==> a@[j] == b@[j],
        decreases a@.len() - i,
    {
        if a[i] != b[i] {
            return false;
        }
        i = i + 1;
    }
    assert(a@ =~= b@);
    true
}

/// Whether the first `limit` bytes of `hay` hold `needle`.
pub fn holds(hay: &[u8], limit: usize, needle: &[u8]) -> (found: bool)
    requires
        limit <= hay@.len(),
    ensures
        found == occurs(hay@.take(limit as int), needle@),
{
    let ghost part = hay@.take(limit as int);
    if needle.len() > limit {
        return false;
    }
    let last: usize = limit - needle.len();
    let mut at: usize = 0;
    loop
        invariant
            limit <= hay@.len(),
            part == hay@.take(limit as int),
            last == limit - needle@.len(),
            at <= last,
            forall|k: int| 0 <= k < at ==> !occurs_at(part, needle@, k),
        decreases last - at,
    {
        let mut i: usize = 0;
        while i < needle.len() && hay[at + i] == needle[i]
            invariant
                limit <= hay@.len(),
                part == hay@.take(limit as int),
                last == limit - needle@.len(),
                at <= last,
                i <= needle@.len(),
                forall|j: int| 0 <= j < i ==> part[at + j] == needle@[j],
            decreases needle@.len() - i,
        {
            i = i + 1;
        }
        if i == needle.len() {
            assert(part.subrange(at as int, at + needle@.len()) =~= needle@);
            assert(occurs_at(part, needle@, at as int));
            return true;
        }
        proof {
            if occurs_at(part, needle@, at as int) {
                assert(part.subrange(at as int, at + needle@.len())[i as int] == needle@[i as int]);
            }
        }
        if at == last {
            assert(!occurs(part, needle@));
            return false;
        }
        at = at + 1;
    }
}

/// A copy of the first `limit` bytes.
pub fn prefix(s: &[u8], limit: usize) -> (copy: Vec<u8>)
    requires
        limit <= s@.len(),
    ensures
        copy@ == s@.take(limit as int),
{
    let mut copy: Vec<u8> = Vec::new();
    let mut i: usize = 0;
    while i < limit
        invariant
            i <= limit <= s@.len(),
            copy@ == s@.take(i as int),
        decreases limit - i,
    {
        copy.push(s[i]);
        i = i + 1;
        assert(copy@ =~= s@.take(i as int));
    }
    copy
}

/// Whether `std::str::from_utf8` takes the bytes: it does so exactly where they
/// are valid UTF-8.
#[verifier::external_body]
pub(crate) fn is_utf8(bytes: &[u8]) -> (valid: bool)
    ensures
        valid == valid_utf8(bytes@),
{
    std::str::from_utf8(bytes).is_ok()
}

/// The text that `String::from_utf8_lossy` makes of bytes.
pub uninterp spec fn lossy_text(bytes: Seq<u8>) -> Seq<char>;

/// The bytes as text, by `String::from_utf8_lossy`. The text depends on the
/// bytes alone, and valid UTF-8 is decoded as it stands; how ill-formed bytes
/// are replaced is left unsaid.
#[verifier::external_body]
pub(crate) fn to_lossy_text(bytes: &[u8]) -> (text: String)
    ensures
        text@ == lossy_text(bytes@),
        valid_utf8(bytes@) ==> text@ == decode_utf8(bytes@),
{
    String::from_utf8_lossy(bytes).into_owned()
}

} // verus!
