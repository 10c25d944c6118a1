//! The keys under which records are stored.
//!
//! A slot update is stored under `nickname:slot`, an RPC response under
//! `url:seconds`.
use crate::bytes::{find_byte, is_first, is_last, is_utf8, prefix};
use crate::decimal::{
    decimal, digits_value, is_digit, law_decimal_reads_back, parse_unsigned,
    push_decimal, push_signed_decimal, signed_decimal, unsigned_value,
};
use vstd::prelude::*;
use vstd::utf8::*;

verus! {

/// The byte that separates the two parts of a key.
pub const COLON: u8 = 58;

/// The key of the update that the endpoint `nickname` sent for `slot`.
pub open spec fn slot_key(nickname: Seq<char>, slot: u64) -> Seq<u8> {
    encode_utf8(nickname).push(COLON) + decimal(slot as nat)
}

/// The key of a response from `url` that was stored at `seconds`.
pub open spec fn response_key(url: Seq<char>, seconds: i64) -> Seq<u8> {
    encode_utf8(url).push(COLON) + signed_decimal(seconds as int)
}

/// The position of the first colon in a key that has one.
pub open spec fn first_colon(key: Seq<u8>) -> int {
    choose|at: int| is_first(key, COLON, at)
}

/// The position of the last colon in a key that has one.
pub open spec fn last_colon(key: Seq<u8>) -> int {
    choose|at: int| is_last(key, COLON, at)
}

/// The name and the slot that a key holds: what precedes the first colon, and
/// the number after it.
pub open spec fn slot_entry(key: Seq<u8>) -> Option<(Seq<u8>, u64)> {
    if valid_utf8(key) && key.contains(COLON) {
        let at = first_colon(key);
        match unsigned_value(key.skip(at + 1)) {
            Some(slot) => Some((key.take(at), slot)),
            None => None,
        }
    } else {
        None
    }
}

/// The slot in a key of exactly two parts.
pub open spec fn two_part_slot(key: Seq<u8>) -> Option<u64> {
    if valid_utf8(key) && key.contains(COLON) && !key.skip(first_colon(key) + 1).contains(COLON) {
        unsigned_value(key.skip(first_colon(key) + 1))
    } else {
        None
    }
}

/// Whether a name has no colon in it.
pub open spec fn plain_name(name: Seq<char>) -> bool {
    !name.contains(':')
}

proof fn lemma_first_is_unique(s: Seq<u8>, b: u8, i: int, j: int)
    requires
        is_first(s, b, i),
        is_first(s, b, j),
    ensures
        i == j,
{
}

proof fn lemma_first_colon(key: Seq<u8>, at: int)
    requires
        is_first(key, COLON, at),
    ensures
        first_colon(key) == at,
        key.contains(COLON),
{
    lemma_first_is_unique(key, COLON, at, first_colon(key));
}

/// The last colon of a key is at one position only.
pub proof fn lemma_last_colon(key: Seq<u8>, at: int)
    requires
        is_last(key, COLON, at),
    ensures
        last_colon(key) == at,
        key.contains(COLON),
{
    let other = choose|other: int| is_last(key, COLON, other);
    assert(is_last(key, COLON, other));
}

/// A number in text has no colon in it.
proof fn lemma_number_has_no_colon(s: Seq<u8>)
    requires
        unsigned_value(s) is Some,
    ensures
        !s.contains(COLON),
{
    if s.contains(COLON) {
        let i = choose|i: int| 0 <= i < s.len() && s[i] == COLON;
        if s[0] == 43 {
            assert(s.skip(1)[i - 1] == COLON);
            assert(is_digit(s.skip(1)[i - 1]));
        } else {
            assert(is_digit(s[i]));
        }
    }
}

/// Reading a key as two parts, and splitting it at its first colon, find the
/// same slot.
pub proof fn law_both_readings_agree(key: Seq<u8>)
    ensures
        two_part_slot(key) == match slot_entry(key) {
            Some(entry) => Some(entry.1),
            None => None::<u64>,
        },
{
    if slot_entry(key) is Some {
        lemma_number_has_no_colon(key.skip(first_colon(key) + 1));
    }
}

/// The bytes of a character are all below 128, or none is.
proof fn lemma_wide_scalar_bytes(c: u32)
    by (bit_vector)
    ensures
        (0xC0u8 | ((c >> 6) & 0x1F) as u8) >= 0x80,
        (0xE0u8 | ((c >> 12) & 0x0F) as u8) >= 0x80,
        (0xF0u8 | ((c >> 18) & 0x7) as u8) >= 0x80,
        (0x80u8 | (c & 0x3F) as u8) >= 0x80,
        (0x80u8 | ((c >> 6) & 0x3F) as u8) >= 0x80,
        (0x80u8 | ((c >> 12) & 0x3F) as u8) >= 0x80,
{
}

proof fn lemma_narrow_scalar_byte(c: u32)
    by (bit_vector)
    requires
        c <= 0x7f,
    ensures
        (c & 0x7F) as u8 == c,
{
}

/// A name without a colon has no colon byte in its encoding.
proof fn lemma_plain_name_bytes(name: Seq<char>)
    requires
        plain_name(name),
    ensures
        !encode_utf8(name).contains(COLON),
    decreases name.len(),
{
    if name.len() > 0 {
        let rest = name.drop_first();
        assert(plain_name(rest)) by {
            if rest.contains(':') {
                let i = choose|i: int| 0 <= i < rest.len() && rest[i] == ':';
                assert(name[i + 1] == ':');
            }
        }
        lemma_plain_name_bytes(rest);
        let c = name[0] as u32;
        assert(name[0] != ':');
        let head = encode_scalar(c);
        lemma_wide_scalar_bytes(c);
        if c <= 0x7f {
            lemma_narrow_scalar_byte(c);
        }
        char_is_scalar(name[0]);
        assert forall|i: int| 0 <= i < head.len() implies head[i] != COLON by {
            if has_width_1_encoding(c) {
                char_u32_cast(name[0], c);
                char_u32_cast(':', ':' as u32);
                assert(c != ':' as u32);
                assert(leading_byte_width_1(c) == c);
            } else {
                assert(head[i] >= 0x80);
            }
        }
        let whole = encode_utf8(name);
        if whole.contains(COLON) {
            let i = choose|i: int| 0 <= i < whole.len() && whole[i] == COLON;
            if i < head.len() {
                assert(head[i] == COLON);
            } else {
                assert(encode_utf8(rest)[i - head.len()] == COLON);
            }
        }
    }
}

/// Bytes below 128 are valid UTF-8.
proof fn lemma_ascii_is_valid(s: Seq<u8>)
    requires
        forall|i: int| 0 <= i < s.len() ==> #[trigger] s[i] < 128,
    ensures
        valid_utf8(s),
{
    assert(s.subrange(0, 0) =~= Seq::<u8>::empty());
    assert(partial_valid_utf8(s, 0));
    assert forall|i: int| 0 <= 0 <= i < s.len() <= s.len() implies #[trigger] is_leading_byte_width_1(
        s[i],
    ) by {}
    partial_valid_utf8_extend_ascii_block(s, 0, s.len() as int);
    assert(s.subrange(0, s.len() as int) =~= s);
}

/// Every slot key is valid UTF-8.
proof fn lemma_slot_key_is_valid(nickname: Seq<char>, slot: u64)
    ensures
        valid_utf8(slot_key(nickname, slot)),
{
    let tail = seq![COLON] + decimal(slot as nat);
    law_decimal_reads_back(slot as nat);
    assert forall|i: int| 0 <= i < tail.len() implies #[trigger] tail[i] < 128 by {
        if i > 0 {
            assert(is_digit(decimal(slot as nat)[i - 1]));
        }
    }
    lemma_ascii_is_valid(tail);
    encode_utf8_valid_utf8(nickname);
    valid_utf8_concat(encode_utf8(nickname), tail);
    assert(encode_utf8(nickname) + tail =~= slot_key(nickname, slot));
}

/// Every response key is valid UTF-8, and gives back its URL: what precedes its
/// last colon.
pub proof fn law_response_key_reads_back(url: Seq<char>, seconds: i64)
    ensures
        valid_utf8(response_key(url, seconds)),
        response_key(url, seconds).contains(COLON),
        response_key(url, seconds).take(last_colon(response_key(url, seconds))) == encode_utf8(url),
{
    let name = encode_utf8(url);
    let digits = signed_decimal(seconds as int);
    let tail = seq![COLON] + digits;
    let key = response_key(url, seconds);
    let size = if seconds < 0 { (-seconds) as nat } else { seconds as nat };
    law_decimal_reads_back(size);
    assert forall|i: int| 0 < i < tail.len() implies #[trigger] tail[i] < 128 && tail[i] != COLON by {
        if !(seconds < 0 && i == 1) {
            let k = if seconds < 0 { i - 2 } else { i - 1 };
            assert(tail[i] == decimal(size)[k]);
            assert(is_digit(decimal(size)[k]));
        }
    }
    lemma_ascii_is_valid(tail);
    encode_utf8_valid_utf8(url);
    valid_utf8_concat(name, tail);
    assert(name + tail =~= key);
    let at = name.len() as int;
    assert forall|j: int| at < j < key.len() implies key[j] != COLON by {
        assert(key[j] == tail[j - at]);
    }
    assert(key[at] == COLON);
    lemma_last_colon(key, at);
    assert(key.take(at) =~= name);
}

/// The key of a name without a colon gives back that name and the slot.
pub proof fn law_slot_key_reads_back(nickname: Seq<char>, slot: u64)
    requires
        plain_name(nickname),
    ensures
        slot_entry(slot_key(nickname, slot)) == Some((encode_utf8(nickname), slot)),
{
    let key = slot_key(nickname, slot);
    let name = encode_utf8(nickname);
    lemma_slot_key_is_valid(nickname, slot);
    lemma_plain_name_bytes(nickname);
    law_decimal_reads_back(slot as nat);
    assert(key[name.len() as int] == COLON);
    assert forall|j: int| 0 <= j < name.len() implies key[j] != COLON by {
        assert(key[j] == name[j]);
    }
    lemma_first_colon(key, name.len() as int);
    assert(key.skip(name.len() as int + 1) =~= decimal(slot as nat));
    assert(key.take(name.len() as int) =~= name);
}

/// A key that holds a slot is a name without a colon, a colon and a number: digits,
/// which a `+` may precede.
pub proof fn law_slot_entries_are_name_and_number(key: Seq<u8>, name: Seq<u8>, slot: u64)
    requires
        slot_entry(key) == Some((name, slot)),
    ensures
        valid_utf8(key),
        !name.contains(COLON),
        exists|digits: Seq<u8>|
            {
                &&& digits.len() > 0
                &&& forall|i: int| 0 <= i < digits.len() ==> 48 <= #[trigger] digits[i] <= 57
                &&& #[trigger] digits_value(digits) == slot
                &&& key == name.push(COLON) + digits || key == name.push(COLON) + seq![43u8] + digits
            },
{
    let i = choose|i: int| 0 <= i < key.len() && key[i] == COLON;
    let at = lemma_first_colon_exists(key, i);
    lemma_first_colon(key, at);
    let rest = key.skip(at + 1);
    assert(name == key.take(at));
    if name.contains(COLON) {
        let j = choose|j: int| 0 <= j < name.len() && name[j] == COLON;
        assert(key[j] == COLON);
    }
    let digits = if rest.len() > 0 && rest[0] == 43 { rest.skip(1) } else { rest };
    assert forall|j: int| 0 <= j < digits.len() implies 48 <= #[trigger] digits[j] <= 57 by {
        assert(is_digit(digits[j]));
    }
    if rest.len() > 0 && rest[0] == 43 {
        assert(key =~= name.push(COLON) + seq![43u8] + digits);
    } else {
        assert(key =~= name.push(COLON) + digits);
    }
    assert(digits_value(digits) == slot);
}

/// Where there is a colon, there is a first one.
proof fn lemma_first_colon_exists(s: Seq<u8>, i: int) -> (at: int)
    requires
        0 <= i < s.len(),
        s[i] == COLON,
    ensures
        is_first(s, COLON, at),
    decreases i,
{
    if exists|j: int| 0 <= j < i && s[j] == COLON {
        let j = choose|j: int| 0 <= j < i && s[j] == COLON;
        lemma_first_colon_exists(s, j)
    } else {
        i
    }
}

/// Different names or slots have different keys.
pub proof fn law_slot_keys_differ(name1: Seq<char>, slot1: u64, name2: Seq<char>, slot2: u64)
    requires
        slot_key(name1, slot1) == slot_key(name2, slot2),
    ensures
        name1 == name2,
        slot1 == slot2,
{
    let key = slot_key(name1, slot1);
    let a = encode_utf8(name1);
    let b = encode_utf8(name2);
    law_decimal_reads_back(slot1 as nat);
    law_decimal_reads_back(slot2 as nat);
    assert(key[a.len() as int] == COLON && slot_key(name2, slot2)[b.len() as int] == COLON);
    assert(key.len() == a.len() + 1 + decimal(slot1 as nat).len());
    assert(key.len() == b.len() + 1 + decimal(slot2 as nat).len());
    if a.len() < b.len() {
        let i = b.len() - a.len() - 1;
        assert(key[b.len() as int] == decimal(slot1 as nat)[i]);
        assert(is_digit(decimal(slot1 as nat)[i]));
    }
    if b.len() < a.len() {
        let i = a.len() - b.len() - 1;
        assert(slot_key(name2, slot2)[a.len() as int] == decimal(slot2 as nat)[i]);
        assert(is_digit(decimal(slot2 as nat)[i]));
    }
    assert(key.take(a.len() as int) =~= a);
    assert(key.take(b.len() as int) =~= b);
    assert(key.skip(a.len() as int + 1) =~= decimal(slot1 as nat));
    assert(key.skip(b.len() as int + 1) =~= decimal(slot2 as nat));
    encode_utf8_decode_utf8(name1);
    encode_utf8_decode_utf8(name2);
}

/// Whether rows `a` and `b` first differ at position `i`, where `a` is lower.
pub open spec fn is_lower_at(a: Seq<u8>, b: Seq<u8>, i: int) -> bool {
    &&& 0 <= i < a.len()
    &&& i < b.len()
    &&& a[i] < b[i]
    &&& forall|j: int| 0 <= j < i ==> #[trigger] a[j] == b[j]
}

/// Whether row `a` stands before row `b` where rows are sorted byte by byte, a
/// row before those that it starts.
pub open spec fn sorts_before(a: Seq<u8>, b: Seq<u8>) -> bool {
    ||| exists|i: int| is_lower_at(a, b, i)
    ||| a.len() < b.len() && b.take(a.len() as int) == a
}

/// Of two rows, one at most stands before the other.
pub proof fn law_sorting_has_one_direction(a: Seq<u8>, b: Seq<u8>)
    requires
        sorts_before(a, b),
    ensures
        !sorts_before(b, a),
        a != b,
{
    if exists|i: int| is_lower_at(a, b, i) {
        let i = choose|i: int| is_lower_at(a, b, i);
        if exists|j: int| is_lower_at(b, a, j) {
            let j = choose|j: int| is_lower_at(b, a, j);
            if i < j {
                assert(b[i] == a[i]);
            } else if j < i {
                assert(a[j] == b[j]);
            }
        }
        if b.len() < a.len() && a.take(b.len() as int) == b {
            assert(a.take(b.len() as int)[i] == b[i]);
        }
    } else if exists|j: int| is_lower_at(b, a, j) {
        let j = choose|j: int| is_lower_at(b, a, j);
        assert(b.take(a.len() as int)[j] == a[j]);
    }
}

/// Of two numbers with equally many digits, the smaller sorts first.
proof fn lemma_smaller_sorts_before(a: nat, b: nat)
    requires
        a < b,
        decimal(a).len() == decimal(b).len(),
    ensures
        exists|i: int| is_lower_at(decimal(a), decimal(b), i),
    decreases b,
{
    let x = decimal(a);
    let y = decimal(b);
    law_decimal_reads_back(a / 10);
    law_decimal_reads_back(b / 10);
    if b < 10 {
        assert(is_lower_at(x, y, 0));
    } else {
        let n = x.len() - 1;
        assert(a >= 10);
        if a / 10 == b / 10 {
            assert(x[n] < y[n]);
            assert forall|j: int| 0 <= j < n implies #[trigger] x[j] == y[j] by {
                assert(x[j] == decimal(a / 10)[j] && y[j] == decimal(b / 10)[j]);
            }
            assert(is_lower_at(x, y, n));
        } else {
            let p = decimal(a / 10);
            let q = decimal(b / 10);
            lemma_smaller_sorts_before(a / 10, b / 10);
            let i = choose|i: int| is_lower_at(p, q, i);
            assert(x[i] == p[i] && y[i] == q[i]);
            assert forall|j: int| 0 <= j < i implies #[trigger] x[j] == y[j] by {
                assert(x[j] == p[j] && y[j] == q[j]);
            }
            assert(is_lower_at(x, y, i));
        }
    }
}

/// Of two responses from one endpoint that were stored at times with equally
/// many digits, the earlier one sorts first.
pub proof fn law_earlier_responses_sort_first(url: Seq<char>, a: i64, b: i64)
    requires
        0 <= a < b,
        decimal(a as nat).len() == decimal(b as nat).len(),
    ensures
        sorts_before(response_key(url, a), response_key(url, b)),
{
    let x = decimal(a as nat);
    let y = decimal(b as nat);
    lemma_smaller_sorts_before(a as nat, b as nat);
    let i = choose|i: int| is_lower_at(x, y, i);
    let head = encode_utf8(url).push(COLON);
    let p = response_key(url, a);
    let q = response_key(url, b);
    let at = head.len() + i;
    assert(p[at] == x[i] && q[at] == y[i]);
    assert forall|j: int| 0 <= j < at implies #[trigger] p[j] == q[j] by {
        if j >= head.len() {
            assert(p[j] == x[j - head.len()] && q[j] == y[j - head.len()]);
        } else {
            assert(p[j] == head[j] && q[j] == head[j]);
        }
    }
    assert(is_lower_at(p, q, at));
}

/// The key of the update that the endpoint `nickname` sent for `slot`.
pub fn make_slot_key(nickname: &str, slot: u64) -> (key: Vec<u8>)
    ensures
        key@ == slot_key(nickname@, slot),
{
    let name = nickname.as_bytes();
    let mut key = prefix(name, name.len());
    assert(key@ =~= encode_utf8(nickname@));
    key.push(COLON);
    push_decimal(&mut key, slot);
    key
}

/// The key of a response from `url` that is stored at `seconds`.
pub fn make_response_key(url: &str, seconds: i64) -> (key: Vec<u8>)
    ensures
        key@ == response_key(url@, seconds),
{
    let text = url.as_bytes();
    let mut key = prefix(text, text.len());
    assert(key@ =~= encode_utf8(url@));
    key.push(COLON);
    push_signed_decimal(&mut key, seconds);
    key
}

/// The length of the name in a key, and its slot.
pub fn read_slot_entry(key: &[u8]) -> (entry: Option<(usize, u64)>)
    ensures
        match entry {
            Some((length, slot)) => length <= key@.len() && slot_entry(key@) == Some(
                (key@.take(length as int), slot),
            ),
            None => slot_entry(key@) is None,
        },
{
    if !is_utf8(key) {
        return None;
    }
    match find_byte(key, COLON) {
        None => None,
        Some(at) => {
            proof {
                lemma_first_colon(key@, at as int);
            }
            let end: usize = key.len();
            let rest = vstd::slice::slice_subrange(key, at + 1, end);
            assert(rest@ =~= key@.skip(at + 1));
            match parse_unsigned(rest) {
                None => None,
                Some(slot) => Some((at, slot)),
            }
        },
    }
}

/// The slot in a key of exactly two parts.
pub fn read_two_part_slot(key: &[u8]) -> (slot: Option<u64>)
    ensures
        slot == two_part_slot(key@),
{
    if !is_utf8(key) {
        return None;
    }
    match find_byte(key, COLON) {
        None => None,
        Some(at) => {
            proof {
                lemma_first_colon(key@, at as int);
            }
            let end: usize = key.len();
            let rest = vstd::slice::slice_subrange(key, at + 1, end);
            assert(rest@ =~= key@.skip(at + 1));
            match find_byte(rest, COLON) {
                None => parse_unsigned(rest),
                Some(_) => None,
            }
        },
    }
}

} // verus!
