//! The client's line-oriented command syntax.
use vstd::prelude::*;
use vstd::string::StrSliceExecFns;
use vstd::utf8::encode_utf8;

use crate::enums::MessageType;
use crate::text::{lossy_text, text_from_bytes, trim_text, trimmed};

verus! {

/// The keyword that starts a text command, with its separating space.
pub open spec fn msg_prefix() -> Seq<u8> {
    seq![109u8, 115u8, 103u8, 32u8]
}

pub open spec fn is_digit(b: u8) -> bool {
    48 <= b <= 57
}

/// The decimal value of the digits `s`, saturating at 65536.
pub open spec fn capped_decimal(s: Seq<u8>) -> int
    decreases s.len(),
{
    if s.len() == 0 {
        0
    } else {
        let v = capped_decimal(s.drop_last()) * 10 + (s.last() - 48);
        if v > 65536 {
            65536
        } else {
            v
        }
    }
}

/// The id written as the decimal digits `s`, if `s` is one.
pub open spec fn parse_id(s: Seq<u8>) -> Option<u16> {
    if s.len() > 0 && (forall|i: int| 0 <= i < s.len() ==> is_digit(#[trigger] s[i]))
        && capped_decimal(s) < 65536 {
        Some(capped_decimal(s) as u16)
    } else {
        None
    }
}

/// The first index at or after `i` whose byte is not a space.
pub open spec fn skip_spaces(s: Seq<u8>, i: int) -> int
    decreases s.len() - i,
{
    if i >= s.len() || s[i] != 32 {
        i
    } else {
        skip_spaces(s, i + 1)
    }
}

/// The first index at or after `i` whose byte is a space, or the length.
pub open spec fn next_space(s: Seq<u8>, i: int) -> int
    decreases s.len() - i,
{
    if i >= s.len() || s[i] == 32 {
        i
    } else {
        next_space(s, i + 1)
    }
}

/// What a command line asks for. A trimmed line `msg <id> <content>` is a
/// text to `id`; a line that starts with `msg ` but has no valid id and
/// content is an `Error`; any other line proposes itself as display name.
pub open spec fn command_of(input: Seq<char>) -> (MessageType, u16, Seq<char>) {
    let line = trimmed(input);
    let b = encode_utf8(line);
    if b.len() >= 4 && b.subrange(0, 4) == msg_prefix() {
        let start = skip_spaces(b, 4);
        let end = next_space(b, start);
        match parse_id(b.subrange(start, end)) {
            Some(id) => if end < b.len() {
                (MessageType::Text, id, lossy_text(b.subrange(end + 1, b.len() as int)))
            } else {
                (MessageType::Error, 0, Seq::<char>::empty())
            },
            None => (MessageType::Error, 0, Seq::<char>::empty()),
        }
    } else {
        (MessageType::SetName, 0, line)
    }
}

fn parse_digits(b: &Vec<u8>, start: usize, end: usize) -> (r: Option<u16>)
    requires
        start <= end <= b@.len(),
    ensures
        r == parse_id(b@.subrange(start as int, end as int)),
{
    let ghost s = b@.subrange(start as int, end as int);
    if start == end {
        return None;
    }
    let mut value: u32 = 0;
    let mut i: usize = start;
    while i < end
        invariant
            start <= i <= end <= b@.len(),
            s == b@.subrange(start as int, end as int),
            value == capped_decimal(s.subrange(0, i - start)),
            value <= 65536,
            forall|j: int| 0 <= j < i - start ==> is_digit(#[trigger] s[j]),
        decreases end - i,
    {
        let d = b[i];
        if d < 48 || d > 57 {
            assert(!is_digit(s[i - start]));
            return None;
        }
        let v = value * 10 + (d - 48) as u32;
        value = if v > 65536 {
            65536
        } else {
            v
        };
        assert(s.subrange(0, i + 1 - start).drop_last() =~= s.subrange(0, i - start));
        i += 1;
    }
    assert(s.subrange(0, end - start) =~= s);
    if value < 65536 {
        Some(value as u16)
    } else {
        None
    }
}

/// Reads one line of the client's command syntax into the kind of request,
/// its destination id (0 when it has none) and its text.
pub fn create_command(input: &String) -> (r: (MessageType, u16, String))
    ensures
        (r.0, r.1, r.2@) == command_of(input@),
{
    let line = trim_text(input);
    let b = line.as_str().as_bytes_vec();
    let ghost bs = b@;
    assert(bs == encode_utf8(trimmed(input@)));
    if b.len() >= 4 && b[0] == 109 && b[1] == 115 && b[2] == 103 && b[3] == 32 {
        assert(bs.subrange(0, 4) =~= msg_prefix());
        let mut start: usize = 4;
        while start < b.len() && b[start] == 32
            invariant
                4 <= start <= b@.len(),
                skip_spaces(bs, 4) == skip_spaces(bs, start as int),
                b@ == bs,
            decreases b@.len() - start,
        {
            start += 1;
        }
        let mut end: usize = start;
        while end < b.len() && b[end] != 32
            invariant
                start <= end <= b@.len(),
                next_space(bs, start as int) == next_space(bs, end as int),
                b@ == bs,
            decreases b@.len() - end,
        {
            end += 1;
        }
        match parse_digits(&b, start, end) {
            Some(id) => {
                if end < b.len() {
                    let mut rest: Vec<u8> = Vec::new();
                    let mut i: usize = end + 1;
                    while i < b.len()
                        invariant
                            end + 1 <= i <= b@.len(),
                            b@ == bs,
                            rest@ == bs.subrange(end + 1, i as int),
                        decreases b@.len() - i,
                    {
                        rest.push(b[i]);
                        assert(rest@ =~= bs.subrange(end + 1, i + 1));
                        i += 1;
                    }
                    let content = text_from_bytes(&rest);
                    (MessageType::Text, id, content)
                } else {
                    (MessageType::Error, 0, String::new())
                }
            },
            None => (MessageType::Error, 0, String::new()),
        }
    } else {
        if b.len() >= 4 {
            assert(bs.subrange(0, 4) != msg_prefix()) by {
                if bs.subrange(0, 4) == msg_prefix() {
                    assert(bs[0] == bs.subrange(0, 4)[0]);
                    assert(bs[1] == bs.subrange(0, 4)[1]);
                    assert(bs[2] == bs.subrange(0, 4)[2]);
                    assert(bs[3] == bs.subrange(0, 4)[3]);
                }
            }
        }
        (MessageType::SetName, 0, line)
    }
}

} // verus!
