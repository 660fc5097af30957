use vstd::prelude::*;
use vstd::string::StringSliceAdditionalSpecFns;
use vstd::utf8::{
    encode_utf8, encode_utf8_valid_utf8, is_char_boundary, length_of_first_scalar,
    pop_first_scalar, valid_utf8,
};

verus! {

/// When a logged frame was received: seconds and the sub-second part as printed.
#[derive(Debug, Clone, Copy, PartialEq, Eq, Structural)]
pub struct Timestamp {
    pub seconds: u64,
    pub nanos: u64,
}

/// A logged frame: its identifier and its body read as one hexadecimal number.
#[derive(Debug, Clone, Copy, PartialEq, Eq, Structural)]
pub struct CanFrame {
    pub frame_id: u32,
    pub frame_body: u64,
}

/// One line of a candump log.
#[derive(Debug, PartialEq, Eq)]
pub struct DumpEntry {
    pub timestamp: Timestamp,
    pub can_interface: String,
    pub can_frame: CanFrame,
}

/// The line does not match the candump grammar.
#[derive(Debug, Clone, Copy, PartialEq, Eq, Structural)]
pub struct ParseError;

/// The classes of characters that the grammar reads in runs.
#[derive(Debug, Clone, Copy, PartialEq, Eq, Structural)]
pub enum CharClass {
    Digit,
    HexDigit,
    Alphanumeric,
    Space,
}

pub open spec fn class_has(c: u8, class: CharClass) -> bool {
    match class {
        CharClass::Digit => 0x30 <= c <= 0x39,
        CharClass::HexDigit => (0x30 <= c <= 0x39) || (0x41 <= c <= 0x46) || (0x61 <= c <= 0x66),
        CharClass::Alphanumeric => (0x30 <= c <= 0x39) || (0x41 <= c <= 0x5a) || (0x61 <= c
            <= 0x7a),
        CharClass::Space => c == 0x20 || c == 0x09,
    }
}

/// The end of the longest run of `class` characters that starts at `i`.
pub open spec fn run_end(b: Seq<u8>, i: int, class: CharClass) -> int
    decreases b.len() - i,
{
    if 0 <= i < b.len() && class_has(b[i], class) {
        run_end(b, i + 1, class)
    } else {
        i
    }
}

/// The value of a hexadecimal or decimal digit.
pub open spec fn digit_of(c: u8) -> nat {
    if 0x30 <= c <= 0x39 {
        (c - 0x30) as nat
    } else if 0x41 <= c <= 0x46 {
        (c - 0x37) as nat
    } else {
        (c - 0x57) as nat
    }
}

/// The number that a string of digits writes in the given radix.
pub open spec fn digits_value(s: Seq<u8>, radix: nat) -> nat
    decreases s.len(),
{
    if s.len() == 0 {
        0
    } else {
        digits_value(s.drop_last(), radix) * radix + digit_of(s.last())
    }
}

pub open spec fn seconds_end(b: Seq<u8>) -> int {
    run_end(b, 1, CharClass::Digit)
}

pub open spec fn nanos_end(b: Seq<u8>) -> int {
    run_end(b, seconds_end(b) + 1, CharClass::Digit)
}

pub open spec fn interface_start(b: Seq<u8>) -> int {
    run_end(b, nanos_end(b) + 1, CharClass::Space)
}

pub open spec fn interface_end(b: Seq<u8>) -> int {
    run_end(b, interface_start(b), CharClass::Alphanumeric)
}

pub open spec fn id_start(b: Seq<u8>) -> int {
    run_end(b, interface_end(b), CharClass::Space)
}

pub open spec fn id_end(b: Seq<u8>) -> int {
    run_end(b, id_start(b), CharClass::HexDigit)
}

pub open spec fn body_end(b: Seq<u8>) -> int {
    run_end(b, id_end(b) + 1, CharClass::HexDigit)
}

pub open spec fn seconds_of(b: Seq<u8>) -> nat {
    digits_value(b.subrange(1, seconds_end(b)), 10)
}

pub open spec fn nanos_of(b: Seq<u8>) -> nat {
    digits_value(b.subrange(seconds_end(b) + 1, nanos_end(b)), 10)
}

pub open spec fn interface_of(b: Seq<u8>) -> Seq<u8> {
    b.subrange(interface_start(b), interface_end(b))
}

pub open spec fn frame_id_of(b: Seq<u8>) -> nat {
    digits_value(b.subrange(id_start(b), id_end(b)), 16)
}

pub open spec fn frame_body_of(b: Seq<u8>) -> nat {
    digits_value(b.subrange(id_end(b) + 1, body_end(b)), 16)
}

/// The line starts with `(seconds.nanos) interface id#body`: spaces or tabs
/// may stand around the interface, each number fits its type.
pub open spec fn line_matches(b: Seq<u8>) -> bool {
    &&& b.len() > 0 && b[0] == 0x28
    &&& 1 < seconds_end(b) < b.len() && b[seconds_end(b)] == 0x2e
    &&& seconds_end(b) + 1 < nanos_end(b) < b.len() && b[nanos_end(b)] == 0x29
    &&& interface_start(b) < interface_end(b)
    &&& id_start(b) < id_end(b) < b.len() && b[id_end(b)] == 0x23
    &&& id_end(b) + 1 < body_end(b)
    &&& seconds_of(b) <= u64::MAX
    &&& nanos_of(b) <= u64::MAX
    &&& frame_id_of(b) <= u32::MAX
    &&& frame_body_of(b) <= u64::MAX
}

fn class_contains(c: u8, class: CharClass) -> (r: bool)
    ensures
        r == class_has(c, class),
{
    match class {
        CharClass::Digit => 0x30 <= c && c <= 0x39,
        CharClass::HexDigit => (0x30 <= c && c <= 0x39) || (0x41 <= c && c <= 0x46) || (0x61 <= c
            && c <= 0x66),
        CharClass::Alphanumeric => (0x30 <= c && c <= 0x39) || (0x41 <= c && c <= 0x5a) || (0x61
            <= c && c <= 0x7a),
        CharClass::Space => c == 0x20 || c == 0x09,
    }
}

fn scan_run(b: &[u8], i: usize, class: CharClass) -> (r: usize)
    requires
        i <= b@.len(),
    ensures
        r == run_end(b@, i as int, class),
        i <= r <= b@.len(),
{
    let mut j: usize = i;
    while j < b.len() && class_contains(b[j], class)
        invariant
            i <= j <= b@.len(),
            run_end(b@, i as int, class) == run_end(b@, j as int, class),
        decreases b@.len() - j,
    {
        j += 1;
    }
    j
}

proof fn lemma_prefix_value_le(s: Seq<u8>, k: int, radix: nat)
    requires
        0 <= k <= s.len(),
        radix >= 1,
    ensures
        digits_value(s.subrange(0, k), radix) <= digits_value(s, radix),
    decreases s.len(),
{
    if k == s.len() {
        assert(s.subrange(0, k) =~= s);
    } else {
        let init = s.drop_last();
        lemma_prefix_value_le(init, k, radix);
        assert(init.subrange(0, k) =~= s.subrange(0, k));
        let v = digits_value(init, radix);
        assert(v * radix + digit_of(s.last()) >= v) by (nonlinear_arith)
            requires
                radix >= 1,
        ;
    }
}

/// Reads the digits `b[start..end]` as a number of at most `max`.
fn parse_number(b: &[u8], start: usize, end: usize, radix: u64, max: u64) -> (r: Option<u64>)
    requires
        start <= end <= b@.len(),
        radix == 10 || radix == 16,
        forall|k: int|
            start <= k < end ==> class_has(
                #[trigger] b@[k],
                if radix == 10 {
                    CharClass::Digit
                } else {
                    CharClass::HexDigit
                },
            ),
    ensures
        digits_value(b@.subrange(start as int, end as int), radix as nat) <= max ==> r == Some(
            digits_value(b@.subrange(start as int, end as int), radix as nat) as u64,
        ),
        digits_value(b@.subrange(start as int, end as int), radix as nat) > max ==> r is None,
{
    let ghost whole = b@.subrange(start as int, end as int);
    let mut acc: u64 = 0;
    let mut i: usize = start;
    assert(b@.subrange(start as int, start as int) =~= Seq::<u8>::empty());
    while i < end
        invariant
            start <= i <= end <= b@.len(),
            radix == 10 || radix == 16,
            whole == b@.subrange(start as int, end as int),
            forall|k: int|
                start <= k < end ==> class_has(
                    #[trigger] b@[k],
                    if radix == 10 {
                        CharClass::Digit
                    } else {
                        CharClass::HexDigit
                    },
                ),
            acc as nat == digits_value(b@.subrange(start as int, i as int), radix as nat),
            acc <= max,
        decreases end - i,
    {
        let c = b[i];
        let d: u64 = if c <= 0x39 {
            (c - 0x30) as u64
        } else if c <= 0x46 {
            (c - 0x37) as u64
        } else {
            (c - 0x57) as u64
        };
        let ghost next = b@.subrange(start as int, i + 1);
        assert(next.drop_last() =~= b@.subrange(start as int, i as int));
        assert(d == digit_of(c));
        proof {
            lemma_prefix_value_le(whole, i + 1 - start, radix as nat);
            assert(whole.subrange(0, i + 1 - start) =~= next);
        }
        match acc.checked_mul(radix) {
            None => {
                return None;
            },
            Some(m) => match m.checked_add(d) {
                None => {
                    return None;
                },
                Some(v) => {
                    if v > max {
                        return None;
                    }
                    acc = v;
                },
            },
        }
        i += 1;
    }
    assert(b@.subrange(start as int, i as int) =~= whole);
    Some(acc)
}

proof fn lemma_boundary_after_ascii(b: Seq<u8>, i: int)
    requires
        valid_utf8(b),
        0 < i <= b.len(),
        b[i - 1] < 0x80,
    ensures
        is_char_boundary(b, i),
    decreases b.len(),
{
    let l = length_of_first_scalar(b);
    let rest = pop_first_scalar(b);
    assert(rest.len() == b.len() - l);
    if i - 1 < l {
        assert(i == 1 && l == 1);
        assert(is_char_boundary(rest, 0));
    } else {
        assert(rest[i - l - 1] == b[i - 1]);
        lemma_boundary_after_ascii(rest, i - l);
    }
}

/// Parses one candump log line, `(seconds.nanos) interface id#body`, and
/// returns what follows the frame body together with the entry.
pub fn dump_entry(input: &str) -> (r: Result<(&str, DumpEntry), ParseError>)
    ensures
        r is Ok <==> line_matches(input.spec_bytes()),
        r matches Ok((rest, e)) ==> {
            let b = input.spec_bytes();
            &&& rest.spec_bytes() == b.subrange(body_end(b), b.len() as int)
            &&& e.timestamp.seconds == seconds_of(b)
            &&& e.timestamp.nanos == nanos_of(b)
            &&& encode_utf8(e.can_interface@) == interface_of(b)
            &&& e.can_frame.frame_id == frame_id_of(b)
            &&& e.can_frame.frame_body == frame_body_of(b)
        },
{
    let b = input.as_bytes();
    let ghost bs = b@;
    proof {
        encode_utf8_valid_utf8(input@);
    }
    let n = b.len();
    if n == 0 || b[0] != 0x28 {
        return Err(ParseError);
    }
    let sec_end = scan_run(b, 1, CharClass::Digit);
    if sec_end == 1 || sec_end >= n || b[sec_end] != 0x2e {
        return Err(ParseError);
    }
    let nan_end = scan_run(b, sec_end + 1, CharClass::Digit);
    if nan_end == sec_end + 1 || nan_end >= n || b[nan_end] != 0x29 {
        return Err(ParseError);
    }
    let if_start = scan_run(b, nan_end + 1, CharClass::Space);
    let if_end = scan_run(b, if_start, CharClass::Alphanumeric);
    if if_end == if_start {
        return Err(ParseError);
    }
    let fid_start = scan_run(b, if_end, CharClass::Space);
    let fid_end = scan_run(b, fid_start, CharClass::HexDigit);
    if fid_end == fid_start || fid_end >= n || b[fid_end] != 0x23 {
        return Err(ParseError);
    }
    let fb_end = scan_run(b, fid_end + 1, CharClass::HexDigit);
    if fb_end == fid_end + 1 {
        return Err(ParseError);
    }
    proof {
        lemma_run_members(bs, 1, CharClass::Digit);
        lemma_run_members(bs, sec_end + 1, CharClass::Digit);
        lemma_run_members(bs, if_start as int, CharClass::Alphanumeric);
        lemma_run_members(bs, fid_start as int, CharClass::HexDigit);
        lemma_run_members(bs, fid_end + 1, CharClass::HexDigit);
    }
    let seconds = match parse_number(b, 1, sec_end, 10, u64::MAX) {
        Some(v) => v,
        None => {
            return Err(ParseError);
        },
    };
    let nanos = match parse_number(b, sec_end + 1, nan_end, 10, u64::MAX) {
        Some(v) => v,
        None => {
            return Err(ParseError);
        },
    };
    let frame_id = match parse_number(b, fid_start, fid_end, 16, 0xffff_ffff) {
        Some(v) => v as u32,
        None => {
            return Err(ParseError);
        },
    };
    let frame_body = match parse_number(b, fid_end + 1, fb_end, 16, u64::MAX) {
        Some(v) => v,
        None => {
            return Err(ParseError);
        },
    };
    proof {
        lemma_boundary_after_ascii(bs, fb_end as int);
    }
    let (head, rest) = input.split_at(fb_end);
    proof {
        encode_utf8_valid_utf8(head@);
        assert(head.spec_bytes() =~= bs.subrange(0, fb_end as int));
        lemma_boundary_after_ascii(head.spec_bytes(), if_end as int);
    }
    let (line_head, _) = head.split_at(if_end);
    proof {
        encode_utf8_valid_utf8(line_head@);
        assert(line_head.spec_bytes() =~= bs.subrange(0, if_end as int));
        lemma_run_members(bs, nan_end + 1, CharClass::Space);
        if if_start > nan_end + 1 {
            assert(class_has(bs[if_start - 1], CharClass::Space));
        }
        assert(bs[if_start - 1] < 0x80);
        lemma_boundary_after_ascii(line_head.spec_bytes(), if_start as int);
    }
    let (_, name) = line_head.split_at(if_start);
    assert(name.spec_bytes() =~= bs.subrange(if_start as int, if_end as int));
    let entry = DumpEntry {
        timestamp: Timestamp { seconds, nanos },
        can_interface: name.to_owned(),
        can_frame: CanFrame { frame_id, frame_body },
    };
    Ok((rest, entry))
}

proof fn lemma_run_members(b: Seq<u8>, i: int, class: CharClass)
    requires
        0 <= i <= b.len(),
    ensures
        forall|k: int| i <= k < run_end(b, i, class) ==> class_has(#[trigger] b[k], class),
        i <= run_end(b, i, class) <= b.len(),
    decreases b.len() - i,
{
    if i < b.len() && class_has(b[i], class) {
        lemma_run_members(b, i + 1, class);
    }
}

impl DumpEntry {
    pub fn timestamp(&self) -> (r: &Timestamp)
        ensures
            *r == self.timestamp,
    {
        &self.timestamp
    }

    pub fn can_interface(&self) -> (r: &str)
        ensures
            r@ == self.can_interface@,
    {
        self.can_interface.as_str()
    }

    pub fn can_frame(&self) -> (r: &CanFrame)
        ensures
            *r == self.can_frame,
    {
        &self.can_frame
    }
}

} // verus!
