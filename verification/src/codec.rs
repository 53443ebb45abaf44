use vstd::prelude::*;
use crate::color::Color;
use crate::segment::Segment;
use crate::registry::{Registry, distinct_keys, find_key};

verus! {

// ---------------------------------------------------------------------------
// The wire format.
//
// A registry travels — over the configuration API and into the persisted
// blob — as one JSON object keyed by segment identifier:
//
//   {"id":{"length":1,"mirrored":false,"start_color":[255,150,0],
//          "end_color":[255,10,120],"phase_offset":0,"period":100,
//          "brightness":40}, ...}
//
// The serializer emits this canonical compact form: fixed field order, no
// whitespace, quote and backslash escaped with a backslash, control
// characters written as `\u00XX`. The parser accepts the wider JSON shape:
// insignificant whitespace between tokens, segment fields in any order
// (each exactly once), and the standard string escapes, including `\uXXXX`
// for non-surrogate code points. A missing, repeated or unknown field, an
// unsupported escape, a surrogate code point, a number out of range, or a
// repeated identifier is malformed. Both directions are specified against
// the spec-level functions here, and `lemma_codec_round_trip` proves that
// parsing a serialized registry gives back exactly its entries.
// ---------------------------------------------------------------------------

/// The decimal digit character for `d` (0 to 9).
pub open spec fn digit_char(d: int) -> char {
    if d == 0 {
        '0'
    } else if d == 1 {
        '1'
    } else if d == 2 {
        '2'
    } else if d == 3 {
        '3'
    } else if d == 4 {
        '4'
    } else if d == 5 {
        '5'
    } else if d == 6 {
        '6'
    } else if d == 7 {
        '7'
    } else if d == 8 {
        '8'
    } else {
        '9'
    }
}

pub open spec fn is_digit(c: char) -> bool {
    '0' <= c && c <= '9'
}

/// The numeric value of a digit character.
pub open spec fn char_digit(c: char) -> int {
    c as int - '0' as int
}

/// JSON insignificant whitespace.
pub open spec fn is_ws(c: char) -> bool {
    c == ' ' || c == '\t' || c == '\n' || c == '\r'
}

/// Index of the first non-whitespace character at or after `i`.
pub open spec fn ws_end(s: Seq<char>, i: int) -> int
    decreases s.len() - i when 0 <= i <= s.len()
{
    if i < s.len() && is_ws(s[i]) {
        ws_end(s, i + 1)
    } else {
        i
    }
}

/// A character's code point.
pub open spec fn code(c: char) -> int {
    (c as u32) as int
}

/// The character with code point `v` (meaningful when such a character
/// exists: `v` in range and not a surrogate).
pub open spec fn char_of(v: int) -> char {
    choose|c: char| code(c) == v
}

/// Value of a hexadecimal digit character, or -1.
pub open spec fn hex_val(c: char) -> int {
    if '0' <= c && c <= '9' {
        c as int - '0' as int
    } else if 'a' <= c && c <= 'f' {
        10 + c as int - 'a' as int
    } else if 'A' <= c && c <= 'F' {
        10 + c as int - 'A' as int
    } else {
        -1
    }
}

/// The lowercase hexadecimal digit character for `d` (0 to 15).
pub open spec fn hex_char(d: int) -> char {
    if d < 10 {
        digit_char(d)
    } else if d == 10 {
        'a'
    } else if d == 11 {
        'b'
    } else if d == 12 {
        'c'
    } else if d == 13 {
        'd'
    } else if d == 14 {
        'e'
    } else {
        'f'
    }
}

/// What a single-character JSON escape `\c` stands for, if it is one.
pub open spec fn esc_code(c: char) -> Option<char> {
    if c == '"' {
        Some('"')
    } else if c == '\\' {
        Some('\\')
    } else if c == '/' {
        Some('/')
    } else if c == 'n' {
        Some('\n')
    } else if c == 't' {
        Some('\t')
    } else if c == 'r' {
        Some('\r')
    } else if c == 'b' {
        Some('\u{08}')
    } else if c == 'f' {
        Some('\u{0C}')
    } else {
        None
    }
}

/// Decimal representation of a nonnegative integer, most significant digit
/// first, no leading zeros.
pub open spec fn ser_nat(n: int) -> Seq<char>
    recommends
        n >= 0,
    decreases n,
{
    if n < 10 {
        seq![digit_char(n)]
    } else {
        ser_nat(n / 10).push(digit_char(n % 10))
    }
}

pub open spec fn ser_bool(b: bool) -> Seq<char> {
    if b {
        "true"@
    } else {
        "false"@
    }
}

/// One identifier character as it appears inside a quoted JSON string:
/// quote and backslash take a backslash, control characters take the
/// `\u00XX` form, all else is verbatim.
pub open spec fn esc_char(c: char) -> Seq<char> {
    if c == '"' || c == '\\' {
        seq!['\\', c]
    } else if (c as u32) < 32 {
        seq!['\\', 'u', '0', '0', hex_char((c as u32) as int / 16), hex_char((c as u32) as int % 16)]
    } else {
        seq![c]
    }
}

/// The body of a quoted string: each character escaped as needed.
pub open spec fn ser_str_body(t: Seq<char>) -> Seq<char>
    decreases t.len(),
{
    if t.len() == 0 {
        Seq::empty()
    } else {
        esc_char(t[0]) + ser_str_body(t.drop_first())
    }
}

pub open spec fn ser_color(c: Color) -> Seq<char> {
    seq!['['] + ser_nat(c.red as int) + seq![','] + ser_nat(c.green as int) + seq![','] + ser_nat(
        c.blue as int,
    ) + seq![']']
}

pub open spec fn lbl_length() -> Seq<char> {
    "{\"length\":"@
}

pub open spec fn lbl_mirrored() -> Seq<char> {
    ",\"mirrored\":"@
}

pub open spec fn lbl_start_color() -> Seq<char> {
    ",\"start_color\":"@
}

pub open spec fn lbl_end_color() -> Seq<char> {
    ",\"end_color\":"@
}

pub open spec fn lbl_phase_offset() -> Seq<char> {
    ",\"phase_offset\":"@
}

pub open spec fn lbl_period() -> Seq<char> {
    ",\"period\":"@
}

pub open spec fn lbl_brightness() -> Seq<char> {
    ",\"brightness\":"@
}

pub open spec fn ser_segment(s: Segment) -> Seq<char> {
    lbl_length() + ser_nat(s.length as int) + lbl_mirrored() + ser_bool(s.mirrored)
        + lbl_start_color() + ser_color(s.start_color) + lbl_end_color() + ser_color(s.end_color)
        + lbl_phase_offset() + ser_nat(s.phase_offset as int) + lbl_period() + ser_nat(
        s.period as int,
    ) + lbl_brightness() + ser_nat(s.brightness as int) + seq!['}']
}

/// One registry entry: quoted identifier, colon, segment object.
pub open spec fn ser_entry(e: (Seq<char>, Segment)) -> Seq<char> {
    seq!['"'] + ser_str_body(e.0) + seq!['"', ':'] + ser_segment(e.1)
}

/// Entries from index `k` on, each preceded by a comma.
pub open spec fn ser_rest(es: Seq<(Seq<char>, Segment)>, k: int) -> Seq<char>
    decreases es.len() - k when 0 <= k <= es.len()
{
    if k >= es.len() {
        Seq::empty()
    } else {
        seq![','] + ser_entry(es[k]) + ser_rest(es, k + 1)
    }
}

/// The full serialized registry.
pub open spec fn ser_registry(es: Seq<(Seq<char>, Segment)>) -> Seq<char> {
    if es.len() == 0 {
        seq!['{', '}']
    } else {
        seq!['{'] + ser_entry(es[0]) + ser_rest(es, 1) + seq!['}']
    }
}

// ---------------------------------------------------------------------------
// Serializer.
// ---------------------------------------------------------------------------

/// Relies on `String::push`: appends exactly one character.
#[verifier::external_body]
fn push_char(out: &mut String, c: char)
    ensures
        final(out)@ == old(out)@.push(c),
{
    out.push(c);
}

/// The digit character for an integer below ten.
fn digit_exec(d: u64) -> (c: char)
    requires
        d < 10,
    ensures
        c == digit_char(d as int),
{
    if d == 0 {
        '0'
    } else if d == 1 {
        '1'
    } else if d == 2 {
        '2'
    } else if d == 3 {
        '3'
    } else if d == 4 {
        '4'
    } else if d == 5 {
        '5'
    } else if d == 6 {
        '6'
    } else if d == 7 {
        '7'
    } else if d == 8 {
        '8'
    } else {
        '9'
    }
}

/// The lowercase hexadecimal digit character for an integer below sixteen.
fn hex_char_exec(d: u64) -> (c: char)
    requires
        d < 16,
    ensures
        c == hex_char(d as int),
{
    if d < 10 {
        digit_exec(d)
    } else if d == 10 {
        'a'
    } else if d == 11 {
        'b'
    } else if d == 12 {
        'c'
    } else if d == 13 {
        'd'
    } else if d == 14 {
        'e'
    } else {
        'f'
    }
}

/// Appends the decimal representation of `n`.
fn write_nat(out: &mut String, n: u64)
    ensures
        final(out)@ == old(out)@ + ser_nat(n as int),
    decreases n,
{
    if n < 10 {
        let c = digit_exec(n);
        push_char(out, c);
        proof {
            assert(final(out)@ =~= old(out)@ + ser_nat(n as int));
        }
    } else {
        write_nat(out, n / 10);
        let c = digit_exec(n % 10);
        push_char(out, c);
        proof {
            assert(final(out)@ =~= old(out)@ + ser_nat(n as int));
        }
    }
}

/// Elapsed time as a decimal string: the body of the `GET /now` response.
pub fn format_millis(ms: u64) -> (r: String)
    ensures
        r@ == ser_nat(ms as int),
{
    let mut out = String::new();
    write_nat(&mut out, ms);
    proof {
        assert(out@ =~= ser_nat(ms as int));
    }
    out
}

/// Appends `true` or `false`.
fn write_bool(out: &mut String, b: bool)
    ensures
        final(out)@ == old(out)@ + ser_bool(b),
{
    if b {
        out.append("true");
    } else {
        out.append("false");
    }
}

/// Appends the escaped body of the identifier `t`.
fn write_str_body(out: &mut String, t: &str)
    ensures
        final(out)@ == old(out)@ + ser_str_body(t@),
{
    let n = t.unicode_len();
    let mut i: usize = 0;
    proof {
        assert(old(out)@ + ser_str_body(t@.take(0)) =~= old(out)@);
    }
    while i < n
        invariant
            n == t@.len(),
            i <= n,
            out@ == old(out)@ + ser_str_body(t@.take(i as int)),
        decreases n - i,
    {
        let c = t.get_char(i);
        if c == '"' || c == '\\' {
            push_char(out, '\\');
            push_char(out, c);
        } else if (c as u32) < 32 {
            let v: u64 = (c as u32) as u64;
            push_char(out, '\\');
            push_char(out, 'u');
            push_char(out, '0');
            push_char(out, '0');
            let h = hex_char_exec(v / 16);
            push_char(out, h);
            let l = hex_char_exec(v % 16);
            push_char(out, l);
        } else {
            push_char(out, c);
        }
        proof {
            lemma_ser_str_body_append(t@.take(i as int), t@[i as int]);
            assert(t@.take(i + 1) =~= t@.take(i as int).push(t@[i as int]));
            assert(out@ =~= old(out)@ + ser_str_body(t@.take(i + 1)));
        }
        i = i + 1;
    }
    proof {
        assert(t@.take(n as int) =~= t@);
    }
}

/// Serializing one more character appends its escape sequence.
proof fn lemma_ser_str_body_append(t: Seq<char>, c: char)
    ensures
        ser_str_body(t.push(c)) == ser_str_body(t) + esc_char(c),
    decreases t.len(),
{
    if t.len() == 0 {
        assert(t.push(c).drop_first() =~= Seq::<char>::empty());
        assert(ser_str_body(Seq::<char>::empty()) =~= Seq::<char>::empty());
        assert(t.push(c)[0] == c);
        assert(ser_str_body(t.push(c)) =~= ser_str_body(t) + esc_char(c));
    } else {
        assert(t.push(c).drop_first() =~= t.drop_first().push(c));
        lemma_ser_str_body_append(t.drop_first(), c);
        assert(ser_str_body(t.push(c)) =~= ser_str_body(t) + esc_char(c));
    }
}

/// Appends a color as a three-element JSON array.
fn write_color(out: &mut String, c: Color)
    ensures
        final(out)@ == old(out)@ + ser_color(c),
{
    push_char(out, '[');
    write_nat(out, c.red as u64);
    push_char(out, ',');
    write_nat(out, c.green as u64);
    push_char(out, ',');
    write_nat(out, c.blue as u64);
    push_char(out, ']');
    proof {
        assert(final(out)@ =~= old(out)@ + ser_color(c));
    }
}

/// Appends one segment as a JSON object with a fixed field order.
fn write_segment(out: &mut String, s: Segment)
    ensures
        final(out)@ == old(out)@ + ser_segment(s),
{
    out.append("{\"length\":");
    write_nat(out, s.length as u64);
    out.append(",\"mirrored\":");
    write_bool(out, s.mirrored);
    out.append(",\"start_color\":");
    write_color(out, s.start_color);
    out.append(",\"end_color\":");
    write_color(out, s.end_color);
    out.append(",\"phase_offset\":");
    write_nat(out, s.phase_offset as u64);
    out.append(",\"period\":");
    write_nat(out, s.period as u64);
    out.append(",\"brightness\":");
    write_nat(out, s.brightness as u64);
    push_char(out, '}');
    proof {
        assert(final(out)@ =~= old(out)@ + ser_segment(s));
    }
}

/// Appends one entry: quoted identifier, colon, segment.
fn write_entry(out: &mut String, id: &str, s: Segment)
    ensures
        final(out)@ == old(out)@ + ser_entry((id@, s)),
{
    push_char(out, '"');
    write_str_body(out, id);
    push_char(out, '"');
    push_char(out, ':');
    write_segment(out, s);
    proof {
        assert(final(out)@ =~= old(out)@ + ser_entry((id@, s)));
    }
}

/// Serializes the full registry to its JSON form: the body of the
/// `GET /data` response and the persisted blob.
pub fn serialize_registry(reg: &Registry) -> (r: String)
    ensures
        r@ == ser_registry(reg@),
{
    let entries = reg.entries();
    let n = entries.len();
    let mut out = String::new();
    push_char(&mut out, '{');
    if n > 0 {
        let e0 = &entries[0];
        write_entry(&mut out, e0.0.as_str(), e0.1);
        proof {
            assert((entries@[0].0@, entries@[0].1) == reg@[0]);
            assert(out@ =~= seq!['{'] + ser_entry(reg@[0]) + ser_rest(reg@, 1).take(0));
        }
        let mut k: usize = 1;
        while k < n
            invariant
                n == entries@.len(),
                n == reg@.len(),
                1 <= k <= n,
                forall|i: int| 0 <= i < n ==> ((#[trigger] entries@[i]).0@, entries@[i].1) == reg@[i],
                out@ + ser_rest(reg@, k as int) == seq!['{'] + ser_entry(reg@[0]) + ser_rest(
                    reg@,
                    1,
                ),
            decreases n - k,
        {
            let ghost pre = out@;
            push_char(&mut out, ',');
            let e = &entries[k];
            write_entry(&mut out, e.0.as_str(), e.1);
            proof {
                assert((entries@[k as int].0@, entries@[k as int].1) == reg@[k as int]);
                assert(out@ =~= pre + (seq![','] + ser_entry(reg@[k as int])));
                assert(ser_rest(reg@, k as int) == seq![','] + ser_entry(reg@[k as int])
                    + ser_rest(reg@, k as int + 1));
                assert(out@ + ser_rest(reg@, k as int + 1) =~= pre + ser_rest(reg@, k as int));
            }
            k = k + 1;
        }
        proof {
            assert(ser_rest(reg@, n as int) =~= Seq::<char>::empty());
            assert(out@ =~= seq!['{'] + ser_entry(reg@[0]) + ser_rest(reg@, 1));
        }
    }
    push_char(&mut out, '}');
    proof {
        if reg@.len() == 0 {
            assert(out@ =~= ser_registry(reg@));
        } else {
            assert(out@ =~= ser_registry(reg@));
        }
    }
    out
}


// ---------------------------------------------------------------------------
// Parser: specification level.
//
// Each combinator takes the input and a start index and yields the parsed
// value with the index just past it, or nothing if the input is malformed
// there.
// ---------------------------------------------------------------------------

/// Fixed text: succeeds exactly when `lit` occurs at `i`.
pub open spec fn sp_lit(s: Seq<char>, i: int, lit: Seq<char>) -> Option<int> {
    if 0 <= i && i + lit.len() <= s.len() && s.subrange(i, i + lit.len()) == lit {
        Some(i + lit.len())
    } else {
        None
    }
}

/// End of the run of decimal digits starting at `i`.
pub open spec fn digits_end(s: Seq<char>, i: int) -> int
    decreases s.len() - i when 0 <= i <= s.len()
{
    if i < s.len() && is_digit(s[i]) {
        digits_end(s, i + 1)
    } else {
        i
    }
}

/// Numeric value of a digit sequence, most significant digit first.
pub open spec fn digits_val(d: Seq<char>) -> int
    decreases d.len(),
{
    if d.len() == 0 {
        0
    } else {
        digits_val(d.drop_last()) * 10 + char_digit(d.last())
    }
}

/// A decimal number that fits in a `u32`: at least one digit, value in
/// range. Leading zeros are tolerated.
pub open spec fn sp_u32(s: Seq<char>, i: int) -> Option<(u32, int)> {
    let e = digits_end(s, i);
    if e == i {
        None
    } else if digits_val(s.subrange(i, e)) <= u32::MAX {
        Some((digits_val(s.subrange(i, e)) as u32, e))
    } else {
        None
    }
}

/// A decimal number that fits in a `u8`.
pub open spec fn sp_u8(s: Seq<char>, i: int) -> Option<(u8, int)> {
    match sp_u32(s, i) {
        Some((v, j)) => if v <= 255 {
            Some((v as u8, j))
        } else {
            None
        },
        None => None,
    }
}

pub open spec fn sp_bool(s: Seq<char>, i: int) -> Option<(bool, int)> {
    match sp_lit(s, i, "true"@) {
        Some(j) => Some((true, j)),
        None => match sp_lit(s, i, "false"@) {
            Some(j) => Some((false, j)),
            None => None,
        },
    }
}

/// A color: `[r,g,b]` with each channel in `0..=255`, whitespace allowed
/// around the numbers and commas.
pub open spec fn sp_color(s: Seq<char>, i: int) -> Option<(Color, int)> {
    if i < s.len() && s[i] == '[' {
        match sp_u8(s, ws_end(s, i + 1)) {
            Some((red, j1)) => {
                let p1 = ws_end(s, j1);
                if p1 < s.len() && s[p1] == ',' {
                    match sp_u8(s, ws_end(s, p1 + 1)) {
                        Some((green, j2)) => {
                            let p2 = ws_end(s, j2);
                            if p2 < s.len() && s[p2] == ',' {
                                match sp_u8(s, ws_end(s, p2 + 1)) {
                                    Some((blue, j3)) => {
                                        let p3 = ws_end(s, j3);
                                        if p3 < s.len() && s[p3] == ']' {
                                            Some((Color { red, green, blue }, p3 + 1))
                                        } else {
                                            None
                                        }
                                    },
                                    None => None,
                                }
                            } else {
                                None
                            }
                        },
                        None => None,
                    }
                } else {
                    None
                }
            },
            None => None,
        }
    } else {
        None
    }
}

/// The fields of a segment object as they are collected while parsing:
/// each slot is filled at most once.
#[derive(Clone, Copy)]
pub struct SegFields {
    pub length: Option<u32>,
    pub mirrored: Option<bool>,
    pub start_color: Option<Color>,
    pub end_color: Option<Color>,
    pub phase_offset: Option<u32>,
    pub period: Option<u32>,
    pub brightness: Option<u8>,
}

pub open spec fn empty_fields() -> SegFields {
    SegFields {
        length: None,
        mirrored: None,
        start_color: None,
        end_color: None,
        phase_offset: None,
        period: None,
        brightness: None,
    }
}

/// The segment a completed field set describes, if every field was given.
pub open spec fn complete_fields(a: SegFields) -> Option<Segment> {
    if a.length is Some && a.mirrored is Some && a.start_color is Some && a.end_color is Some
        && a.phase_offset is Some && a.period is Some && a.brightness is Some {
        Some(
            Segment {
                length: a.length->0,
                mirrored: a.mirrored->0,
                start_color: a.start_color->0,
                end_color: a.end_color->0,
                phase_offset: a.phase_offset->0,
                period: a.period->0,
                brightness: a.brightness->0,
            },
        )
    } else {
        None
    }
}

/// One segment field's value, dispatched on the (decoded) field name.
/// A repeated or unknown field is malformed.
pub open spec fn sp_field_value(s: Seq<char>, i: int, name: Seq<char>, acc: SegFields) -> Option<
    (SegFields, int),
> {
    if name == "length"@ {
        if acc.length is Some {
            None
        } else {
            match sp_u32(s, i) {
                Some((v, j)) => Some((SegFields { length: Some(v), ..acc }, j)),
                None => None,
            }
        }
    } else if name == "mirrored"@ {
        if acc.mirrored is Some {
            None
        } else {
            match sp_bool(s, i) {
                Some((v, j)) => Some((SegFields { mirrored: Some(v), ..acc }, j)),
                None => None,
            }
        }
    } else if name == "start_color"@ {
        if acc.start_color is Some {
            None
        } else {
            match sp_color(s, i) {
                Some((v, j)) => Some((SegFields { start_color: Some(v), ..acc }, j)),
                None => None,
            }
        }
    } else if name == "end_color"@ {
        if acc.end_color is Some {
            None
        } else {
            match sp_color(s, i) {
                Some((v, j)) => Some((SegFields { end_color: Some(v), ..acc }, j)),
                None => None,
            }
        }
    } else if name == "phase_offset"@ {
        if acc.phase_offset is Some {
            None
        } else {
            match sp_u32(s, i) {
                Some((v, j)) => Some((SegFields { phase_offset: Some(v), ..acc }, j)),
                None => None,
            }
        }
    } else if name == "period"@ {
        if acc.period is Some {
            None
        } else {
            match sp_u32(s, i) {
                Some((v, j)) => Some((SegFields { period: Some(v), ..acc }, j)),
                None => None,
            }
        }
    } else if name == "brightness"@ {
        if acc.brightness is Some {
            None
        } else {
            match sp_u8(s, i) {
                Some((v, j)) => Some((SegFields { brightness: Some(v), ..acc }, j)),
                None => None,
            }
        }
    } else {
        None
    }
}

/// One `"name": value` pair, whitespace allowed around the tokens.
pub open spec fn sp_field(s: Seq<char>, i: int, acc: SegFields) -> Option<(SegFields, int)> {
    let i0 = ws_end(s, i);
    if i0 < s.len() && s[i0] == '"' {
        match sp_str_body(s, i0 + 1) {
            Some((name, j)) => {
                let j0 = ws_end(s, j);
                if j0 < s.len() && s[j0] == ':' {
                    sp_field_value(s, ws_end(s, j0 + 1), name, acc)
                } else {
                    None
                }
            },
            None => None,
        }
    } else {
        None
    }
}

/// One or more comma-separated fields; stops at the first non-comma after a
/// field, which the position returned points at (whitespace skipped).
pub open spec fn sp_seg_fields(s: Seq<char>, i: int, acc: SegFields) -> Option<(SegFields, int)>
    decreases s.len() - i when 0 <= i <= s.len()
{
    match sp_field(s, i, acc) {
        Some((acc2, j)) => {
            let j0 = ws_end(s, j);
            if j0 < s.len() && s[j0] == ',' {
                if i < j0 + 1 && j0 + 1 <= s.len() {
                    sp_seg_fields(s, j0 + 1, acc2)
                } else {
                    None
                }
            } else {
                Some((acc2, j0))
            }
        },
        None => None,
    }
}

/// A segment object: `{` then the seven fields, in any order, each exactly
/// once, then `}`.
pub open spec fn sp_segment(s: Seq<char>, i: int) -> Option<(Segment, int)> {
    let i0 = ws_end(s, i);
    if i0 < s.len() && s[i0] == '{' {
        match sp_seg_fields(s, i0 + 1, empty_fields()) {
            Some((acc, j)) => {
                if j < s.len() && s[j] == '}' {
                    match complete_fields(acc) {
                        Some(g) => Some((g, j + 1)),
                        None => None,
                    }
                } else {
                    None
                }
            },
            None => None,
        }
    } else {
        None
    }
}

/// The body of a quoted string, starting after the opening quote and
/// consuming through the closing quote. A backslash introduces the standard
/// JSON escapes (quote, backslash, slash, n, t, r, b, f, and `uXXXX` for a
/// non-surrogate code point); any other escape, an unterminated string, and
/// a surrogate code point are malformed.
pub open spec fn sp_str_body(s: Seq<char>, i: int) -> Option<(Seq<char>, int)>
    decreases s.len() - i when 0 <= i <= s.len()
{
    if i >= s.len() {
        None
    } else if s[i] == '"' {
        Some((Seq::empty(), i + 1))
    } else if s[i] == '\\' {
        if i + 1 >= s.len() {
            None
        } else if s[i + 1] == 'u' {
            if i + 6 <= s.len() && hex_val(s[i + 2]) >= 0 && hex_val(s[i + 3]) >= 0 && hex_val(
                s[i + 4],
            ) >= 0 && hex_val(s[i + 5]) >= 0 {
                let v = hex_val(s[i + 2]) * 4096 + hex_val(s[i + 3]) * 256 + hex_val(s[i + 4]) * 16
                    + hex_val(s[i + 5]);
                if v < 0xD800 {
                    match sp_str_body(s, i + 6) {
                        Some((t, j)) => Some((seq![char_of(v)] + t, j)),
                        None => None,
                    }
                } else if v >= 0xE000 {
                    match sp_str_body(s, i + 6) {
                        Some((t, j)) => Some((seq![char_of(v)] + t, j)),
                        None => None,
                    }
                } else {
                    None
                }
            } else {
                None
            }
        } else {
            match esc_code(s[i + 1]) {
                Some(d) => match sp_str_body(s, i + 2) {
                    Some((t, j)) => Some((seq![d] + t, j)),
                    None => None,
                },
                None => None,
            }
        }
    } else {
        match sp_str_body(s, i + 1) {
            Some((t, j)) => Some((seq![s[i]] + t, j)),
            None => None,
        }
    }
}

/// One entry: quoted identifier, colon, segment object, whitespace allowed
/// around the tokens.
pub open spec fn sp_entry(s: Seq<char>, i: int) -> Option<((Seq<char>, Segment), int)> {
    let i0 = ws_end(s, i);
    if i0 < s.len() && s[i0] == '"' {
        match sp_str_body(s, i0 + 1) {
            Some((id, j)) => {
                let j0 = ws_end(s, j);
                if j0 < s.len() && s[j0] == ':' {
                    match sp_segment(s, j0 + 1) {
                        Some((g, j1)) => Some(((id, g), j1)),
                        None => None,
                    }
                } else {
                    None
                }
            },
            None => None,
        }
    } else {
        None
    }
}

/// One or more entries separated by commas; stops at the first non-comma
/// after an entry, which the position returned points at (whitespace
/// skipped).
pub open spec fn sp_entries(s: Seq<char>, i: int) -> Option<(Seq<(Seq<char>, Segment)>, int)>
    decreases s.len() - i when 0 <= i <= s.len()
{
    match sp_entry(s, i) {
        Some((e, j)) => {
            let j0 = ws_end(s, j);
            if j0 < s.len() && s[j0] == ',' {
                if i < j0 + 1 && j0 + 1 <= s.len() {
                    match sp_entries(s, j0 + 1) {
                        Some((es, j2)) => Some((seq![e] + es, j2)),
                        None => None,
                    }
                } else {
                    None
                }
            } else {
                Some((seq![e], j0))
            }
        },
        None => None,
    }
}

/// A whole registry document: `{}` or `{entry,entry,...}` with JSON
/// whitespace allowed between tokens, consuming the entire input.
pub open spec fn sp_registry(s: Seq<char>) -> Option<Seq<(Seq<char>, Segment)>> {
    let i0 = ws_end(s, 0);
    if i0 < s.len() && s[i0] == '{' {
        let i1 = ws_end(s, i0 + 1);
        if i1 < s.len() && s[i1] == '}' {
            if ws_end(s, i1 + 1) == s.len() {
                Some(Seq::empty())
            } else {
                None
            }
        } else {
            match sp_entries(s, i0 + 1) {
                Some((es, j)) => {
                    if j < s.len() && s[j] == '}' && ws_end(s, j + 1) == s.len() {
                        Some(es)
                    } else {
                        None
                    }
                },
                None => None,
            }
        }
    } else {
        None
    }
}

// ---------------------------------------------------------------------------
// Parser: executable level. Each function returns exactly what its spec
// counterpart describes.
// ---------------------------------------------------------------------------

fn is_digit_exec(c: char) -> (r: bool)
    ensures
        r == is_digit(c),
{
    '0' <= c && c <= '9'
}

/// Matches the fixed text `lit` at position `i`.
fn parse_lit(s: &str, i: usize, lit: &str) -> (r: Option<usize>)
    requires
        i <= s@.len(),
    ensures
        (match r {
            Some(j) => sp_lit(s@, i as int, lit@) == Some(j as int) && j == i + lit@.len(),
            None => sp_lit(s@, i as int, lit@) is None,
        }),
{
    let n = lit.unicode_len();
    let sl = s.unicode_len();
    if n > sl - i {
        return None;
    }
    let mut k: usize = 0;
    while k < n
        invariant
            n == lit@.len(),
            sl == s@.len(),
            i + n <= sl,
            k <= n,
            forall|m: int| 0 <= m < k ==> s@[i + m] == lit@[m],
        decreases n - k,
    {
        let cs = s.get_char(i + k);
        let cl = lit.get_char(k);
        if cs != cl {
            proof {
                assert(s@.subrange(i as int, i + n)[k as int] != lit@[k as int]);
            }
            return None;
        }
        k = k + 1;
    }
    proof {
        assert(s@.subrange(i as int, i + n) =~= lit@);
    }
    Some(i + n)
}

/// Parses a decimal number into a `u32`, rejecting values out of range.
fn parse_u32(s: &str, i: usize) -> (r: Option<(u32, usize)>)
    requires
        i <= s@.len(),
    ensures
        (match r {
            Some((v, j)) => sp_u32(s@, i as int) == Some((v, j as int)) && i < j <= s@.len(),
            None => sp_u32(s@, i as int) is None,
        }),
{
    let sl = s.unicode_len();
    let mut k: usize = i;
    let mut acc: u64 = 0;
    let mut over: bool = false;
    loop
        invariant
            sl == s@.len(),
            i <= k <= sl,
            digits_end(s@, i as int) == digits_end(s@, k as int),
            forall|m: int| i <= m < k ==> is_digit(s@[m]),
            !over ==> acc == digits_val(s@.subrange(i as int, k as int)) && acc <= u32::MAX,
            over ==> digits_val(s@.subrange(i as int, k as int)) > u32::MAX,
        decreases sl - k,
    {
        if k >= sl {
            proof {
                assert(digits_end(s@, k as int) == k);
            }
            if k == i || over {
                return None;
            }
            return Some((acc as u32, k));
        }
        let c = s.get_char(k);
        if !is_digit_exec(c) {
            proof {
                assert(digits_end(s@, k as int) == k);
            }
            if k == i || over {
                return None;
            }
            return Some((acc as u32, k));
        }
        let d: u64 = (c as u32) as u64 - 48;
        proof {
            assert(digits_end(s@, k as int) == digits_end(s@, k + 1));
            assert(s@.subrange(i as int, k + 1).drop_last() =~= s@.subrange(i as int, k as int));
            assert(d == char_digit(s@[k as int]));
        }
        if over {
        } else {
            let acc2: u64 = acc * 10 + d;
            if acc2 > 0xffff_ffffu64 {
                over = true;
                proof {
                    assert(digits_val(s@.subrange(i as int, k + 1)) == acc * 10 + d);
                }
            } else {
                acc = acc2;
            }
        }
        proof {
            if over {
                assert(digits_val(s@.subrange(i as int, k + 1)) > u32::MAX);
            }
        }
        k = k + 1;
    }
}

/// Parses a decimal number into a `u8`.
fn parse_u8(s: &str, i: usize) -> (r: Option<(u8, usize)>)
    requires
        i <= s@.len(),
    ensures
        (match r {
            Some((v, j)) => sp_u8(s@, i as int) == Some((v, j as int)) && i < j <= s@.len(),
            None => sp_u8(s@, i as int) is None,
        }),
{
    match parse_u32(s, i) {
        Some((v, j)) => {
            if v <= 255 {
                Some((v as u8, j))
            } else {
                None
            }
        },
        None => None,
    }
}

fn parse_bool(s: &str, i: usize) -> (r: Option<(bool, usize)>)
    requires
        i <= s@.len(),
    ensures
        (match r {
            Some((v, j)) => sp_bool(s@, i as int) == Some((v, j as int)) && i < j <= s@.len(),
            None => sp_bool(s@, i as int) is None,
        }),
{
    match parse_lit(s, i, "true") {
        Some(j) => {
            proof {
                reveal_strlit("true");
            }
            Some((true, j))
        },
        None => match parse_lit(s, i, "false") {
            Some(j) => {
                proof {
                    reveal_strlit("false");
                }
                Some((false, j))
            },
            None => None,
        },
    }
}

fn is_ws_exec(c: char) -> (r: bool)
    ensures
        r == is_ws(c),
{
    c == ' ' || c == '\t' || c == '\n' || c == '\r'
}

/// Index of the first non-whitespace character at or after `i`.
fn skip_ws(s: &str, i: usize) -> (r: usize)
    requires
        i <= s@.len(),
    ensures
        r == ws_end(s@, i as int),
        i <= r <= s@.len(),
{
    let sl = s.unicode_len();
    let mut k: usize = i;
    loop
        invariant
            sl == s@.len(),
            i <= k <= sl,
            ws_end(s@, i as int) == ws_end(s@, k as int),
        decreases sl - k,
    {
        if k >= sl {
            return k;
        }
        let c = s.get_char(k);
        if !is_ws_exec(c) {
            return k;
        }
        k = k + 1;
    }
}

/// Value of a hexadecimal digit character, or -1.
fn hex_val_exec(c: char) -> (r: i32)
    ensures
        r == hex_val(c),
{
    let v = c as u32;
    if 48 <= v && v <= 57 {
        (v - 48) as i32
    } else if 97 <= v && v <= 102 {
        (10 + v - 97) as i32
    } else if 65 <= v && v <= 70 {
        (10 + v - 65) as i32
    } else {
        -1
    }
}

/// Relies on `char::from_u32`: defined exactly for the valid non-surrogate
/// code points, and returns the character with that code point.
#[verifier::external_body]
fn char_from_code(v: u32) -> (r: Option<char>)
    ensures
        (r is Some) <==> (v < 0xD800 || (0xE000 <= v && v <= 0x10FFFF)),
        r is Some ==> r->0 as u32 == v && r->0 == char_of(v as int),
{
    char::from_u32(v)
}

/// What a single-character JSON escape stands for, if it is one.
fn esc_code_exec(c: char) -> (r: Option<char>)
    ensures
        r == esc_code(c),
{
    if c == '"' {
        Some('"')
    } else if c == '\\' {
        Some('\\')
    } else if c == '/' {
        Some('/')
    } else if c == 'n' {
        Some('\n')
    } else if c == 't' {
        Some('\t')
    } else if c == 'r' {
        Some('\r')
    } else if c == 'b' {
        Some('\u{08}')
    } else if c == 'f' {
        Some('\u{0C}')
    } else {
        None
    }
}

/// Parses a quoted-string body starting after the opening quote,
/// consuming through the closing quote and decoding the escapes.
fn parse_str_body(s: &str, i: usize) -> (r: Option<(String, usize)>)
    requires
        i <= s@.len(),
    ensures
        (match r {
            Some((t, j)) => sp_str_body(s@, i as int) == Some((t@, j as int)) && i < j <= s@.len(),
            None => sp_str_body(s@, i as int) is None,
        }),
{
    let sl = s.unicode_len();
    let mut k: usize = i;
    let mut acc = String::new();
    loop
        invariant
            sl == s@.len(),
            i <= k <= sl,
            (forall|t2: Seq<char>, j2: int|
                sp_str_body(s@, k as int) == Some((t2, j2)) ==> sp_str_body(s@, i as int) == Some(
                    (acc@ + t2, j2),
                )),
            sp_str_body(s@, k as int) is None ==> sp_str_body(s@, i as int) is None,
        decreases sl - k,
    {
        if k >= sl {
            return None;
        }
        let c = s.get_char(k);
        if c == '"' {
            proof {
                assert(sp_str_body(s@, k as int) == Some((Seq::<char>::empty(), k + 1)));
                assert(acc@ + Seq::<char>::empty() =~= acc@);
            }
            return Some((acc, k + 1));
        } else if c == '\\' {
            if k + 1 >= sl {
                return None;
            }
            let c2 = s.get_char(k + 1);
            if c2 == 'u' {
                if sl - k < 6 {
                    return None;
                }
                let h0 = hex_val_exec(s.get_char(k + 2));
                let h1 = hex_val_exec(s.get_char(k + 3));
                let h2 = hex_val_exec(s.get_char(k + 4));
                let h3 = hex_val_exec(s.get_char(k + 5));
                if h0 < 0 || h1 < 0 || h2 < 0 || h3 < 0 {
                    return None;
                }
                let v: u32 = (h0 as u32) * 4096 + (h1 as u32) * 256 + (h2 as u32) * 16 + (
                h3 as u32);
                let d = match char_from_code(v) {
                    Some(d) => d,
                    None => {
                        return None;
                    },
                };
                let ghost pre_acc = acc@;
                push_char(&mut acc, d);
                proof {
                    assert(d == char_of(v as int));
                    assert forall|t2: Seq<char>, j2: int|
                        sp_str_body(s@, k + 6) == Some((t2, j2)) implies sp_str_body(
                        s@,
                        i as int,
                    ) == Some((acc@ + t2, j2)) by {
                        assert(sp_str_body(s@, k as int) == Some((seq![char_of(v as int)] + t2, j2)));
                        assert(acc@ + t2 =~= pre_acc + (seq![char_of(v as int)] + t2));
                    }
                    assert(sp_str_body(s@, k + 6) is None ==> sp_str_body(s@, k as int) is None);
                }
                k = k + 6;
            } else {
                let d = match esc_code_exec(c2) {
                    Some(d) => d,
                    None => {
                        return None;
                    },
                };
                let ghost pre_acc = acc@;
                push_char(&mut acc, d);
                proof {
                    assert forall|t2: Seq<char>, j2: int|
                        sp_str_body(s@, k + 2) == Some((t2, j2)) implies sp_str_body(
                        s@,
                        i as int,
                    ) == Some((acc@ + t2, j2)) by {
                        assert(sp_str_body(s@, k as int) == Some((seq![d] + t2, j2)));
                        assert(acc@ + t2 =~= pre_acc + (seq![d] + t2));
                    }
                    assert(sp_str_body(s@, k + 2) is None ==> sp_str_body(s@, k as int) is None);
                }
                k = k + 2;
            }
        } else {
            let ghost pre_acc = acc@;
            push_char(&mut acc, c);
            proof {
                assert forall|t2: Seq<char>, j2: int|
                    sp_str_body(s@, k + 1) == Some((t2, j2)) implies sp_str_body(
                    s@,
                    i as int,
                ) == Some((acc@ + t2, j2)) by {
                    assert(sp_str_body(s@, k as int) == Some((seq![s@[k as int]] + t2, j2)));
                    assert(acc@ + t2 =~= pre_acc + (seq![s@[k as int]] + t2));
                }
            }
            k = k + 1;
        }
    }
}

fn parse_color(s: &str, i: usize) -> (r: Option<(Color, usize)>)
    requires
        i <= s@.len(),
    ensures
        (match r {
            Some((v, j)) => sp_color(s@, i as int) == Some((v, j as int)) && i < j <= s@.len(),
            None => sp_color(s@, i as int) is None,
        }),
{
    let sl = s.unicode_len();
    if i >= sl || s.get_char(i) != '[' {
        return None;
    }
    let (red, j1) = match parse_u8(s, skip_ws(s, i + 1)) {
        Some(p) => p,
        None => {
            return None;
        },
    };
    let p1 = skip_ws(s, j1);
    if p1 >= sl || s.get_char(p1) != ',' {
        return None;
    }
    let (green, j2) = match parse_u8(s, skip_ws(s, p1 + 1)) {
        Some(p) => p,
        None => {
            return None;
        },
    };
    let p2 = skip_ws(s, j2);
    if p2 >= sl || s.get_char(p2) != ',' {
        return None;
    }
    let (blue, j3) = match parse_u8(s, skip_ws(s, p2 + 1)) {
        Some(p) => p,
        None => {
            return None;
        },
    };
    let p3 = skip_ws(s, j3);
    if p3 >= sl || s.get_char(p3) != ']' {
        return None;
    }
    Some((Color { red, green, blue }, p3 + 1))
}

/// True exactly when the parsed identifier equals the given field name.
fn name_is(name: &String, lit: &str) -> (r: bool)
    ensures
        r == (name@ == lit@),
{
    let other = String::from_str(lit);
    *name == other
}

/// One `"name": value` pair of a segment object.
fn parse_field(s: &str, i: usize, acc: SegFields) -> (r: Option<(SegFields, usize)>)
    requires
        i <= s@.len(),
    ensures
        (match r {
            Some((a2, j)) => sp_field(s@, i as int, acc) == Some((a2, j as int)) && i < j
                <= s@.len(),
            None => sp_field(s@, i as int, acc) is None,
        }),
{
    let sl = s.unicode_len();
    let i0 = skip_ws(s, i);
    if i0 >= sl || s.get_char(i0) != '"' {
        return None;
    }
    let (name, j) = match parse_str_body(s, i0 + 1) {
        Some(p) => p,
        None => {
            return None;
        },
    };
    let j0 = skip_ws(s, j);
    if j0 >= sl || s.get_char(j0) != ':' {
        return None;
    }
    let v0 = skip_ws(s, j0 + 1);
    if name_is(&name, "length") {
        if acc.length.is_some() {
            return None;
        }
        match parse_u32(s, v0) {
            Some((v, j1)) => Some((SegFields { length: Some(v), ..acc }, j1)),
            None => None,
        }
    } else if name_is(&name, "mirrored") {
        if acc.mirrored.is_some() {
            return None;
        }
        match parse_bool(s, v0) {
            Some((v, j1)) => Some((SegFields { mirrored: Some(v), ..acc }, j1)),
            None => None,
        }
    } else if name_is(&name, "start_color") {
        if acc.start_color.is_some() {
            return None;
        }
        match parse_color(s, v0) {
            Some((v, j1)) => Some((SegFields { start_color: Some(v), ..acc }, j1)),
            None => None,
        }
    } else if name_is(&name, "end_color") {
        if acc.end_color.is_some() {
            return None;
        }
        match parse_color(s, v0) {
            Some((v, j1)) => Some((SegFields { end_color: Some(v), ..acc }, j1)),
            None => None,
        }
    } else if name_is(&name, "phase_offset") {
        if acc.phase_offset.is_some() {
            return None;
        }
        match parse_u32(s, v0) {
            Some((v, j1)) => Some((SegFields { phase_offset: Some(v), ..acc }, j1)),
            None => None,
        }
    } else if name_is(&name, "period") {
        if acc.period.is_some() {
            return None;
        }
        match parse_u32(s, v0) {
            Some((v, j1)) => Some((SegFields { period: Some(v), ..acc }, j1)),
            None => None,
        }
    } else if name_is(&name, "brightness") {
        if acc.brightness.is_some() {
            return None;
        }
        match parse_u8(s, v0) {
            Some((v, j1)) => Some((SegFields { brightness: Some(v), ..acc }, j1)),
            None => None,
        }
    } else {
        None
    }
}

fn parse_segment(s: &str, i: usize) -> (r: Option<(Segment, usize)>)
    requires
        i <= s@.len(),
    ensures
        (match r {
            Some((v, j)) => sp_segment(s@, i as int) == Some((v, j as int)) && i < j <= s@.len(),
            None => sp_segment(s@, i as int) is None,
        }),
{
    let sl = s.unicode_len();
    let i0 = skip_ws(s, i);
    if i0 >= sl || s.get_char(i0) != '{' {
        return None;
    }
    let mut acc = SegFields {
        length: None,
        mirrored: None,
        start_color: None,
        end_color: None,
        phase_offset: None,
        period: None,
        brightness: None,
    };
    let mut k: usize = i0 + 1;
    proof {
        assert(acc == empty_fields());
    }
    loop
        invariant
            sl == s@.len(),
            i <= i0 < sl,
            i0 < k <= sl,
            s@[i0 as int] == '{',
            ws_end(s@, i as int) == i0,
            (forall|a2: SegFields, j2: int|
                sp_seg_fields(s@, k as int, acc) == Some((a2, j2)) ==> sp_seg_fields(
                    s@,
                    i0 + 1,
                    empty_fields(),
                ) == Some((a2, j2))),
            sp_seg_fields(s@, k as int, acc) is None ==> sp_seg_fields(
                s@,
                i0 + 1,
                empty_fields(),
            ) is None,
        decreases sl - k,
    {
        let (a2, j) = match parse_field(s, k, acc) {
            Some(p) => p,
            None => {
                return None;
            },
        };
        let j0 = skip_ws(s, j);
        if j0 < sl && s.get_char(j0) == ',' {
            proof {
                assert forall|a3: SegFields, j3: int|
                    sp_seg_fields(s@, j0 + 1, a2) == Some((a3, j3)) implies sp_seg_fields(
                    s@,
                    i0 + 1,
                    empty_fields(),
                ) == Some((a3, j3)) by {
                    assert(sp_seg_fields(s@, k as int, acc) == Some((a3, j3)));
                }
                assert(sp_seg_fields(s@, j0 + 1, a2) is None ==> sp_seg_fields(
                    s@,
                    k as int,
                    acc,
                ) is None);
            }
            acc = a2;
            k = j0 + 1;
        } else {
            proof {
                assert(sp_seg_fields(s@, k as int, acc) == Some((a2, j0 as int)));
            }
            if j0 >= sl || s.get_char(j0) != '}' {
                return None;
            }
            if a2.length.is_none() || a2.mirrored.is_none() || a2.start_color.is_none()
                || a2.end_color.is_none() || a2.phase_offset.is_none() || a2.period.is_none()
                || a2.brightness.is_none() {
                return None;
            }
            let g = Segment {
                length: a2.length.unwrap(),
                mirrored: a2.mirrored.unwrap(),
                start_color: a2.start_color.unwrap(),
                end_color: a2.end_color.unwrap(),
                phase_offset: a2.phase_offset.unwrap(),
                period: a2.period.unwrap(),
                brightness: a2.brightness.unwrap(),
            };
            return Some((g, j0 + 1));
        }
    }
}

/// The abstract value of a parsed entry list.
pub open spec fn entries_view(v: Seq<(String, Segment)>) -> Seq<(Seq<char>, Segment)> {
    Seq::new(v.len(), |m: int| (v[m].0@, v[m].1))
}

fn parse_entry(s: &str, i: usize) -> (r: Option<((String, Segment), usize)>)
    requires
        i <= s@.len(),
    ensures
        (match r {
            Some((e, j)) => sp_entry(s@, i as int) == Some(((e.0@, e.1), j as int)) && i < j
                <= s@.len(),
            None => sp_entry(s@, i as int) is None,
        }),
{
    let sl = s.unicode_len();
    let i0 = skip_ws(s, i);
    if i0 >= sl || s.get_char(i0) != '"' {
        return None;
    }
    let (id, j) = match parse_str_body(s, i0 + 1) {
        Some(p) => p,
        None => {
            return None;
        },
    };
    let j0 = skip_ws(s, j);
    if j0 >= sl || s.get_char(j0) != ':' {
        return None;
    }
    let (seg, j1) = match parse_segment(s, j0 + 1) {
        Some(p) => p,
        None => {
            return None;
        },
    };
    Some(((id, seg), j1))
}

fn parse_entries(s: &str, i: usize) -> (r: Option<(Vec<(String, Segment)>, usize)>)
    requires
        i <= s@.len(),
    ensures
        (match r {
            Some((v, j)) => sp_entries(s@, i as int) == Some((entries_view(v@), j as int)) && i
                < j <= s@.len(),
            None => sp_entries(s@, i as int) is None,
        }),
{
    let sl = s.unicode_len();
    let mut done: Vec<(String, Segment)> = Vec::new();
    let mut k: usize = i;
    loop
        invariant
            sl == s@.len(),
            i <= k <= sl,
            (forall|es2: Seq<(Seq<char>, Segment)>, j2: int|
                sp_entries(s@, k as int) == Some((es2, j2)) ==> sp_entries(s@, i as int) == Some(
                    (entries_view(done@) + es2, j2),
                )),
            sp_entries(s@, k as int) is None ==> sp_entries(s@, i as int) is None,
        decreases sl - k,
    {
        let (e, j) = match parse_entry(s, k) {
            Some(p) => p,
            None => {
                return None;
            },
        };
        let ghost pre = done@;
        let j0 = skip_ws(s, j);
        if j0 < sl {
            let c = s.get_char(j0);
            if c == ',' {
                done.push(e);
                proof {
                    assert forall|es2: Seq<(Seq<char>, Segment)>, j2: int|
                        sp_entries(s@, j0 + 1) == Some((es2, j2)) implies sp_entries(
                        s@,
                        i as int,
                    ) == Some((entries_view(done@) + es2, j2)) by {
                        assert(sp_entries(s@, k as int) == Some(
                            (seq![(e.0@, e.1)] + es2, j2),
                        ));
                        assert(entries_view(done@) + es2 =~= entries_view(pre) + (seq![
                            (e.0@, e.1),
                        ] + es2));
                    }
                    assert(sp_entries(s@, j0 + 1) is None ==> sp_entries(s@, k as int) is None);
                }
                k = j0 + 1;
                continue;
            }
        }
        // no comma follows: this entry ends the list
        done.push(e);
        proof {
            assert(sp_entries(s@, k as int) == Some((seq![(e.0@, e.1)], j0 as int)));
            assert(entries_view(done@) =~= entries_view(pre) + seq![(e.0@, e.1)]);
            assert(entries_view(done@) + Seq::<(Seq<char>, Segment)>::empty() =~= entries_view(
                done@,
            ));
        }
        return Some((done, j0));
    }
}

/// Parses a full registry document. Returns the registry exactly when the
/// input is well formed (`sp_registry`) and its identifiers are pairwise
/// distinct; otherwise the input is rejected and nothing changes.
pub fn parse_registry(s: &str) -> (r: Option<Registry>)
    ensures
        (match r {
            Some(reg) => sp_registry(s@) == Some(reg@) && reg.inv(),
            None => sp_registry(s@) is None || !distinct_keys(sp_registry(s@)->0),
        }),
{
    let sl = s.unicode_len();
    let i0 = skip_ws(s, 0);
    if i0 >= sl || s.get_char(i0) != '{' {
        return None;
    }
    let i1 = skip_ws(s, i0 + 1);
    if i1 < sl && s.get_char(i1) == '}' {
        let e = skip_ws(s, i1 + 1);
        if e == sl {
            let reg = Registry::new();
            return Some(reg);
        }
        return None;
    }
    let (v, j1) = match parse_entries(s, i0 + 1) {
        Some(p) => p,
        None => {
            return None;
        },
    };
    if j1 >= sl || s.get_char(j1) != '}' {
        return None;
    }
    let e = skip_ws(s, j1 + 1);
    if e != sl {
        return None;
    }
    let ghost es = entries_view(v@);
    let n = v.len();
    // reject duplicate identifiers: the registry could not hold them
    let mut a: usize = 0;
    while a < n
        invariant
            n == v@.len(),
            es == entries_view(v@),
            a <= n,
            sp_registry(s@) == Some(es),
            forall|x: int, y: int| 0 <= x < y < n && x < a ==> es[x].0 != es[y].0,
        decreases n - a,
    {
        let mut b: usize = a + 1;
        while b < n
            invariant
                n == v@.len(),
                es == entries_view(v@),
                a < n,
                a < b <= n,
                sp_registry(s@) == Some(es),
                forall|y: int| a < y < b ==> es[a as int].0 != es[y].0,
            decreases n - b,
        {
            if v[a].0 == v[b].0 {
                proof {
                    assert(es[a as int].0 == es[b as int].0);
                }
                return None;
            }
            b = b + 1;
        }
        a = a + 1;
    }
    // build the registry in order
    let mut reg = Registry::new();
    let mut m: usize = 0;
    proof {
        assert(reg@ =~= es.take(0));
    }
    while m < n
        invariant
            n == v@.len(),
            es == entries_view(v@),
            m <= n,
            distinct_keys(es),
            sp_registry(s@) == Some(es),
            reg@ == es.take(m as int),
            reg.inv(),
        decreases n - m,
    {
        let e2 = &v[m];
        let id = e2.0.clone();
        let seg = e2.1;
        proof {
            crate::registry::lemma_find_key(reg@, id@);
            assert(id@ == es[m as int].0);
            if find_key(reg@, id@) >= 0 {
                let f = find_key(reg@, id@);
                assert(es[f].0 == es[m as int].0);
                assert(false);
            }
        }
        reg.insert(id, seg);
        proof {
            assert(reg@ =~= es.take(m + 1));
        }
        m = m + 1;
    }
    proof {
        assert(es.take(n as int) =~= es);
    }
    Some(reg)
}

// ---------------------------------------------------------------------------
// Round trip: parsing a serialized registry yields exactly its entries.
// ---------------------------------------------------------------------------

/// A window of `s` equal to a concatenation splits into windows equal to the
/// parts.
proof fn lemma_split(s: Seq<char>, i: int, a: Seq<char>, b: Seq<char>)
    requires
        0 <= i,
        i + a.len() + b.len() <= s.len(),
        s.subrange(i, i + a.len() + b.len()) == a + b,
    ensures
        s.subrange(i, i + a.len()) == a,
        s.subrange(i + a.len(), i + a.len() + b.len()) == b,
{
    assert forall|m: int| 0 <= m < a.len() implies s.subrange(i, i + a.len())[m] == a[m] by {
        assert(s.subrange(i, i + a.len() + b.len())[m] == s[i + m]);
        assert((a + b)[m] == a[m]);
    }
    assert(s.subrange(i, i + a.len()) =~= a);
    assert forall|m: int| 0 <= m < b.len() implies s.subrange(
        i + a.len(),
        i + a.len() + b.len(),
    )[m] == b[m] by {
        assert(s.subrange(i, i + a.len() + b.len())[a.len() + m] == s[i + a.len() + m]);
        assert((a + b)[a.len() + m] == b[m]);
    }
    assert(s.subrange(i + a.len(), i + a.len() + b.len()) =~= b);
}

/// The decimal form of `n` is nonempty, all digits, and evaluates back to
/// `n`.
proof fn lemma_ser_nat_props(n: int)
    requires
        n >= 0,
    ensures
        ser_nat(n).len() >= 1,
        forall|m: int| 0 <= m < ser_nat(n).len() ==> is_digit(#[trigger] ser_nat(n)[m]),
        digits_val(ser_nat(n)) == n,
    decreases n,
{
    if n < 10 {
        let one = seq![digit_char(n)];
        assert(ser_nat(n) == one);
        assert(is_digit(digit_char(n)));
        assert(one.drop_last() =~= Seq::<char>::empty());
        assert(one.last() == digit_char(n));
        assert(digits_val(Seq::<char>::empty()) == 0);
        assert(digits_val(one) == digits_val(one.drop_last()) * 10 + char_digit(one.last()));
        assert(char_digit(digit_char(n)) == n);
    } else {
        lemma_ser_nat_props(n / 10);
        let pre = ser_nat(n / 10);
        let d = digit_char(n % 10);
        assert(ser_nat(n) == pre.push(d));
        assert forall|m: int| 0 <= m < ser_nat(n).len() implies is_digit(
            #[trigger] ser_nat(n)[m],
        ) by {
            if m < pre.len() {
                assert(pre.push(d)[m] == pre[m]);
            } else {
                assert(pre.push(d)[m] == d);
                assert(is_digit(d));
            }
        }
        assert(ser_nat(n).drop_last() =~= pre);
        assert(ser_nat(n).last() == d);
        assert(char_digit(d) == n % 10);
        assert(digits_val(ser_nat(n)) == digits_val(ser_nat(n).drop_last()) * 10 + char_digit(
            ser_nat(n).last(),
        ));
        assert(digits_val(ser_nat(n)) == (n / 10) * 10 + n % 10);
        vstd::arithmetic::div_mod::lemma_fundamental_div_mod(n, 10);
    }
}

/// `digits_end` stops exactly at the end of a digit run.
proof fn lemma_digits_end_of_run(s: Seq<char>, i: int, e: int)
    requires
        0 <= i <= e <= s.len(),
        forall|m: int| i <= m < e ==> is_digit(#[trigger] s[m]),
        e == s.len() || !is_digit(s[e]),
    ensures
        digits_end(s, i) == e,
    decreases e - i,
{
    if i < e {
        lemma_digits_end_of_run(s, i + 1, e);
    }
}

/// A serialized number parses back to its value when what follows is not a
/// digit.
proof fn lemma_sp_u32_of_ser(s: Seq<char>, i: int, n: int)
    requires
        0 <= n <= u32::MAX,
        0 <= i,
        i + ser_nat(n).len() <= s.len(),
        s.subrange(i, i + ser_nat(n).len()) == ser_nat(n),
        i + ser_nat(n).len() == s.len() || !is_digit(s[i + ser_nat(n).len()]),
    ensures
        sp_u32(s, i) == Some((n as u32, i + ser_nat(n).len())),
{
    lemma_ser_nat_props(n);
    let d = ser_nat(n);
    let e = i + d.len();
    assert forall|m: int| i <= m < e implies is_digit(#[trigger] s[m]) by {
        assert(s.subrange(i, e)[m - i] == s[m]);
        assert(d[m - i] == s.subrange(i, e)[m - i]);
    }
    lemma_digits_end_of_run(s, i, e);
    assert(digits_val(s.subrange(i, e)) == n);
}

/// Same, for a number in `u8` range.
proof fn lemma_sp_u8_of_ser(s: Seq<char>, i: int, n: int)
    requires
        0 <= n <= 255,
        0 <= i,
        i + ser_nat(n).len() <= s.len(),
        s.subrange(i, i + ser_nat(n).len()) == ser_nat(n),
        i + ser_nat(n).len() == s.len() || !is_digit(s[i + ser_nat(n).len()]),
    ensures
        sp_u8(s, i) == Some((n as u8, i + ser_nat(n).len())),
{
    lemma_sp_u32_of_ser(s, i, n);
}

/// A serialized boolean parses back.
proof fn lemma_sp_bool_of_ser(s: Seq<char>, i: int, b: bool)
    requires
        0 <= i,
        i + ser_bool(b).len() <= s.len(),
        s.subrange(i, i + ser_bool(b).len()) == ser_bool(b),
    ensures
        sp_bool(s, i) == Some((b, i + ser_bool(b).len())),
{
    reveal_strlit("true");
    reveal_strlit("false");
    if b {
        assert(sp_lit(s, i, "true"@) == Some(i + 4));
    } else {
        assert(s.subrange(i, i + 5)[0] == 'f');
        if i + 4 <= s.len() && s.subrange(i, i + 4) == "true"@ {
            assert(s.subrange(i, i + 4)[0] == 't');
            assert(s[i] == 't');
            assert(s[i] == 'f');
            assert(false);
        }
        assert(sp_lit(s, i, "true"@) is None);
        assert(sp_lit(s, i, "false"@) == Some(i + 5));
    }
}

/// Skipping whitespace at a non-whitespace position goes nowhere.
proof fn lemma_ws_stop(s: Seq<char>, i: int)
    requires
        0 <= i <= s.len(),
        i == s.len() || !is_ws(s[i]),
    ensures
        ws_end(s, i) == i,
{
}

/// A quoted string whose characters need no escaping parses back verbatim.
proof fn lemma_sp_plain_str(s: Seq<char>, i: int, t: Seq<char>)
    requires
        0 <= i,
        i + t.len() + 1 <= s.len(),
        s.subrange(i, i + t.len() + 1) == t + seq!['"'],
        forall|m: int| 0 <= m < t.len() ==> t[m] != '"' && t[m] != '\\',
    ensures
        sp_str_body(s, i) == Some((t, i + t.len() + 1)),
    decreases t.len(),
{
    if t.len() == 0 {
        assert(s.subrange(i, i + 1)[0] == '"');
        assert(s[i] == '"');
    } else {
        let c = t[0];
        assert(s.subrange(i, i + t.len() + 1)[0] == c);
        assert(s[i] == c);
        assert(t + seq!['"'] =~= seq![c] + (t.drop_first() + seq!['"']));
        lemma_split(s, i, seq![c], t.drop_first() + seq!['"']);
        assert forall|m: int| 0 <= m < t.drop_first().len() implies t.drop_first()[m] != '"'
            && t.drop_first()[m] != '\\' by {
            assert(t.drop_first()[m] == t[m + 1]);
        }
        lemma_sp_plain_str(s, i + 1, t.drop_first());
        assert(sp_str_body(s, i) == Some((seq![c] + t.drop_first(), i + t.len() + 1)));
        assert(seq![c] + t.drop_first() =~= t);
    }
}

/// The character with a given code point is that character.
proof fn lemma_char_of_code(c: char)
    ensures
        char_of((c as u32) as int) == c,
{
    let v = (c as u32) as int;
    assert(code(c) == v);
    assert(exists|x: char| code(x) == v);
    let w = choose|x: char| code(x) == v;
    assert(code(w) == v);
    assert(w as u32 == c as u32);
    vstd::utf8::char_u32_cast(w, w as u32);
    vstd::utf8::char_u32_cast(c, c as u32);
}

/// A serialized string body (with its closing quote) parses back to the
/// original identifier.
proof fn lemma_sp_str_of_ser(s: Seq<char>, i: int, t: Seq<char>)
    requires
        0 <= i,
        i + ser_str_body(t).len() + 1 <= s.len(),
        s.subrange(i, i + ser_str_body(t).len() + 1) == ser_str_body(t) + seq!['"'],
    ensures
        sp_str_body(s, i) == Some((t, i + ser_str_body(t).len() + 1)),
    decreases t.len(),
{
    let body = ser_str_body(t);
    if t.len() == 0 {
        assert(body =~= Seq::<char>::empty());
        assert(s.subrange(i, i + 1)[0] == '"');
        assert(s[i] == '"');
    } else {
        let c = t[0];
        let rest = ser_str_body(t.drop_first());
        assert(body == esc_char(c) + rest);
        assert((esc_char(c) + rest) + seq!['"'] =~= esc_char(c) + (rest + seq!['"']));
        lemma_split(s, i, esc_char(c), rest + seq!['"']);
        if c == '"' || c == '\\' {
            assert(s.subrange(i, i + 2)[0] == '\\');
            assert(s.subrange(i, i + 2)[1] == c);
            assert(s[i] == '\\');
            assert(s[i + 1] == c);
            assert(esc_code(c) == Some(c));
            lemma_sp_str_of_ser(s, i + 2, t.drop_first());
            assert(sp_str_body(s, i) == Some((seq![c] + t.drop_first(), i + body.len() + 1)));
            assert(seq![c] + t.drop_first() =~= t);
        } else if (c as u32) < 32 {
            let cv = (c as u32) as int;
            let hi = cv / 16;
            let lo = cv % 16;
            vstd::arithmetic::div_mod::lemma_fundamental_div_mod(cv, 16);
            vstd::arithmetic::div_mod::lemma_mod_bound(cv, 16);
            vstd::arithmetic::div_mod::lemma_div_pos_is_pos(cv, 16);
            assert(s.subrange(i, i + 6)[0] == '\\');
            assert(s.subrange(i, i + 6)[1] == 'u');
            assert(s.subrange(i, i + 6)[2] == '0');
            assert(s.subrange(i, i + 6)[3] == '0');
            assert(s.subrange(i, i + 6)[4] == hex_char(hi));
            assert(s.subrange(i, i + 6)[5] == hex_char(lo));
            assert(s[i] == '\\' && s[i + 1] == 'u' && s[i + 2] == '0' && s[i + 3] == '0');
            assert(s[i + 4] == hex_char(hi) && s[i + 5] == hex_char(lo));
            assert(hex_val('0') == 0);
            assert(hi < 16 && lo < 16);
            assert(hex_val(hex_char(hi)) == hi);
            assert(hex_val(hex_char(lo)) == lo);
            let v = hex_val(s[i + 2]) * 4096 + hex_val(s[i + 3]) * 256 + hex_val(s[i + 4]) * 16
                + hex_val(s[i + 5]);
            assert(v == cv);
            assert(v < 0xD800);
            lemma_sp_str_of_ser(s, i + 6, t.drop_first());
            lemma_char_of_code(c);
            assert(sp_str_body(s, i) == Some((seq![c] + t.drop_first(), i + body.len() + 1)));
            assert(seq![c] + t.drop_first() =~= t);
        } else {
            assert(s.subrange(i, i + 1)[0] == c);
            assert(s[i] == c);
            lemma_sp_str_of_ser(s, i + 1, t.drop_first());
            assert(sp_str_body(s, i) == Some((seq![c] + t.drop_first(), i + body.len() + 1)));
            assert(seq![c] + t.drop_first() =~= t);
        }
    }
}

/// A digit is not whitespace.
proof fn lemma_digit_not_ws(c: char)
    requires
        is_digit(c),
    ensures
        !is_ws(c),
{
}

/// A serialized color parses back.
#[verifier::rlimit(100)]
proof fn lemma_sp_color_of_ser(s: Seq<char>, i: int, c: Color)
    requires
        0 <= i,
        i + ser_color(c).len() <= s.len(),
        s.subrange(i, i + ser_color(c).len()) == ser_color(c),
    ensures
        sp_color(s, i) == Some((c, i + ser_color(c).len())),
{
    lemma_ser_nat_props(c.red as int);
    lemma_ser_nat_props(c.green as int);
    lemma_ser_nat_props(c.blue as int);
    let nr = ser_nat(c.red as int);
    let ng = ser_nat(c.green as int);
    let nb = ser_nat(c.blue as int);
    let r5 = seq![']'];
    let r4 = nb + r5;
    let r3 = seq![','] + r4;
    let r2 = ng + r3;
    let r1 = seq![','] + r2;
    let r0 = nr + r1;
    assert(ser_color(c) =~= seq!['['] + r0);
    assert(s.subrange(i, i + (seq!['['] + r0).len()) == seq!['['] + r0);
    lemma_split(s, i, seq!['['], r0);
    let p0 = i + 1;
    assert(s.subrange(i, p0)[0] == '[');
    assert(s[i] == '[');
    lemma_split(s, p0, nr, r1);
    let p1 = p0 + nr.len();
    assert(s.subrange(p0, p1)[0] == nr[0]);
    lemma_digit_not_ws(nr[0]);
    lemma_ws_stop(s, p0);
    assert(s.subrange(p1, p1 + r1.len())[0] == ',');
    assert(s[p1] == ',');
    assert(!is_digit(','));
    lemma_sp_u8_of_ser(s, p0, c.red as int);
    lemma_ws_stop(s, p1);
    lemma_split(s, p1, seq![','], r2);
    let p2 = p1 + 1;
    lemma_split(s, p2, ng, r3);
    let p3 = p2 + ng.len();
    assert(s.subrange(p2, p3)[0] == ng[0]);
    lemma_digit_not_ws(ng[0]);
    lemma_ws_stop(s, p2);
    assert(s.subrange(p3, p3 + r3.len())[0] == ',');
    assert(s[p3] == ',');
    lemma_sp_u8_of_ser(s, p2, c.green as int);
    lemma_ws_stop(s, p3);
    lemma_split(s, p3, seq![','], r4);
    let p4 = p3 + 1;
    lemma_split(s, p4, nb, r5);
    let p5 = p4 + nb.len();
    assert(s.subrange(p4, p5)[0] == nb[0]);
    lemma_digit_not_ws(nb[0]);
    lemma_ws_stop(s, p4);
    assert(s.subrange(p5, p5 + 1)[0] == ']');
    assert(s[p5] == ']');
    assert(!is_digit(']'));
    lemma_sp_u8_of_ser(s, p4, c.blue as int);
    lemma_ws_stop(s, p5);
    assert(sp_color(s, i) == Some((Color { red: c.red, green: c.green, blue: c.blue }, p5 + 1)));
    assert(Color { red: c.red, green: c.green, blue: c.blue } == c);
    assert(p5 + 1 == i + ser_color(c).len());
}

#[verifier::rlimit(100)]
proof fn lemma_seg_windows_head(s: Seq<char>, i: int, g: Segment)
    requires
        0 <= i,
        i + ser_segment(g).len() <= s.len(),
        s.subrange(i, i + ser_segment(g).len()) == ser_segment(g),
    ensures
        s.subrange(i, i + lbl_length().len()) == lbl_length(),
        s.subrange(i + lbl_length().len(), i + lbl_length().len() + ser_nat(g.length as int).len()) == ser_nat(g.length as int),
        s.subrange(i + lbl_length().len() + ser_nat(g.length as int).len(), i + lbl_length().len() + ser_nat(g.length as int).len() + lbl_mirrored().len()) == lbl_mirrored(),
        s.subrange(i + lbl_length().len() + ser_nat(g.length as int).len() + lbl_mirrored().len(), i + lbl_length().len() + ser_nat(g.length as int).len() + lbl_mirrored().len() + ser_bool(g.mirrored).len()) == ser_bool(g.mirrored),
        s.subrange(i + lbl_length().len() + ser_nat(g.length as int).len() + lbl_mirrored().len() + ser_bool(g.mirrored).len(), i + lbl_length().len() + ser_nat(g.length as int).len() + lbl_mirrored().len() + ser_bool(g.mirrored).len() + lbl_start_color().len()) == lbl_start_color(),
        s.subrange(i + lbl_length().len() + ser_nat(g.length as int).len() + lbl_mirrored().len() + ser_bool(g.mirrored).len() + lbl_start_color().len(), i + lbl_length().len() + ser_nat(g.length as int).len() + lbl_mirrored().len() + ser_bool(g.mirrored).len() + lbl_start_color().len() + ser_color(g.start_color).len()) == ser_color(g.start_color),
        s.subrange(i + lbl_length().len() + ser_nat(g.length as int).len() + lbl_mirrored().len() + ser_bool(g.mirrored).len() + lbl_start_color().len() + ser_color(g.start_color).len(), i + lbl_length().len() + ser_nat(g.length as int).len() + lbl_mirrored().len() + ser_bool(g.mirrored).len() + lbl_start_color().len() + ser_color(g.start_color).len() + lbl_end_color().len()) == lbl_end_color(),
        s.subrange(i + lbl_length().len() + ser_nat(g.length as int).len() + lbl_mirrored().len() + ser_bool(g.mirrored).len() + lbl_start_color().len() + ser_color(g.start_color).len() + lbl_end_color().len(), i + lbl_length().len() + ser_nat(g.length as int).len() + lbl_mirrored().len() + ser_bool(g.mirrored).len() + lbl_start_color().len() + ser_color(g.start_color).len() + lbl_end_color().len() + ser_color(g.end_color).len()) == ser_color(g.end_color),
{
    let r8 = lbl_phase_offset() + ser_nat(g.phase_offset as int) + lbl_period() + ser_nat(g.period as int) + lbl_brightness() + ser_nat(g.brightness as int) + seq!['}'];
    let r7 = ser_color(g.end_color) + r8;
    let r6 = lbl_end_color() + r7;
    let r5 = ser_color(g.start_color) + r6;
    let r4 = lbl_start_color() + r5;
    let r3 = ser_bool(g.mirrored) + r4;
    let r2 = lbl_mirrored() + r3;
    let r1 = ser_nat(g.length as int) + r2;
    let r0 = lbl_length() + r1;
    assert(ser_segment(g) =~= r0);
    assert(s.subrange(i, i + r0.len()) == r0);
    lemma_split(s, i, lbl_length(), r1);
    lemma_split(s, (i + lbl_length().len()), ser_nat(g.length as int), r2);
    lemma_split(s, (i + lbl_length().len() + ser_nat(g.length as int).len()), lbl_mirrored(), r3);
    lemma_split(s, (i + lbl_length().len() + ser_nat(g.length as int).len() + lbl_mirrored().len()), ser_bool(g.mirrored), r4);
    lemma_split(s, (i + lbl_length().len() + ser_nat(g.length as int).len() + lbl_mirrored().len() + ser_bool(g.mirrored).len()), lbl_start_color(), r5);
    lemma_split(s, (i + lbl_length().len() + ser_nat(g.length as int).len() + lbl_mirrored().len() + ser_bool(g.mirrored).len() + lbl_start_color().len()), ser_color(g.start_color), r6);
    lemma_split(s, (i + lbl_length().len() + ser_nat(g.length as int).len() + lbl_mirrored().len() + ser_bool(g.mirrored).len() + lbl_start_color().len() + ser_color(g.start_color).len()), lbl_end_color(), r7);
    lemma_split(s, (i + lbl_length().len() + ser_nat(g.length as int).len() + lbl_mirrored().len() + ser_bool(g.mirrored).len() + lbl_start_color().len() + ser_color(g.start_color).len() + lbl_end_color().len()), ser_color(g.end_color), r8);
}

#[verifier::rlimit(100)]
proof fn lemma_seg_windows_tail(s: Seq<char>, i: int, g: Segment)
    requires
        0 <= i,
        i + ser_segment(g).len() <= s.len(),
        s.subrange(i, i + ser_segment(g).len()) == ser_segment(g),
    ensures
        s.subrange(i + lbl_length().len() + ser_nat(g.length as int).len() + lbl_mirrored().len() + ser_bool(g.mirrored).len() + lbl_start_color().len() + ser_color(g.start_color).len() + lbl_end_color().len() + ser_color(g.end_color).len(), i + lbl_length().len() + ser_nat(g.length as int).len() + lbl_mirrored().len() + ser_bool(g.mirrored).len() + lbl_start_color().len() + ser_color(g.start_color).len() + lbl_end_color().len() + ser_color(g.end_color).len() + lbl_phase_offset().len()) == lbl_phase_offset(),
        s.subrange(i + lbl_length().len() + ser_nat(g.length as int).len() + lbl_mirrored().len() + ser_bool(g.mirrored).len() + lbl_start_color().len() + ser_color(g.start_color).len() + lbl_end_color().len() + ser_color(g.end_color).len() + lbl_phase_offset().len(), i + lbl_length().len() + ser_nat(g.length as int).len() + lbl_mirrored().len() + ser_bool(g.mirrored).len() + lbl_start_color().len() + ser_color(g.start_color).len() + lbl_end_color().len() + ser_color(g.end_color).len() + lbl_phase_offset().len() + ser_nat(g.phase_offset as int).len()) == ser_nat(g.phase_offset as int),
        s.subrange(i + lbl_length().len() + ser_nat(g.length as int).len() + lbl_mirrored().len() + ser_bool(g.mirrored).len() + lbl_start_color().len() + ser_color(g.start_color).len() + lbl_end_color().len() + ser_color(g.end_color).len() + lbl_phase_offset().len() + ser_nat(g.phase_offset as int).len(), i + lbl_length().len() + ser_nat(g.length as int).len() + lbl_mirrored().len() + ser_bool(g.mirrored).len() + lbl_start_color().len() + ser_color(g.start_color).len() + lbl_end_color().len() + ser_color(g.end_color).len() + lbl_phase_offset().len() + ser_nat(g.phase_offset as int).len() + lbl_period().len()) == lbl_period(),
        s.subrange(i + lbl_length().len() + ser_nat(g.length as int).len() + lbl_mirrored().len() + ser_bool(g.mirrored).len() + lbl_start_color().len() + ser_color(g.start_color).len() + lbl_end_color().len() + ser_color(g.end_color).len() + lbl_phase_offset().len() + ser_nat(g.phase_offset as int).len() + lbl_period().len(), i + lbl_length().len() + ser_nat(g.length as int).len() + lbl_mirrored().len() + ser_bool(g.mirrored).len() + lbl_start_color().len() + ser_color(g.start_color).len() + lbl_end_color().len() + ser_color(g.end_color).len() + lbl_phase_offset().len() + ser_nat(g.phase_offset as int).len() + lbl_period().len() + ser_nat(g.period as int).len()) == ser_nat(g.period as int),
        s.subrange(i + lbl_length().len() + ser_nat(g.length as int).len() + lbl_mirrored().len() + ser_bool(g.mirrored).len() + lbl_start_color().len() + ser_color(g.start_color).len() + lbl_end_color().len() + ser_color(g.end_color).len() + lbl_phase_offset().len() + ser_nat(g.phase_offset as int).len() + lbl_period().len() + ser_nat(g.period as int).len(), i + lbl_length().len() + ser_nat(g.length as int).len() + lbl_mirrored().len() + ser_bool(g.mirrored).len() + lbl_start_color().len() + ser_color(g.start_color).len() + lbl_end_color().len() + ser_color(g.end_color).len() + lbl_phase_offset().len() + ser_nat(g.phase_offset as int).len() + lbl_period().len() + ser_nat(g.period as int).len() + lbl_brightness().len()) == lbl_brightness(),
        s.subrange(i + lbl_length().len() + ser_nat(g.length as int).len() + lbl_mirrored().len() + ser_bool(g.mirrored).len() + lbl_start_color().len() + ser_color(g.start_color).len() + lbl_end_color().len() + ser_color(g.end_color).len() + lbl_phase_offset().len() + ser_nat(g.phase_offset as int).len() + lbl_period().len() + ser_nat(g.period as int).len() + lbl_brightness().len(), i + lbl_length().len() + ser_nat(g.length as int).len() + lbl_mirrored().len() + ser_bool(g.mirrored).len() + lbl_start_color().len() + ser_color(g.start_color).len() + lbl_end_color().len() + ser_color(g.end_color).len() + lbl_phase_offset().len() + ser_nat(g.phase_offset as int).len() + lbl_period().len() + ser_nat(g.period as int).len() + lbl_brightness().len() + ser_nat(g.brightness as int).len()) == ser_nat(g.brightness as int),
        s.subrange(i + lbl_length().len() + ser_nat(g.length as int).len() + lbl_mirrored().len() + ser_bool(g.mirrored).len() + lbl_start_color().len() + ser_color(g.start_color).len() + lbl_end_color().len() + ser_color(g.end_color).len() + lbl_phase_offset().len() + ser_nat(g.phase_offset as int).len() + lbl_period().len() + ser_nat(g.period as int).len() + lbl_brightness().len() + ser_nat(g.brightness as int).len(), i + lbl_length().len() + ser_nat(g.length as int).len() + lbl_mirrored().len() + ser_bool(g.mirrored).len() + lbl_start_color().len() + ser_color(g.start_color).len() + lbl_end_color().len() + ser_color(g.end_color).len() + lbl_phase_offset().len() + ser_nat(g.phase_offset as int).len() + lbl_period().len() + ser_nat(g.period as int).len() + lbl_brightness().len() + ser_nat(g.brightness as int).len() + seq!['}'].len()) == seq!['}'],
{
    let r14 = seq!['}'];
    let r13 = ser_nat(g.brightness as int) + r14;
    let r12 = lbl_brightness() + r13;
    let r11 = ser_nat(g.period as int) + r12;
    let r10 = lbl_period() + r11;
    let r9 = ser_nat(g.phase_offset as int) + r10;
    let r8 = lbl_phase_offset() + r9;
    let hd = lbl_length() + ser_nat(g.length as int) + lbl_mirrored() + ser_bool(g.mirrored) + lbl_start_color() + ser_color(g.start_color) + lbl_end_color() + ser_color(g.end_color);
    assert(ser_segment(g) =~= hd + r8);
    assert(s.subrange(i, i + (hd + r8).len()) == hd + r8);
    lemma_split(s, i, hd, r8);
    assert(i + hd.len() == i + lbl_length().len() + ser_nat(g.length as int).len() + lbl_mirrored().len() + ser_bool(g.mirrored).len() + lbl_start_color().len() + ser_color(g.start_color).len() + lbl_end_color().len() + ser_color(g.end_color).len());
    lemma_split(s, (i + lbl_length().len() + ser_nat(g.length as int).len() + lbl_mirrored().len() + ser_bool(g.mirrored).len() + lbl_start_color().len() + ser_color(g.start_color).len() + lbl_end_color().len() + ser_color(g.end_color).len()), lbl_phase_offset(), r9);
    lemma_split(s, (i + lbl_length().len() + ser_nat(g.length as int).len() + lbl_mirrored().len() + ser_bool(g.mirrored).len() + lbl_start_color().len() + ser_color(g.start_color).len() + lbl_end_color().len() + ser_color(g.end_color).len() + lbl_phase_offset().len()), ser_nat(g.phase_offset as int), r10);
    lemma_split(s, (i + lbl_length().len() + ser_nat(g.length as int).len() + lbl_mirrored().len() + ser_bool(g.mirrored).len() + lbl_start_color().len() + ser_color(g.start_color).len() + lbl_end_color().len() + ser_color(g.end_color).len() + lbl_phase_offset().len() + ser_nat(g.phase_offset as int).len()), lbl_period(), r11);
    lemma_split(s, (i + lbl_length().len() + ser_nat(g.length as int).len() + lbl_mirrored().len() + ser_bool(g.mirrored).len() + lbl_start_color().len() + ser_color(g.start_color).len() + lbl_end_color().len() + ser_color(g.end_color).len() + lbl_phase_offset().len() + ser_nat(g.phase_offset as int).len() + lbl_period().len()), ser_nat(g.period as int), r12);
    lemma_split(s, (i + lbl_length().len() + ser_nat(g.length as int).len() + lbl_mirrored().len() + ser_bool(g.mirrored).len() + lbl_start_color().len() + ser_color(g.start_color).len() + lbl_end_color().len() + ser_color(g.end_color).len() + lbl_phase_offset().len() + ser_nat(g.phase_offset as int).len() + lbl_period().len() + ser_nat(g.period as int).len()), lbl_brightness(), r13);
    lemma_split(s, (i + lbl_length().len() + ser_nat(g.length as int).len() + lbl_mirrored().len() + ser_bool(g.mirrored).len() + lbl_start_color().len() + ser_color(g.start_color).len() + lbl_end_color().len() + ser_color(g.end_color).len() + lbl_phase_offset().len() + ser_nat(g.phase_offset as int).len() + lbl_period().len() + ser_nat(g.period as int).len() + lbl_brightness().len()), ser_nat(g.brightness as int), r14);
}

proof fn lemma_seg_field_length(s: Seq<char>, lp: int, g: Segment, acc: SegFields)
    requires
        0 <= lp,
        s.subrange(lp, lp + 10) == lbl_length(),
        lp + 10 + ser_nat(g.length as int).len() < s.len(),
        s.subrange(lp + 10, lp + 10 + ser_nat(g.length as int).len()) == ser_nat(g.length as int),
        !is_digit(s[lp + 10 + ser_nat(g.length as int).len()]),
        acc.length is None,
    ensures
        sp_field(s, lp + 1, acc) == Some(
            (SegFields { length: Some(g.length), ..acc }, lp + 10 + ser_nat(g.length as int).len()),
        ),
{
    reveal_strlit("{\"length\":");
    reveal_strlit("length");
    lemma_ser_nat_props(g.length as int);
    assert(lbl_length() =~= seq!['{', '"'] + (("length"@ + seq!['"']) + seq![':']));
    lemma_split(s, lp, seq!['{', '"'], ("length"@ + seq!['"']) + seq![':']);
    lemma_split(s, lp + 2, "length"@ + seq!['"'], seq![':']);
    assert(s.subrange(lp, lp + 2)[1] == '"');
    assert(s[lp + 1] == '"');
    lemma_ws_stop(s, lp + 1);
    assert forall|m: int| 0 <= m < "length"@.len() implies "length"@[m] != '"' && "length"@[m] != '\\' by {}
    lemma_sp_plain_str(s, lp + 2, "length"@);
    let cp = lp + 2 + 6 + 1;
    assert(s.subrange(cp, cp + 1)[0] == ':');
    assert(s[cp] == ':');
    lemma_ws_stop(s, cp);
    let vpos = lp + 10;
    assert(s.subrange(vpos, vpos + ser_nat(g.length as int).len())[0] == ser_nat(g.length as int)[0]);
    lemma_digit_not_ws(ser_nat(g.length as int)[0]);
    lemma_ws_stop(s, vpos);
    lemma_sp_u32_of_ser(s, vpos, g.length as int);
}

proof fn lemma_seg_field_mirrored(s: Seq<char>, lp: int, g: Segment, acc: SegFields)
    requires
        0 <= lp,
        s.subrange(lp, lp + 12) == lbl_mirrored(),
        lp + 12 + ser_bool(g.mirrored).len() < s.len(),
        s.subrange(lp + 12, lp + 12 + ser_bool(g.mirrored).len()) == ser_bool(g.mirrored),
        acc.mirrored is None,
    ensures
        sp_field(s, lp + 1, acc) == Some(
            (SegFields { mirrored: Some(g.mirrored), ..acc }, lp + 12 + ser_bool(g.mirrored).len()),
        ),
{
    reveal_strlit(",\"mirrored\":");
    reveal_strlit("mirrored");
    reveal_strlit("length");
    reveal_strlit("true");
    reveal_strlit("false");
    assert(lbl_mirrored() =~= seq![',', '"'] + (("mirrored"@ + seq!['"']) + seq![':']));
    lemma_split(s, lp, seq![',', '"'], ("mirrored"@ + seq!['"']) + seq![':']);
    lemma_split(s, lp + 2, "mirrored"@ + seq!['"'], seq![':']);
    assert(s.subrange(lp, lp + 2)[1] == '"');
    assert(s[lp + 1] == '"');
    lemma_ws_stop(s, lp + 1);
    assert forall|m: int| 0 <= m < "mirrored"@.len() implies "mirrored"@[m] != '"' && "mirrored"@[m] != '\\' by {}
    lemma_sp_plain_str(s, lp + 2, "mirrored"@);
    let cp = lp + 2 + 8 + 1;
    assert(s.subrange(cp, cp + 1)[0] == ':');
    assert(s[cp] == ':');
    lemma_ws_stop(s, cp);
    let vpos = lp + 12;
    assert(s.subrange(vpos, vpos + ser_bool(g.mirrored).len())[0] == ser_bool(g.mirrored)[0]);
    assert(!is_ws(ser_bool(g.mirrored)[0]));
    lemma_ws_stop(s, vpos);
    lemma_sp_bool_of_ser(s, vpos, g.mirrored);
    assert("mirrored"@ != "length"@);
}

proof fn lemma_seg_field_start_color(s: Seq<char>, lp: int, g: Segment, acc: SegFields)
    requires
        0 <= lp,
        s.subrange(lp, lp + 15) == lbl_start_color(),
        lp + 15 + ser_color(g.start_color).len() < s.len(),
        s.subrange(lp + 15, lp + 15 + ser_color(g.start_color).len()) == ser_color(g.start_color),
        acc.start_color is None,
    ensures
        sp_field(s, lp + 1, acc) == Some(
            (SegFields { start_color: Some(g.start_color), ..acc }, lp + 15 + ser_color(g.start_color).len()),
        ),
{
    reveal_strlit(",\"start_color\":");
    reveal_strlit("start_color");
    reveal_strlit("length");
    reveal_strlit("mirrored");
    assert(lbl_start_color() =~= seq![',', '"'] + (("start_color"@ + seq!['"']) + seq![':']));
    lemma_split(s, lp, seq![',', '"'], ("start_color"@ + seq!['"']) + seq![':']);
    lemma_split(s, lp + 2, "start_color"@ + seq!['"'], seq![':']);
    assert(s.subrange(lp, lp + 2)[1] == '"');
    assert(s[lp + 1] == '"');
    lemma_ws_stop(s, lp + 1);
    assert forall|m: int| 0 <= m < "start_color"@.len() implies "start_color"@[m] != '"' && "start_color"@[m] != '\\' by {}
    lemma_sp_plain_str(s, lp + 2, "start_color"@);
    let cp = lp + 2 + 11 + 1;
    assert(s.subrange(cp, cp + 1)[0] == ':');
    assert(s[cp] == ':');
    lemma_ws_stop(s, cp);
    let vpos = lp + 15;
    assert(s.subrange(vpos, vpos + ser_color(g.start_color).len())[0] == '[');
    assert(!is_ws('['));
    lemma_ws_stop(s, vpos);
    lemma_sp_color_of_ser(s, vpos, g.start_color);
    assert("start_color"@ != "length"@);
    assert("start_color"@ != "mirrored"@);
}

proof fn lemma_seg_field_end_color(s: Seq<char>, lp: int, g: Segment, acc: SegFields)
    requires
        0 <= lp,
        s.subrange(lp, lp + 13) == lbl_end_color(),
        lp + 13 + ser_color(g.end_color).len() < s.len(),
        s.subrange(lp + 13, lp + 13 + ser_color(g.end_color).len()) == ser_color(g.end_color),
        acc.end_color is None,
    ensures
        sp_field(s, lp + 1, acc) == Some(
            (SegFields { end_color: Some(g.end_color), ..acc }, lp + 13 + ser_color(g.end_color).len()),
        ),
{
    reveal_strlit(",\"end_color\":");
    reveal_strlit("end_color");
    reveal_strlit("length");
    reveal_strlit("mirrored");
    reveal_strlit("start_color");
    assert(lbl_end_color() =~= seq![',', '"'] + (("end_color"@ + seq!['"']) + seq![':']));
    lemma_split(s, lp, seq![',', '"'], ("end_color"@ + seq!['"']) + seq![':']);
    lemma_split(s, lp + 2, "end_color"@ + seq!['"'], seq![':']);
    assert(s.subrange(lp, lp + 2)[1] == '"');
    assert(s[lp + 1] == '"');
    lemma_ws_stop(s, lp + 1);
    assert forall|m: int| 0 <= m < "end_color"@.len() implies "end_color"@[m] != '"' && "end_color"@[m] != '\\' by {}
    lemma_sp_plain_str(s, lp + 2, "end_color"@);
    let cp = lp + 2 + 9 + 1;
    assert(s.subrange(cp, cp + 1)[0] == ':');
    assert(s[cp] == ':');
    lemma_ws_stop(s, cp);
    let vpos = lp + 13;
    assert(s.subrange(vpos, vpos + ser_color(g.end_color).len())[0] == '[');
    assert(!is_ws('['));
    lemma_ws_stop(s, vpos);
    lemma_sp_color_of_ser(s, vpos, g.end_color);
    assert("end_color"@ != "length"@);
    assert("end_color"@ != "mirrored"@);
    assert("end_color"@ != "start_color"@);
}

proof fn lemma_seg_field_phase_offset(s: Seq<char>, lp: int, g: Segment, acc: SegFields)
    requires
        0 <= lp,
        s.subrange(lp, lp + 16) == lbl_phase_offset(),
        lp + 16 + ser_nat(g.phase_offset as int).len() < s.len(),
        s.subrange(lp + 16, lp + 16 + ser_nat(g.phase_offset as int).len()) == ser_nat(g.phase_offset as int),
        !is_digit(s[lp + 16 + ser_nat(g.phase_offset as int).len()]),
        acc.phase_offset is None,
    ensures
        sp_field(s, lp + 1, acc) == Some(
            (SegFields { phase_offset: Some(g.phase_offset), ..acc }, lp + 16 + ser_nat(g.phase_offset as int).len()),
        ),
{
    reveal_strlit(",\"phase_offset\":");
    reveal_strlit("phase_offset");
    reveal_strlit("length");
    reveal_strlit("mirrored");
    reveal_strlit("start_color");
    reveal_strlit("end_color");
    lemma_ser_nat_props(g.phase_offset as int);
    assert(lbl_phase_offset() =~= seq![',', '"'] + (("phase_offset"@ + seq!['"']) + seq![':']));
    lemma_split(s, lp, seq![',', '"'], ("phase_offset"@ + seq!['"']) + seq![':']);
    lemma_split(s, lp + 2, "phase_offset"@ + seq!['"'], seq![':']);
    assert(s.subrange(lp, lp + 2)[1] == '"');
    assert(s[lp + 1] == '"');
    lemma_ws_stop(s, lp + 1);
    assert forall|m: int| 0 <= m < "phase_offset"@.len() implies "phase_offset"@[m] != '"' && "phase_offset"@[m] != '\\' by {}
    lemma_sp_plain_str(s, lp + 2, "phase_offset"@);
    let cp = lp + 2 + 12 + 1;
    assert(s.subrange(cp, cp + 1)[0] == ':');
    assert(s[cp] == ':');
    lemma_ws_stop(s, cp);
    let vpos = lp + 16;
    assert(s.subrange(vpos, vpos + ser_nat(g.phase_offset as int).len())[0] == ser_nat(g.phase_offset as int)[0]);
    lemma_digit_not_ws(ser_nat(g.phase_offset as int)[0]);
    lemma_ws_stop(s, vpos);
    lemma_sp_u32_of_ser(s, vpos, g.phase_offset as int);
    assert("phase_offset"@ != "length"@);
    assert("phase_offset"@ != "mirrored"@);
    assert("phase_offset"@ != "start_color"@);
    assert("phase_offset"@ != "end_color"@);
}

proof fn lemma_seg_field_period(s: Seq<char>, lp: int, g: Segment, acc: SegFields)
    requires
        0 <= lp,
        s.subrange(lp, lp + 10) == lbl_period(),
        lp + 10 + ser_nat(g.period as int).len() < s.len(),
        s.subrange(lp + 10, lp + 10 + ser_nat(g.period as int).len()) == ser_nat(g.period as int),
        !is_digit(s[lp + 10 + ser_nat(g.period as int).len()]),
        acc.period is None,
    ensures
        sp_field(s, lp + 1, acc) == Some(
            (SegFields { period: Some(g.period), ..acc }, lp + 10 + ser_nat(g.period as int).len()),
        ),
{
    reveal_strlit(",\"period\":");
    reveal_strlit("period");
    reveal_strlit("length");
    reveal_strlit("mirrored");
    reveal_strlit("start_color");
    reveal_strlit("end_color");
    reveal_strlit("phase_offset");
    lemma_ser_nat_props(g.period as int);
    assert(lbl_period() =~= seq![',', '"'] + (("period"@ + seq!['"']) + seq![':']));
    lemma_split(s, lp, seq![',', '"'], ("period"@ + seq!['"']) + seq![':']);
    lemma_split(s, lp + 2, "period"@ + seq!['"'], seq![':']);
    assert(s.subrange(lp, lp + 2)[1] == '"');
    assert(s[lp + 1] == '"');
    lemma_ws_stop(s, lp + 1);
    assert forall|m: int| 0 <= m < "period"@.len() implies "period"@[m] != '"' && "period"@[m] != '\\' by {}
    lemma_sp_plain_str(s, lp + 2, "period"@);
    let cp = lp + 2 + 6 + 1;
    assert(s.subrange(cp, cp + 1)[0] == ':');
    assert(s[cp] == ':');
    lemma_ws_stop(s, cp);
    let vpos = lp + 10;
    assert(s.subrange(vpos, vpos + ser_nat(g.period as int).len())[0] == ser_nat(g.period as int)[0]);
    lemma_digit_not_ws(ser_nat(g.period as int)[0]);
    lemma_ws_stop(s, vpos);
    lemma_sp_u32_of_ser(s, vpos, g.period as int);
    assert("period"@[0] != "length"@[0]);
    assert("period"@ != "length"@);
    assert("period"@ != "mirrored"@);
    assert("period"@ != "start_color"@);
    assert("period"@ != "end_color"@);
    assert("period"@ != "phase_offset"@);
}

proof fn lemma_seg_field_brightness(s: Seq<char>, lp: int, g: Segment, acc: SegFields)
    requires
        0 <= lp,
        s.subrange(lp, lp + 14) == lbl_brightness(),
        lp + 14 + ser_nat(g.brightness as int).len() < s.len(),
        s.subrange(lp + 14, lp + 14 + ser_nat(g.brightness as int).len()) == ser_nat(g.brightness as int),
        !is_digit(s[lp + 14 + ser_nat(g.brightness as int).len()]),
        acc.brightness is None,
    ensures
        sp_field(s, lp + 1, acc) == Some(
            (SegFields { brightness: Some(g.brightness), ..acc }, lp + 14 + ser_nat(g.brightness as int).len()),
        ),
{
    reveal_strlit(",\"brightness\":");
    reveal_strlit("brightness");
    reveal_strlit("length");
    reveal_strlit("mirrored");
    reveal_strlit("start_color");
    reveal_strlit("end_color");
    reveal_strlit("phase_offset");
    reveal_strlit("period");
    lemma_ser_nat_props(g.brightness as int);
    assert(lbl_brightness() =~= seq![',', '"'] + (("brightness"@ + seq!['"']) + seq![':']));
    lemma_split(s, lp, seq![',', '"'], ("brightness"@ + seq!['"']) + seq![':']);
    lemma_split(s, lp + 2, "brightness"@ + seq!['"'], seq![':']);
    assert(s.subrange(lp, lp + 2)[1] == '"');
    assert(s[lp + 1] == '"');
    lemma_ws_stop(s, lp + 1);
    assert forall|m: int| 0 <= m < "brightness"@.len() implies "brightness"@[m] != '"' && "brightness"@[m] != '\\' by {}
    lemma_sp_plain_str(s, lp + 2, "brightness"@);
    let cp = lp + 2 + 10 + 1;
    assert(s.subrange(cp, cp + 1)[0] == ':');
    assert(s[cp] == ':');
    lemma_ws_stop(s, cp);
    let vpos = lp + 14;
    assert(s.subrange(vpos, vpos + ser_nat(g.brightness as int).len())[0] == ser_nat(g.brightness as int)[0]);
    lemma_digit_not_ws(ser_nat(g.brightness as int)[0]);
    lemma_ws_stop(s, vpos);
    lemma_sp_u8_of_ser(s, vpos, g.brightness as int);
    assert("brightness"@ != "length"@);
    assert("brightness"@ != "mirrored"@);
    assert("brightness"@ != "start_color"@);
    assert("brightness"@ != "end_color"@);
    assert("brightness"@ != "phase_offset"@);
    assert("brightness"@ != "period"@);
}

/// A serialized segment object parses back.
#[verifier::rlimit(100)]
proof fn lemma_sp_segment_of_ser(s: Seq<char>, i: int, g: Segment)
    requires
        0 <= i,
        i + ser_segment(g).len() <= s.len(),
        s.subrange(i, i + ser_segment(g).len()) == ser_segment(g),
    ensures
        sp_segment(s, i) == Some((g, i + ser_segment(g).len())),
{
    reveal_strlit("{\"length\":");
    reveal_strlit(",\"mirrored\":");
    reveal_strlit(",\"start_color\":");
    reveal_strlit(",\"end_color\":");
    reveal_strlit(",\"phase_offset\":");
    reveal_strlit(",\"period\":");
    reveal_strlit(",\"brightness\":");
    reveal_strlit("true");
    reveal_strlit("false");
    lemma_ser_nat_props(g.length as int);
    lemma_ser_nat_props(g.phase_offset as int);
    lemma_ser_nat_props(g.period as int);
    lemma_ser_nat_props(g.brightness as int);
    lemma_seg_windows_head(s, i, g);
    lemma_seg_windows_tail(s, i, g);
    let l0 = i;
    let l1 = l0 + lbl_length().len() + ser_nat(g.length as int).len();
    let l2 = l1 + lbl_mirrored().len() + ser_bool(g.mirrored).len();
    let l3 = l2 + lbl_start_color().len() + ser_color(g.start_color).len();
    let l4 = l3 + lbl_end_color().len() + ser_color(g.end_color).len();
    let l5 = l4 + lbl_phase_offset().len() + ser_nat(g.phase_offset as int).len();
    let l6 = l5 + lbl_period().len() + ser_nat(g.period as int).len();
    let jend = l6 + lbl_brightness().len() + ser_nat(g.brightness as int).len();
    let a0 = SegFields { length: None, mirrored: None, start_color: None, end_color: None, phase_offset: None, period: None, brightness: None };
    let a1 = SegFields { length: Some(g.length), mirrored: None, start_color: None, end_color: None, phase_offset: None, period: None, brightness: None };
    let a2 = SegFields { length: Some(g.length), mirrored: Some(g.mirrored), start_color: None, end_color: None, phase_offset: None, period: None, brightness: None };
    let a3 = SegFields { length: Some(g.length), mirrored: Some(g.mirrored), start_color: Some(g.start_color), end_color: None, phase_offset: None, period: None, brightness: None };
    let a4 = SegFields { length: Some(g.length), mirrored: Some(g.mirrored), start_color: Some(g.start_color), end_color: Some(g.end_color), phase_offset: None, period: None, brightness: None };
    let a5 = SegFields { length: Some(g.length), mirrored: Some(g.mirrored), start_color: Some(g.start_color), end_color: Some(g.end_color), phase_offset: Some(g.phase_offset), period: None, brightness: None };
    let a6 = SegFields { length: Some(g.length), mirrored: Some(g.mirrored), start_color: Some(g.start_color), end_color: Some(g.end_color), phase_offset: Some(g.phase_offset), period: Some(g.period), brightness: None };
    let a7 = SegFields { length: Some(g.length), mirrored: Some(g.mirrored), start_color: Some(g.start_color), end_color: Some(g.end_color), phase_offset: Some(g.phase_offset), period: Some(g.period), brightness: Some(g.brightness) };
    assert(s.subrange(l0, l0 + 10) == lbl_length());
    assert(s.subrange(l0 + 10, l0 + 10 + ser_nat(g.length as int).len()) == ser_nat(g.length as int));
    assert(s.subrange(l0 + 10 + ser_nat(g.length as int).len(), l0 + 10 + ser_nat(g.length as int).len() + lbl_mirrored().len())[0] == lbl_mirrored()[0]);
    assert(s[l0 + 10 + ser_nat(g.length as int).len()] == ',');
    assert(!is_digit(s[l0 + 10 + ser_nat(g.length as int).len()]));
    assert(!is_ws(s[l0 + 10 + ser_nat(g.length as int).len()]));
    lemma_ws_stop(s, l0 + 10 + ser_nat(g.length as int).len());
    lemma_seg_field_length(s, l0, g, a0);
    assert(sp_field(s, l0 + 1, a0) == Some((a1, l0 + 10 + ser_nat(g.length as int).len())));
    assert(s.subrange(l1, l1 + 12) == lbl_mirrored());
    assert(s.subrange(l1 + 12, l1 + 12 + ser_bool(g.mirrored).len()) == ser_bool(g.mirrored));
    assert(s.subrange(l1 + 12 + ser_bool(g.mirrored).len(), l1 + 12 + ser_bool(g.mirrored).len() + lbl_start_color().len())[0] == lbl_start_color()[0]);
    assert(s[l1 + 12 + ser_bool(g.mirrored).len()] == ',');
    assert(!is_ws(s[l1 + 12 + ser_bool(g.mirrored).len()]));
    lemma_ws_stop(s, l1 + 12 + ser_bool(g.mirrored).len());
    lemma_seg_field_mirrored(s, l1, g, a1);
    assert(sp_field(s, l1 + 1, a1) == Some((a2, l1 + 12 + ser_bool(g.mirrored).len())));
    assert(s.subrange(l2, l2 + 15) == lbl_start_color());
    assert(s.subrange(l2 + 15, l2 + 15 + ser_color(g.start_color).len()) == ser_color(g.start_color));
    assert(s.subrange(l2 + 15 + ser_color(g.start_color).len(), l2 + 15 + ser_color(g.start_color).len() + lbl_end_color().len())[0] == lbl_end_color()[0]);
    assert(s[l2 + 15 + ser_color(g.start_color).len()] == ',');
    assert(!is_ws(s[l2 + 15 + ser_color(g.start_color).len()]));
    lemma_ws_stop(s, l2 + 15 + ser_color(g.start_color).len());
    lemma_seg_field_start_color(s, l2, g, a2);
    assert(sp_field(s, l2 + 1, a2) == Some((a3, l2 + 15 + ser_color(g.start_color).len())));
    assert(s.subrange(l3, l3 + 13) == lbl_end_color());
    assert(s.subrange(l3 + 13, l3 + 13 + ser_color(g.end_color).len()) == ser_color(g.end_color));
    assert(s.subrange(l3 + 13 + ser_color(g.end_color).len(), l3 + 13 + ser_color(g.end_color).len() + lbl_phase_offset().len())[0] == lbl_phase_offset()[0]);
    assert(s[l3 + 13 + ser_color(g.end_color).len()] == ',');
    assert(!is_ws(s[l3 + 13 + ser_color(g.end_color).len()]));
    lemma_ws_stop(s, l3 + 13 + ser_color(g.end_color).len());
    lemma_seg_field_end_color(s, l3, g, a3);
    assert(sp_field(s, l3 + 1, a3) == Some((a4, l3 + 13 + ser_color(g.end_color).len())));
    assert(s.subrange(l4, l4 + 16) == lbl_phase_offset());
    assert(s.subrange(l4 + 16, l4 + 16 + ser_nat(g.phase_offset as int).len()) == ser_nat(g.phase_offset as int));
    assert(s.subrange(l4 + 16 + ser_nat(g.phase_offset as int).len(), l4 + 16 + ser_nat(g.phase_offset as int).len() + lbl_period().len())[0] == lbl_period()[0]);
    assert(s[l4 + 16 + ser_nat(g.phase_offset as int).len()] == ',');
    assert(!is_digit(s[l4 + 16 + ser_nat(g.phase_offset as int).len()]));
    assert(!is_ws(s[l4 + 16 + ser_nat(g.phase_offset as int).len()]));
    lemma_ws_stop(s, l4 + 16 + ser_nat(g.phase_offset as int).len());
    lemma_seg_field_phase_offset(s, l4, g, a4);
    assert(sp_field(s, l4 + 1, a4) == Some((a5, l4 + 16 + ser_nat(g.phase_offset as int).len())));
    assert(s.subrange(l5, l5 + 10) == lbl_period());
    assert(s.subrange(l5 + 10, l5 + 10 + ser_nat(g.period as int).len()) == ser_nat(g.period as int));
    assert(s.subrange(l5 + 10 + ser_nat(g.period as int).len(), l5 + 10 + ser_nat(g.period as int).len() + lbl_brightness().len())[0] == lbl_brightness()[0]);
    assert(s[l5 + 10 + ser_nat(g.period as int).len()] == ',');
    assert(!is_digit(s[l5 + 10 + ser_nat(g.period as int).len()]));
    assert(!is_ws(s[l5 + 10 + ser_nat(g.period as int).len()]));
    lemma_ws_stop(s, l5 + 10 + ser_nat(g.period as int).len());
    lemma_seg_field_period(s, l5, g, a5);
    assert(sp_field(s, l5 + 1, a5) == Some((a6, l5 + 10 + ser_nat(g.period as int).len())));
    assert(s.subrange(l6, l6 + 14) == lbl_brightness());
    assert(s.subrange(l6 + 14, l6 + 14 + ser_nat(g.brightness as int).len()) == ser_nat(g.brightness as int));
    assert(s.subrange(l6 + 14 + ser_nat(g.brightness as int).len(), l6 + 14 + ser_nat(g.brightness as int).len() + 1)[0] == '}');
    assert(s[l6 + 14 + ser_nat(g.brightness as int).len()] == '}');
    assert(!is_digit(s[l6 + 14 + ser_nat(g.brightness as int).len()]));
    assert(!is_ws(s[l6 + 14 + ser_nat(g.brightness as int).len()]));
    lemma_ws_stop(s, l6 + 14 + ser_nat(g.brightness as int).len());
    lemma_seg_field_brightness(s, l6, g, a6);
    assert(sp_field(s, l6 + 1, a6) == Some((a7, l6 + 14 + ser_nat(g.brightness as int).len())));
    assert(sp_seg_fields(s, l6 + 1, a6) == Some((a7, jend)));
    assert(l5 + 10 + ser_nat(g.period as int).len() == l6);
    assert(sp_seg_fields(s, l5 + 1, a5) == sp_seg_fields(s, l6 + 1, a6));
    assert(l4 + 16 + ser_nat(g.phase_offset as int).len() == l5);
    assert(sp_seg_fields(s, l4 + 1, a4) == sp_seg_fields(s, l5 + 1, a5));
    assert(l3 + 13 + ser_color(g.end_color).len() == l4);
    assert(sp_seg_fields(s, l3 + 1, a3) == sp_seg_fields(s, l4 + 1, a4));
    assert(l2 + 15 + ser_color(g.start_color).len() == l3);
    assert(sp_seg_fields(s, l2 + 1, a2) == sp_seg_fields(s, l3 + 1, a3));
    assert(l1 + 12 + ser_bool(g.mirrored).len() == l2);
    assert(sp_seg_fields(s, l1 + 1, a1) == sp_seg_fields(s, l2 + 1, a2));
    assert(l0 + 10 + ser_nat(g.length as int).len() == l1);
    assert(sp_seg_fields(s, l0 + 1, a0) == sp_seg_fields(s, l1 + 1, a1));
    assert(sp_seg_fields(s, i + 1, empty_fields()) == Some((a7, jend)));
    assert(lbl_length()[0] == '{');
    assert(s.subrange(l0, l0 + 10)[0] == '{');
    assert(s[i] == '{');
    assert(!is_ws('{'));
    lemma_ws_stop(s, i);
    assert(complete_fields(a7) == Some(Segment {
        length: g.length,
        mirrored: g.mirrored,
        start_color: g.start_color,
        end_color: g.end_color,
        phase_offset: g.phase_offset,
        period: g.period,
        brightness: g.brightness,
    }));
    assert(Segment {
        length: g.length,
        mirrored: g.mirrored,
        start_color: g.start_color,
        end_color: g.end_color,
        phase_offset: g.phase_offset,
        period: g.period,
        brightness: g.brightness,
    } == g);
    assert(sp_segment(s, i) == Some((g, jend + 1)));
    assert(jend + 1 == i + ser_segment(g).len());
}



/// A serialized entry parses back.
proof fn lemma_sp_entry_of_ser(s: Seq<char>, i: int, e: (Seq<char>, Segment))
    requires
        0 <= i,
        i + ser_entry(e).len() <= s.len(),
        s.subrange(i, i + ser_entry(e).len()) == ser_entry(e),
    ensures
        sp_entry(s, i) == Some((e, i + ser_entry(e).len())),
{
    let body = ser_str_body(e.0);
    let r2 = seq![':'] + ser_segment(e.1);
    let r1 = (body + seq!['"']) + r2;
    assert(ser_entry(e) =~= seq!['"'] + r1);
    assert(s.subrange(i, i + (seq!['"'] + r1).len()) == seq!['"'] + r1);
    lemma_split(s, i, seq!['"'], r1);
    let p0 = i + 1;
    assert(s.subrange(i, p0)[0] == '"');
    assert(s[i] == '"');
    assert(!is_ws('"'));
    lemma_ws_stop(s, i);
    lemma_split(s, p0, body + seq!['"'], r2);
    let p1 = p0 + body.len() + 1;
    lemma_sp_str_of_ser(s, p0, e.0);
    lemma_split(s, p1, seq![':'], ser_segment(e.1));
    let p2 = p1 + 1;
    assert(s.subrange(p1, p2)[0] == ':');
    assert(s[p1] == ':');
    assert(!is_ws(':'));
    lemma_ws_stop(s, p1);
    lemma_sp_segment_of_ser(s, p2, e.1);
    let p3 = p2 + ser_segment(e.1).len();
    assert(sp_entry(s, i) == Some(((e.0, e.1), p3)));
    assert((e.0, e.1) == e);
    assert(p3 == i + ser_entry(e).len());
}

/// A serialized entry list parses back, provided neither a comma nor
/// whitespace follows it.
proof fn lemma_sp_entries_of_ser(s: Seq<char>, i: int, es: Seq<(Seq<char>, Segment)>, k: int)
    requires
        0 <= k < es.len(),
        0 <= i,
        i + ser_entry(es[k]).len() + ser_rest(es, k + 1).len() <= s.len(),
        s.subrange(i, i + ser_entry(es[k]).len() + ser_rest(es, k + 1).len()) == ser_entry(es[k])
            + ser_rest(es, k + 1),
        i + ser_entry(es[k]).len() + ser_rest(es, k + 1).len() == s.len() || (s[i + ser_entry(
            es[k],
        ).len() + ser_rest(es, k + 1).len()] != ',' && !is_ws(
            s[i + ser_entry(es[k]).len() + ser_rest(es, k + 1).len()],
        )),
    ensures
        sp_entries(s, i) == Some(
            (
                es.subrange(k, es.len() as int),
                i + ser_entry(es[k]).len() + ser_rest(es, k + 1).len(),
            ),
        ),
    decreases es.len() - k,
{
    let ent = ser_entry(es[k]);
    let rest = ser_rest(es, k + 1);
    lemma_split(s, i, ent, rest);
    lemma_sp_entry_of_ser(s, i, es[k]);
    let j = i + ent.len();
    let fin = j + rest.len();
    if k + 1 < es.len() {
        let ent2 = ser_entry(es[k + 1]);
        let rest2 = ser_rest(es, k + 2);
        assert(rest == seq![','] + ent2 + rest2);
        assert(rest =~= seq![','] + (ent2 + rest2));
        lemma_split(s, j, seq![','], ent2 + rest2);
        assert(s.subrange(j, j + 1)[0] == ',');
        assert(s[j] == ',');
        assert(!is_ws(','));
        lemma_ws_stop(s, j);
        assert(j < s.len());
        lemma_sp_entries_of_ser(s, j + 1, es, k + 1);
        assert(sp_entries(s, j + 1) == Some((es.subrange(k + 1, es.len() as int), fin)));
        assert(sp_entries(s, i) == Some(
            (seq![es[k]] + es.subrange(k + 1, es.len() as int), fin),
        ));
        assert(seq![es[k]] + es.subrange(k + 1, es.len() as int) =~= es.subrange(
            k,
            es.len() as int,
        ));
    } else {
        assert(rest =~= Seq::<char>::empty());
        assert(fin == j);
        lemma_ws_stop(s, j);
        assert(j == s.len() || s[j] != ',');
        assert(sp_entries(s, i) == Some((seq![es[k]], j)));
        assert(seq![es[k]] =~= es.subrange(k, es.len() as int));
    }
}

/// The codec round trip: parsing the serialized form of any entry sequence
/// yields exactly that sequence, order and all fields preserved. Together
/// with the contracts of `serialize_registry` and `parse_registry` this says
/// that a persisted or transmitted registry is restored unchanged.
#[verifier::rlimit(100)]
pub proof fn lemma_codec_round_trip(es: Seq<(Seq<char>, Segment)>)
    ensures
        sp_registry(ser_registry(es)) == Some(es),
{
    let s = ser_registry(es);
    if es.len() == 0 {
        assert(s == seq!['{', '}']);
        assert(!is_ws('{') && !is_ws('}'));
        lemma_ws_stop(s, 0);
        lemma_ws_stop(s, 1);
        lemma_ws_stop(s, 2);
        assert(sp_registry(s) == Some(Seq::<(Seq<char>, Segment)>::empty()));
        assert(Seq::<(Seq<char>, Segment)>::empty() =~= es);
    } else {
        let ent = ser_entry(es[0]);
        let rest = ser_rest(es, 1);
        let mid = ent + rest;
        assert(s =~= seq!['{'] + (mid + seq!['}']));
        assert(s.subrange(0, s.len() as int) =~= s);
        lemma_split(s, 0, seq!['{'], mid + seq!['}']);
        assert(s.subrange(0, 1)[0] == '{');
        assert(s[0] == '{');
        assert(!is_ws('{'));
        lemma_ws_stop(s, 0);
        lemma_split(s, 1, mid, seq!['}']);
        let e: int = 1 + mid.len() as int;
        assert(s.subrange(e, e + 1)[0] == '}');
        assert(s[e] == '}');
        // the document is not the empty object: an entry starts with a quote
        assert(s.subrange(1, 1 + mid.len() as int)[0] == (seq!['"'] + (ser_str_body(es[0].0)
            + seq!['"', ':'] + ser_segment(es[0].1)))[0]) by {
            assert(ent =~= seq!['"'] + (ser_str_body(es[0].0) + seq!['"', ':'] + ser_segment(
                es[0].1,
            )));
            assert(mid[0] == ent[0]);
        }
        assert(s[1] == '"');
        assert(!is_ws('"'));
        lemma_ws_stop(s, 1);
        assert(s[1] != '}');
        lemma_sp_entries_of_ser(s, 1, es, 0);
        assert(sp_entries(s, 1) == Some((es.subrange(0, es.len() as int), e)));
        lemma_ws_stop(s, e + 1);
        assert(ws_end(s, e + 1) == s.len());
        assert(sp_registry(s) == Some(es.subrange(0, es.len() as int)));
        assert(es.subrange(0, es.len() as int) =~= es);
    }
}


} // verus!
