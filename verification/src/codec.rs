//! The persisted document format: a JSON object with exact field names, the
//! shape in which the state document is written to and read from disk.
//!
//! `json_state` is the canonical text of a document; `encode_state` produces
//! exactly that text. `decode_state` parses the format back, tolerating
//! whitespace between tokens and epic/story keys in any order.

use crate::models::DbError;
use crate::models::EpicView;
use crate::models::Status;
use crate::models::StoryView;
use crate::models::StateView;
use crate::models::DBState;
use crate::models::Epic;
use crate::models::Story;
use crate::idmap::IdMap;
use vstd::prelude::*;

verus! {

// ---------------------------------------------------------------------------
// Character classes and digit strings
// ---------------------------------------------------------------------------

/// JSON insignificant whitespace.
pub open spec fn is_ws(c: char) -> bool {
    c == ' ' || c == '\n' || c == '\t' || c == '\r'
}

/// A decimal digit.
pub open spec fn is_digit(c: char) -> bool {
    48 <= c as u32 && c as u32 <= 57
}

/// The value of a decimal digit.
pub open spec fn digit_val(c: char) -> int {
    c as u32 - 48
}

/// The character of a decimal digit value.
pub open spec fn digit_char(d: int) -> char {
    ((d + 48) as u32) as char
}

/// The decimal digits of `n`, most significant first, no leading zero.
pub open spec fn dec_digits(n: nat) -> Seq<char>
    decreases n,
{
    if n < 10 {
        seq![digit_char(n as int)]
    } else {
        dec_digits(n / 10).push(digit_char((n % 10) as int))
    }
}

/// The number a digit string denotes.
pub open spec fn val_of_digits(s: Seq<char>) -> int
    decreases s.len(),
{
    if s.len() == 0 {
        0
    } else {
        val_of_digits(s.drop_last()) * 10 + digit_val(s.last())
    }
}

/// The decimal digits of `n` really are digits, denote `n`, and never start
/// with a zero unless `n` is zero.
pub proof fn lemma_dec_digits(n: nat)
    ensures
        dec_digits(n).len() >= 1,
        forall|i: int| 0 <= i < dec_digits(n).len() ==> is_digit(#[trigger] dec_digits(n)[i]),
        val_of_digits(dec_digits(n)) == n,
        n > 0 ==> dec_digits(n)[0] != '0',
        n == 0 ==> dec_digits(n) == seq!['0'],
    decreases n,
{
    if n < 10 {
        let c = digit_char(n as int);
        assert(c as u32 == n + 48);
        assert(dec_digits(n).drop_last() =~= Seq::<char>::empty());
        assert(val_of_digits(Seq::<char>::empty()) == 0);
        assert(dec_digits(n).last() == c);
        assert(digit_val(c) == n);
        assert(val_of_digits(dec_digits(n)) == n);
        if n == 0 {
            assert(digit_char(0) == '0');
            assert(dec_digits(0) =~= seq!['0']);
        } else {
            assert(c != '0');
        }
    } else {
        lemma_dec_digits(n / 10);
        let p = dec_digits(n / 10);
        let c = digit_char((n % 10) as int);
        assert(c as u32 == n % 10 + 48);
        let r = dec_digits(n);
        assert(r == p.push(c));
        assert(r.drop_last() =~= p);
        assert(r.last() == c);
        assert(val_of_digits(r) == val_of_digits(p) * 10 + (n % 10));
        vstd::arithmetic::div_mod::lemma_fundamental_div_mod(n as int, 10);
        assert(r[0] == p[0]);
        assert(n / 10 > 0);
    }
}

/// On an all-digit string, the denoted number never shrinks as the string
/// grows to the right, and is never negative.
pub proof fn lemma_val_of_digits_grows(s: Seq<char>, k: int)
    requires
        0 <= k <= s.len(),
        forall|i: int| 0 <= i < s.len() ==> is_digit(#[trigger] s[i]),
    ensures
        0 <= val_of_digits(s.take(k)) <= val_of_digits(s),
    decreases s.len(),
{
    if s.len() == 0 {
        assert(s.take(k) =~= s);
    } else {
        let p = s.drop_last();
        assert(forall|i: int| 0 <= i < p.len() ==> #[trigger] p[i] == s[i]);
        lemma_val_of_digits_grows(p, if k <= p.len() { k } else { p.len() as int });
        assert(is_digit(s.last()));
        assert(digit_val(s.last()) >= 0);
        if k <= p.len() {
            assert(s.take(k) =~= p.take(k));
        } else {
            assert(s.take(k) =~= s);
        }
    }
}

// ---------------------------------------------------------------------------
// Status names
// ---------------------------------------------------------------------------

/// The serialized tag of a status: the variant name.
pub open spec fn status_chars(st: Status) -> Seq<char> {
    match st {
        Status::Open => ("Open")@,
        Status::InProgress => ("InProgress")@,
        Status::Resolved => ("Resolved")@,
        Status::Closed => ("Closed")@,
    }
}

/// The status a tag denotes, if any.
pub open spec fn status_of_name(s: Seq<char>) -> Option<Status> {
    if s == ("Open")@ {
        Some(Status::Open)
    } else if s == ("InProgress")@ {
        Some(Status::InProgress)
    } else if s == ("Resolved")@ {
        Some(Status::Resolved)
    } else if s == ("Closed")@ {
        Some(Status::Closed)
    } else {
        None
    }
}

/// Reading a written status tag gives the status back.
pub proof fn lemma_status_roundtrip(st: Status)
    ensures
        status_of_name(status_chars(st)) == Some(st),
{
    reveal_strlit("Open");
    reveal_strlit("InProgress");
    reveal_strlit("Resolved");
    reveal_strlit("Closed");
    assert(("Open")@.len() == 4);
    assert(("InProgress")@.len() == 10);
    assert(("Resolved")@.len() == 8);
    assert(("Closed")@.len() == 6);
}

// ---------------------------------------------------------------------------
// String escaping
// ---------------------------------------------------------------------------

/// The lower-case hex character of a value below sixteen.
pub open spec fn hex_lower(d: int) -> char {
    if d < 10 {
        digit_char(d)
    } else {
        ((d + 87) as u32) as char
    }
}

/// The escape of one character inside a JSON string: quote and backslash by
/// name, the five short control escapes, other control characters as
/// `\u00..`, everything else as itself.
pub open spec fn esc_char(c: char) -> Seq<char> {
    if c == '"' {
        seq!['\\', '"']
    } else if c == '\\' {
        seq!['\\', '\\']
    } else if c as u32 == 8 {
        seq!['\\', 'b']
    } else if c == '\t' {
        seq!['\\', 't']
    } else if c == '\n' {
        seq!['\\', 'n']
    } else if c as u32 == 12 {
        seq!['\\', 'f']
    } else if c == '\r' {
        seq!['\\', 'r']
    } else if (c as u32) < 32 {
        seq!['\\', 'u', '0', '0', hex_lower((c as u32 / 16) as int), hex_lower((c as u32 % 16) as int)]
    } else {
        seq![c]
    }
}

/// The escaped body of a JSON string.
pub open spec fn json_escape(s: Seq<char>) -> Seq<char>
    decreases s.len(),
{
    if s.len() == 0 {
        Seq::<char>::empty()
    } else {
        json_escape(s.drop_last()) + esc_char(s.last())
    }
}

/// A JSON string: quoted escaped body.
pub open spec fn json_string(s: Seq<char>) -> Seq<char> {
    seq!['"'] + json_escape(s) + seq!['"']
}

// ---------------------------------------------------------------------------
// The document grammar, canonical form
// ---------------------------------------------------------------------------

/// A story id list, comma separated.
pub open spec fn json_ids_body(l: Seq<u32>) -> Seq<char>
    decreases l.len(),
{
    if l.len() == 0 {
        Seq::<char>::empty()
    } else if l.len() == 1 {
        dec_digits(l[0] as nat)
    } else {
        json_ids_body(l.drop_last()) + seq![','] + dec_digits(l.last() as nat)
    }
}

/// A story id array.
pub open spec fn json_ids(l: Seq<u32>) -> Seq<char> {
    seq!['['] + json_ids_body(l) + seq![']']
}

/// A status value.
pub open spec fn json_status(st: Status) -> Seq<char> {
    seq!['"'] + status_chars(st) + seq!['"']
}

/// A story object.
pub open spec fn json_story(v: StoryView) -> Seq<char> {
    ("{\"name\":")@ + json_string(v.name) + (",\"description\":")@ + json_string(v.description)
        + (",\"status\":")@ + json_status(v.status) + ("}")@
}

/// An epic object.
pub open spec fn json_epic(v: EpicView) -> Seq<char> {
    ("{\"name\":")@ + json_string(v.name) + (",\"description\":")@ + json_string(v.description)
        + (",\"status\":")@ + json_status(v.status) + (",\"stories\":")@ + json_ids(v.stories)
        + ("}")@
}

/// One epic map entry: the id as a string key, then the object.
pub open spec fn json_epic_entry(k: u32, v: EpicView) -> Seq<char> {
    seq!['"'] + dec_digits(k as nat) + ("\":")@ + json_epic(v)
}

/// One story map entry.
pub open spec fn json_story_entry(k: u32, v: StoryView) -> Seq<char> {
    seq!['"'] + dec_digits(k as nat) + ("\":")@ + json_story(v)
}

/// The body of the epics object, comma separated, in entry order.
pub open spec fn json_epic_entries_body(es: Seq<(u32, EpicView)>) -> Seq<char>
    decreases es.len(),
{
    if es.len() == 0 {
        Seq::<char>::empty()
    } else if es.len() == 1 {
        json_epic_entry(es[0].0, es[0].1)
    } else {
        json_epic_entries_body(es.drop_last()) + seq![','] + json_epic_entry(
            es.last().0,
            es.last().1,
        )
    }
}

/// The body of the stories object.
pub open spec fn json_story_entries_body(es: Seq<(u32, StoryView)>) -> Seq<char>
    decreases es.len(),
{
    if es.len() == 0 {
        Seq::<char>::empty()
    } else if es.len() == 1 {
        json_story_entry(es[0].0, es[0].1)
    } else {
        json_story_entries_body(es.drop_last()) + seq![','] + json_story_entry(
            es.last().0,
            es.last().1,
        )
    }
}

/// The epics object.
pub open spec fn json_epic_entries(es: Seq<(u32, EpicView)>) -> Seq<char> {
    seq!['{'] + json_epic_entries_body(es) + seq!['}']
}

/// The stories object.
pub open spec fn json_story_entries(es: Seq<(u32, StoryView)>) -> Seq<char> {
    seq!['{'] + json_story_entries_body(es) + seq!['}']
}

/// The canonical text of a whole document.
pub open spec fn json_state(sv: StateView) -> Seq<char> {
    ("{\"last_item_id\":")@ + dec_digits(sv.last_item_id as nat) + (",\"epics\":")@
        + json_epic_entries(sv.epics) + (",\"stories\":")@ + json_story_entries(sv.stories)
        + ("}")@
}

// ---------------------------------------------------------------------------
// The encoder
// ---------------------------------------------------------------------------

/// Append the characters of `s`.
fn append_str_chars(out: &mut Vec<char>, s: &str)
    ensures
        final(out)@ == old(out)@ + s@,
{
    let n = s.unicode_len();
    for i in 0..n
        invariant
            n == s@.len(),
            out@ == old(out)@ + s@.take(i as int),
    {
        let c = s.get_char(i);
        out.push(c);
        proof {
            assert(out@ =~= old(out)@ + s@.take(i + 1));
        }
    }
    proof {
        assert(s@.take(n as int) =~= s@);
    }
}

/// Append the decimal digits of `n`.
fn append_u32(out: &mut Vec<char>, n: u32)
    ensures
        final(out)@ == old(out)@ + dec_digits(n as nat),
    decreases n,
{
    if n < 10 {
        let c = ((n as u8) + 48) as char;
        proof {
            assert(c == digit_char(n as int));
        }
        out.push(c);
        proof {
            assert(out@ =~= old(out)@ + dec_digits(n as nat));
        }
    } else {
        append_u32(out, n / 10);
        let c = ((n % 10) as u8 + 48) as char;
        proof {
            assert(c == digit_char((n % 10) as int));
        }
        out.push(c);
        proof {
            assert(out@ =~= old(out)@ + dec_digits(n as nat));
        }
    }
}

/// Append the escape of one character.
fn append_esc_char(out: &mut Vec<char>, c: char)
    ensures
        final(out)@ == old(out)@ + esc_char(c),
{
    let u = c as u32;
    if c == '"' {
        out.push('\\');
        out.push('"');
    } else if c == '\\' {
        out.push('\\');
        out.push('\\');
    } else if u == 8 {
        out.push('\\');
        out.push('b');
    } else if c == '\t' {
        out.push('\\');
        out.push('t');
    } else if c == '\n' {
        out.push('\\');
        out.push('n');
    } else if u == 12 {
        out.push('\\');
        out.push('f');
    } else if c == '\r' {
        out.push('\\');
        out.push('r');
    } else if u < 32 {
        out.push('\\');
        out.push('u');
        out.push('0');
        out.push('0');
        let hi = u / 16;
        let lo = u % 16;
        let hc = if hi < 10 {
            (hi as u8 + 48) as char
        } else {
            (hi as u8 + 87) as char
        };
        let lc = if lo < 10 {
            (lo as u8 + 48) as char
        } else {
            (lo as u8 + 87) as char
        };
        proof {
            assert(hc == hex_lower(u as int / 16));
            assert(lc == hex_lower((u % 16) as int));
        }
        out.push(hc);
        out.push(lc);
    } else {
        out.push(c);
    }
    proof {
        assert(out@ =~= old(out)@ + esc_char(c));
    }
}

/// Append a quoted, escaped JSON string.
fn append_json_string(out: &mut Vec<char>, s: &str)
    ensures
        final(out)@ == old(out)@ + json_string(s@),
{
    out.push('"');
    let ghost base = out@;
    let n = s.unicode_len();
    for i in 0..n
        invariant
            n == s@.len(),
            base == old(out)@ + seq!['"'],
            out@ == base + json_escape(s@.take(i as int)),
    {
        let c = s.get_char(i);
        append_esc_char(out, c);
        proof {
            assert(s@.take(i + 1).drop_last() =~= s@.take(i as int));
            assert(s@.take(i + 1).last() == s@[i as int]);
        }
    }
    out.push('"');
    proof {
        assert(s@.take(n as int) =~= s@);
        assert(out@ =~= old(out)@ + json_string(s@));
    }
}

/// Append a story id array.
fn append_ids(out: &mut Vec<char>, l: &Vec<u32>)
    ensures
        final(out)@ == old(out)@ + json_ids(l@),
{
    out.push('[');
    let ghost base = out@;
    let n = l.len();
    for i in 0..n
        invariant
            n == l@.len(),
            base == old(out)@ + seq!['['],
            out@ == base + json_ids_body(l@.take(i as int)),
    {
        if i > 0 {
            out.push(',');
        }
        append_u32(out, l[i]);
        proof {
            assert(l@.take(i + 1).drop_last() =~= l@.take(i as int));
            assert(l@.take(i + 1).last() == l@[i as int]);
            if i == 0 {
                assert(l@.take(1).len() == 1);
                assert(out@ =~= base + json_ids_body(l@.take(1)));
            } else {
                assert(out@ =~= base + json_ids_body(l@.take(i + 1)));
            }
        }
    }
    out.push(']');
    proof {
        assert(l@.take(n as int) =~= l@);
        assert(out@ =~= old(out)@ + json_ids(l@));
    }
}

/// Append a status value.
fn append_status(out: &mut Vec<char>, st: &Status)
    ensures
        final(out)@ == old(out)@ + json_status(*st),
{
    out.push('"');
    match st {
        Status::Open => append_str_chars(out, "Open"),
        Status::InProgress => append_str_chars(out, "InProgress"),
        Status::Resolved => append_str_chars(out, "Resolved"),
        Status::Closed => append_str_chars(out, "Closed"),
    }
    out.push('"');
    proof {
        assert(out@ =~= old(out)@ + json_status(*st));
    }
}

/// Append a story object.
fn append_story(out: &mut Vec<char>, v: &Story)
    ensures
        final(out)@ == old(out)@ + json_story(v@),
{
    append_str_chars(out, "{\"name\":");
    append_json_string(out, v.name.as_str());
    append_str_chars(out, ",\"description\":");
    append_json_string(out, v.description.as_str());
    append_str_chars(out, ",\"status\":");
    append_status(out, &v.status);
    append_str_chars(out, "}");
    proof {
        assert(out@ =~= old(out)@ + json_story(v@));
    }
}

/// Append an epic object.
fn append_epic(out: &mut Vec<char>, v: &Epic)
    ensures
        final(out)@ == old(out)@ + json_epic(v@),
{
    append_str_chars(out, "{\"name\":");
    append_json_string(out, v.name.as_str());
    append_str_chars(out, ",\"description\":");
    append_json_string(out, v.description.as_str());
    append_str_chars(out, ",\"status\":");
    append_status(out, &v.status);
    append_str_chars(out, ",\"stories\":");
    append_ids(out, &v.stories);
    append_str_chars(out, "}");
    proof {
        assert(out@ =~= old(out)@ + json_epic(v@));
    }
}

/// Append the epics object, entries in their stored order.
fn append_epic_entries(out: &mut Vec<char>, m: &IdMap<Epic>)
    ensures
        final(out)@ == old(out)@ + json_epic_entries(m@),
{
    out.push('{');
    let ghost base = out@;
    let n = m.len();
    for i in 0..n
        invariant
            n == m@.len(),
            base == old(out)@ + seq!['{'],
            out@ == base + json_epic_entries_body(m@.take(i as int)),
    {
        if i > 0 {
            out.push(',');
        }
        out.push('"');
        append_u32(out, m.key_at(i));
        append_str_chars(out, "\":");
        append_epic(out, m.value_at(i));
        proof {
            assert(m@.take(i + 1).drop_last() =~= m@.take(i as int));
            assert(m@.take(i + 1).last() == m@[i as int]);
            if i == 0 {
                assert(m@.take(1).len() == 1);
                assert(out@ =~= base + json_epic_entries_body(m@.take(1)));
            } else {
                assert(out@ =~= base + json_epic_entries_body(m@.take(i + 1)));
            }
        }
    }
    out.push('}');
    proof {
        assert(m@.take(n as int) =~= m@);
        assert(out@ =~= old(out)@ + json_epic_entries(m@));
    }
}

/// Append the stories object, entries in their stored order.
fn append_story_entries(out: &mut Vec<char>, m: &IdMap<Story>)
    ensures
        final(out)@ == old(out)@ + json_story_entries(m@),
{
    out.push('{');
    let ghost base = out@;
    let n = m.len();
    for i in 0..n
        invariant
            n == m@.len(),
            base == old(out)@ + seq!['{'],
            out@ == base + json_story_entries_body(m@.take(i as int)),
    {
        if i > 0 {
            out.push(',');
        }
        out.push('"');
        append_u32(out, m.key_at(i));
        append_str_chars(out, "\":");
        append_story(out, m.value_at(i));
        proof {
            assert(m@.take(i + 1).drop_last() =~= m@.take(i as int));
            assert(m@.take(i + 1).last() == m@[i as int]);
            if i == 0 {
                assert(m@.take(1).len() == 1);
                assert(out@ =~= base + json_story_entries_body(m@.take(1)));
            } else {
                assert(out@ =~= base + json_story_entries_body(m@.take(i + 1)));
            }
        }
    }
    out.push('}');
    proof {
        assert(m@.take(n as int) =~= m@);
        assert(out@ =~= old(out)@ + json_story_entries(m@));
    }
}

/// Relies on `char`'s `ToString`: the string of one character is that
/// character.
#[verifier::external_body]
fn char_str(c: char) -> (r: String)
    ensures
        r@ == seq![c],
{
    c.to_string()
}

/// The characters, as a string.
fn chars_to_string(v: &Vec<char>) -> (r: String)
    ensures
        r@ == v@,
{
    let mut s = String::new();
    let n = v.len();
    for i in 0..n
        invariant
            n == v@.len(),
            s@ == v@.take(i as int),
    {
        let piece = char_str(v[i]);
        s.append(piece.as_str());
        proof {
            assert(s@ =~= v@.take(i + 1));
        }
    }
    proof {
        assert(v@.take(n as int) =~= v@);
    }
    s
}

// ---------------------------------------------------------------------------
// The parser, specification
// ---------------------------------------------------------------------------

/// The first position at or after `i` holding no whitespace.
pub open spec fn skip_ws(s: Seq<char>, i: int) -> int
    decreases s.len() - i,
{
    if 0 <= i < s.len() && is_ws(s[i]) {
        skip_ws(s, i + 1)
    } else {
        i
    }
}

/// Skipping whitespace stays within bounds and stops on non-whitespace.
pub proof fn lemma_skip_ws(s: Seq<char>, i: int)
    requires
        0 <= i <= s.len(),
    ensures
        i <= skip_ws(s, i) <= s.len(),
        skip_ws(s, i) < s.len() ==> !is_ws(s[skip_ws(s, i)]),
    decreases s.len() - i,
{
    if 0 <= i < s.len() && is_ws(s[i]) {
        lemma_skip_ws(s, i + 1);
    }
}

/// After whitespace, the single character `c`; the position after it.
pub open spec fn tok(s: Seq<char>, i: int, c: char) -> Option<int> {
    let j = skip_ws(s, i);
    if j < s.len() && s[j] == c {
        Some(j + 1)
    } else {
        None
    }
}

/// The first position at or after `i` holding no digit.
pub open spec fn digits_end(s: Seq<char>, i: int) -> int
    decreases s.len() - i,
{
    if 0 <= i < s.len() && is_digit(s[i]) {
        digits_end(s, i + 1)
    } else {
        i
    }
}

/// The digit run is in bounds and all digits.
pub proof fn lemma_digits_end(s: Seq<char>, i: int)
    requires
        0 <= i <= s.len(),
    ensures
        i <= digits_end(s, i) <= s.len(),
        forall|j: int| i <= j < digits_end(s, i) ==> is_digit(#[trigger] s[j]),
        digits_end(s, i) < s.len() ==> !is_digit(s[digits_end(s, i)]),
    decreases s.len() - i,
{
    if 0 <= i < s.len() && is_digit(s[i]) {
        lemma_digits_end(s, i + 1);
    }
}

/// A `u32` literal at `i`: a maximal digit run, no leading zero, value in
/// range.
pub open spec fn parse_u32_at(s: Seq<char>, i: int) -> Option<(u32, int)> {
    let j = digits_end(s, i);
    if 0 <= i < j && (s[i] != '0' || j == i + 1) && val_of_digits(s.subrange(i, j)) <= u32::MAX {
        Some((val_of_digits(s.subrange(i, j)) as u32, j))
    } else {
        None
    }
}

/// The value of a hex digit, or a negative number if it is none.
pub open spec fn hex_val(c: char) -> int {
    if is_digit(c) {
        digit_val(c)
    } else if 97 <= c as u32 && c as u32 <= 102 {
        c as u32 - 87
    } else if 65 <= c as u32 && c as u32 <= 70 {
        c as u32 - 55
    } else {
        -1
    }
}

/// The character a short escape stands for.
pub open spec fn unescaped(e: char) -> char {
    if e == 'b' {
        (8u32) as char
    } else if e == 'f' {
        (12u32) as char
    } else if e == 'n' {
        '\n'
    } else if e == 'r' {
        '\r'
    } else if e == 't' {
        '\t'
    } else {
        e
    }
}

/// The body of a string literal from `i` up to its closing quote: the
/// denoted characters and the position after the quote. Escapes are decoded;
/// unescaped control characters are refused; `\u` escapes denoting surrogates
/// are refused.
pub open spec fn parse_str_body(s: Seq<char>, i: int) -> Option<(Seq<char>, int)>
    decreases s.len() - i,
{
    if !(0 <= i < s.len()) {
        None
    } else if s[i] == '"' {
        Some((Seq::<char>::empty(), i + 1))
    } else if s[i] == '\\' {
        if i + 1 < s.len() {
            let e = s[i + 1];
            if e == '"' || e == '\\' || e == '/' || e == 'b' || e == 'f' || e == 'n' || e == 'r'
                || e == 't' {
                match parse_str_body(s, i + 2) {
                    Some((rest, j)) => Some((seq![unescaped(e)] + rest, j)),
                    None => None,
                }
            } else if e == 'u' && i + 5 < s.len() && hex_val(s[i + 2]) >= 0 && hex_val(s[i + 3])
                >= 0 && hex_val(s[i + 4]) >= 0 && hex_val(s[i + 5]) >= 0 {
                let h = hex_val(s[i + 2]) * 4096 + hex_val(s[i + 3]) * 256 + hex_val(s[i + 4])
                    * 16 + hex_val(s[i + 5]);
                if h < 0xD800 || h >= 0xE000 {
                    match parse_str_body(s, i + 6) {
                        Some((rest, j)) => Some((seq![((h as u32) as char)] + rest, j)),
                        None => None,
                    }
                } else {
                    None
                }
            } else {
                None
            }
        } else {
            None
        }
    } else if (s[i] as u32) < 32 {
        None
    } else {
        match parse_str_body(s, i + 1) {
            Some((rest, j)) => Some((seq![s[i]] + rest, j)),
            None => None,
        }
    }
}

/// A quoted string at `i`.
pub open spec fn parse_string_at(s: Seq<char>, i: int) -> Option<(Seq<char>, int)> {
    if 0 <= i < s.len() && s[i] == '"' {
        parse_str_body(s, i + 1)
    } else {
        None
    }
}

/// A quoted string after whitespace.
pub open spec fn parse_string_tok(s: Seq<char>, i: int) -> Option<(Seq<char>, int)> {
    parse_string_at(s, skip_ws(s, i))
}

/// A status value after whitespace.
pub open spec fn parse_status_tok(s: Seq<char>, i: int) -> Option<(Status, int)> {
    match parse_string_tok(s, i) {
        Some((name, j)) => match status_of_name(name) {
            Some(st) => Some((st, j)),
            None => None,
        },
        None => None,
    }
}

/// After whitespace, the quoted literal `key` followed by a colon; the
/// position after the colon.
pub open spec fn parse_key(s: Seq<char>, i: int, key: Seq<char>) -> Option<int> {
    let j = skip_ws(s, i);
    if j < s.len() && s[j] == '"' && j + 1 + key.len() + 1 <= s.len() && s.subrange(
        j + 1,
        j + 1 + key.len(),
    ) == key && s[j + 1 + key.len()] == '"' {
        tok(s, j + key.len() + 2, ':')
    } else {
        None
    }
}

/// A comma, then a quoted key and colon.
pub open spec fn parse_comma_key(s: Seq<char>, i: int, key: Seq<char>) -> Option<int> {
    match tok(s, i, ',') {
        Some(j) => parse_key(s, j, key),
        None => None,
    }
}

/// The id a map key string denotes: all digits, no leading zero, in range.
pub open spec fn key_val(ks: Seq<char>) -> Option<u32> {
    if ks.len() > 0 && (forall|i: int| 0 <= i < ks.len() ==> is_digit(#[trigger] ks[i])) && (
    ks[0] != '0' || ks.len() == 1) && val_of_digits(ks) <= u32::MAX {
        Some((val_of_digits(ks) as u32))
    } else {
        None
    }
}

/// The ids after the first element of an array: `,` and a value, repeated,
/// then `]`.
pub open spec fn parse_ids_rest(s: Seq<char>, i: int) -> Option<(Seq<u32>, int)>
    decreases s.len() - i,
{
    let j = skip_ws(s, i);
    if j < s.len() && s[j] == ']' {
        Some((Seq::<u32>::empty(), j + 1))
    } else if j < s.len() && s[j] == ',' {
        let k = skip_ws(s, j + 1);
        match parse_u32_at(s, k) {
            Some((v, m)) => if i < m <= s.len() {
                match parse_ids_rest(s, m) {
                    Some((rest, e)) => Some((seq![v] + rest, e)),
                    None => None,
                }
            } else {
                None
            },
            None => None,
        }
    } else {
        None
    }
}

/// An id array at `i` (the bracket itself).
pub open spec fn parse_ids_at(s: Seq<char>, i: int) -> Option<(Seq<u32>, int)> {
    if 0 <= i < s.len() && s[i] == '[' {
        let j = skip_ws(s, i + 1);
        if j < s.len() && s[j] == ']' {
            Some((Seq::<u32>::empty(), j + 1))
        } else {
            match parse_u32_at(s, j) {
                Some((v, m)) => if i < m <= s.len() {
                    match parse_ids_rest(s, m) {
                        Some((rest, e)) => Some((seq![v] + rest, e)),
                        None => None,
                    }
                } else {
                    None
                },
                None => None,
            }
        }
    } else {
        None
    }
}

/// A story object at `i` (the brace itself): the three fields in their
/// canonical order, whitespace tolerated between tokens.
pub open spec fn parse_story_at(s: Seq<char>, i: int) -> Option<(StoryView, int)> {
    if 0 <= i < s.len() && s[i] == '{' {
        match parse_key(s, i + 1, ("name")@) {
            Some(j1) => match parse_string_tok(s, j1) {
                Some((name, j2)) => match parse_comma_key(s, j2, ("description")@) {
                    Some(j3) => match parse_string_tok(s, j3) {
                        Some((description, j4)) => match parse_comma_key(s, j4, ("status")@) {
                            Some(j5) => match parse_status_tok(s, j5) {
                                Some((status, j6)) => match tok(s, j6, '}') {
                                    Some(j7) => Some(
                                        (StoryView { name, description, status }, j7),
                                    ),
                                    None => None,
                                },
                                None => None,
                            },
                            None => None,
                        },
                        None => None,
                    },
                    None => None,
                },
                None => None,
            },
            None => None,
        }
    } else {
        None
    }
}

/// An epic object at `i` (the brace itself): the four fields in their
/// canonical order, whitespace tolerated between tokens.
pub open spec fn parse_epic_at(s: Seq<char>, i: int) -> Option<(EpicView, int)> {
    if 0 <= i < s.len() && s[i] == '{' {
        match parse_key(s, i + 1, ("name")@) {
            Some(j1) => match parse_string_tok(s, j1) {
                Some((name, j2)) => match parse_comma_key(s, j2, ("description")@) {
                    Some(j3) => match parse_string_tok(s, j3) {
                        Some((description, j4)) => match parse_comma_key(s, j4, ("status")@) {
                            Some(j5) => match parse_status_tok(s, j5) {
                                Some((status, j6)) => match parse_comma_key(
                                    s,
                                    j6,
                                    ("stories")@,
                                ) {
                                    Some(j7) => match parse_ids_at(s, skip_ws(s, j7)) {
                                        Some((stories, j8)) => match tok(s, j8, '}') {
                                            Some(j9) => Some(
                                                (
                                                    EpicView {
                                                        name,
                                                        description,
                                                        status,
                                                        stories,
                                                    },
                                                    j9,
                                                ),
                                            ),
                                            None => None,
                                        },
                                        None => None,
                                    },
                                    None => None,
                                },
                                None => None,
                            },
                            None => None,
                        },
                        None => None,
                    },
                    None => None,
                },
                None => None,
            },
            None => None,
        }
    } else {
        None
    }
}

/// One epic map entry: a string key denoting an id, a colon, an object.
pub open spec fn parse_epic_entry(s: Seq<char>, i: int) -> Option<((u32, EpicView), int)> {
    match parse_string_tok(s, i) {
        Some((ks, j)) => match key_val(ks) {
            Some(k) => match tok(s, j, ':') {
                Some(j2) => match parse_epic_at(s, skip_ws(s, j2)) {
                    Some((v, j3)) => Some(((k, v), j3)),
                    None => None,
                },
                None => None,
            },
            None => None,
        },
        None => None,
    }
}

/// One story map entry.
pub open spec fn parse_story_entry(s: Seq<char>, i: int) -> Option<((u32, StoryView), int)> {
    match parse_string_tok(s, i) {
        Some((ks, j)) => match key_val(ks) {
            Some(k) => match tok(s, j, ':') {
                Some(j2) => match parse_story_at(s, skip_ws(s, j2)) {
                    Some((v, j3)) => Some(((k, v), j3)),
                    None => None,
                },
                None => None,
            },
            None => None,
        },
        None => None,
    }
}

/// The remaining epic map entries, folded into `acc` by sorted insertion.
pub open spec fn parse_epic_entries_rest(
    s: Seq<char>,
    i: int,
    acc: Seq<(u32, EpicView)>,
) -> Option<(Seq<(u32, EpicView)>, int)>
    decreases s.len() - i,
{
    let j = skip_ws(s, i);
    if j < s.len() && s[j] == '}' {
        Some((acc, j + 1))
    } else if j < s.len() && s[j] == ',' {
        match parse_epic_entry(s, j + 1) {
            Some(((k, v), m)) => if i < m <= s.len() {
                parse_epic_entries_rest(s, m, crate::idmap::entries_insert(acc, k, v))
            } else {
                None
            },
            None => None,
        }
    } else {
        None
    }
}

/// The remaining story map entries, folded into `acc` by sorted insertion.
pub open spec fn parse_story_entries_rest(
    s: Seq<char>,
    i: int,
    acc: Seq<(u32, StoryView)>,
) -> Option<(Seq<(u32, StoryView)>, int)>
    decreases s.len() - i,
{
    let j = skip_ws(s, i);
    if j < s.len() && s[j] == '}' {
        Some((acc, j + 1))
    } else if j < s.len() && s[j] == ',' {
        match parse_story_entry(s, j + 1) {
            Some(((k, v), m)) => if i < m <= s.len() {
                parse_story_entries_rest(s, m, crate::idmap::entries_insert(acc, k, v))
            } else {
                None
            },
            None => None,
        }
    } else {
        None
    }
}

/// The epics object at `i` (the brace itself). Keys may come in any order;
/// a repeated key keeps its last value.
pub open spec fn parse_epic_entries_at(s: Seq<char>, i: int) -> Option<(
    Seq<(u32, EpicView)>,
    int,
)> {
    if 0 <= i < s.len() && s[i] == '{' {
        let j = skip_ws(s, i + 1);
        if j < s.len() && s[j] == '}' {
            Some((Seq::<(u32, EpicView)>::empty(), j + 1))
        } else {
            match parse_epic_entry(s, i + 1) {
                Some(((k, v), m)) => if i < m <= s.len() {
                    parse_epic_entries_rest(
                        s,
                        m,
                        crate::idmap::entries_insert(Seq::<(u32, EpicView)>::empty(), k, v),
                    )
                } else {
                    None
                },
                None => None,
            }
        }
    } else {
        None
    }
}

/// The stories object at `i` (the brace itself).
pub open spec fn parse_story_entries_at(s: Seq<char>, i: int) -> Option<(
    Seq<(u32, StoryView)>,
    int,
)> {
    if 0 <= i < s.len() && s[i] == '{' {
        let j = skip_ws(s, i + 1);
        if j < s.len() && s[j] == '}' {
            Some((Seq::<(u32, StoryView)>::empty(), j + 1))
        } else {
            match parse_story_entry(s, i + 1) {
                Some(((k, v), m)) => if i < m <= s.len() {
                    parse_story_entries_rest(
                        s,
                        m,
                        crate::idmap::entries_insert(Seq::<(u32, StoryView)>::empty(), k, v),
                    )
                } else {
                    None
                },
                None => None,
            }
        }
    } else {
        None
    }
}

/// The whole document a text denotes, if it is a well-formed state document:
/// the three fields in their canonical order, nothing but whitespace after
/// the closing brace.
pub open spec fn parse_state(s: Seq<char>) -> Option<StateView> {
    let i = skip_ws(s, 0);
    if 0 <= i < s.len() && s[i] == '{' {
        match parse_key(s, i + 1, ("last_item_id")@) {
            Some(j1) => match parse_u32_at(s, skip_ws(s, j1)) {
                Some((n, j2)) => match parse_comma_key(s, j2, ("epics")@) {
                    Some(j3) => match parse_epic_entries_at(s, skip_ws(s, j3)) {
                        Some((es, j4)) => match parse_comma_key(s, j4, ("stories")@) {
                            Some(j5) => match parse_story_entries_at(s, skip_ws(s, j5)) {
                                Some((ss, j6)) => match tok(s, j6, '}') {
                                    Some(j7) => if j7 <= s.len() && skip_ws(s, j7) == s.len() {
                                        Some(
                                            StateView {
                                                last_item_id: n,
                                                epics: es,
                                                stories: ss,
                                            },
                                        )
                                    } else {
                                        None
                                    },
                                    None => None,
                                },
                                None => None,
                            },
                            None => None,
                        },
                        None => None,
                    },
                    None => None,
                },
                None => None,
            },
            None => None,
        }
    } else {
        None
    }
}

// ---------------------------------------------------------------------------
// Round trip: parsing a canonical text gives the document back
// ---------------------------------------------------------------------------

/// A maximal digit run ends exactly where the digits end.
proof fn lemma_digits_end_run(s: Seq<char>, i: int, e: int)
    requires
        0 <= i <= e <= s.len(),
        forall|j: int| i <= j < e ==> is_digit(#[trigger] s[j]),
        e < s.len() ==> !is_digit(s[e]),
    ensures
        digits_end(s, i) == e,
    decreases e - i,
{
    if i < e {
        lemma_digits_end_run(s, i + 1, e);
    }
}

/// A canonical number text parses back to its value.
proof fn lemma_rt_u32(s: Seq<char>, i: int, n: u32)
    requires
        0 <= i,
        i + dec_digits(n as nat).len() <= s.len(),
        s.subrange(i, i + dec_digits(n as nat).len()) == dec_digits(n as nat),
        i + dec_digits(n as nat).len() < s.len() ==> !is_digit(
            s[i + dec_digits(n as nat).len()],
        ),
    ensures
        parse_u32_at(s, i) == Some((n, i + dec_digits(n as nat).len())),
{
    let d = dec_digits(n as nat);
    lemma_dec_digits(n as nat);
    assert forall|j: int| i <= j < i + d.len() implies is_digit(#[trigger] s[j]) by {
        assert(s[j] == s.subrange(i, i + d.len())[j - i]);
    }
    lemma_digits_end_run(s, i, i + d.len());
    assert(s.subrange(i, i + d.len()) == d);
    assert(s[i] == d[0]);
    if n == 0 {
        assert(d.len() == 1);
    } else {
        assert(s[i] != '0');
    }
    assert(val_of_digits(s.subrange(i, i + d.len())) == n);
}

/// A character that stands for itself inside a string literal.
pub open spec fn is_plain(c: char) -> bool {
    c != '"' && c != '\\' && c as u32 >= 32
}

/// Escaping a plain text changes nothing.
proof fn lemma_escape_plain(v: Seq<char>)
    requires
        forall|m: int| 0 <= m < v.len() ==> is_plain(#[trigger] v[m]),
    ensures
        json_escape(v) == v,
    decreases v.len(),
{
    if v.len() > 0 {
        let p = v.drop_last();
        assert(forall|m: int| 0 <= m < p.len() ==> #[trigger] p[m] == v[m]);
        lemma_escape_plain(p);
        assert(is_plain(v.last()));
        assert(esc_char(v.last()) == seq![v.last()]);
        assert(json_escape(v) =~= v);
    }
}

/// The escaped text decomposes at its first character.
proof fn lemma_json_escape_first(v: Seq<char>)
    requires
        v.len() > 0,
    ensures
        json_escape(v) == esc_char(v[0]) + json_escape(v.drop_first()),
    decreases v.len(),
{
    if v.len() == 1 {
        assert(v.drop_last() =~= Seq::<char>::empty());
        assert(v.drop_first() =~= Seq::<char>::empty());
        assert(v.last() == v[0]);
        assert(json_escape(v) =~= esc_char(v[0]) + json_escape(v.drop_first()));
    } else {
        let p = v.drop_last();
        lemma_json_escape_first(p);
        assert(p[0] == v[0]);
        assert(json_escape(v) == json_escape(p) + esc_char(v.last()));
        assert(json_escape(p) == esc_char(v[0]) + json_escape(p.drop_first()));
        let q = v.drop_first();
        assert(p.drop_first() =~= q.drop_last());
        assert(q.last() == v.last());
        assert(json_escape(q) == json_escape(q.drop_last()) + esc_char(q.last()));
        assert(json_escape(v) =~= esc_char(v[0]) + json_escape(q));
    }
}

/// Lower-case hex characters read back as their value.
proof fn lemma_hex_lower(d: int)
    requires
        0 <= d < 16,
    ensures
        hex_val(hex_lower(d)) == d,
{
    if d < 10 {
        assert(hex_lower(d) as u32 == d + 48);
    } else {
        assert(hex_lower(d) as u32 == d + 87);
    }
}

/// A canonical string body followed by its closing quote parses back to the
/// denoted text.
proof fn lemma_rt_str_body(v: Seq<char>, s: Seq<char>, i: int)
    requires
        0 <= i,
        i + json_escape(v).len() + 1 <= s.len(),
        s.subrange(i, i + json_escape(v).len() + 1) == json_escape(v) + seq!['"'],
    ensures
        parse_str_body(s, i) == Some((v, i + json_escape(v).len() + 1)),
    decreases v.len(),
{
    let t = json_escape(v);
    let whole = t + seq!['"'];
    assert forall|m: int| i <= m < i + whole.len() implies s[m] == whole[m - i] by {
        assert(s.subrange(i, i + t.len() + 1)[m - i] == s[m]);
    }
    if v.len() == 0 {
        assert(t.len() == 0);
        assert(s[i] == '"');
        assert(parse_str_body(s, i) == Some((Seq::<char>::empty(), i + 1)));
        assert(v =~= Seq::<char>::empty());
    } else {
        let c = v[0];
        let e = esc_char(c);
        let q = v.drop_first();
        lemma_json_escape_first(v);
        let r = json_escape(q);
        assert(t == e + r);
        assert(forall|m: int| 0 <= m < e.len() ==> #[trigger] whole[m] == e[m]);
        let i2 = i + e.len();
        assert(s.subrange(i2, i2 + r.len() + 1) =~= r + seq!['"']) by {
            assert forall|m: int| 0 <= m < r.len() + 1 implies s.subrange(
                i2,
                i2 + r.len() + 1,
            )[m] == (r + seq!['"'])[m] by {
                assert(s[i2 + m] == whole[e.len() + m]);
                assert(s.subrange(i2, i2 + r.len() + 1)[m] == s[i2 + m]);
            }
        }
        lemma_rt_str_body(q, s, i2);
        assert(parse_str_body(s, i2) == Some((q, i2 + r.len() + 1)));
        assert(seq![c] + q =~= v);
        if c == '"' {
            assert(s[i] == '\\' && s[i + 1] == '"');
            assert(unescaped('"') == c);
        } else if c == '\\' {
            assert(s[i] == '\\' && s[i + 1] == '\\');
            assert(unescaped('\\') == c);
        } else if c as u32 == 8 {
            assert(s[i] == '\\' && s[i + 1] == 'b');
            vstd::utf8::char_u32_cast(c, 8);
            assert(unescaped('b') == c);
        } else if c == '\t' {
            assert(s[i] == '\\' && s[i + 1] == 't');
            assert(unescaped('t') == c);
        } else if c == '\n' {
            assert(s[i] == '\\' && s[i + 1] == 'n');
            assert(unescaped('n') == c);
        } else if c as u32 == 12 {
            assert(s[i] == '\\' && s[i + 1] == 'f');
            vstd::utf8::char_u32_cast(c, 12);
            assert(unescaped('f') == c);
        } else if c == '\r' {
            assert(s[i] == '\\' && s[i + 1] == 'r');
            assert(unescaped('r') == c);
        } else if (c as u32) < 32 {
            let hi = (c as u32 / 16) as int;
            let lo = (c as u32 % 16) as int;
            assert(s[i] == '\\' && s[i + 1] == 'u' && s[i + 2] == '0' && s[i + 3] == '0');
            assert(s[i + 4] == hex_lower(hi) && s[i + 5] == hex_lower(lo));
            lemma_hex_lower(hi);
            lemma_hex_lower(lo);
            assert(hex_val('0') == 0);
            let h = hex_val(s[i + 2]) * 4096 + hex_val(s[i + 3]) * 256 + hex_val(s[i + 4]) * 16
                + hex_val(s[i + 5]);
            vstd::arithmetic::div_mod::lemma_fundamental_div_mod(c as u32 as int, 16);
            assert(h == c as u32);
            assert(h < 0xD800);
            vstd::utf8::char_u32_cast(c, h as u32);
            assert(((h as u32) as char) == c);
            assert(i + 5 < s.len());
        } else {
            assert(s[i] == c);
            assert(c != '"' && c != '\\' && c as u32 >= 32);
        }
    }
}

/// A canonical string literal parses back to its text.
proof fn lemma_rt_string(v: Seq<char>, s: Seq<char>, i: int)
    requires
        0 <= i,
        i + json_string(v).len() <= s.len(),
        s.subrange(i, i + json_string(v).len()) == json_string(v),
    ensures
        parse_string_at(s, i) == Some((v, i + json_string(v).len())),
{
    let w = json_string(v);
    assert forall|m: int| i <= m < i + w.len() implies s[m] == w[m - i] by {
        assert(s.subrange(i, i + w.len())[m - i] == s[m]);
    }
    assert(w[0] == '"');
    assert(s[i] == '"');
    assert(s.subrange(i + 1, i + 1 + json_escape(v).len() + 1) =~= json_escape(v) + seq!['"'])
        by {
        assert forall|m: int| 0 <= m < json_escape(v).len() + 1 implies s.subrange(
            i + 1,
            i + 1 + json_escape(v).len() + 1,
        )[m] == (json_escape(v) + seq!['"'])[m] by {
            assert(s[i + 1 + m] == w[1 + m]);
        }
    }
    lemma_rt_str_body(v, s, i + 1);
}

/// Each status tag is plain text.
proof fn lemma_status_plain(st: Status)
    ensures
        json_escape(status_chars(st)) == status_chars(st),
        forall|m: int| 0 <= m < status_chars(st).len() ==> is_plain(#[trigger] status_chars(st)[m]),
{
    reveal_strlit("Open");
    reveal_strlit("InProgress");
    reveal_strlit("Resolved");
    reveal_strlit("Closed");
    let v = status_chars(st);
    assert forall|m: int| 0 <= m < v.len() implies is_plain(v[m]) by {
        match st {
            Status::Open => {
                assert(v.len() == 4);
                assert(is_plain(v[0]) && is_plain(v[1]) && is_plain(v[2]) && is_plain(v[3]));
            },
            Status::InProgress => {
                assert(v.len() == 10);
                assert(is_plain(v[0]) && is_plain(v[1]) && is_plain(v[2]) && is_plain(v[3]));
                assert(is_plain(v[4]) && is_plain(v[5]) && is_plain(v[6]) && is_plain(v[7]));
                assert(is_plain(v[8]) && is_plain(v[9]));
            },
            Status::Resolved => {
                assert(v.len() == 8);
                assert(is_plain(v[0]) && is_plain(v[1]) && is_plain(v[2]) && is_plain(v[3]));
                assert(is_plain(v[4]) && is_plain(v[5]) && is_plain(v[6]) && is_plain(v[7]));
            },
            Status::Closed => {
                assert(v.len() == 6);
                assert(is_plain(v[0]) && is_plain(v[1]) && is_plain(v[2]) && is_plain(v[3]));
                assert(is_plain(v[4]) && is_plain(v[5]));
            },
        }
    }
    lemma_escape_plain(v);
}

/// A canonical status value parses back, whitespace step included.
proof fn lemma_rt_status(st: Status, s: Seq<char>, i: int)
    requires
        0 <= i,
        i + json_status(st).len() <= s.len(),
        s.subrange(i, i + json_status(st).len()) == json_status(st),
    ensures
        parse_status_tok(s, i) == Some((st, i + json_status(st).len())),
{
    let w = json_status(st);
    assert forall|m: int| i <= m < i + w.len() implies s[m] == w[m - i] by {
        assert(s.subrange(i, i + w.len())[m - i] == s[m]);
    }
    assert(w[0] == '"');
    assert(s[i] == '"');
    assert(!is_ws('"'));
    assert(skip_ws(s, i) == i);
    lemma_status_plain(st);
    assert(json_string(status_chars(st)) =~= w);
    assert(s.subrange(i, i + json_string(status_chars(st)).len()) == json_string(
        status_chars(st),
    ));
    lemma_rt_string(status_chars(st), s, i);
    lemma_status_roundtrip(st);
}

/// The text of an id list after its first element: a comma and a number,
/// repeated.
pub open spec fn json_ids_rest_text(t: Seq<u32>) -> Seq<char>
    decreases t.len(),
{
    if t.len() == 0 {
        Seq::<char>::empty()
    } else {
        seq![','] + dec_digits(t[0] as nat) + json_ids_rest_text(t.drop_first())
    }
}

/// The id list body decomposes at its first element.
proof fn lemma_json_ids_body_first(l: Seq<u32>)
    requires
        l.len() > 0,
    ensures
        json_ids_body(l) == dec_digits(l[0] as nat) + json_ids_rest_text(l.drop_first()),
    decreases l.len(),
{
    if l.len() == 1 {
        assert(l.drop_first() =~= Seq::<u32>::empty());
        assert(json_ids_body(l) =~= dec_digits(l[0] as nat) + json_ids_rest_text(
            l.drop_first(),
        ));
    } else {
        let p = l.drop_last();
        lemma_json_ids_body_first(p);
        assert(p[0] == l[0]);
        let q = l.drop_first();
        assert(p.drop_first() =~= q.drop_last());
        assert(q.last() == l.last());
        if q.len() == 1 {
            assert(q.drop_last() =~= Seq::<u32>::empty());
            assert(p.drop_first() =~= Seq::<u32>::empty());
            assert(json_ids_rest_text(q) =~= seq![','] + dec_digits(q[0] as nat)
                + json_ids_rest_text(q.drop_first()));
            assert(q[0] == l.last());
            assert(q.drop_first() =~= Seq::<u32>::empty());
            assert(json_ids_body(l) =~= dec_digits(l[0] as nat) + json_ids_rest_text(q));
        } else {
            // json_ids_rest_text(q) ends with the same tail structure
            lemma_json_ids_rest_last(q);
            assert(json_ids_body(l) == json_ids_body(p) + seq![','] + dec_digits(
                l.last() as nat,
            ));
            assert(json_ids_body(l) =~= dec_digits(l[0] as nat) + json_ids_rest_text(q));
        }
    }
}

/// The rest-text decomposes at its last element.
proof fn lemma_json_ids_rest_last(t: Seq<u32>)
    requires
        t.len() > 0,
    ensures
        json_ids_rest_text(t) == json_ids_rest_text(t.drop_last()) + seq![','] + dec_digits(
            t.last() as nat,
        ),
    decreases t.len(),
{
    if t.len() == 1 {
        assert(t.drop_first() =~= Seq::<u32>::empty());
        assert(t.drop_last() =~= Seq::<u32>::empty());
        assert(json_ids_rest_text(t) =~= json_ids_rest_text(t.drop_last()) + seq![',']
            + dec_digits(t.last() as nat));
    } else {
        let q = t.drop_first();
        lemma_json_ids_rest_last(q);
        assert(q.last() == t.last());
        assert(q.drop_last() =~= t.drop_last().drop_first());
        assert(t.drop_last()[0] == t[0]);
        assert(json_ids_rest_text(t) == seq![','] + dec_digits(t[0] as nat)
            + json_ids_rest_text(q));
        assert(json_ids_rest_text(t) =~= json_ids_rest_text(t.drop_last()) + seq![',']
            + dec_digits(t.last() as nat));
    }
}

/// A canonical id-list tail, closed by `]`, parses back.
proof fn lemma_rt_ids_rest(t: Seq<u32>, s: Seq<char>, i: int)
    requires
        0 <= i,
        i + json_ids_rest_text(t).len() + 1 <= s.len(),
        s.subrange(i, i + json_ids_rest_text(t).len() + 1) == json_ids_rest_text(t) + seq![']'],
    ensures
        parse_ids_rest(s, i) == Some((t, i + json_ids_rest_text(t).len() + 1)),
    decreases t.len(),
{
    let w = json_ids_rest_text(t) + seq![']'];
    assert forall|m: int| i <= m < i + w.len() implies s[m] == w[m - i] by {
        assert(s.subrange(i, i + w.len())[m - i] == s[m]);
    }
    if t.len() == 0 {
        assert(s[i] == ']');
        assert(skip_ws(s, i) == i);
        assert(t =~= Seq::<u32>::empty());
    } else {
        let d = dec_digits(t[0] as nat);
        assert(s[i] == ',');
        assert(skip_ws(s, i) == i);
        lemma_dec_digits(t[0] as nat);
        assert(s[i + 1] == d[0]);
        assert(is_digit(d[0]));
        assert(!is_ws(s[i + 1]));
        assert(skip_ws(s, i + 1) == i + 1);
        let q = t.drop_first();
        let rq = json_ids_rest_text(q);
        assert(w =~= seq![','] + d + rq + seq![']']);
        assert(s.subrange(i + 1, i + 1 + d.len()) =~= d) by {
            assert forall|m: int| 0 <= m < d.len() implies s.subrange(
                i + 1,
                i + 1 + d.len(),
            )[m] == d[m] by {
                assert(s[i + 1 + m] == w[1 + m]);
            }
        }
        // the char after the digits is ',' or ']', never a digit
        assert(s[i + 1 + d.len() as int] == w[1 + d.len() as int]);
        assert(w[1 + d.len() as int] == ',' || w[1 + d.len() as int] == ']') by {
            if q.len() == 0 {
            } else {
                assert(rq[0] == ',');
            }
        }
        lemma_rt_u32(s, i + 1, t[0]);
        let m2 = i + 1 + d.len();
        assert(s.subrange(m2, m2 + rq.len() + 1) =~= rq + seq![']']) by {
            assert forall|m: int| 0 <= m < rq.len() + 1 implies s.subrange(
                m2,
                m2 + rq.len() + 1,
            )[m] == (rq + seq![']'])[m] by {
                assert(s[m2 + m] == w[1 + d.len() + m]);
            }
        }
        lemma_rt_ids_rest(q, s, m2);
        assert(seq![t[0]] + q =~= t);
    }
}

/// A canonical id array parses back.
#[verifier::rlimit(60)]
proof fn lemma_rt_ids(l: Seq<u32>, s: Seq<char>, i: int)
    requires
        0 <= i,
        i + json_ids(l).len() <= s.len(),
        s.subrange(i, i + json_ids(l).len()) == json_ids(l),
    ensures
        parse_ids_at(s, i) == Some((l, i + json_ids(l).len())),
{
    let w = json_ids(l);
    assert forall|m: int| i <= m < i + w.len() implies s[m] == w[m - i] by {
        assert(s.subrange(i, i + w.len())[m - i] == s[m]);
    }
    assert(s[i] == '[');
    if l.len() == 0 {
        assert(s[i + 1] == ']');
        assert(skip_ws(s, i + 1) == i + 1);
        assert(l =~= Seq::<u32>::empty());
    } else {
        lemma_json_ids_body_first(l);
        let d = dec_digits(l[0] as nat);
        let rq = json_ids_rest_text(l.drop_first());
        assert(w =~= seq!['['] + d + rq + seq![']']);
        lemma_dec_digits(l[0] as nat);
        assert(s[i + 1] == d[0]);
        assert(is_digit(d[0]));
        assert(!is_ws(s[i + 1]));
        assert(s[i + 1] != ']');
        assert(skip_ws(s, i + 1) == i + 1);
        assert(s.subrange(i + 1, i + 1 + d.len()) =~= d) by {
            assert forall|m: int| 0 <= m < d.len() implies s.subrange(
                i + 1,
                i + 1 + d.len(),
            )[m] == d[m] by {
                assert(s[i + 1 + m] == w[1 + m]);
            }
        }
        assert(s[i + 1 + d.len() as int] == w[1 + d.len() as int]);
        assert(w[1 + d.len() as int] == ',' || w[1 + d.len() as int] == ']') by {
            if l.drop_first().len() == 0 {
            } else {
                assert(rq[0] == ',');
            }
        }
        lemma_rt_u32(s, i + 1, l[0]);
        let m2 = i + 1 + d.len();
        assert(s.subrange(m2, m2 + rq.len() + 1) =~= rq + seq![']']) by {
            assert forall|m: int| 0 <= m < rq.len() + 1 implies s.subrange(
                m2,
                m2 + rq.len() + 1,
            )[m] == (rq + seq![']'])[m] by {
                assert(s[m2 + m] == w[1 + d.len() + m]);
            }
        }
        lemma_rt_ids_rest(l.drop_first(), s, m2);
        assert(seq![l[0]] + l.drop_first() =~= l);
    }
}

/// A subrange of a matched subrange matches the shifted piece.
proof fn lemma_subrange_shift(s: Seq<char>, i: int, w: Seq<char>, a: int, b: int)
    requires
        0 <= i,
        i + w.len() <= s.len(),
        s.subrange(i, i + w.len()) == w,
        0 <= a <= b <= w.len(),
    ensures
        s.subrange(i + a, i + b) == w.subrange(a, b),
{
    assert(s.subrange(i + a, i + b) =~= w.subrange(a, b)) by {
        assert forall|m: int| 0 <= m < b - a implies s.subrange(i + a, i + b)[m] == w.subrange(
            a,
            b,
        )[m] by {
            assert(s.subrange(i + a, i + b)[m] == s[i + a + m]);
            assert(s.subrange(i, i + w.len())[a + m] == s[i + a + m]);
        }
    }
}

/// After whitespace a quoted literal key and a colon parse as a key.
proof fn lemma_rt_pkey(s: Seq<char>, i: int, key: Seq<char>)
    requires
        0 <= i,
        i + key.len() + 3 <= s.len(),
        s[i] == '"',
        s.subrange(i + 1, i + 1 + key.len()) == key,
        s[i + 1 + key.len()] == '"',
        s[i + 2 + key.len()] == ':',
    ensures
        parse_key(s, i, key) == Some(i + key.len() + 3),
{
    assert(!is_ws('"'));
    assert(skip_ws(s, i) == i);
    assert(!is_ws(':'));
    assert(skip_ws(s, i + 2 + key.len() as int) == i + 2 + key.len());
    assert(tok(s, i + key.len() as int + 2, ':') == Some(i + key.len() + 3));
}

/// A comma, then a quoted literal key and a colon, parse as a comma-key.
proof fn lemma_rt_ckey(s: Seq<char>, i: int, key: Seq<char>)
    requires
        0 <= i,
        i + key.len() + 4 <= s.len(),
        s[i] == ',',
        s[i + 1] == '"',
        s.subrange(i + 2, i + 2 + key.len()) == key,
        s[i + 2 + key.len()] == '"',
        s[i + 3 + key.len()] == ':',
    ensures
        parse_comma_key(s, i, key) == Some(i + key.len() + 4),
{
    assert(!is_ws(','));
    assert(skip_ws(s, i) == i);
    assert(tok(s, i, ',') == Some(i + 1));
    lemma_rt_pkey(s, i + 1, key);
}

/// Every status tag has at least four characters.
proof fn lemma_status_len(st: Status)
    ensures
        status_chars(st).len() >= 4,
{
    reveal_strlit("Open");
    reveal_strlit("InProgress");
    reveal_strlit("Resolved");
    reveal_strlit("Closed");
}

/// A canonical story object parses back.
#[verifier::rlimit(100)]
proof fn lemma_rt_story(v: StoryView, s: Seq<char>, i: int)
    requires
        0 <= i,
        i + json_story(v).len() <= s.len(),
        s.subrange(i, i + json_story(v).len()) == json_story(v),
    ensures
        parse_story_at(s, i) == Some((v, i + json_story(v).len())),
{
    reveal_strlit("{\"name\":");
    reveal_strlit(",\"description\":");
    reveal_strlit(",\"status\":");
    reveal_strlit("}");
    reveal_strlit("name");
    reveal_strlit("description");
    reveal_strlit("status");
    let w = json_story(v);
    let a = ("{\"name\":")@;
    let b = (",\"description\":")@;
    let c3 = (",\"status\":")@;
    let s1 = json_string(v.name);
    let s2 = json_string(v.description);
    let s3 = json_status(v.status);
    assert(a.len() == 8);
    assert(b.len() == 15);
    assert(c3.len() == 10);
    assert(s1.len() >= 2 && s2.len() >= 2);
    lemma_status_len(v.status);
    assert(s3.len() >= 6);
    assert(w =~= a + s1 + b + s2 + c3 + s3 + ("}")@);
    assert forall|m: int| i <= m < i + w.len() implies s[m] == w[m - i] by {
        assert(s.subrange(i, i + w.len())[m - i] == s[m]);
    }
    let p1 = i + 8;
    let p2 = p1 + s1.len() as int;
    let p3 = p2 + 15;
    let p4 = p3 + s2.len() as int;
    let p5 = p4 + 10;
    let p6 = p5 + s3.len() as int;
    assert(p6 + 1 == i + w.len());
    // '{' and the "name" key
    assert(s[i] == '{');
    assert(s[i + 1] == '"');
    assert(skip_ws(s, i + 1) == i + 1);
    assert(s.subrange(i + 2, i + 6) =~= ("name")@) by {
        assert forall|m: int| 0 <= m < 4 implies s.subrange(i + 2, i + 6)[m] == ("name")@[m] by {
            assert(s[i + 2 + m] == w[2 + m]);
            if m == 0 {
            } else if m == 1 {
            } else if m == 2 {
            } else {
            }
        }
    }
    assert(s[i + 6] == '"');
    assert(s[i + 7] == ':');
    assert(skip_ws(s, i + 7) == i + 7);
    assert(parse_key(s, i + 1, ("name")@) == Some(p1));
    // the name string
    assert(s1[0] == '"');
    assert(s[p1] == '"');
    assert(skip_ws(s, p1) == p1);
    assert(s.subrange(p1, p1 + s1.len() as int) =~= s1) by {
        assert forall|m: int| 0 <= m < s1.len() implies s.subrange(
            p1,
            p1 + s1.len() as int,
        )[m] == s1[m] by {
            assert(s[p1 + m] == w[8 + m]);
        }
    }
    lemma_rt_string(v.name, s, p1);
    assert(parse_string_tok(s, p1) == Some((v.name, p2)));
    // the "description" key
    assert(s[p2] == ',');
    assert(skip_ws(s, p2) == p2);
    assert(s[p2 + 1] == '"');
    assert(skip_ws(s, p2 + 1) == p2 + 1);
    assert(s.subrange(p2 + 2, p2 + 13) =~= ("description")@) by {
        assert forall|m: int| 0 <= m < 11 implies s.subrange(p2 + 2, p2 + 13)[m] == (
        "description")@[m] by {
            assert(s[p2 + 2 + m] == w[(p2 + 2 - i) + m]);
            if m == 0 {
            } else if m == 1 {
            } else if m == 2 {
            } else if m == 3 {
            } else if m == 4 {
            } else if m == 5 {
            } else if m == 6 {
            } else if m == 7 {
            } else if m == 8 {
            } else if m == 9 {
            } else {
            }
        }
    }
    assert(s[p2 + 13] == '"');
    assert(s[p2 + 14] == ':');
    assert(skip_ws(s, p2 + 14) == p2 + 14);
    assert(parse_comma_key(s, p2, ("description")@) == Some(p3));
    // the description string
    assert(s2[0] == '"');
    assert(s[p3] == '"');
    assert(skip_ws(s, p3) == p3);
    assert(s.subrange(p3, p3 + s2.len() as int) =~= s2) by {
        assert forall|m: int| 0 <= m < s2.len() implies s.subrange(
            p3,
            p3 + s2.len() as int,
        )[m] == s2[m] by {
            assert(s[p3 + m] == w[(p3 - i) + m]);
        }
    }
    lemma_rt_string(v.description, s, p3);
    assert(parse_string_tok(s, p3) == Some((v.description, p4)));
    // the "status" key
    assert(s[p4] == ',');
    assert(skip_ws(s, p4) == p4);
    assert(s[p4 + 1] == '"');
    assert(skip_ws(s, p4 + 1) == p4 + 1);
    assert(s.subrange(p4 + 2, p4 + 8) =~= ("status")@) by {
        assert forall|m: int| 0 <= m < 6 implies s.subrange(p4 + 2, p4 + 8)[m] == (
        "status")@[m] by {
            assert(s[p4 + 2 + m] == w[(p4 + 2 - i) + m]);
            if m == 0 {
            } else if m == 1 {
            } else if m == 2 {
            } else if m == 3 {
            } else if m == 4 {
            } else {
            }
        }
    }
    assert(s[p4 + 8] == '"');
    assert(s[p4 + 9] == ':');
    assert(skip_ws(s, p4 + 9) == p4 + 9);
    assert(parse_comma_key(s, p4, ("status")@) == Some(p5));
    // the status value
    assert(s.subrange(p5, p5 + s3.len() as int) =~= s3) by {
        assert forall|m: int| 0 <= m < s3.len() implies s.subrange(
            p5,
            p5 + s3.len() as int,
        )[m] == s3[m] by {
            assert(s[p5 + m] == w[(p5 - i) + m]);
        }
    }
    lemma_rt_status(v.status, s, p5);
    assert(parse_status_tok(s, p5) == Some((v.status, p6)));
    // the closing brace
    assert(s[p6] == '}');
    assert(skip_ws(s, p6) == p6);
    assert(tok(s, p6, '}') == Some(p6 + 1));
    assert((StoryView { name: v.name, description: v.description, status: v.status }) =~= v);
}

/// The first half of a canonical epic object: the name and description
/// fields parse back at their positions.
#[verifier::rlimit(100)]
proof fn lemma_rt_epic_head(v: EpicView, s: Seq<char>, i: int)
    requires
        0 <= i,
        i + json_epic(v).len() <= s.len(),
        s.subrange(i, i + json_epic(v).len()) == json_epic(v),
    ensures
        s[i] == '{',
        parse_key(s, i + 1, ("name")@) == Some(i + 8),
        parse_string_tok(s, i + 8) == Some((v.name, i + 8 + json_string(v.name).len())),
        parse_comma_key(s, i + 8 + json_string(v.name).len(), ("description")@) == Some(
            i + 23 + json_string(v.name).len(),
        ),
        parse_string_tok(s, i + 23 + json_string(v.name).len()) == Some(
            (
                v.description,
                i + 23 + json_string(v.name).len() + json_string(v.description).len(),
            ),
        ),
{
    reveal_strlit("{\"name\":");
    reveal_strlit(",\"description\":");
    reveal_strlit("name");
    reveal_strlit("description");
    let w = json_epic(v);
    let a = ("{\"name\":")@;
    let b = (",\"description\":")@;
    let s1 = json_string(v.name);
    let s2 = json_string(v.description);
    assert(a.len() == 8);
    assert(b.len() == 15);
    assert forall|m: int| i <= m < i + w.len() implies s[m] == w[m - i] by {
        assert(s.subrange(i, i + w.len())[m - i] == s[m]);
    }
    let p1 = i + 8;
    let p2 = p1 + s1.len() as int;
    let p3 = p2 + 15;
    let p4 = p3 + s2.len() as int;
    assert(s[i] == '{');
    assert(s[i + 1] == '"');
    assert(s.subrange(i + 2, i + 6) =~= ("name")@) by {
        assert forall|m: int| 0 <= m < 4 implies s.subrange(i + 2, i + 6)[m] == ("name")@[m] by {
            assert(s[i + 2 + m] == w[2 + m]);
            if m == 0 {
            } else if m == 1 {
            } else if m == 2 {
            } else {
            }
        }
    }
    assert(s[i + 6] == '"');
    assert(s[i + 7] == ':');
    lemma_rt_pkey(s, i + 1, ("name")@);
    assert(s1[0] == '"');
    assert(s[p1] == '"');
    assert(skip_ws(s, p1) == p1);
    assert(s.subrange(p1, p1 + s1.len() as int) =~= s1) by {
        assert forall|m: int| 0 <= m < s1.len() implies s.subrange(
            p1,
            p1 + s1.len() as int,
        )[m] == s1[m] by {
            assert(s[p1 + m] == w[8 + m]);
        }
    }
    lemma_rt_string(v.name, s, p1);
    assert(s[p2] == ',');
    assert(s[p2 + 1] == '"');
    assert(s.subrange(p2 + 2, p2 + 13) =~= ("description")@) by {
        assert forall|m: int| 0 <= m < 11 implies s.subrange(p2 + 2, p2 + 13)[m] == (
        "description")@[m] by {
            assert(s[p2 + 2 + m] == w[(p2 + 2 - i) + m]);
            if m == 0 {
            } else if m == 1 {
            } else if m == 2 {
            } else if m == 3 {
            } else if m == 4 {
            } else if m == 5 {
            } else if m == 6 {
            } else if m == 7 {
            } else if m == 8 {
            } else if m == 9 {
            } else {
            }
        }
    }
    assert(s[p2 + 13] == '"');
    assert(s[p2 + 14] == ':');
    lemma_rt_ckey(s, p2, ("description")@);
    assert(s2[0] == '"');
    assert(s[p3] == '"');
    assert(skip_ws(s, p3) == p3);
    assert(s.subrange(p3, p3 + s2.len() as int) =~= s2) by {
        assert forall|m: int| 0 <= m < s2.len() implies s.subrange(
            p3,
            p3 + s2.len() as int,
        )[m] == s2[m] by {
            assert(s[p3 + m] == w[(p3 - i) + m]);
        }
    }
    lemma_rt_string(v.description, s, p3);
}

/// The second half of a canonical epic object: the status and stories
/// fields and the closing brace parse back at their positions.
#[verifier::rlimit(100)]
proof fn lemma_rt_epic_tail(v: EpicView, s: Seq<char>, i: int)
    requires
        0 <= i,
        i + json_epic(v).len() <= s.len(),
        s.subrange(i, i + json_epic(v).len()) == json_epic(v),
    ensures
        ({
            let p4 = i + 23 + json_string(v.name).len() + json_string(v.description).len();
            let p5 = p4 + 10;
            let p6 = p5 + json_status(v.status).len();
            let p7 = p6 + 11;
            let p8 = p7 + json_ids(v.stories).len();
            &&& parse_comma_key(s, p4, ("status")@) == Some(p5 as int)
            &&& parse_status_tok(s, p5 as int) == Some((v.status, p6 as int))
            &&& parse_comma_key(s, p6 as int, ("stories")@) == Some(p7 as int)
            &&& skip_ws(s, p7 as int) == p7
            &&& parse_ids_at(s, p7 as int) == Some((v.stories, p8 as int))
            &&& tok(s, p8 as int, '}') == Some(p8 + 1)
            &&& p8 + 1 == i + json_epic(v).len()
        }),
{
    reveal_strlit(",\"status\":");
    reveal_strlit(",\"stories\":");
    reveal_strlit("status");
    reveal_strlit("stories");
    let w = json_epic(v);
    reveal_strlit("{\"name\":");
    reveal_strlit(",\"description\":");
    reveal_strlit("}");
    let a = ("{\"name\":")@;
    let b = (",\"description\":")@;
    let c3 = (",\"status\":")@;
    let c4 = (",\"stories\":")@;
    let s1 = json_string(v.name);
    let s2 = json_string(v.description);
    let s3 = json_status(v.status);
    let s4 = json_ids(v.stories);
    assert(a.len() == 8);
    assert(b.len() == 15);
    assert(c3.len() == 10);
    assert(c4.len() == 11);
    assert(w =~= a + s1 + b + s2 + c3 + s3 + c4 + s4 + ("}")@);
    lemma_status_len(v.status);
    assert forall|m: int| i <= m < i + w.len() implies s[m] == w[m - i] by {
        assert(s.subrange(i, i + w.len())[m - i] == s[m]);
    }
    let p4 = i + 23 + s1.len() as int + s2.len() as int;
    let p5 = p4 + 10;
    let p6 = p5 + s3.len() as int;
    let p7 = p6 + 11;
    let p8 = p7 + s4.len() as int;
    assert(p8 + 1 == i + w.len());
    assert(s[p4] == ',');
    assert(s[p4 + 1] == '"');
    assert(s.subrange(p4 + 2, p4 + 8) =~= ("status")@) by {
        assert forall|m: int| 0 <= m < 6 implies s.subrange(p4 + 2, p4 + 8)[m] == (
        "status")@[m] by {
            assert(s[p4 + 2 + m] == w[(p4 + 2 - i) + m]);
            if m == 0 {
            } else if m == 1 {
            } else if m == 2 {
            } else if m == 3 {
            } else if m == 4 {
            } else {
            }
        }
    }
    assert(s[p4 + 8] == '"');
    assert(s[p4 + 9] == ':');
    lemma_rt_ckey(s, p4, ("status")@);
    assert(s.subrange(p5, p5 + s3.len() as int) =~= s3) by {
        assert forall|m: int| 0 <= m < s3.len() implies s.subrange(
            p5,
            p5 + s3.len() as int,
        )[m] == s3[m] by {
            assert(s[p5 + m] == w[(p5 - i) + m]);
        }
    }
    lemma_rt_status(v.status, s, p5);
    assert(s[p6] == ',');
    assert(s[p6 + 1] == '"');
    assert(s.subrange(p6 + 2, p6 + 9) =~= ("stories")@) by {
        assert forall|m: int| 0 <= m < 7 implies s.subrange(p6 + 2, p6 + 9)[m] == (
        "stories")@[m] by {
            assert(s[p6 + 2 + m] == w[(p6 + 2 - i) + m]);
            if m == 0 {
            } else if m == 1 {
            } else if m == 2 {
            } else if m == 3 {
            } else if m == 4 {
            } else if m == 5 {
            } else {
            }
        }
    }
    assert(s[p6 + 9] == '"');
    assert(s[p6 + 10] == ':');
    lemma_rt_ckey(s, p6, ("stories")@);
    assert(s4[0] == '[');
    assert(s[p7] == '[');
    assert(skip_ws(s, p7) == p7);
    assert(s.subrange(p7, p7 + s4.len() as int) =~= s4) by {
        assert forall|m: int| 0 <= m < s4.len() implies s.subrange(
            p7,
            p7 + s4.len() as int,
        )[m] == s4[m] by {
            assert(s[p7 + m] == w[(p7 - i) + m]);
        }
    }
    lemma_rt_ids(v.stories, s, p7);
    assert(s[p8] == '}');
    assert(skip_ws(s, p8) == p8);
    assert(tok(s, p8, '}') == Some(p8 + 1));
}

/// A canonical epic object parses back.
#[verifier::rlimit(100)]
proof fn lemma_rt_epic(v: EpicView, s: Seq<char>, i: int)
    requires
        0 <= i,
        i + json_epic(v).len() <= s.len(),
        s.subrange(i, i + json_epic(v).len()) == json_epic(v),
    ensures
        parse_epic_at(s, i) == Some((v, i + json_epic(v).len())),
{
    lemma_rt_epic_head(v, s, i);
    lemma_rt_epic_tail(v, s, i);
    assert((EpicView {
        name: v.name,
        description: v.description,
        status: v.status,
        stories: v.stories,
    }) =~= v);
}

/// The digit string of an id reads back as that id.
proof fn lemma_key_val_digits(k: u32)
    ensures
        key_val(dec_digits(k as nat)) == Some(k),
{
    lemma_dec_digits(k as nat);
}

/// A canonical map entry (quoted id key, colon, epic object) parses back.
#[verifier::rlimit(100)]
proof fn lemma_rt_epic_entry(k: u32, v: EpicView, s: Seq<char>, i: int)
    requires
        0 <= i,
        i + json_epic_entry(k, v).len() <= s.len(),
        s.subrange(i, i + json_epic_entry(k, v).len()) == json_epic_entry(k, v),
    ensures
        parse_epic_entry(s, i) == Some(((k, v), i + json_epic_entry(k, v).len())),
{
    reveal_strlit("\":");
    let w = json_epic_entry(k, v);
    let d = dec_digits(k as nat);
    let obj = json_epic(v);
    assert(w =~= seq!['"'] + d + ("\":")@ + obj);
    assert forall|m: int| i <= m < i + w.len() implies s[m] == w[m - i] by {
        assert(s.subrange(i, i + w.len())[m - i] == s[m]);
    }
    lemma_dec_digits(k as nat);
    assert forall|m: int| 0 <= m < d.len() implies is_plain(#[trigger] d[m]) by {
        assert(is_digit(d[m]));
    }
    lemma_escape_plain(d);
    assert(s[i] == '"');
    assert(skip_ws(s, i) == i);
    let p1 = i + 1 + d.len() as int;
    // the key reads as a string literal holding the digits
    assert(s.subrange(i, p1 + 1) =~= json_string(d)) by {
        assert(json_string(d) =~= seq!['"'] + d + seq!['"']);
        assert forall|m: int| 0 <= m < d.len() + 2 implies s.subrange(i, p1 + 1)[m]
            == json_string(d)[m] by {
            assert(s[i + m] == w[m]);
        }
    }
    lemma_rt_string(d, s, i);
    assert(parse_string_tok(s, i) == Some((d, p1 + 1)));
    lemma_key_val_digits(k);
    assert(s[p1 + 1] == ':');
    assert(skip_ws(s, p1 + 1) == p1 + 1);
    assert(tok(s, p1 + 1, ':') == Some(p1 + 2));
    let p2 = p1 + 2;
    reveal_strlit("{\"name\":");
    assert(obj[0] == '{');
    assert(s[p2] == '{');
    assert(skip_ws(s, p2) == p2);
    assert(s.subrange(p2, p2 + obj.len() as int) =~= obj) by {
        assert forall|m: int| 0 <= m < obj.len() implies s.subrange(
            p2,
            p2 + obj.len() as int,
        )[m] == obj[m] by {
            assert(s[p2 + m] == w[(p2 - i) + m]);
        }
    }
    lemma_rt_epic(v, s, p2);
}

/// A canonical map entry (quoted id key, colon, story object) parses back.
#[verifier::rlimit(100)]
proof fn lemma_rt_story_entry(k: u32, v: StoryView, s: Seq<char>, i: int)
    requires
        0 <= i,
        i + json_story_entry(k, v).len() <= s.len(),
        s.subrange(i, i + json_story_entry(k, v).len()) == json_story_entry(k, v),
    ensures
        parse_story_entry(s, i) == Some(((k, v), i + json_story_entry(k, v).len())),
{
    reveal_strlit("\":");
    let w = json_story_entry(k, v);
    let d = dec_digits(k as nat);
    let obj = json_story(v);
    assert(w =~= seq!['"'] + d + ("\":")@ + obj);
    assert forall|m: int| i <= m < i + w.len() implies s[m] == w[m - i] by {
        assert(s.subrange(i, i + w.len())[m - i] == s[m]);
    }
    lemma_dec_digits(k as nat);
    assert forall|m: int| 0 <= m < d.len() implies is_plain(#[trigger] d[m]) by {
        assert(is_digit(d[m]));
    }
    lemma_escape_plain(d);
    assert(s[i] == '"');
    assert(skip_ws(s, i) == i);
    let p1 = i + 1 + d.len() as int;
    assert(s.subrange(i, p1 + 1) =~= json_string(d)) by {
        assert(json_string(d) =~= seq!['"'] + d + seq!['"']);
        assert forall|m: int| 0 <= m < d.len() + 2 implies s.subrange(i, p1 + 1)[m]
            == json_string(d)[m] by {
            assert(s[i + m] == w[m]);
        }
    }
    lemma_rt_string(d, s, i);
    assert(parse_string_tok(s, i) == Some((d, p1 + 1)));
    lemma_key_val_digits(k);
    assert(s[p1 + 1] == ':');
    assert(skip_ws(s, p1 + 1) == p1 + 1);
    assert(tok(s, p1 + 1, ':') == Some(p1 + 2));
    let p2 = p1 + 2;
    reveal_strlit("{\"name\":");
    assert(obj[0] == '{');
    assert(s[p2] == '{');
    assert(skip_ws(s, p2) == p2);
    assert(s.subrange(p2, p2 + obj.len() as int) =~= obj) by {
        assert forall|m: int| 0 <= m < obj.len() implies s.subrange(
            p2,
            p2 + obj.len() as int,
        )[m] == obj[m] by {
            assert(s[p2 + m] == w[(p2 - i) + m]);
        }
    }
    lemma_rt_story(v, s, p2);
}

/// The text of the epics object after its first entry.
pub open spec fn json_epic_entries_rest_text(t: Seq<(u32, EpicView)>) -> Seq<char>
    decreases t.len(),
{
    if t.len() == 0 {
        Seq::<char>::empty()
    } else {
        seq![','] + json_epic_entry(t[0].0, t[0].1) + json_epic_entries_rest_text(
            t.drop_first(),
        )
    }
}

/// The text of the stories object after its first entry.
pub open spec fn json_story_entries_rest_text(t: Seq<(u32, StoryView)>) -> Seq<char>
    decreases t.len(),
{
    if t.len() == 0 {
        Seq::<char>::empty()
    } else {
        seq![','] + json_story_entry(t[0].0, t[0].1) + json_story_entries_rest_text(
            t.drop_first(),
        )
    }
}

/// The rest-text decomposes at its last entry.
proof fn lemma_epic_rest_last(t: Seq<(u32, EpicView)>)
    requires
        t.len() > 0,
    ensures
        json_epic_entries_rest_text(t) == json_epic_entries_rest_text(t.drop_last()) + seq![',']
            + json_epic_entry(t.last().0, t.last().1),
    decreases t.len(),
{
    if t.len() == 1 {
        assert(t.drop_first() =~= Seq::<(u32, EpicView)>::empty());
        assert(t.drop_last() =~= Seq::<(u32, EpicView)>::empty());
        assert(json_epic_entries_rest_text(t) =~= json_epic_entries_rest_text(t.drop_last())
            + seq![','] + json_epic_entry(t.last().0, t.last().1));
    } else {
        let q = t.drop_first();
        lemma_epic_rest_last(q);
        assert(q.last() == t.last());
        assert(q.drop_last() =~= t.drop_last().drop_first());
        assert(t.drop_last()[0] == t[0]);
        assert(json_epic_entries_rest_text(t) =~= json_epic_entries_rest_text(t.drop_last())
            + seq![','] + json_epic_entry(t.last().0, t.last().1));
    }
}

/// The rest-text decomposes at its last entry.
proof fn lemma_story_rest_last(t: Seq<(u32, StoryView)>)
    requires
        t.len() > 0,
    ensures
        json_story_entries_rest_text(t) == json_story_entries_rest_text(t.drop_last())
            + seq![','] + json_story_entry(t.last().0, t.last().1),
    decreases t.len(),
{
    if t.len() == 1 {
        assert(t.drop_first() =~= Seq::<(u32, StoryView)>::empty());
        assert(t.drop_last() =~= Seq::<(u32, StoryView)>::empty());
        assert(json_story_entries_rest_text(t) =~= json_story_entries_rest_text(t.drop_last())
            + seq![','] + json_story_entry(t.last().0, t.last().1));
    } else {
        let q = t.drop_first();
        lemma_story_rest_last(q);
        assert(q.last() == t.last());
        assert(q.drop_last() =~= t.drop_last().drop_first());
        assert(t.drop_last()[0] == t[0]);
        assert(json_story_entries_rest_text(t) =~= json_story_entries_rest_text(t.drop_last())
            + seq![','] + json_story_entry(t.last().0, t.last().1));
    }
}

/// The entries body decomposes at its first entry.
proof fn lemma_epic_body_first(es: Seq<(u32, EpicView)>)
    requires
        es.len() > 0,
    ensures
        json_epic_entries_body(es) == json_epic_entry(es[0].0, es[0].1)
            + json_epic_entries_rest_text(es.drop_first()),
    decreases es.len(),
{
    if es.len() == 1 {
        assert(es.drop_first() =~= Seq::<(u32, EpicView)>::empty());
        assert(json_epic_entries_body(es) =~= json_epic_entry(es[0].0, es[0].1)
            + json_epic_entries_rest_text(es.drop_first()));
    } else {
        let p = es.drop_last();
        lemma_epic_body_first(p);
        assert(p[0] == es[0]);
        let q = es.drop_first();
        assert(p.drop_first() =~= q.drop_last());
        assert(q.last() == es.last());
        lemma_epic_rest_last(q);
        assert(json_epic_entries_body(es) == json_epic_entries_body(p) + seq![',']
            + json_epic_entry(es.last().0, es.last().1));
        assert(json_epic_entries_body(es) =~= json_epic_entry(es[0].0, es[0].1)
            + json_epic_entries_rest_text(q));
    }
}

/// The entries body decomposes at its first entry.
proof fn lemma_story_body_first(es: Seq<(u32, StoryView)>)
    requires
        es.len() > 0,
    ensures
        json_story_entries_body(es) == json_story_entry(es[0].0, es[0].1)
            + json_story_entries_rest_text(es.drop_first()),
    decreases es.len(),
{
    if es.len() == 1 {
        assert(es.drop_first() =~= Seq::<(u32, StoryView)>::empty());
        assert(json_story_entries_body(es) =~= json_story_entry(es[0].0, es[0].1)
            + json_story_entries_rest_text(es.drop_first()));
    } else {
        let p = es.drop_last();
        lemma_story_body_first(p);
        assert(p[0] == es[0]);
        let q = es.drop_first();
        assert(p.drop_first() =~= q.drop_last());
        assert(q.last() == es.last());
        lemma_story_rest_last(q);
        assert(json_story_entries_body(es) == json_story_entries_body(p) + seq![',']
            + json_story_entry(es.last().0, es.last().1));
        assert(json_story_entries_body(es) =~= json_story_entry(es[0].0, es[0].1)
            + json_story_entries_rest_text(q));
    }
}

/// A canonical entries tail, closed by `}`, folds back onto the entries seen
/// so far.
#[verifier::rlimit(100)]
proof fn lemma_rt_epic_entries_rest(
    t: Seq<(u32, EpicView)>,
    s: Seq<char>,
    i: int,
    acc: Seq<(u32, EpicView)>,
)
    requires
        0 <= i,
        i + json_epic_entries_rest_text(t).len() + 1 <= s.len(),
        s.subrange(i, i + json_epic_entries_rest_text(t).len() + 1)
            == json_epic_entries_rest_text(t) + seq!['}'],
        crate::idmap::keys_sorted(acc + t),
    ensures
        parse_epic_entries_rest(s, i, acc) == Some(
            (acc + t, i + json_epic_entries_rest_text(t).len() + 1),
        ),
    decreases t.len(),
{
    let w = json_epic_entries_rest_text(t) + seq!['}'];
    if t.len() == 0 {
        assert(s[i] == '}') by {
            assert(s.subrange(i, i + w.len())[0] == s[i]);
            assert(w[0] == '}');
        }
        assert(skip_ws(s, i) == i);
        assert(acc + t =~= acc);
    } else {
        let en = json_epic_entry(t[0].0, t[0].1);
        let rq = json_epic_entries_rest_text(t.drop_first());
        assert(w =~= seq![','] + en + rq + seq!['}']);
        assert(s[i] == ',') by {
            assert(s.subrange(i, i + w.len())[0] == s[i]);
            assert(w[0] == ',');
        }
        assert(skip_ws(s, i) == i);
        assert(w.subrange(1, 1 + en.len() as int) =~= en);
        lemma_subrange_shift(s, i, w, 1, 1 + en.len() as int);
        assert(en[0] == '"');
        assert(s[i + 1] == '"') by {
            assert(s.subrange(i + 1, i + 1 + en.len() as int)[0] == s[i + 1]);
        }
        lemma_rt_epic_entry(t[0].0, t[0].1, s, i + 1);
        let m2 = i + 1 + en.len() as int;
        assert(w.subrange(m2 - i, w.len() as int) =~= rq + seq!['}']);
        lemma_subrange_shift(s, i, w, m2 - i, w.len() as int);
        assert(s.subrange(m2, m2 + rq.len() + 1) == rq + seq!['}']);
        assert forall|j: int| 0 <= j < acc.len() implies (#[trigger] acc[j].0) < t[0].0 by {
            assert((acc + t)[j] == acc[j]);
            assert((acc + t)[acc.len() as int] == t[0]);
        }
        crate::idmap::lemma_entries_insert_append(acc, t[0].0, t[0].1);
        let acc2 = acc.push(t[0]);
        assert(acc2 + t.drop_first() =~= acc + t);
        assert(crate::idmap::keys_sorted(acc2 + t.drop_first()));
        lemma_rt_epic_entries_rest(t.drop_first(), s, m2, acc2);
    }
}

/// A canonical entries tail, closed by `}`, folds back onto the entries seen
/// so far.
#[verifier::rlimit(100)]
proof fn lemma_rt_story_entries_rest(
    t: Seq<(u32, StoryView)>,
    s: Seq<char>,
    i: int,
    acc: Seq<(u32, StoryView)>,
)
    requires
        0 <= i,
        i + json_story_entries_rest_text(t).len() + 1 <= s.len(),
        s.subrange(i, i + json_story_entries_rest_text(t).len() + 1)
            == json_story_entries_rest_text(t) + seq!['}'],
        crate::idmap::keys_sorted(acc + t),
    ensures
        parse_story_entries_rest(s, i, acc) == Some(
            (acc + t, i + json_story_entries_rest_text(t).len() + 1),
        ),
    decreases t.len(),
{
    let w = json_story_entries_rest_text(t) + seq!['}'];
    if t.len() == 0 {
        assert(s[i] == '}') by {
            assert(s.subrange(i, i + w.len())[0] == s[i]);
            assert(w[0] == '}');
        }
        assert(skip_ws(s, i) == i);
        assert(acc + t =~= acc);
    } else {
        let en = json_story_entry(t[0].0, t[0].1);
        let rq = json_story_entries_rest_text(t.drop_first());
        assert(w =~= seq![','] + en + rq + seq!['}']);
        assert(s[i] == ',') by {
            assert(s.subrange(i, i + w.len())[0] == s[i]);
            assert(w[0] == ',');
        }
        assert(skip_ws(s, i) == i);
        assert(w.subrange(1, 1 + en.len() as int) =~= en);
        lemma_subrange_shift(s, i, w, 1, 1 + en.len() as int);
        assert(en[0] == '"');
        assert(s[i + 1] == '"') by {
            assert(s.subrange(i + 1, i + 1 + en.len() as int)[0] == s[i + 1]);
        }
        lemma_rt_story_entry(t[0].0, t[0].1, s, i + 1);
        let m2 = i + 1 + en.len() as int;
        assert(w.subrange(m2 - i, w.len() as int) =~= rq + seq!['}']);
        lemma_subrange_shift(s, i, w, m2 - i, w.len() as int);
        assert(s.subrange(m2, m2 + rq.len() + 1) == rq + seq!['}']);
        assert forall|j: int| 0 <= j < acc.len() implies (#[trigger] acc[j].0) < t[0].0 by {
            assert((acc + t)[j] == acc[j]);
            assert((acc + t)[acc.len() as int] == t[0]);
        }
        crate::idmap::lemma_entries_insert_append(acc, t[0].0, t[0].1);
        let acc2 = acc.push(t[0]);
        assert(acc2 + t.drop_first() =~= acc + t);
        assert(crate::idmap::keys_sorted(acc2 + t.drop_first()));
        lemma_rt_story_entries_rest(t.drop_first(), s, m2, acc2);
    }
}

/// A canonical epics object parses back to its entry sequence.
#[verifier::rlimit(100)]
proof fn lemma_rt_epic_entries(es: Seq<(u32, EpicView)>, s: Seq<char>, i: int)
    requires
        0 <= i,
        crate::idmap::keys_sorted(es),
        i + json_epic_entries(es).len() <= s.len(),
        s.subrange(i, i + json_epic_entries(es).len()) == json_epic_entries(es),
    ensures
        parse_epic_entries_at(s, i) == Some((es, i + json_epic_entries(es).len())),
{
    let w = json_epic_entries(es);
    assert(s[i] == '{') by {
        assert(s.subrange(i, i + w.len())[0] == s[i]);
        assert(w[0] == '{');
    }
    if es.len() == 0 {
        assert(s[i + 1] == '}') by {
            assert(s.subrange(i, i + w.len())[1] == s[i + 1]);
            assert(w[1] == '}');
        }
        assert(skip_ws(s, i + 1) == i + 1);
        assert(es =~= Seq::<(u32, EpicView)>::empty());
    } else {
        lemma_epic_body_first(es);
        let en = json_epic_entry(es[0].0, es[0].1);
        let rq = json_epic_entries_rest_text(es.drop_first());
        assert(w =~= seq!['{'] + en + rq + seq!['}']);
        assert(w.subrange(1, 1 + en.len() as int) =~= en);
        lemma_subrange_shift(s, i, w, 1, 1 + en.len() as int);
        assert(en[0] == '"');
        assert(s[i + 1] == '"') by {
            assert(s.subrange(i + 1, i + 1 + en.len() as int)[0] == s[i + 1]);
        }
        assert(skip_ws(s, i + 1) == i + 1);
        lemma_rt_epic_entry(es[0].0, es[0].1, s, i + 1);
        let m2 = i + 1 + en.len() as int;
        assert(w.subrange(m2 - i, w.len() as int) =~= rq + seq!['}']);
        lemma_subrange_shift(s, i, w, m2 - i, w.len() as int);
        assert(s.subrange(m2, m2 + rq.len() + 1) == rq + seq!['}']);
        let acc = crate::idmap::entries_insert(Seq::<(u32, EpicView)>::empty(), es[0].0, es[0].1);
        assert(acc =~= seq![es[0]]);
        assert(acc + es.drop_first() =~= es);
        lemma_rt_epic_entries_rest(es.drop_first(), s, m2, acc);
    }
}

/// A canonical stories object parses back to its entry sequence.
#[verifier::rlimit(100)]
proof fn lemma_rt_story_entries(es: Seq<(u32, StoryView)>, s: Seq<char>, i: int)
    requires
        0 <= i,
        crate::idmap::keys_sorted(es),
        i + json_story_entries(es).len() <= s.len(),
        s.subrange(i, i + json_story_entries(es).len()) == json_story_entries(es),
    ensures
        parse_story_entries_at(s, i) == Some((es, i + json_story_entries(es).len())),
{
    let w = json_story_entries(es);
    assert(s[i] == '{') by {
        assert(s.subrange(i, i + w.len())[0] == s[i]);
        assert(w[0] == '{');
    }
    if es.len() == 0 {
        assert(s[i + 1] == '}') by {
            assert(s.subrange(i, i + w.len())[1] == s[i + 1]);
            assert(w[1] == '}');
        }
        assert(skip_ws(s, i + 1) == i + 1);
        assert(es =~= Seq::<(u32, StoryView)>::empty());
    } else {
        lemma_story_body_first(es);
        let en = json_story_entry(es[0].0, es[0].1);
        let rq = json_story_entries_rest_text(es.drop_first());
        assert(w =~= seq!['{'] + en + rq + seq!['}']);
        assert(w.subrange(1, 1 + en.len() as int) =~= en);
        lemma_subrange_shift(s, i, w, 1, 1 + en.len() as int);
        assert(en[0] == '"');
        assert(s[i + 1] == '"') by {
            assert(s.subrange(i + 1, i + 1 + en.len() as int)[0] == s[i + 1]);
        }
        assert(skip_ws(s, i + 1) == i + 1);
        lemma_rt_story_entry(es[0].0, es[0].1, s, i + 1);
        let m2 = i + 1 + en.len() as int;
        assert(w.subrange(m2 - i, w.len() as int) =~= rq + seq!['}']);
        lemma_subrange_shift(s, i, w, m2 - i, w.len() as int);
        assert(s.subrange(m2, m2 + rq.len() + 1) == rq + seq!['}']);
        let acc = crate::idmap::entries_insert(Seq::<(u32, StoryView)>::empty(), es[0].0, es[0].1);
        assert(acc =~= seq![es[0]]);
        assert(acc + es.drop_first() =~= es);
        lemma_rt_story_entries_rest(es.drop_first(), s, m2, acc);
    }
}

/// The first half of the canonical document text: the brace, the counter
/// field and the epics object parse back at their positions.
#[verifier::rlimit(100)]
proof fn lemma_rt_state_head(sv: StateView)
    requires
        sv.wf(),
    ensures
        ({
            let s = json_state(sv);
            let p2 = 16 + dec_digits(sv.last_item_id as nat).len() as int;
            let p3 = p2 + 9;
            let p4 = p3 + json_epic_entries(sv.epics).len() as int;
            &&& s.len() > 0
            &&& skip_ws(s, 0) == 0
            &&& s[0] == '{'
            &&& parse_key(s, 1, ("last_item_id")@) == Some(16int)
            &&& skip_ws(s, 16) == 16
            &&& parse_u32_at(s, 16) == Some((sv.last_item_id, p2))
            &&& parse_comma_key(s, p2, ("epics")@) == Some(p3)
            &&& skip_ws(s, p3) == p3
            &&& parse_epic_entries_at(s, p3) == Some((sv.epics, p4))
        }),
{
    reveal_strlit("{\"last_item_id\":");
    reveal_strlit(",\"epics\":");
    reveal_strlit(",\"stories\":");
    reveal_strlit("}");
    reveal_strlit("last_item_id");
    reveal_strlit("epics");
    let s = json_state(sv);
    let a = ("{\"last_item_id\":")@;
    let b = (",\"epics\":")@;
    let c3 = (",\"stories\":")@;
    let d = dec_digits(sv.last_item_id as nat);
    let e1 = json_epic_entries(sv.epics);
    let e2 = json_story_entries(sv.stories);
    assert(a.len() == 16);
    assert(b.len() == 9);
    assert(c3.len() == 11);
    lemma_dec_digits(sv.last_item_id as nat);
    assert(s =~= a + d + b + e1 + c3 + e2 + ("}")@);
    let p1 = 16int;
    let p2 = p1 + d.len() as int;
    let p3 = p2 + 9;
    let p4 = p3 + e1.len() as int;
    assert(s[0] == '{');
    assert(skip_ws(s, 0) == 0);
    // the "last_item_id" key
    assert(s[1] == '"');
    assert(skip_ws(s, 1) == 1);
    assert(s.subrange(2, 14) =~= ("last_item_id")@) by {
        assert forall|m: int| 0 <= m < 12 implies s.subrange(2, 14)[m] == (
        "last_item_id")@[m] by {
            assert(s.subrange(2, 14)[m] == s[2 + m]);
            assert(s[2 + m] == a[2 + m]);
            if m == 0 {
            } else if m == 1 {
            } else if m == 2 {
            } else if m == 3 {
            } else if m == 4 {
            } else if m == 5 {
            } else if m == 6 {
            } else if m == 7 {
            } else if m == 8 {
            } else if m == 9 {
            } else if m == 10 {
            } else {
            }
        }
    }
    assert(s[14] == '"');
    assert(s[15] == ':');
    assert(skip_ws(s, 15) == 15);
    assert(parse_key(s, 1, ("last_item_id")@) == Some(16int));
    // the counter
    assert(s[p1] == d[0]);
    assert(is_digit(d[0]));
    assert(!is_ws(s[p1]));
    assert(skip_ws(s, p1) == p1);
    assert(s.subrange(p1, p2) =~= d) by {
        assert forall|m: int| 0 <= m < d.len() implies s.subrange(p1, p2)[m] == d[m] by {
            assert(s.subrange(p1, p2)[m] == s[p1 + m]);
        }
    }
    assert(s[p2] == ',');
    lemma_rt_u32(s, p1, sv.last_item_id);
    assert(parse_u32_at(s, p1) == Some((sv.last_item_id, p2)));
    // the "epics" key
    assert(skip_ws(s, p2) == p2);
    assert(s[p2 + 1] == '"');
    assert(skip_ws(s, p2 + 1) == p2 + 1);
    assert(s.subrange(p2 + 2, p2 + 7) =~= ("epics")@) by {
        assert forall|m: int| 0 <= m < 5 implies s.subrange(p2 + 2, p2 + 7)[m] == (
        "epics")@[m] by {
            assert(s.subrange(p2 + 2, p2 + 7)[m] == s[p2 + 2 + m]);
            assert(s[p2 + 2 + m] == b[2 + m]);
            if m == 0 {
            } else if m == 1 {
            } else if m == 2 {
            } else if m == 3 {
            } else {
            }
        }
    }
    assert(s[p2 + 7] == '"');
    assert(s[p2 + 8] == ':');
    assert(skip_ws(s, p2 + 8) == p2 + 8);
    assert(parse_comma_key(s, p2, ("epics")@) == Some(p3));
    // the epics object
    assert(s[p3] == '{');
    assert(skip_ws(s, p3) == p3);
    assert(s.subrange(p3, p4) =~= e1) by {
        assert forall|m: int| 0 <= m < e1.len() implies s.subrange(p3, p4)[m] == e1[m] by {
            assert(s.subrange(p3, p4)[m] == s[p3 + m]);
        }
    }
    lemma_rt_epic_entries(sv.epics, s, p3);
    assert(parse_epic_entries_at(s, p3) == Some((sv.epics, p4)));
}

/// The second half of the canonical document text: the stories object and
/// the closing brace parse back, and nothing follows them.
#[verifier::rlimit(100)]
proof fn lemma_rt_state_tail(sv: StateView)
    requires
        sv.wf(),
    ensures
        ({
            let s = json_state(sv);
            let p2 = 16 + dec_digits(sv.last_item_id as nat).len() as int;
            let p4 = p2 + 9 + json_epic_entries(sv.epics).len() as int;
            let p5 = p4 + 11;
            let p6 = p5 + json_story_entries(sv.stories).len() as int;
            &&& parse_comma_key(s, p4, ("stories")@) == Some(p5)
            &&& skip_ws(s, p5) == p5
            &&& parse_story_entries_at(s, p5) == Some((sv.stories, p6))
            &&& tok(s, p6, '}') == Some(p6 + 1)
            &&& p6 + 1 == s.len()
            &&& skip_ws(s, p6 + 1) == s.len()
        }),
{
    reveal_strlit("{\"last_item_id\":");
    reveal_strlit(",\"epics\":");
    reveal_strlit(",\"stories\":");
    reveal_strlit("}");
    reveal_strlit("stories");
    let s = json_state(sv);
    let a = ("{\"last_item_id\":")@;
    let b = (",\"epics\":")@;
    let c3 = (",\"stories\":")@;
    let d = dec_digits(sv.last_item_id as nat);
    let e1 = json_epic_entries(sv.epics);
    let e2 = json_story_entries(sv.stories);
    assert(a.len() == 16);
    assert(b.len() == 9);
    assert(c3.len() == 11);
    lemma_dec_digits(sv.last_item_id as nat);
    assert(s =~= a + d + b + e1 + c3 + e2 + ("}")@);
    let p2 = 16 + d.len() as int;
    let p4 = p2 + 9 + e1.len() as int;
    let p5 = p4 + 11;
    let p6 = p5 + e2.len() as int;
    assert(p6 + 1 == s.len());
    // the "stories" key
    assert(s[p4] == ',');
    assert(skip_ws(s, p4) == p4);
    assert(s[p4 + 1] == '"');
    assert(skip_ws(s, p4 + 1) == p4 + 1);
    assert(s.subrange(p4 + 2, p4 + 9) =~= ("stories")@) by {
        assert forall|m: int| 0 <= m < 7 implies s.subrange(p4 + 2, p4 + 9)[m] == (
        "stories")@[m] by {
            assert(s.subrange(p4 + 2, p4 + 9)[m] == s[p4 + 2 + m]);
            assert(s[p4 + 2 + m] == c3[2 + m]);
            if m == 0 {
            } else if m == 1 {
            } else if m == 2 {
            } else if m == 3 {
            } else if m == 4 {
            } else if m == 5 {
            } else {
            }
        }
    }
    assert(s[p4 + 9] == '"');
    assert(s[p4 + 10] == ':');
    assert(skip_ws(s, p4 + 10) == p4 + 10);
    assert(parse_comma_key(s, p4, ("stories")@) == Some(p5));
    // the stories object
    assert(s[p5] == '{');
    assert(skip_ws(s, p5) == p5);
    assert(s.subrange(p5, p6) =~= e2) by {
        assert forall|m: int| 0 <= m < e2.len() implies s.subrange(p5, p6)[m] == e2[m] by {
            assert(s.subrange(p5, p6)[m] == s[p5 + m]);
        }
    }
    lemma_rt_story_entries(sv.stories, s, p5);
    assert(parse_story_entries_at(s, p5) == Some((sv.stories, p6)));
    // the closing brace, then the end
    assert(s[p6] == '}');
    assert(skip_ws(s, p6) == p6);
    assert(tok(s, p6, '}') == Some(p6 + 1));
    assert(skip_ws(s, p6 + 1) == s.len());
}

/// Round trip: the canonical text of a well-formed document parses back to
/// exactly that document — same counter, same epic entries, same story
/// entries. Together with the contracts of `encode_state` and
/// `decode_state`, decoding an encoded document always succeeds and yields
/// an equal document.
pub proof fn lemma_state_roundtrip(sv: StateView)
    requires
        sv.wf(),
    ensures
        parse_state(json_state(sv)) == Some(sv),
{
    lemma_rt_state_head(sv);
    lemma_rt_state_tail(sv);
    assert((StateView {
        last_item_id: sv.last_item_id,
        epics: sv.epics,
        stories: sv.stories,
    }) =~= sv);
}

// ---------------------------------------------------------------------------
// The parser, executable
// ---------------------------------------------------------------------------

/// Relies on `char::from_u32`: `Some` exactly on Unicode scalar values, and
/// the returned character has the given code.
#[verifier::external_body]
fn char_from_u32(n: u32) -> (r: Option<char>)
    ensures
        r is Some <==> (n < 0xD800 || (0xE000 <= n && n <= 0x10FFFF)),
        r matches Some(c) ==> c as u32 == n,
{
    char::from_u32(n)
}

fn e_skip_ws(s: &Vec<char>, i: usize) -> (r: usize)
    requires
        i <= s@.len(),
    ensures
        r as int == skip_ws(s@, i as int),
        i <= r <= s@.len(),
{
    let mut j = i;
    let n = s.len();
    while j < n && (s[j] == ' ' || s[j] == '\n' || s[j] == '\t' || s[j] == '\r')
        invariant
            i <= j <= n,
            n == s@.len(),
            skip_ws(s@, i as int) == skip_ws(s@, j as int),
        decreases n - j,
    {
        j += 1;
    }
    j
}

fn e_tok(s: &Vec<char>, i: usize, c: char) -> (r: Option<usize>)
    requires
        i <= s@.len(),
    ensures
        match r {
            Some(j) => tok(s@, i as int, c) == Some(j as int) && i <= j <= s@.len(),
            None => tok(s@, i as int, c) is None,
        },
{
    let j = e_skip_ws(s, i);
    if j < s.len() && s[j] == c {
        Some(j + 1)
    } else {
        None
    }
}

fn e_digits_end(s: &Vec<char>, i: usize) -> (r: usize)
    requires
        i <= s@.len(),
    ensures
        r as int == digits_end(s@, i as int),
        i <= r <= s@.len(),
{
    let mut j = i;
    let n = s.len();
    while j < n && (s[j] as u32) >= 48 && (s[j] as u32) <= 57
        invariant
            i <= j <= n,
            n == s@.len(),
            digits_end(s@, i as int) == digits_end(s@, j as int),
        decreases n - j,
    {
        j += 1;
    }
    j
}

fn e_parse_u32_at(s: &Vec<char>, i: usize) -> (r: Option<(u32, usize)>)
    requires
        i <= s@.len(),
    ensures
        match r {
            Some((v, j)) => parse_u32_at(s@, i as int) == Some((v, j as int)) && i < j
                <= s@.len(),
            None => parse_u32_at(s@, i as int) is None,
        },
{
    proof {
        lemma_digits_end(s@, i as int);
    }
    let end = e_digits_end(s, i);
    if end == i {
        return None;
    }
    if s[i] == '0' && end > i + 1 {
        return None;
    }
    let ghost ds = s@.subrange(i as int, end as int);
    let mut acc: u64 = 0;
    let mut k = i;
    while k < end
        invariant
            i <= k <= end <= s@.len(),
            i < end,
            end as int == digits_end(s@, i as int),
            s@[i as int] != '0' || end == i + 1,
            ds == s@.subrange(i as int, end as int),
            forall|j: int| i <= j < end ==> is_digit(#[trigger] s@[j]),
            acc == val_of_digits(s@.subrange(i as int, k as int)),
            acc <= u32::MAX as u64,
        decreases end - k,
    {
        proof {
            assert(is_digit(s@[k as int]));
        }
        let d = (s[k] as u32) - 48;
        let next = acc * 10 + d as u64;
        proof {
            assert(s@.subrange(i as int, k + 1).drop_last() =~= s@.subrange(i as int, k as int));
            assert(s@.subrange(i as int, k + 1).last() == s@[k as int]);
        }
        if next > u32::MAX as u64 {
            proof {
                assert forall|m: int| 0 <= m < ds.len() implies is_digit(#[trigger] ds[m]) by {
                    assert(ds[m] == s@[i + m]);
                }
                lemma_val_of_digits_grows(ds, k + 1 - i);
                assert(ds.take(k + 1 - i) =~= s@.subrange(i as int, k + 1));
            }
            return None;
        }
        acc = next;
        k += 1;
    }
    proof {
        assert(s@.subrange(i as int, end as int) == ds);
    }
    Some((acc as u32, end))
}

fn e_hex_val(c: char) -> (r: Option<u8>)
    ensures
        match r {
            Some(v) => hex_val(c) == v as int && v < 16,
            None => hex_val(c) < 0,
        },
{
    let u = c as u32;
    if 48 <= u && u <= 57 {
        Some((u - 48) as u8)
    } else if 97 <= u && u <= 102 {
        Some((u - 87) as u8)
    } else if 65 <= u && u <= 70 {
        Some((u - 55) as u8)
    } else {
        None
    }
}

fn e_parse_str_body(s: &Vec<char>, i: usize) -> (r: Option<(Vec<char>, usize)>)
    requires
        i <= s@.len(),
    ensures
        match r {
            Some((v, j)) => parse_str_body(s@, i as int) == Some((v@, j as int)) && i < j
                <= s@.len(),
            None => parse_str_body(s@, i as int) is None,
        },
    decreases s@.len() - i,
{
    if i >= s.len() {
        return None;
    }
    let c = s[i];
    if c == '"' {
        let v: Vec<char> = Vec::new();
        proof {
            assert(v@ =~= Seq::<char>::empty());
        }
        return Some((v, i + 1));
    }
    if c == '\\' {
        if i + 1 >= s.len() {
            return None;
        }
        let e = s[i + 1];
        if e == '"' || e == '\\' || e == '/' || e == 'b' || e == 'f' || e == 'n' || e == 'r' || e
            == 't' {
            let u: char = if e == 'b' {
                match char_from_u32(8) {
                    Some(x) => x,
                    None => {
                        proof {
                            assert(false);
                        }
                        return None;
                    },
                }
            } else if e == 'f' {
                match char_from_u32(12) {
                    Some(x) => x,
                    None => {
                        proof {
                            assert(false);
                        }
                        return None;
                    },
                }
            } else if e == 'n' {
                '\n'
            } else if e == 'r' {
                '\r'
            } else if e == 't' {
                '\t'
            } else {
                e
            };
            proof {
                if e == 'b' {
                    vstd::utf8::char_u32_cast(u, 8);
                } else if e == 'f' {
                    vstd::utf8::char_u32_cast(u, 12);
                }
                assert(u == unescaped(e));
            }
            match e_parse_str_body(s, i + 2) {
                Some((mut rest, j)) => {
                    let ghost r0 = rest@;
                    rest.insert(0, u);
                    proof {
                        assert(rest@ =~= seq![unescaped(e)] + r0);
                    }
                    return Some((rest, j));
                },
                None => {
                    return None;
                },
            }
        } else if e == 'u' && s.len() - i > 5 {
            let h2 = e_hex_val(s[i + 2]);
            let h3 = e_hex_val(s[i + 3]);
            let h4 = e_hex_val(s[i + 4]);
            let h5 = e_hex_val(s[i + 5]);
            match (h2, h3, h4, h5) {
                (Some(a), Some(b), Some(cc), Some(d)) => {
                    let h: u32 = a as u32 * 4096 + b as u32 * 256 + cc as u32 * 16 + d as u32;
                    if h < 0xD800 || h >= 0xE000 {
                        let u = match char_from_u32(h) {
                            Some(x) => x,
                            None => {
                                proof {
                                    assert(false);
                                }
                                return None;
                            },
                        };
                        proof {
                            vstd::utf8::char_u32_cast(u, h);
                            assert(u == ((h as u32) as char));
                        }
                        match e_parse_str_body(s, i + 6) {
                            Some((mut rest, j)) => {
                                let ghost r0 = rest@;
                                rest.insert(0, u);
                                proof {
                                    assert(rest@ =~= seq![((h as u32) as char)] + r0);
                                }
                                return Some((rest, j));
                            },
                            None => {
                                return None;
                            },
                        }
                    } else {
                        return None;
                    }
                },
                _ => {
                    return None;
                },
            }
        } else {
            return None;
        }
    }
    if (c as u32) < 32 {
        return None;
    }
    match e_parse_str_body(s, i + 1) {
        Some((mut rest, j)) => {
            let ghost r0 = rest@;
            rest.insert(0, c);
            proof {
                assert(rest@ =~= seq![s@[i as int]] + r0);
            }
            Some((rest, j))
        },
        None => None,
    }
}

fn e_parse_string_at(s: &Vec<char>, i: usize) -> (r: Option<(Vec<char>, usize)>)
    requires
        i <= s@.len(),
    ensures
        match r {
            Some((v, j)) => parse_string_at(s@, i as int) == Some((v@, j as int)) && i < j
                <= s@.len(),
            None => parse_string_at(s@, i as int) is None,
        },
{
    if i < s.len() && s[i] == '"' {
        e_parse_str_body(s, i + 1)
    } else {
        None
    }
}

fn e_parse_string_tok(s: &Vec<char>, i: usize) -> (r: Option<(Vec<char>, usize)>)
    requires
        i <= s@.len(),
    ensures
        match r {
            Some((v, j)) => parse_string_tok(s@, i as int) == Some((v@, j as int)) && i < j
                <= s@.len(),
            None => parse_string_tok(s@, i as int) is None,
        },
{
    let j = e_skip_ws(s, i);
    e_parse_string_at(s, j)
}

/// Whether the characters equal the text of `t`.
fn chars_eq_str(v: &Vec<char>, t: &str) -> (r: bool)
    ensures
        r == (v@ == t@),
{
    let n = t.unicode_len();
    if v.len() != n {
        proof {
            assert(v@.len() != t@.len());
        }
        return false;
    }
    for i in 0..n
        invariant
            n == t@.len(),
            n == v@.len(),
            forall|j: int| 0 <= j < i ==> v@[j] == t@[j],
    {
        if v[i] != t.get_char(i) {
            return false;
        }
    }
    proof {
        assert(v@ =~= t@);
    }
    true
}

fn e_parse_status_tok(s: &Vec<char>, i: usize) -> (r: Option<(Status, usize)>)
    requires
        i <= s@.len(),
    ensures
        match r {
            Some((st, j)) => parse_status_tok(s@, i as int) == Some((st, j as int)) && i < j
                <= s@.len(),
            None => parse_status_tok(s@, i as int) is None,
        },
{
    match e_parse_string_tok(s, i) {
        Some((name, j)) => {
            if chars_eq_str(&name, "Open") {
                Some((Status::Open, j))
            } else if chars_eq_str(&name, "InProgress") {
                Some((Status::InProgress, j))
            } else if chars_eq_str(&name, "Resolved") {
                Some((Status::Resolved, j))
            } else if chars_eq_str(&name, "Closed") {
                Some((Status::Closed, j))
            } else {
                None
            }
        },
        None => None,
    }
}

fn e_parse_key(s: &Vec<char>, i: usize, key: &str) -> (r: Option<usize>)
    requires
        i <= s@.len(),
    ensures
        match r {
            Some(j) => parse_key(s@, i as int, key@) == Some(j as int) && i <= j <= s@.len(),
            None => parse_key(s@, i as int, key@) is None,
        },
{
    let j = e_skip_ws(s, i);
    let klen = key.unicode_len();
    let n = s.len();
    if !(j < n && s[j] == '"') {
        return None;
    }
    if n - (j + 1) <= klen {
        return None;
    }
    let base = j + 1;
    for t in 0..klen
        invariant
            n == s@.len(),
            base == j + 1,
            i <= j < n,
            j as int == skip_ws(s@, i as int),
            s@[j as int] == '"',
            base + klen + 1 <= n,
            klen == key@.len(),
            forall|m: int| 0 <= m < t ==> s@[base + m] == key@[m],
    {
        if s[base + t] != key.get_char(t) {
            proof {
                assert(s@.subrange(j + 1, j + 1 + klen as int)[t as int] != key@[t as int]);
            }
            return None;
        }
    }
    proof {
        assert(s@.subrange(j + 1, j + 1 + klen as int) =~= key@);
    }
    if s[base + klen] != '"' {
        return None;
    }
    e_tok(s, base + klen + 1, ':')
}

fn e_parse_comma_key(s: &Vec<char>, i: usize, key: &str) -> (r: Option<usize>)
    requires
        i <= s@.len(),
    ensures
        match r {
            Some(j) => parse_comma_key(s@, i as int, key@) == Some(j as int) && i <= j
                <= s@.len(),
            None => parse_comma_key(s@, i as int, key@) is None,
        },
{
    match e_tok(s, i, ',') {
        Some(j) => e_parse_key(s, j, key),
        None => None,
    }
}

fn e_key_val(ks: &Vec<char>) -> (r: Option<u32>)
    ensures
        r == key_val(ks@),
{
    let n = ks.len();
    if n == 0 {
        return None;
    }
    for i in 0..n
        invariant
            n == ks@.len(),
            forall|j: int| 0 <= j < i ==> is_digit(#[trigger] ks@[j]),
    {
        let u = ks[i] as u32;
        if !(48 <= u && u <= 57) {
            return None;
        }
    }
    if ks[0] == '0' && n > 1 {
        return None;
    }
    let mut acc: u64 = 0;
    let mut k: usize = 0;
    while k < n
        invariant
            0 <= k <= n,
            n == ks@.len(),
            forall|j: int| 0 <= j < n ==> is_digit(#[trigger] ks@[j]),
            acc == val_of_digits(ks@.take(k as int)),
            acc <= u32::MAX as u64,
        decreases n - k,
    {
        let d = (ks[k] as u32) - 48;
        let next = acc * 10 + d as u64;
        proof {
            assert(ks@.take(k + 1).drop_last() =~= ks@.take(k as int));
            assert(ks@.take(k + 1).last() == ks@[k as int]);
        }
        if next > u32::MAX as u64 {
            proof {
                lemma_val_of_digits_grows(ks@, k + 1);
                assert(ks@.take(k + 1) =~= ks@.take(k + 1));
            }
            return None;
        }
        acc = next;
        k += 1;
    }
    proof {
        assert(ks@.take(n as int) =~= ks@);
    }
    Some(acc as u32)
}

fn e_parse_ids_rest(s: &Vec<char>, i: usize) -> (r: Option<(Vec<u32>, usize)>)
    requires
        i <= s@.len(),
    ensures
        match r {
            Some((v, j)) => parse_ids_rest(s@, i as int) == Some((v@, j as int)) && i < j
                <= s@.len(),
            None => parse_ids_rest(s@, i as int) is None,
        },
    decreases s@.len() - i,
{
    let j = e_skip_ws(s, i);
    if j < s.len() && s[j] == ']' {
        let v: Vec<u32> = Vec::new();
        proof {
            assert(v@ =~= Seq::<u32>::empty());
        }
        return Some((v, j + 1));
    }
    if j < s.len() && s[j] == ',' {
        let k = e_skip_ws(s, j + 1);
        match e_parse_u32_at(s, k) {
            Some((v, m)) => {
                match e_parse_ids_rest(s, m) {
                    Some((mut rest, e)) => {
                        let ghost r0 = rest@;
                        rest.insert(0, v);
                        proof {
                            assert(rest@ =~= seq![v] + r0);
                        }
                        Some((rest, e))
                    },
                    None => None,
                }
            },
            None => None,
        }
    } else {
        None
    }
}

fn e_parse_ids_at(s: &Vec<char>, i: usize) -> (r: Option<(Vec<u32>, usize)>)
    requires
        i <= s@.len(),
    ensures
        match r {
            Some((v, j)) => parse_ids_at(s@, i as int) == Some((v@, j as int)) && i < j
                <= s@.len(),
            None => parse_ids_at(s@, i as int) is None,
        },
{
    if !(i < s.len() && s[i] == '[') {
        return None;
    }
    let j = e_skip_ws(s, i + 1);
    if j < s.len() && s[j] == ']' {
        let v: Vec<u32> = Vec::new();
        proof {
            assert(v@ =~= Seq::<u32>::empty());
        }
        return Some((v, j + 1));
    }
    match e_parse_u32_at(s, j) {
        Some((v, m)) => {
            match e_parse_ids_rest(s, m) {
                Some((mut rest, e)) => {
                    let ghost r0 = rest@;
                    rest.insert(0, v);
                    proof {
                        assert(rest@ =~= seq![v] + r0);
                    }
                    Some((rest, e))
                },
                None => None,
            }
        },
        None => None,
    }
}

fn e_parse_story_at(s: &Vec<char>, i: usize) -> (r: Option<(Story, usize)>)
    requires
        i <= s@.len(),
    ensures
        match r {
            Some((v, j)) => parse_story_at(s@, i as int) == Some((v@, j as int)) && i < j
                <= s@.len(),
            None => parse_story_at(s@, i as int) is None,
        },
{
    if !(i < s.len() && s[i] == '{') {
        return None;
    }
    let j1 = match e_parse_key(s, i + 1, "name") {
        Some(j) => j,
        None => {
            return None;
        },
    };
    let (name, j2) = match e_parse_string_tok(s, j1) {
        Some(x) => x,
        None => {
            return None;
        },
    };
    let j3 = match e_parse_comma_key(s, j2, "description") {
        Some(j) => j,
        None => {
            return None;
        },
    };
    let (description, j4) = match e_parse_string_tok(s, j3) {
        Some(x) => x,
        None => {
            return None;
        },
    };
    let j5 = match e_parse_comma_key(s, j4, "status") {
        Some(j) => j,
        None => {
            return None;
        },
    };
    let (status, j6) = match e_parse_status_tok(s, j5) {
        Some(x) => x,
        None => {
            return None;
        },
    };
    let j7 = match e_tok(s, j6, '}') {
        Some(j) => j,
        None => {
            return None;
        },
    };
    let story = Story { name: chars_to_string(&name), description: chars_to_string(&description), status };
    proof {
        assert(story@ =~= (StoryView { name: name@, description: description@, status }));
    }
    Some((story, j7))
}

fn e_parse_epic_at(s: &Vec<char>, i: usize) -> (r: Option<(Epic, usize)>)
    requires
        i <= s@.len(),
    ensures
        match r {
            Some((v, j)) => parse_epic_at(s@, i as int) == Some((v@, j as int)) && i < j
                <= s@.len(),
            None => parse_epic_at(s@, i as int) is None,
        },
{
    if !(i < s.len() && s[i] == '{') {
        return None;
    }
    let j1 = match e_parse_key(s, i + 1, "name") {
        Some(j) => j,
        None => {
            return None;
        },
    };
    let (name, j2) = match e_parse_string_tok(s, j1) {
        Some(x) => x,
        None => {
            return None;
        },
    };
    let j3 = match e_parse_comma_key(s, j2, "description") {
        Some(j) => j,
        None => {
            return None;
        },
    };
    let (description, j4) = match e_parse_string_tok(s, j3) {
        Some(x) => x,
        None => {
            return None;
        },
    };
    let j5 = match e_parse_comma_key(s, j4, "status") {
        Some(j) => j,
        None => {
            return None;
        },
    };
    let (status, j6) = match e_parse_status_tok(s, j5) {
        Some(x) => x,
        None => {
            return None;
        },
    };
    let j7 = match e_parse_comma_key(s, j6, "stories") {
        Some(j) => j,
        None => {
            return None;
        },
    };
    let j7b = e_skip_ws(s, j7);
    let (stories, j8) = match e_parse_ids_at(s, j7b) {
        Some(x) => x,
        None => {
            return None;
        },
    };
    let j9 = match e_tok(s, j8, '}') {
        Some(j) => j,
        None => {
            return None;
        },
    };
    let epic = Epic {
        name: chars_to_string(&name),
        description: chars_to_string(&description),
        status,
        stories,
    };
    proof {
        assert(epic@ =~= (EpicView {
            name: name@,
            description: description@,
            status,
            stories: epic.stories@,
        }));
    }
    Some((epic, j9))
}

fn e_parse_epic_entry(s: &Vec<char>, i: usize) -> (r: Option<((u32, Epic), usize)>)
    requires
        i <= s@.len(),
    ensures
        match r {
            Some(((k, v), j)) => parse_epic_entry(s@, i as int) == Some(((k, v@), j as int)) && i
                < j <= s@.len(),
            None => parse_epic_entry(s@, i as int) is None,
        },
{
    let (ks, j) = match e_parse_string_tok(s, i) {
        Some(x) => x,
        None => {
            return None;
        },
    };
    let k = match e_key_val(&ks) {
        Some(k) => k,
        None => {
            return None;
        },
    };
    let j2 = match e_tok(s, j, ':') {
        Some(j2) => j2,
        None => {
            return None;
        },
    };
    let j2b = e_skip_ws(s, j2);
    match e_parse_epic_at(s, j2b) {
        Some((v, j3)) => Some(((k, v), j3)),
        None => None,
    }
}

fn e_parse_story_entry(s: &Vec<char>, i: usize) -> (r: Option<((u32, Story), usize)>)
    requires
        i <= s@.len(),
    ensures
        match r {
            Some(((k, v), j)) => parse_story_entry(s@, i as int) == Some(((k, v@), j as int))
                && i < j <= s@.len(),
            None => parse_story_entry(s@, i as int) is None,
        },
{
    let (ks, j) = match e_parse_string_tok(s, i) {
        Some(x) => x,
        None => {
            return None;
        },
    };
    let k = match e_key_val(&ks) {
        Some(k) => k,
        None => {
            return None;
        },
    };
    let j2 = match e_tok(s, j, ':') {
        Some(j2) => j2,
        None => {
            return None;
        },
    };
    let j2b = e_skip_ws(s, j2);
    match e_parse_story_at(s, j2b) {
        Some((v, j3)) => Some(((k, v), j3)),
        None => None,
    }
}

fn e_parse_epic_entries_rest(s: &Vec<char>, i: usize, acc: IdMap<Epic>) -> (r: Option<(
    IdMap<Epic>,
    usize,
)>)
    requires
        i <= s@.len(),
        acc.wf(),
    ensures
        match r {
            Some((m, j)) => parse_epic_entries_rest(s@, i as int, acc@) == Some(
                (m@, j as int),
            ) && m.wf() && i < j <= s@.len(),
            None => parse_epic_entries_rest(s@, i as int, acc@) is None,
        },
    decreases s@.len() - i,
{
    let j = e_skip_ws(s, i);
    if j < s.len() && s[j] == '}' {
        return Some((acc, j + 1));
    }
    if j < s.len() && s[j] == ',' {
        match e_parse_epic_entry(s, j + 1) {
            Some(((k, v), m)) => {
                let mut acc2 = acc;
                acc2.insert(k, v);
                e_parse_epic_entries_rest(s, m, acc2)
            },
            None => None,
        }
    } else {
        None
    }
}

fn e_parse_story_entries_rest(s: &Vec<char>, i: usize, acc: IdMap<Story>) -> (r: Option<(
    IdMap<Story>,
    usize,
)>)
    requires
        i <= s@.len(),
        acc.wf(),
    ensures
        match r {
            Some((m, j)) => parse_story_entries_rest(s@, i as int, acc@) == Some(
                (m@, j as int),
            ) && m.wf() && i < j <= s@.len(),
            None => parse_story_entries_rest(s@, i as int, acc@) is None,
        },
    decreases s@.len() - i,
{
    let j = e_skip_ws(s, i);
    if j < s.len() && s[j] == '}' {
        return Some((acc, j + 1));
    }
    if j < s.len() && s[j] == ',' {
        match e_parse_story_entry(s, j + 1) {
            Some(((k, v), m)) => {
                let mut acc2 = acc;
                acc2.insert(k, v);
                e_parse_story_entries_rest(s, m, acc2)
            },
            None => None,
        }
    } else {
        None
    }
}

fn e_parse_epic_entries_at(s: &Vec<char>, i: usize) -> (r: Option<(IdMap<Epic>, usize)>)
    requires
        i <= s@.len(),
    ensures
        match r {
            Some((m, j)) => parse_epic_entries_at(s@, i as int) == Some((m@, j as int))
                && m.wf() && i < j <= s@.len(),
            None => parse_epic_entries_at(s@, i as int) is None,
        },
{
    if !(i < s.len() && s[i] == '{') {
        return None;
    }
    let j = e_skip_ws(s, i + 1);
    if j < s.len() && s[j] == '}' {
        return Some((IdMap::new(), j + 1));
    }
    match e_parse_epic_entry(s, i + 1) {
        Some(((k, v), m)) => {
            let mut acc: IdMap<Epic> = IdMap::new();
            acc.insert(k, v);
            e_parse_epic_entries_rest(s, m, acc)
        },
        None => None,
    }
}

fn e_parse_story_entries_at(s: &Vec<char>, i: usize) -> (r: Option<(IdMap<Story>, usize)>)
    requires
        i <= s@.len(),
    ensures
        match r {
            Some((m, j)) => parse_story_entries_at(s@, i as int) == Some((m@, j as int))
                && m.wf() && i < j <= s@.len(),
            None => parse_story_entries_at(s@, i as int) is None,
        },
{
    if !(i < s.len() && s[i] == '{') {
        return None;
    }
    let j = e_skip_ws(s, i + 1);
    if j < s.len() && s[j] == '}' {
        return Some((IdMap::new(), j + 1));
    }
    match e_parse_story_entry(s, i + 1) {
        Some(((k, v), m)) => {
            let mut acc: IdMap<Story> = IdMap::new();
            acc.insert(k, v);
            e_parse_story_entries_rest(s, m, acc)
        },
        None => None,
    }
}

/// The characters of `s`, in order.
pub(crate) fn str_chars(s: &str) -> (r: Vec<char>)
    ensures
        r@ == s@,
{
    let mut r: Vec<char> = Vec::new();
    let n = s.unicode_len();
    for i in 0..n
        invariant
            n == s@.len(),
            r@ == s@.take(i as int),
    {
        let c = s.get_char(i);
        r.push(c);
        proof {
            assert(r@ =~= s@.take(i + 1));
        }
    }
    proof {
        assert(s@.take(n as int) =~= s@);
    }
    r
}

/// Decode a state document from its text: exactly the document `parse_state`
/// gives, or `Corrupt` if the text denotes none.
pub fn decode_state(text: &str) -> (r: Result<DBState, DbError>)
    ensures
        match parse_state(text@) {
            Some(sv) => r matches Ok(st) && st@ == sv && st.wf(),
            None => r == Err::<DBState, DbError>(DbError::Corrupt),
        },
{
    let s = str_chars(text);
    let i = e_skip_ws(&s, 0);
    if !(i < s.len() && s[i] == '{') {
        return Err(DbError::Corrupt);
    }
    let j1 = match e_parse_key(&s, i + 1, "last_item_id") {
        Some(j) => j,
        None => {
            return Err(DbError::Corrupt);
        },
    };
    let j1b = e_skip_ws(&s, j1);
    let (n, j2) = match e_parse_u32_at(&s, j1b) {
        Some(x) => x,
        None => {
            return Err(DbError::Corrupt);
        },
    };
    let j3 = match e_parse_comma_key(&s, j2, "epics") {
        Some(j) => j,
        None => {
            return Err(DbError::Corrupt);
        },
    };
    let j3b = e_skip_ws(&s, j3);
    let (epics, j4) = match e_parse_epic_entries_at(&s, j3b) {
        Some(x) => x,
        None => {
            return Err(DbError::Corrupt);
        },
    };
    let j5 = match e_parse_comma_key(&s, j4, "stories") {
        Some(j) => j,
        None => {
            return Err(DbError::Corrupt);
        },
    };
    let j5b = e_skip_ws(&s, j5);
    let (stories, j6) = match e_parse_story_entries_at(&s, j5b) {
        Some(x) => x,
        None => {
            return Err(DbError::Corrupt);
        },
    };
    let j7 = match e_tok(&s, j6, '}') {
        Some(j) => j,
        None => {
            return Err(DbError::Corrupt);
        },
    };
    if e_skip_ws(&s, j7) != s.len() {
        return Err(DbError::Corrupt);
    }
    let st = DBState { last_item_id: n, epics, stories };
    proof {
        assert(st@ =~= parse_state(text@).unwrap());
    }
    Ok(st)
}

/// The canonical text of the whole document: exactly `json_state` of its
/// value.
pub fn encode_state(state: &DBState) -> (r: String)
    ensures
        r@ == json_state(state@),
{
    let mut out: Vec<char> = Vec::new();
    append_str_chars(&mut out, "{\"last_item_id\":");
    append_u32(&mut out, state.last_item_id);
    append_str_chars(&mut out, ",\"epics\":");
    append_epic_entries(&mut out, &state.epics);
    append_str_chars(&mut out, ",\"stories\":");
    append_story_entries(&mut out, &state.stories);
    append_str_chars(&mut out, "}");
    proof {
        assert(out@ =~= json_state(state@));
    }
    chars_to_string(&out)
}

} // verus!
