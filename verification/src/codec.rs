//! The persistence format: a compact JSON text for a store's sets.
//!
//! The persisted object is `{"sets":[...]}`, each set
//! `{"marks":[...],"file_hash":<u64>,"path":"<string>"}`, each mark
//! `{"page":<i32>,"name":"<string>"}`; the transient pending name is never
//! part of it. Serialization is defined by spec functions over character
//! sequences and writes the compact form; the parser accepts the schema as
//! JSON allows it — whitespace between tokens, the full string-escape set
//! with `\uXXXX` and surrogate pairs, no leading zeros, no raw control
//! characters in strings. Both are verified against the spec functions,
//! and parsing inverts serialization.

use vstd::prelude::*;

use crate::store::Bookmark;
use crate::store::BookmarkSet;
use crate::store::BookmarkSetV;
use crate::store::BookmarkStore;
use crate::store::BookmarkV;
use crate::store::StoreError;
use crate::store::sets_wf;

verus! {

// ---------------------------------------------------------------------------
// The serialized form, as spec functions.
// ---------------------------------------------------------------------------

/// `{"page":`
pub open spec fn lit_page() -> Seq<char> {
    seq!['{', '"', 'p', 'a', 'g', 'e', '"', ':']
}

/// `,"name":`
pub open spec fn lit_name() -> Seq<char> {
    seq![',', '"', 'n', 'a', 'm', 'e', '"', ':']
}

/// `{"marks":`
pub open spec fn lit_marks_key() -> Seq<char> {
    seq!['{', '"', 'm', 'a', 'r', 'k', 's', '"', ':']
}

/// `,"file_hash":`
pub open spec fn lit_file_hash() -> Seq<char> {
    seq![',', '"', 'f', 'i', 'l', 'e', '_', 'h', 'a', 's', 'h', '"', ':']
}

/// `,"path":`
pub open spec fn lit_path_key() -> Seq<char> {
    seq![',', '"', 'p', 'a', 't', 'h', '"', ':']
}

/// `{"sets":`
pub open spec fn lit_sets_key() -> Seq<char> {
    seq!['{', '"', 's', 'e', 't', 's', '"', ':']
}

/// The lowercase hexadecimal digit characters.
pub open spec fn hex_char(d: int) -> char {
    if d == 0 {
        '0'
    } else if d == 1 {
        '1'
    } else if d == 2 {
        '2'
    } else if d == 3 {
        '3'
    } else if d == 4 {
        '4'
    } else if d == 5 {
        '5'
    } else if d == 6 {
        '6'
    } else if d == 7 {
        '7'
    } else if d == 8 {
        '8'
    } else if d == 9 {
        '9'
    } else if d == 10 {
        'a'
    } else if d == 11 {
        'b'
    } else if d == 12 {
        'c'
    } else if d == 13 {
        'd'
    } else if d == 14 {
        'e'
    } else {
        'f'
    }
}

/// How one character of a string value is written: quotes and backslashes
/// get a backslash escape, control characters get their short escape or a
/// `\u00xx` escape, everything else stands for itself.
pub open spec fn esc_char(c: char) -> Seq<char> {
    if c == '"' {
        seq!['\\', '"']
    } else if c == '\\' {
        seq!['\\', '\\']
    } else if c == '\u{0008}' {
        seq!['\\', 'b']
    } else if c == '\u{0009}' {
        seq!['\\', 't']
    } else if c == '\u{000A}' {
        seq!['\\', 'n']
    } else if c == '\u{000C}' {
        seq!['\\', 'f']
    } else if c == '\u{000D}' {
        seq!['\\', 'r']
    } else if (c as u32) < 32 {
        seq!['\\', 'u', '0', '0', hex_char((c as u32 / 16) as int), hex_char((c as u32 % 16) as int)]
    } else {
        seq![c]
    }
}

/// The written body of a string value, character by character.
pub open spec fn json_str_body(s: Seq<char>) -> Seq<char>
    decreases s.len(),
{
    if s.len() == 0 {
        Seq::empty()
    } else {
        esc_char(s[0]) + json_str_body(s.drop_first())
    }
}

/// A quoted, escaped string value.
pub open spec fn json_string(s: Seq<char>) -> Seq<char> {
    seq!['"'] + (json_str_body(s) + seq!['"'])
}

/// The decimal digit characters.
pub open spec fn digit_char(d: int) -> char {
    if d == 0 {
        '0'
    } else if d == 1 {
        '1'
    } else if d == 2 {
        '2'
    } else if d == 3 {
        '3'
    } else if d == 4 {
        '4'
    } else if d == 5 {
        '5'
    } else if d == 6 {
        '6'
    } else if d == 7 {
        '7'
    } else if d == 8 {
        '8'
    } else {
        '9'
    }
}

/// An unsigned number in decimal, most significant digit first, no leading
/// zeros (except for the number zero itself).
pub open spec fn dec_u64(n: nat) -> Seq<char>
    decreases n,
{
    if n < 10 {
        seq![digit_char(n as int)]
    } else {
        dec_u64(n / 10) + seq![digit_char((n % 10) as int)]
    }
}

/// A signed number in decimal.
pub open spec fn dec_i32(p: int) -> Seq<char> {
    if p < 0 {
        seq!['-'] + dec_u64((-p) as nat)
    } else {
        dec_u64(p as nat)
    }
}

/// One mark: `{"page":<page>,"name":"<name>"}`.
pub open spec fn json_mark(m: BookmarkV) -> Seq<char> {
    lit_page() + (dec_i32(m.page) + (lit_name() + (json_string(m.name) + seq!['}'])))
}

/// The comma-separated marks of one set, without the surrounding brackets.
pub open spec fn json_marks_body(marks: Seq<BookmarkV>) -> Seq<char>
    decreases marks.len(),
{
    if marks.len() == 0 {
        Seq::empty()
    } else if marks.len() == 1 {
        json_mark(marks[0])
    } else {
        json_mark(marks[0]) + (seq![','] + json_marks_body(marks.drop_first()))
    }
}

/// One set: `{"marks":[...],"file_hash":<hash>,"path":"<path>"}`.
pub open spec fn json_set(t: BookmarkSetV) -> Seq<char> {
    lit_marks_key() + (seq!['['] + (json_marks_body(t.marks) + (seq![']'] + (lit_file_hash() + (
    dec_u64(t.file_hash as nat) + (lit_path_key() + (json_string(t.path) + seq!['}'])))))))
}

/// The comma-separated sets, without the surrounding brackets.
pub open spec fn json_sets_body(sets: Seq<BookmarkSetV>) -> Seq<char>
    decreases sets.len(),
{
    if sets.len() == 0 {
        Seq::empty()
    } else if sets.len() == 1 {
        json_set(sets[0])
    } else {
        json_set(sets[0]) + (seq![','] + json_sets_body(sets.drop_first()))
    }
}

/// The whole persisted text: `{"sets":[...]}`. The transient pending name
/// has no place in it.
pub open spec fn json_store(sets: Seq<BookmarkSetV>) -> Seq<char> {
    lit_sets_key() + (seq!['['] + (json_sets_body(sets) + seq![']', '}']))
}

// ---------------------------------------------------------------------------
// The executable serializer.
// ---------------------------------------------------------------------------

/// Relies on `String`'s `FromIterator` implementation: collecting an
/// in-order iterator of characters yields the string of exactly those
/// characters, in order.
#[verifier::external_body]
fn string_from_chars(v: &Vec<char>) -> (r: String)
    ensures
        r@ == v@,
{
    v.iter().collect()
}

/// Builds a character vector from a string slice.
fn chars_of_str(s: &str) -> (r: Vec<char>)
    ensures
        r@ == s@,
{
    let n = s.unicode_len();
    let mut out: Vec<char> = Vec::new();
    let mut i: usize = 0;
    while i < n
        invariant
            n == s@.len(),
            i <= n,
            out@ =~= s@.subrange(0, i as int),
        decreases n - i,
    {
        out.push(s.get_char(i));
        proof {
            assert(out@ =~= s@.subrange(0, (i + 1) as int));
        }
        i += 1;
    }
    proof {
        assert(s@.subrange(0, n as int) =~= s@);
    }
    out
}

fn push_lit_page(out: &mut Vec<char>)
    ensures
        final(out)@ == old(out)@ + lit_page(),
{
    out.push('{');
    out.push('"');
    out.push('p');
    out.push('a');
    out.push('g');
    out.push('e');
    out.push('"');
    out.push(':');
    proof {
        assert(out@ =~= old(out)@ + lit_page());
    }
}

fn push_lit_name(out: &mut Vec<char>)
    ensures
        final(out)@ == old(out)@ + lit_name(),
{
    out.push(',');
    out.push('"');
    out.push('n');
    out.push('a');
    out.push('m');
    out.push('e');
    out.push('"');
    out.push(':');
    proof {
        assert(out@ =~= old(out)@ + lit_name());
    }
}

fn push_lit_marks_key(out: &mut Vec<char>)
    ensures
        final(out)@ == old(out)@ + lit_marks_key(),
{
    out.push('{');
    out.push('"');
    out.push('m');
    out.push('a');
    out.push('r');
    out.push('k');
    out.push('s');
    out.push('"');
    out.push(':');
    proof {
        assert(out@ =~= old(out)@ + lit_marks_key());
    }
}

fn push_lit_file_hash(out: &mut Vec<char>)
    ensures
        final(out)@ == old(out)@ + lit_file_hash(),
{
    out.push(',');
    out.push('"');
    out.push('f');
    out.push('i');
    out.push('l');
    out.push('e');
    out.push('_');
    out.push('h');
    out.push('a');
    out.push('s');
    out.push('h');
    out.push('"');
    out.push(':');
    proof {
        assert(out@ =~= old(out)@ + lit_file_hash());
    }
}

fn push_lit_path_key(out: &mut Vec<char>)
    ensures
        final(out)@ == old(out)@ + lit_path_key(),
{
    out.push(',');
    out.push('"');
    out.push('p');
    out.push('a');
    out.push('t');
    out.push('h');
    out.push('"');
    out.push(':');
    proof {
        assert(out@ =~= old(out)@ + lit_path_key());
    }
}

fn push_lit_sets_key(out: &mut Vec<char>)
    ensures
        final(out)@ == old(out)@ + lit_sets_key(),
{
    out.push('{');
    out.push('"');
    out.push('s');
    out.push('e');
    out.push('t');
    out.push('s');
    out.push('"');
    out.push(':');
    proof {
        assert(out@ =~= old(out)@ + lit_sets_key());
    }
}

/// The character of one lowercase hexadecimal digit.
fn hex_of(d: u32) -> (c: char)
    requires
        d < 16,
    ensures
        c == hex_char(d as int),
{
    match d {
        0 => '0',
        1 => '1',
        2 => '2',
        3 => '3',
        4 => '4',
        5 => '5',
        6 => '6',
        7 => '7',
        8 => '8',
        9 => '9',
        10 => 'a',
        11 => 'b',
        12 => 'c',
        13 => 'd',
        14 => 'e',
        _ => 'f',
    }
}

/// The character of one decimal digit.
fn digit_of(d: u64) -> (c: char)
    requires
        d < 10,
    ensures
        c == digit_char(d as int),
{
    match d {
        0 => '0',
        1 => '1',
        2 => '2',
        3 => '3',
        4 => '4',
        5 => '5',
        6 => '6',
        7 => '7',
        8 => '8',
        _ => '9',
    }
}

/// Appends the decimal form of `n`.
fn push_dec_u64(out: &mut Vec<char>, n: u64)
    ensures
        final(out)@ == old(out)@ + dec_u64(n as nat),
    decreases n,
{
    if n < 10 {
        out.push(digit_of(n));
        proof {
            assert(out@ =~= old(out)@ + dec_u64(n as nat));
        }
    } else {
        push_dec_u64(out, n / 10);
        out.push(digit_of(n % 10));
        proof {
            assert(out@ =~= old(out)@ + dec_u64(n as nat));
        }
    }
}

/// Appends the decimal form of `p`, with a sign when negative.
fn push_dec_i32(out: &mut Vec<char>, p: i32)
    ensures
        final(out)@ == old(out)@ + dec_i32(p as int),
{
    if p < 0 {
        out.push('-');
        let m: u64 = (-(p as i64)) as u64;
        proof {
            assert(m as nat == (-(p as int)) as nat);
        }
        push_dec_u64(out, m);
        proof {
            assert(out@ =~= old(out)@ + dec_i32(p as int));
        }
    } else {
        push_dec_u64(out, p as u64);
    }
}

/// `json_str_body` grows at the end by the escape of the appended character.
proof fn lemma_str_body_push(s: Seq<char>, c: char)
    ensures
        json_str_body(s.push(c)) == json_str_body(s) + esc_char(c),
    decreases s.len(),
{
    if s.len() == 0 {
        assert(s.push(c)[0] == c);
        assert(s.push(c).drop_first() =~= Seq::<char>::empty());
        assert(json_str_body(Seq::<char>::empty()) == Seq::<char>::empty());
        assert(json_str_body(s.push(c)) == esc_char(c) + json_str_body(s.push(c).drop_first()));
        assert(json_str_body(s.push(c)) =~= json_str_body(s) + esc_char(c));
    } else {
        assert(s.push(c)[0] == s[0]);
        assert(s.push(c).drop_first() =~= s.drop_first().push(c));
        lemma_str_body_push(s.drop_first(), c);
        assert(json_str_body(s.push(c)) == esc_char(s[0]) + json_str_body(s.drop_first().push(c)));
        assert(json_str_body(s.push(c)) =~= json_str_body(s) + esc_char(c));
    }
}

/// Appends the quoted, escaped form of `s`.
fn push_json_string(out: &mut Vec<char>, s: &String)
    ensures
        final(out)@ == old(out)@ + json_string(s@),
{
    out.push('"');
    let st = s.as_str();
    let n = st.unicode_len();
    let mut i: usize = 0;
    while i < n
        invariant
            n == s@.len(),
            st@ == s@,
            i <= n,
            out@ =~= old(out)@ + seq!['"'] + json_str_body(s@.subrange(0, i as int)),
        decreases n - i,
    {
        let c = st.get_char(i);
        if c == '"' {
            out.push('\\');
            out.push('"');
        } else if c == '\\' {
            out.push('\\');
            out.push('\\');
        } else if c == '\u{0008}' {
            out.push('\\');
            out.push('b');
        } else if c == '\u{0009}' {
            out.push('\\');
            out.push('t');
        } else if c == '\u{000A}' {
            out.push('\\');
            out.push('n');
        } else if c == '\u{000C}' {
            out.push('\\');
            out.push('f');
        } else if c == '\u{000D}' {
            out.push('\\');
            out.push('r');
        } else if (c as u32) < 32 {
            out.push('\\');
            out.push('u');
            out.push('0');
            out.push('0');
            out.push(hex_of(c as u32 / 16));
            out.push(hex_of(c as u32 % 16));
        } else {
            out.push(c);
        }
        proof {
            assert(s@.subrange(0, (i + 1) as int) =~= s@.subrange(0, i as int).push(s@[i as int]));
            lemma_str_body_push(s@.subrange(0, i as int), s@[i as int]);
            assert(out@ =~= old(out)@ + seq!['"'] + json_str_body(s@.subrange(0, (i + 1) as int)));
        }
        i += 1;
    }
    out.push('"');
    proof {
        assert(s@.subrange(0, n as int) =~= s@);
        assert(out@ =~= old(out)@ + json_string(s@));
    }
}

/// Appends one mark object.
fn push_mark(out: &mut Vec<char>, m: &Bookmark)
    ensures
        final(out)@ == old(out)@ + json_mark(m@),
{
    push_lit_page(out);
    push_dec_i32(out, m.page);
    push_lit_name(out);
    push_json_string(out, &m.name);
    out.push('}');
    proof {
        assert(out@ =~= old(out)@ + json_mark(m@));
    }
}

/// Appends the marks from index `i` on, comma-separated.
fn push_marks_from(out: &mut Vec<char>, marks: &Vec<Bookmark>, i: usize)
    requires
        i < marks.len(),
    ensures
        final(out)@ == old(out)@ + json_marks_body(
            marks@.map_values(|m: Bookmark| m@).subrange(i as int, marks@.len() as int),
        ),
    decreases marks.len() - i,
{
    let ghost mv = marks@.map_values(|m: Bookmark| m@);
    let ghost sub = mv.subrange(i as int, mv.len() as int);
    push_mark(out, &marks[i]);
    if i + 1 < marks.len() {
        out.push(',');
        push_marks_from(out, marks, i + 1);
        proof {
            assert(sub.drop_first() =~= mv.subrange((i + 1) as int, mv.len() as int));
            assert(sub[0] == mv[i as int]);
            assert(out@ =~= old(out)@ + json_marks_body(sub));
        }
    } else {
        proof {
            assert(sub.len() == 1);
            assert(sub[0] == mv[i as int]);
            assert(out@ =~= old(out)@ + json_marks_body(sub));
        }
    }
}

/// Appends one set object.
#[verifier::rlimit(30)]
fn push_set(out: &mut Vec<char>, t: &BookmarkSet)
    ensures
        final(out)@ == old(out)@ + json_set(t@),
{
    let ghost mv = t.marks@.map_values(|m: Bookmark| m@);
    push_lit_marks_key(out);
    out.push('[');
    if t.marks.len() > 0 {
        push_marks_from(out, &t.marks, 0);
        proof {
            assert(mv.subrange(0, mv.len() as int) =~= mv);
        }
    }
    out.push(']');
    push_lit_file_hash(out);
    push_dec_u64(out, t.file_hash);
    push_lit_path_key(out);
    push_json_string(out, &t.path);
    out.push('}');
    proof {
        assert(out@ =~= old(out)@ + json_set(t@));
    }
}

/// Appends the sets from index `i` on, comma-separated.
fn push_sets_from(out: &mut Vec<char>, sets: &Vec<BookmarkSet>, i: usize)
    requires
        i < sets.len(),
    ensures
        final(out)@ == old(out)@ + json_sets_body(
            sets@.map_values(|t: BookmarkSet| t@).subrange(i as int, sets@.len() as int),
        ),
    decreases sets.len() - i,
{
    let ghost sv = sets@.map_values(|t: BookmarkSet| t@);
    let ghost sub = sv.subrange(i as int, sv.len() as int);
    push_set(out, &sets[i]);
    if i + 1 < sets.len() {
        out.push(',');
        push_sets_from(out, sets, i + 1);
        proof {
            assert(sub.drop_first() =~= sv.subrange((i + 1) as int, sv.len() as int));
            assert(sub[0] == sv[i as int]);
            assert(out@ =~= old(out)@ + json_sets_body(sub));
        }
    } else {
        proof {
            assert(sub.len() == 1);
            assert(sub[0] == sv[i as int]);
            assert(out@ =~= old(out)@ + json_sets_body(sub));
        }
    }
}

impl BookmarkStore {
    /// The persisted JSON text of this store's sets, as characters. The
    /// transient pending name is excluded.
    pub fn to_json_chars(&self) -> (r: Vec<char>)
        ensures
            r@ == json_store(self@.sets),
    {
        let ghost sv = self.sets@.map_values(|t: BookmarkSet| t@);
        let mut out: Vec<char> = Vec::new();
        push_lit_sets_key(&mut out);
        out.push('[');
        if self.sets.len() > 0 {
            push_sets_from(&mut out, &self.sets, 0);
            proof {
                assert(sv.subrange(0, sv.len() as int) =~= sv);
            }
        }
        out.push(']');
        out.push('}');
        proof {
            assert(out@ =~= json_store(self@.sets));
        }
        out
    }

    /// The persisted JSON text of this store's sets. The transient pending
    /// name is excluded.
    pub fn to_json(&self) -> (r: String)
        ensures
            r@ == json_store(self@.sets),
    {
        let chars = self.to_json_chars();
        string_from_chars(&chars)
    }
}


// ---------------------------------------------------------------------------
// Parsing, as spec functions over the character sequence.
// ---------------------------------------------------------------------------

/// The JSON whitespace characters allowed between tokens.
pub open spec fn is_ws(c: char) -> bool {
    c == ' ' || c == '\t' || c == '\n' || c == '\r'
}

/// The first position at or after `i` that holds no whitespace.
pub open spec fn skip_ws(v: Seq<char>, i: int) -> int
    decreases v.len() - i,
{
    if 0 <= i < v.len() && is_ws(v[i]) {
        skip_ws(v, i + 1)
    } else {
        i
    }
}

/// `"page"`, as a key token.
pub open spec fn key_page() -> Seq<char> {
    seq!['"', 'p', 'a', 'g', 'e', '"']
}

/// `"name"`, as a key token.
pub open spec fn key_name() -> Seq<char> {
    seq!['"', 'n', 'a', 'm', 'e', '"']
}

/// `"marks"`, as a key token.
pub open spec fn key_marks() -> Seq<char> {
    seq!['"', 'm', 'a', 'r', 'k', 's', '"']
}

/// `"file_hash"`, as a key token.
pub open spec fn key_file_hash() -> Seq<char> {
    seq!['"', 'f', 'i', 'l', 'e', '_', 'h', 'a', 's', 'h', '"']
}

/// `"path"`, as a key token.
pub open spec fn key_path() -> Seq<char> {
    seq!['"', 'p', 'a', 't', 'h', '"']
}

/// `"sets"`, as a key token.
pub open spec fn key_sets() -> Seq<char> {
    seq!['"', 's', 'e', 't', 's', '"']
}

/// Decimal digit characters, by code point.
pub open spec fn is_digit(c: char) -> bool {
    48 <= c as u32 <= 57
}

/// The numeric value of a decimal digit character.
pub open spec fn digit_val(c: char) -> int {
    c as u32 - 48
}

/// Hexadecimal digit characters, either case.
pub open spec fn is_hex(c: char) -> bool {
    is_digit(c) || (97 <= c as u32 <= 102) || (65 <= c as u32 <= 70)
}

/// The numeric value of a hexadecimal digit character.
pub open spec fn hex_val(c: char) -> int {
    if is_digit(c) {
        c as u32 - 48
    } else if 97 <= c as u32 <= 102 {
        c as u32 - 87
    } else {
        c as u32 - 55
    }
}

/// The character with the given code point.
pub open spec fn char_of(code: int) -> char {
    choose|c: char| #[trigger] (c as u32) == code
}

/// Whether four hexadecimal digits stand at position `p` of `v`.
pub open spec fn hex4_ok(v: Seq<char>, p: int) -> bool {
    is_hex(v[p]) && is_hex(v[p + 1]) && is_hex(v[p + 2]) && is_hex(v[p + 3])
}

/// The value of the four hexadecimal digits at position `p` of `v`.
pub open spec fn hex4_val(v: Seq<char>, p: int) -> int {
    hex_val(v[p]) * 4096 + hex_val(v[p + 1]) * 256 + hex_val(v[p + 2]) * 16 + hex_val(v[p + 3])
}

/// Reads decimal digits from `i` on, extending the accumulator `acc`;
/// stops in front of the first non-digit (or at the end), and fails on a
/// value beyond the 64-bit range.
pub open spec fn parse_digits(v: Seq<char>, i: int, acc: nat) -> Option<(nat, int)>
    decreases v.len() - i,
{
    if !(0 <= i <= v.len()) {
        Option::None
    } else if i == v.len() {
        Option::Some((acc, i))
    } else if is_digit(v[i]) {
        let acc2 = acc * 10 + digit_val(v[i]);
        if acc2 <= 0xffff_ffff_ffff_ffff {
            parse_digits(v, i + 1, acc2 as nat)
        } else {
            Option::None
        }
    } else {
        Option::Some((acc, i))
    }
}

/// Reads an unsigned decimal number: at least one digit, and no leading
/// zero except for the number zero itself.
pub open spec fn parse_u64_at(v: Seq<char>, i: int) -> Option<(nat, int)> {
    if 0 <= i < v.len() && is_digit(v[i]) {
        if v[i] == '0' {
            if i + 1 < v.len() && is_digit(v[i + 1]) {
                Option::None
            } else {
                Option::Some((0, i + 1))
            }
        } else {
            parse_digits(v, i, 0)
        }
    } else {
        Option::None
    }
}

/// Reads a decimal number with an optional sign, within the 32-bit signed
/// range.
pub open spec fn parse_i32_at(v: Seq<char>, i: int) -> Option<(int, int)> {
    if 0 <= i < v.len() && v[i] == '-' {
        match parse_u64_at(v, i + 1) {
            Option::Some((nv, j)) => if nv <= 2147483648 {
                Option::Some((-(nv as int), j))
            } else {
                Option::None
            },
            Option::None => Option::None,
        }
    } else {
        match parse_u64_at(v, i) {
            Option::Some((nv, j)) => if nv <= 2147483647 {
                Option::Some((nv as int, j))
            } else {
                Option::None
            },
            Option::None => Option::None,
        }
    }
}

/// The character a one-letter escape sequence stands for, if it is a known
/// escape (`\uXXXX` escapes are handled separately).
pub open spec fn unescape_char(c: char) -> Option<char> {
    if c == '"' {
        Option::Some('"')
    } else if c == '\\' {
        Option::Some('\\')
    } else if c == '/' {
        Option::Some('/')
    } else if c == 'n' {
        Option::Some('\n')
    } else if c == 't' {
        Option::Some('\t')
    } else if c == 'r' {
        Option::Some('\r')
    } else if c == 'b' {
        Option::Some('\u{0008}')
    } else if c == 'f' {
        Option::Some('\u{000C}')
    } else {
        Option::None
    }
}

/// Reads the body of a string value up to and including the closing quote,
/// extending the accumulator `acc`. Raw control characters are not part of
/// a string value; `\uXXXX` escapes cover them, with surrogate pairs for
/// code points beyond the basic plane.
pub open spec fn parse_str_body(v: Seq<char>, i: int, acc: Seq<char>) -> Option<(Seq<char>, int)>
    decreases v.len() - i,
{
    if !(0 <= i < v.len()) {
        Option::None
    } else if v[i] == '"' {
        Option::Some((acc, i + 1))
    } else if v[i] == '\\' {
        if i + 1 < v.len() {
            if v[i + 1] == 'u' {
                if i + 6 <= v.len() && hex4_ok(v, i + 2) {
                    let code = hex4_val(v, i + 2);
                    if 0xD800 <= code <= 0xDBFF {
                        if i + 12 <= v.len() && v[i + 6] == '\\' && v[i + 7] == 'u' && hex4_ok(
                            v,
                            i + 8,
                        ) {
                            let code2 = hex4_val(v, i + 8);
                            if 0xDC00 <= code2 <= 0xDFFF {
                                let cp = 0x10000 + (code - 0xD800) * 0x400 + (code2 - 0xDC00);
                                parse_str_body(v, i + 12, acc.push(char_of(cp)))
                            } else {
                                Option::None
                            }
                        } else {
                            Option::None
                        }
                    } else if 0xDC00 <= code <= 0xDFFF {
                        Option::None
                    } else {
                        parse_str_body(v, i + 6, acc.push(char_of(code)))
                    }
                } else {
                    Option::None
                }
            } else {
                match unescape_char(v[i + 1]) {
                    Option::Some(u) => parse_str_body(v, i + 2, acc.push(u)),
                    Option::None => Option::None,
                }
            }
        } else {
            Option::None
        }
    } else if (v[i] as u32) < 32 {
        Option::None
    } else {
        parse_str_body(v, i + 1, acc.push(v[i]))
    }
}

/// Reads a quoted string value.
pub open spec fn parse_string_at(v: Seq<char>, i: int) -> Option<(Seq<char>, int)> {
    if 0 <= i < v.len() && v[i] == '"' {
        parse_str_body(v, i + 1, Seq::empty())
    } else {
        Option::None
    }
}

/// Whether the characters of `lit` stand at position `i` of `v`.
pub open spec fn match_lit(v: Seq<char>, i: int, lit: Seq<char>) -> bool {
    0 <= i && i + lit.len() <= v.len() && v.subrange(i, i + lit.len()) == lit
}

/// Reads one mark object, whitespace allowed between tokens.
pub open spec fn parse_mark_at(v: Seq<char>, i: int) -> Option<(BookmarkV, int)> {
    if 0 <= i < v.len() && v[i] == '{' {
        let k1 = skip_ws(v, i + 1);
        if match_lit(v, k1, key_page()) {
            let k2 = skip_ws(v, k1 + 6);
            if k2 < v.len() && v[k2] == ':' {
                let k3 = skip_ws(v, k2 + 1);
                match parse_i32_at(v, k3) {
                    Option::Some((page, j)) => {
                        let k4 = skip_ws(v, j);
                        if k4 < v.len() && v[k4] == ',' {
                            let k5 = skip_ws(v, k4 + 1);
                            if match_lit(v, k5, key_name()) {
                                let k6 = skip_ws(v, k5 + 6);
                                if k6 < v.len() && v[k6] == ':' {
                                    let k7 = skip_ws(v, k6 + 1);
                                    match parse_string_at(v, k7) {
                                        Option::Some((name, j2)) => {
                                            let k8 = skip_ws(v, j2);
                                            if k8 < v.len() && v[k8] == '}' {
                                                Option::Some((BookmarkV { page, name }, k8 + 1))
                                            } else {
                                                Option::None
                                            }
                                        },
                                        Option::None => Option::None,
                                    }
                                } else {
                                    Option::None
                                }
                            } else {
                                Option::None
                            }
                        } else {
                            Option::None
                        }
                    },
                    Option::None => Option::None,
                }
            } else {
                Option::None
            }
        } else {
            Option::None
        }
    } else {
        Option::None
    }
}

/// Reads the elements of a non-empty mark array, up to and including the
/// closing bracket, whitespace allowed between tokens.
pub open spec fn parse_marks_elems(v: Seq<char>, i: int, acc: Seq<BookmarkV>) -> Option<
    (Seq<BookmarkV>, int),
>
    decreases v.len() - i,
{
    if !(0 <= i <= v.len()) {
        Option::None
    } else {
        match parse_mark_at(v, i) {
            Option::None => Option::None,
            Option::Some((m, j)) => {
                if !(i < j && j <= v.len()) {
                    Option::None
                } else {
                    let k = skip_ws(v, j);
                    if !(j <= k && k < v.len()) {
                        Option::None
                    } else if v[k] == ',' {
                        let next = skip_ws(v, k + 1);
                        if k < next && next <= v.len() {
                            parse_marks_elems(v, next, acc.push(m))
                        } else {
                            Option::None
                        }
                    } else if v[k] == ']' {
                        Option::Some((acc.push(m), k + 1))
                    } else {
                        Option::None
                    }
                }
            },
        }
    }
}

/// Reads a mark array, brackets included, whitespace allowed.
pub open spec fn parse_marks_at(v: Seq<char>, i: int) -> Option<(Seq<BookmarkV>, int)> {
    if 0 <= i < v.len() && v[i] == '[' {
        let k = skip_ws(v, i + 1);
        if k < v.len() && v[k] == ']' {
            Option::Some((Seq::empty(), k + 1))
        } else {
            parse_marks_elems(v, k, Seq::empty())
        }
    } else {
        Option::None
    }
}

/// Reads one set object, whitespace allowed between tokens.
pub open spec fn parse_set_at(v: Seq<char>, i: int) -> Option<(BookmarkSetV, int)> {
    if 0 <= i < v.len() && v[i] == '{' {
        let k1 = skip_ws(v, i + 1);
        if match_lit(v, k1, key_marks()) {
            let k2 = skip_ws(v, k1 + 7);
            if k2 < v.len() && v[k2] == ':' {
                let k3 = skip_ws(v, k2 + 1);
                match parse_marks_at(v, k3) {
                    Option::Some((marks, j)) => {
                        let k4 = skip_ws(v, j);
                        if k4 < v.len() && v[k4] == ',' {
                            let k5 = skip_ws(v, k4 + 1);
                            if match_lit(v, k5, key_file_hash()) {
                                let k6 = skip_ws(v, k5 + 11);
                                if k6 < v.len() && v[k6] == ':' {
                                    let k7 = skip_ws(v, k6 + 1);
                                    match parse_u64_at(v, k7) {
                                        Option::Some((hash, j2)) => {
                                            let k8 = skip_ws(v, j2);
                                            if k8 < v.len() && v[k8] == ',' {
                                                let k9 = skip_ws(v, k8 + 1);
                                                if match_lit(v, k9, key_path()) {
                                                    let k10 = skip_ws(v, k9 + 6);
                                                    if k10 < v.len() && v[k10] == ':' {
                                                        let k11 = skip_ws(v, k10 + 1);
                                                        match parse_string_at(v, k11) {
                                                            Option::Some((path, j3)) => {
                                                                let k12 = skip_ws(v, j3);
                                                                if k12 < v.len() && v[k12] == '}' {
                                                                    Option::Some(
                                                                        (
                                                                            BookmarkSetV {
                                                                                marks,
                                                                                file_hash: hash as u64,
                                                                                path,
                                                                            },
                                                                            k12 + 1,
                                                                        ),
                                                                    )
                                                                } else {
                                                                    Option::None
                                                                }
                                                            },
                                                            Option::None => Option::None,
                                                        }
                                                    } else {
                                                        Option::None
                                                    }
                                                } else {
                                                    Option::None
                                                }
                                            } else {
                                                Option::None
                                            }
                                        },
                                        Option::None => Option::None,
                                    }
                                } else {
                                    Option::None
                                }
                            } else {
                                Option::None
                            }
                        } else {
                            Option::None
                        }
                    },
                    Option::None => Option::None,
                }
            } else {
                Option::None
            }
        } else {
            Option::None
        }
    } else {
        Option::None
    }
}

/// Reads the elements of a non-empty set array, up to and including the
/// closing bracket, whitespace allowed between tokens.
pub open spec fn parse_sets_elems(v: Seq<char>, i: int, acc: Seq<BookmarkSetV>) -> Option<
    (Seq<BookmarkSetV>, int),
>
    decreases v.len() - i,
{
    if !(0 <= i <= v.len()) {
        Option::None
    } else {
        match parse_set_at(v, i) {
            Option::None => Option::None,
            Option::Some((t, j)) => {
                if !(i < j && j <= v.len()) {
                    Option::None
                } else {
                    let k = skip_ws(v, j);
                    if !(j <= k && k < v.len()) {
                        Option::None
                    } else if v[k] == ',' {
                        let next = skip_ws(v, k + 1);
                        if k < next && next <= v.len() {
                            parse_sets_elems(v, next, acc.push(t))
                        } else {
                            Option::None
                        }
                    } else if v[k] == ']' {
                        Option::Some((acc.push(t), k + 1))
                    } else {
                        Option::None
                    }
                }
            },
        }
    }
}

/// Reads a set array, brackets included, whitespace allowed.
pub open spec fn parse_sets_at(v: Seq<char>, i: int) -> Option<(Seq<BookmarkSetV>, int)> {
    if 0 <= i < v.len() && v[i] == '[' {
        let k = skip_ws(v, i + 1);
        if k < v.len() && v[k] == ']' {
            Option::Some((Seq::empty(), k + 1))
        } else {
            parse_sets_elems(v, k, Seq::empty())
        }
    } else {
        Option::None
    }
}

/// Reads a whole persisted text: the sets object, with nothing but
/// whitespace around or between its tokens.
pub open spec fn parse_store_spec(v: Seq<char>) -> Option<Seq<BookmarkSetV>> {
    let i0 = skip_ws(v, 0);
    if i0 < v.len() && v[i0] == '{' {
        let k1 = skip_ws(v, i0 + 1);
        if match_lit(v, k1, key_sets()) {
            let k2 = skip_ws(v, k1 + 6);
            if k2 < v.len() && v[k2] == ':' {
                let k3 = skip_ws(v, k2 + 1);
                match parse_sets_at(v, k3) {
                    Option::Some((sets, j)) => {
                        let k4 = skip_ws(v, j);
                        if k4 < v.len() && v[k4] == '}' && skip_ws(v, k4 + 1) == v.len() {
                            Option::Some(sets)
                        } else {
                            Option::None
                        }
                    },
                    Option::None => Option::None,
                }
            } else {
                Option::None
            }
        } else {
            Option::None
        }
    } else {
        Option::None
    }
}

// ---------------------------------------------------------------------------
// Parsing inverts serialization.
// ---------------------------------------------------------------------------

/// Every mark's page fits the 32-bit signed range.
pub open spec fn marks_pages_valid(marks: Seq<BookmarkV>) -> bool {
    forall|k: int|
        0 <= k < marks.len() ==> -2147483648 <= (#[trigger] marks[k]).page <= 2147483647
}

/// Every page of every set fits the 32-bit signed range.
pub open spec fn sets_pages_valid(sets: Seq<BookmarkSetV>) -> bool {
    forall|k: int| 0 <= k < sets.len() ==> marks_pages_valid((#[trigger] sets[k]).marks)
}

/// Powers of ten.
pub open spec fn pow10(k: nat) -> nat
    decreases k,
{
    if k == 0 {
        1
    } else {
        10 * pow10((k - 1) as nat)
    }
}

/// A decimal rendering is non-empty, consists of digit characters, and
/// leads with a nonzero digit except for the number zero itself.
proof fn lemma_dec_u64_props(n: nat)
    ensures
        dec_u64(n).len() >= 1,
        forall|k: int| 0 <= k < dec_u64(n).len() ==> is_digit(#[trigger] dec_u64(n)[k]),
        n > 0 ==> dec_u64(n)[0] != '0',
    decreases n,
{
    if n < 10 {
        assert(is_digit(digit_char(n as int)));
        assert(dec_u64(n) =~= seq![digit_char(n as int)]);
    } else {
        lemma_dec_u64_props(n / 10);
        assert(is_digit(digit_char((n % 10) as int)));
        let a = dec_u64(n / 10);
        let b = seq![digit_char((n % 10) as int)];
        assert(dec_u64(n) == a + b);
        assert(forall|k: int| 0 <= k < dec_u64(n).len() ==> is_digit(#[trigger] dec_u64(n)[k]))
            by {
            assert(forall|k: int| 0 <= k < a.len() ==> (a + b)[k] == a[k]);
            assert((a + b)[a.len() as int] == b[0]);
        }
        assert(dec_u64(n)[0] == a[0]);
    }
}

/// Splitting a known stretch of `v` into its two concatenated halves.
proof fn lemma_prefix_split(v: Seq<char>, i: int, a: Seq<char>, b: Seq<char>)
    requires
        0 <= i,
        i + a.len() + b.len() <= v.len(),
        v.subrange(i, i + a.len() + b.len()) == a + b,
    ensures
        v.subrange(i, i + a.len()) == a,
        v.subrange(i + a.len(), i + a.len() + b.len()) == b,
{
    let whole = v.subrange(i, i + a.len() + b.len());
    assert(v.subrange(i, i + a.len()) =~= a) by {
        assert(forall|k: int|
            0 <= k < a.len() ==> v.subrange(i, i + a.len())[k] == whole[k] && whole[k] == (a + b)[k]);
    }
    assert(v.subrange(i + a.len(), i + a.len() + b.len()) =~= b) by {
        assert(forall|k: int|
            0 <= k < b.len() ==> #[trigger] v.subrange(i + a.len(), i + a.len() + b.len())[k]
                == whole[k + a.len()] && whole[k + a.len()] == (a + b)[k + a.len()]);
    }
}

/// Reading the digits of `n` extends the accumulator as a further block of
/// decimal digits.
proof fn lemma_parse_digits_prefix(v: Seq<char>, i: int, acc: nat, n: nat)
    requires
        0 <= i,
        i + dec_u64(n).len() <= v.len(),
        v.subrange(i, i + dec_u64(n).len()) == dec_u64(n),
        acc * pow10(dec_u64(n).len() as nat) + n <= 0xffff_ffff_ffff_ffff,
    ensures
        parse_digits(v, i, acc) == parse_digits(
            v,
            i + dec_u64(n).len(),
            (acc * pow10(dec_u64(n).len() as nat) + n) as nat,
        ),
    decreases n,
{
    lemma_dec_u64_props(n);
    let k = dec_u64(n).len() as int;
    if n < 10 {
        assert(k == 1);
        assert(v[i] == dec_u64(n)[0]);
        assert(dec_u64(n)[0] == digit_char(n as int));
        assert(is_digit(v[i]));
        assert(digit_val(v[i]) == n);
        assert(pow10(0) == 1);
        assert(pow10(1) == 10);
        assert(acc * 10 + n <= 0xffff_ffff_ffff_ffff);
    } else {
        let a = dec_u64(n / 10);
        let b = seq![digit_char((n % 10) as int)];
        let ks = a.len() as int;
        assert(dec_u64(n) == a + b);
        assert(k == ks + 1);
        lemma_prefix_split(v, i, a, b);
        assert(v[i + ks] == b[0]) by {
            assert(v.subrange(i + ks, i + ks + 1)[0] == b[0]);
        }
        assert(v[i + ks] == digit_char((n % 10) as int));
        lemma_dec_u64_props(n / 10);
        assert(pow10(k as nat) == 10 * pow10(ks as nat));
        let mid = acc * pow10(ks as nat) + n / 10;
        assert(mid * 10 + n % 10 == acc * pow10(k as nat) + n) by (nonlinear_arith)
            requires
                pow10(k as nat) == 10 * pow10(ks as nat),
                n == (n / 10) * 10 + n % 10,
                mid == acc * pow10(ks as nat) + n / 10,
        {
        }
        assert(n % 10 >= 0);
        assert(mid <= 0xffff_ffff_ffff_ffff) by (nonlinear_arith)
            requires
                mid * 10 + n % 10 <= 0xffff_ffff_ffff_ffff,
                n % 10 >= 0,
                mid >= 0,
        {
        }
        lemma_parse_digits_prefix(v, i, acc, n / 10);
        assert(is_digit(v[i + ks]));
        assert(digit_val(v[i + ks]) == n % 10);
        assert(i + ks < v.len());
        assert(parse_digits(v, i + ks, mid as nat) == parse_digits(
            v,
            i + k,
            (mid * 10 + n % 10) as nat,
        ));
    }
}

/// Skipping whitespace stops at once on a non-whitespace character or at
/// the end.
proof fn lemma_skip_ws_at(v: Seq<char>, i: int)
    requires
        0 <= i,
        i == v.len() || (i < v.len() && !is_ws(v[i])),
    ensures
        skip_ws(v, i) == i,
{
}

/// Reading an unsigned number written by `dec_u64`, with a non-digit (or
/// the end) after it, yields exactly that number.
proof fn lemma_parse_u64_at(v: Seq<char>, i: int, n: nat)
    requires
        0 <= i,
        n <= 0xffff_ffff_ffff_ffff,
        i + dec_u64(n).len() <= v.len(),
        v.subrange(i, i + dec_u64(n).len()) == dec_u64(n),
        i + dec_u64(n).len() == v.len() || !is_digit(v[i + dec_u64(n).len()]),
    ensures
        parse_u64_at(v, i) == Option::Some((n, i + dec_u64(n).len())),
{
    lemma_dec_u64_props(n);
    let k = dec_u64(n).len() as int;
    assert(v[i] == dec_u64(n)[0]) by {
        assert(v.subrange(i, i + k)[0] == dec_u64(n)[0]);
    }
    assert(is_digit(v[i]));
    if n == 0 {
        assert(dec_u64(n) =~= seq!['0']);
        assert(k == 1);
        assert(v[i] == '0');
    } else {
        assert(v[i] != '0');
        lemma_pow10_pos(k as nat);
        lemma_parse_digits_prefix(v, i, 0, n);
        assert(0 * pow10(k as nat) + n == n);
        assert(parse_digits(v, i + k, n) == Option::Some((n, i + k)));
    }
}

/// Powers of ten are positive.
proof fn lemma_pow10_pos(k: nat)
    ensures
        pow10(k) >= 1,
    decreases k,
{
    if k > 0 {
        lemma_pow10_pos((k - 1) as nat);
    }
}

/// Reading a signed number written by `dec_i32`, with a non-digit (or the
/// end) after it, yields exactly that number.
proof fn lemma_parse_i32_at(v: Seq<char>, i: int, p: int)
    requires
        0 <= i,
        -2147483648 <= p <= 2147483647,
        i + dec_i32(p).len() <= v.len(),
        v.subrange(i, i + dec_i32(p).len()) == dec_i32(p),
        i + dec_i32(p).len() == v.len() || !is_digit(v[i + dec_i32(p).len()]),
    ensures
        parse_i32_at(v, i) == Option::Some((p, i + dec_i32(p).len())),
{
    if p < 0 {
        let a = seq!['-'];
        let b = dec_u64((-p) as nat);
        assert(dec_i32(p) == a + b);
        lemma_prefix_split(v, i, a, b);
        assert(v[i] == '-') by {
            assert(v.subrange(i, i + 1)[0] == a[0]);
        }
        lemma_parse_u64_at(v, i + 1, (-p) as nat);
        assert((-p) as nat <= 2147483648);
    } else {
        assert(dec_i32(p) == dec_u64(p as nat));
        lemma_parse_u64_at(v, i, p as nat);
        lemma_dec_u64_props(p as nat);
        assert(v[i] == dec_u64(p as nat)[0]) by {
            assert(v.subrange(i, i + dec_i32(p).len())[0] == dec_u64(p as nat)[0]);
        }
        assert(is_digit(v[i]));
        assert(v[i] != '-');
        assert(p as nat <= 2147483647);
    }
}

/// `char_of` of a character's own code point is that character.
proof fn lemma_char_of_is(c: char)
    ensures
        char_of(c as u32 as int) == c,
{
    let w = choose|x: char| #[trigger] (x as u32) == c as u32 as int;
    assert(c as u32 == c as u32 as int);
    assert(w as u32 == c as u32 as int);
}

/// Reading one written escape consumes it and appends the character it
/// stands for.
#[verifier::rlimit(100)]
proof fn lemma_parse_str_step(v: Seq<char>, i: int, acc: Seq<char>, c: char)
    requires
        0 <= i,
        i + esc_char(c).len() < v.len(),
        forall|t: int| 0 <= t < esc_char(c).len() ==> v[i + t] == #[trigger] esc_char(c)[t],
    ensures
        parse_str_body(v, i, acc) == parse_str_body(v, i + esc_char(c).len(), acc.push(c)),
{
    let e = esc_char(c);
    if c == '"' || c == '\\' || c == '\u{0008}' || c == '\u{0009}' || c == '\u{000A}' || c
        == '\u{000C}' || c == '\u{000D}' {
        assert(e.len() == 2 && e[0] == '\\');
        assert(v[i] == '\\');
        assert(v[i + 1] == e[1]);
        assert(e[1] != 'u');
        assert(unescape_char(e[1]) == Option::Some(c));
    } else if (c as u32) < 32 {
        let hi = (c as u32 / 16) as int;
        let lo = (c as u32 % 16) as int;
        assert(e == seq!['\\', 'u', '0', '0', hex_char(hi), hex_char(lo)]);
        assert(v[i] == '\\' && v[i + 1] == 'u' && v[i + 2] == '0' && v[i + 3] == '0' && v[i + 4]
            == hex_char(hi) && v[i + 5] == hex_char(lo));
        assert(forall|d: int| 0 <= d < 16 ==> hex_val(#[trigger] hex_char(d)) == d);
        assert(forall|d: int| 0 <= d < 16 ==> is_hex(#[trigger] hex_char(d)));
        assert(0 <= hi < 16 && 0 <= lo < 16);
        assert(hex4_ok(v, i + 2));
        let code = hex4_val(v, i + 2);
        assert(hex_val(v[i + 2]) == 0 && hex_val(v[i + 3]) == 0);
        assert(hex_val(v[i + 4]) == hi) by {
            assert(hex_val(hex_char(hi)) == hi);
        }
        assert(hex_val(v[i + 5]) == lo) by {
            assert(hex_val(hex_char(lo)) == lo);
        }
        assert(code == hi * 16 + lo);
        assert(code == c as u32);
        lemma_char_of_is(c);
        assert(char_of(code) == c);
    } else {
        assert(e == seq![c]);
        assert(e[0] == c);
        assert(v[i] == c);
        assert(v[i] != '"' && v[i] != '\\');
        assert(!((v[i] as u32) < 32));
    }
}

/// Reading a string body written by `json_str_body`, up to its closing
/// quote, appends exactly the original characters to the accumulator.
#[verifier::rlimit(30)]
proof fn lemma_parse_str_body(v: Seq<char>, i: int, acc: Seq<char>, s: Seq<char>)
    requires
        0 <= i,
        i + json_str_body(s).len() + 1 <= v.len(),
        v.subrange(i, i + json_str_body(s).len()) == json_str_body(s),
        v[i + json_str_body(s).len()] == '"',
    ensures
        parse_str_body(v, i, acc) == Option::Some((acc + s, i + json_str_body(s).len() + 1)),
    decreases s.len(),
{
    if s.len() == 0 {
        assert(json_str_body(s).len() == 0);
        assert(v[i] == '"');
        assert(acc + s =~= acc);
    } else {
        let c = s[0];
        let e = esc_char(c);
        let rest = json_str_body(s.drop_first());
        assert(json_str_body(s) == e + rest);
        lemma_prefix_split(v, i, e, rest);
        let i2 = i + e.len();
        assert(v.subrange(i2, i2 + rest.len()) == rest);
        assert(v[i2 + rest.len()] == '"');
        assert(forall|t: int| 0 <= t < e.len() ==> v[i + t] == #[trigger] e[t]) by {
            assert(forall|t: int|
                0 <= t < e.len() ==> v.subrange(i, i + e.len())[t] == #[trigger] e[t]);
        }
        lemma_parse_str_step(v, i, acc, c);
        lemma_parse_str_body(v, i2, acc.push(c), s.drop_first());
        assert(acc.push(c) + s.drop_first() =~= acc + s);
    }
}

/// Reading a quoted string written by `json_string` yields exactly the
/// original characters.
proof fn lemma_parse_string_at(v: Seq<char>, i: int, s: Seq<char>)
    requires
        0 <= i,
        i + json_string(s).len() <= v.len(),
        v.subrange(i, i + json_string(s).len()) == json_string(s),
    ensures
        parse_string_at(v, i) == Option::Some((s, i + json_string(s).len())),
{
    let q = seq!['"'];
    let rest = json_str_body(s) + q;
    assert(json_string(s) == q + rest);
    lemma_prefix_split(v, i, q, rest);
    assert(v[i] == '"') by {
        assert(v.subrange(i, i + 1)[0] == q[0]);
    }
    lemma_prefix_split(v, i + 1, json_str_body(s), q);
    assert(v[i + 1 + json_str_body(s).len()] == '"') by {
        assert(v.subrange(
            i + 1 + json_str_body(s).len(),
            i + 1 + json_str_body(s).len() + 1,
        )[0] == q[0]);
    }
    lemma_parse_str_body(v, i + 1, Seq::empty(), s);
    assert(Seq::empty() + s =~= s);
}

/// Reading one mark written by `json_mark` yields exactly that mark.
#[verifier::rlimit(100)]
proof fn lemma_parse_mark_at(v: Seq<char>, i: int, m: BookmarkV)
    requires
        0 <= i,
        -2147483648 <= m.page <= 2147483647,
        i + json_mark(m).len() <= v.len(),
        v.subrange(i, i + json_mark(m).len()) == json_mark(m),
    ensures
        parse_mark_at(v, i) == Option::Some((m, i + json_mark(m).len())),
{
    let r1 = dec_i32(m.page) + (lit_name() + (json_string(m.name) + seq!['}']));
    assert(json_mark(m) == lit_page() + r1);
    lemma_prefix_split(v, i, lit_page(), r1);
    assert(forall|t: int| 0 <= t < 8 ==> v[i + t] == #[trigger] lit_page()[t]) by {
        assert(forall|t: int|
            0 <= t < 8 ==> v.subrange(i, i + 8)[t] == #[trigger] lit_page()[t]);
    }
    assert(v[i] == '{');
    lemma_skip_ws_at(v, i + 1);
    assert(v.subrange(i + 1, i + 7) =~= key_page());
    assert(match_lit(v, i + 1, key_page()));
    assert(v[i + 7] == ':');
    lemma_skip_ws_at(v, i + 7);
    let i1 = i + 8;
    let r2 = lit_name() + (json_string(m.name) + seq!['}']);
    lemma_prefix_split(v, i1, dec_i32(m.page), r2);
    let i2 = i1 + dec_i32(m.page).len();
    assert(v[i1] == dec_i32(m.page)[0]) by {
        assert(v.subrange(i1, i2)[0] == dec_i32(m.page)[0]);
    }
    assert(!is_ws(v[i1])) by {
        if m.page < 0 {
            assert(dec_i32(m.page)[0] == '-');
        } else {
            lemma_dec_u64_props(m.page as nat);
            assert(is_digit(dec_i32(m.page)[0]));
        }
    }
    lemma_skip_ws_at(v, i1);
    assert(forall|t: int| 0 <= t < 8 ==> v[i2 + t] == #[trigger] lit_name()[t]) by {
        assert(forall|t: int|
            0 <= t < 8 ==> v.subrange(i2, i2 + 8)[t] == #[trigger] lit_name()[t]);
    }
    assert(v[i2] == ',');
    assert(!is_digit(','));
    lemma_parse_i32_at(v, i1, m.page);
    lemma_skip_ws_at(v, i2);
    lemma_skip_ws_at(v, i2 + 1);
    assert(v.subrange(i2 + 1, i2 + 7) =~= key_name());
    assert(match_lit(v, i2 + 1, key_name()));
    assert(v[i2 + 7] == ':');
    lemma_skip_ws_at(v, i2 + 7);
    let i3 = i2 + 8;
    let r3 = json_string(m.name) + seq!['}'];
    lemma_prefix_split(v, i2, lit_name(), r3);
    lemma_prefix_split(v, i3, json_string(m.name), seq!['}']);
    assert(v[i3] == '"') by {
        assert(v.subrange(i3, i3 + json_string(m.name).len())[0] == json_string(m.name)[0]);
    }
    lemma_skip_ws_at(v, i3);
    lemma_parse_string_at(v, i3, m.name);
    let i4 = i3 + json_string(m.name).len();
    assert(v[i4] == '}') by {
        assert(v.subrange(i4, i4 + 1)[0] == '}');
    }
    lemma_skip_ws_at(v, i4);
    assert((BookmarkV { page: m.page, name: m.name }) == m);
    assert(parse_mark_at(v, i) == Option::Some((m, i4 + 1)));
}

/// Reading the elements of a non-empty mark array written by
/// `json_marks_body`, with the closing bracket after them, appends exactly
/// the original marks to the accumulator.
#[verifier::rlimit(100)]
proof fn lemma_parse_marks_elems(v: Seq<char>, i: int, acc: Seq<BookmarkV>, marks: Seq<BookmarkV>)
    requires
        marks.len() > 0,
        marks_pages_valid(marks),
        0 <= i,
        i + json_marks_body(marks).len() + 1 <= v.len(),
        v.subrange(i, i + json_marks_body(marks).len()) == json_marks_body(marks),
        v[i + json_marks_body(marks).len()] == ']',
    ensures
        parse_marks_elems(v, i, acc) == Option::Some(
            (acc + marks, i + json_marks_body(marks).len() + 1),
        ),
    decreases marks.len(),
{
    let m0 = marks[0];
    if marks.len() == 1 {
        assert(json_marks_body(marks) == json_mark(m0));
        lemma_parse_mark_at(v, i, m0);
        let j = i + json_mark(m0).len();
        assert(v[j] == ']');
        lemma_skip_ws_at(v, j);
        assert(acc.push(m0) =~= acc + marks);
    } else {
        let rest = seq![','] + json_marks_body(marks.drop_first());
        assert(json_marks_body(marks) == json_mark(m0) + rest);
        lemma_prefix_split(v, i, json_mark(m0), rest);
        let j = i + json_mark(m0).len();
        lemma_prefix_split(v, j, seq![','], json_marks_body(marks.drop_first()));
        assert(v[j] == ',') by {
            assert(v.subrange(j, j + 1)[0] == ',');
        }
        lemma_parse_mark_at(v, i, m0);
        lemma_skip_ws_at(v, j);
        assert(v[j + 1] == '{') by {
            assert(v.subrange(j + 1, j + 1 + json_marks_body(marks.drop_first()).len())[0]
                == json_marks_body(marks.drop_first())[0]);
            assert(json_marks_body(marks.drop_first())[0] == json_mark(marks.drop_first()[0])[0]);
            assert(json_mark(marks.drop_first()[0])[0] == lit_page()[0]);
        }
        lemma_skip_ws_at(v, j + 1);
        assert(marks_pages_valid(marks.drop_first())) by {
            assert(forall|k: int|
                0 <= k < marks.drop_first().len() ==> (#[trigger] marks.drop_first()[k])
                    == marks[k + 1]);
        }
        lemma_parse_marks_elems(v, j + 1, acc.push(m0), marks.drop_first());
        assert(acc.push(m0) + marks.drop_first() =~= acc + marks);
    }
}

/// Reading a mark array written as `[` body `]` yields exactly the
/// original marks.
proof fn lemma_parse_marks_at(v: Seq<char>, i: int, marks: Seq<BookmarkV>)
    requires
        marks_pages_valid(marks),
        0 <= i,
        i + 1 + json_marks_body(marks).len() + 1 <= v.len(),
        v[i] == '[',
        v.subrange(i + 1, i + 1 + json_marks_body(marks).len()) == json_marks_body(marks),
        v[i + 1 + json_marks_body(marks).len()] == ']',
    ensures
        parse_marks_at(v, i) == Option::Some((marks, i + json_marks_body(marks).len() + 2)),
{
    if marks.len() == 0 {
        assert(v[i + 1] == ']');
        lemma_skip_ws_at(v, i + 1);
        assert(Seq::<BookmarkV>::empty() =~= marks);
    } else {
        assert(v[i + 1] == '{') by {
            assert(v.subrange(i + 1, i + 1 + json_marks_body(marks).len())[0]
                == json_marks_body(marks)[0]);
            assert(json_marks_body(marks)[0] == json_mark(marks[0])[0]);
            assert(json_mark(marks[0])[0] == lit_page()[0]);
        }
        lemma_skip_ws_at(v, i + 1);
        lemma_parse_marks_elems(v, i + 1, Seq::empty(), marks);
        assert(Seq::empty() + marks =~= marks);
    }
}

/// Reading one set written by `json_set` yields exactly that set.
#[verifier::rlimit(100)]
proof fn lemma_parse_set_at(v: Seq<char>, i: int, t: BookmarkSetV)
    requires
        marks_pages_valid(t.marks),
        0 <= i,
        i + json_set(t).len() <= v.len(),
        v.subrange(i, i + json_set(t).len()) == json_set(t),
    ensures
        parse_set_at(v, i) == Option::Some((t, i + json_set(t).len())),
{
    let body = json_marks_body(t.marks);
    let r1 = seq!['['] + (body + (seq![']'] + (lit_file_hash() + (dec_u64(t.file_hash as nat) + (
    lit_path_key() + (json_string(t.path) + seq!['}']))))));
    assert(json_set(t) == lit_marks_key() + r1);
    lemma_prefix_split(v, i, lit_marks_key(), r1);
    assert(forall|t2: int| 0 <= t2 < 9 ==> v[i + t2] == #[trigger] lit_marks_key()[t2]) by {
        assert(forall|t2: int|
            0 <= t2 < 9 ==> v.subrange(i, i + 9)[t2] == #[trigger] lit_marks_key()[t2]);
    }
    assert(v[i] == '{');
    lemma_skip_ws_at(v, i + 1);
    assert(v.subrange(i + 1, i + 8) =~= key_marks());
    assert(match_lit(v, i + 1, key_marks()));
    assert(v[i + 8] == ':');
    lemma_skip_ws_at(v, i + 8);
    let i1 = i + 9;
    let r2 = body + (seq![']'] + (lit_file_hash() + (dec_u64(t.file_hash as nat) + (lit_path_key()
        + (json_string(t.path) + seq!['}'])))));
    lemma_prefix_split(v, i1, seq!['['], r2);
    assert(v[i1] == '[') by {
        assert(v.subrange(i1, i1 + 1)[0] == '[');
    }
    lemma_skip_ws_at(v, i1);
    let i2 = i1 + 1;
    let r3 = seq![']'] + (lit_file_hash() + (dec_u64(t.file_hash as nat) + (lit_path_key() + (
    json_string(t.path) + seq!['}']))));
    lemma_prefix_split(v, i2, body, r3);
    let i3 = i2 + body.len();
    let r4 = lit_file_hash() + (dec_u64(t.file_hash as nat) + (lit_path_key() + (json_string(
        t.path,
    ) + seq!['}'])));
    lemma_prefix_split(v, i3, seq![']'], r4);
    assert(v[i3] == ']') by {
        assert(v.subrange(i3, i3 + 1)[0] == ']');
    }
    lemma_parse_marks_at(v, i1, t.marks);
    let i4 = i3 + 1;
    let r5 = dec_u64(t.file_hash as nat) + (lit_path_key() + (json_string(t.path) + seq!['}']));
    lemma_prefix_split(v, i4, lit_file_hash(), r5);
    assert(forall|t2: int| 0 <= t2 < 13 ==> v[i4 + t2] == #[trigger] lit_file_hash()[t2]) by {
        assert(forall|t2: int|
            0 <= t2 < 13 ==> v.subrange(i4, i4 + 13)[t2] == #[trigger] lit_file_hash()[t2]);
    }
    assert(v[i4] == ',');
    lemma_skip_ws_at(v, i4);
    lemma_skip_ws_at(v, i4 + 1);
    assert(v.subrange(i4 + 1, i4 + 12) =~= key_file_hash());
    assert(match_lit(v, i4 + 1, key_file_hash()));
    assert(v[i4 + 12] == ':');
    lemma_skip_ws_at(v, i4 + 12);
    let i5 = i4 + 13;
    let r6 = lit_path_key() + (json_string(t.path) + seq!['}']);
    lemma_prefix_split(v, i5, dec_u64(t.file_hash as nat), r6);
    let i6 = i5 + dec_u64(t.file_hash as nat).len();
    assert(v[i5] == dec_u64(t.file_hash as nat)[0]) by {
        assert(v.subrange(i5, i6)[0] == dec_u64(t.file_hash as nat)[0]);
    }
    lemma_dec_u64_props(t.file_hash as nat);
    assert(!is_ws(v[i5]));
    lemma_skip_ws_at(v, i5);
    assert(forall|t2: int| 0 <= t2 < 8 ==> v[i6 + t2] == #[trigger] lit_path_key()[t2]) by {
        assert(forall|t2: int|
            0 <= t2 < 8 ==> v.subrange(i6, i6 + 8)[t2] == #[trigger] lit_path_key()[t2]);
    }
    assert(v[i6] == ',');
    assert(!is_digit(','));
    lemma_parse_u64_at(v, i5, t.file_hash as nat);
    lemma_skip_ws_at(v, i6);
    lemma_skip_ws_at(v, i6 + 1);
    assert(v.subrange(i6 + 1, i6 + 7) =~= key_path());
    assert(match_lit(v, i6 + 1, key_path()));
    assert(v[i6 + 7] == ':');
    lemma_skip_ws_at(v, i6 + 7);
    let i7 = i6 + 8;
    let r7 = json_string(t.path) + seq!['}'];
    lemma_prefix_split(v, i6, lit_path_key(), r7);
    lemma_prefix_split(v, i7, json_string(t.path), seq!['}']);
    assert(v[i7] == '"') by {
        assert(v.subrange(i7, i7 + json_string(t.path).len())[0] == json_string(t.path)[0]);
    }
    lemma_skip_ws_at(v, i7);
    lemma_parse_string_at(v, i7, t.path);
    let i8 = i7 + json_string(t.path).len();
    assert(v[i8] == '}') by {
        assert(v.subrange(i8, i8 + 1)[0] == '}');
    }
    lemma_skip_ws_at(v, i8);
    assert((t.file_hash as nat) as u64 == t.file_hash);
    assert((BookmarkSetV { marks: t.marks, file_hash: t.file_hash, path: t.path }) == t);
    assert(parse_set_at(v, i) == Option::Some((t, i8 + 1)));
}

/// Reading the elements of a non-empty set array written by
/// `json_sets_body`, with the closing bracket after them, appends exactly
/// the original sets to the accumulator.
#[verifier::rlimit(100)]
proof fn lemma_parse_sets_elems(
    v: Seq<char>,
    i: int,
    acc: Seq<BookmarkSetV>,
    sets: Seq<BookmarkSetV>,
)
    requires
        sets.len() > 0,
        sets_pages_valid(sets),
        0 <= i,
        i + json_sets_body(sets).len() + 1 <= v.len(),
        v.subrange(i, i + json_sets_body(sets).len()) == json_sets_body(sets),
        v[i + json_sets_body(sets).len()] == ']',
    ensures
        parse_sets_elems(v, i, acc) == Option::Some(
            (acc + sets, i + json_sets_body(sets).len() + 1),
        ),
    decreases sets.len(),
{
    let t0 = sets[0];
    assert(marks_pages_valid(t0.marks));
    if sets.len() == 1 {
        assert(json_sets_body(sets) == json_set(t0));
        lemma_parse_set_at(v, i, t0);
        let j = i + json_set(t0).len();
        assert(v[j] == ']');
        lemma_skip_ws_at(v, j);
        assert(acc.push(t0) =~= acc + sets);
    } else {
        let rest = seq![','] + json_sets_body(sets.drop_first());
        assert(json_sets_body(sets) == json_set(t0) + rest);
        lemma_prefix_split(v, i, json_set(t0), rest);
        let j = i + json_set(t0).len();
        lemma_prefix_split(v, j, seq![','], json_sets_body(sets.drop_first()));
        assert(v[j] == ',') by {
            assert(v.subrange(j, j + 1)[0] == ',');
        }
        lemma_parse_set_at(v, i, t0);
        lemma_skip_ws_at(v, j);
        assert(v[j + 1] == '{') by {
            assert(v.subrange(j + 1, j + 1 + json_sets_body(sets.drop_first()).len())[0]
                == json_sets_body(sets.drop_first())[0]);
            assert(json_sets_body(sets.drop_first())[0] == json_set(sets.drop_first()[0])[0]);
            assert(json_set(sets.drop_first()[0])[0] == lit_marks_key()[0]);
        }
        lemma_skip_ws_at(v, j + 1);
        assert(sets_pages_valid(sets.drop_first())) by {
            assert(forall|k: int|
                0 <= k < sets.drop_first().len() ==> (#[trigger] sets.drop_first()[k])
                    == sets[k + 1]);
        }
        lemma_parse_sets_elems(v, j + 1, acc.push(t0), sets.drop_first());
        assert(acc.push(t0) + sets.drop_first() =~= acc + sets);
    }
}

/// Reading a set array written as `[` body `]` yields exactly the original
/// sets.
#[verifier::rlimit(100)]
proof fn lemma_parse_sets_at(v: Seq<char>, i: int, sets: Seq<BookmarkSetV>)
    requires
        sets_pages_valid(sets),
        0 <= i,
        i + 1 + json_sets_body(sets).len() + 1 <= v.len(),
        v[i] == '[',
        v.subrange(i + 1, i + 1 + json_sets_body(sets).len()) == json_sets_body(sets),
        v[i + 1 + json_sets_body(sets).len()] == ']',
    ensures
        parse_sets_at(v, i) == Option::Some((sets, i + json_sets_body(sets).len() + 2)),
{
    if sets.len() == 0 {
        assert(v[i + 1] == ']');
        lemma_skip_ws_at(v, i + 1);
        assert(Seq::<BookmarkSetV>::empty() =~= sets);
    } else {
        assert(v[i + 1] == '{') by {
            assert(v.subrange(i + 1, i + 1 + json_sets_body(sets).len())[0]
                == json_sets_body(sets)[0]);
            assert(json_sets_body(sets)[0] == json_set(sets[0])[0]);
            assert(json_set(sets[0])[0] == lit_marks_key()[0]);
        }
        lemma_skip_ws_at(v, i + 1);
        lemma_parse_sets_elems(v, i + 1, Seq::empty(), sets);
        assert(Seq::empty() + sets =~= sets);
    }
}

/// Assembling the whole-text parse from its token-level facts.
proof fn lemma_parse_store_tail(v: Seq<char>, sets: Seq<BookmarkSetV>, e: int)
    requires
        8 <= e < v.len(),
        v[0] == '{',
        match_lit(v, 1, key_sets()),
        v[7] == ':',
        v[8] == '[',
        parse_sets_at(v, 8) == Option::Some((sets, e)),
        v[e] == '}',
        e + 1 == v.len(),
    ensures
        parse_store_spec(v) == Option::Some(sets),
{
    lemma_skip_ws_at(v, 0);
    lemma_skip_ws_at(v, 1);
    lemma_skip_ws_at(v, 7);
    lemma_skip_ws_at(v, 8);
    lemma_skip_ws_at(v, e);
    lemma_skip_ws_at(v, e + 1);
}

/// The header tokens of a serialized store text.
proof fn lemma_store_text_head(sets: Seq<BookmarkSetV>)
    ensures
        ({
            let v = json_store(sets);
            &&& v.len() == json_sets_body(sets).len() as int + 11
            &&& v[0] == '{'
            &&& match_lit(v, 1, key_sets())
            &&& v[7] == ':'
            &&& v[8] == '['
        }),
{
    let v = json_store(sets);
    let body = json_sets_body(sets);
    let r1 = seq!['['] + (body + seq![']', '}']);
    assert(v == lit_sets_key() + r1);
    assert(forall|t: int| 0 <= t < 8 ==> v[t] == #[trigger] lit_sets_key()[t]);
    assert(v[0] == '{');
    assert(v.subrange(1, 7) =~= key_sets()) by {
        assert(forall|t: int| 0 <= t < 6 ==> v.subrange(1, 7)[t] == v[1 + t]);
    }
    assert(v[7] == ':');
    assert(v[8] == r1[0]);
}

/// The body stretch and closing tokens of a serialized store text.
proof fn lemma_store_text_body(sets: Seq<BookmarkSetV>)
    ensures
        ({
            let v = json_store(sets);
            let n = json_sets_body(sets).len() as int;
            &&& v.len() == n + 11
            &&& v.subrange(9, 9 + n) == json_sets_body(sets)
            &&& v[9 + n] == ']'
            &&& v[9 + n + 1] == '}'
        }),
{
    let v = json_store(sets);
    let body = json_sets_body(sets);
    let n = body.len() as int;
    let tail = seq![']', '}'];
    let r1 = seq!['['] + (body + tail);
    assert(v == lit_sets_key() + r1);
    assert(forall|t: int| 0 <= t < n + 3 ==> v[8 + t] == #[trigger] r1[t]);
    assert(forall|t: int| 0 <= t < n ==> r1[1 + t] == (body + tail)[t]);
    assert(v.subrange(9, 9 + n) =~= body) by {
        assert(forall|t: int| 0 <= t < n ==> #[trigger] v.subrange(9, 9 + n)[t] == v[9 + t]);
        assert(forall|t: int| 0 <= t < n ==> (body + tail)[t] == body[t]);
    }
    assert(v[9 + n] == r1[1 + n]);
    assert(r1[1 + n] == (body + tail)[n]);
    assert(v[9 + n + 1] == r1[2 + n]);
    assert(r1[2 + n] == (body + tail)[n + 1]);
}

/// The persistence round trip: parsing the serialized text of any
/// collection of sets (with every page in the 32-bit signed range) yields
/// exactly those sets, in order, with their paths, marks and fingerprints.
pub proof fn lemma_json_round_trip(sets: Seq<BookmarkSetV>)
    requires
        sets_pages_valid(sets),
    ensures
        parse_store_spec(json_store(sets)) == Option::Some(sets),
{
    let v = json_store(sets);
    let n = json_sets_body(sets).len() as int;
    lemma_store_text_head(sets);
    lemma_store_text_body(sets);
    lemma_parse_sets_at(v, 8, sets);
    lemma_parse_store_tail(v, sets, 9 + n + 1);
}

/// Every page of every mark held by executable sets fits the 32-bit signed
/// range, their views included.
proof fn lemma_store_pages_valid(b: &BookmarkStore)
    ensures
        sets_pages_valid(b@.sets),
{
    assert(forall|k: int, j: int|
        0 <= k < b@.sets.len() && 0 <= j < (#[trigger] b@.sets[k]).marks.len()
            ==> -2147483648 <= (#[trigger] b@.sets[k].marks[j]).page <= 2147483647) by {
        assert(forall|k: int|
            0 <= k < b@.sets.len() ==> (#[trigger] b@.sets[k]) == b.sets@[k]@);
        assert(forall|k: int, j: int|
            0 <= k < b.sets@.len() && 0 <= j < (#[trigger] b.sets@[k]@.marks).len()
                ==> b.sets@[k]@.marks[j] == (#[trigger] b.sets@[k].marks@[j])@);
    }
}

// ---------------------------------------------------------------------------
// The executable parser.
// ---------------------------------------------------------------------------

/// Whether the characters of `lit` stand at position `i` of `v`.
fn check_chars(v: &Vec<char>, i: usize, lit: &[char]) -> (r: bool)
    requires
        i <= v.len(),
    ensures
        r == (i + lit@.len() <= v@.len() && v@.subrange(i as int, i as int + lit@.len()) == lit@),
{
    if v.len() - i < lit.len() {
        return false;
    }
    let n = v.len();
    let mut k: usize = 0;
    while k < lit.len()
        invariant
            n == v@.len(),
            i + lit@.len() <= n,
            k <= lit@.len(),
            forall|t: int| 0 <= t < k ==> v@[i + t] == lit@[t],
        decreases lit@.len() - k,
    {
        proof {
            assert(k < lit@.len());
            assert(i + k < n);
        }
        if v[i + k] != lit[k] {
            proof {
                assert(v@.subrange(i as int, i as int + lit@.len()) != lit@) by {
                    if v@.subrange(i as int, i as int + lit@.len()) == lit@ {
                        assert(v@.subrange(i as int, i as int + lit@.len())[k as int] == lit@[
                            k as int
                        ]);
                    }
                }
            }
            return false;
        }
        k += 1;
    }
    proof {
        assert(v@.subrange(i as int, i as int + lit@.len()) =~= lit@);
    }
    true
}

/// Relies on `char::from_u32` (std): it returns the character with the
/// given code point exactly when that code point is a valid Unicode scalar
/// value — not a surrogate and at most 0x10FFFF — and `None` otherwise.
pub assume_specification[ char::from_u32 ](i: u32) -> (r: Option<char>)
    ensures
        match r {
            Option::Some(c) => c as u32 == i,
            Option::None => !(i < 0xD800 || (0xE000 <= i && i <= 0x10FFFF)),
        },
        (i < 0xD800 || (0xE000 <= i && i <= 0x10FFFF)) ==> r is Some,
;

/// Advances past JSON whitespace.
fn skip_ws_exec(v: &Vec<char>, start: usize) -> (r: usize)
    requires
        start <= v.len(),
    ensures
        start <= r <= v@.len(),
        r as int == skip_ws(v@, start as int),
{
    let mut i = start;
    loop
        invariant
            start <= i <= v@.len(),
            skip_ws(v@, start as int) == skip_ws(v@, i as int),
        decreases v@.len() - i,
    {
        if i == v.len() {
            return i;
        }
        let c = v[i];
        if c == ' ' || c == '\t' || c == '\n' || c == '\r' {
            i += 1;
        } else {
            return i;
        }
    }
}

/// The value of one hexadecimal digit character, either case.
fn hex_val_exec(c: char) -> (r: Option<u32>)
    ensures
        match r {
            Option::Some(x) => is_hex(c) && x as int == hex_val(c) && x < 16,
            Option::None => !is_hex(c),
        },
{
    let u = c as u32;
    if 48 <= u && u <= 57 {
        Some(u - 48)
    } else if 97 <= u && u <= 102 {
        Some(u - 87)
    } else if 65 <= u && u <= 70 {
        Some(u - 55)
    } else {
        None
    }
}

/// Reads four hexadecimal digits at position `p`.
fn read_hex4(v: &Vec<char>, p: usize) -> (r: Option<u32>)
    requires
        p + 4 <= v.len(),
    ensures
        match r {
            Option::Some(code) => hex4_ok(v@, p as int) && code as int == hex4_val(v@, p as int)
                && code < 0x10000,
            Option::None => !hex4_ok(v@, p as int),
        },
{
    let d0 = match hex_val_exec(v[p]) {
        Option::Some(x) => x,
        Option::None => {
            return None;
        },
    };
    let d1 = match hex_val_exec(v[p + 1]) {
        Option::Some(x) => x,
        Option::None => {
            return None;
        },
    };
    let d2 = match hex_val_exec(v[p + 2]) {
        Option::Some(x) => x,
        Option::None => {
            return None;
        },
    };
    let d3 = match hex_val_exec(v[p + 3]) {
        Option::Some(x) => x,
        Option::None => {
            return None;
        },
    };
    Some(d0 * 4096 + d1 * 256 + d2 * 16 + d3)
}

/// Reads an unsigned decimal number.
fn parse_u64_exec(v: &Vec<char>, start: usize) -> (r: Option<(u64, usize)>)
    requires
        start <= v.len(),
    ensures
        match r {
            Option::Some((n, j)) => start < j <= v@.len() && parse_u64_at(v@, start as int)
                == Option::Some((n as nat, j as int)),
            Option::None => parse_u64_at(v@, start as int) == Option::None::<(nat, int)>,
        },
{
    if start == v.len() {
        return None;
    }
    let c0 = v[start];
    if !(48 <= c0 as u32 && c0 as u32 <= 57) {
        return None;
    }
    if c0 == '0' {
        if start + 1 < v.len() {
            let c1 = v[start + 1];
            if 48 <= c1 as u32 && c1 as u32 <= 57 {
                return None;
            }
        }
        return Some((0, start + 1));
    }
    let mut i: usize = start;
    let mut acc: u64 = 0;
    loop
        invariant
            start <= i <= v@.len(),
            start < v@.len(),
            is_digit(v@[start as int]),
            v@[start as int] != '0',
            parse_digits(v@, start as int, 0) == parse_digits(v@, i as int, acc as nat),
        decreases v@.len() - i,
    {
        if i == v.len() {
            return Some((acc, i));
        }
        let c = v[i];
        if 48 <= c as u32 && c as u32 <= 57 {
            let d: u64 = (c as u32 - 48) as u64;
            let step = match acc.checked_mul(10) {
                Option::Some(x) => x.checked_add(d),
                Option::None => None,
            };
            match step {
                Option::Some(acc2) => {
                    proof {
                        assert(acc2 as nat == acc as nat * 10 + digit_val(v@[i as int]));
                    }
                    acc = acc2;
                    i += 1;
                }
                Option::None => {
                    proof {
                        assert(acc as nat * 10 + digit_val(v@[i as int])
                            > 0xffff_ffff_ffff_ffff);
                    }
                    return None;
                }
            }
        } else {
            return Some((acc, i));
        }
    }
}

/// Reads a decimal number with an optional sign, within the 32-bit signed
/// range.
fn parse_i32_exec(v: &Vec<char>, start: usize) -> (r: Option<(i32, usize)>)
    requires
        start <= v.len(),
    ensures
        match r {
            Option::Some((p, j)) => start < j <= v@.len() && parse_i32_at(v@, start as int)
                == Option::Some((p as int, j as int)),
            Option::None => parse_i32_at(v@, start as int) == Option::None::<(int, int)>,
        },
{
    if start < v.len() && v[start] == '-' {
        match parse_u64_exec(v, start + 1) {
            Option::Some((nv, j)) => {
                if nv <= 2147483648 {
                    let p: i32 = (-(nv as i64)) as i32;
                    proof {
                        assert(p as int == -(nv as int));
                    }
                    Some((p, j))
                } else {
                    None
                }
            }
            Option::None => None,
        }
    } else {
        match parse_u64_exec(v, start) {
            Option::Some((nv, j)) => {
                if nv <= 2147483647 {
                    Some((nv as i32, j))
                } else {
                    None
                }
            }
            Option::None => None,
        }
    }
}

/// The character a one-letter escape sequence stands for, if any.
fn unescape_exec(c: char) -> (r: Option<char>)
    ensures
        r == unescape_char(c),
{
    if c == '"' {
        Some('"')
    } else if c == '\\' {
        Some('\\')
    } else if c == '/' {
        Some('/')
    } else if c == 'n' {
        Some('\n')
    } else if c == 't' {
        Some('\t')
    } else if c == 'r' {
        Some('\r')
    } else if c == 'b' {
        Some('\u{0008}')
    } else if c == 'f' {
        Some('\u{000C}')
    } else {
        None
    }
}

/// Reads a quoted string value.
#[verifier::rlimit(50)]
fn parse_string_exec(v: &Vec<char>, start: usize) -> (r: Option<(Vec<char>, usize)>)
    requires
        start <= v.len(),
    ensures
        match r {
            Option::Some((s, j)) => start < j <= v@.len() && parse_string_at(v@, start as int)
                == Option::Some((s@, j as int)),
            Option::None => parse_string_at(v@, start as int) == Option::None::<
                (Seq<char>, int),
            >,
        },
{
    if start == v.len() {
        return None;
    }
    if v[start] != '"' {
        return None;
    }
    let mut i: usize = start + 1;
    let mut acc: Vec<char> = Vec::new();
    loop
        invariant
            start + 1 <= i <= v@.len(),
            start < v@.len(),
            v@[start as int] == '"',
            parse_str_body(v@, (start + 1) as int, Seq::empty()) == parse_str_body(
                v@,
                i as int,
                acc@,
            ),
        decreases v@.len() - i,
    {
        if i == v.len() {
            return None;
        }
        let c = v[i];
        if c == '"' {
            return Some((acc, i + 1));
        } else if c == '\\' {
            if i + 1 == v.len() {
                return None;
            }
            let e = v[i + 1];
            if e == 'u' {
                if v.len() - i < 6 {
                    return None;
                }
                match read_hex4(v, i + 2) {
                    Option::None => {
                        return None;
                    }
                    Option::Some(code) => {
                        if 0xD800 <= code && code <= 0xDBFF {
                            if v.len() - i < 12 {
                                return None;
                            }
                            if !(v[i + 6] == '\\' && v[i + 7] == 'u') {
                                return None;
                            }
                            match read_hex4(v, i + 8) {
                                Option::None => {
                                    return None;
                                }
                                Option::Some(code2) => {
                                    if 0xDC00 <= code2 && code2 <= 0xDFFF {
                                        let cp: u32 = 0x10000 + (code - 0xD800) * 0x400 + (code2
                                            - 0xDC00);
                                        match char::from_u32(cp) {
                                            Option::Some(ch) => {
                                                proof {
                                                    lemma_char_of_is(ch);
                                                    assert(ch as u32 == cp);
                                                    assert(char_of(cp as int) == ch);
                                                }
                                                acc.push(ch);
                                                i += 12;
                                            }
                                            Option::None => {
                                                proof {
                                                    assert(false);
                                                }
                                                return None;
                                            }
                                        }
                                    } else {
                                        return None;
                                    }
                                }
                            }
                        } else if 0xDC00 <= code && code <= 0xDFFF {
                            return None;
                        } else {
                            match char::from_u32(code) {
                                Option::Some(ch) => {
                                    proof {
                                        lemma_char_of_is(ch);
                                        assert(ch as u32 == code);
                                        assert(char_of(code as int) == ch);
                                    }
                                    acc.push(ch);
                                    i += 6;
                                }
                                Option::None => {
                                    proof {
                                        assert(false);
                                    }
                                    return None;
                                }
                            }
                        }
                    }
                }
            } else {
                match unescape_exec(e) {
                    Option::Some(u) => {
                        acc.push(u);
                        i += 2;
                    }
                    Option::None => {
                        return None;
                    }
                }
            }
        } else if (c as u32) < 32 {
            return None;
        } else {
            acc.push(c);
            i += 1;
        }
    }
}

/// Reads one mark object.
fn parse_mark_exec(v: &Vec<char>, i: usize) -> (r: Option<(Bookmark, usize)>)
    requires
        i <= v.len(),
    ensures
        match r {
            Option::Some((m, j)) => i < j <= v@.len() && parse_mark_at(v@, i as int)
                == Option::Some((m@, j as int)),
            Option::None => parse_mark_at(v@, i as int) == Option::None::<(BookmarkV, int)>,
        },
{
    if i == v.len() {
        return None;
    }
    if v[i] != '{' {
        return None;
    }
    let k1 = skip_ws_exec(v, i + 1);
    let key1 = ['"', 'p', 'a', 'g', 'e', '"'];
    proof {
        assert(key1@ =~= key_page());
    }
    if !check_chars(v, k1, &key1) {
        return None;
    }
    let k2 = skip_ws_exec(v, k1 + 6);
    if k2 == v.len() {
        return None;
    }
    if v[k2] != ':' {
        return None;
    }
    let k3 = skip_ws_exec(v, k2 + 1);
    match parse_i32_exec(v, k3) {
        Option::None => None,
        Option::Some((page, j)) => {
            let k4 = skip_ws_exec(v, j);
            if k4 == v.len() {
                return None;
            }
            if v[k4] != ',' {
                return None;
            }
            let k5 = skip_ws_exec(v, k4 + 1);
            let key2 = ['"', 'n', 'a', 'm', 'e', '"'];
            proof {
                assert(key2@ =~= key_name());
            }
            if !check_chars(v, k5, &key2) {
                return None;
            }
            let k6 = skip_ws_exec(v, k5 + 6);
            if k6 == v.len() {
                return None;
            }
            if v[k6] != ':' {
                return None;
            }
            let k7 = skip_ws_exec(v, k6 + 1);
            match parse_string_exec(v, k7) {
                Option::None => None,
                Option::Some((name_chars, j2)) => {
                    let k8 = skip_ws_exec(v, j2);
                    if k8 == v.len() {
                        return None;
                    }
                    if v[k8] != '}' {
                        return None;
                    }
                    let name = string_from_chars(&name_chars);
                    Some((Bookmark { page, name }, k8 + 1))
                }
            }
        }
    }
}

/// Reads a mark array, brackets included.
fn parse_marks_exec(v: &Vec<char>, i: usize) -> (r: Option<(Vec<Bookmark>, usize)>)
    requires
        i <= v.len(),
    ensures
        match r {
            Option::Some((marks, j)) => i < j <= v@.len() && parse_marks_at(v@, i as int)
                == Option::Some((marks@.map_values(|m: Bookmark| m@), j as int)),
            Option::None => parse_marks_at(v@, i as int) == Option::None::<
                (Seq<BookmarkV>, int),
            >,
        },
{
    if i == v.len() {
        return None;
    }
    if v[i] != '[' {
        return None;
    }
    let k0 = skip_ws_exec(v, i + 1);
    if k0 < v.len() && v[k0] == ']' {
        let empty: Vec<Bookmark> = Vec::new();
        proof {
            assert(empty@.map_values(|m: Bookmark| m@) =~= Seq::<BookmarkV>::empty());
        }
        return Some((empty, k0 + 1));
    }
    let mut k: usize = k0;
    let mut acc: Vec<Bookmark> = Vec::new();
    proof {
        assert(acc@.map_values(|m: Bookmark| m@) =~= Seq::<BookmarkV>::empty());
    }
    loop
        invariant
            i + 1 <= k <= v@.len(),
            i < v@.len(),
            v@[i as int] == '[',
            k0 as int == skip_ws(v@, (i + 1) as int),
            !(k0 < v@.len() && v@[k0 as int] == ']'),
            parse_marks_elems(v@, k0 as int, Seq::empty()) == parse_marks_elems(
                v@,
                k as int,
                acc@.map_values(|m: Bookmark| m@),
            ),
        decreases v@.len() - k,
    {
        let ghost acc_pre = acc@.map_values(|m: Bookmark| m@);
        match parse_mark_exec(v, k) {
            Option::None => {
                return None;
            }
            Option::Some((m, j)) => {
                let k2 = skip_ws_exec(v, j);
                if k2 == v.len() {
                    return None;
                }
                let c = v[k2];
                if c == ',' {
                    let next = skip_ws_exec(v, k2 + 1);
                    acc.push(m);
                    proof {
                        assert(acc@.map_values(|m2: Bookmark| m2@) =~= acc_pre.push(m@));
                    }
                    k = next;
                } else if c == ']' {
                    acc.push(m);
                    proof {
                        assert(acc@.map_values(|m2: Bookmark| m2@) =~= acc_pre.push(m@));
                    }
                    return Some((acc, k2 + 1));
                } else {
                    return None;
                }
            }
        }
    }
}

/// Reads one set object.
fn parse_set_exec(v: &Vec<char>, i: usize) -> (r: Option<(BookmarkSet, usize)>)
    requires
        i <= v.len(),
    ensures
        match r {
            Option::Some((t, j)) => i < j <= v@.len() && parse_set_at(v@, i as int)
                == Option::Some((t@, j as int)),
            Option::None => parse_set_at(v@, i as int) == Option::None::<(BookmarkSetV, int)>,
        },
{
    if i == v.len() {
        return None;
    }
    if v[i] != '{' {
        return None;
    }
    let k1 = skip_ws_exec(v, i + 1);
    let key1 = ['"', 'm', 'a', 'r', 'k', 's', '"'];
    proof {
        assert(key1@ =~= key_marks());
    }
    if !check_chars(v, k1, &key1) {
        return None;
    }
    let k2 = skip_ws_exec(v, k1 + 7);
    if k2 == v.len() {
        return None;
    }
    if v[k2] != ':' {
        return None;
    }
    let k3 = skip_ws_exec(v, k2 + 1);
    match parse_marks_exec(v, k3) {
        Option::None => None,
        Option::Some((marks, j)) => {
            let k4 = skip_ws_exec(v, j);
            if k4 == v.len() {
                return None;
            }
            if v[k4] != ',' {
                return None;
            }
            let k5 = skip_ws_exec(v, k4 + 1);
            let key2 = ['"', 'f', 'i', 'l', 'e', '_', 'h', 'a', 's', 'h', '"'];
            proof {
                assert(key2@ =~= key_file_hash());
            }
            if !check_chars(v, k5, &key2) {
                return None;
            }
            let k6 = skip_ws_exec(v, k5 + 11);
            if k6 == v.len() {
                return None;
            }
            if v[k6] != ':' {
                return None;
            }
            let k7 = skip_ws_exec(v, k6 + 1);
            match parse_u64_exec(v, k7) {
                Option::None => None,
                Option::Some((hash, j2)) => {
                    let k8 = skip_ws_exec(v, j2);
                    if k8 == v.len() {
                        return None;
                    }
                    if v[k8] != ',' {
                        return None;
                    }
                    let k9 = skip_ws_exec(v, k8 + 1);
                    let key3 = ['"', 'p', 'a', 't', 'h', '"'];
                    proof {
                        assert(key3@ =~= key_path());
                    }
                    if !check_chars(v, k9, &key3) {
                        return None;
                    }
                    let k10 = skip_ws_exec(v, k9 + 6);
                    if k10 == v.len() {
                        return None;
                    }
                    if v[k10] != ':' {
                        return None;
                    }
                    let k11 = skip_ws_exec(v, k10 + 1);
                    match parse_string_exec(v, k11) {
                        Option::None => None,
                        Option::Some((path_chars, j3)) => {
                            let k12 = skip_ws_exec(v, j3);
                            if k12 == v.len() {
                                return None;
                            }
                            if v[k12] != '}' {
                                return None;
                            }
                            let path = string_from_chars(&path_chars);
                            Some((BookmarkSet { marks, file_hash: hash, path }, k12 + 1))
                        }
                    }
                }
            }
        }
    }
}

/// Reads a set array, brackets included.
fn parse_sets_exec(v: &Vec<char>, i: usize) -> (r: Option<(Vec<BookmarkSet>, usize)>)
    requires
        i <= v.len(),
    ensures
        match r {
            Option::Some((sets, j)) => i < j <= v@.len() && parse_sets_at(v@, i as int)
                == Option::Some((sets@.map_values(|t: BookmarkSet| t@), j as int)),
            Option::None => parse_sets_at(v@, i as int) == Option::None::<
                (Seq<BookmarkSetV>, int),
            >,
        },
{
    if i == v.len() {
        return None;
    }
    if v[i] != '[' {
        return None;
    }
    let k0 = skip_ws_exec(v, i + 1);
    if k0 < v.len() && v[k0] == ']' {
        let empty: Vec<BookmarkSet> = Vec::new();
        proof {
            assert(empty@.map_values(|t: BookmarkSet| t@) =~= Seq::<BookmarkSetV>::empty());
        }
        return Some((empty, k0 + 1));
    }
    let mut k: usize = k0;
    let mut acc: Vec<BookmarkSet> = Vec::new();
    proof {
        assert(acc@.map_values(|t: BookmarkSet| t@) =~= Seq::<BookmarkSetV>::empty());
    }
    loop
        invariant
            i + 1 <= k <= v@.len(),
            i < v@.len(),
            v@[i as int] == '[',
            k0 as int == skip_ws(v@, (i + 1) as int),
            !(k0 < v@.len() && v@[k0 as int] == ']'),
            parse_sets_elems(v@, k0 as int, Seq::empty()) == parse_sets_elems(
                v@,
                k as int,
                acc@.map_values(|t: BookmarkSet| t@),
            ),
        decreases v@.len() - k,
    {
        let ghost acc_pre = acc@.map_values(|t: BookmarkSet| t@);
        match parse_set_exec(v, k) {
            Option::None => {
                return None;
            }
            Option::Some((t, j)) => {
                let k2 = skip_ws_exec(v, j);
                if k2 == v.len() {
                    return None;
                }
                let c = v[k2];
                if c == ',' {
                    let next = skip_ws_exec(v, k2 + 1);
                    acc.push(t);
                    proof {
                        assert(acc@.map_values(|t2: BookmarkSet| t2@) =~= acc_pre.push(t@));
                    }
                    k = next;
                } else if c == ']' {
                    acc.push(t);
                    proof {
                        assert(acc@.map_values(|t2: BookmarkSet| t2@) =~= acc_pre.push(t@));
                    }
                    return Some((acc, k2 + 1));
                } else {
                    return None;
                }
            }
        }
    }
}

/// Reads a whole persisted text.
fn parse_store_exec(v: &Vec<char>) -> (r: Option<Vec<BookmarkSet>>)
    ensures
        match r {
            Option::Some(sets) => parse_store_spec(v@) == Option::Some(
                sets@.map_values(|t: BookmarkSet| t@),
            ),
            Option::None => parse_store_spec(v@) == Option::None::<Seq<BookmarkSetV>>,
        },
{
    let i0 = skip_ws_exec(v, 0);
    if i0 == v.len() {
        return None;
    }
    if v[i0] != '{' {
        return None;
    }
    let k1 = skip_ws_exec(v, i0 + 1);
    let key = ['"', 's', 'e', 't', 's', '"'];
    proof {
        assert(key@ =~= key_sets());
    }
    if !check_chars(v, k1, &key) {
        return None;
    }
    let k2 = skip_ws_exec(v, k1 + 6);
    if k2 == v.len() {
        return None;
    }
    if v[k2] != ':' {
        return None;
    }
    let k3 = skip_ws_exec(v, k2 + 1);
    match parse_sets_exec(v, k3) {
        Option::None => None,
        Option::Some((sets, j)) => {
            let k4 = skip_ws_exec(v, j);
            if k4 == v.len() {
                return None;
            }
            if v[k4] != '}' {
                return None;
            }
            let k5 = skip_ws_exec(v, k4 + 1);
            if k5 == v.len() {
                Some(sets)
            } else {
                None
            }
        }
    }
}

/// Whether the parsed sets satisfy the store's well-formedness: no empty
/// set, at most one set per path.
fn check_sets_wf(sets: &Vec<BookmarkSet>) -> (r: bool)
    ensures
        r == sets_wf(sets@.map_values(|t: BookmarkSet| t@)),
{
    let ghost sv = sets@.map_values(|t: BookmarkSet| t@);
    let mut i: usize = 0;
    while i < sets.len()
        invariant
            i <= sets@.len(),
            sv == sets@.map_values(|t: BookmarkSet| t@),
            forall|a: int| 0 <= a < i ==> (#[trigger] sv[a]).marks.len() > 0,
            forall|a: int, b: int| #![trigger sv[a], sv[b]] 0 <= a < b < i ==> sv[a].path != sv[b].path,
        decreases sets@.len() - i,
    {
        if sets[i].marks.len() == 0 {
            proof {
                assert(sv[i as int].marks.len() == 0);
                assert(!sets_wf(sv));
            }
            return false;
        }
        let mut b: usize = 0;
        while b < i
            invariant
                b <= i < sets@.len(),
                sv == sets@.map_values(|t: BookmarkSet| t@),
                forall|t: int| 0 <= t < b ==> (#[trigger] sv[t]).path != sv[i as int].path,
            decreases i - b,
        {
            if sets[b].path == sets[i].path {
                proof {
                    assert(sv[b as int].path == sv[i as int].path);
                    assert(!sets_wf(sv));
                }
                return false;
            }
            b += 1;
        }
        i += 1;
    }
    proof {
        assert(sets_wf(sv));
    }
    true
}

impl BookmarkStore {
    /// Parses a persisted JSON text back into a store. Whitespace between
    /// tokens and the JSON string escapes (`\uXXXX` included) are accepted.
    /// Returns the typed `Serialization` error when the text is not
    /// well-formed: not in the persisted schema, or holding an empty set or
    /// two sets for one path. The transient pending name always starts out
    /// empty.
    pub fn from_json(s: &str) -> (r: Result<BookmarkStore, StoreError>)
        ensures
            match r {
                Ok(store) => {
                    &&& parse_store_spec(s@) == Option::Some(store@.sets)
                    &&& sets_wf(store@.sets)
                    &&& store@.pending_name.len() == 0
                },
                Err(e) => {
                    &&& e == StoreError::Serialization
                    &&& match parse_store_spec(s@) {
                        Option::Some(sets) => !sets_wf(sets),
                        Option::None => true,
                    }
                },
            },
    {
        let chars = chars_of_str(s);
        match parse_store_exec(&chars) {
            Option::None => Err(StoreError::Serialization),
            Option::Some(sets) => {
                if check_sets_wf(&sets) {
                    Ok(BookmarkStore { sets, pending_name: String::new() })
                } else {
                    Err(StoreError::Serialization)
                }
            }
        }
    }
}

/// The persistence round trip at the store level: any store's serialized
/// text parses back to exactly the store's sets.
pub proof fn lemma_save_load_round_trip(b: &BookmarkStore)
    ensures
        parse_store_spec(json_store(b@.sets)) == Option::Some(b@.sets),
{
    lemma_store_pages_valid(b);
    lemma_json_round_trip(b@.sets);
}

} // verus!
