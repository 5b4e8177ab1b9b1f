//! The JSON form of a transcript.
//!
//! A transcript is a JSON array of objects, each carrying exactly a `role`
//! and a `content` string. The decoder accepts any standard JSON spelling
//! of that shape: insignificant whitespace between tokens and around the
//! document, the two members in either order, and the string escapes `\"`,
//! `\\`, `\/`, `\b`, `\f`, `\n`, `\r`, `\t` and `\uXXXX` with hex digits of
//! either case. An escape naming a surrogate code point is rejected
//! (surrogate pairs are not combined), as is any unescaped control
//! character. The encoder emits one canonical spelling: no whitespace,
//! `role` before `content`, a short escape where one exists and lower-case
//! `\u00XX` for the remaining control characters.

use vstd::prelude::*;

use crate::chars::{chars_to_string, str_chars};
use crate::message::{views, Message, MessageView};

verus! {

/// The lower-case hex digit for a value below sixteen.
pub open spec fn hex_digit(v: nat) -> char {
    if v == 0 {
        '0'
    } else if v == 1 {
        '1'
    } else if v == 2 {
        '2'
    } else if v == 3 {
        '3'
    } else if v == 4 {
        '4'
    } else if v == 5 {
        '5'
    } else if v == 6 {
        '6'
    } else if v == 7 {
        '7'
    } else if v == 8 {
        '8'
    } else if v == 9 {
        '9'
    } else if v == 10 {
        'a'
    } else if v == 11 {
        'b'
    } else if v == 12 {
        'c'
    } else if v == 13 {
        'd'
    } else if v == 14 {
        'e'
    } else {
        'f'
    }
}

/// The value of a hex digit of either case; sixteen for any other
/// character.
pub open spec fn hex_val(c: char) -> nat {
    if c == '0' {
        0
    } else if c == '1' {
        1
    } else if c == '2' {
        2
    } else if c == '3' {
        3
    } else if c == '4' {
        4
    } else if c == '5' {
        5
    } else if c == '6' {
        6
    } else if c == '7' {
        7
    } else if c == '8' {
        8
    } else if c == '9' {
        9
    } else if c == 'a' || c == 'A' {
        10
    } else if c == 'b' || c == 'B' {
        11
    } else if c == 'c' || c == 'C' {
        12
    } else if c == 'd' || c == 'D' {
        13
    } else if c == 'e' || c == 'E' {
        14
    } else if c == 'f' || c == 'F' {
        15
    } else {
        16
    }
}

/// Whether `c` is a hex digit of either case.
pub open spec fn is_hex(c: char) -> bool {
    hex_val(c) < 16
}

/// The code point four hex digits name.
pub open spec fn hex4_val(a: char, b: char, c: char, d: char) -> nat {
    ((hex_val(a) * 16 + hex_val(b)) * 16 + hex_val(c)) * 16 + hex_val(d)
}

/// The surrogate code points, which no character holds.
pub open spec fn surrogate(v: nat) -> bool {
    0xd800 <= v <= 0xdfff
}

/// Whether `c` stands for itself inside a string literal: everything but
/// the quote, the backslash and the control characters.
pub open spec fn plain_char(c: char) -> bool {
    c != '"' && c != '\\' && (c as u32) >= 32
}

/// JSON insignificant whitespace.
pub open spec fn is_ws(c: char) -> bool {
    c == ' ' || c == '\t' || c == '\n' || c == '\r'
}

/// The input without its leading whitespace.
pub open spec fn skip_ws(s: Seq<char>) -> Seq<char>
    decreases s.len(),
{
    if s.len() > 0 && is_ws(s[0]) {
        skip_ws(s.drop_first())
    } else {
        s
    }
}

/// The canonical escape of one character inside a string literal.
pub open spec fn escape_char(c: char) -> Seq<char> {
    if c == '"' {
        seq!['\\', '"']
    } else if c == '\\' {
        seq!['\\', '\\']
    } else if c == '\n' {
        seq!['\\', 'n']
    } else if c == '\r' {
        seq!['\\', 'r']
    } else if c == '\t' {
        seq!['\\', 't']
    } else if (c as u32) < 32 {
        seq!['\\', 'u', '0', '0', hex_digit(((c as u32) / 16) as nat), hex_digit(
            ((c as u32) % 16) as nat,
        )]
    } else {
        seq![c]
    }
}

/// The canonical escape of a whole string body.
pub open spec fn escape_seq(s: Seq<char>) -> Seq<char>
    decreases s.len(),
{
    if s.len() == 0 {
        Seq::empty()
    } else {
        escape_char(s[0]) + escape_seq(s.drop_first())
    }
}

/// The name of the member holding the speaker's label.
pub open spec fn role_name() -> Seq<char> {
    seq!['r', 'o', 'l', 'e']
}

/// The name of the member holding the message text.
pub open spec fn content_name() -> Seq<char> {
    seq!['c', 'o', 'n', 't', 'e', 'n', 't']
}

/// `{"role":"` — what opens a canonically encoded message, up to and
/// including the quote that opens the role value.
pub open spec fn role_key() -> Seq<char> {
    seq!['{', '"', 'r', 'o', 'l', 'e', '"', ':', '"']
}

/// `","content":"` — between the role value's closing quote and the content
/// value's first character, in the canonical encoding.
pub open spec fn content_key() -> Seq<char> {
    seq![',', '"', 'c', 'o', 'n', 't', 'e', 'n', 't', '"', ':', '"']
}

/// The canonical JSON encoding of one message.
pub open spec fn spec_encode_message(m: MessageView) -> Seq<char> {
    role_key() + escape_seq(m.role) + seq!['"'] + content_key() + escape_seq(m.content) + seq![
        '"',
        '}',
    ]
}

/// The canonical comma-separated encoding of the messages, without the
/// surrounding brackets.
pub open spec fn spec_encode_items(ms: Seq<MessageView>) -> Seq<char>
    decreases ms.len(),
{
    if ms.len() == 0 {
        Seq::empty()
    } else if ms.len() == 1 {
        spec_encode_message(ms[0])
    } else {
        spec_encode_message(ms[0]) + seq![','] + spec_encode_items(ms.drop_first())
    }
}

/// The canonical JSON encoding of a whole transcript.
pub open spec fn spec_encode(ms: Seq<MessageView>) -> Seq<char> {
    seq!['['] + spec_encode_items(ms) + seq![']']
}

/// The characters that may follow a backslash as a one-character escape.
pub open spec fn short_escape(e: char) -> bool {
    e == '"' || e == '\\' || e == '/' || e == 'b' || e == 'f' || e == 'n' || e == 'r' || e == 't'
}

/// The character a one-character escape stands for.
pub open spec fn unescaped(e: char) -> char {
    if e == '"' {
        '"'
    } else if e == '\\' {
        '\\'
    } else if e == '/' {
        '/'
    } else if e == 'b' {
        '\u{8}'
    } else if e == 'f' {
        '\u{c}'
    } else if e == 'n' {
        '\n'
    } else if e == 'r' {
        '\r'
    } else {
        '\t'
    }
}

/// Parses a JSON string body, after the opening quote, up to and including
/// the closing quote; yields the decoded text and the remainder of the
/// input. An escape naming a surrogate code point is refused.
pub open spec fn parse_string_body(s: Seq<char>) -> Option<(Seq<char>, Seq<char>)>
    decreases s.len(),
{
    if s.len() == 0 {
        None
    } else if s[0] == '"' {
        Some((Seq::empty(), s.drop_first()))
    } else if s[0] == '\\' {
        if s.len() >= 2 && short_escape(s[1]) {
            match parse_string_body(s.skip(2)) {
                Some(p) => Some((seq![unescaped(s[1])] + p.0, p.1)),
                None => None,
            }
        } else if s.len() >= 6 && s[1] == 'u' && is_hex(s[2]) && is_hex(s[3]) && is_hex(s[4])
            && is_hex(s[5]) && !surrogate(hex4_val(s[2], s[3], s[4], s[5])) {
            match parse_string_body(s.skip(6)) {
                Some(p) => Some((seq![(hex4_val(s[2], s[3], s[4], s[5]) as char)] + p.0, p.1)),
                None => None,
            }
        } else {
            None
        }
    } else if plain_char(s[0]) {
        match parse_string_body(s.drop_first()) {
            Some(p) => Some((seq![s[0]] + p.0, p.1)),
            None => None,
        }
    } else {
        None
    }
}

/// Parses one object member, `"name" : "value"`, whitespace allowed around
/// the colon; yields the decoded name and value and the remainder.
pub open spec fn parse_member(s: Seq<char>) -> Option<((Seq<char>, Seq<char>), Seq<char>)> {
    if s.len() >= 1 && s[0] == '"' {
        match parse_string_body(s.drop_first()) {
            None => None,
            Some(n) => {
                let r1 = skip_ws(n.1);
                if r1.len() >= 1 && r1[0] == ':' {
                    let r2 = skip_ws(r1.drop_first());
                    if r2.len() >= 1 && r2[0] == '"' {
                        match parse_string_body(r2.drop_first()) {
                            None => None,
                            Some(v) => Some(((n.0, v.0), v.1)),
                        }
                    } else {
                        None
                    }
                } else {
                    None
                }
            },
        }
    } else {
        None
    }
}

/// The message two members make: one must be named `role`, the other
/// `content`.
pub open spec fn message_of(a: (Seq<char>, Seq<char>), b: (Seq<char>, Seq<char>)) -> Option<
    MessageView,
> {
    if a.0 == role_name() && b.0 == content_name() {
        Some(MessageView { role: a.1, content: b.1 })
    } else if a.0 == content_name() && b.0 == role_name() {
        Some(MessageView { role: b.1, content: a.1 })
    } else {
        None
    }
}

/// Parses one message object, `{ "role": "...", "content": "..." }` with
/// the members in either order; yields its value and the remainder.
pub open spec fn parse_message_at(s: Seq<char>) -> Option<(MessageView, Seq<char>)> {
    if s.len() >= 1 && s[0] == '{' {
        match parse_member(skip_ws(s.drop_first())) {
            None => None,
            Some(m1) => {
                let r1 = skip_ws(m1.1);
                if r1.len() >= 1 && r1[0] == ',' {
                    match parse_member(skip_ws(r1.drop_first())) {
                        None => None,
                        Some(m2) => {
                            let r2 = skip_ws(m2.1);
                            if r2.len() >= 1 && r2[0] == '}' {
                                match message_of(m1.0, m2.0) {
                                    None => None,
                                    Some(m) => Some((m, r2.drop_first())),
                                }
                            } else {
                                None
                            }
                        },
                    }
                } else {
                    None
                }
            },
        }
    } else {
        None
    }
}

/// Skipping whitespace never lengthens the input.
pub proof fn lemma_skip_ws_len(s: Seq<char>)
    ensures
        skip_ws(s).len() <= s.len(),
    decreases s.len(),
{
    if s.len() > 0 && is_ws(s[0]) {
        lemma_skip_ws_len(s.drop_first());
    }
}

/// A successful string-body parse consumes at least the closing quote.
pub proof fn lemma_parse_string_body_shrinks(s: Seq<char>)
    ensures
        parse_string_body(s) matches Some(p) ==> p.1.len() < s.len(),
    decreases s.len(),
{
    if s.len() == 0 {
    } else if s[0] == '"' {
    } else if s[0] == '\\' {
        if s.len() >= 2 && short_escape(s[1]) {
            lemma_parse_string_body_shrinks(s.skip(2));
        } else if s.len() >= 6 && s[1] == 'u' && is_hex(s[2]) && is_hex(s[3]) && is_hex(s[4])
            && is_hex(s[5]) && !surrogate(hex4_val(s[2], s[3], s[4], s[5])) {
            lemma_parse_string_body_shrinks(s.skip(6));
        }
    } else if plain_char(s[0]) {
        lemma_parse_string_body_shrinks(s.drop_first());
    }
}

/// A successful member parse consumes at least its quotes and colon.
pub proof fn lemma_parse_member_shrinks(s: Seq<char>)
    ensures
        parse_member(s) matches Some(p) ==> p.1.len() < s.len(),
{
    if s.len() >= 1 && s[0] == '"' {
        lemma_parse_string_body_shrinks(s.drop_first());
        match parse_string_body(s.drop_first()) {
            None => {},
            Some(n) => {
                lemma_skip_ws_len(n.1);
                let r1 = skip_ws(n.1);
                if r1.len() >= 1 && r1[0] == ':' {
                    lemma_skip_ws_len(r1.drop_first());
                    let r2 = skip_ws(r1.drop_first());
                    if r2.len() >= 1 && r2[0] == '"' {
                        lemma_parse_string_body_shrinks(r2.drop_first());
                    }
                }
            },
        }
    }
}

/// A successful message parse consumes at least one character.
pub proof fn lemma_parse_message_at_shrinks(s: Seq<char>)
    ensures
        parse_message_at(s) matches Some(p) ==> p.1.len() < s.len(),
{
    if s.len() >= 1 && s[0] == '{' {
        lemma_skip_ws_len(s.drop_first());
        lemma_parse_member_shrinks(skip_ws(s.drop_first()));
        match parse_member(skip_ws(s.drop_first())) {
            None => {},
            Some(m1) => {
                lemma_skip_ws_len(m1.1);
                let r1 = skip_ws(m1.1);
                if r1.len() >= 1 && r1[0] == ',' {
                    lemma_skip_ws_len(r1.drop_first());
                    lemma_parse_member_shrinks(skip_ws(r1.drop_first()));
                    match parse_member(skip_ws(r1.drop_first())) {
                        None => {},
                        Some(m2) => {
                            lemma_skip_ws_len(m2.1);
                        },
                    }
                }
            },
        }
    }
}

/// Parses the items of a non-empty transcript: one message, then either the
/// closing bracket — with nothing but whitespace after it — or a comma and
/// more items.
pub open spec fn parse_items(s: Seq<char>) -> Option<Seq<MessageView>>
    decreases s.len(),
{
    match parse_message_at(s) {
        None => None,
        Some(p) => {
            let r = skip_ws(p.1);
            if r.len() >= 1 && r[0] == ']' {
                if skip_ws(r.drop_first()).len() == 0 {
                    Some(seq![p.0])
                } else {
                    None
                }
            } else if r.len() >= 1 && r[0] == ',' {
                proof {
                    lemma_parse_message_at_shrinks(s);
                    lemma_skip_ws_len(p.1);
                    lemma_skip_ws_len(r.drop_first());
                }
                match parse_items(skip_ws(r.drop_first())) {
                    None => None,
                    Some(ms) => Some(seq![p.0] + ms),
                }
            } else {
                None
            }
        },
    }
}

/// Parses a whole transcript: a JSON array of message objects, whitespace
/// allowed between tokens and around the document.
pub open spec fn spec_decode(s: Seq<char>) -> Option<Seq<MessageView>> {
    let t = skip_ws(s);
    if t.len() >= 1 && t[0] == '[' {
        let u = skip_ws(t.drop_first());
        if u.len() >= 1 && u[0] == ']' {
            if skip_ws(u.drop_first()).len() == 0 {
                Some(Seq::empty())
            } else {
                None
            }
        } else {
            parse_items(u)
        }
    } else {
        None
    }
}

proof fn lemma_hex_round_trip(v: nat)
    requires
        v < 16,
    ensures
        is_hex(hex_digit(v)),
        hex_val(hex_digit(v)) == v,
{
}

/// Parsing picks an escaped string body back out of the input: the
/// canonical escape of `t`, a closing quote, and anything after parse to
/// exactly `t` with that remainder.
proof fn lemma_parse_escape(t: Seq<char>, rest: Seq<char>)
    ensures
        parse_string_body(escape_seq(t) + seq!['"'] + rest) == Some((t, rest)),
    decreases t.len(),
{
    let s = escape_seq(t) + seq!['"'] + rest;
    if t.len() == 0 {
        assert(s =~= seq!['"'] + rest);
        assert(s[0] == '"');
        assert(s.drop_first() =~= rest);
        assert(t =~= Seq::<char>::empty());
    } else {
        let c = t[0];
        let t1 = t.drop_first();
        lemma_parse_escape(t1, rest);
        let sub = escape_seq(t1) + seq!['"'] + rest;
        assert(escape_seq(t) == escape_char(c) + escape_seq(t1));
        assert(s =~= escape_char(c) + sub);
        if c == '"' || c == '\\' || c == '\n' || c == '\r' || c == '\t' {
            assert(escape_char(c).len() == 2);
            assert(s[0] == '\\');
            assert(s[1] == escape_char(c)[1]);
            assert(s.len() >= 2);
            assert(short_escape(s[1]));
            assert(s.skip(2) =~= sub);
            assert(unescaped(s[1]) == c);
            assert(seq![c] + t1 =~= t);
        } else if (c as u32) < 32 {
            let v = c as u32;
            lemma_hex_round_trip((v / 16) as nat);
            lemma_hex_round_trip((v % 16) as nat);
            assert(escape_char(c).len() == 6);
            assert(s[0] == '\\' && s[1] == 'u' && s[2] == '0' && s[3] == '0');
            assert(s[4] == hex_digit((v / 16) as nat) && s[5] == hex_digit((v % 16) as nat));
            assert(hex4_val(s[2], s[3], s[4], s[5]) == v);
            assert(!surrogate(v as nat));
            vstd::utf8::char_u32_cast(c, v);
            assert((hex4_val(s[2], s[3], s[4], s[5]) as char) == c);
            assert(s.len() >= 6);
            assert(s.skip(6) =~= sub);
            assert(seq![c] + t1 =~= t);
        } else {
            assert(escape_char(c) =~= seq![c]);
            assert(plain_char(c));
            assert(s[0] == c);
            assert(s.drop_first() =~= sub);
            assert(seq![c] + t1 =~= t);
        }
    }
}

/// A text of plain characters is its own canonical escape.
proof fn lemma_escape_all_plain(t: Seq<char>)
    requires
        forall|i: int| 0 <= i < t.len() ==> plain_char(#[trigger] t[i]),
    ensures
        escape_seq(t) == t,
    decreases t.len(),
{
    if t.len() == 0 {
    } else {
        assert(plain_char(t[0]));
        assert(forall|i: int|
            0 <= i < t.drop_first().len() ==> plain_char(#[trigger] t.drop_first()[i]));
        lemma_escape_all_plain(t.drop_first());
        assert(escape_char(t[0]) =~= seq![t[0]]);
        assert(seq![t[0]] + t.drop_first() =~= t);
    }
}

/// Parsing picks a canonically encoded member back out of the input: a
/// plainly spelled name, a colon, and an escaped value.
proof fn lemma_parse_member_enc(name: Seq<char>, value: Seq<char>, rest: Seq<char>)
    requires
        forall|i: int| 0 <= i < name.len() ==> plain_char(#[trigger] name[i]),
    ensures
        parse_member(
            seq!['"'] + name + seq!['"', ':', '"'] + escape_seq(value) + seq!['"'] + rest,
        ) == Some(((name, value), rest)),
{
    lemma_escape_all_plain(name);
    let s = seq!['"'] + name + seq!['"', ':', '"'] + escape_seq(value) + seq!['"'] + rest;
    let val_part = seq!['"'] + (escape_seq(value) + seq!['"'] + rest);
    let after_name = seq![':'] + val_part;
    assert(s =~= seq!['"'] + (escape_seq(name) + seq!['"'] + after_name));
    assert(s[0] == '"');
    assert(s.drop_first() =~= escape_seq(name) + seq!['"'] + after_name);
    lemma_parse_escape(name, after_name);
    assert(parse_string_body(s.drop_first()) == Some((name, after_name)));
    assert(after_name[0] == ':');
    assert(!is_ws(after_name[0]));
    assert(skip_ws(after_name) == after_name);
    assert(after_name.drop_first() =~= val_part);
    assert(val_part[0] == '"');
    assert(!is_ws(val_part[0]));
    assert(skip_ws(val_part) == val_part);
    assert(val_part.drop_first() =~= escape_seq(value) + seq!['"'] + rest);
    lemma_parse_escape(value, rest);
    assert(parse_string_body(val_part.drop_first()) == Some((value, rest)));
}

/// Parsing picks a canonically encoded message back out of the input.
proof fn lemma_parse_message(m: MessageView, rest: Seq<char>)
    ensures
        parse_message_at(spec_encode_message(m) + rest) == Some((m, rest)),
{
    let s = spec_encode_message(m) + rest;
    assert(plain_char('r') && plain_char('o') && plain_char('l') && plain_char('e'));
    assert(plain_char('c') && plain_char('n') && plain_char('t'));
    assert(forall|i: int| 0 <= i < role_name().len() ==> plain_char(#[trigger] role_name()[i]));
    assert(forall|i: int|
        0 <= i < content_name().len() ==> plain_char(#[trigger] content_name()[i]));
    let closing = seq!['}'] + rest;
    let member2 = seq!['"'] + content_name() + seq!['"', ':', '"'] + escape_seq(m.content) + seq![
        '"',
    ] + closing;
    let after1 = seq![','] + member2;
    let member1 = seq!['"'] + role_name() + seq!['"', ':', '"'] + escape_seq(m.role) + seq!['"']
        + after1;
    assert(s =~= seq!['{'] + member1);
    assert(s[0] == '{');
    assert(s.drop_first() =~= member1);
    assert(member1[0] == '"');
    assert(!is_ws(member1[0]));
    assert(skip_ws(member1) == member1);
    lemma_parse_member_enc(role_name(), m.role, after1);
    assert(parse_member(member1) == Some(((role_name(), m.role), after1)));
    assert(after1[0] == ',');
    assert(!is_ws(after1[0]));
    assert(skip_ws(after1) == after1);
    assert(after1.drop_first() =~= member2);
    assert(member2[0] == '"');
    assert(!is_ws(member2[0]));
    assert(skip_ws(member2) == member2);
    lemma_parse_member_enc(content_name(), m.content, closing);
    assert(parse_member(member2) == Some(((content_name(), m.content), closing)));
    assert(closing[0] == '}');
    assert(!is_ws(closing[0]));
    assert(skip_ws(closing) == closing);
    assert(closing.drop_first() =~= rest);
    assert(message_of((role_name(), m.role), (content_name(), m.content)) == Some(
        MessageView { role: m.role, content: m.content },
    ));
    assert(MessageView { role: m.role, content: m.content } == m);
}

/// Parsing picks the encoded items of a non-empty transcript, followed by
/// the closing bracket, back out of the input.
proof fn lemma_parse_items_encode(ms: Seq<MessageView>)
    requires
        ms.len() >= 1,
    ensures
        parse_items(spec_encode_items(ms) + seq![']']) == Some(ms),
    decreases ms.len(),
{
    let s = spec_encode_items(ms) + seq![']'];
    if ms.len() == 1 {
        lemma_parse_message(ms[0], seq![']']);
        assert(s =~= spec_encode_message(ms[0]) + seq![']']);
        assert(parse_message_at(s) == Some((ms[0], seq![']'])));
        assert(!is_ws(']'));
        assert(skip_ws(seq![']']) == seq![']']);
        assert(seq![']'].drop_first() =~= Seq::<char>::empty());
        assert(skip_ws(Seq::<char>::empty()) == Seq::<char>::empty());
        assert(seq![ms[0]] =~= ms);
    } else {
        let tail = ms.drop_first();
        let r = seq![','] + (spec_encode_items(tail) + seq![']']);
        lemma_parse_message(ms[0], r);
        assert(s =~= spec_encode_message(ms[0]) + r);
        assert(parse_message_at(s) == Some((ms[0], r)));
        assert(r[0] == ',');
        assert(!is_ws(r[0]));
        assert(skip_ws(r) == r);
        assert(r.drop_first() =~= spec_encode_items(tail) + seq![']']);
        assert(spec_encode_message(tail[0])[0] == '{');
        assert(spec_encode_items(tail)[0] == '{');
        assert((spec_encode_items(tail) + seq![']'])[0] == '{');
        assert(!is_ws('{'));
        assert(skip_ws(spec_encode_items(tail) + seq![']']) == spec_encode_items(tail) + seq![
            ']',
        ]);
        lemma_parse_items_encode(tail);
        assert(seq![ms[0]] + tail =~= ms);
    }
}

/// Law (round trip): decoding the canonical encoding of any transcript
/// yields exactly that transcript, in the same order.
pub proof fn lemma_decode_encode(ms: Seq<MessageView>)
    ensures
        spec_decode(spec_encode(ms)) == Some(ms),
{
    let s = spec_encode(ms);
    assert(s[0] == '[');
    assert(!is_ws('['));
    assert(skip_ws(s) == s);
    assert(s.drop_first() =~= spec_encode_items(ms) + seq![']']);
    if ms.len() == 0 {
        assert(spec_encode_items(ms) == Seq::<char>::empty());
        assert(s.drop_first() =~= seq![']']);
        assert(!is_ws(']'));
        assert(skip_ws(seq![']']) == seq![']']);
        assert(seq![']'].drop_first() =~= Seq::<char>::empty());
        assert(skip_ws(Seq::<char>::empty()) == Seq::<char>::empty());
        assert(ms =~= Seq::<MessageView>::empty());
    } else {
        lemma_parse_items_encode(ms);
        assert(spec_encode_message(ms[0])[0] == '{');
        assert(spec_encode_items(ms)[0] == '{');
        assert((spec_encode_items(ms) + seq![']'])[0] == '{');
        assert(!is_ws('{'));
        assert(skip_ws(spec_encode_items(ms) + seq![']']) == spec_encode_items(ms) + seq![']']);
    }
}

/// `r` with `p` prepended to the decoded text on success.
spec fn prepend_body(p: Seq<char>, r: Option<(Seq<char>, Seq<char>)>) -> Option<
    (Seq<char>, Seq<char>),
> {
    match r {
        None => None,
        Some(q) => Some((p + q.0, q.1)),
    }
}

proof fn lemma_prepend_body_empty(r: Option<(Seq<char>, Seq<char>)>)
    ensures
        prepend_body(Seq::empty(), r) == r,
{
    match r {
        None => {},
        Some(q) => {
            assert(Seq::<char>::empty() + q.0 =~= q.0);
        },
    }
}

proof fn lemma_prepend_body_push(p: Seq<char>, c: char, r: Option<(Seq<char>, Seq<char>)>)
    ensures
        prepend_body(p, prepend_body(seq![c], r)) == prepend_body(p.push(c), r),
{
    match r {
        None => {},
        Some(q) => {
            assert(p + (seq![c] + q.0) =~= p.push(c) + q.0);
        },
    }
}

/// The value of a hex digit of either case; sixteen for any other
/// character.
fn hex_value(c: char) -> (v: u32)
    ensures
        v == hex_val(c),
{
    if c == '0' {
        0
    } else if c == '1' {
        1
    } else if c == '2' {
        2
    } else if c == '3' {
        3
    } else if c == '4' {
        4
    } else if c == '5' {
        5
    } else if c == '6' {
        6
    } else if c == '7' {
        7
    } else if c == '8' {
        8
    } else if c == '9' {
        9
    } else if c == 'a' || c == 'A' {
        10
    } else if c == 'b' || c == 'B' {
        11
    } else if c == 'c' || c == 'C' {
        12
    } else if c == 'd' || c == 'D' {
        13
    } else if c == 'e' || c == 'E' {
        14
    } else if c == 'f' || c == 'F' {
        15
    } else {
        16
    }
}

/// Relies on char::from_u32: yields the character with the given code
/// point, which exists for every value outside the surrogate range and at
/// most 0x10FFFF.
#[verifier::external_body]
fn char_of_u32(v: u32) -> (c: char)
    requires
        v < 0xd800 || (0xe000 <= v <= 0x10ffff),
    ensures
        c == (v as char),
{
    char::from_u32(v).unwrap()
}

/// The position after the leading whitespace at `i`.
fn skip_ws_at(s: &Vec<char>, i: usize) -> (r: usize)
    requires
        i <= s.len(),
    ensures
        i <= r <= s@.len(),
        s@.skip(r as int) == skip_ws(s@.skip(i as int)),
{
    let mut j = i;
    while j < s.len() && (s[j] == ' ' || s[j] == '\t' || s[j] == '\n' || s[j] == '\r')
        invariant
            i <= j <= s.len(),
            skip_ws(s@.skip(i as int)) == skip_ws(s@.skip(j as int)),
        decreases s.len() - j,
    {
        proof {
            let tail = s@.skip(j as int);
            assert(tail[0] == s@[j as int]);
            assert(is_ws(tail[0]));
            assert(tail.drop_first() =~= s@.skip(j as int + 1));
        }
        j = j + 1;
    }
    proof {
        let tail = s@.skip(j as int);
        if j < s.len() {
            assert(tail[0] == s@[j as int]);
            assert(!is_ws(tail[0]));
        } else {
            assert(tail.len() == 0);
        }
        assert(skip_ws(tail) == tail);
    }
    j
}

/// Scans a JSON string body, starting just after the opening quote; on
/// success yields the decoded text and the position just after the closing
/// quote.
fn scan_string_body(s: &Vec<char>, start: usize) -> (r: Option<(Vec<char>, usize)>)
    requires
        start <= s.len(),
    ensures
        match r {
            Some(p) => start <= p.1 <= s@.len() && parse_string_body(s@.skip(start as int))
                == Some((p.0@, s@.skip(p.1 as int))),
            None => parse_string_body(s@.skip(start as int)) is None,
        },
{
    let mut out: Vec<char> = Vec::new();
    let mut j = start;
    proof {
        lemma_prepend_body_empty(parse_string_body(s@.skip(start as int)));
    }
    loop
        invariant
            start <= j <= s.len(),
            parse_string_body(s@.skip(start as int)) == prepend_body(
                out@,
                parse_string_body(s@.skip(j as int)),
            ),
        decreases s.len() - j,
    {
        let ghost tail = s@.skip(j as int);
        if j == s.len() {
            proof {
                assert(tail.len() == 0);
            }
            return None;
        }
        let c = s[j];
        proof {
            assert(tail[0] == c);
        }
        if c == '"' {
            proof {
                assert(tail.drop_first() =~= s@.skip(j as int + 1));
                assert(out@ + Seq::<char>::empty() =~= out@);
            }
            return Some((out, j + 1));
        } else if c == '\\' {
            if s.len() - j < 2 {
                proof {
                    assert(tail.len() < 2);
                }
                return None;
            }
            let e = s[j + 1];
            proof {
                assert(tail[1] == e);
            }
            if e == '"' || e == '\\' || e == '/' || e == 'b' || e == 'f' || e == 'n' || e == 'r'
                || e == 't' {
                let u = if e == '"' {
                    '"'
                } else if e == '\\' {
                    '\\'
                } else if e == '/' {
                    '/'
                } else if e == 'b' {
                    '\u{8}'
                } else if e == 'f' {
                    '\u{c}'
                } else if e == 'n' {
                    '\n'
                } else if e == 'r' {
                    '\r'
                } else {
                    '\t'
                };
                proof {
                    assert(short_escape(tail[1]));
                    assert(u == unescaped(e));
                    assert(tail.skip(2) =~= s@.skip(j as int + 2));
                    assert(parse_string_body(tail) == prepend_body(
                        seq![u],
                        parse_string_body(s@.skip(j as int + 2)),
                    ));
                    lemma_prepend_body_push(out@, u, parse_string_body(s@.skip(j as int + 2)));
                }
                out.push(u);
                j = j + 2;
            } else if e == 'u' {
                if s.len() - j < 6 {
                    proof {
                        assert(tail.len() < 6);
                    }
                    return None;
                }
                proof {
                    assert(tail[2] == s@[j + 2]);
                    assert(tail[3] == s@[j + 3]);
                    assert(tail[4] == s@[j + 4]);
                    assert(tail[5] == s@[j + 5]);
                }
                let h2 = hex_value(s[j + 2]);
                let h3 = hex_value(s[j + 3]);
                let h4 = hex_value(s[j + 4]);
                let h5 = hex_value(s[j + 5]);
                if h2 >= 16 || h3 >= 16 || h4 >= 16 || h5 >= 16 {
                    return None;
                }
                let v = ((h2 * 16 + h3) * 16 + h4) * 16 + h5;
                proof {
                    assert(v == hex4_val(tail[2], tail[3], tail[4], tail[5]));
                }
                if v >= 0xd800 && v <= 0xdfff {
                    return None;
                }
                let u = char_of_u32(v);
                proof {
                    assert(u == (hex4_val(tail[2], tail[3], tail[4], tail[5]) as char));
                    assert(tail.skip(6) =~= s@.skip(j as int + 6));
                    assert(parse_string_body(tail) == prepend_body(
                        seq![u],
                        parse_string_body(s@.skip(j as int + 6)),
                    ));
                    lemma_prepend_body_push(out@, u, parse_string_body(s@.skip(j as int + 6)));
                }
                out.push(u);
                j = j + 6;
            } else {
                return None;
            }
        } else {
            if (c as u32) < 32 {
                proof {
                    assert(!plain_char(tail[0]));
                }
                return None;
            }
            proof {
                assert(plain_char(tail[0]));
                assert(tail.drop_first() =~= s@.skip(j as int + 1));
                assert(parse_string_body(tail) == prepend_body(
                    seq![c],
                    parse_string_body(s@.skip(j as int + 1)),
                ));
                lemma_prepend_body_push(out@, c, parse_string_body(s@.skip(j as int + 1)));
            }
            out.push(c);
            j = j + 1;
        }
    }
}

/// Whether the decoded member name is `role`.
fn eq_role_name(v: &Vec<char>) -> (r: bool)
    ensures
        r == (v@ == role_name()),
{
    if v.len() == 4 && v[0] == 'r' && v[1] == 'o' && v[2] == 'l' && v[3] == 'e' {
        proof {
            assert(v@ =~= role_name());
        }
        true
    } else {
        false
    }
}

/// Whether the decoded member name is `content`.
fn eq_content_name(v: &Vec<char>) -> (r: bool)
    ensures
        r == (v@ == content_name()),
{
    if v.len() == 7 && v[0] == 'c' && v[1] == 'o' && v[2] == 'n' && v[3] == 't' && v[4] == 'e'
        && v[5] == 'n' && v[6] == 't' {
        proof {
            assert(v@ =~= content_name());
        }
        true
    } else {
        false
    }
}

/// Scans one object member beginning at `start`; on success yields the
/// decoded name, the decoded value, and the position just past the value's
/// closing quote.
fn scan_member(s: &Vec<char>, start: usize) -> (r: Option<(Vec<char>, Vec<char>, usize)>)
    requires
        start <= s.len(),
    ensures
        match r {
            Some(p) => start <= p.2 <= s@.len() && parse_member(s@.skip(start as int)) == Some(
                ((p.0@, p.1@), s@.skip(p.2 as int)),
            ),
            None => parse_member(s@.skip(start as int)) is None,
        },
{
    let ghost tail = s@.skip(start as int);
    if start == s.len() {
        proof {
            assert(tail.len() == 0);
        }
        return None;
    }
    proof {
        assert(tail[0] == s@[start as int]);
    }
    if s[start] != '"' {
        return None;
    }
    proof {
        assert(tail.drop_first() =~= s@.skip(start as int + 1));
    }
    match scan_string_body(s, start + 1) {
        None => None,
        Some((name, j)) => {
            let k = skip_ws_at(s, j);
            let ghost r1 = skip_ws(s@.skip(j as int));
            proof {
                assert(r1 == s@.skip(k as int));
            }
            if k == s.len() {
                proof {
                    assert(r1.len() == 0);
                }
                return None;
            }
            proof {
                assert(r1[0] == s@[k as int]);
            }
            if s[k] != ':' {
                return None;
            }
            proof {
                assert(r1.drop_first() =~= s@.skip(k as int + 1));
            }
            let k2 = skip_ws_at(s, k + 1);
            let ghost r2 = skip_ws(s@.skip(k as int + 1));
            proof {
                assert(r2 == s@.skip(k2 as int));
                assert(r2 == skip_ws(r1.drop_first()));
            }
            if k2 == s.len() {
                proof {
                    assert(r2.len() == 0);
                }
                return None;
            }
            proof {
                assert(r2[0] == s@[k2 as int]);
            }
            if s[k2] != '"' {
                return None;
            }
            proof {
                assert(r2.drop_first() =~= s@.skip(k2 as int + 1));
            }
            match scan_string_body(s, k2 + 1) {
                None => None,
                Some((value, end)) => Some((name, value, end)),
            }
        },
    }
}

/// Scans one message object beginning at `start`; on success yields the
/// message and the position just past its closing brace.
fn scan_message(s: &Vec<char>, start: usize) -> (r: Option<(Message, usize)>)
    requires
        start <= s.len(),
    ensures
        match r {
            Some(p) => start <= p.1 <= s@.len() && parse_message_at(s@.skip(start as int))
                == Some((p.0@, s@.skip(p.1 as int))),
            None => parse_message_at(s@.skip(start as int)) is None,
        },
{
    let ghost tail = s@.skip(start as int);
    if start == s.len() {
        proof {
            assert(tail.len() == 0);
        }
        return None;
    }
    proof {
        assert(tail[0] == s@[start as int]);
    }
    if s[start] != '{' {
        return None;
    }
    proof {
        assert(tail.drop_first() =~= s@.skip(start as int + 1));
    }
    let i1 = skip_ws_at(s, start + 1);
    proof {
        assert(s@.skip(i1 as int) == skip_ws(tail.drop_first()));
    }
    match scan_member(s, i1) {
        None => None,
        Some((n1, v1, j)) => {
            let k = skip_ws_at(s, j);
            let ghost r1 = skip_ws(s@.skip(j as int));
            proof {
                assert(r1 == s@.skip(k as int));
            }
            if k == s.len() {
                proof {
                    assert(r1.len() == 0);
                }
                return None;
            }
            proof {
                assert(r1[0] == s@[k as int]);
            }
            if s[k] != ',' {
                return None;
            }
            proof {
                assert(r1.drop_first() =~= s@.skip(k as int + 1));
            }
            let i2 = skip_ws_at(s, k + 1);
            proof {
                assert(s@.skip(i2 as int) == skip_ws(r1.drop_first()));
            }
            match scan_member(s, i2) {
                None => None,
                Some((n2, v2, j2)) => {
                    let k2 = skip_ws_at(s, j2);
                    let ghost r2 = skip_ws(s@.skip(j2 as int));
                    proof {
                        assert(r2 == s@.skip(k2 as int));
                    }
                    if k2 == s.len() {
                        proof {
                            assert(r2.len() == 0);
                        }
                        return None;
                    }
                    proof {
                        assert(r2[0] == s@[k2 as int]);
                    }
                    if s[k2] != '}' {
                        return None;
                    }
                    proof {
                        assert(r2.drop_first() =~= s@.skip(k2 as int + 1));
                    }
                    let n1_role = eq_role_name(&n1);
                    let n1_content = eq_content_name(&n1);
                    let n2_role = eq_role_name(&n2);
                    let n2_content = eq_content_name(&n2);
                    if n1_role && n2_content {
                        let role = chars_to_string(&v1);
                        let content = chars_to_string(&v2);
                        Some((Message { role, content }, k2 + 1))
                    } else if n1_content && n2_role {
                        let role = chars_to_string(&v2);
                        let content = chars_to_string(&v1);
                        Some((Message { role, content }, k2 + 1))
                    } else {
                        None
                    }
                },
            }
        },
    }
}

/// `r` with the messages `p` prepended on success.
spec fn prepend_msgs(p: Seq<MessageView>, r: Option<Seq<MessageView>>) -> Option<
    Seq<MessageView>,
> {
    match r {
        None => None,
        Some(ms) => Some(p + ms),
    }
}

proof fn lemma_prepend_msgs_empty(r: Option<Seq<MessageView>>)
    ensures
        prepend_msgs(Seq::empty(), r) == r,
{
    match r {
        None => {},
        Some(ms) => {
            assert(Seq::<MessageView>::empty() + ms =~= ms);
        },
    }
}

proof fn lemma_prepend_msgs_push(p: Seq<MessageView>, m: MessageView, r: Option<Seq<MessageView>>)
    ensures
        prepend_msgs(p, prepend_msgs(seq![m], r)) == prepend_msgs(p.push(m), r),
{
    match r {
        None => {},
        Some(ms) => {
            assert(p + (seq![m] + ms) =~= p.push(m) + ms);
        },
    }
}

proof fn lemma_views_push(msgs: Seq<Message>, m: Message)
    ensures
        views(msgs.push(m)) == views(msgs).push(m@),
{
    assert(views(msgs.push(m)) =~= views(msgs).push(m@));
}

/// Decodes a transcript from JSON text.
///
/// Yields the messages exactly when the text is a JSON array of
/// `{role, content}` objects, as [`spec_decode`] defines it, and nothing
/// otherwise.
pub fn decode_transcript(text: &str) -> (r: Option<Vec<Message>>)
    ensures
        match r {
            Some(v) => spec_decode(text@) == Some(views(v@)),
            None => spec_decode(text@) is None,
        },
{
    let cs = str_chars(text);
    proof {
        assert(cs@.skip(0) =~= cs@);
    }
    let t0 = skip_ws_at(&cs, 0);
    let ghost t = skip_ws(cs@);
    proof {
        assert(t == cs@.skip(t0 as int));
    }
    if t0 == cs.len() {
        proof {
            assert(t.len() == 0);
        }
        return None;
    }
    proof {
        assert(t[0] == cs@[t0 as int]);
    }
    if cs[t0] != '[' {
        return None;
    }
    proof {
        assert(t.drop_first() =~= cs@.skip(t0 as int + 1));
    }
    let u0 = skip_ws_at(&cs, t0 + 1);
    let ghost u = skip_ws(t.drop_first());
    proof {
        assert(u == cs@.skip(u0 as int));
    }
    if u0 < cs.len() && cs[u0] == ']' {
        proof {
            assert(u[0] == ']');
            assert(u.drop_first() =~= cs@.skip(u0 as int + 1));
        }
        let e0 = skip_ws_at(&cs, u0 + 1);
        if e0 == cs.len() {
            let empty: Vec<Message> = Vec::new();
            proof {
                assert(skip_ws(u.drop_first()).len() == 0);
                assert(views(empty@) =~= Seq::<MessageView>::empty());
            }
            return Some(empty);
        } else {
            proof {
                assert(skip_ws(u.drop_first()).len() > 0);
            }
            return None;
        }
    }
    proof {
        if u0 < cs.len() {
            assert(u[0] == cs@[u0 as int]);
        } else {
            assert(u.len() == 0);
        }
        assert(spec_decode(cs@) == parse_items(u));
    }
    let mut msgs: Vec<Message> = Vec::new();
    let mut i: usize = u0;
    proof {
        lemma_prepend_msgs_empty(parse_items(cs@.skip(u0 as int)));
        assert(views(msgs@) =~= Seq::<MessageView>::empty());
    }
    loop
        invariant
            u0 <= i <= cs.len(),
            cs@ == text@,
            spec_decode(cs@) == parse_items(cs@.skip(u0 as int)),
            parse_items(cs@.skip(u0 as int)) == prepend_msgs(
                views(msgs@),
                parse_items(cs@.skip(i as int)),
            ),
        decreases cs.len() - i,
    {
        let ghost here = cs@.skip(i as int);
        match scan_message(&cs, i) {
            None => {
                return None;
            },
            Some((m, j)) => {
                let ghost old_msgs = msgs@;
                proof {
                    lemma_views_push(old_msgs, m);
                }
                msgs.push(m);
                let k = skip_ws_at(&cs, j);
                let ghost rr = skip_ws(cs@.skip(j as int));
                proof {
                    assert(rr == cs@.skip(k as int));
                }
                if k < cs.len() && cs[k] == ']' {
                    proof {
                        assert(rr[0] == ']');
                        assert(rr.drop_first() =~= cs@.skip(k as int + 1));
                    }
                    let e = skip_ws_at(&cs, k + 1);
                    if e == cs.len() {
                        proof {
                            assert(skip_ws(rr.drop_first()).len() == 0);
                            assert(parse_items(here) == Some(seq![m@]));
                            assert(msgs@ == old_msgs.push(m));
                            assert(views(old_msgs) + seq![m@] =~= views(msgs@));
                            assert(parse_items(cs@.skip(u0 as int)) == Some(views(msgs@)));
                        }
                        return Some(msgs);
                    } else {
                        proof {
                            assert(skip_ws(rr.drop_first()).len() > 0);
                            assert(parse_items(here) is None);
                        }
                        return None;
                    }
                } else if k < cs.len() && cs[k] == ',' {
                    proof {
                        assert(rr[0] == ',');
                        assert(rr.drop_first() =~= cs@.skip(k as int + 1));
                    }
                    let inext = skip_ws_at(&cs, k + 1);
                    proof {
                        assert(cs@.skip(inext as int) == skip_ws(rr.drop_first()));
                        assert(parse_items(here) == prepend_msgs(
                            seq![m@],
                            parse_items(cs@.skip(inext as int)),
                        ));
                        lemma_prepend_msgs_push(
                            views(old_msgs),
                            m@,
                            parse_items(cs@.skip(inext as int)),
                        );
                        assert(msgs@ == old_msgs.push(m));
                    }
                    i = inext;
                } else {
                    proof {
                        if k < cs.len() {
                            assert(rr[0] == cs@[k as int]);
                        } else {
                            assert(rr.len() == 0);
                        }
                        assert(parse_items(here) is None);
                    }
                    return None;
                }
            },
        }
    }
}

proof fn lemma_escape_seq_push(s: Seq<char>, c: char)
    ensures
        escape_seq(s.push(c)) == escape_seq(s) + escape_char(c),
    decreases s.len(),
{
    if s.len() == 0 {
        assert(s.push(c)[0] == c);
        assert(s.push(c).drop_first() =~= Seq::<char>::empty());
        assert(escape_seq(Seq::<char>::empty()) == Seq::<char>::empty());
        assert(escape_seq(s.push(c)) == escape_char(c) + Seq::<char>::empty());
        assert(escape_char(c) + Seq::<char>::empty() =~= escape_char(c));
        assert(escape_seq(s) == Seq::<char>::empty());
        assert(Seq::<char>::empty() + escape_char(c) =~= escape_char(c));
    } else {
        assert(s.push(c)[0] == s[0]);
        assert(s.push(c).drop_first() =~= s.drop_first().push(c));
        lemma_escape_seq_push(s.drop_first(), c);
        assert(escape_seq(s.push(c)) == escape_char(s[0]) + (escape_seq(s.drop_first())
            + escape_char(c)));
        assert(escape_char(s[0]) + (escape_seq(s.drop_first()) + escape_char(c)) =~= (escape_char(
            s[0],
        ) + escape_seq(s.drop_first())) + escape_char(c));
        assert(escape_seq(s) == escape_char(s[0]) + escape_seq(s.drop_first()));
    }
}

proof fn lemma_encode_items_push(ms: Seq<MessageView>, m: MessageView)
    ensures
        spec_encode_items(ms.push(m)) == if ms.len() == 0 {
            spec_encode_message(m)
        } else {
            spec_encode_items(ms) + seq![','] + spec_encode_message(m)
        },
    decreases ms.len(),
{
    let ext = ms.push(m);
    if ms.len() == 0 {
        assert(ext.len() == 1);
        assert(ext[0] == m);
    } else if ms.len() == 1 {
        assert(ext.len() == 2);
        assert(ext[0] == ms[0]);
        assert(ext.drop_first() =~= seq![m]);
        assert(spec_encode_items(seq![m]) == spec_encode_message(m));
        assert(spec_encode_message(ms[0]) + seq![','] + spec_encode_message(m) =~= spec_encode_items(
            ms,
        ) + seq![','] + spec_encode_message(m));
    } else {
        assert(ext[0] == ms[0]);
        assert(ext.drop_first() =~= ms.drop_first().push(m));
        lemma_encode_items_push(ms.drop_first(), m);
        assert(spec_encode_message(ext[0]) + seq![','] + (spec_encode_items(ms.drop_first())
            + seq![','] + spec_encode_message(m)) =~= (spec_encode_message(ms[0]) + seq![',']
            + spec_encode_items(ms.drop_first())) + seq![','] + spec_encode_message(m));
    }
}

/// The lower-case hex digit for a value below sixteen.
fn hex_digit_char(v: u32) -> (c: char)
    requires
        v < 16,
    ensures
        c == hex_digit(v as nat),
{
    if v == 0 {
        '0'
    } else if v == 1 {
        '1'
    } else if v == 2 {
        '2'
    } else if v == 3 {
        '3'
    } else if v == 4 {
        '4'
    } else if v == 5 {
        '5'
    } else if v == 6 {
        '6'
    } else if v == 7 {
        '7'
    } else if v == 8 {
        '8'
    } else if v == 9 {
        '9'
    } else if v == 10 {
        'a'
    } else if v == 11 {
        'b'
    } else if v == 12 {
        'c'
    } else if v == 13 {
        'd'
    } else if v == 14 {
        'e'
    } else {
        'f'
    }
}

/// Appends the canonical escape of `text` to `out`.
fn escape_into(out: &mut Vec<char>, text: &str)
    ensures
        final(out)@ == old(out)@ + escape_seq(text@),
{
    let cs = str_chars(text);
    let ghost base = out@;
    let mut k: usize = 0;
    proof {
        assert(cs@.take(0) =~= Seq::<char>::empty());
        assert(base + Seq::<char>::empty() =~= base);
    }
    while k < cs.len()
        invariant
            k <= cs.len(),
            cs@ == text@,
            out@ == base + escape_seq(cs@.take(k as int)),
        decreases cs.len() - k,
    {
        let c = cs[k];
        let ghost pre = out@;
        if c == '"' {
            out.push('\\');
            out.push('"');
        } else if c == '\\' {
            out.push('\\');
            out.push('\\');
        } else if c == '\n' {
            out.push('\\');
            out.push('n');
        } else if c == '\r' {
            out.push('\\');
            out.push('r');
        } else if c == '\t' {
            out.push('\\');
            out.push('t');
        } else {
            let v = c as u32;
            if v < 32 {
                out.push('\\');
                out.push('u');
                out.push('0');
                out.push('0');
                out.push(hex_digit_char(v / 16));
                out.push(hex_digit_char(v % 16));
            } else {
                out.push(c);
            }
        }
        proof {
            assert(out@ =~= pre + escape_char(c));
            lemma_escape_seq_push(cs@.take(k as int), c);
            assert(cs@.take(k as int).push(c) =~= cs@.take(k as int + 1));
            assert(base + (escape_seq(cs@.take(k as int)) + escape_char(c)) =~= (base + escape_seq(
                cs@.take(k as int),
            )) + escape_char(c));
        }
        k = k + 1;
    }
    proof {
        assert(cs@.take(cs@.len() as int) =~= cs@);
    }
}

/// Appends the canonical encoding of one message to `out`.
fn encode_message_into(out: &mut Vec<char>, m: &Message)
    ensures
        final(out)@ == old(out)@ + spec_encode_message(m@),
{
    let ghost base = out@;
    out.push('{');
    out.push('"');
    out.push('r');
    out.push('o');
    out.push('l');
    out.push('e');
    out.push('"');
    out.push(':');
    out.push('"');
    proof {
        assert(out@ =~= base + role_key());
    }
    escape_into(out, m.role.as_str());
    out.push('"');
    out.push(',');
    out.push('"');
    out.push('c');
    out.push('o');
    out.push('n');
    out.push('t');
    out.push('e');
    out.push('n');
    out.push('t');
    out.push('"');
    out.push(':');
    out.push('"');
    proof {
        assert(out@ =~= base + role_key() + escape_seq(m.role@) + seq!['"'] + content_key());
    }
    escape_into(out, m.content.as_str());
    out.push('"');
    out.push('}');
    proof {
        assert(out@ =~= base + spec_encode_message(m@));
    }
}

/// Encodes a transcript as its canonical JSON text.
pub fn encode_transcript(msgs: &Vec<Message>) -> (r: String)
    ensures
        r@ == spec_encode(views(msgs@)),
{
    let mut out: Vec<char> = Vec::new();
    out.push('[');
    let mut k: usize = 0;
    proof {
        assert(views(msgs@.take(0)) =~= Seq::<MessageView>::empty());
        assert(out@ =~= seq!['['] + spec_encode_items(views(msgs@.take(0))));
    }
    while k < msgs.len()
        invariant
            k <= msgs.len(),
            out@ == seq!['['] + spec_encode_items(views(msgs@.take(k as int))),
        decreases msgs.len() - k,
    {
        let ghost pre = out@;
        let ghost done = views(msgs@.take(k as int));
        if k > 0 {
            out.push(',');
        }
        encode_message_into(&mut out, &msgs[k]);
        proof {
            lemma_encode_items_push(done, msgs@[k as int]@);
            assert(views(msgs@.take(k as int + 1)) =~= done.push(msgs@[k as int]@));
            if k == 0 {
                assert(done.len() == 0);
                assert(out@ =~= seq!['['] + spec_encode_items(views(msgs@.take(k as int + 1))));
            } else {
                assert(done.len() > 0);
                assert(out@ =~= seq!['['] + (spec_encode_items(done) + seq![',']
                    + spec_encode_message(msgs@[k as int]@)));
                assert(out@ =~= seq!['['] + spec_encode_items(views(msgs@.take(k as int + 1))));
            }
        }
        k = k + 1;
    }
    out.push(']');
    proof {
        assert(msgs@.take(msgs@.len() as int) =~= msgs@);
        assert(out@ =~= spec_encode(views(msgs@)));
    }
    chars_to_string(&out)
}

} // verus!
