//! JSON: what a document says, and how it is written down.
use vstd::prelude::*;

use crate::text;

verus! {

/// What a JSON document says. Of a number only this is kept: its value, if it is an unsigned
/// integer of at most 64 bits.
pub enum Json {
    Null,
    Bool(bool),
    Number(Option<u64>),
    Text(Seq<char>),
    Array(Seq<Json>),
    Object(Map<Seq<char>, Json>),
}

/// A JSON document as it is written down, with the fields of an object in order.
pub enum Doc {
    Number(u64),
    Text(Seq<char>),
    True,
    Array(Seq<Doc>),
    Object(Seq<(Seq<char>, Doc)>),
}

// ---- Writing ----------------------------------------------------------------------------------------

/// A digit of a hexadecimal number.
pub open spec fn hex_digit(d: int) -> char {
    if d < 10 {
        (48 + d) as char
    } else {
        (87 + d) as char
    }
}

/// A character as it is written inside a string.
pub open spec fn escaped_char(c: char) -> Seq<char> {
    if c == '"' {
        seq!['\\', '"']
    } else if c == '\\' {
        seq!['\\', '\\']
    } else if c == '\n' {
        seq!['\\', 'n']
    } else if c == '\r' {
        seq!['\\', 'r']
    } else if c == '\t' {
        seq!['\\', 't']
    } else if (c as u32) < 32 {
        seq!['\\', 'u', '0', '0', hex_digit(c as u32 as int / 16), hex_digit(c as u32 as int % 16)]
    } else {
        seq![c]
    }
}

pub open spec fn escaped(s: Seq<char>) -> Seq<char>
    decreases s.len(),
{
    if s.len() == 0 {
        Seq::empty()
    } else {
        escaped(s.drop_last()) + escaped_char(s.last())
    }
}

/// A string between quotes.
pub open spec fn quoted(s: Seq<char>) -> Seq<char> {
    seq!['"'] + escaped(s) + seq!['"']
}

/// How a document is written.
pub open spec fn rendered(d: Doc) -> Seq<char>
    decreases d,
{
    match d {
        Doc::Number(n) => text::decimal(n as nat),
        Doc::Text(s) => quoted(s),
        Doc::True => "true"@,
        Doc::Array(items) => seq!['['] + rendered_items(items, items.len() as int) + seq![']'],
        Doc::Object(fields) => seq!['{'] + rendered_fields(fields, fields.len() as int) + seq!['}'],
    }
}

/// How the first `k` items of an array are written.
pub open spec fn rendered_items(items: Seq<Doc>, k: int) -> Seq<char>
    decreases items, k,
{
    if k <= 0 || k > items.len() {
        Seq::empty()
    } else if k == 1 {
        rendered(items[0])
    } else {
        rendered_items(items, k - 1) + seq![','] + rendered(items[k - 1])
    }
}

/// How the first `k` fields of an object are written.
pub open spec fn rendered_fields(fields: Seq<(Seq<char>, Doc)>, k: int) -> Seq<char>
    decreases fields, k,
{
    if k <= 0 || k > fields.len() {
        Seq::empty()
    } else {
        let field = quoted(fields[k - 1].0) + seq![':'] + rendered(fields[k - 1].1);
        if k == 1 {
            field
        } else {
            rendered_fields(fields, k - 1) + seq![','] + field
        }
    }
}

// ---- Reading ----------------------------------------------------------------------------------------

/// The value of a hexadecimal digit.
pub open spec fn hex_value(c: char) -> Option<int> {
    if '0' <= c <= '9' {
        Some(c as int - '0' as int)
    } else if 'a' <= c <= 'f' {
        Some(c as int - 'a' as int + 10)
    } else if 'A' <= c <= 'F' {
        Some(c as int - 'A' as int + 10)
    } else {
        None
    }
}

/// The character that a backslash and a character behind it stand for, `u` aside.
pub open spec fn short_escape(c: char) -> Option<char> {
    if c == '"' || c == '\\' || c == '/' {
        Some(c)
    } else if c == 'n' {
        Some('\n')
    } else if c == 'r' {
        Some('\r')
    } else if c == 't' {
        Some('\t')
    } else {
        None
    }
}

/// The text that stands between the quotes of a JSON string, read from its start: the backslash escapes
/// are undone, and every other character is taken as it is. Nothing, where a character may not stand there;
/// of the escapes by code only those of the first 256 characters are read.
pub open spec fn unescaped(t: Seq<char>) -> Option<Seq<char>>
    decreases t.len(),
{
    if t.len() == 0 {
        Some(Seq::empty())
    } else if t[0] == '\\' {
        if t.len() >= 6 && t[1] == 'u' && t[2] == '0' && t[3] == '0' && hex_value(t[4]) is Some
            && hex_value(t[5]) is Some {
            let c = (16 * hex_value(t[4])->0 + hex_value(t[5])->0) as char;
            match unescaped(t.skip(6)) {
                Some(rest) => Some(seq![c] + rest),
                None => None,
            }
        } else if t.len() >= 2 && short_escape(t[1]) is Some {
            match unescaped(t.skip(2)) {
                Some(rest) => Some(seq![short_escape(t[1])->0] + rest),
                None => None,
            }
        } else {
            None
        }
    } else if t[0] == '"' || (t[0] as u32) < 32 {
        None
    } else {
        match unescaped(t.skip(1)) {
            Some(rest) => Some(seq![t[0]] + rest),
            None => None,
        }
    }
}

/// `t` is a JSON string that stands for `s`.
pub open spec fn spells_text(t: Seq<char>, s: Seq<char>) -> bool {
    &&& t.len() >= 2
    &&& t[0] == '"'
    &&& t.last() == '"'
    &&& unescaped(t.subrange(1, t.len() - 1)) == Some(s)
}

/// The value of digits, the last of which counts ones.
pub open spec fn digits_worth(t: Seq<char>) -> int
    decreases t.len(),
{
    if t.len() == 0 {
        0
    } else {
        10 * digits_worth(t.drop_last()) + (t.last() as int - '0' as int)
    }
}

/// `t` is a JSON number that stands for `n`: digits, without a zero in front.
pub open spec fn spells_number(t: Seq<char>, n: int) -> bool {
    &&& t.len() > 0
    &&& forall|k: int| 0 <= k < t.len() ==> '0' <= #[trigger] t[k] <= '9'
    &&& t[0] == '0' ==> t.len() == 1
    &&& digits_worth(t) == n
}

/// `t` is a JSON text, without white space, that stands for the document `d`.
pub open spec fn spells(t: Seq<char>, d: Doc) -> bool
    decreases d,
{
    match d {
        Doc::Number(n) => spells_number(t, n as int),
        Doc::Text(s) => spells_text(t, s),
        Doc::True => t == seq!['t', 'r', 'u', 'e'],
        Doc::Array(items) => t.len() >= 2 && t[0] == '[' && t.last() == ']' && spells_items(
            t.subrange(1, t.len() - 1),
            items,
            items.len() as int,
        ),
        Doc::Object(fields) => t.len() >= 2 && t[0] == '{' && t.last() == '}' && spells_fields(
            t.subrange(1, t.len() - 1),
            fields,
            fields.len() as int,
        ),
    }
}

/// `t` holds the first `k` items, with commas between them.
pub open spec fn spells_items(t: Seq<char>, items: Seq<Doc>, k: int) -> bool
    decreases items, k,
{
    if k <= 0 || k > items.len() {
        t.len() == 0
    } else if k == 1 {
        spells(t, items[0])
    } else {
        exists|cut: int|
            0 <= cut < t.len() && #[trigger] t[cut] == ',' && spells_items(
                t.take(cut),
                items,
                k - 1,
            ) && spells(t.skip(cut + 1), items[k - 1])
    }
}

/// `t` holds the first `k` fields, with commas between them and a colon behind each name.
pub open spec fn spells_fields(t: Seq<char>, fields: Seq<(Seq<char>, Doc)>, k: int) -> bool
    decreases fields, k,
{
    if k <= 0 || k > fields.len() {
        t.len() == 0
    } else {
        exists|from: int, colon: int|
            #![trigger t.subrange(from, colon)]
            0 <= from <= colon < t.len() && t[colon] == ':' && spells_text(
                t.subrange(from, colon),
                fields[k - 1].0,
            ) && spells(t.skip(colon + 1), fields[k - 1].1) && if k == 1 {
                from == 0
            } else {
                from > 0 && t[from - 1] == ',' && spells_fields(t.take(from - 1), fields, k - 1)
            }
    }
}

// ---- Meaning ----------------------------------------------------------------------------------------

/// What a document says.
pub open spec fn meaning(d: Doc) -> Json
    decreases d,
{
    match d {
        Doc::Number(n) => Json::Number(Some(n)),
        Doc::Text(s) => Json::Text(s),
        Doc::True => Json::Bool(true),
        Doc::Array(items) => Json::Array(item_meanings(items, items.len() as int)),
        Doc::Object(fields) => Json::Object(field_meanings(fields, fields.len() as int)),
    }
}

pub open spec fn item_meanings(items: Seq<Doc>, k: int) -> Seq<Json>
    decreases items, k,
{
    if k <= 0 || k > items.len() {
        Seq::empty()
    } else {
        item_meanings(items, k - 1).push(meaning(items[k - 1]))
    }
}

pub open spec fn field_meanings(fields: Seq<(Seq<char>, Doc)>, k: int) -> Map<Seq<char>, Json>
    decreases fields, k,
{
    if k <= 0 || k > fields.len() {
        Map::empty()
    } else {
        field_meanings(fields, k - 1).insert(fields[k - 1].0, meaning(fields[k - 1].1))
    }
}

/// How deep arrays and objects are nested.
pub open spec fn depth(d: Doc) -> nat
    decreases d,
{
    match d {
        Doc::Array(items) => 1 + items_depth(items, items.len() as int),
        Doc::Object(fields) => 1 + fields_depth(fields, fields.len() as int),
        _ => 0,
    }
}

pub open spec fn items_depth(items: Seq<Doc>, k: int) -> nat
    decreases items, k,
{
    if k <= 0 || k > items.len() {
        0
    } else {
        let before = items_depth(items, k - 1);
        let here = depth(items[k - 1]);
        if here > before {
            here
        } else {
            before
        }
    }
}

pub open spec fn fields_depth(fields: Seq<(Seq<char>, Doc)>, k: int) -> nat
    decreases fields, k,
{
    if k <= 0 || k > fields.len() {
        0
    } else {
        let before = fields_depth(fields, k - 1);
        let here = depth(fields[k - 1].1);
        if here > before {
            here
        } else {
            before
        }
    }
}

pub proof fn lemma_item_meanings(items: Seq<Doc>, k: int)
    requires
        0 <= k <= items.len(),
    ensures
        item_meanings(items, k).len() == k,
        forall|i: int| 0 <= i < k ==> #[trigger] item_meanings(items, k)[i] == meaning(items[i]),
    decreases k,
{
    if k > 0 {
        lemma_item_meanings(items, k - 1);
    }
}

// ---- Writing strings ----------------------------------------------------------------------------------

fn hex_char(d: u32) -> (c: char)
    requires
        d < 16,
    ensures
        c == hex_digit(d as int),
{
    if d < 10 {
        (48 + d) as u8 as char
    } else {
        (87 + d) as u8 as char
    }
}

/// Append a string between quotes.
pub fn write_json_string(s: &str, out: &mut String)
    ensures
        final(out)@ == old(out)@ + quoted(s@),
{
    let ghost start = out@;
    let chars = text::chars_of(s);
    out.push('"');
    let mut i: usize = 0;
    assert(chars@.take(0) =~= Seq::empty());
    assert(start.push('"') =~= start + seq!['"'] + escaped(chars@.take(0)));
    while i < chars.len()
        invariant
            i <= chars.len(),
            out@ == start + seq!['"'] + escaped(chars@.take(i as int)),
        decreases chars.len() - i,
    {
        let c = chars[i];
        let ghost before = out@;
        proof {
            assert(chars@.take(i as int + 1).drop_last() =~= chars@.take(i as int));
        }
        if c == '"' {
            out.push('\\');
            out.push('"');
        } else if c == '\\' {
            out.push('\\');
            out.push('\\');
        } else if c == '\n' {
            out.push('\\');
            out.push('n');
        } else if c == '\r' {
            out.push('\\');
            out.push('r');
        } else if c == '\t' {
            out.push('\\');
            out.push('t');
        } else if (c as u32) < 32 {
            let code: u32 = c as u32;
            out.push('\\');
            out.push('u');
            out.push('0');
            out.push('0');
            out.push(hex_char(code / 16));
            out.push(hex_char(code % 16));
        } else {
            out.push(c);
        }
        assert(out@ =~= before + escaped_char(c));
        assert(out@ =~= start + seq!['"'] + escaped(chars@.take(i as int + 1)));
        i += 1;
    }
    assert(chars@.take(i as int) =~= chars@);
    out.push('"');
    assert(out@ =~= start + quoted(s@));
}

// ---- What is written can be read ------------------------------------------------------------------------

proof fn lemma_unescape_one(c: char, t: Seq<char>)
    ensures
        unescaped(escaped_char(c) + t) == match unescaped(t) {
            Some(rest) => Some(seq![c] + rest),
            None => None,
        },
{
    let e = escaped_char(c);
    let whole = e + t;
    assert(whole.skip(e.len() as int) =~= t);
    assert(whole[0] == e[0]);
    if e.len() > 1 {
        assert(whole[1] == e[1]);
    }
    if e.len() == 6 {
        assert(whole[2] == e[2] && whole[3] == e[3] && whole[4] == e[4] && whole[5] == e[5]);
        let code = c as u32 as int;
        assert(hex_value(e[4]) == Some(code / 16));
        assert(hex_value(e[5]) == Some(code % 16));
        assert(16 * (code / 16) + code % 16 == code);
    }
}

proof fn lemma_escaped_first(c: char, s: Seq<char>)
    ensures
        escaped(seq![c] + s) == escaped_char(c) + escaped(s),
    decreases s.len(),
{
    let whole = seq![c] + s;
    if s.len() == 0 {
        assert(whole.drop_last() =~= Seq::empty());
        assert(whole.last() == c);
        assert(escaped(whole.drop_last()) =~= Seq::empty());
        assert(escaped(s) =~= Seq::empty());
        assert(escaped(whole) =~= escaped_char(c) + escaped(s));
    } else {
        assert(whole.drop_last() =~= seq![c] + s.drop_last());
        assert(whole.last() == s.last());
        lemma_escaped_first(c, s.drop_last());
        assert(escaped(whole) =~= escaped_char(c) + escaped(s));
    }
}

/// A text comes back from its escaped form.
pub proof fn law_escapes_are_undone(s: Seq<char>)
    ensures
        unescaped(escaped(s)) == Some(s),
    decreases s.len(),
{
    if s.len() > 0 {
        let rest = s.skip(1);
        assert(seq![s[0]] + rest =~= s);
        lemma_escaped_first(s[0], rest);
        law_escapes_are_undone(rest);
        lemma_unescape_one(s[0], escaped(rest));
    } else {
        assert(escaped(s) =~= Seq::empty());
    }
}

/// A reader of JSON strings gets back the text that was written: whoever drops the quotes, undoes the
/// escapes and takes every other character as it is has what `quoted` was given. So two texts are never
/// written the same.
pub proof fn law_strings_come_back(s: Seq<char>, other: Seq<char>)
    ensures
        spells_text(quoted(s), s),
        quoted(s) == quoted(other) ==> s == other,
{
    let q = quoted(s);
    assert(q.subrange(1, q.len() - 1) =~= escaped(s));
    law_escapes_are_undone(s);
    let r = quoted(other);
    assert(r.subrange(1, r.len() - 1) =~= escaped(other));
    law_escapes_are_undone(other);
}

/// A character from the space on that is neither a quote nor a backslash is written as itself.
pub proof fn law_plain_characters_stand_for_themselves(s: Seq<char>)
    requires
        forall|k: int|
            0 <= k < s.len() ==> (#[trigger] s[k] as u32) >= 32 && s[k] != '"' && s[k] != '\\',
    ensures
        quoted(s) == seq!['"'] + s + seq!['"'],
    decreases s.len(),
{
    if s.len() > 0 {
        let less = s.drop_last();
        assert forall|k: int| 0 <= k < less.len() implies (#[trigger] less[k] as u32) >= 32 && less[k]
            != '"' && less[k] != '\\' by {
            assert(less[k] == s[k]);
        }
        law_plain_characters_stand_for_themselves(less);
        let q = quoted(less);
        assert(q.subrange(1, q.len() - 1) =~= escaped(less));
        assert((seq!['"'] + less + seq!['"']).subrange(1, q.len() - 1) =~= less);
        assert((s[s.len() - 1] as u32) >= 32);
        assert(escaped(less) =~= less);
        assert(escaped_char(s.last()) =~= seq![s.last()]);
        assert(less + seq![s.last()] =~= s);
        assert(quoted(s) =~= seq!['"'] + s + seq!['"']);
    } else {
        assert(escaped(s) =~= s);
    }
}

/// A number comes back from its digits.
pub proof fn law_numbers_come_back(n: nat)
    ensures
        spells_number(text::decimal(n), n as int),
        n > 0 ==> text::decimal(n)[0] != '0',
    decreases n,
{
    let t = text::decimal(n);
    if n >= 10 {
        law_numbers_come_back(n / 10);
        let before = text::decimal(n / 10);
        assert(t.drop_last() =~= before);
        assert forall|k: int| 0 <= k < t.len() implies '0' <= #[trigger] t[k] <= '9' by {
            if k < before.len() {
                assert(t[k] == before[k]);
            }
        }
        assert(t[0] == before[0]);
    } else {
        assert(t.drop_last() =~= Seq::empty());
        assert(digits_worth(t.drop_last()) == 0);
    }
}

/// A document as it is written here is a JSON text that stands for the document.
pub proof fn law_documents_come_back(d: Doc)
    ensures
        spells(rendered(d), d),
    decreases d,
{
    match d {
        Doc::Number(n) => {
            law_numbers_come_back(n as nat);
        },
        Doc::Text(s) => {
            law_strings_come_back(s, s);
        },
        Doc::True => {
            reveal_strlit("true");
            assert("true"@ =~= seq!['t', 'r', 'u', 'e']);
        },
        Doc::Array(items) => {
            let t = rendered(d);
            let inner = rendered_items(items, items.len() as int);
            assert(t.subrange(1, t.len() - 1) =~= inner);
            lemma_items_come_back(items, items.len() as int);
        },
        Doc::Object(fields) => {
            let t = rendered(d);
            let inner = rendered_fields(fields, fields.len() as int);
            assert(t.subrange(1, t.len() - 1) =~= inner);
            lemma_fields_come_back(fields, fields.len() as int);
        },
    }
}

proof fn lemma_items_come_back(items: Seq<Doc>, k: int)
    requires
        0 <= k <= items.len(),
    ensures
        spells_items(rendered_items(items, k), items, k),
    decreases items, k,
{
    if k == 1 {
        law_documents_come_back(items[0]);
    } else if k > 1 {
        let before = rendered_items(items, k - 1);
        let last = rendered(items[k - 1]);
        let t = rendered_items(items, k);
        let cut = before.len() as int;
        lemma_items_come_back(items, k - 1);
        law_documents_come_back(items[k - 1]);
        assert(t[cut] == ',');
        assert(t.take(cut) =~= before);
        assert(t.skip(cut + 1) =~= last);
    }
}

proof fn lemma_fields_come_back(fields: Seq<(Seq<char>, Doc)>, k: int)
    requires
        0 <= k <= fields.len(),
    ensures
        spells_fields(rendered_fields(fields, k), fields, k),
    decreases fields, k,
{
    if k > 0 {
        let name = fields[k - 1].0;
        let key = quoted(name);
        let value = rendered(fields[k - 1].1);
        let t = rendered_fields(fields, k);
        law_strings_come_back(name, name);
        law_documents_come_back(fields[k - 1].1);
        if k == 1 {
            let colon = key.len() as int;
            assert(t[colon] == ':');
            assert(t.subrange(0, colon) =~= key);
            assert(t.skip(colon + 1) =~= value);
        } else {
            let before = rendered_fields(fields, k - 1);
            let from: int = before.len() as int + 1;
            let colon: int = from + key.len() as int;
            lemma_fields_come_back(fields, k - 1);
            assert(t[from - 1] == ',');
            assert(t[colon] == ':');
            assert(t.subrange(from, colon) =~= key);
            assert(t.skip(colon + 1) =~= value);
            assert(t.take(from - 1) =~= before);
        }
    }
}

} // verus!
