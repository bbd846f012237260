//! Text helpers: characters of a string, the order of names, and numbers in words.
use vstd::prelude::*;

verus! {

/// `String::push` appends one character to the end of the string.
pub assume_specification[ String::push ](s: &mut String, c: char)
    ensures
        final(s)@ == old(s)@.push(c),
;

/// The characters of a text, if there is one.
pub open spec fn chars_if(line: Option<String>) -> Option<Seq<char>> {
    match line {
        Some(line) => Some(line@),
        None => None,
    }
}

/// The characters of `text`, in order.
pub fn chars_of(text: &str) -> (chars: Vec<char>)
    ensures
        chars@ == text@,
{
    let mut chars: Vec<char> = Vec::new();
    for c in iter: text.chars()
        invariant
            iter.seq() == text@,
            chars@ == text@.take(iter.index() as int),
    {
        chars.push(c);
        assert(chars@ =~= text@.take(iter.index() as int + 1));
    }
    assert(text@.take(text@.len() as int) =~= text@);
    chars
}

/// The text made of the given characters.
pub fn text_of(chars: &Vec<char>) -> (text: String)
    ensures
        text@ == chars@,
{
    let mut text = String::new();
    let mut i: usize = 0;
    while i < chars.len()
        invariant
            i <= chars.len(),
            text@ == chars@.take(i as int),
        decreases chars.len() - i,
    {
        text.push(chars[i]);
        i += 1;
        assert(text@ =~= chars@.take(i as int));
    }
    assert(chars@.take(chars@.len() as int) =~= chars@);
    text
}

/// `a` comes before `b`, or is `b`, in the order of their code points: the order that strings
/// have, since the byte order of UTF-8 is the order of the code points.
pub open spec fn at_most(a: Seq<char>, b: Seq<char>) -> bool
    decreases a.len(),
{
    if a.len() == 0 {
        true
    } else if b.len() == 0 {
        false
    } else if a[0] != b[0] {
        a[0] < b[0]
    } else {
        at_most(a.drop_first(), b.drop_first())
    }
}

/// Whether `a` comes no later than `b`.
pub fn text_at_most(a: &str, b: &str) -> (yes: bool)
    ensures
        yes == at_most(a@, b@),
{
    let mut left = a.chars();
    let mut right = b.chars();
    let ghost mut x: Seq<char> = a@;
    let ghost mut y: Seq<char> = b@;
    loop
        invariant
            vstd::std_specs::iter::IteratorSpec::remaining(&left) == x,
            vstd::std_specs::iter::IteratorSpec::remaining(&right) == y,
            at_most(a@, b@) == at_most(x, y),
        decreases x.len(),
    {
        let c = left.next();
        let d = right.next();
        match c {
            None => {
                return true;
            },
            Some(c) => match d {
                None => {
                    return false;
                },
                Some(d) => {
                    if c != d {
                        return c < d;
                    }
                    proof {
                        x = x.drop_first();
                        y = y.drop_first();
                    }
                },
            },
        }
    }
}

pub proof fn lemma_at_most_reflexive(a: Seq<char>)
    ensures
        at_most(a, a),
    decreases a.len(),
{
    if a.len() > 0 {
        lemma_at_most_reflexive(a.drop_first());
    }
}

pub proof fn lemma_at_most_total(a: Seq<char>, b: Seq<char>)
    ensures
        at_most(a, b) || at_most(b, a),
    decreases a.len(),
{
    if a.len() > 0 && b.len() > 0 && a[0] == b[0] {
        lemma_at_most_total(a.drop_first(), b.drop_first());
    }
}

pub proof fn lemma_at_most_antisymmetric(a: Seq<char>, b: Seq<char>)
    requires
        at_most(a, b),
        at_most(b, a),
    ensures
        a == b,
    decreases a.len(),
{
    if a.len() > 0 && b.len() > 0 {
        lemma_at_most_antisymmetric(a.drop_first(), b.drop_first());
        assert(a =~= seq![a[0]] + a.drop_first());
        assert(b =~= seq![b[0]] + b.drop_first());
    } else {
        assert(a =~= b);
    }
}

pub proof fn lemma_at_most_transitive(a: Seq<char>, b: Seq<char>, c: Seq<char>)
    requires
        at_most(a, b),
        at_most(b, c),
    ensures
        at_most(a, c),
    decreases a.len(),
{
    if a.len() > 0 && b.len() > 0 && c.len() > 0 && a[0] == b[0] && b[0] == c[0] {
        lemma_at_most_transitive(a.drop_first(), b.drop_first(), c.drop_first());
    }
}

/// The decimal digit `d` as a character.
pub open spec fn digit(d: int) -> char {
    (48 + d) as char
}

/// The decimal numeral of `n`, without leading zeros.
pub open spec fn decimal(n: nat) -> Seq<char>
    decreases n,
{
    if n < 10 {
        seq![digit(n as int)]
    } else {
        decimal(n / 10).push(digit((n % 10) as int))
    }
}

/// The octal numeral of `n`, without leading zeros.
pub open spec fn octal(n: nat) -> Seq<char>
    decreases n,
{
    if n < 8 {
        seq![digit(n as int)]
    } else {
        octal(n / 8).push(digit((n % 8) as int))
    }
}

/// `text` with `fill` put in front until it has `width` characters.
pub open spec fn pad_left(text: Seq<char>, width: nat, fill: char) -> Seq<char> {
    if text.len() >= width {
        text
    } else {
        Seq::new((width - text.len()) as nat, |i: int| fill) + text
    }
}

/// `text` with `fill` put behind it until it has `width` characters.
pub open spec fn pad_right(text: Seq<char>, width: nat, fill: char) -> Seq<char> {
    if text.len() >= width {
        text
    } else {
        text + Seq::new((width - text.len()) as nat, |i: int| fill)
    }
}

/// The character of one digit.
pub fn digit_char(d: u64) -> (c: char)
    requires
        d < 10,
    ensures
        c == digit(d as int),
{
    let b: u8 = 48 + d as u8;
    b as char
}

/// The decimal numeral of `n`.
pub fn decimal_text(n: u64) -> (text: String)
    ensures
        text@ == decimal(n as nat),
{
    let mut rest: u64 = n;
    let mut low: Vec<char> = Vec::new();
    while rest >= 10
        invariant
            decimal(n as nat) == decimal(rest as nat) + low@.reverse(),
        decreases rest,
    {
        let ghost before = low@;
        let ghost whole = rest;
        low.push(digit_char(rest % 10));
        rest = rest / 10;
        assert(decimal(whole as nat) == decimal(rest as nat).push(low@.last()));
        assert(low@.reverse() =~= seq![low@.last()] + before.reverse());
        assert(decimal(rest as nat).push(low@.last()) + before.reverse() =~= decimal(rest as nat)
            + low@.reverse());
    }
    low.push(digit_char(rest));
    assert(decimal(rest as nat) =~= seq![low@.last()]);
    assert(decimal(n as nat) =~= low@.reverse());
    reversed_text(&low)
}

/// Different numbers have different numerals.
pub proof fn lemma_decimals_differ(a: nat, b: nat)
    requires
        decimal(a) == decimal(b),
    ensures
        a == b,
    decreases a,
{
    let x = decimal(a);
    let y = decimal(b);
    assert(x.last() == digit((a % 10) as int)) by {
        if a < 10 {
            assert(a % 10 == a);
        }
    }
    assert(y.last() == digit((b % 10) as int)) by {
        if b < 10 {
            assert(b % 10 == b);
        }
    }
    assert(a % 10 == b % 10);
    if a >= 10 {
        assert(x.drop_last() =~= decimal(a / 10));
        if b >= 10 {
            assert(y.drop_last() =~= decimal(b / 10));
            lemma_decimals_differ(a / 10, b / 10);
        } else {
            lemma_decimal_nonempty(a / 10);
        }
    } else if b >= 10 {
        lemma_decimal_nonempty(b / 10);
    }
}

pub proof fn lemma_decimal_nonempty(a: nat)
    ensures
        decimal(a).len() > 0,
    decreases a,
{
}

/// The octal numeral of `n`.
pub fn octal_text(n: u64) -> (text: String)
    ensures
        text@ == octal(n as nat),
{
    let mut rest: u64 = n;
    let mut low: Vec<char> = Vec::new();
    while rest >= 8
        invariant
            octal(n as nat) == octal(rest as nat) + low@.reverse(),
        decreases rest,
    {
        let ghost before = low@;
        let ghost whole = rest;
        low.push(digit_char(rest % 8));
        rest = rest / 8;
        assert(octal(whole as nat) == octal(rest as nat).push(low@.last()));
        assert(low@.reverse() =~= seq![low@.last()] + before.reverse());
        assert(octal(rest as nat).push(low@.last()) + before.reverse() =~= octal(rest as nat)
            + low@.reverse());
    }
    low.push(digit_char(rest));
    assert(octal(rest as nat) =~= seq![low@.last()]);
    assert(octal(n as nat) =~= low@.reverse());
    reversed_text(&low)
}

/// The given characters, last one first.
fn reversed_text(chars: &Vec<char>) -> (text: String)
    ensures
        text@ == chars@.reverse(),
{
    let mut text = String::new();
    let mut i: usize = chars.len();
    while i > 0
        invariant
            i <= chars.len(),
            text@ == chars@.reverse().take(chars.len() - i),
        decreases i,
    {
        i -= 1;
        text.push(chars[i]);
        assert(text@ =~= chars@.reverse().take(chars.len() - i));
    }
    assert(text@ =~= chars@.reverse());
    text
}

/// `text` right-aligned in `width` characters.
pub fn padded(text: &str, width: usize, fill: char) -> (out: String)
    ensures
        out@ == pad_left(text@, width as nat, fill),
{
    let n: usize = text.unicode_len();
    let mut out = String::new();
    let mut i: usize = n;
    while i < width
        invariant
            n == text@.len(),
            n <= i,
            n <= width ==> i <= width,
            n > width ==> i == n,
            out@ == Seq::new((i - n) as nat, |k: int| fill),
        decreases width - i,
    {
        out.push(fill);
        i += 1;
        assert(out@ =~= Seq::new((i - n) as nat, |k: int| fill));
    }
    out.append(text);
    assert(out@ =~= pad_left(text@, width as nat, fill));
    out
}

/// `text` left-aligned in `width` characters.
pub fn padded_right(text: &str, width: usize, fill: char) -> (out: String)
    ensures
        out@ == pad_right(text@, width as nat, fill),
{
    let n: usize = text.unicode_len();
    let mut out = text.to_string();
    let mut i: usize = n;
    while i < width
        invariant
            n == text@.len(),
            n <= i,
            n <= width ==> i <= width,
            n > width ==> i == n,
            out@ == text@ + Seq::new((i - n) as nat, |k: int| fill),
        decreases width - i,
    {
        out.push(fill);
        i += 1;
        assert(out@ =~= text@ + Seq::new((i - n) as nat, |k: int| fill));
    }
    assert(out@ =~= pad_right(text@, width as nat, fill));
    out
}

/// Two pieces of text, one after the other.
pub fn joined(a: &str, b: &str) -> (out: String)
    ensures
        out@ == a@ + b@,
{
    let mut out = String::new();
    out.append(a);
    out.append(b);
    assert(out@ =~= a@ + b@);
    out
}

/// The bytes of a text.
pub fn bytes_of(text: &str) -> (bytes: Vec<u8>)
    ensures
        bytes@ == vstd::utf8::encode_utf8(text@),
{
    text.as_bytes_vec()
}

/// The text without its last character; nothing is taken from an empty one.
pub fn without_last(text: &str) -> (out: String)
    ensures
        out@ == (if text@.len() > 0 {
            text@.drop_last()
        } else {
            text@
        }),
{
    let mut chars = chars_of(text);
    let _ = chars.pop();
    text_of(&chars)
}

/// Whether the text's last character is `c`.
pub fn ends_with(text: &str, c: char) -> (yes: bool)
    ensures
        yes == (text@.len() > 0 && text@.last() == c),
{
    let n: usize = text.unicode_len();
    n > 0 && text.get_char(n - 1) == c
}

/// Whether two texts are the same.
pub fn same(a: &str, b: &str) -> (yes: bool)
    ensures
        yes == (a@ == b@),
{
    a.to_string() == b.to_string()
}

/// What a numeral is worth in the given base, digit by digit.
pub open spec fn worth(s: Seq<char>, base: int) -> int
    decreases s.len(),
{
    if s.len() == 0 {
        0
    } else {
        worth(s.drop_last(), base) * base + (s.last() as int - '0' as int)
    }
}

/// A numeral is worth the number that it is the numeral of, in the digits of its base, and begins with
/// no zero that could be left out.
pub proof fn law_numerals_are_worth_their_number(n: nat)
    ensures
        worth(decimal(n), 10) == n,
        worth(octal(n), 8) == n,
        forall|k: int| 0 <= k < decimal(n).len() ==> '0' <= #[trigger] decimal(n)[k] <= '9',
        forall|k: int| 0 <= k < octal(n).len() ==> '0' <= #[trigger] octal(n)[k] <= '7',
        decimal(n).len() > 0 && (n > 0 ==> decimal(n)[0] != '0'),
        octal(n).len() > 0 && (n > 0 ==> octal(n)[0] != '0'),
    decreases n,
{
    reveal_with_fuel(worth, 2);
    if n >= 10 {
        law_numerals_are_worth_their_number(n / 10);
        assert(decimal(n).drop_last() =~= decimal(n / 10));
    } else {
        assert(decimal(n).drop_last() =~= Seq::empty());
    }
    if n >= 8 {
        law_numerals_are_worth_their_number(n / 8);
        assert(octal(n).drop_last() =~= octal(n / 8));
    } else {
        assert(octal(n).drop_last() =~= Seq::empty());
    }
}

/// Padding keeps the text, at the end or at the beginning, and puts just the fill before or behind it,
/// as far as the width asks for.
pub proof fn law_padding_keeps_the_text(text: Seq<char>, width: nat, fill: char)
    ensures
        ({
            let left = pad_left(text, width, fill);
            let right = pad_right(text, width, fill);
            let more = left.len() - text.len();
            &&& left.len() == right.len()
            &&& left.len() >= width && left.len() >= text.len()
            &&& left.len() == width || left.len() == text.len()
            &&& text.is_suffix_of(left) && text.is_prefix_of(right)
            &&& forall|k: int| 0 <= k < more ==> #[trigger] left[k] == fill
            &&& forall|k: int| text.len() <= k < right.len() ==> #[trigger] right[k] == fill
        }),
{
}

/// Texts are in the order of a dictionary: one comes before the other where it is the beginning of it,
/// or where its character is the smaller one at the first place at which the two differ.
pub proof fn law_dictionary_order(a: Seq<char>, b: Seq<char>)
    ensures
        at_most(a, b) <==> a.is_prefix_of(b) || exists|k: int|
            0 <= k < a.len() && k < b.len() && a.take(k) == b.take(k) && #[trigger] a[k]
                < #[trigger] b[k],
    decreases a.len(),
{
    if a.len() > 0 && b.len() > 0 {
        let x = a.drop_first();
        let y = b.drop_first();
        if a[0] == b[0] {
            law_dictionary_order(x, y);
            if at_most(x, y) {
                if x.is_prefix_of(y) {
                    assert forall|k: int| 0 <= k < a.len() implies a[k] == b[k] by {
                        if k > 0 {
                            assert(x[k - 1] == y[k - 1]);
                        }
                    }
                } else {
                    let k = choose|k: int|
                        0 <= k < x.len() && k < y.len() && x.take(k) == y.take(k) && #[trigger] x[k]
                            < #[trigger] y[k];
                    assert(a.take(k + 1) =~= b.take(k + 1)) by {
                        assert forall|i: int| 0 <= i < k + 1 implies a[i] == b[i] by {
                            if i > 0 {
                                assert(x.take(k)[i - 1] == y.take(k)[i - 1]);
                            }
                        }
                    }
                    assert(a[k + 1] < b[k + 1]);
                }
            }
            if a.is_prefix_of(b) {
                assert(x =~= y.subrange(0, x.len() as int));
            }
            if exists|k: int|
                0 <= k < a.len() && k < b.len() && a.take(k) == b.take(k) && #[trigger] a[k]
                    < #[trigger] b[k] {
                let k = choose|k: int|
                    0 <= k < a.len() && k < b.len() && a.take(k) == b.take(k) && #[trigger] a[k]
                        < #[trigger] b[k];
                assert(k > 0);
                assert(x.take(k - 1) =~= y.take(k - 1)) by {
                    assert forall|i: int| 0 <= i < k - 1 implies x[i] == y[i] by {
                        assert(a.take(k)[i + 1] == b.take(k)[i + 1]);
                    }
                }
                assert(x[k - 1] < y[k - 1]);
            }
        } else {
            if a[0] < b[0] {
                assert(a.take(0) =~= b.take(0));
            }
            if exists|k: int|
                0 <= k < a.len() && k < b.len() && a.take(k) == b.take(k) && #[trigger] a[k]
                    < #[trigger] b[k] {
                let k = choose|k: int|
                    0 <= k < a.len() && k < b.len() && a.take(k) == b.take(k) && #[trigger] a[k]
                        < #[trigger] b[k];
                if k > 0 {
                    assert(a.take(k)[0] == b.take(k)[0]);
                }
            }
        }
    }
}

} // verus!
