//! White space, lines and words.
use vstd::prelude::*;

use crate::text;

verus! {

/// The characters that Unicode counts as white space.
pub open spec fn is_white(c: char) -> bool {
    ||| '\u{9}' <= c <= '\u{d}'
    ||| c == '\u{20}'
    ||| c == '\u{85}'
    ||| c == '\u{a0}'
    ||| c == '\u{1680}'
    ||| '\u{2000}' <= c <= '\u{200a}'
    ||| c == '\u{2028}'
    ||| c == '\u{2029}'
    ||| c == '\u{202f}'
    ||| c == '\u{205f}'
    ||| c == '\u{3000}'
}

pub fn white(c: char) -> (yes: bool)
    ensures
        yes == is_white(c),
{
    ('\u{9}' <= c && c <= '\u{d}') || c == '\u{20}' || c == '\u{85}' || c == '\u{a0}' || c
        == '\u{1680}' || ('\u{2000}' <= c && c <= '\u{200a}') || c == '\u{2028}' || c == '\u{2029}'
        || c == '\u{202f}' || c == '\u{205f}' || c == '\u{3000}'
}

/// The text without the white space that it begins with.
pub open spec fn trimmed_start(s: Seq<char>) -> Seq<char>
    decreases s.len(),
{
    if s.len() > 0 && is_white(s[0]) {
        trimmed_start(s.skip(1))
    } else {
        s
    }
}

/// The text without the white space that it ends with.
pub open spec fn trimmed_end(s: Seq<char>) -> Seq<char>
    decreases s.len(),
{
    if s.len() > 0 && is_white(s.last()) {
        trimmed_end(s.drop_last())
    } else {
        s
    }
}

pub open spec fn trimmed(s: Seq<char>) -> Seq<char> {
    trimmed_end(trimmed_start(s))
}

/// The text without the characters `c` that it begins with.
pub open spec fn stripped_start(s: Seq<char>, c: char) -> Seq<char>
    decreases s.len(),
{
    if s.len() > 0 && s[0] == c {
        stripped_start(s.skip(1), c)
    } else {
        s
    }
}

/// The first position from `from` on at which one of two characters stands, or the end.
pub open spec fn find_either(s: Seq<char>, a: char, b: char, from: int) -> int
    decreases s.len() - from,
{
    if from >= s.len() {
        s.len() as int
    } else if s[from] == a || s[from] == b {
        from
    } else {
        find_either(s, a, b, from + 1)
    }
}

/// The pieces between the characters `c`.
pub open spec fn split_at_char(s: Seq<char>, c: char) -> Seq<Seq<char>>
    decreases s.len(),
{
    if s.len() == 0 {
        seq![Seq::empty()]
    } else {
        let before = split_at_char(s.drop_last(), c);
        if s.last() == c {
            before.push(Seq::empty())
        } else {
            before.update(before.len() - 1, before.last().push(s.last()))
        }
    }
}

/// A line without the carriage return that it ends with.
pub open spec fn without_return(line: Seq<char>) -> Seq<char> {
    if line.len() > 0 && line.last() == '\r' {
        line.drop_last()
    } else {
        line
    }
}

/// The lines of a text, each ended by a line feed, or by a carriage return and a line feed. What
/// follows the last line feed is a line too, unless it is empty; a carriage return that no line feed
/// follows belongs to its line.
pub open spec fn lines_of(s: Seq<char>) -> Seq<Seq<char>> {
    let pieces = split_at_char(s, '\n');
    let ended = Seq::new((pieces.len() - 1) as nat, |k: int| without_return(pieces[k]));
    if pieces.last().len() == 0 {
        ended
    } else {
        ended.push(pieces.last())
    }
}

/// The words of a text: what stands between white space.
pub open spec fn words_of(s: Seq<char>) -> Seq<Seq<char>>
    decreases s.len(),
{
    let t = trimmed_start(s);
    if t.len() == 0 {
        Seq::empty()
    } else {
        proof {
            lemma_trimmed_start(s);
        }
        let n = word_len(t);
        seq![t.take(n)] + words_of(t.skip(n))
    }
}

/// How many characters there are before the first white space.
pub open spec fn word_len(s: Seq<char>) -> int
    decreases s.len(),
{
    if s.len() == 0 || is_white(s[0]) {
        0
    } else {
        1 + word_len(s.skip(1))
    }
}

pub proof fn lemma_trimmed_start(s: Seq<char>)
    ensures
        trimmed_start(s).len() <= s.len(),
        trimmed_start(s).len() > 0 ==> !is_white(trimmed_start(s)[0]) && word_len(trimmed_start(s))
            >= 1,
        0 <= word_len(trimmed_start(s)) <= trimmed_start(s).len(),
    decreases s.len(),
{
    if s.len() > 0 && is_white(s[0]) {
        lemma_trimmed_start(s.skip(1));
    } else {
        lemma_word_len(s);
        if s.len() > 0 {
            lemma_word_len(s.skip(1));
        }
    }
}

pub proof fn lemma_word_len(s: Seq<char>)
    ensures
        0 <= word_len(s) <= s.len(),
    decreases s.len(),
{
    if s.len() > 0 && !is_white(s[0]) {
        lemma_word_len(s.skip(1));
    }
}

// ---- The functions ------------------------------------------------------------------------------------

/// A part of some characters as text.
pub fn part(chars: &Vec<char>, from: usize, to: usize) -> (out: String)
    requires
        from <= to <= chars@.len(),
    ensures
        out@ == chars@.subrange(from as int, to as int),
{
    let mut out = String::new();
    let mut i: usize = from;
    assert(chars@.subrange(from as int, from as int) =~= Seq::empty());
    while i < to
        invariant
            from <= i <= to <= chars@.len(),
            out@ == chars@.subrange(from as int, i as int),
        decreases to - i,
    {
        out.push(chars[i]);
        assert(chars@.subrange(from as int, i + 1) =~= chars@.subrange(from as int, i as int).push(
            chars@[i as int],
        ));
        i += 1;
    }
    out
}

/// Where the text starts behind the white space that it begins with at `from`.
fn skip_white(chars: &Vec<char>, from: usize) -> (at: usize)
    requires
        from <= chars@.len(),
    ensures
        from <= at <= chars@.len(),
        chars@.skip(at as int) == trimmed_start(chars@.skip(from as int)),
{
    let mut at: usize = from;
    while at < chars.len() && white(chars[at])
        invariant
            from <= at <= chars@.len(),
            trimmed_start(chars@.skip(at as int)) == trimmed_start(chars@.skip(from as int)),
        decreases chars@.len() - at,
    {
        assert(chars@.skip(at as int).skip(1) =~= chars@.skip(at + 1));
        at += 1;
    }
    at
}

/// The text without the white space that it begins with.
pub fn trim_start(s: &str) -> (out: String)
    ensures
        out@ == trimmed_start(s@),
{
    let chars = text::chars_of(s);
    assert(chars@.skip(0) =~= chars@);
    let at: usize = skip_white(&chars, 0);
    assert(chars@.subrange(at as int, chars@.len() as int) =~= chars@.skip(at as int));
    part(&chars, at, chars.len())
}

/// The text without the white space around it.
pub fn trim(s: &str) -> (out: String)
    ensures
        out@ == trimmed(s@),
{
    let chars = text::chars_of(s);
    assert(chars@.skip(0) =~= chars@);
    let at: usize = skip_white(&chars, 0);
    let mut end: usize = chars.len();
    assert(chars@.subrange(at as int, end as int) =~= chars@.skip(at as int));
    while end > at && white(chars[end - 1])
        invariant
            at <= end <= chars@.len(),
            trimmed_end(chars@.subrange(at as int, end as int)) == trimmed(s@),
        decreases end,
    {
        assert(chars@.subrange(at as int, end as int).drop_last() =~= chars@.subrange(
            at as int,
            end - 1,
        ));
        end -= 1;
    }
    part(&chars, at, end)
}

/// The text without the characters `c` that it begins with.
pub fn strip_start(s: &str, c: char) -> (out: String)
    ensures
        out@ == stripped_start(s@, c),
{
    let chars = text::chars_of(s);
    let mut at: usize = 0;
    assert(chars@.skip(0) =~= chars@);
    while at < chars.len() && chars[at] == c
        invariant
            at <= chars@.len(),
            stripped_start(chars@.skip(at as int), c) == stripped_start(s@, c),
        decreases chars@.len() - at,
    {
        assert(chars@.skip(at as int).skip(1) =~= chars@.skip(at + 1));
        at += 1;
    }
    assert(chars@.subrange(at as int, chars@.len() as int) =~= chars@.skip(at as int));
    part(&chars, at, chars.len())
}

/// What stands before the first of two characters.
pub fn before_either(s: &str, a: char, b: char) -> (out: String)
    ensures
        out@ == s@.take(find_either(s@, a, b, 0)),
{
    let chars = text::chars_of(s);
    let mut at: usize = 0;
    while at < chars.len() && chars[at] != a && chars[at] != b
        invariant
            at <= chars@.len(),
            chars@ == s@,
            find_either(s@, a, b, at as int) == find_either(s@, a, b, 0),
        decreases chars@.len() - at,
    {
        at += 1;
    }
    assert(chars@.subrange(0, at as int) =~= s@.take(at as int));
    part(&chars, 0, at)
}

pub open spec fn text_views(texts: Seq<String>) -> Seq<Seq<char>> {
    Seq::new(texts.len(), |k: int| texts[k]@)
}

/// The pieces between the characters `c`.
pub fn split_char(s: &str, c: char) -> (out: Vec<String>)
    ensures
        text_views(out@) == split_at_char(s@, c),
        out@.len() > 0,
{
    let chars = text::chars_of(s);
    let mut out: Vec<String> = Vec::new();
    let mut piece = String::new();
    let mut i: usize = 0;
    proof {
        assert(chars@.take(0) =~= Seq::empty());
        assert(text_views(out@).push(piece@) =~= split_at_char(chars@.take(0), c));
    }
    while i < chars.len()
        invariant
            i <= chars@.len(),
            text_views(out@).push(piece@) == split_at_char(chars@.take(i as int), c),
        decreases chars@.len() - i,
    {
        let ghost done = text_views(out@);
        let ghost so_far = split_at_char(chars@.take(i as int), c);
        proof {
            assert(chars@.take(i as int + 1).drop_last() =~= chars@.take(i as int));
        }
        if chars[i] == c {
            let ghost p = piece@;
            out.push(piece);
            piece = String::new();
            assert(text_views(out@) =~= done.push(p));
            assert(piece@ =~= Seq::empty());
        } else {
            piece.push(chars[i]);
            assert(so_far.update(so_far.len() - 1, so_far.last().push(chars@[i as int]))
                =~= done.push(piece@));
        }
        i += 1;
    }
    assert(chars@.take(i as int) =~= s@);
    let ghost done = text_views(out@);
    let ghost p = piece@;
    out.push(piece);
    assert(text_views(out@) =~= done.push(p));
    out
}

/// The lines of a text.
pub fn lines(s: &str) -> (out: Vec<String>)
    ensures
        text_views(out@) == lines_of(s@),
{
    let pieces = split_char(s, '\n');
    let ghost all = text_views(pieces@);
    let mut out: Vec<String> = Vec::new();
    let last: usize = pieces.len() - 1;
    let mut k: usize = 0;
    while k < last
        invariant
            k <= last,
            last == pieces@.len() - 1,
            all == text_views(pieces@),
            out@.len() == k,
            forall|i: int| 0 <= i < k ==> #[trigger] out@[i]@ == without_return(all[i]),
        decreases last - k,
    {
        let chars = text::chars_of(pieces[k].as_str());
        let n: usize = chars.len();
        let line = if n > 0 && chars[n - 1] == '\r' {
            assert(chars@.subrange(0, n - 1) =~= chars@.drop_last());
            part(&chars, 0, n - 1)
        } else {
            pieces[k].clone()
        };
        assert(all[k as int] == pieces@[k as int]@);
        out.push(line);
        k += 1;
    }
    assert(all[last as int] == pieces@[last as int]@);
    if pieces[last].as_str().unicode_len() > 0 {
        out.push(pieces[last].clone());
    }
    assert(text_views(out@) =~= lines_of(s@));
    out
}

/// The words of a text.
pub fn split_whitespace(s: &str) -> (out: Vec<String>)
    ensures
        text_views(out@) == words_of(s@),
{
    let chars = text::chars_of(s);
    let mut out: Vec<String> = Vec::new();
    let mut i: usize = 0;
    assert(chars@.skip(0) =~= s@);
    assert(text_views(out@) + words_of(chars@.skip(0)) =~= words_of(s@));
    loop
        invariant
            i <= chars@.len(),
            text_views(out@) + words_of(chars@.skip(i as int)) == words_of(s@),
        decreases chars@.len() - i,
    {
        let at: usize = skip_white(&chars, i);
        let ghost t = chars@.skip(at as int);
        proof {
            lemma_trimmed_start(chars@.skip(i as int));
        }
        if at == chars.len() {
            assert(words_of(chars@.skip(i as int)) =~= Seq::empty());
            assert(text_views(out@) =~= words_of(s@));
            return out;
        }
        let mut end: usize = at;
        while end < chars.len() && !white(chars[end])
            invariant
                at <= end <= chars@.len(),
                t == chars@.skip(at as int),
                word_len(t) == end - at + word_len(chars@.skip(end as int)),
            decreases chars@.len() - end,
        {
            assert(chars@.skip(end as int).skip(1) =~= chars@.skip(end + 1));
            end += 1;
        }
        assert(word_len(chars@.skip(end as int)) == 0);
        let word = part(&chars, at, end);
        let ghost done = text_views(out@);
        let ghost w = word@;
        out.push(word);
        proof {
            assert(text_views(out@) =~= done.push(w));
            assert(t.take(end - at) =~= chars@.subrange(at as int, end as int));
            assert(t.skip(end - at) =~= chars@.skip(end as int));
            assert(done + words_of(chars@.skip(i as int)) =~= done.push(w) + words_of(
                chars@.skip(end as int),
            ));
        }
        i = end;
    }
}

pub proof fn lemma_start_cut(s: Seq<char>) -> (i: int)
    ensures
        0 <= i <= s.len(),
        trimmed_start(s) == s.skip(i),
        forall|k: int| 0 <= k < i ==> is_white(#[trigger] s[k]),
        i < s.len() ==> !is_white(s[i]),
    decreases s.len(),
{
    if s.len() > 0 && is_white(s[0]) {
        let j = lemma_start_cut(s.skip(1));
        assert(s.skip(1).skip(j) =~= s.skip(j + 1));
        assert forall|k: int| 0 <= k < j + 1 implies is_white(#[trigger] s[k]) by {
            if k > 0 {
                assert(s.skip(1)[k - 1] == s[k]);
            }
        }
        j + 1
    } else {
        assert(s.skip(0) =~= s);
        0
    }
}

proof fn lemma_end_cut(s: Seq<char>) -> (j: int)
    ensures
        0 <= j <= s.len(),
        trimmed_end(s) == s.take(j),
        forall|k: int| j <= k < s.len() ==> is_white(#[trigger] s[k]),
        j > 0 ==> !is_white(s[j - 1]),
    decreases s.len(),
{
    if s.len() > 0 && is_white(s.last()) {
        let less = s.drop_last();
        let j = lemma_end_cut(less);
        assert(less.take(j) =~= s.take(j));
        assert forall|k: int| j <= k < s.len() implies is_white(#[trigger] s[k]) by {
            if k < less.len() {
                assert(less[k] == s[k]);
            }
        }
        j
    } else {
        assert(s.take(s.len() as int) =~= s);
        s.len() as int
    }
}

/// `t` is what is left of `s` without the white space around it.
pub open spec fn is_core(s: Seq<char>, t: Seq<char>, i: int, j: int) -> bool {
    &&& 0 <= i <= j <= s.len()
    &&& t == s.subrange(i, j)
    &&& forall|k: int| 0 <= k < i || j <= k < s.len() ==> is_white(#[trigger] s[k])
    &&& i < j ==> !is_white(s[i]) && !is_white(s[j - 1])
}

/// Trimming takes off white space at both ends, all of it, and nothing else; blanks, tabs and line ends
/// are white, and no other ASCII character is, and of the rest those that Unicode calls white space.
pub proof fn law_trimming_takes_white_space_off(s: Seq<char>, c: char)
    ensures
        exists|i: int, j: int| is_core(s, trimmed(s), i, j),
        c as u32 <= 127 ==> (is_white(c) <==> c == ' ' || c == '\t' || c == '\n' || c == '\r' || c
            == '\u{b}' || c == '\u{c}'),
        c as u32 > 127 ==> (is_white(c) <==> {
            let n = c as u32;
            n == 0x85 || n == 0xa0 || n == 0x1680 || (0x2000 <= n && n <= 0x200a) || n == 0x2028 || n
                == 0x2029 || n == 0x202f || n == 0x205f || n == 0x3000
        }),
{
    let i = lemma_start_cut(s);
    let t = trimmed_start(s);
    let j = lemma_end_cut(t);
    assert(t.take(j) =~= s.subrange(i, i + j));
    assert forall|k: int| 0 <= k < i || i + j <= k < s.len() implies is_white(#[trigger] s[k]) by {
        if k >= i {
            assert(t[k - i] == s[k]);
        }
    }
    if j > 0 {
        assert(t[j - 1] == s[i + j - 1]);
    }
    assert(is_core(s, trimmed(s), i, i + j));
}

/// The pieces, put together again with the character between them.
pub open spec fn put_together(pieces: Seq<Seq<char>>, c: char) -> Seq<char>
    decreases pieces.len(),
{
    if pieces.len() == 0 {
        Seq::empty()
    } else if pieces.len() == 1 {
        pieces[0]
    } else {
        put_together(pieces.drop_last(), c).push(c) + pieces.last()
    }
}

/// Splitting leaves out nothing but the character that it splits at: the pieces put together with it
/// are the text, and none of them holds it.
pub proof fn law_pieces_make_the_text(s: Seq<char>, c: char)
    ensures
        split_at_char(s, c).len() > 0,
        put_together(split_at_char(s, c), c) == s,
        forall|k: int|
            0 <= k < split_at_char(s, c).len() ==> !(#[trigger] split_at_char(s, c)[k]).contains(c),
    decreases s.len(),
{
    reveal_with_fuel(put_together, 2);
    let pieces = split_at_char(s, c);
    if s.len() == 0 {
        assert(s =~= Seq::empty());
    } else {
        let less = s.drop_last();
        let before = split_at_char(less, c);
        law_pieces_make_the_text(less, c);
        if s.last() == c {
            assert(pieces.drop_last() =~= before);
            assert(put_together(pieces, c) =~= less.push(c));
            assert(less.push(c) =~= s);
        } else {
            let last = before.last();
            assert(!before[before.len() - 1].contains(c));
            assert(pieces.drop_last() =~= before.drop_last());
            assert(pieces.last() =~= last.push(s.last()));
            if before.len() == 1 {
                assert(put_together(pieces, c) =~= less.push(s.last()));
            } else {
                let rest = put_together(before.drop_last(), c).push(c);
                assert(rest + last.push(s.last()) =~= (rest + last).push(s.last()));
            }
            assert(less.push(s.last()) =~= s);
            assert forall|k: int| 0 <= k < pieces.len() implies !(#[trigger] pieces[k]).contains(c) by {
                if k < pieces.len() - 1 {
                    assert(pieces[k] == before[k]);
                } else if pieces[k].contains(c) {
                    let m = choose|m: int| 0 <= m < pieces[k].len() && pieces[k][m] == c;
                    assert(last[m] == c);
                    assert(last.contains(c));
                }
            }
        }
    }
}

pub proof fn lemma_split_behind(line: Seq<char>, rest: Seq<char>, c: char)
    requires
        !line.contains(c),
    ensures
        split_at_char(line, c) == seq![line],
        split_at_char(line.push(c) + rest, c) == seq![line] + split_at_char(rest, c),
    decreases rest.len(), line.len(),
{
    let all = line.push(c) + rest;
    if rest.len() == 0 {
        assert(all =~= line.push(c));
        if line.len() > 0 {
            let less = line.drop_last();
            assert(!less.contains(c)) by {
                if less.contains(c) {
                    let m = choose|m: int| 0 <= m < less.len() && less[m] == c;
                    assert(line[m] == c);
                }
            }
            assert(line[line.len() - 1] != c);
            lemma_split_behind(less, rest, c);
            assert(less.push(line.last()) =~= line);
            assert(split_at_char(line, c) =~= seq![line]);
        } else {
            assert(line =~= Seq::empty());
        }
        assert(all.drop_last() =~= line);
        assert(rest =~= Seq::empty());
        assert(split_at_char(all, c) =~= seq![line] + split_at_char(rest, c));
    } else {
        let less = rest.drop_last();
        lemma_split_behind(line, less, c);
        assert(all.drop_last() =~= line.push(c) + less);
        law_pieces_make_the_text(less, c);
        assert(all.last() == rest.last());
        assert(split_at_char(all, c) =~= seq![line] + split_at_char(rest, c));
    }
}

/// The lines of a text: one before each line feed, without the carriage return that stands right before
/// it, and what follows the last line feed where that is not empty.
pub proof fn law_lines_end_at_line_feeds(line: Seq<char>, rest: Seq<char>)
    requires
        !line.contains('\n'),
    ensures
        lines_of(Seq::empty()) == Seq::<Seq<char>>::empty(),
        line.len() > 0 ==> lines_of(line) == seq![line],
        line.len() == 0 || line.last() != '\r' ==> lines_of(line + seq!['\n'] + rest) == seq![line]
            + lines_of(rest),
        lines_of(line + seq!['\r', '\n'] + rest) == seq![line] + lines_of(rest),
{
    let none = Seq::<char>::empty();
    assert(split_at_char(none, '\n') =~= seq![none]);
    assert(lines_of(none) =~= Seq::<Seq<char>>::empty());
    lemma_split_behind(line, rest, '\n');
    law_pieces_make_the_text(rest, '\n');
    assert(line + seq!['\n'] + rest =~= line.push('\n') + rest);
    if line.len() > 0 {
        assert(lines_of(line) =~= seq![line]);
    }
    let after = split_at_char(rest, '\n');
    if line.len() == 0 || line.last() != '\r' {
        let all = line.push('\n') + rest;
        assert(split_at_char(all, '\n').last() == after.last());
        assert(lines_of(all) =~= seq![line] + lines_of(rest));
    }
    let long = line.push('\r');
    assert(!long.contains('\n')) by {
        if long.contains('\n') {
            let m = choose|m: int| 0 <= m < long.len() && long[m] == '\n';
            assert(line[m] == '\n');
        }
    }
    lemma_split_behind(long, rest, '\n');
    assert(line + seq!['\r', '\n'] + rest =~= long.push('\n') + rest);
    assert(long.drop_last() =~= line);
    assert(split_at_char(long.push('\n') + rest, '\n').last() == after.last());
    assert(lines_of(long.push('\n') + rest) =~= seq![line] + lines_of(rest));
}

proof fn lemma_word_ends(s: Seq<char>)
    ensures
        0 <= word_len(s) <= s.len(),
        forall|k: int| 0 <= k < word_len(s) ==> !is_white(#[trigger] s[k]),
        word_len(s) < s.len() ==> is_white(s[word_len(s)]),
    decreases s.len(),
{
    if s.len() > 0 && !is_white(s[0]) {
        lemma_word_ends(s.skip(1));
        assert forall|k: int| 0 <= k < word_len(s) implies !is_white(#[trigger] s[k]) by {
            if k > 0 {
                assert(s.skip(1)[k - 1] == s[k]);
            }
        }
    }
}

proof fn lemma_word_len_is(s: Seq<char>, n: int)
    requires
        0 <= n <= s.len(),
        forall|k: int| 0 <= k < n ==> !is_white(#[trigger] s[k]),
        n < s.len() ==> is_white(s[n]),
    ensures
        word_len(s) == n,
    decreases s.len(),
{
    if n > 0 {
        assert forall|k: int| 0 <= k < n - 1 implies !is_white(#[trigger] s.skip(1)[k]) by {
            assert(s[k + 1] == s.skip(1)[k]);
        }
        lemma_word_len_is(s.skip(1), n - 1);
    }
}

/// Words are what stands between white space: a text without any is one word, white space in front or
/// behind changes nothing, and around white space in the middle the words are those before it and then
/// those behind it.
pub proof fn law_words_stand_between_white_space(a: Seq<char>, c: char, b: Seq<char>)
    requires
        is_white(c),
    ensures
        words_of(Seq::empty()) == Seq::<Seq<char>>::empty(),
        a.len() > 0 && (forall|k: int| 0 <= k < a.len() ==> !is_white(#[trigger] a[k])) ==> words_of(a)
            == seq![a],
        words_of(a + seq![c] + b) == words_of(a) + words_of(b),
    decreases a.len(),
{
    let none = Seq::<char>::empty();
    let all = a + seq![c] + b;
    reveal_with_fuel(words_of, 2);
    reveal_with_fuel(trimmed_start, 2);
    if a.len() == 0 {
        assert(all.skip(1) =~= b);
        assert(words_of(all) =~= words_of(a) + words_of(b));
    } else {
        if forall|k: int| 0 <= k < a.len() ==> !is_white(#[trigger] a[k]) {
            lemma_word_len_is(a, a.len() as int);
            assert(a.take(a.len() as int) =~= a);
            assert(a.skip(a.len() as int) =~= none);
            assert(words_of(a) =~= seq![a]);
        }
        let i = lemma_start_cut(a);
        if i > 0 {
            assert(is_white(a[0]));
            law_words_stand_between_white_space(a.skip(1), c, b);
            assert(all.skip(1) =~= a.skip(1) + seq![c] + b);
            assert(trimmed_start(a) == trimmed_start(a.skip(1)));
            assert(trimmed_start(all) == trimmed_start(all.skip(1)));
            assert(words_of(a) == words_of(a.skip(1)));
            assert(words_of(all) == words_of(all.skip(1)));
        } else {
            let n = word_len(a);
            lemma_word_ends(a);
            assert(n > 0);
            assert(trimmed_start(a) == a);
            assert(trimmed_start(all) == all);
            if n < a.len() {
                assert(all[n] == a[n]);
            } else {
                assert(all[n] == c);
            }
            assert forall|k: int| 0 <= k < n implies !is_white(#[trigger] all[k]) by {
                assert(all[k] == a[k]);
            }
            lemma_word_len_is(all, n);
            law_words_stand_between_white_space(a.skip(n), c, b);
            assert(all.skip(n) =~= a.skip(n) + seq![c] + b);
            assert(all.take(n) =~= a.take(n));
            assert(words_of(all) =~= words_of(a) + words_of(b));
        }
    }
}

/// What stands before the first of two characters holds neither of them, and is all of the text or is
/// followed by one of them.
pub proof fn law_the_first_of_two_is_found(s: Seq<char>, a: char, b: char, from: int)
    requires
        0 <= from <= s.len(),
    ensures
        ({
            let at = find_either(s, a, b, from);
            &&& from <= at <= s.len()
            &&& forall|k: int| from <= k < at ==> #[trigger] s[k] != a && s[k] != b
            &&& at < s.len() ==> s[at] == a || s[at] == b
        }),
    decreases s.len() - from,
{
    if from < s.len() && s[from] != a && s[from] != b {
        law_the_first_of_two_is_found(s, a, b, from + 1);
    }
}

/// Stripping takes the character off the beginning, as often as it stands there, and nothing else.
pub proof fn law_stripping_takes_one_character_off(s: Seq<char>, c: char) -> (i: int)
    ensures
        0 <= i <= s.len(),
        stripped_start(s, c) == s.skip(i),
        forall|k: int| 0 <= k < i ==> #[trigger] s[k] == c,
        i < s.len() ==> s[i] != c,
    decreases s.len(),
{
    if s.len() > 0 && s[0] == c {
        let j = law_stripping_takes_one_character_off(s.skip(1), c);
        assert(s.skip(1).skip(j) =~= s.skip(j + 1));
        assert forall|k: int| 0 <= k < j + 1 implies #[trigger] s[k] == c by {
            if k > 0 {
                assert(s.skip(1)[k - 1] == s[k]);
            }
        }
        j + 1
    } else {
        assert(s.skip(0) =~= s);
        0
    }
}

} // verus!
