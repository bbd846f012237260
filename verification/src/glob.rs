//! Minimal shell-style glob matching for `--exclude` patterns, in the spirit of `fnmatch`.
//!
//! Supports `*` (any run, including empty), `?` (one char), and `[...]` character classes with
//! ranges and `!`/`^` negation. Patterns are matched against an entry's basename, which covers
//! the common cases: `node_modules`, `.git`, `*.log`, `*cache*`.
use vstd::prelude::*;

use crate::text;

verus! {

// ---- What a pattern means ---------------------------------------------------------------------

/// The class that starts the pattern is negated.
pub open spec fn class_negated(p: Seq<char>) -> bool {
    p.len() > 1 && (p[1] == '!' || p[1] == '^')
}

/// Where the members of the class that starts the pattern begin.
pub open spec fn class_start(p: Seq<char>) -> int {
    if class_negated(p) {
        2
    } else {
        1
    }
}

/// The first `]` at or after `from`, or the end of the pattern.
pub open spec fn closing(p: Seq<char>, from: int) -> int
    decreases p.len() - from,
{
    if from >= p.len() {
        p.len() as int
    } else if p[from] == ']' {
        from
    } else {
        closing(p, from + 1)
    }
}

/// Where the class that starts the pattern ends: a `]` that comes first is a member, and a class
/// that is not closed goes on to the end of the pattern.
pub open spec fn class_end(p: Seq<char>) -> int {
    closing(p, class_start(p) + 1)
}

/// What stands between the brackets.
pub open spec fn class_members(p: Seq<char>) -> Seq<char> {
    if class_start(p) >= p.len() {
        Seq::empty()
    } else {
        p.subrange(class_start(p), class_end(p))
    }
}

/// `c` is one of the characters, or lies in one of the ranges `a-b`.
pub open spec fn listed_in(members: Seq<char>, c: char) -> bool
    decreases members.len(),
{
    if members.len() == 0 {
        false
    } else if members.len() >= 3 && members[1] == '-' {
        members[0] <= c <= members[2] || listed_in(members.skip(3), c)
    } else {
        members[0] == c || listed_in(members.skip(1), c)
    }
}

/// What follows the class that starts the pattern.
pub open spec fn after_class(p: Seq<char>) -> Seq<char> {
    if class_end(p) < p.len() {
        p.skip(class_end(p) + 1)
    } else {
        Seq::empty()
    }
}

pub open spec fn class_admits(p: Seq<char>, c: char) -> bool {
    listed_in(class_members(p), c) != class_negated(p)
}

pub proof fn lemma_closing(p: Seq<char>, from: int)
    requires
        0 <= from,
    ensures
        from <= p.len() ==> from <= closing(p, from) <= p.len(),
        from > p.len() ==> closing(p, from) == p.len(),
        closing(p, from) < p.len() ==> p[closing(p, from)] == ']',
        forall|k: int| from <= k < closing(p, from) ==> #[trigger] p[k] != ']',
    decreases p.len() - from,
{
    if from < p.len() && p[from] != ']' {
        lemma_closing(p, from + 1);
    }
}

/// The name `s` as a whole matches the pattern `p`: a `*` stands for nothing, or for one more
/// character of the name.
pub open spec fn glob(p: Seq<char>, s: Seq<char>) -> bool
    decreases p.len(), s.len(),
{
    if p.len() == 0 {
        s.len() == 0
    } else if p[0] == '*' {
        glob(p.skip(1), s) || (s.len() > 0 && glob(p, s.skip(1)))
    } else if p[0] == '?' {
        s.len() > 0 && glob(p.skip(1), s.skip(1))
    } else if p[0] == '[' {
        proof {
            lemma_closing(p, class_start(p) + 1);
        }
        s.len() > 0 && class_admits(p, s[0]) && glob(after_class(p), s.skip(1))
    } else {
        s.len() > 0 && s[0] == p[0] && glob(p.skip(1), s.skip(1))
    }
}

// ---- Matching -----------------------------------------------------------------------------------

/// Returns true if `name` matches the glob `pattern`.
pub fn matches(pattern: &str, name: &str) -> (yes: bool)
    ensures
        yes == glob(pattern@, name@),
{
    let p = text::chars_of(pattern);
    let s = text::chars_of(name);
    assert(p@.skip(0) =~= p@);
    assert(s@.skip(0) =~= s@);
    rec(&p, 0, &s, 0)
}

fn rec(p: &Vec<char>, i: usize, s: &Vec<char>, j: usize) -> (yes: bool)
    requires
        i <= p@.len(),
        j <= s@.len(),
    ensures
        yes == glob(p@.skip(i as int), s@.skip(j as int)),
    decreases p@.len() - i, s@.len() - j,
{
    let ghost pat = p@.skip(i as int);
    let ghost name = s@.skip(j as int);
    if i == p.len() {
        return j == s.len();
    }
    assert(pat.skip(1) =~= p@.skip(i + 1));
    assert(j < s@.len() ==> name.skip(1) =~= s@.skip(j + 1));
    if p[i] == '*' {
        // Match zero chars here, or consume one char and keep the '*'.
        return rec(p, i + 1, s, j) || (j < s.len() && rec(p, i, s, j + 1));
    }
    if j == s.len() {
        return false;
    }
    if p[i] == '?' {
        rec(p, i + 1, s, j + 1)
    } else if p[i] == '[' {
        let (matched, rest) = match_class(p, i, s[j]);
        matched && rec(p, rest, s, j + 1)
    } else {
        s[j] == p[i] && rec(p, i + 1, s, j + 1)
    }
}

/// Parse a `[...]` class starting at `p[at] == '['`, testing it against `c`.
/// Returns whether it matched and the position following the closing `]`.
pub fn match_class(p: &Vec<char>, at: usize, c: char) -> (found: (bool, usize))
    requires
        at < p@.len(),
        p@[at as int] == '[',
    ensures
        found.0 == class_admits(p@.skip(at as int), c),
        at < found.1 <= p@.len(),
        p@.skip(found.1 as int) == after_class(p@.skip(at as int)),
{
    let ghost pat = p@.skip(at as int);
    let ghost end = class_end(pat);
    let ghost body = class_members(pat);
    proof {
        lemma_closing(pat, class_start(pat) + 1);
    }
    assert(p@.len() == p.len());
    let mut i: usize = at + 1;
    let mut negate = false;
    if i < p.len() && (p[i] == '!' || p[i] == '^') {
        negate = true;
        i += 1;
    }
    let class_start: usize = i;
    let mut matched = false;
    assert(class_start - at == self::class_start(pat));
    assert(i < p@.len() ==> pat.subrange(i - at, end) =~= body);
    // A ']' immediately after the (optional) negation is a literal.
    while i < p.len() && (p[i] != ']' || i == class_start)
        invariant
            at < class_start <= i <= p@.len(),
            pat == p@.skip(at as int),
            end == class_end(pat),
            body == class_members(pat),
            class_start - at == self::class_start(pat),
            class_start < p@.len() ==> i - at <= end <= pat.len() && class_start - at < end,
            class_start >= p@.len() ==> body.len() == 0,
            end < pat.len() ==> pat[end] == ']',
            end <= pat.len(),
            forall|k: int| class_start - at < k < end ==> #[trigger] pat[k] != ']',
            i < p@.len() ==> (matched || listed_in(pat.subrange(i - at, end), c)) == listed_in(
                body,
                c,
            ),
            i >= p@.len() ==> matched == listed_in(body, c),
        decreases p@.len() - i,
    {
        let ghost left = pat.subrange(i - at, end);
        assert(pat[i - at] == p@[i as int]);
        assert(i - at < end);
        assert(left[0] == p@[i as int]);
        if p.len() - i > 2 && p[i + 1] == '-' && p[i + 2] != ']' {
            assert(pat[i + 1 - at] == '-' && pat[i + 2 - at] != ']');
            assert(i + 2 - at < end);
            assert(left.skip(3) =~= pat.subrange(i + 3 - at, end));
            if c >= p[i] && c <= p[i + 2] {
                matched = true;
            }
            i += 3;
        } else {
            assert(left.len() >= 3 && left[1] == '-' ==> false) by {
                if left.len() >= 3 && left[1] == '-' {
                    assert(pat[i + 1 - at] == left[1]);
                    assert(pat[i + 2 - at] != ']');
                }
            }
            assert(left.skip(1) =~= pat.subrange(i + 1 - at, end));
            if p[i] == c {
                matched = true;
            }
            i += 1;
        }
        proof {
            if i >= p@.len() {
                assert(pat.subrange(i - at, end).len() == 0);
                assert(!listed_in(pat.subrange(i - at, end), c));
            }
        }
    }
    proof {
        if i < p@.len() {
            assert(pat[i - at] == ']');
            assert(i - at == end);
            assert(pat.subrange(i - at, end).len() == 0);
        }
        if i < p@.len() {
            assert(p@.skip(i + 1) =~= after_class(pat));
        } else {
            assert(p@.skip(i as int) =~= after_class(pat));
        }
    }
    let rest: usize = if i < p.len() {
        i + 1
    } else {
        i
    };
    (matched != negate, rest)
}

// ---- Laws ---------------------------------------------------------------------------------------

/// A `*` stands for any run of characters, including none: what follows it in the pattern matches
/// some rest of the name.
pub proof fn law_star_is_any_run(rest: Seq<char>, s: Seq<char>)
    ensures
        glob(seq!['*'] + rest, s) <==> exists|k: int|
            0 <= k <= s.len() && #[trigger] glob(rest, s.skip(k)),
    decreases s.len(),
{
    let p = seq!['*'] + rest;
    assert(p.skip(1) =~= rest);
    assert(s.skip(0) =~= s);
    if s.len() > 0 {
        let t = s.skip(1);
        law_star_is_any_run(rest, t);
        if glob(p, t) {
            let k = choose|k: int| 0 <= k <= t.len() && #[trigger] glob(rest, t.skip(k));
            assert(t.skip(k) =~= s.skip(k + 1));
        }
        if exists|k: int| 0 <= k <= s.len() && #[trigger] glob(rest, s.skip(k)) {
            let k = choose|k: int| 0 <= k <= s.len() && #[trigger] glob(rest, s.skip(k));
            if k > 0 {
                assert(t.skip(k - 1) =~= s.skip(k));
                assert(glob(rest, t.skip(k - 1)));
            }
        }
    } else if exists|k: int| 0 <= k <= s.len() && #[trigger] glob(rest, s.skip(k)) {
        let k = choose|k: int| 0 <= k <= s.len() && #[trigger] glob(rest, s.skip(k));
        assert(k == 0);
    }
    if glob(rest, s) {
        assert(glob(rest, s.skip(0)));
    }
}

/// The pattern `*` matches every name.
pub proof fn law_star_matches_everything(s: Seq<char>)
    ensures
        glob(seq!['*'], s),
{
    let none = Seq::<char>::empty();
    law_star_is_any_run(none, s);
    assert(seq!['*'] + none =~= seq!['*']);
    assert(glob(none, s.skip(s.len() as int)));
}

/// A pattern without `*`, `?` and `[` matches just the name that it spells.
pub proof fn law_plain_pattern_matches_itself(p: Seq<char>, s: Seq<char>)
    requires
        forall|k: int| 0 <= k < p.len() ==> p[k] != '*' && p[k] != '?' && #[trigger] p[k] != '[',
    ensures
        glob(p, s) <==> p == s,
    decreases p.len(),
{
    if p.len() == 0 {
        assert(s.len() == 0 ==> s =~= p);
    } else {
        assert(p[0] != '[');
        let rest = p.skip(1);
        assert forall|k: int| 0 <= k < rest.len() implies rest[k] != '*' && rest[k] != '?'
            && #[trigger] rest[k] != '[' by {
            assert(rest[k] == p[k + 1]);
            assert(p[k + 1] != '[');
        }
        if s.len() > 0 {
            law_plain_pattern_matches_itself(rest, s.skip(1));
            if s[0] == p[0] && rest == s.skip(1) {
                assert(seq![p[0]] + rest =~= p);
                assert(seq![s[0]] + s.skip(1) =~= s);
            }
        }
    }
}

/// `*` and a plain suffix match just the names that end in the suffix.
pub proof fn law_star_suffix(suffix: Seq<char>, s: Seq<char>)
    requires
        forall|k: int|
            0 <= k < suffix.len() ==> suffix[k] != '*' && suffix[k] != '?' && #[trigger] suffix[k]
                != '[',
    ensures
        glob(seq!['*'] + suffix, s) <==> suffix.is_suffix_of(s),
{
    law_star_is_any_run(suffix, s);
    if glob(seq!['*'] + suffix, s) {
        let k = choose|k: int| 0 <= k <= s.len() && #[trigger] glob(suffix, s.skip(k));
        law_plain_pattern_matches_itself(suffix, s.skip(k));
        assert(s.subrange(s.len() - suffix.len(), s.len() as int) =~= suffix);
    }
    if suffix.is_suffix_of(s) {
        let k = s.len() - suffix.len();
        assert(s.skip(k) =~= suffix);
        law_plain_pattern_matches_itself(suffix, s.skip(k));
        assert(glob(suffix, s.skip(k)));
    }
}

/// The first closing bracket is the one behind the members.
proof fn lemma_closing_is(p: Seq<char>, from: int, end: int)
    requires
        0 <= from <= end < p.len(),
        p[end] == ']',
        forall|k: int| from <= k < end ==> #[trigger] p[k] != ']',
    ensures
        closing(p, from) == end,
    decreases end - from,
{
    if from < end {
        lemma_closing_is(p, from + 1, end);
    }
}

/// A negated class admits just what the plain one does not, and the pattern goes on behind the closing
/// bracket either way.
pub proof fn law_negation_is_the_complement(body: Seq<char>, rest: Seq<char>, c: char)
    requires
        body.len() > 0,
        body[0] != '!' && body[0] != '^',
        forall|k: int| 0 <= k < body.len() ==> #[trigger] body[k] != ']',
    ensures
        ({
            let plain = seq!['['] + body + seq![']'] + rest;
            let negated = seq!['[', '!'] + body + seq![']'] + rest;
            let caret = seq!['[', '^'] + body + seq![']'] + rest;
            &&& class_admits(plain, c) == listed_in(body, c)
            &&& class_admits(negated, c) == !class_admits(plain, c)
            &&& class_admits(caret, c) == !class_admits(plain, c)
            &&& after_class(plain) == rest
            &&& after_class(negated) == rest
            &&& after_class(caret) == rest
        }),
{
    let n = body.len() as int;
    let plain = seq!['['] + body + seq![']'] + rest;
    let negated = seq!['[', '!'] + body + seq![']'] + rest;
    let caret = seq!['[', '^'] + body + seq![']'] + rest;
    assert(plain[1] == body[0]);
    assert forall|k: int| 2 <= k < n + 1 implies #[trigger] plain[k] != ']' by {
        assert(plain[k] == body[k - 1]);
    }
    lemma_closing_is(plain, 2, n + 1);
    assert(class_members(plain) =~= body);
    assert(after_class(plain) =~= rest);
    assert forall|k: int| 3 <= k < n + 2 implies #[trigger] negated[k] != ']' by {
        assert(negated[k] == body[k - 2]);
    }
    lemma_closing_is(negated, 3, n + 2);
    assert(class_members(negated) =~= body);
    assert(after_class(negated) =~= rest);
    assert forall|k: int| 3 <= k < n + 2 implies #[trigger] caret[k] != ']' by {
        assert(caret[k] == body[k - 2]);
    }
    lemma_closing_is(caret, 3, n + 2);
    assert(class_members(caret) =~= body);
    assert(after_class(caret) =~= rest);
}

/// A `?` stands for just one character, whatever it is.
pub proof fn law_question_mark_is_any_character(rest: Seq<char>, s: Seq<char>)
    ensures
        glob(seq!['?'] + rest, s) <==> s.len() > 0 && glob(rest, s.skip(1)),
{
    assert((seq!['?'] + rest).skip(1) =~= rest);
}

/// A character that means nothing else stands for itself.
pub proof fn law_other_characters_stand_for_themselves(c: char, rest: Seq<char>, s: Seq<char>)
    requires
        c != '*' && c != '?' && c != '[',
    ensures
        glob(seq![c] + rest, s) <==> s.len() > 0 && s[0] == c && glob(rest, s.skip(1)),
{
    assert((seq![c] + rest).skip(1) =~= rest);
}

proof fn lemma_listed_plainly(body: Seq<char>, c: char)
    requires
        forall|k: int| 0 <= k < body.len() ==> #[trigger] body[k] != '-',
    ensures
        listed_in(body, c) <==> body.contains(c),
    decreases body.len(),
{
    if body.len() > 0 {
        let rest = body.skip(1);
        lemma_listed_plainly(rest, c);
        if body.contains(c) && body[0] != c {
            let k = choose|k: int| 0 <= k < body.len() && body[k] == c;
            assert(rest[k - 1] == c);
        }
        if rest.contains(c) {
            let k = choose|k: int| 0 <= k < rest.len() && rest[k] == c;
            assert(body[k + 1] == c);
        }
        if body[0] == c {
            assert(body.contains(c));
        }
    }
}

/// A class stands for one character out of those between its brackets, or, with a `!` or a `^` in
/// front, for one that is not among them.
pub proof fn law_classes_list_characters(body: Seq<char>, rest: Seq<char>, s: Seq<char>)
    requires
        body.len() > 0,
        body[0] != '!' && body[0] != '^',
        forall|k: int| 0 <= k < body.len() ==> body[k] != '-' && #[trigger] body[k] != ']',
    ensures
        glob(seq!['['] + body + seq![']'] + rest, s) <==> s.len() > 0 && body.contains(s[0])
            && glob(rest, s.skip(1)),
        glob(seq!['[', '!'] + body + seq![']'] + rest, s) <==> s.len() > 0 && !body.contains(s[0])
            && glob(rest, s.skip(1)),
        glob(seq!['[', '^'] + body + seq![']'] + rest, s) <==> s.len() > 0 && !body.contains(s[0])
            && glob(rest, s.skip(1)),
{
    if s.len() > 0 {
        law_negation_is_the_complement(body, rest, s[0]);
        lemma_listed_plainly(body, s[0]);
    }
}

/// A range stands for one character between its ends, both included.
pub proof fn law_ranges_are_closed(a: char, b: char, rest: Seq<char>, s: Seq<char>)
    requires
        a != '!' && a != '^' && a != ']' && b != ']',
    ensures
        glob(seq!['[', a, '-', b, ']'] + rest, s) <==> s.len() > 0 && a <= s[0] && s[0] <= b && glob(
            rest,
            s.skip(1),
        ),
{
    let body = seq![a, '-', b];
    assert(seq!['[', a, '-', b, ']'] + rest =~= seq!['['] + body + seq![']'] + rest);
    if s.len() > 0 {
        law_negation_is_the_complement(body, rest, s[0]);
        reveal_with_fuel(listed_in, 2);
        assert(body.skip(3) =~= Seq::empty());
    }
}

/// A `]` right behind the bracket is one of the characters of a class, and does not end it.
pub proof fn law_a_bracket_that_comes_first_is_a_member(body: Seq<char>, rest: Seq<char>, s: Seq<char>)
    requires
        forall|k: int| 0 <= k < body.len() ==> body[k] != '-' && #[trigger] body[k] != ']',
    ensures
        glob(seq!['[', ']'] + body + seq![']'] + rest, s) <==> s.len() > 0 && (s[0] == ']'
            || body.contains(s[0])) && glob(rest, s.skip(1)),
{
    let p = seq!['[', ']'] + body + seq![']'] + rest;
    let end = 2 + body.len();
    lemma_closes_at(p, 2, end as int);
    assert(after_class(p) =~= rest);
    let members = seq![']'] + body;
    assert(class_members(p) =~= members);
    if s.len() > 0 {
        lemma_listed_plainly(members, s[0]);
        if body.contains(s[0]) {
            let k = choose|k: int| 0 <= k < body.len() && body[k] == s[0];
            assert(members[k + 1] == s[0]);
        }
        if s[0] == ']' {
            assert(members[0] == s[0]);
        }
        if members.contains(s[0]) && s[0] != ']' {
            let k = choose|k: int| 0 <= k < members.len() && members[k] == s[0];
            assert(body[k - 1] == s[0]);
        }
    }
}

proof fn lemma_closes_at(p: Seq<char>, from: int, at: int)
    requires
        0 <= from <= at <= p.len(),
        forall|k: int| from <= k < at ==> #[trigger] p[k] != ']',
        at < p.len() ==> p[at] == ']',
    ensures
        closing(p, from) == at,
    decreases at - from,
{
    if from < at {
        lemma_closes_at(p, from + 1, at);
    }
}

/// A class that is not closed goes on to the end of the pattern.
pub proof fn law_a_class_that_is_not_closed_goes_on(body: Seq<char>, s: Seq<char>)
    requires
        body.len() > 0,
        body[0] != '!' && body[0] != '^',
        forall|k: int| 0 <= k < body.len() ==> body[k] != '-' && #[trigger] body[k] != ']',
    ensures
        glob(seq!['['] + body, s) <==> s.len() == 1 && body.contains(s[0]),
{
    let p = seq!['['] + body;
    lemma_closes_at(p, 2, p.len() as int);
    assert(class_members(p) =~= body);
    if s.len() > 0 {
        lemma_listed_plainly(body, s[0]);
        assert(glob(Seq::empty(), s.skip(1)) <==> s.len() == 1);
    }
}

} // verus!
