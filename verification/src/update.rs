//! `rcdu update`: whether and with what the running binary is to be replaced.
//!
//! The latest GitHub release is downloaded and verified against the release's SHA-256 checksums
//! before it is installed.
use vstd::prelude::*;

use serde_json::Value;

use crate::dump;
use crate::json;
use crate::json::{Doc, Json};
use crate::outside;
use crate::sha256;
use crate::text;
use crate::words;

verus! {

/// Where releases are published.
pub fn repo() -> (r: &'static str)
    ensures
        r@ == "mayankasthana/rcdu"@,
{
    "mayankasthana/rcdu"
}

// ---- The platform ---------------------------------------------------------------------------------------

/// The asset for a platform, as published on Releases.
pub open spec fn asset_of(os: Seq<char>, arch: Seq<char>) -> Option<Seq<char>> {
    if os == "macos"@ && arch == "aarch64"@ {
        Some("rcdu-portable-macos-aarch64"@)
    } else if os == "macos"@ && arch == "x86_64"@ {
        Some("rcdu-portable-macos-x86_64"@)
    } else if os == "linux"@ && arch == "x86_64"@ {
        Some("rcdu-portable-linux-x86_64"@)
    } else if os == "linux"@ && arch == "aarch64"@ {
        Some("rcdu-portable-linux-aarch64"@)
    } else {
        None
    }
}

/// Asset name for the platform rcdu was built for, as published on Releases.
pub fn asset_name(os: &str, arch: &str) -> (asset: Option<&'static str>)
    ensures
        match asset {
            Some(name) => asset_of(os@, arch@) == Some(name@),
            None => asset_of(os@, arch@) is None,
        },
{
    if text::same(os, "macos") && text::same(arch, "aarch64") {
        Some("rcdu-portable-macos-aarch64")
    } else if text::same(os, "macos") && text::same(arch, "x86_64") {
        Some("rcdu-portable-macos-x86_64")
    } else if text::same(os, "linux") && text::same(arch, "x86_64") {
        Some("rcdu-portable-linux-x86_64")
    } else if text::same(os, "linux") && text::same(arch, "aarch64") {
        Some("rcdu-portable-linux-aarch64")
    } else {
        None
    }
}

// ---- Versions -------------------------------------------------------------------------------------------

/// The value of some digits; nothing if there are none or something else is among them.
pub open spec fn digits_value(s: Seq<char>) -> Option<nat>
    decreases s.len(),
{
    if s.len() == 0 {
        None
    } else if !('0' <= s.last() <= '9') {
        None
    } else {
        let d = (s.last() as int - '0' as int) as nat;
        if s.len() == 1 {
            Some(d)
        } else {
            match digits_value(s.drop_last()) {
                Some(n) => Some(10 * n + d),
                None => None,
            }
        }
    }
}

/// The 64-bit number that a text spells: digits, perhaps with a plus sign before them.
pub open spec fn number_of(s: Seq<char>) -> Option<u64> {
    let digits = if s.len() > 0 && s[0] == '+' {
        s.skip(1)
    } else {
        s
    };
    match digits_value(digits) {
        Some(n) => if n <= u64::MAX {
            Some(n as u64)
        } else {
            None
        },
        None => None,
    }
}

/// The number that a text spells, if it does and it fits.
pub fn parse_number(s: &str) -> (n: Option<u64>)
    ensures
        n == number_of(s@),
{
    let chars = text::chars_of(s);
    let start: usize = if chars.len() > 0 && chars[0] == '+' {
        1
    } else {
        0
    };
    let ghost digits = chars@.skip(start as int);
    assert(start == 0 ==> digits =~= s@);
    if start == chars.len() {
        return None;
    }
    let mut value: u64 = 0;
    let mut i: usize = start;
    while i < chars.len()
        invariant
            start <= i <= chars@.len(),
            digits == chars@.skip(start as int),
            chars@ == s@,
            number_of(s@) == match digits_value(digits) {
                Some(n) => if n <= u64::MAX {
                    Some(n as u64)
                } else {
                    None
                },
                None => None,
            },
            i > start ==> digits_value(digits.take(i - start)) == Some(value as nat),
            i == start ==> value == 0,
        decreases chars@.len() - i,
    {
        let c = chars[i];
        let ghost k = i - start;
        proof {
            assert(digits.take(k + 1).drop_last() =~= digits.take(k));
            assert(digits.take(k + 1).last() == c);
            lemma_digits_longer(digits, k + 1);
        }
        if !('0' <= c && c <= '9') {
            assert(digits_value(digits.take(k + 1)) is None);
            return None;
        }
        let d: u64 = c as u64 - '0' as u64;
        match value.checked_mul(10) {
            Some(tens) => match tens.checked_add(d) {
                Some(next) => {
                    value = next;
                },
                None => {
                    return None;
                },
            },
            None => {
                return None;
            },
        }
        i += 1;
    }
    assert(digits.take(i - start) =~= digits);
    Some(value)
}

/// What some digits spell is no less than what the first of them spell.
proof fn lemma_digits_longer(s: Seq<char>, k: int)
    requires
        0 < k <= s.len(),
    ensures
        digits_value(s.take(k)) is None ==> digits_value(s) is None,
        digits_value(s) is Some ==> digits_value(s.take(k)) is Some && digits_value(s)->0
            >= digits_value(s.take(k))->0,
    decreases s.len(),
{
    if k == s.len() {
        assert(s.take(k) =~= s);
    } else {
        assert(s.drop_last().take(k) =~= s.take(k));
        lemma_digits_longer(s.drop_last(), k);
    }
}

/// The numbers of a dotted version. A leading `v` and any pre-release/build suffix are ignored, and
/// what is no number counts as zero.
pub open spec fn version_parts(v: Seq<char>) -> Seq<u64> {
    let bare = words::stripped_start(words::trimmed(v), 'v');
    let core = bare.take(words::find_either(bare, '-', '+', 0));
    let pieces = words::split_at_char(core, '.');
    Seq::new(
        pieces.len(),
        |k: int|
            match number_of(pieces[k]) {
                Some(n) => n,
                None => 0,
            },
    )
}

/// The number at a place of a version; places that are left out are zero.
pub open spec fn part_at(parts: Seq<u64>, i: int) -> u64 {
    if 0 <= i < parts.len() {
        parts[i]
    } else {
        0
    }
}

/// The first place at which the versions differ has the larger number in `l`.
pub open spec fn newer(l: Seq<u64>, c: Seq<u64>) -> bool {
    exists|i: int|
        0 <= i && #[trigger] part_at(l, i) > part_at(c, i) && forall|j: int|
            0 <= j < i ==> #[trigger] part_at(l, j) == part_at(c, j)
}

fn parts(v: &str) -> (out: Vec<u64>)
    ensures
        out@ == version_parts(v@),
{
    let trimmed = words::trim(v);
    let bare = words::strip_start(trimmed.as_str(), 'v');
    let core = words::before_either(bare.as_str(), '-', '+');
    let pieces = words::split_char(core.as_str(), '.');
    let ghost all = words::text_views(pieces@);
    let mut out: Vec<u64> = Vec::new();
    let mut k: usize = 0;
    while k < pieces.len()
        invariant
            k <= pieces@.len(),
            all == words::text_views(pieces@),
            out@.len() == k,
            forall|i: int|
                0 <= i < k ==> #[trigger] out@[i] == match number_of(all[i]) {
                    Some(n) => n,
                    None => 0,
                },
        decreases pieces@.len() - k,
    {
        assert(all[k as int] == pieces@[k as int]@);
        let n: u64 = match parse_number(pieces[k].as_str()) {
            Some(n) => n,
            None => 0,
        };
        out.push(n);
        k += 1;
    }
    assert(out@ =~= version_parts(v@));
    out
}

/// True when `latest` is a strictly newer dotted version than `current`.
/// Ignores a leading `v` and any pre-release/build suffix.
pub fn is_newer(latest: &str, current: &str) -> (yes: bool)
    ensures
        yes == newer(version_parts(latest@), version_parts(current@)),
{
    let l = parts(latest);
    let c = parts(current);
    let n: usize = if l.len() > c.len() {
        l.len()
    } else {
        c.len()
    };
    let mut i: usize = 0;
    while i < n
        invariant
            l@ == version_parts(latest@),
            c@ == version_parts(current@),
            l@.len() <= n,
            c@.len() <= n,
            i <= n,
            forall|j: int| 0 <= j < i ==> #[trigger] part_at(l@, j) == part_at(c@, j),
        decreases n - i,
    {
        let li: u64 = if i < l.len() {
            l[i]
        } else {
            0
        };
        let ci: u64 = if i < c.len() {
            c[i]
        } else {
            0
        };
        assert(li == part_at(l@, i as int) && ci == part_at(c@, i as int));
        if li != ci {
            proof {
                if newer(l@, c@) {
                    let k = choose|k: int|
                        0 <= k && #[trigger] part_at(l@, k) > part_at(c@, k) && forall|j: int|
                            0 <= j < k ==> #[trigger] part_at(l@, j) == part_at(c@, j);
                    assert(k == i) by {
                        if k < i {
                            assert(part_at(l@, k) == part_at(c@, k));
                        } else if k > i {
                            assert(part_at(l@, i as int) == part_at(c@, i as int));
                        }
                    }
                }
            }
            return li > ci;
        }
        i += 1;
    }
    proof {
        if newer(l@, c@) {
            let k = choose|k: int|
                0 <= k && #[trigger] part_at(l@, k) > part_at(c@, k) && forall|j: int|
                    0 <= j < k ==> #[trigger] part_at(l@, j) == part_at(c@, j);
            if k < n {
                assert(part_at(l@, k) == part_at(c@, k));
            }
        }
    }
    false
}

/// No version is newer than itself, and of two versions at most one is newer.
pub proof fn law_newer_is_strict(l: Seq<u64>, c: Seq<u64>)
    ensures
        !newer(l, l),
        newer(l, c) ==> !newer(c, l),
{
    if newer(l, c) && newer(c, l) {
        let i = choose|i: int|
            0 <= i && #[trigger] part_at(l, i) > part_at(c, i) && forall|j: int|
                0 <= j < i ==> #[trigger] part_at(l, j) == part_at(c, j);
        let k = choose|k: int|
            0 <= k && #[trigger] part_at(c, k) > part_at(l, k) && forall|j: int|
                0 <= j < k ==> #[trigger] part_at(c, j) == part_at(l, j);
        if i < k {
            assert(part_at(c, i) == part_at(l, i));
        } else if k < i {
            assert(part_at(l, k) == part_at(c, k));
        }
    }
}

/// A version that is newer than one that is newer than a third is newer than the third.
pub proof fn law_newer_is_transitive(a: Seq<u64>, b: Seq<u64>, c: Seq<u64>)
    requires
        newer(a, b),
        newer(b, c),
    ensures
        newer(a, c),
{
    let i = choose|i: int|
        0 <= i && #[trigger] part_at(a, i) > part_at(b, i) && forall|j: int|
            0 <= j < i ==> #[trigger] part_at(a, j) == part_at(b, j);
    let k = choose|k: int|
        0 <= k && #[trigger] part_at(b, k) > part_at(c, k) && forall|j: int|
            0 <= j < k ==> #[trigger] part_at(b, j) == part_at(c, j);
    let m = if i < k {
        i
    } else {
        k
    };
    assert(part_at(a, m) > part_at(c, m)) by {
        if i < k {
            assert(part_at(b, i) == part_at(c, i));
        } else if k < i {
            assert(part_at(a, k) == part_at(b, k));
        }
    }
    assert forall|j: int| 0 <= j < m implies #[trigger] part_at(a, j) == part_at(c, j) by {
        assert(part_at(a, j) == part_at(b, j));
        assert(part_at(b, j) == part_at(c, j));
    }
}

/// There is no white space in the text.
pub open spec fn unspaced(s: Seq<char>) -> bool {
    forall|k: int| 0 <= k < s.len() ==> !words::is_white(#[trigger] s[k])
}

proof fn lemma_unspaced_is_trimmed(s: Seq<char>)
    requires
        unspaced(s),
    ensures
        words::trimmed(s) == s,
{
    if s.len() > 0 {
        assert(!words::is_white(s[0]));
        assert(!words::is_white(s[s.len() - 1]));
    }
}

/// What follows a character that is not stripped stays.
proof fn lemma_stripped_before(s: Seq<char>, tail: Seq<char>, c: char)
    requires
        tail.len() > 0,
        tail[0] != c,
    ensures
        words::stripped_start(s + tail, c) == words::stripped_start(s, c) + tail,
    decreases s.len(),
{
    if s.len() == 0 {
        assert(s + tail =~= tail);
    } else if s[0] == c {
        assert((s + tail).skip(1) =~= s.skip(1) + tail);
        lemma_stripped_before(s.skip(1), tail, c);
    }
}

proof fn lemma_found_before(s: Seq<char>, tail: Seq<char>, a: char, b: char, from: int)
    requires
        0 <= from <= s.len(),
        tail.len() > 0,
        tail[0] == a || tail[0] == b,
    ensures
        words::find_either(s + tail, a, b, from) == words::find_either(s, a, b, from),
        words::find_either(s, a, b, from) <= s.len(),
    decreases s.len() - from,
{
    if from < s.len() {
        assert((s + tail)[from] == s[from]);
        if s[from] != a && s[from] != b {
            lemma_found_before(s, tail, a, b, from + 1);
        }
    } else {
        assert((s + tail)[from] == tail[0]);
    }
}

proof fn lemma_suffix_ignored(s: Seq<char>, tail: Seq<char>)
    requires
        unspaced(s),
        unspaced(tail),
        tail.len() > 0,
        tail[0] == '-' || tail[0] == '+',
    ensures
        version_parts(s + tail) == version_parts(s),
{
    assert(unspaced(s + tail)) by {
        assert forall|k: int| 0 <= k < (s + tail).len() implies !words::is_white(
            #[trigger] (s + tail)[k],
        ) by {
            if k < s.len() {
                assert((s + tail)[k] == s[k]);
            } else {
                assert((s + tail)[k] == tail[k - s.len()]);
            }
        }
    }
    lemma_unspaced_is_trimmed(s);
    lemma_unspaced_is_trimmed(s + tail);
    lemma_stripped_before(s, tail, 'v');
    let bare = words::stripped_start(s, 'v');
    lemma_found_before(bare, tail, '-', '+', 0);
    let n = words::find_either(bare, '-', '+', 0);
    lemma_found_within(bare, '-', '+', 0);
    assert((bare + tail).take(n) =~= bare.take(n));
}

proof fn lemma_found_within(s: Seq<char>, a: char, b: char, from: int)
    requires
        0 <= from <= s.len(),
    ensures
        0 <= words::find_either(s, a, b, from) <= s.len(),
    decreases s.len() - from,
{
    if from < s.len() && s[from] != a && s[from] != b {
        lemma_found_within(s, a, b, from + 1);
    }
}

/// A leading `v` makes no difference to a version, nor does a suffix for a pre-release or a build.
pub proof fn law_prefix_and_suffix_are_ignored(s: Seq<char>, x: Seq<char>)
    requires
        unspaced(s),
        unspaced(x),
    ensures
        version_parts(seq!['v'] + s) == version_parts(s),
        version_parts(s + seq!['-'] + x) == version_parts(s),
        version_parts(s + seq!['+'] + x) == version_parts(s),
{
    let marked = seq!['v'] + s;
    assert(unspaced(marked)) by {
        assert forall|k: int| 0 <= k < marked.len() implies !words::is_white(
            #[trigger] marked[k],
        ) by {
            if k > 0 {
                assert(marked[k] == s[k - 1]);
            }
        }
    }
    lemma_unspaced_is_trimmed(s);
    lemma_unspaced_is_trimmed(marked);
    assert(marked.skip(1) =~= s);
    let pre = seq!['-'] + x;
    let build = seq!['+'] + x;
    assert(s + seq!['-'] + x =~= s + pre);
    assert(s + seq!['+'] + x =~= s + build);
    assert forall|k: int| 0 <= k < pre.len() implies !words::is_white(#[trigger] pre[k])
        && !words::is_white(build[k]) by {
        if k > 0 {
            assert(pre[k] == x[k - 1] && build[k] == x[k - 1]);
        }
    }
    assert forall|k: int| 0 <= k < build.len() implies !words::is_white(#[trigger] build[k]) by {
        if k > 0 {
            assert(build[k] == x[k - 1]);
        }
    }
    lemma_suffix_ignored(s, pre);
    lemma_suffix_ignored(s, build);
}

// ---- Checksums ------------------------------------------------------------------------------------------

/// The line is one for `asset`: a digest, and a name that is marked with any number of stars.
pub open spec fn line_names(line: Seq<char>, asset: Seq<char>) -> bool {
    let w = words::words_of(line);
    w.len() >= 2 && words::stripped_start(w[1], '*') == asset
}

/// The digest in the first line for `asset`, as it is written.
pub open spec fn digest_in(lines: Seq<Seq<char>>, asset: Seq<char>) -> Option<Seq<char>>
    decreases lines.len(),
{
    if lines.len() == 0 {
        None
    } else if line_names(lines[0], asset) {
        Some(words::words_of(lines[0])[0])
    } else {
        digest_in(lines.skip(1), asset)
    }
}

/// First column of the `<digest>  <name>` line matching `asset`, as it is written.
pub fn digest_column(sums: &str, asset: &str) -> (digest: Option<String>)
    ensures
        match digest {
            Some(d) => digest_in(words::lines_of(sums@), asset@) == Some(d@),
            None => digest_in(words::lines_of(sums@), asset@) is None,
        },
{
    let lines = words::lines(sums);
    let ghost all = words::text_views(lines@);
    let mut k: usize = 0;
    assert(all.skip(0) =~= all);
    while k < lines.len()
        invariant
            k <= lines@.len(),
            all == words::text_views(lines@),
            all == words::lines_of(sums@),
            digest_in(all.skip(k as int), asset@) == digest_in(all, asset@),
        decreases lines@.len() - k,
    {
        let w = words::split_whitespace(lines[k].as_str());
        proof {
            assert(all[k as int] == lines@[k as int]@);
            assert(all.skip(k as int).skip(1) =~= all.skip(k + 1));
            assert(all.skip(k as int)[0] == all[k as int]);
        }
        if w.len() >= 2 {
            let ghost ws = words::text_views(w@);
            assert(ws[0] == w@[0]@ && ws[1] == w@[1]@);
            let name = words::strip_start(w[1].as_str(), '*');
            if text::same(name.as_str(), asset) {
                return Some(w[0].clone());
            }
        }
        k += 1;
    }
    None
}

/// First column of the `<digest>  <name>` line matching `asset`, in lower case.
pub fn expected_digest(sums: &str, asset: &str) -> (digest: Option<String>)
    ensures
        match digest_in(words::lines_of(sums@), asset@) {
            Some(written) => digest is Some && digest->0@ == outside::lowercase_of(written),
            None => digest is None,
        },
{
    match digest_column(sums, asset) {
        Some(d) => Some(outside::to_lowercase(d.as_str())),
        None => None,
    }
}

/// Comparison of hex digests that looks at every byte of equally long ones.
pub fn fixed_eq(a: &str, b: &str) -> (yes: bool)
    ensures
        yes == (a@ == b@),
{
    let x = a.as_bytes();
    let y = b.as_bytes();
    proof {
        vstd::utf8::encode_utf8_decode_utf8(a@);
        vstd::utf8::encode_utf8_decode_utf8(b@);
    }
    if x.len() != y.len() {
        return false;
    }
    let mut differ: u8 = 0;
    let mut k: usize = 0;
    while k < x.len()
        invariant
            x@.len() == y@.len(),
            k <= x@.len(),
            differ == 0 <==> forall|i: int| 0 <= i < k ==> #[trigger] x@[i] == y@[i],
        decreases x@.len() - k,
    {
        let p: u8 = x[k];
        let q: u8 = y[k];
        let ghost before = differ;
        differ = differ | (p ^ q);
        assert((before | (p ^ q)) == 0u8 <==> before == 0u8 && p == q) by (bit_vector);
        k += 1;
    }
    if differ == 0 {
        assert(x@ =~= y@);
    }
    differ == 0
}

// ---- The update, step by step -----------------------------------------------------------------------------

/// Where the latest release is described.
pub fn latest_url() -> (url: String)
    ensures
        url@ == "https://api.github.com/repos/"@ + "mayankasthana/rcdu"@ + "/releases/latest"@,
{
    text::joined(text::joined("https://api.github.com/repos/", repo()).as_str(), "/releases/latest")
}

/// What is said if there is no release.
pub open spec fn no_release_text() -> Seq<char> {
    "no releases found — see https://github.com/"@ + "mayankasthana/rcdu"@ + "/releases"@
}

/// The tag that a description of a release holds.
pub open spec fn tag_in(v: Json) -> Option<Seq<char>> {
    dump::text_field(v, "tag_name"@)
}

/// The tag that a parsed description of a release holds.
pub fn release_tag(v: &Value) -> (tag: Option<String>)
    ensures
        match tag {
            Some(t) => tag_in(outside::json_of(*v)) == Some(t@),
            None => tag_in(outside::json_of(*v)) is None,
        },
{
    dump::get_text(v, "tag_name")
}

/// Latest release tag from the GitHub API (e.g. `v0.2.0`), out of its response.
pub fn latest_tag(body: &[u8]) -> (tag: Result<String, String>)
    ensures
        match outside::json_parse(body@) {
            Ok(v) => match tag_in(v) {
                Some(t) => tag is Ok && tag->Ok_0@ == t,
                None => tag is Err && tag->Err_0@ == no_release_text(),
            },
            Err(why) => tag is Err && tag->Err_0@ == "unexpected response from the GitHub API: "@
                + why,
        },
        forall|s: Seq<char>, d: Doc|
            vstd::utf8::encode_utf8(s + seq!['\n']) == body@ && #[trigger] json::spells(s, d)
                && json::depth(d) <= outside::max_depth() ==> match tag_in(json::meaning(d)) {
                Some(t) => tag is Ok && tag->Ok_0@ == t,
                None => tag is Err && tag->Err_0@ == no_release_text(),
            },
{
    match outside::parse_json(body) {
        Ok(v) => match release_tag(&v) {
            Some(t) => Ok(t),
            None => Err(
                text::joined(
                    text::joined("no releases found — see https://github.com/", repo()).as_str(),
                    "/releases",
                ),
            ),
        },
        Err(why) => Err(
            text::joined("unexpected response from the GitHub API: ", why.as_str()),
        ),
    }
}

/// What is to be done once the latest tag is known.
pub enum Plan {
    /// Nothing: this is said.
    UpToDate(String),
    /// There is something newer; these lines are said, and nothing is installed.
    Announce(String, String),
    /// There is something newer: this is said, and the asset and the checksums at these addresses
    /// are fetched.
    Fetch { note: String, asset_url: String, sums_url: String },
}

/// Where the files of a release lie.
pub open spec fn release_base(tag: Seq<char>) -> Seq<char> {
    "https://github.com/"@ + "mayankasthana/rcdu"@ + "/releases/download/"@ + tag
}

/// What to do about the release `tag` while `current` is running.
pub fn plan(tag: &str, current: &str, asset: &str, check_only: bool) -> (p: Plan)
    ensures
        p is UpToDate <==> !newer(version_parts(tag@), version_parts(current@)),
        check_only ==> !(p is Fetch),
        match p {
            Plan::UpToDate(said) => {
                &&& !newer(version_parts(tag@), version_parts(current@))
                &&& said@ == "rcdu "@ + current@ + " is up to date (latest release: "@ + tag@ + ")"@
            },
            Plan::Announce(first, second) => {
                &&& newer(version_parts(tag@), version_parts(current@)) && check_only
                &&& first@ == "updating rcdu "@ + current@ + " -> "@ + tag@
                &&& second@ == "run `rcdu update` to install it"@
            },
            Plan::Fetch { note, asset_url, sums_url } => {
                &&& newer(version_parts(tag@), version_parts(current@)) && !check_only
                &&& note@ == "updating rcdu "@ + current@ + " -> "@ + tag@
                &&& asset_url@ == release_base(tag@) + "/"@ + asset@
                &&& sums_url@ == release_base(tag@) + "/sha256sums.txt"@
            },
        },
{
    if !is_newer(tag, current) {
        let a = text::joined("rcdu ", current);
        let b = text::joined(a.as_str(), " is up to date (latest release: ");
        let c = text::joined(b.as_str(), tag);
        return Plan::UpToDate(text::joined(c.as_str(), ")"));
    }
    let a = text::joined("updating rcdu ", current);
    let b = text::joined(a.as_str(), " -> ");
    let note = text::joined(b.as_str(), tag);
    if check_only {
        return Plan::Announce(note, "run `rcdu update` to install it".to_string());
    }
    let c = text::joined("https://github.com/", repo());
    let d = text::joined(c.as_str(), "/releases/download/");
    let base = text::joined(d.as_str(), tag);
    let e = text::joined(base.as_str(), "/");
    Plan::Fetch {
        note,
        asset_url: text::joined(e.as_str(), asset),
        sums_url: text::joined(base.as_str(), "/sha256sums.txt"),
    }
}

/// Whether a download with the digest `digest` may be installed, given the digest that is expected.
pub fn accept_digest(expected: Option<String>, digest: &str, asset: &str) -> (verdict: Result<
    (),
    String,
>)
    ensures
        verdict is Ok <==> expected is Some && expected->0@ == digest@,
        match expected {
            None => verdict is Err && verdict->Err_0@ == asset@
                + " is not listed in sha256sums.txt — refusing to install"@,
            Some(e) => if e@ == digest@ {
                verdict is Ok
            } else {
                verdict is Err && verdict->Err_0@ == "checksum mismatch for "@ + asset@
                    + " (expected "@ + e@ + ") — aborting"@
            },
        },
{
    match expected {
        None => Err(
            text::joined(asset, " is not listed in sha256sums.txt — refusing to install"),
        ),
        Some(e) => {
            if fixed_eq(digest, e.as_str()) {
                Ok(())
            } else {
                let mut why = text::joined("checksum mismatch for ", asset);
                why.append(" (expected ");
                why.append(e.as_str());
                why.append(") — aborting");
                Err(why)
            }
        },
    }
}

/// Whether a download may be installed, given its release's checksums.
pub fn verify_download(sums: &str, bytes: &[u8], asset: &str) -> (verdict: Result<(), String>)
    requires
        bytes@.len() <= 0x1fff_ffff_ffff_ff00,
    ensures
        verdict is Ok ==> digest_in(words::lines_of(sums@), asset@) is Some,
        match digest_in(words::lines_of(sums@), asset@) {
            None => verdict is Err && verdict->Err_0@ == asset@
                + " is not listed in sha256sums.txt — refusing to install"@,
            Some(written) => if outside::lowercase_of(written) == sha256::hex(
                sha256::digest(bytes@),
            ) {
                verdict is Ok
            } else {
                verdict is Err && verdict->Err_0@ == "checksum mismatch for "@ + asset@
                    + " (expected "@ + outside::lowercase_of(written) + ") — aborting"@
            },
        },
{
    let digest = sha256::hex_digest(bytes);
    accept_digest(expected_digest(sums, asset), digest.as_str(), asset)
}

// ---- Numbers and versions ---------------------------------------------------------------------------

pub proof fn lemma_decimal_digits(n: nat)
    ensures
        digits_value(text::decimal(n)) == Some(n),
        text::decimal(n).len() > 0,
        forall|k: int|
            0 <= k < text::decimal(n).len() ==> '0' <= #[trigger] text::decimal(n)[k] <= '9',
    decreases n,
{
    let t = text::decimal(n);
    if n >= 10 {
        lemma_decimal_digits(n / 10);
        let before = text::decimal(n / 10);
        assert(t.drop_last() =~= before);
        assert forall|k: int| 0 <= k < t.len() implies '0' <= #[trigger] t[k] <= '9' by {
            if k < before.len() {
                assert(t[k] == before[k]);
            }
        }
    }
}

/// A numeral is read as the number that it was written for.
pub proof fn lemma_decimal_is_read(n: nat)
    requires
        n <= u64::MAX,
    ensures
        number_of(text::decimal(n)) == Some(n as u64),
{
    lemma_decimal_digits(n);
    assert('0' <= text::decimal(n)[0]);
}

proof fn lemma_no_white_ends(s: Seq<char>)
    requires
        unspaced(s),
    ensures
        words::trimmed(s) == s,
{
}

proof fn lemma_none_found(s: Seq<char>, from: int)
    requires
        0 <= from <= s.len(),
        forall|k: int| 0 <= k < s.len() ==> #[trigger] s[k] != '-' && s[k] != '+',
    ensures
        words::find_either(s, '-', '+', from) == s.len(),
    decreases s.len() - from,
{
    if from < s.len() {
        lemma_none_found(s, from + 1);
    }
}

/// A version of three numbers is read as the three numbers, in their order.
pub proof fn law_versions_are_read(a: u64, b: u64, c: u64)
    ensures
        version_parts(
            text::decimal(a as nat) + seq!['.'] + text::decimal(b as nat) + seq!['.'] + text::decimal(
                c as nat,
            ),
        ) == seq![a, b, c],
{
    let x = text::decimal(a as nat);
    let y = text::decimal(b as nat);
    let z = text::decimal(c as nat);
    let v = x + seq!['.'] + y + seq!['.'] + z;
    lemma_decimal_digits(a as nat);
    lemma_decimal_digits(b as nat);
    lemma_decimal_digits(c as nat);
    lemma_decimal_is_read(a as nat);
    lemma_decimal_is_read(b as nat);
    lemma_decimal_is_read(c as nat);
    assert forall|k: int| 0 <= k < v.len() implies ('0' <= #[trigger] v[k] <= '9' || v[k] == '.') by {
        if k < x.len() {
            assert(v[k] == x[k]);
        } else if x.len() < k < x.len() + 1 + y.len() {
            assert(v[k] == y[k - x.len() - 1]);
        } else if k > x.len() + 1 + y.len() {
            assert(v[k] == z[k - x.len() - 1 - y.len() - 1]);
        }
    }
    lemma_no_white_ends(v);
    assert(v[0] == x[0]);
    assert(words::stripped_start(v, 'v') == v);
    lemma_none_found(v, 0);
    assert(v.take(v.len() as int) =~= v);
    assert(!x.contains('.'));
    assert(!y.contains('.'));
    assert(!z.contains('.'));
    words::lemma_split_behind(x, y + seq!['.'] + z, '.');
    words::lemma_split_behind(y, z, '.');
    words::lemma_split_behind(z, Seq::empty(), '.');
    assert(v =~= x.push('.') + (y + seq!['.'] + z));
    assert(y + seq!['.'] + z =~= y.push('.') + z);
    assert(words::split_at_char(v, '.') =~= seq![x, y, z]);
    assert(version_parts(v) =~= seq![a, b, c]);
}

/// Which of two versions of three numbers is newer: the first number decides, then the second, then the
/// third; and numbers that are left out are zeros.
pub proof fn law_the_first_difference_decides(a: u64, b: u64, c: u64, x: u64, y: u64, z: u64)
    ensures
        newer(seq![a, b, c], seq![x, y, z]) <==> a > x || (a == x && (b > y || (b == y && c > z))),
        newer(seq![a, b, c], seq![x]) <==> a > x || (a == x && (b > 0 || c > 0)),
        newer(seq![a], seq![x, y, z]) <==> a > x,
{
    let l = seq![a, b, c];
    let r = seq![x, y, z];
    assert(part_at(l, 0) == a && part_at(l, 1) == b && part_at(l, 2) == c);
    assert(part_at(r, 0) == x && part_at(r, 1) == y && part_at(r, 2) == z);
    let s = seq![x];
    assert(part_at(s, 0) == x && part_at(s, 1) == 0 && part_at(s, 2) == 0);
    let t = seq![a];
    assert(part_at(t, 0) == a && part_at(t, 1) == 0 && part_at(t, 2) == 0);
}

/// The binaries are named after the system and the machine that they are for; there is one for Linux
/// and one for macOS, on x86-64 and on 64-bit ARM each, and no other.
pub proof fn law_assets_are_named_after_their_platform(os: Seq<char>, arch: Seq<char>)
    ensures
        asset_of(os, arch) is Some <==> (os == "linux"@ || os == "macos"@) && (arch == "x86_64"@
            || arch == "aarch64"@),
        asset_of(os, arch) is Some ==> asset_of(os, arch)->0 == "rcdu-portable-"@ + os + seq!['-']
            + arch,
{
    reveal_strlit("linux");
    reveal_strlit("macos");
    reveal_strlit("x86_64");
    reveal_strlit("aarch64");
    reveal_strlit("rcdu-portable-");
    reveal_strlit("rcdu-portable-macos-aarch64");
    reveal_strlit("rcdu-portable-macos-x86_64");
    reveal_strlit("rcdu-portable-linux-x86_64");
    reveal_strlit("rcdu-portable-linux-aarch64");
    let named = "rcdu-portable-"@ + os + seq!['-'] + arch;
    if os == "macos"@ && arch == "aarch64"@ {
        assert(named =~= "rcdu-portable-macos-aarch64"@);
    } else if os == "macos"@ && arch == "x86_64"@ {
        assert(named =~= "rcdu-portable-macos-x86_64"@);
    } else if os == "linux"@ && arch == "x86_64"@ {
        assert(named =~= "rcdu-portable-linux-x86_64"@);
    } else if os == "linux"@ && arch == "aarch64"@ {
        assert(named =~= "rcdu-portable-linux-aarch64"@);
    }
}

/// How a list of checksums is read: a digest, two blanks, or a blank and a star, and a name to a line;
/// the first line for the name counts, and lines for other names do not.
pub proof fn law_checksums_are_found_by_name(
    digest: Seq<char>,
    name: Seq<char>,
    rest: Seq<Seq<char>>,
    asset: Seq<char>,
)
    requires
        unspaced(digest) && digest.len() > 0,
        unspaced(name) && name.len() > 0 && name[0] != '*',
    ensures
        ({
            let found = if name == asset {
                Some(digest)
            } else {
                digest_in(rest, asset)
            };
            &&& digest_in(seq![digest + seq![' ', ' '] + name] + rest, asset) == found
            &&& digest_in(seq![digest + seq![' ', '*'] + name] + rest, asset) == found
        }),
        digest_in(Seq::empty(), asset) is None,
{
    let none = Seq::<char>::empty();
    let plain = digest + seq![' ', ' '] + name;
    let starred = digest + seq![' ', '*'] + name;
    let star = seq!['*'] + name;
    words::law_words_stand_between_white_space(digest, ' ', seq![' '] + name);
    words::law_words_stand_between_white_space(none, ' ', name);
    words::law_words_stand_between_white_space(name, ' ', none);
    assert(plain =~= digest + seq![' '] + (seq![' '] + name));
    assert(seq![' '] + name =~= none + seq![' '] + name);
    assert(words::words_of(plain) =~= seq![digest, name]);
    words::law_words_stand_between_white_space(digest, ' ', star);
    assert forall|k: int| 0 <= k < star.len() implies !words::is_white(#[trigger] star[k]) by {
        if k > 0 {
            assert(star[k] == name[k - 1]);
        }
    }
    words::law_words_stand_between_white_space(star, ' ', none);
    assert(starred =~= digest + seq![' '] + star);
    assert(words::words_of(starred) =~= seq![digest, star]);
    reveal_with_fuel(words::stripped_start, 2);
    assert(star.skip(1) =~= name);
    assert((seq![plain] + rest).skip(1) =~= rest);
    assert((seq![starred] + rest).skip(1) =~= rest);
}

/// White space around a version makes no difference to it.
pub proof fn law_white_space_around_versions_is_ignored(s: Seq<char>, c: char)
    requires
        unspaced(s),
        words::is_white(c),
    ensures
        version_parts(seq![c] + s) == version_parts(s),
        version_parts(s + seq![c]) == version_parts(s),
{
    lemma_no_white_ends(s);
    let before = seq![c] + s;
    let behind = s + seq![c];
    assert(before.skip(1) =~= s);
    assert(words::trimmed_start(before) == words::trimmed_start(s));
    assert(behind.drop_last() =~= s);
    reveal_with_fuel(words::trimmed_start, 2);
    reveal_with_fuel(words::trimmed_end, 2);
    if s.len() == 0 {
        assert(s =~= Seq::empty());
        assert(behind.skip(1) =~= s);
    } else {
        assert(behind[0] == s[0]);
        assert(words::trimmed_start(behind) == behind);
        assert(words::trimmed_end(behind) == words::trimmed_end(s));
        assert(words::trimmed_start(s) == s);
    }
}

/// The tag of a release is the text under `tag_name`; without one there is no release.
pub proof fn law_tags_are_found_by_name(fields: Map<Seq<char>, Json>, tag: Seq<char>)
    ensures
        fields.contains_key("tag_name"@) && fields["tag_name"@] == Json::Text(tag) ==> tag_in(
            Json::Object(fields),
        ) == Some(tag),
        !fields.contains_key("tag_name"@) ==> tag_in(Json::Object(fields)) is None,
{
}

proof fn lemma_no_digits(s: Seq<char>, k: int)
    requires
        0 <= k < s.len(),
        !('0' <= s[k] <= '9'),
    ensures
        digits_value(s) is None,
    decreases s.len(),
{
    if k < s.len() - 1 {
        lemma_no_digits(s.drop_last(), k);
    }
}

/// How numbers are read: digits, also with a plus sign before them; not what is too large for 64 bits, not
/// nothing, and not what holds anything else.
pub proof fn law_numbers_are_digits(n: nat, s: Seq<char>, k: int)
    ensures
        n <= u64::MAX ==> number_of(text::decimal(n)) == Some(n as u64),
        n <= u64::MAX ==> number_of(seq!['+'] + text::decimal(n)) == Some(n as u64),
        n > u64::MAX ==> number_of(text::decimal(n)) is None,
        number_of(Seq::empty()) is None,
        1 <= k < s.len() && !('0' <= s[k] <= '9') ==> number_of(s) is None,
        s.len() > 0 && s[0] != '+' && !('0' <= s[0] <= '9') ==> number_of(s) is None,
{
    lemma_decimal_digits(n);
    assert('0' <= text::decimal(n)[0]);
    assert((seq!['+'] + text::decimal(n)).skip(1) =~= text::decimal(n));
    if 1 <= k < s.len() && !('0' <= s[k] <= '9') {
        lemma_no_digits(s, k);
        lemma_no_digits(s.skip(1), k - 1);
    }
    if s.len() > 0 && s[0] != '+' && !('0' <= s[0] <= '9') {
        lemma_no_digits(s, 0);
    }
}

} // verus!
