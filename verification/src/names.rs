//! Names of the files that dumps go to.
use vstd::prelude::*;

use crate::text;
use crate::words;

verus! {

/// The name of the `n`th dump.
pub open spec fn dump_name(n: int) -> Seq<char> {
    if n <= 1 {
        "rcdu-dump.json"@
    } else {
        "rcdu-dump-"@ + text::decimal(n as nat) + ".json"@
    }
}

/// Two dumps have different names.
pub proof fn lemma_dump_names_differ(a: int, b: int)
    requires
        1 <= a < b,
    ensures
        dump_name(a) != dump_name(b),
{
    reveal_strlit("rcdu-dump.json");
    reveal_strlit("rcdu-dump-");
    reveal_strlit(".json");
    let x = dump_name(a);
    let y = dump_name(b);
    assert(y[9] == '-');
    if a == 1 {
        assert(x[9] == '.');
    } else if x == y {
        let p = text::decimal(a as nat);
        let q = text::decimal(b as nat);
        assert(x.len() == 10 + p.len() + 5);
        assert(p =~= x.subrange(10, x.len() - 5));
        assert(q =~= y.subrange(10, y.len() - 5));
        text::lemma_decimals_differ(a as nat, b as nat);
    }
}

/// If the first `n` names are all taken, at least `n` names are taken.
proof fn lemma_taken(taken: Seq<Seq<char>>, n: int)
    requires
        0 <= n,
        forall|k: int| 1 <= k <= n ==> taken.contains(#[trigger] dump_name(k)),
    ensures
        n <= taken.len(),
{
    let first = Seq::new(n as nat, |k: int| dump_name(k + 1));
    assert(first.no_duplicates()) by {
        assert forall|i: int, j: int|
            0 <= i < first.len() && 0 <= j < first.len() && i != j implies first[i] != first[j] by {
            if i < j {
                lemma_dump_names_differ(i + 1, j + 1);
            } else {
                lemma_dump_names_differ(j + 1, i + 1);
            }
        }
    }
    first.unique_seq_to_set();
    taken.lemma_cardinality_of_set();
    assert forall|x: Seq<char>| first.to_set().contains(x) implies taken.to_set().contains(x) by {
        let k = choose|k: int| 0 <= k < first.len() && first[k] == x;
        assert(taken.contains(dump_name(k + 1)));
    }
    vstd::seq_lib::seq_to_set_is_finite(taken);
    vstd::set_lib::lemma_len_subset(first.to_set(), taken.to_set());
}

/// Whether a name is taken.
fn is_taken(taken: &Vec<String>, name: &String) -> (yes: bool)
    ensures
        yes == words::text_views(taken@).contains(name@),
{
    let ghost all = words::text_views(taken@);
    let mut k: usize = 0;
    while k < taken.len()
        invariant
            all == words::text_views(taken@),
            k <= taken@.len(),
            forall|j: int| 0 <= j < k ==> #[trigger] all[j] != name@,
        decreases taken@.len() - k,
    {
        assert(all[k as int] == taken@[k as int]@);
        if taken[k] == *name {
            assert(all.contains(name@));
            return true;
        }
        k += 1;
    }
    false
}

/// The name of the `n`th dump.
fn name_of(n: u64) -> (name: String)
    ensures
        name@ == dump_name(n as int),
{
    if n <= 1 {
        "rcdu-dump.json".to_string()
    } else {
        let mut name = text::joined("rcdu-dump-", text::decimal_text(n).as_str());
        name.append(".json");
        name
    }
}

/// The first free dump name, given the names that are taken: a dump never overwrites another.
pub fn next_export_path(taken: &Vec<String>) -> (name: String)
    requires
        taken@.len() < u64::MAX,
    ensures
        !words::text_views(taken@).contains(name@),
        exists|n: int|
            1 <= n && name@ == #[trigger] dump_name(n) && forall|k: int|
                1 <= k < n ==> words::text_views(taken@).contains(#[trigger] dump_name(k)),
{
    let ghost all = words::text_views(taken@);
    let mut n: u64 = 1;
    let mut name = name_of(n);
    while is_taken(taken, &name)
        invariant
            taken@.len() < u64::MAX,
            all == words::text_views(taken@),
            1 <= n <= taken@.len() + 1,
            name@ == dump_name(n as int),
            forall|k: int| 1 <= k < n ==> all.contains(#[trigger] dump_name(k)),
        decreases taken@.len() + 1 - n,
    {
        proof {
            lemma_taken(all, n as int);
        }
        n += 1;
        name = name_of(n);
    }
    name
}

/// No two dumps have the same name, and each one's says that it is a dump of this program in JSON.
pub proof fn law_dump_names_differ(m: int, n: int)
    requires
        1 <= m < n,
    ensures
        dump_name(m) != dump_name(n),
        dump_name(1) == "rcdu-dump.json"@,
        "rcdu-dump"@.is_prefix_of(dump_name(n)),
        ".json"@.is_suffix_of(dump_name(n)),
        text::decimal(n as nat) == dump_name(n).subrange(10, dump_name(n).len() - 5),
{
    reveal_strlit("rcdu-dump.json");
    reveal_strlit("rcdu-dump-");
    reveal_strlit("rcdu-dump");
    reveal_strlit(".json");
    text::law_numerals_are_worth_their_number(n as nat);
    text::law_numerals_are_worth_their_number(m as nat);
    assert(dump_name(n).subrange(10, dump_name(n).len() - 5) =~= text::decimal(n as nat));
    if m > 1 {
        assert(dump_name(m).subrange(10, dump_name(m).len() - 5) =~= text::decimal(m as nat));
    } else {
        assert(dump_name(m)[9] == '.');
        assert(dump_name(n)[9] == '-');
    }
}

} // verus!
