//! Numbered names: the first of a series that nobody has taken.
use crate::number;
use crate::number::dec_unsigned;
use crate::text;
use crate::text::str_eq;
use vstd::prelude::*;

verus! {

broadcast use vstd::seq::group_seq_axioms;

/// The name with number `n` of a series.
pub open spec fn numbered(prefix: Seq<char>, n: nat, suffix: Seq<char>) -> Seq<char> {
    prefix + number::dec(n) + suffix
}

/// The first free name of a series from number `n` on, among the first `more` and the one behind
/// them.
pub open spec fn free_within(
    taken: Seq<Seq<char>>,
    prefix: Seq<char>,
    suffix: Seq<char>,
    n: nat,
    more: nat,
) -> Seq<char>
    decreases more,
{
    if more > 0 && taken.contains(numbered(prefix, n, suffix)) {
        free_within(taken, prefix, suffix, n + 1, (more - 1) as nat)
    } else {
        numbered(prefix, n, suffix)
    }
}

/// The first free name of a series from number `n` on. No more names than are taken need be
/// passed over.
pub open spec fn first_free(
    taken: Seq<Seq<char>>,
    prefix: Seq<char>,
    suffix: Seq<char>,
    n: nat,
) -> Seq<char> {
    free_within(taken, prefix, suffix, n, taken.len())
}

/// Names of a series with different numbers differ.
proof fn lemma_numbered_injective(prefix: Seq<char>, a: nat, b: nat, suffix: Seq<char>)
    requires
        numbered(prefix, a, suffix) == numbered(prefix, b, suffix),
    ensures
        a == b,
{
    let x = numbered(prefix, a, suffix);
    let y = numbered(prefix, b, suffix);
    let from = prefix.len() as int;
    let to = x.len() - suffix.len();
    assert(x.subrange(from, to) =~= number::dec(a));
    assert(y.subrange(from, to) =~= number::dec(b));
    number::lemma_dec_injective(a, b);
}

/// Of one name more than are taken, one is free.
proof fn lemma_one_is_free(taken: Seq<Seq<char>>, prefix: Seq<char>, suffix: Seq<char>, n: nat)
    ensures
        exists|k: nat| k <= taken.len() && !taken.contains(#[trigger] numbered(prefix, n + k, suffix)),
{
    if forall|k: nat| k <= taken.len() ==> taken.contains(#[trigger] numbered(prefix, n + k, suffix)) {
        let names = Seq::new(taken.len() + 1, |k: int| numbered(prefix, (n + k) as nat, suffix));
        assert(names.no_duplicates()) by {
            assert forall|i: int, j: int|
                0 <= i < names.len() && 0 <= j < names.len() && i != j implies names[i] != names[j] by {
                if names[i] == names[j] {
                    lemma_numbered_injective(prefix, (n + i) as nat, (n + j) as nat, suffix);
                }
            }
        }
        names.unique_seq_to_set();
        taken.lemma_cardinality_of_set();
        assert forall|s: Seq<char>| names.to_set().contains(s) implies taken.to_set().contains(s) by {
            let i = choose|i: int| 0 <= i < names.len() && names[i] == s;
            assert(taken.contains(numbered(prefix, n + (i as nat), suffix)));
        }
        assert(names.to_set().subset_of(taken.to_set()));
        vstd::set_lib::lemma_len_subset(names.to_set(), taken.to_set());
        assert(false);
    }
}

proof fn lemma_free_within(
    taken: Seq<Seq<char>>,
    prefix: Seq<char>,
    suffix: Seq<char>,
    n: nat,
    more: nat,
    k: nat,
)
    requires
        k <= more,
        !taken.contains(numbered(prefix, n + k, suffix)),
    ensures
        !taken.contains(free_within(taken, prefix, suffix, n, more)),
        exists|m: nat|
            n <= m && free_within(taken, prefix, suffix, n, more) == #[trigger] numbered(prefix, m, suffix) && forall|
                l: nat,
            |
                n <= l < m ==> taken.contains(#[trigger] numbered(prefix, l, suffix)),
    decreases more,
{
    let r = free_within(taken, prefix, suffix, n, more);
    if more > 0 && taken.contains(numbered(prefix, n, suffix)) {
        assert(k > 0) by {
            assert(n + 0 == n);
        }
        assert((n + 1) + (k - 1) == n + k);
        lemma_free_within(taken, prefix, suffix, n + 1, (more - 1) as nat, (k - 1) as nat);
        let m = choose|m: nat|
            n + 1 <= m && r == #[trigger] numbered(prefix, m, suffix) && forall|l: nat|
                n + 1 <= l < m ==> taken.contains(#[trigger] numbered(prefix, l, suffix));
        assert(n <= m && r == numbered(prefix, m, suffix));
    } else {
        if more == 0 {
            assert(n + k == n);
        }
        assert(r == numbered(prefix, n, suffix));
    }
}

/// The first free name is free, and every name of the series before it is taken.
pub proof fn law_first_free(taken: Seq<Seq<char>>, prefix: Seq<char>, suffix: Seq<char>, n: nat)
    ensures
        !taken.contains(first_free(taken, prefix, suffix, n)),
        exists|m: nat|
            n <= m && first_free(taken, prefix, suffix, n) == #[trigger] numbered(prefix, m, suffix) && forall|
                l: nat,
            |
                n <= l < m ==> taken.contains(#[trigger] numbered(prefix, l, suffix)),
{
    lemma_one_is_free(taken, prefix, suffix, n);
    let k = choose|k: nat| k <= taken.len() && !taken.contains(#[trigger] numbered(prefix, n + k, suffix));
    lemma_free_within(taken, prefix, suffix, n, taken.len(), k);
}

/// Whether `list` holds `s`.
pub fn is_taken(list: &Vec<String>, s: &str) -> (r: bool)
    ensures
        r == text::strs(list@).contains(s@),
{
    let mut i: usize = 0;
    while i < list.len()
        invariant
            i <= list@.len(),
            forall|k: int| 0 <= k < i ==> (#[trigger] list@[k])@ != s@,
        decreases list@.len() - i,
    {
        if str_eq(list[i].as_str(), s) {
            proof {
                assert(text::strs(list@)[i as int] == s@);
            }
            return true;
        }
        i += 1;
    }
    proof {
        assert forall|k: int| 0 <= k < list@.len() implies text::strs(list@)[k] != s@ by {
            assert(list@[k]@ != s@);
        }
    }
    false
}

fn name_with(prefix: &str, n: u128, suffix: &str) -> (r: String)
    ensures
        r@ == numbered(prefix@, n as nat, suffix@),
{
    let mut name = prefix.to_owned();
    let digits = dec_unsigned(n);
    name.append(digits.as_str());
    name.append(suffix);
    name
}

/// The first free name of a series from number `first` on.
pub fn first_free_name(taken: &Vec<String>, prefix: &str, suffix: &str, first: u32) -> (r: String)
    ensures
        r@ == first_free(text::strs(taken@), prefix@, suffix@, first as nat),
{
    let mut n: u128 = first as u128;
    let total: usize = taken.len();
    let mut more: usize = total;
    let mut name = name_with(prefix, n, suffix);
    while more > 0 && is_taken(taken, name.as_str())
        invariant
            n + more == first + total,
            name@ == numbered(prefix@, n as nat, suffix@),
            first_free(text::strs(taken@), prefix@, suffix@, first as nat) == free_within(
                text::strs(taken@),
                prefix@,
                suffix@,
                n as nat,
                more as nat,
            ),
        decreases more,
    {
        n += 1;
        more -= 1;
        name = name_with(prefix, n, suffix);
    }
    name
}

/// Name of the log of a new session: the stamp, and a number from one on where that is taken.
pub open spec fn session_file(stamp: Seq<char>, taken: Seq<Seq<char>>) -> Seq<char> {
    if taken.contains(stamp + ".jsonl"@) {
        first_free(taken, stamp + "."@, ".jsonl"@, 1)
    } else {
        stamp + ".jsonl"@
    }
}

/// Name of the log of a new session. Stamps collide when two logs are begun in the same instant;
/// an existing log is never begun anew.
pub fn session_file_name(stamp: &str, taken: &Vec<String>) -> (r: String)
    ensures
        r@ == session_file(stamp@, text::strs(taken@)),
        !text::strs(taken@).contains(r@),
{
    let mut name = stamp.to_owned();
    name.append(".jsonl");
    if !is_taken(taken, name.as_str()) {
        return name;
    }
    let mut prefix = stamp.to_owned();
    prefix.append(".");
    proof {
        law_first_free(text::strs(taken@), prefix@, ".jsonl"@, 1);
    }
    first_free_name(taken, prefix.as_str(), ".jsonl", 1)
}

/// A session file is called after the time it was begun at; where that is taken, it gets the lowest
/// number from 1 on that makes it free.
pub proof fn law_session_files_are_numbered(stamp: Seq<char>, taken: Seq<Seq<char>>)
    ensures
        !taken.contains(stamp + ".jsonl"@) ==> session_file(stamp, taken) == stamp + ".jsonl"@,
        taken.contains(stamp + ".jsonl"@) ==> exists|m: nat|
            1 <= m && session_file(stamp, taken) == #[trigger] numbered(stamp.push('.'), m, ".jsonl"@) && forall|
                l: nat,
            |
                1 <= l < m ==> taken.contains(#[trigger] numbered(stamp.push('.'), l, ".jsonl"@)),
        !taken.contains(session_file(stamp, taken)),
{
    reveal_strlit(".");
    assert(stamp + "."@ =~= stamp.push('.'));
    law_first_free(taken, stamp + "."@, ".jsonl"@, 1);
}

/// A numbered name is the number between what stands before and behind it.
pub proof fn law_numbers_stand_in_between(prefix: Seq<char>, n: nat, suffix: Seq<char>)
    ensures
        numbered(prefix, n, suffix) == prefix + number::dec(n) + suffix,
{
}

} // verus!
