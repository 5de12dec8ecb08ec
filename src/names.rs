//! Display-name disambiguation: a name that is already taken gets a
//! parenthesized counter, `"Foo (1)"`, `"Foo (2)"`, ..., until it is free.
use vstd::prelude::*;
use vstd::seq_lib::*;

use crate::text::{
    chars_of, decimal, digits_value, is_digit, lemma_decimal, lemma_parse_decimal,
    parse_u32, parse_u32_in, push_char, push_chars, push_decimal,
};

verus! {

/// The counter suffix `" (k)"`.
pub open spec fn counter_suffix(k: nat) -> Seq<char> {
    seq![' ', '('] + decimal(k) + seq![')']
}

/// `s` holds `" ("` at position `i`.
pub open spec fn sep_at(s: Seq<char>, i: int) -> bool {
    0 <= i && i + 1 < s.len() && s[i] == ' ' && s[i + 1] == '('
}

/// The last position below `n` where `s` holds `" ("`, or -1.
pub open spec fn last_sep_below(s: Seq<char>, n: int) -> int
    decreases n,
{
    if n <= 0 {
        -1
    } else if sep_at(s, n - 1) {
        n - 1
    } else {
        last_sep_below(s, n - 1)
    }
}

/// The position of the last `" ("` in `s`, or -1 when it holds none.
pub open spec fn last_sep(s: Seq<char>) -> int {
    last_sep_below(s, s.len() as int)
}

/// The counter that `s` ends with: `s` holds `" ("`, ends with `)`, and what
/// stands between its last `" ("` and that `)` reads as a `u32`.
pub open spec fn trailing_counter(s: Seq<char>) -> Option<u32> {
    let p = last_sep(s);
    if p >= 0 && s.len() > 0 && s.last() == ')' {
        parse_u32(s.subrange(p + 2, s.len() - 1))
    } else {
        None
    }
}

/// One disambiguation step from the taken candidate `r`, with counter `c`:
/// a trailing counter `n` becomes `n + 1` on the same stem; otherwise the
/// counter is appended to `base` and then advanced.
pub open spec fn next_candidate(base: Seq<char>, r: Seq<char>, c: nat) -> (Seq<char>, nat) {
    match trailing_counter(r) {
        Some(n) => (r.subrange(0, last_sep(r)) + counter_suffix((n + 1) as nat), (n + 1) as nat),
        None => (base + counter_suffix(c), c + 1),
    }
}

/// Candidate `i` for `base`, with the counter that goes with it; candidate 0
/// is `base` itself, with counter 1.
pub open spec fn candidate(base: Seq<char>, i: nat) -> (Seq<char>, nat)
    decreases i,
{
    if i == 0 {
        (base, 1)
    } else {
        let prev = candidate(base, (i - 1) as nat);
        next_candidate(base, prev.0, prev.1)
    }
}

/// The names of `names`, as character sequences.
pub open spec fn name_views(names: Seq<String>) -> Seq<Seq<char>> {
    names.map_values(|s: String| s@)
}

/// `r` is the first candidate for `base` that `taken` does not hold.
pub open spec fn is_first_free(base: Seq<char>, taken: Seq<Seq<char>>, r: Seq<char>) -> bool {
    exists|i: nat|
        #[trigger] candidate(base, i).0 == r && !taken.contains(r) && forall|j: nat|
            j < i ==> taken.contains(#[trigger] candidate(base, j).0)
}

/// Only one name is the first free candidate, so the contract of
/// `get_unique_name` fixes its result.
pub proof fn lemma_first_free_unique(
    base: Seq<char>,
    taken: Seq<Seq<char>>,
    r1: Seq<char>,
    r2: Seq<char>,
)
    requires
        is_first_free(base, taken, r1),
        is_first_free(base, taken, r2),
    ensures
        r1 == r2,
{
    let i1 = choose|i: nat|
        #[trigger] candidate(base, i).0 == r1 && !taken.contains(r1) && forall|j: nat|
            j < i ==> taken.contains(#[trigger] candidate(base, j).0);
    let i2 = choose|i: nat|
        #[trigger] candidate(base, i).0 == r2 && !taken.contains(r2) && forall|j: nat|
            j < i ==> taken.contains(#[trigger] candidate(base, j).0);
    if i1 < i2 {
        assert(taken.contains(candidate(base, i1).0));
    } else if i2 < i1 {
        assert(taken.contains(candidate(base, i2).0));
    }
}

/// Where a numbered candidate stands in the search: whether its stem is the
/// base name, then its number.
spec fn name_rank(base: Seq<char>, y: Seq<char>) -> (bool, nat) {
    let p = last_sep(y);
    (y.subrange(0, p) == base, digits_value(y.subrange(p + 2, y.len() - 1)))
}

spec fn rank_below(a: (bool, nat), b: (bool, nat)) -> bool {
    (!a.0 && b.0) || (a.0 == b.0 && a.1 < b.1)
}

proof fn lemma_last_sep_below_bounds(s: Seq<char>, n: int)
    ensures
        -1 <= last_sep_below(s, n),
        last_sep_below(s, n) < n || n <= 0,
        last_sep_below(s, n) >= 0 ==> sep_at(s, last_sep_below(s, n)),
    decreases n,
{
    if n > 0 && !sep_at(s, n - 1) {
        lemma_last_sep_below_bounds(s, n - 1);
    }
}

proof fn lemma_last_sep_below_is(s: Seq<char>, q: int, n: int)
    requires
        0 <= q < n,
        sep_at(s, q),
        forall|j: int| q < j < n ==> !#[trigger] sep_at(s, j),
    ensures
        last_sep_below(s, n) == q,
    decreases n,
{
    if n - 1 > q {
        assert(!sep_at(s, n - 1));
        lemma_last_sep_below_is(s, q, n - 1);
    }
}

/// How a step reads a candidate of the form `stem (k)`.
proof fn lemma_numbered(base: Seq<char>, stem: Seq<char>, k: nat)
    ensures
        last_sep(stem + counter_suffix(k)) == stem.len(),
        (stem + counter_suffix(k)).subrange(0, stem.len() as int) == stem,
        trailing_counter(stem + counter_suffix(k)) == if k <= u32::MAX {
            Some(k as u32)
        } else {
            None::<u32>
        },
        name_rank(base, stem + counter_suffix(k)) == (stem == base, k),
{
    let s = stem + counter_suffix(k);
    let d = decimal(k);
    let q = stem.len() as int;
    lemma_decimal(k);
    lemma_parse_decimal(k);
    assert(s.len() == q + 3 + d.len());
    assert(s[q] == ' ' && s[q + 1] == '(');
    assert forall|j: int| q < j < s.len() implies !#[trigger] sep_at(s, j) by {
        if j == q + 1 {
            assert(s[j] == '(');
        } else if j < s.len() - 1 {
            assert(s[j] == d[j - q - 2]);
            assert(is_digit(d[j - q - 2]));
        }
    }
    lemma_last_sep_below_is(s, q, s.len() as int);
    assert(s.subrange(0, q) =~= stem);
    assert(s.subrange(q + 2, s.len() - 1) =~= d);
    assert(s.last() == ')');
}

/// A duplicate-free list whose items all occur in `taken` is no longer.
proof fn lemma_distinct_within(seen: Seq<Seq<char>>, taken: Seq<Seq<char>>)
    requires
        seen.no_duplicates(),
        forall|y: Seq<char>| seen.contains(y) ==> taken.contains(y),
    ensures
        seen.len() <= taken.len(),
{
    seen.unique_seq_to_set();
    taken.lemma_cardinality_of_set();
    assert(seen.to_set().subset_of(taken.to_set()));
    vstd::set_lib::lemma_len_subset(seen.to_set(), taken.to_set());
}

/// Whether `names` holds `name`.
fn is_taken(name: &String, names: &Vec<String>) -> (b: bool)
    ensures
        b == name_views(names@).contains(name@),
{
    let mut j: usize = 0;
    while j < names.len()
        invariant
            j <= names.len(),
            forall|q: int| 0 <= q < j ==> names@[q]@ != name@,
        decreases names.len() - j,
    {
        if names[j] == *name {
            assert(name_views(names@)[j as int] == name@);
            return true;
        }
        j = j + 1;
    }
    assert forall|q: int| 0 <= q < names.len() implies name_views(names@)[q] != name@ by {}
    false
}

/// Appends `" (k)"`.
fn push_counter_suffix(s: &mut String, k: u128)
    ensures
        final(s)@ == old(s)@ + counter_suffix(k as nat),
{
    let ghost s0 = s@;
    push_char(s, ' ');
    push_char(s, '(');
    push_decimal(s, k);
    push_char(s, ')');
    assert(s@ =~= s0 + counter_suffix(k as nat));
}

/// One disambiguation step from candidate `r` with counter `c`.
fn step_candidate(base: &str, r: &String, c: u128) -> (res: (String, u128))
    requires
        c < u128::MAX,
    ensures
        (res.0@, res.1 as nat) == next_candidate(base@, r@, c as nat),
{
    let v = chars_of(r.as_str());
    let len = v.len();
    match find_last_sep(&v) {
        Some(p) => {
            if len > 0 && v[len - 1] == ')' {
                match parse_u32_in(&v, p + 2, len - 1) {
                    Some(n) => {
                        let k: u128 = n as u128 + 1;
                        let mut s = String::new();
                        push_chars(&mut s, &v, 0, p);
                        push_counter_suffix(&mut s, k);
                        return (s, k);
                    },
                    None => {},
                }
            }
        },
        None => {},
    }
    let mut s = base.to_owned();
    push_counter_suffix(&mut s, c);
    (s, c + 1)
}

/// The position of the last `" ("` in `v`.
fn find_last_sep(v: &Vec<char>) -> (r: Option<usize>)
    ensures
        match r {
            Some(p) => p == last_sep(v@) && p + 2 <= v.len() && sep_at(v@, p as int),
            None => last_sep(v@) < 0,
        },
{
    let mut n: usize = v.len();
    while n > 0
        invariant
            n <= v.len(),
            last_sep(v@) == last_sep_below(v@, n as int),
        decreases n,
    {
        let i = n - 1;
        if i + 1 < v.len() && v[i] == ' ' && v[i + 1] == '(' {
            return Some(i);
        }
        n = i;
    }
    None
}

/// A name for `base_name` that `existing_names` does not hold: `base_name`
/// itself when it is free, else the first free one of the candidates that
/// adding or advancing a trailing `" (n)"` counter gives.
pub fn get_unique_name(base_name: &str, existing_names: &Vec<String>) -> (r: String)
    ensures
        is_first_free(base_name@, name_views(existing_names@), r@),
{
    let ghost b = base_name@;
    let ghost taken = name_views(existing_names@);
    let first = base_name.to_owned();
    if !is_taken(&first, existing_names) {
        assert(candidate(b, 0).0 == first@);
        return first;
    }
    let (mut result, mut counter) = step_candidate(base_name, &first, 1);
    let ghost mut i: nat = 1;
    proof {
        lemma_last_sep_below_bounds(b, b.len() as int);
    }
    let ghost mut stem: Seq<char> = if trailing_counter(b) is Some {
        b.subrange(0, last_sep(b))
    } else {
        b
    };
    let ghost mut k: nat = match trailing_counter(b) {
        Some(n) => (n + 1) as nat,
        None => 1,
    };
    let ghost mut seen: Seq<Seq<char>> = Seq::empty();
    proof {
        assert(candidate(b, 0) == (b, 1nat));
        assert(candidate(b, 1) == (result@, counter as nat));
    }
    while is_taken(&result, existing_names)
        invariant
            b == base_name@,
            taken == name_views(existing_names@),
            taken.len() == existing_names.len(),
            1 <= i,
            (result@, counter as nat) == candidate(b, i),
            forall|j: nat| j < i ==> taken.contains(#[trigger] candidate(b, j).0),
            result@ == stem + counter_suffix(k),
            stem == b || stem.len() < b.len(),
            counter == k || counter == k + 1,
            counter <= 0x1_0000_0002 + seen.len() + (if counter == k + 1 {
                1int
            } else {
                0int
            }),
            seen.no_duplicates(),
            seen.len() <= taken.len(),
            forall|y: Seq<char>| seen.contains(y) ==> taken.contains(y),
            forall|q: int|
                0 <= q < seen.len() ==> rank_below(
                    name_rank(b, #[trigger] seen[q]),
                    name_rank(b, result@),
                ),
        decreases taken.len() - seen.len(), k + 1 - counter,
    {
        let ghost cur = result@;
        let ghost cur_rank = name_rank(b, cur);
        proof {
            lemma_numbered(b, stem, k);
            assert(taken.contains(cur));
            assert(counter < u128::MAX);
        }
        let (next, next_counter) = step_candidate(base_name, &result, counter);
        proof {
            let ni: nat = i + 1;
            assert(candidate(b, ni) == next_candidate(b, candidate(b, i).0, candidate(b, i).1));
            assert(candidate(b, ni) == (next@, next_counter as nat));
            if k <= u32::MAX {
                k = k + 1;
            } else {
                stem = b;
                k = counter as nat;
            }
            lemma_numbered(b, stem, k);
            if next@ != cur {
                assert(rank_below(cur_rank, name_rank(b, next@)));
                assert(!seen.contains(cur)) by {
                    if seen.contains(cur) {
                        let q = choose|q: int| 0 <= q < seen.len() && seen[q] == cur;
                        assert(rank_below(name_rank(b, seen[q]), cur_rank));
                    }
                }
                let old_seen = seen;
                seen = seen.push(cur);
                assert forall|q: int| 0 <= q < seen.len() implies rank_below(
                    name_rank(b, #[trigger] seen[q]),
                    name_rank(b, next@),
                ) by {
                    if q < old_seen.len() {
                        assert(rank_below(name_rank(b, old_seen[q]), cur_rank));
                    }
                }
                assert forall|y: Seq<char>| seen.contains(y) implies taken.contains(y) by {
                    if y != cur {
                        assert(old_seen.contains(y));
                    }
                }
                lemma_distinct_within(seen, taken);
            }
            i = i + 1;
        }
        result = next;
        counter = next_counter;
    }
    assert(candidate(b, i).0 == result@);
    result
}

/// Unique names for each of `base_names` in turn: each is chosen as
/// `get_unique_name` chooses it, against `existing_names` together with the
/// names chosen before it in this batch.
pub fn get_unique_names(base_names: &Vec<String>, existing_names: &Vec<String>) -> (r: Vec<
    String,
>)
    ensures
        r.len() == base_names.len(),
        forall|i: int|
            0 <= i < r.len() ==> is_first_free(
                base_names[i]@,
                name_views(existing_names@) + name_views(r@.take(i)),
                #[trigger] r[i]@,
            ),
{
    let mut used: Vec<String> = Vec::new();
    let mut j: usize = 0;
    while j < existing_names.len()
        invariant
            j <= existing_names.len(),
            used.len() == j,
            forall|q: int| 0 <= q < j ==> #[trigger] used@[q]@ == existing_names@[q]@,
        decreases existing_names.len() - j,
    {
        let copy = existing_names[j].clone();
        used.push(copy);
        j = j + 1;
    }
    assert(name_views(used@) =~= name_views(existing_names@));
    let mut result: Vec<String> = Vec::new();
    let mut i: usize = 0;
    while i < base_names.len()
        invariant
            i <= base_names.len(),
            result.len() == i,
            name_views(used@) == name_views(existing_names@) + name_views(result@),
            used.len() == existing_names.len() + i,
            forall|q: int|
                0 <= q < i ==> is_first_free(
                    base_names[q]@,
                    name_views(existing_names@) + name_views(result@.take(q)),
                    #[trigger] result[q]@,
                ),
        decreases base_names.len() - i,
    {
        let name = get_unique_name(base_names[i].as_str(), &used);
        let ghost before = result@;
        let ghost prev = used@;
        let copy = name.clone();
        used.push(copy);
        result.push(name);
        assert forall|q: int| 0 <= q < used.len() implies #[trigger] name_views(used@)[q] == (
        name_views(existing_names@) + name_views(result@))[q] by {
            if q < used.len() - 1 {
                assert(name_views(prev)[q] == (name_views(existing_names@) + name_views(before))[q]);
            }
        }
        assert(before =~= result@.take(i as int));
        assert(name_views(used@) =~= name_views(existing_names@) + name_views(result@));
        assert forall|q: int| 0 <= q < i + 1 implies is_first_free(
            base_names[q]@,
            name_views(existing_names@) + name_views(result@.take(q)),
            #[trigger] result[q]@,
        ) by {
            if q < i {
                assert(result@.take(q) =~= before.take(q));
            }
        }
        i = i + 1;
    }
    result
}

} // verus!
