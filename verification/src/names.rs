//! String helpers for table and column naming: decimal rendering of
//! collision counters, and splitting dotted table names into parent and leaf
//! segment.

use vstd::prelude::*;
use vstd::string::StringExecFns;

verus! {

/// True when `s` contains no `'.'`; dotted table names are parsed by their
/// dots, so leaf segments must stay dot-free.
pub open spec fn dot_free(s: Seq<char>) -> bool {
    forall|i: int| 0 <= i < s.len() ==> s[i] != '.'
}

/// The decimal digit `d` as a character (`d < 10`).
pub open spec fn digit_char(d: nat) -> char {
    if d == 0 {
        '0'
    } else if d == 1 {
        '1'
    } else if d == 2 {
        '2'
    } else if d == 3 {
        '3'
    } else if d == 4 {
        '4'
    } else if d == 5 {
        '5'
    } else if d == 6 {
        '6'
    } else if d == 7 {
        '7'
    } else if d == 8 {
        '8'
    } else {
        '9'
    }
}

/// The decimal rendering of `n`, most significant digit first.
pub open spec fn spec_digits(n: nat) -> Seq<char>
    decreases n,
{
    if n < 10 {
        seq![digit_char(n)]
    } else {
        spec_digits(n / 10).push(digit_char(n % 10))
    }
}

pub proof fn lemma_digits_dot_free(n: nat)
    ensures
        dot_free(spec_digits(n)),
        spec_digits(n).len() > 0,
    decreases n,
{
    if n >= 10 {
        lemma_digits_dot_free(n / 10);
    }
}

fn digit_str(d: u64) -> (r: &'static str)
    requires
        d < 10,
    ensures
        r@ == seq![digit_char(d as nat)],
{
    proof {
        reveal_strlit("0");
        reveal_strlit("1");
        reveal_strlit("2");
        reveal_strlit("3");
        reveal_strlit("4");
        reveal_strlit("5");
        reveal_strlit("6");
        reveal_strlit("7");
        reveal_strlit("8");
        reveal_strlit("9");
    }
    let r = if d == 0 {
        "0"
    } else if d == 1 {
        "1"
    } else if d == 2 {
        "2"
    } else if d == 3 {
        "3"
    } else if d == 4 {
        "4"
    } else if d == 5 {
        "5"
    } else if d == 6 {
        "6"
    } else if d == 7 {
        "7"
    } else if d == 8 {
        "8"
    } else {
        "9"
    };
    proof {
        assert(r@ =~= seq![digit_char(d as nat)]);
    }
    r
}

/// Renders `n` in decimal.
pub fn u64_string(n: u64) -> (r: String)
    ensures
        r@ == spec_digits(n as nat),
    decreases n,
{
    if n < 10 {
        String::from_str(digit_str(n))
    } else {
        let high = u64_string(n / 10);
        let r = high.concat(digit_str(n % 10));
        proof {
            assert(r@ =~= spec_digits(n as nat));
        }
        r
    }
}

/// `base` with the counter `c` appended after an underscore: `base_c`.
pub open spec fn spec_suffixed(base: Seq<char>, c: nat) -> Seq<char> {
    base + seq!['_'] + spec_digits(c)
}

/// Builds `base_c`.
pub fn suffixed_name(base: &String, c: u64) -> (r: String)
    ensures
        r@ == spec_suffixed(base@, c as nat),
{
    let mut r = base.clone();
    r.append("_");
    let digits = u64_string(c);
    r.append(digits.as_str());
    proof {
        reveal_strlit("_");
        assert(r@ =~= spec_suffixed(base@, c as nat));
    }
    r
}

pub proof fn lemma_suffixed_dot_free(base: Seq<char>, c: nat)
    requires
        dot_free(base),
    ensures
        dot_free(spec_suffixed(base, c)),
{
    reveal_strlit("_");
    lemma_digits_dot_free(c);
    assert forall|i: int| 0 <= i < spec_suffixed(base, c).len() implies spec_suffixed(base, c)[i]
        != '.' by {
        let s = spec_suffixed(base, c);
        if i < base.len() {
            assert(s[i] == base[i]);
        } else if i == base.len() {
            assert(s[i] == '_');
        } else {
            assert(s[i] == spec_digits(c)[i - base.len() - 1]);
        }
    }
}

proof fn lemma_digit_char_inj(x: nat, y: nat)
    requires
        x < 10,
        y < 10,
        digit_char(x) == digit_char(y),
    ensures
        x == y,
{
}

proof fn lemma_digits_len(n: nat)
    ensures
        spec_digits(n).len() >= 1,
        n >= 10 ==> spec_digits(n).len() >= 2,
    decreases n,
{
    if n >= 10 {
        lemma_digits_len(n / 10);
    }
}

/// Distinct counters render to distinct digit strings.
pub proof fn lemma_digits_injective(a: nat, b: nat)
    requires
        spec_digits(a) == spec_digits(b),
    ensures
        a == b,
    decreases a,
{
    lemma_digits_len(a);
    lemma_digits_len(b);
    if a < 10 && b < 10 {
        assert(spec_digits(a)[0] == digit_char(a));
        assert(spec_digits(b)[0] == digit_char(b));
        lemma_digit_char_inj(a, b);
    } else if a >= 10 && b >= 10 {
        assert(spec_digits(a).last() == digit_char(a % 10));
        assert(spec_digits(b).last() == digit_char(b % 10));
        lemma_digit_char_inj(a % 10, b % 10);
        assert(spec_digits(a).drop_last() =~= spec_digits(a / 10));
        assert(spec_digits(b).drop_last() =~= spec_digits(b / 10));
        lemma_digits_injective(a / 10, b / 10);
    } else if a < 10 {
        assert(spec_digits(a).len() == 1);
        assert(false);
    } else {
        assert(spec_digits(b).len() == 1);
        assert(false);
    }
}

/// Distinct counters give distinct suffixed names over one base.
pub proof fn lemma_suffixed_injective(base: Seq<char>, c1: nat, c2: nat)
    requires
        spec_suffixed(base, c1) == spec_suffixed(base, c2),
    ensures
        c1 == c2,
{
    let s1 = spec_suffixed(base, c1);
    let s2 = spec_suffixed(base, c2);
    assert(spec_digits(c1) =~= s1.skip(base.len() + 1 as int));
    assert(spec_digits(c2) =~= s2.skip(base.len() + 1 as int));
    lemma_digits_injective(c1, c2);
}

/// A suffixed name is strictly longer than its base, so never equal to it.
pub proof fn lemma_base_ne_suffixed(base: Seq<char>, c: nat)
    ensures
        base != spec_suffixed(base, c),
{
    lemma_digits_len(c);
    assert(spec_suffixed(base, c).len() > base.len());
}

/// A duplicate-free sequence of values all drawn from `s` is no longer
/// than `s`.
pub proof fn lemma_pigeonhole<A>(cs: Seq<A>, s: Seq<A>)
    requires
        cs.no_duplicates(),
        forall|i: int| 0 <= i < cs.len() ==> s.contains(cs[i]),
    ensures
        cs.len() <= s.len(),
{
    broadcast use vstd::seq_lib::group_seq_lib_default;

    cs.unique_seq_to_set();
    s.lemma_cardinality_of_set();
    assert(cs.to_set() <= s.to_set()) by {
        assert forall|x: A| cs.to_set().contains(x) implies s.to_set().contains(x) by {
            assert(cs.contains(x));
            assert(s.contains(x));
        }
    }
    vstd::set_lib::lemma_len_subset(cs.to_set(), s.to_set());
}

/// If a registry holds a base name and its first `k` suffixed variants,
/// those are `k + 1` distinct names, so the registry has more than `k`
/// entries.
pub proof fn lemma_suffixes_bounded(base: Seq<char>, s: Seq<Seq<char>>, k: int)
    requires
        k >= 0,
        s.contains(base),
        forall|c: int| 1 <= c <= k ==> s.contains(#[trigger] spec_suffixed(base, c as nat)),
    ensures
        k < s.len(),
{
    let n = k;
    let cs = Seq::new(
        (n + 1) as nat,
        |i: int|
            if i == 0 {
                base
            } else {
                spec_suffixed(base, i as nat)
            },
    );
    assert forall|i: int, j: int|
        0 <= i < cs.len() && 0 <= j < cs.len() && i != j implies cs[i] != cs[j] by {
        if cs[i] == cs[j] {
            if i == 0 {
                lemma_base_ne_suffixed(base, j as nat);
            } else if j == 0 {
                lemma_base_ne_suffixed(base, i as nat);
            } else {
                lemma_suffixed_injective(base, i as nat, j as nat);
            }
        }
    }
    lemma_pigeonhole(cs, s);
}

/// The pair-keyed version of [`lemma_suffixes_bounded`], for per-table
/// column registries.
pub proof fn lemma_suffixed_pairs_bounded(
    table: Seq<char>,
    base: Seq<char>,
    s: Seq<(Seq<char>, Seq<char>)>,
    k: int,
)
    requires
        k >= 0,
        s.contains((table, base)),
        forall|c: int| 1 <= c <= k ==> s.contains((table, #[trigger] spec_suffixed(base, c as nat))),
    ensures
        k < s.len(),
{
    let n = k;
    let cs = Seq::new(
        (n + 1) as nat,
        |i: int|
            if i == 0 {
                (table, base)
            } else {
                (table, spec_suffixed(base, i as nat))
            },
    );
    assert forall|i: int, j: int|
        0 <= i < cs.len() && 0 <= j < cs.len() && i != j implies cs[i] != cs[j] by {
        if cs[i] == cs[j] {
            if i == 0 {
                lemma_base_ne_suffixed(base, j as nat);
            } else if j == 0 {
                lemma_base_ne_suffixed(base, i as nat);
            } else {
                lemma_suffixed_injective(base, i as nat, j as nat);
            }
        }
    }
    lemma_pigeonhole(cs, s);
}

/// Pushing a value not yet present keeps a sequence duplicate-free.
pub proof fn lemma_push_fresh_keeps_distinct<A>(s: Seq<A>, x: A)
    requires
        forall|i: int, j: int| 0 <= i < j < s.len() ==> s[i] != s[j],
        !s.contains(x),
    ensures
        forall|i: int, j: int| 0 <= i < j < s.push(x).len() ==> s.push(x)[i] != s.push(x)[j],
{
    assert forall|i: int, j: int| 0 <= i < j < s.push(x).len() implies s.push(x)[i] != s.push(
        x,
    )[j] by {
        if j == s.len() {
            assert(s.push(x)[i] == s[i]);
            assert(s[i] != x) by {
                if s[i] == x {
                    assert(s.contains(x));
                }
            }
        } else {
            assert(s.push(x)[i] == s[i]);
            assert(s.push(x)[j] == s[j]);
        }
    }
}

/// Index of the last `'.'` in `s`, or `-1` when there is none.
pub open spec fn last_dot(s: Seq<char>) -> int
    decreases s.len(),
{
    if s.len() == 0 {
        -1
    } else if s[s.len() - 1] == '.' {
        s.len() - 1
    } else {
        last_dot(s.drop_last())
    }
}

pub proof fn lemma_last_dot_bounds(s: Seq<char>)
    ensures
        -1 <= last_dot(s) < s.len(),
        last_dot(s) >= 0 ==> s[last_dot(s)] == '.',
        forall|j: int| last_dot(s) < j < s.len() ==> s[j] != '.',
        (last_dot(s) == -1) == dot_free(s),
    decreases s.len(),
{
    if s.len() == 0 {
    } else if s[s.len() - 1] == '.' {
    } else {
        lemma_last_dot_bounds(s.drop_last());
        assert forall|j: int| last_dot(s) < j < s.len() implies s[j] != '.' by {
            if j < s.len() - 1 {
                assert(s.drop_last()[j] != '.');
            }
        }
        if last_dot(s) >= 0 {
            assert(s[last_dot(s)] == s.drop_last()[last_dot(s)]);
        }
        if dot_free(s) {
            assert(dot_free(s.drop_last()));
        }
        if !dot_free(s) {
            let k = choose|k: int| 0 <= k < s.len() && s[k] == '.';
            assert(s.drop_last()[k] == '.');
            assert(!dot_free(s.drop_last()));
        }
    }
}

/// A dotted name `parent + '.' + leaf` (with a dot-free leaf) splits at the
/// dot that joins them.
pub proof fn lemma_last_dot_join(parent: Seq<char>, leaf: Seq<char>)
    requires
        dot_free(leaf),
    ensures
        last_dot(parent + seq!['.'] + leaf) == parent.len(),
    decreases leaf.len(),
{
    let s = parent + seq!['.'] + leaf;
    if leaf.len() == 0 {
        assert(s[s.len() - 1] == '.');
    } else {
        assert(s[s.len() - 1] == leaf[leaf.len() - 1]);
        assert(s[s.len() - 1] != '.');
        assert(s.drop_last() =~= parent + seq!['.'] + leaf.drop_last());
        assert(dot_free(leaf.drop_last()));
        lemma_last_dot_join(parent, leaf.drop_last());
    }
}

/// The segment after the last dot; the whole of `s` when it has no dot.
pub open spec fn last_seg(s: Seq<char>) -> Seq<char> {
    s.subrange(last_dot(s) + 1, s.len() as int)
}

/// The segment before the last dot, when there is one.
pub open spec fn parent_seg(s: Seq<char>) -> Seq<char> {
    s.subrange(0, last_dot(s))
}

/// True when `s` is a dotted name (has a parent segment).
pub open spec fn has_parent(s: Seq<char>) -> bool {
    last_dot(s) >= 0
}

/// Everything after the last dot is dot-free.
pub proof fn lemma_last_seg_dot_free(s: Seq<char>)
    ensures
        dot_free(last_seg(s)),
{
    lemma_last_dot_bounds(s);
    assert forall|i: int| 0 <= i < last_seg(s).len() implies last_seg(s)[i] != '.' by {
        assert(last_seg(s)[i] == s[last_dot(s) + 1 + i]);
    }
}

pub proof fn lemma_split_join(parent: Seq<char>, leaf: Seq<char>)
    requires
        dot_free(leaf),
    ensures
        has_parent(parent + seq!['.'] + leaf),
        parent_seg(parent + seq!['.'] + leaf) =~= parent,
        last_seg(parent + seq!['.'] + leaf) =~= leaf,
{
    lemma_last_dot_join(parent, leaf);
}

/// Locates the last dot of `s`.
pub fn find_last_dot(s: &str) -> (r: Option<usize>)
    ensures
        match r {
            Some(i) => i == last_dot(s@) && i < s@.len(),
            None => last_dot(s@) == -1,
        },
{
    proof {
        lemma_last_dot_bounds(s@);
    }
    let n = s.unicode_len();
    let mut i = n;
    while i > 0
        invariant
            i <= n,
            n == s@.len(),
            forall|j: int| i <= j < s@.len() ==> s@[j] != '.',
        decreases i,
    {
        let c = s.get_char(i - 1);
        if c == '.' {
            proof {
                lemma_last_dot_bounds(s@);
            }
            return Some(i - 1);
        }
        i = i - 1;
    }
    None
}

/// The character sequences of a sequence of strings.
pub open spec fn string_views(v: Seq<String>) -> Seq<Seq<char>> {
    v.map_values(|s: String| s@)
}

/// Pushing a string pushes its view.
pub proof fn lemma_string_views_push(prev: Seq<String>, cur: Seq<String>, x: Seq<char>)
    requires
        cur == prev.push(cur.last()),
        cur.last()@ == x,
    ensures
        string_views(cur) == string_views(prev).push(x),
{
    assert(string_views(cur) =~= string_views(prev).push(x));
}

/// Pushing after a concatenation pushes onto the right part.
pub proof fn lemma_concat_push<A>(a: Seq<A>, b: Seq<A>, x: A)
    ensures
        (a + b).push(x) == a + b.push(x),
{
    assert((a + b).push(x) =~= a + b.push(x));
}

/// The strings of `xs` concatenated with `sep` between neighbours.
pub open spec fn spec_join(xs: Seq<Seq<char>>, sep: Seq<char>) -> Seq<char>
    decreases xs.len(),
{
    if xs.len() == 0 {
        Seq::<char>::empty()
    } else if xs.len() == 1 {
        xs[0]
    } else {
        spec_join(xs.drop_last(), sep) + sep + xs.last()
    }
}

/// Joins strings with a separator.
pub fn join_strings(parts: &Vec<String>, sep: &str) -> (r: String)
    ensures
        r@ == spec_join(string_views(parts@), sep@),
{
    let ghost views = string_views(parts@);
    let mut acc = String::new();
    let n = parts.len();
    let mut i: usize = 0;
    while i < n
        invariant
            i <= n,
            n == parts.len(),
            views == string_views(parts@),
            acc@ == spec_join(views.take(i as int), sep@),
        decreases n - i,
    {
        if i > 0 {
            acc.append(sep);
        }
        acc.append(parts[i].as_str());
        proof {
            assert(views.take(i + 1).drop_last() =~= views.take(i as int));
            assert(views.take(i + 1).last() == views[i as int]);
            if i == 0 {
                assert(acc@ =~= spec_join(views.take(i + 1), sep@));
            } else {
                assert(acc@ =~= spec_join(views.take(i as int), sep@) + sep@ + views[i as int]);
            }
        }
        i = i + 1;
    }
    proof {
        assert(views.take(n as int) =~= views);
    }
    acc
}

/// Clones an optional string, keeping its value.
pub fn clone_opt_string(o: &Option<String>) -> (r: Option<String>)
    ensures
        r == *o,
{
    match o {
        Some(s) => Some(s.clone()),
        None => None,
    }
}

/// Compares two string slices by their character sequences.
pub fn str_equal(a: &str, b: &str) -> (r: bool)
    ensures
        r == (a@ == b@),
{
    let na = a.unicode_len();
    let nb = b.unicode_len();
    if na != nb {
        return false;
    }
    let mut i: usize = 0;
    while i < na
        invariant
            i <= na,
            na == a@.len(),
            na == b@.len(),
            forall|j: int| 0 <= j < i ==> a@[j] == b@[j],
        decreases na - i,
    {
        if a.get_char(i) != b.get_char(i) {
            return false;
        }
        i = i + 1;
    }
    proof {
        assert(a@ =~= b@);
    }
    true
}

} // verus!
