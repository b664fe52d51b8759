//! Run configuration: which contracts to index, where the database and the
//! node are, and the explicit level list accepted on the command line.

use vstd::prelude::*;

use crate::names::clone_opt_string;

verus! {

/// A registered contract: its on-chain address and the human-chosen name used
/// as schema prefix.  Names are unique per run; addresses need not be.
#[derive(Debug, PartialEq, Eq)]
pub struct ContractID {
    pub address: String,
    pub name: String,
}

impl Clone for ContractID {
    fn clone(&self) -> (r: Self)
        ensures
            r == *self,
    {
        ContractID { address: self.address.clone(), name: self.name.clone() }
    }
}

/// Everything a run needs.  `workers_cap` is at least 1; `levels` is the
/// explicit list to load, empty for the bootstrap/continuous modes.
#[derive(Debug)]
pub struct Config {
    pub contract_id: ContractID,
    pub database_url: String,
    pub ssl: bool,
    pub ca_cert: Option<String>,
    pub generate_sql: bool,
    pub init: bool,
    pub levels: Vec<u32>,
    pub node_url: String,
    pub network: String,
    pub bcd_url: Option<String>,
    pub workers_cap: usize,
}

impl Clone for Config {
    fn clone(&self) -> (r: Self)
        ensures
            r.contract_id == self.contract_id,
            r.database_url == self.database_url,
            r.ssl == self.ssl,
            r.ca_cert == self.ca_cert,
            r.generate_sql == self.generate_sql,
            r.init == self.init,
            r.levels@ == self.levels@,
            r.node_url == self.node_url,
            r.network == self.network,
            r.bcd_url == self.bcd_url,
            r.workers_cap == self.workers_cap,
    {
        Config {
            contract_id: self.contract_id.clone(),
            database_url: self.database_url.clone(),
            ssl: self.ssl,
            ca_cert: clone_opt_string(&self.ca_cert),
            generate_sql: self.generate_sql,
            init: self.init,
            levels: self.levels.clone(),
            node_url: self.node_url.clone(),
            network: self.network.clone(),
            bcd_url: clone_opt_string(&self.bcd_url),
            workers_cap: self.workers_cap,
        }
    }
}

/// A sequence is sorted in ascending order.
pub open spec fn sorted_ascending(s: Seq<u32>) -> bool {
    forall|i: int, j: int| 0 <= i < j < s.len() ==> s[i] <= s[j]
}

/// Swapping two positions keeps a sequence's elements.
proof fn lemma_swap_multiset(s: Seq<u32>, i: int, j: int)
    requires
        0 <= i < j < s.len(),
    ensures
        s.update(i, s[j]).update(j, s[i]).to_multiset() == s.to_multiset(),
{
    broadcast use vstd::seq_lib::to_multiset_update;
    broadcast use vstd::multiset::group_multiset_axioms;

    s.to_multiset_ensures();
    assert(s.contains(s[i]));
    assert(s.contains(s[j]));
    assert(s.to_multiset().count(s[i]) > 0);
    assert(s.to_multiset().count(s[j]) > 0);
    let m = s.to_multiset();
    let s1 = s.update(i, s[j]);
    assert(s1[j] == s[j]);
    assert(s1.to_multiset() == m.insert(s[j]).remove(s[i]));
    assert(s1.update(j, s[i]).to_multiset() == s1.to_multiset().insert(s[i]).remove(s[j]));
    assert(s1.update(j, s[i]).to_multiset() =~= m);
}

/// Sorts a list of levels in ascending order, keeping its elements.
pub fn sort_levels(levels: Vec<u32>) -> (r: Vec<u32>)
    ensures
        sorted_ascending(r@),
        r@.to_multiset() == levels@.to_multiset(),
{
    let ghost init = levels@;
    let mut v = levels;
    let n = v.len();
    let mut i: usize = 1;
    if n == 0 {
        return v;
    }
    while i < n
        invariant
            1 <= i <= n,
            n == v.len(),
            sorted_ascending(v@.take(i as int)),
            v@.to_multiset() == init.to_multiset(),
        decreases n - i,
    {
        proof {
            assert forall|a: int, b: int| 0 <= a < b <= i && b != i implies #[trigger] v@[a] <= #[trigger] v@[b] by {
                assert(v@.take(i as int)[a] == v@[a]);
                assert(v@.take(i as int)[b] == v@[b]);
            }
        }
        let mut j: usize = i;
        while j > 0 && v[j - 1] > v[j]
            invariant
                0 <= j <= i < n,
                n == v.len(),
                v@.to_multiset() == init.to_multiset(),
                forall|a: int, b: int| 0 <= a < b <= i && b != j ==> #[trigger] v@[a] <= #[trigger] v@[b],
            decreases j,
        {
            let ghost before = v@;
            let x = v[j - 1];
            let y = v[j];
            v.set(j - 1, y);
            v.set(j, x);
            proof {
                assert(v@ =~= before.update(j - 1, before[j as int]).update(
                    j as int,
                    before[j - 1],
                ));
                lemma_swap_multiset(before, j - 1, j as int);
            }
            j = j - 1;
        }
        proof {
            assert forall|a: int, b: int| 0 <= a < b < i + 1 implies #[trigger] v@.take(i + 1)[a]
                <= #[trigger] v@.take(i + 1)[b] by {
                assert(v@.take(i + 1)[a] == v@[a]);
                assert(v@.take(i + 1)[b] == v@[b]);
                if b != j {
                } else {
                    if j > 0 {
                        assert(v@[j - 1] <= v@[j as int]);
                        if a < j - 1 {
                            assert(v@[a] <= v@[j - 1]);
                        }
                    }
                }
            }
        }
        i = i + 1;
    }
    proof {
        assert(v@.take(n as int) =~= v@);
    }
    v
}

/// A decimal digit.
pub open spec fn is_digit(c: char) -> bool {
    '0' <= c <= '9'
}

/// The value of a decimal digit.
pub open spec fn digit_val(c: char) -> u32 {
    (c as u32 - '0' as u32) as u32
}

/// The number a string of digits denotes, `None` for an empty string, a
/// non-digit, or a value beyond `u32`.
pub open spec fn spec_parse_u32(s: Seq<char>) -> Option<u32>
    decreases s.len(),
{
    if s.len() == 0 {
        None
    } else if !is_digit(s.last()) {
        None
    } else if s.len() == 1 {
        Some(digit_val(s.last()))
    } else {
        match spec_parse_u32(s.drop_last()) {
            None => None,
            Some(v) => if v * 10 + digit_val(s.last()) <= u32::MAX {
                Some((v * 10 + digit_val(s.last())) as u32)
            } else {
                None
            },
        }
    }
}

/// See [`spec_parse_u32`].
pub fn parse_u32(s: &str) -> (r: Option<u32>)
    ensures
        r == spec_parse_u32(s@),
{
    let ghost cs = s@;
    let n = s.unicode_len();
    if n == 0 {
        return None;
    }
    let mut acc: u32 = 0;
    let mut i: usize = 0;
    while i < n
        invariant
            i <= n,
            n == cs.len(),
            cs == s@,
            n > 0,
            i > 0 ==> spec_parse_u32(cs.take(i as int)) == Some(acc),
            i == 0 ==> acc == 0,
        decreases n - i,
    {
        proof {
            assert(cs.take(i + 1).drop_last() =~= cs.take(i as int));
            assert(cs.take(i + 1).last() == cs[i as int]);
        }
        let c = s.get_char(i);
        if !(c >= '0' && c <= '9') {
            proof {
                lemma_parse_prefix_none(cs, i as int);
            }
            return None;
        }
        let d = c as u32 - 48;
        proof {
            assert('0' as u32 == 48);
        }
        if i > 0 {
            if acc > (u32::MAX - d) / 10 {
                proof {
                    assert(acc * 10 + d > u32::MAX) by (nonlinear_arith)
                        requires
                            acc > (u32::MAX - d) / 10,
                            d < 10,
                    ;
                    lemma_parse_prefix_none(cs, i + 1 - 1);
                }
                return None;
            }
            proof {
                assert(acc * 10 + d <= u32::MAX) by (nonlinear_arith)
                    requires
                        acc <= (u32::MAX - d) / 10,
                        d < 10,
                ;
            }
            acc = acc * 10 + d;
        } else {
            acc = d;
        }
        i = i + 1;
    }
    proof {
        assert(cs.take(n as int) =~= cs);
    }
    Some(acc)
}

/// A parse that has already failed on a prefix fails on the whole.
proof fn lemma_parse_prefix_none(cs: Seq<char>, i: int)
    requires
        0 <= i < cs.len(),
        spec_parse_u32(cs.take(i + 1)) is None,
    ensures
        spec_parse_u32(cs) is None,
    decreases cs.len() - i,
{
    if i + 1 == cs.len() {
        assert(cs.take(i + 1) =~= cs);
    } else {
        assert(cs.take(i + 2).drop_last() =~= cs.take(i + 1));
        assert(spec_parse_u32(cs.take(i + 2)) is None);
        lemma_parse_prefix_none(cs, i + 1);
    }
}

/// The first position of `c` in `s`, if any.
pub open spec fn first_pos(s: Seq<char>, c: char) -> Option<int>
    decreases s.len(),
{
    if s.len() == 0 {
        None
    } else if s.first() == c {
        Some(0int)
    } else {
        match first_pos(s.drop_first(), c) {
            None => None,
            Some(k) => Some(k + 1),
        }
    }
}

/// Where `c` first occurs decides `first_pos`.
proof fn lemma_first_pos_at(s: Seq<char>, c: char, k: int)
    requires
        0 <= k < s.len(),
        s[k] == c,
        forall|j: int| 0 <= j < k ==> s[j] != c,
    ensures
        first_pos(s, c) == Some(k),
    decreases s.len(),
{
    if k > 0 {
        assert forall|j: int| 0 <= j < k - 1 implies s.drop_first()[j] != c by {
            assert(s.drop_first()[j] == s[j + 1]);
        }
        assert(s.drop_first()[k - 1] == s[k]);
        lemma_first_pos_at(s.drop_first(), c, k - 1);
    }
}

/// `c` absent decides `first_pos`.
proof fn lemma_first_pos_none(s: Seq<char>, c: char)
    requires
        forall|j: int| 0 <= j < s.len() ==> s[j] != c,
    ensures
        first_pos(s, c) is None,
    decreases s.len(),
{
    if s.len() > 0 {
        assert forall|j: int| 0 <= j < s.drop_first().len() implies s.drop_first()[j] != c by {
            assert(s.drop_first()[j] == s[j + 1]);
        }
        lemma_first_pos_none(s.drop_first(), c);
    }
}

/// The levels `from..=to` in ascending order; empty when `from > to`.
pub open spec fn seq_levels(from: u32, to: u32) -> Seq<u32> {
    if from > to {
        Seq::<u32>::empty()
    } else {
        Seq::new((to - from + 1) as nat, |i: int| (from + i) as u32)
    }
}

/// The levels one token of a level list denotes: a plain number, or an
/// inclusive `a-b` range whose upper end leaves room for the level after
/// it; `None` on anything else.
pub open spec fn spec_range_token(t: Seq<char>) -> Option<Seq<u32>> {
    match first_pos(t, '-') {
        None => match spec_parse_u32(t) {
            Some(v) => Some(seq![v]),
            None => None,
        },
        Some(p) => if 0 <= p < t.len() {
            match (spec_parse_u32(t.take(p)), spec_parse_u32(t.skip(p + 1))) {
                (Some(a), Some(b)) => if b < u32::MAX {
                    Some(seq_levels(a, b))
                } else {
                    None
                },
                _ => None,
            }
        } else {
            None
        },
    }
}

/// The levels a comma-separated list of tokens denotes, concatenated in
/// token order; `None` when any token fails.
pub open spec fn spec_range_levels(s: Seq<char>) -> Option<Seq<u32>>
    decreases s.len(),
{
    match first_pos(s, ',') {
        None => spec_range_token(s),
        Some(p) => if 0 <= p < s.len() {
            match (spec_range_token(s.take(p)), spec_range_levels(s.skip(p + 1))) {
                (Some(v), Some(rest)) => Some(v + rest),
                _ => None,
            }
        } else {
            None
        },
    }
}

/// Parses a level list given as `1,2,3` or `4-7` (inclusive ranges),
/// possibly mixed, and returns exactly the levels the list denotes, sorted
/// ascending; `None` exactly on input that denotes nothing.
pub fn range(arg: &str) -> (r: Option<Vec<u32>>)
    ensures
        r is Some <==> spec_range_levels(arg@) is Some,
        r matches Some(v) ==> {
            &&& sorted_ascending(v@)
            &&& v@.to_multiset() == spec_range_levels(arg@)->Some_0.to_multiset()
        },
{
    let ghost cs = arg@;
    let n = arg.unicode_len();
    let mut result: Vec<u32> = Vec::new();
    let mut start: usize = 0;
    let mut i: usize = 0;
    proof {
        assert(cs.subrange(0, n as int) =~= cs);
        if spec_range_levels(cs) is Some {
            assert(result@ + spec_range_levels(cs)->Some_0 =~= spec_range_levels(cs)->Some_0);
        }
    }
    while i <= n
        invariant
            start <= i,
            i <= n,
            n == cs.len(),
            cs == arg@,
            forall|j: int| start <= j < i ==> cs[j] != ',',
            (spec_range_levels(cs.subrange(start as int, n as int)) is Some ==> (
            spec_range_levels(cs) matches Some(whole) && whole == result@ + spec_range_levels(
                cs.subrange(start as int, n as int),
            )->Some_0)),
            (spec_range_levels(cs.subrange(start as int, n as int)) is None ==> spec_range_levels(
                cs,
            ) is None),
        decreases n - i,
    {
        if i == n {
            let token = arg.substring_char(start, i);
            proof {
                assert(token@ =~= cs.subrange(start as int, n as int));
                lemma_first_pos_none(token@, ',');
            }
            match range_token(token, &mut result) {
                Ok(()) => {},
                Err(()) => {
                    return None;
                },
            }
            let sorted = sort_levels(result);
            return Some(sorted);
        }
        if arg.get_char(i) == ',' {
            let token = arg.substring_char(start, i);
            let ghost rest = cs.subrange(start as int, n as int);
            proof {
                assert(token@ =~= cs.subrange(start as int, i as int));
                assert forall|j: int| 0 <= j < i - start implies rest[j] != ',' by {
                    assert(rest[j] == cs[start + j]);
                }
                assert(rest[i - start] == cs[i as int]);
                lemma_first_pos_at(rest, ',', i - start);
                assert(rest.take(i - start) =~= token@);
                assert(rest.skip(i - start + 1) =~= cs.subrange(i + 1, n as int));
            }
            match range_token(token, &mut result) {
                Ok(()) => {},
                Err(()) => {
                    return None;
                },
            }
            start = i + 1;
        }
        i = i + 1;
    }
    proof {
        assert(false);
    }
    None
}

/// Expands one token of a level list into `out`: exactly the levels the
/// token denotes, appended in order; `out` untouched on a bad token.
fn range_token(token: &str, out: &mut Vec<u32>) -> (r: Result<(), ()>)
    ensures
        r is Ok <==> spec_range_token(token@) is Some,
        r is Ok ==> final(out)@ == old(out)@ + spec_range_token(token@)->Some_0,
        r is Err ==> final(out)@ == old(out)@,
{
    let ghost t = token@;
    let n = token.unicode_len();
    let mut dash: Option<usize> = None;
    let mut i: usize = 0;
    while i < n
        invariant
            i <= n,
            n == t.len(),
            t == token@,
            *out == *old(out),
            match dash {
                Some(d) => d < i && t[d as int] == '-' && forall|j: int| 0 <= j < d ==> t[j] != '-',
                None => forall|j: int| 0 <= j < i ==> t[j] != '-',
            },
        decreases n - i,
    {
        if token.get_char(i) == '-' {
            if dash.is_none() {
                dash = Some(i);
            }
        }
        i = i + 1;
    }
    match dash {
        None => {
            proof {
                lemma_first_pos_none(t, '-');
            }
            match parse_u32(token) {
                Some(v) => {
                    let ghost prev = out@;
                    out.push(v);
                    proof {
                        assert(out@ =~= prev + seq![v]);
                    }
                    Ok(())
                },
                None => Err(()),
            }
        },
        Some(pos) => {
            proof {
                lemma_first_pos_at(t, '-', pos as int);
            }
            let from_s = token.substring_char(0, pos);
            let to_s = token.substring_char(pos + 1, n);
            proof {
                assert(from_s@ =~= t.take(pos as int));
                assert(to_s@ =~= t.skip(pos + 1));
            }
            let from = match parse_u32(from_s) {
                Some(v) => v,
                None => {
                    return Err(());
                },
            };
            let to = match parse_u32(to_s) {
                Some(v) => v,
                None => {
                    return Err(());
                },
            };
            if to == u32::MAX {
                return Err(());
            }
            let ghost prev = out@;
            let mut l = from;
            while l <= to
                invariant
                    to < u32::MAX,
                    from <= l,
                    l <= to + 1 || l == from,
                    out@ == prev + (if l > from {
                        Seq::new((l - from) as nat, |k: int| (from + k) as u32)
                    } else {
                        Seq::<u32>::empty()
                    }),
                decreases to + 1 - l,
            {
                out.push(l);
                proof {
                    assert(out@ =~= prev + Seq::new(
                        (l + 1 - from) as nat,
                        |k: int| (from + k) as u32,
                    ));
                }
                l = l + 1;
            }
            proof {
                if from > to {
                    assert(out@ =~= prev + seq_levels(from, to));
                } else {
                    assert(out@ =~= prev + seq_levels(from, to));
                }
            }
            Ok(())
        },
    }
}

/// The configured contract list is usable: at least one contract, and no
/// two contracts sharing a name.
pub fn validate_contracts(contracts: &Vec<ContractID>) -> (r: bool)
    ensures
        r == (contracts@.len() > 0 && forall|i: int, j: int|
            0 <= i < j < contracts@.len() ==> (#[trigger] contracts@[i]).name@ != (
            #[trigger] contracts@[j]).name@),
{
    let n = contracts.len();
    if n == 0 {
        return false;
    }
    let mut i: usize = 0;
    while i < n
        invariant
            i <= n,
            n == contracts@.len(),
            forall|a: int, b: int|
                0 <= a < b < n && a < i ==> (#[trigger] contracts@[a]).name@ != (
                #[trigger] contracts@[b]).name@,
        decreases n - i,
    {
        let mut j: usize = i + 1;
        while j < n
            invariant
                i < j <= n,
                n == contracts@.len(),
                forall|b: int| i < b < j ==> (#[trigger] contracts@[b]).name@ != contracts@[i as int].name@,
            decreases n - j,
        {
            if contracts[i].name.eq(&contracts[j].name) {
                proof {
                    assert(contracts@[i as int].name@ == contracts@[j as int].name@);
                }
                return false;
            }
            j = j + 1;
        }
        proof {
            assert forall|a: int, b: int|
                0 <= a < b < n && a < i + 1 implies (#[trigger] contracts@[a]).name@ != (
            #[trigger] contracts@[b]).name@ by {}
        }
        i = i + 1;
    }
    true
}

} // verus!
