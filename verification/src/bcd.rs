//! The client of the external operation index: its configuration, and the
//! computations its paging loop rests on.  The HTTP paging itself lives
//! outside the library and hands parsed pages back as plain values.

use vstd::prelude::*;

verus! {

/// Configuration of the external operation index: its URL, the network to
/// ask about, the contract of interest, and the request timeout.
pub struct BCDClient {
    pub api_url: String,
    pub network: String,
    pub timeout_secs: u64,
    pub contract_id: String,
}

impl BCDClient {
    /// A client asking `api_url` about `contract_id` on `network`, with
    /// the default timeout.
    pub fn new(api_url: String, network: String, contract_id: String) -> (r: Self)
        ensures
            r.api_url@ == api_url@,
            r.network@ == network@,
            r.contract_id@ == contract_id@,
            r.timeout_secs == 20u64,
    {
        BCDClient { api_url, network, timeout_secs: 20, contract_id }
    }
}

/// `s` with adjacent duplicates collapsed, in order.
pub open spec fn spec_dedup(s: Seq<u32>) -> Seq<u32>
    decreases s.len(),
{
    if s.len() == 0 {
        Seq::<u32>::empty()
    } else {
        let rest = spec_dedup(s.drop_last());
        if rest.len() > 0 && rest.last() == s.last() {
            rest
        } else {
            rest.push(s.last())
        }
    }
}

/// Collapses adjacent duplicate levels of one operation page, keeping
/// order: what the paging loop feeds the fetchers.
pub fn dedup_levels(levels: &Vec<u32>) -> (r: Vec<u32>)
    ensures
        r@ == spec_dedup(levels@),
{
    let ghost all = levels@;
    let mut out: Vec<u32> = Vec::new();
    proof {
        assert(out@ =~= spec_dedup(all.take(0)));
    }
    let n = levels.len();
    let mut i: usize = 0;
    while i < n
        invariant
            i <= n,
            n == levels.len(),
            all == levels@,
            out@ == spec_dedup(all.take(i as int)),
        decreases n - i,
    {
        proof {
            assert(all.take(i + 1).drop_last() =~= all.take(i as int));
            assert(all.take(i + 1).last() == all[i as int]);
        }
        let keep = if out.len() > 0 {
            out[out.len() - 1] != levels[i]
        } else {
            true
        };
        if keep {
            out.push(levels[i]);
        }
        i = i + 1;
    }
    proof {
        assert(all.take(n as int) =~= all);
    }
    out
}

/// One step of the operation-index paging loop: collapses the page's
/// adjacent duplicate levels and reports whether the page was empty, which
/// ends the paging.  The HTTP request itself stays outside the library.
pub fn bcd_page_step(page_levels: &Vec<u32>) -> (r: (Vec<u32>, bool))
    ensures
        r.0@ == spec_dedup(page_levels@),
        r.1 == (page_levels@.len() == 0),
{
    let deduped = dedup_levels(page_levels);
    let done = page_levels.len() == 0;
    (deduped, done)
}

/// The index's `/head` answer: per network, its latest level.  Picks the
/// entry of the wanted network, if any: the first one.
pub fn select_network_level(entries: &Vec<(String, u32)>, network: &String) -> (r: Option<u32>)
    ensures
        match r {
            Some(l) => exists|i: int|
                0 <= i < entries@.len() && (#[trigger] entries@[i]).0@ == network@
                    && entries@[i].1 == l && forall|j: int|
                    0 <= j < i ==> (#[trigger] entries@[j]).0@ != network@,
            None => forall|i: int| 0 <= i < entries@.len() ==> (#[trigger] entries@[i]).0@ != network@,
        },
{
    let n = entries.len();
    let mut i: usize = 0;
    while i < n
        invariant
            i <= n,
            n == entries.len(),
            forall|j: int| 0 <= j < i ==> (#[trigger] entries@[j]).0@ != network@,
        decreases n - i,
    {
        if entries[i].0.eq(network) {
            proof {
                assert((entries@[i as int]).0@ == network@);
            }
            return Some(entries[i].1);
        }
        i = i + 1;
    }
    None
}

} // verus!
