//! The scan: which address is probed next, how batches are put together,
//! and what a finished batch changes.
//!
//! Addresses are visited by offset first and by range second: for offset 0,
//! 1, 2, ... every range is visited once, in the order of the range list,
//! before the offset goes up. The place of the scan is a pair of a range
//! index and an offset, so that a scan can be taken up again where a batch
//! ended.

use crate::cache::{committed_order, RttResult, RttResultCache, RttResults};
use crate::data::Subnet;
use crate::decimal::{decimal_chars, decimal_text};
use crate::error::{DeserializedError, Error, ErrorKind};
use crate::inet::IpInet;
use crate::text::push_chars;
use vstd::prelude::*;
use vstd::string::StringExecFns;

verus! {

/// What steers a scan.
#[derive(Debug, Clone, Copy, PartialEq, Eq, Structural)]
pub struct ScanSettings {
    /// Most addresses in one batch.
    pub max_connection_count: usize,
    /// The offset at which the scan ends.
    pub max_subnet_len: usize,
    /// Whether ranges without an answer are passed over behind the
    /// threshold.
    pub auto_skip: bool,
    /// The offset up to which every range is probed.
    pub enable_threshold: usize,
}

/// Whether a range is probed at an offset: always without auto-skip and
/// below the threshold, and behind it only if the range is enabled.
pub open spec fn eligible(subnet: Subnet, offset: int, settings: ScanSettings) -> bool {
    !settings.auto_skip || offset < settings.enable_threshold || subnet.enable
}

/// The address that a range gives at an offset, if it is probed there and
/// has that many addresses.
pub open spec fn candidate(subnet: Subnet, offset: int, settings: ScanSettings) -> Option<IpInet> {
    if eligible(subnet, offset, settings) && 0 <= offset < subnet.cidr.capacity() {
        Some(subnet.cidr.nth(offset as nat))
    } else {
        None
    }
}

/// The place is one of the scan over `n` ranges: the offset is at most the
/// ceiling, and the index names a range, or is zero once the scan has ended.
pub open spec fn cursor_valid(cache: RttResultCache, n: int, settings: ScanSettings) -> bool {
    &&& cache.current_subnet_start <= settings.max_subnet_len
    &&& cache.current_subnet_start < settings.max_subnet_len ==> cache.current_subnet < n
    &&& cache.current_subnet_start == settings.max_subnet_len ==> cache.current_subnet == 0
}

/// The place after one range was visited.
pub open spec fn advanced(cache: RttResultCache, n: int) -> RttResultCache {
    if cache.current_subnet + 1 == n {
        RttResultCache {
            current_subnet: 0,
            current_subnet_start: (cache.current_subnet_start + 1) as usize,
        }
    } else {
        RttResultCache {
            current_subnet: (cache.current_subnet + 1) as usize,
            current_subnet_start: cache.current_subnet_start,
        }
    }
}

/// Number of addresses that a range adds to the scan at the present offset:
/// its capacity, or the ceiling where that is less, and nothing while the
/// range is passed over.
pub open spec fn subnet_len(subnet: Subnet, offset: int, settings: ScanSettings) -> nat {
    if eligible(subnet, offset, settings) {
        vstd::math::min(subnet.cidr.capacity() as int, settings.max_subnet_len as int) as nat
    } else {
        0
    }
}

/// Number of addresses of the whole scan, as counted at the present offset.
pub open spec fn all_ip_count(subnets: Seq<Subnet>, offset: int, settings: ScanSettings) -> nat
    decreases subnets.len(),
{
    if subnets.len() == 0 {
        0
    } else {
        all_ip_count(subnets.drop_last(), offset, settings) + subnet_len(
            subnets.last(),
            offset,
            settings,
        )
    }
}

/// Number of addresses that lie before the place, as counted at the present
/// offset: of each range the offsets below the present one, and one more for
/// each range before the present one that adds anything.
pub open spec fn start_ip_count(
    subnets: Seq<Subnet>,
    cache: RttResultCache,
    settings: ScanSettings,
) -> nat
    decreases subnets.len(),
{
    if subnets.len() == 0 {
        0
    } else {
        let len = subnet_len(subnets.last(), cache.current_subnet_start as int, settings);
        let visited: nat = if subnets.len() - 1 < cache.current_subnet && len != 0 {
            1
        } else {
            0
        };
        start_ip_count(subnets.drop_last(), cache, settings) + vstd::math::min(
            len as int,
            cache.current_subnet_start as int,
        ) as nat + visited
    }
}

/// The largest capacity among the ranges, or `limit` where that is less.
pub open spec fn ceiling_of(subnets: Seq<Subnet>, limit: int) -> int
    decreases subnets.len(),
{
    if subnets.len() == 0 {
        0
    } else {
        vstd::math::max(
            ceiling_of(subnets.drop_last(), limit),
            vstd::math::min(subnets.last().cidr.capacity() as int, limit),
        )
    }
}

/// Every range is a well-formed network.
pub open spec fn all_wf(subnets: Seq<Subnet>) -> bool {
    forall|i: int| 0 <= i < subnets.len() ==> (#[trigger] subnets[i]).wf()
}

/// Whether a range is probed at an offset.
pub fn is_eligible(subnet: &Subnet, offset: usize, settings: &ScanSettings) -> (r: bool)
    ensures
        r == eligible(*subnet, offset as int, *settings),
{
    !settings.auto_skip || offset < settings.enable_threshold || subnet.enable
}

/// Number of addresses that a range adds to the scan at the present offset.
pub fn calc_subnet_len(subnet: &Subnet, cache: &RttResultCache, settings: &ScanSettings) -> (n:
    usize)
    requires
        subnet.wf(),
    ensures
        n == subnet_len(*subnet, cache.current_subnet_start as int, *settings),
{
    if is_eligible(subnet, cache.current_subnet_start, settings) {
        subnet.len_capped(settings.max_subnet_len)
    } else {
        0
    }
}

/// Number of addresses of the whole scan, as counted at the present offset.
pub fn calc_all_ip_count(
    subnets: &Vec<Subnet>,
    cache: &RttResultCache,
    settings: &ScanSettings,
) -> (total: u128)
    requires
        all_wf(subnets@),
    ensures
        total == all_ip_count(subnets@, cache.current_subnet_start as int, *settings),
{
    let mut total: u128 = 0;
    let mut i: usize = 0;
    while i < subnets.len()
        invariant
            i <= subnets.len(),
            all_wf(subnets@),
            total == all_ip_count(
                subnets@.take(i as int),
                cache.current_subnet_start as int,
                *settings,
            ),
            total <= i * 0x1_0000_0000_0000_0000,
        decreases subnets.len() - i,
    {
        proof {
            assert(subnets@.take(i + 1).drop_last() =~= subnets@.take(i as int));
            assert(subnets@.take(i + 1).last() == subnets[i as int]);
        }
        let len = calc_subnet_len(&subnets[i], cache, settings);
        total = total + len as u128;
        i = i + 1;
    }
    proof {
        assert(subnets@.take(i as int) =~= subnets@);
    }
    total
}

/// Number of addresses that lie before the place, as counted at the present
/// offset.
pub fn calc_start_ip_count(
    subnets: &Vec<Subnet>,
    cache: &RttResultCache,
    settings: &ScanSettings,
) -> (count: u128)
    requires
        all_wf(subnets@),
    ensures
        count == start_ip_count(subnets@, *cache, *settings),
{
    let mut count: u128 = 0;
    let mut i: usize = 0;
    while i < subnets.len()
        invariant
            i <= subnets.len(),
            all_wf(subnets@),
            count == start_ip_count(subnets@.take(i as int), *cache, *settings),
            count <= i * 0x1_0000_0000_0000_0000,
        decreases subnets.len() - i,
    {
        proof {
            assert(subnets@.take(i + 1).drop_last() =~= subnets@.take(i as int));
            assert(subnets@.take(i + 1).last() == subnets[i as int]);
        }
        let len = calc_subnet_len(&subnets[i], cache, settings);
        let below = if len < cache.current_subnet_start {
            len
        } else {
            cache.current_subnet_start
        };
        let visited: u128 = if i < cache.current_subnet && len != 0 {
            1
        } else {
            0
        };
        count = count + below as u128 + visited;
        i = i + 1;
    }
    proof {
        assert(subnets@.take(i as int) =~= subnets@);
    }
    count
}

/// The offset at which the scan ends: the largest capacity among the ranges,
/// or `limit` where that is less.
pub fn max_subnet_len(subnets: &Vec<Subnet>, limit: usize) -> (ceiling: usize)
    requires
        all_wf(subnets@),
    ensures
        ceiling == ceiling_of(subnets@, limit as int),
{
    let mut ceiling: usize = 0;
    let mut i: usize = 0;
    while i < subnets.len()
        invariant
            i <= subnets.len(),
            all_wf(subnets@),
            ceiling == ceiling_of(subnets@.take(i as int), limit as int),
        decreases subnets.len() - i,
    {
        proof {
            assert(subnets@.take(i + 1).drop_last() =~= subnets@.take(i as int));
            assert(subnets@.take(i + 1).last() == subnets[i as int]);
        }
        let len = subnets[i].len_capped(limit);
        if len > ceiling {
            ceiling = len;
        }
        i = i + 1;
    }
    proof {
        assert(subnets@.take(i as int) =~= subnets@);
    }
    ceiling
}

/// What is said of a range index that names no range.
pub open spec fn subnet_message(current_subnet: usize, n: usize) -> Seq<char> {
    "Can not load rtt result cache. current_subnet: "@ + decimal_text(current_subnet as nat)
        + ", but subnets.len(): "@ + decimal_text(n as nat)
}

/// What is said of an offset at or behind the end of the scan.
pub open spec fn start_message(current_subnet_start: usize, ceiling: usize) -> Seq<char> {
    "Can not load rtt result cache. current_subnet_start: "@ + decimal_text(
        current_subnet_start as nat,
    ) + ", but max_subnet_len: "@ + decimal_text(ceiling as nat)
}

/// Two pieces of text, each followed by a number.
fn two_numbers(first: &str, a: usize, second: &str, b: usize) -> (s: String)
    ensures
        s@ == first@ + decimal_text(a as nat) + second@ + decimal_text(b as nat),
{
    let mut s = String::new();
    s.append(first);
    push_chars(&mut s, &decimal_chars(a as u64));
    s.append(second);
    push_chars(&mut s, &decimal_chars(b as u64));
    assert(s@ =~= first@ + decimal_text(a as nat) + second@ + decimal_text(b as nat));
    s
}

/// Holds a place that was read from a file against the ranges at hand. A
/// place whose range index names no range, or whose offset is not below the
/// end of the scan, is refused, in this order.
pub fn check_cursor(cache: &RttResultCache, n: usize, ceiling: usize) -> (r: Result<(), Error>)
    ensures
        match r {
            Ok(_) => cache.current_subnet < n && cache.current_subnet_start < ceiling,
            Err(e) => e.kind() matches ErrorKind::Deserialized(DeserializedError::Custom(msg)) && (
            if cache.current_subnet >= n {
                msg@ == subnet_message(cache.current_subnet, n)
            } else {
                cache.current_subnet_start >= ceiling && msg@ == start_message(
                    cache.current_subnet_start,
                    ceiling,
                )
            }),
        },
{
    if cache.current_subnet >= n {
        let msg = two_numbers(
            "Can not load rtt result cache. current_subnet: ",
            cache.current_subnet,
            ", but subnets.len(): ",
            n,
        );
        return Err(Error::from(DeserializedError::custom(msg.as_str())));
    }
    if cache.current_subnet_start >= ceiling {
        let msg = two_numbers(
            "Can not load rtt result cache. current_subnet_start: ",
            cache.current_subnet_start,
            ", but max_subnet_len: ",
            ceiling,
        );
        return Err(Error::from(DeserializedError::custom(msg.as_str())));
    }
    Ok(())
}

/// The first `subnet_count` ranges, or all of them for a count of zero.
pub fn limit_subnets(subnets: Vec<Subnet>, subnet_count: usize) -> (r: Vec<Subnet>)
    requires
        subnet_count <= subnets.len(),
    ensures
        r@ == (if subnet_count != 0 {
            subnets@.take(subnet_count as int)
        } else {
            subnets@
        }),
{
    let mut r = subnets;
    if subnet_count != 0 {
        r.truncate(subnet_count);
    }
    r
}

/// The count of the scan as it is taken anew when the offset reaches the
/// threshold: from there on only enabled ranges count.
#[derive(Debug, Clone, Copy, PartialEq, Eq, Structural)]
pub struct Progress {
    pub all_ip_count: u128,
    pub start_ip_count: u128,
}

/// A batch of addresses to probe together.
#[derive(Debug)]
pub struct Batch {
    /// The addresses, in the order of the scan.
    pub ips: Vec<IpInet>,
    /// For each address the index of the range it was taken from.
    pub subnet_idxs: Vec<usize>,
    /// The new count, if the offset reached the threshold while the batch
    /// was put together.
    pub progress: Option<Progress>,
}

/// A batch in the making, and the place of the scan.
pub struct Assembly {
    pub ips: Seq<IpInet>,
    pub subnet_idxs: Seq<usize>,
    pub progress: Option<Progress>,
    pub cache: RttResultCache,
}

/// An empty batch at a place.
pub open spec fn start_at(cache: RttResultCache) -> Assembly {
    Assembly {
        ips: Seq::<IpInet>::empty(),
        subnet_idxs: Seq::<usize>::empty(),
        progress: None,
        cache,
    }
}

/// One visit: the present range gives its address at the present offset, if
/// it has one to give, and the place moves on. Where the offset thereby
/// reaches the threshold of an auto-skip scan, the count is taken anew, less
/// what the batch already holds.
pub open spec fn visit(subnets: Seq<Subnet>, settings: ScanSettings, a: Assembly) -> Assembly {
    let subnet = subnets[a.cache.current_subnet as int];
    let offset = a.cache.current_subnet_start as int;
    let found = candidate(subnet, offset, settings);
    let ips = match found {
        Some(ip) => a.ips.push(ip),
        None => a.ips,
    };
    let subnet_idxs = match found {
        Some(ip) => a.subnet_idxs.push(a.cache.current_subnet),
        None => a.subnet_idxs,
    };
    let cache = advanced(a.cache, subnets.len() as int);
    let progress = if cache.current_subnet == 0 && settings.auto_skip && cache.current_subnet_start
        == settings.enable_threshold {
        let start = start_ip_count(subnets, cache, settings);
        Some(
            Progress {
                all_ip_count: all_ip_count(subnets, cache.current_subnet_start as int, settings) as u128,
                start_ip_count: (if start > ips.len() {
                    start - ips.len()
                } else {
                    0
                }) as u128,
            },
        )
    } else {
        a.progress
    };
    Assembly { ips, subnet_idxs, progress, cache }
}

/// Whether putting the batch together goes on: the batch is not full and
/// the scan has not ended.
pub open spec fn goes_on(subnets: Seq<Subnet>, settings: ScanSettings, a: Assembly) -> bool {
    &&& a.ips.len() < settings.max_connection_count
    &&& a.cache.current_subnet_start < settings.max_subnet_len
    &&& a.cache.current_subnet < subnets.len() <= usize::MAX
}

/// The batch that visits make of `a`, one after another, until the batch is
/// full or the scan has ended.
pub open spec fn assemble(subnets: Seq<Subnet>, settings: ScanSettings, a: Assembly) -> Assembly
    decreases settings.max_subnet_len - a.cache.current_subnet_start,
        subnets.len() - a.cache.current_subnet,
{
    if goes_on(subnets, settings, a) {
        assemble(subnets, settings, visit(subnets, settings, a))
    } else {
        a
    }
}

/// All addresses that the scan still gives from a place on, with the ranges
/// as they are.
pub open spec fn remaining(subnets: Seq<Subnet>, settings: ScanSettings, cache: RttResultCache) -> Seq<
    IpInet,
>
    decreases settings.max_subnet_len - cache.current_subnet_start,
        subnets.len() - cache.current_subnet,
{
    if cache.current_subnet_start < settings.max_subnet_len && cache.current_subnet
        < subnets.len() <= usize::MAX {
        let here = match candidate(
            subnets[cache.current_subnet as int],
            cache.current_subnet_start as int,
            settings,
        ) {
            Some(ip) => seq![ip],
            None => Seq::<IpInet>::empty(),
        };
        here + remaining(subnets, settings, advanced(cache, subnets.len() as int))
    } else {
        Seq::<IpInet>::empty()
    }
}

/// What a batch in the making holds and what the scan gives from its place
/// on are together what they are once the batch is done.
pub proof fn lemma_assemble_remaining(subnets: Seq<Subnet>, settings: ScanSettings, a: Assembly)
    ensures
        a.ips + remaining(subnets, settings, a.cache) == assemble(subnets, settings, a).ips
            + remaining(subnets, settings, assemble(subnets, settings, a).cache),
    decreases settings.max_subnet_len - a.cache.current_subnet_start,
        subnets.len() - a.cache.current_subnet,
{
    if goes_on(subnets, settings, a) {
        let b = visit(subnets, settings, a);
        lemma_assemble_remaining(subnets, settings, b);
        assert(a.ips + remaining(subnets, settings, a.cache) =~= b.ips + remaining(
            subnets,
            settings,
            b.cache,
        ));
    }
}

/// A scan that is taken up at the place where a batch ended gives what the
/// scan would have given had it gone on: all that the scan gives from a
/// place on is the next batch, and then all that it gives from the place
/// where that batch ended.
pub proof fn lemma_resume(subnets: Seq<Subnet>, settings: ScanSettings, cache: RttResultCache)
    ensures
        remaining(subnets, settings, cache) == assemble(subnets, settings, start_at(cache)).ips
            + remaining(subnets, settings, assemble(subnets, settings, start_at(cache)).cache),
{
    lemma_assemble_remaining(subnets, settings, start_at(cache));
    assert(start_at(cache).ips + remaining(subnets, settings, cache) =~= remaining(
        subnets,
        settings,
        cache,
    ));
}

/// The counts of a scan fit 128 bits.
pub proof fn lemma_counts_fit(subnets: Seq<Subnet>, cache: RttResultCache, settings: ScanSettings)
    ensures
        all_ip_count(subnets, cache.current_subnet_start as int, settings) <= subnets.len()
            * 0x1_0000_0000_0000_0000,
        start_ip_count(subnets, cache, settings) <= subnets.len() * 0x1_0000_0000_0000_0000,
    decreases subnets.len(),
{
    if subnets.len() > 0 {
        lemma_counts_fit(subnets.drop_last(), cache, settings);
    }
}

/// Puts the next batch together and moves the place behind it. The batch is
/// done when it holds `max_connection_count` addresses or the scan has
/// ended.
pub fn next_batch(subnets: &Vec<Subnet>, cache: &mut RttResultCache, settings: &ScanSettings) -> (batch:
    Batch)
    requires
        all_wf(subnets@),
        cursor_valid(*old(cache), subnets.len() as int, *settings),
    ensures
        batch.ips@ == assemble(subnets@, *settings, start_at(*old(cache))).ips,
        batch.subnet_idxs@ == assemble(subnets@, *settings, start_at(*old(cache))).subnet_idxs,
        batch.progress == assemble(subnets@, *settings, start_at(*old(cache))).progress,
        *final(cache) == assemble(subnets@, *settings, start_at(*old(cache))).cache,
        cursor_valid(*final(cache), subnets.len() as int, *settings),
        batch.ips.len() == batch.subnet_idxs.len(),
        batch.ips.len() <= settings.max_connection_count,
        batch.ips.len() == settings.max_connection_count || final(cache).current_subnet_start
            == settings.max_subnet_len,
        forall|i: int|
            0 <= i < batch.ips.len() ==> (#[trigger] batch.ips[i]).wf() && batch.subnet_idxs[i]
                < subnets.len() && subnets[batch.subnet_idxs[i] as int].cidr.covers(batch.ips[i]),
{
    let n = subnets.len();
    let ghost goal = assemble(subnets@, *settings, start_at(*cache));
    let mut ips: Vec<IpInet> = Vec::new();
    let mut subnet_idxs: Vec<usize> = Vec::new();
    let mut progress: Option<Progress> = None;
    while ips.len() < settings.max_connection_count && cache.current_subnet_start
        < settings.max_subnet_len
        invariant
            n == subnets.len(),
            all_wf(subnets@),
            cursor_valid(*cache, n as int, *settings),
            ips.len() == subnet_idxs.len(),
            ips.len() <= settings.max_connection_count,
            assemble(
                subnets@,
                *settings,
                Assembly { ips: ips@, subnet_idxs: subnet_idxs@, progress, cache: *cache },
            ) == goal,
            forall|i: int|
                0 <= i < ips.len() ==> (#[trigger] ips[i]).wf() && subnet_idxs[i] < n
                    && subnets[subnet_idxs[i] as int].cidr.covers(ips[i]),
        decreases settings.max_subnet_len - cache.current_subnet_start, n - cache.current_subnet,
    {
        let ghost a = Assembly { ips: ips@, subnet_idxs: subnet_idxs@, progress, cache: *cache };
        proof {
            assert(goes_on(subnets@, *settings, a));
        }
        let subnet = &subnets[cache.current_subnet];
        if is_eligible(subnet, cache.current_subnet_start, settings) {
            if let Some(ip_inet) = subnet.get_ip(cache.current_subnet_start) {
                ips.push(ip_inet);
                subnet_idxs.push(cache.current_subnet);
            }
        }
        assert forall|i: int| 0 <= i < ips.len() implies (#[trigger] ips[i]).wf() && subnet_idxs[i]
            < n && subnets[subnet_idxs[i] as int].cidr.covers(ips[i]) by {
            if i < a.ips.len() {
                assert(ips[i] == a.ips[i] && subnet_idxs[i] == a.subnet_idxs[i]);
            }
        }
        cache.current_subnet = cache.current_subnet + 1;
        if cache.current_subnet == n {
            cache.current_subnet = 0;
            cache.current_subnet_start = cache.current_subnet_start + 1;
            if settings.auto_skip && cache.current_subnet_start == settings.enable_threshold {
                let all = calc_all_ip_count(subnets, cache, settings);
                let start = calc_start_ip_count(subnets, cache, settings);
                let held = ips.len() as u128;
                progress = Some(
                    Progress {
                        all_ip_count: all,
                        start_ip_count: if start > held {
                            start - held
                        } else {
                            0
                        },
                    },
                );
            }
        }
        proof {
            lemma_counts_fit(subnets@, *cache, *settings);
            let b = visit(subnets@, *settings, a);
            assert(b.ips == ips@);
            assert(b.subnet_idxs == subnet_idxs@);
            assert(b.cache == *cache);
            assert(b.progress == progress);
            assert(b == Assembly { ips: ips@, subnet_idxs: subnet_idxs@, progress, cache: *cache });
        }
    }
    Batch { ips, subnet_idxs, progress }
}

/// The mapping and the staging list after the answers of a batch were
/// added, address by address: an address that was answered gets its record
/// and is staged, one that was not is left as it is.
pub open spec fn added(
    m: Map<IpInet, RttResult>,
    staged: Seq<IpInet>,
    ips: Seq<IpInet>,
    answers: Seq<Option<RttResult>>,
) -> (Map<IpInet, RttResult>, Seq<IpInet>)
    decreases ips.len(),
{
    if ips.len() == 0 {
        (m, staged)
    } else {
        let before = added(m, staged, ips.drop_last(), answers.drop_last());
        match answers.last() {
            Some(r) => (
                before.0.insert(ips.last(), r),
                if before.1.contains(ips.last()) {
                    before.1
                } else {
                    before.1.push(ips.last())
                },
            ),
            None => before,
        }
    }
}

/// Number of answers.
pub open spec fn successes(answers: Seq<Option<RttResult>>) -> nat
    decreases answers.len(),
{
    if answers.len() == 0 {
        0
    } else {
        successes(answers.drop_last()) + (if answers.last() is Some {
            1nat
        } else {
            0nat
        })
    }
}

/// Whether a range was answered in a batch.
pub open spec fn answered(subnet_idxs: Seq<usize>, answers: Seq<Option<RttResult>>, i: int) -> bool {
    exists|j: int|
        0 <= j < subnet_idxs.len() && j < answers.len() && (#[trigger] answers[j]) is Some
            && subnet_idxs[j] == i
}

/// Takes in the answers of a batch. Every answer is added to the store; while
/// the offset is below the threshold, the range of an answered address is
/// enabled. With one answer or more the store is committed. Addresses
/// without an answer change nothing. Returns the number of answers.
pub fn record_results(
    subnets: &mut Vec<Subnet>,
    rtt_results: &mut RttResults,
    cache: &RttResultCache,
    settings: &ScanSettings,
    batch: &Batch,
    test_res: &Vec<Option<RttResult>>,
) -> (success_count: usize)
    requires
        old(rtt_results).wf(),
        test_res.len() == batch.ips.len(),
        batch.subnet_idxs.len() == batch.ips.len(),
        forall|i: int| 0 <= i < batch.ips.len() ==> (#[trigger] batch.ips[i]).wf(),
        forall|i: int|
            0 <= i < batch.subnet_idxs.len() ==> (#[trigger] batch.subnet_idxs[i]) < old(subnets).len(),
        old(rtt_results).mapping().len() + batch.ips.len() <= usize::MAX,
    ensures
        success_count == successes(test_res@),
        final(rtt_results).wf(),
        final(rtt_results).mapping() == added(
            old(rtt_results).mapping(),
            old(rtt_results).staged(),
            batch.ips@,
            test_res@,
        ).0,
        success_count != 0 ==> final(rtt_results).is_committed() && final(rtt_results).ordered()
            == committed_order(
            final(rtt_results).mapping(),
            old(rtt_results).ordered(),
            added(old(rtt_results).mapping(), old(rtt_results).staged(), batch.ips@, test_res@).1,
        ),
        success_count == 0 ==> final(rtt_results).ordered() == old(rtt_results).ordered() && final(rtt_results).staged() == old(rtt_results).staged() && final(rtt_results).mapping() == old(rtt_results).mapping(),
        final(subnets).len() == old(subnets).len(),
        forall|i: int|
            0 <= i < final(subnets).len() ==> (#[trigger] final(subnets)[i]).cidr == old(subnets)[i].cidr && (final(subnets)[i].enable <==> old(subnets)[i].enable || (
            cache.current_subnet_start < settings.enable_threshold && answered(
                batch.subnet_idxs@,
                test_res@,
                i,
            ))),
{
    let ghost m0 = rtt_results.mapping();
    let ghost staged0 = rtt_results.staged();
    let ghost ordered0 = rtt_results.ordered();
    let ghost ips = batch.ips@;
    let ghost idxs = batch.subnet_idxs@;
    let ghost answers = test_res@;
    let n = subnets.len();
    let warm = cache.current_subnet_start < settings.enable_threshold;
    let mut success_count: usize = 0;
    let mut i: usize = 0;
    proof {
        assert(ips.take(0) =~= Seq::<IpInet>::empty());
    }
    while i < batch.ips.len()
        invariant
            i <= batch.ips.len(),
            ips == batch.ips@,
            idxs == batch.subnet_idxs@,
            answers == test_res@,
            answers.len() == ips.len(),
            idxs.len() == ips.len(),
            forall|p: int| 0 <= p < ips.len() ==> (#[trigger] ips[p]).wf(),
            forall|p: int| 0 <= p < idxs.len() ==> (#[trigger] idxs[p]) < n,
            n == old(subnets).len(),
            subnets.len() == n,
            warm == (cache.current_subnet_start < settings.enable_threshold),
            rtt_results.wf(),
            rtt_results.ordered() == ordered0,
            (rtt_results.mapping(), rtt_results.staged()) == added(
                m0,
                staged0,
                ips.take(i as int),
                answers.take(i as int),
            ),
            rtt_results.mapping().len() <= m0.len() + i,
            m0.len() + ips.len() <= usize::MAX,
            success_count == successes(answers.take(i as int)),
            success_count <= i,
            success_count == 0 ==> rtt_results.mapping() == m0 && rtt_results.staged() == staged0,
            forall|p: int|
                0 <= p < n ==> (#[trigger] subnets[p]).cidr == old(subnets)[p].cidr && (
                subnets[p].enable <==> old(subnets)[p].enable || (warm && answered(
                    idxs.take(i as int),
                    answers.take(i as int),
                    p,
                ))),
        decreases batch.ips.len() - i,
    {
        let ghost done_idxs = idxs.take(i as int);
        let ghost done_answers = answers.take(i as int);
        let ghost next_idxs = idxs.take(i + 1);
        let ghost next_answers = answers.take(i + 1);
        proof {
            assert(ips.take(i + 1).drop_last() =~= ips.take(i as int));
            assert(next_answers.drop_last() =~= done_answers);
            assert(ips.take(i + 1).last() == ips[i as int]);
            assert(next_answers.last() == answers[i as int]);
            rtt_results.lemma_wf();
            assert forall|p: int| answered(done_idxs, done_answers, p) implies answered(
                next_idxs,
                next_answers,
                p,
            ) by {
                let j = choose|j: int|
                    0 <= j < done_idxs.len() && j < done_answers.len() && (
                    #[trigger] done_answers[j]) is Some && done_idxs[j] == p;
                assert(next_answers[j] is Some && next_idxs[j] == p);
            }
            assert forall|p: int| answered(next_idxs, next_answers, p) implies answered(
                done_idxs,
                done_answers,
                p,
            ) || (answers[i as int] is Some && idxs[i as int] == p) by {
                let j = choose|j: int|
                    0 <= j < next_idxs.len() && j < next_answers.len() && (
                    #[trigger] next_answers[j]) is Some && next_idxs[j] == p;
                if j < i {
                    assert(done_answers[j] is Some && done_idxs[j] == p);
                }
            }
        }
        if let Some(rtt) = test_res[i] {
            success_count = success_count + 1;
            rtt_results.add_result(batch.ips[i], rtt);
            if warm {
                let idx = batch.subnet_idxs[i];
                let subnet = subnets[idx];
                subnets.set(idx, Subnet { cidr: subnet.cidr, enable: true });
                proof {
                    assert(next_answers[i as int] is Some && next_idxs[i as int] == idx);
                    assert(answered(next_idxs, next_answers, idx as int));
                }
            }
        }
        i = i + 1;
    }
    proof {
        assert(ips.take(i as int) =~= ips);
        assert(answers.take(i as int) =~= answers);
        assert(idxs.take(i as int) =~= idxs);
    }
    if success_count != 0 {
        rtt_results.commit();
    }
    success_count
}

} // verus!
