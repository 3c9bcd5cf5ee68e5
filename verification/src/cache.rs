//! The result store: latest measurement per address, and the addresses in
//! ascending order of their measurement.

use crate::data::{lookup_key, Loadable, Savable, Subnet};
use crate::error::{Error, ErrorKind, SerializedError};
use crate::inet::{lemma_network_of_covered, parse_inet, IpCidr, IpInet};
use crate::inet_map::InetMap;
use crate::layout::{
    is_address_span,
    is_one_line,
    joined,
    line_text,
    lines_of,
    push_line,
    split_lines,
};
use crate::order::{
    lemma_merge,
    lemma_stable_sort,
    lemma_without,
    lemma_without_nothing,
    merge,
    sorted_by,
    sorted_outside,
    stable_sort,
    without,
};
use crate::persist::{
    all_entries,
    entries_of,
    entry_of,
    lemma_saved_text_loads,
    loaded,
    loaded_mapping,
    loaded_order,
    loaded_staged,
    parse_line,
    reads_back,
    refused_at,
    rendered,
    rendered_lines,
};
use crate::text::{chars_of, contains_char};
use vstd::prelude::*;

verus! {

/// Round-trip times of one probe pair, in milliseconds: through the tunnel
/// to the reference endpoint, and to the candidate. Records are ordered by
/// the first and, where that is equal, by the second.
#[derive(Debug, Clone, Copy, PartialEq, Eq, PartialOrd, Ord, Structural)]
pub struct RttResult {
    pub server_rtt: u64,
    pub cdn_rtt: u64,
}

impl RttResult {
    /// The place of a record in the order of records: records compare as
    /// their ranks do, that is by `server_rtt` first and by `cdn_rtt` among
    /// equal `server_rtt`.
    pub open spec fn rank(self) -> int {
        self.server_rtt * 0x1_0000_0000_0000_0000 + self.cdn_rtt
    }

    /// A record of the two times.
    pub fn new(server_rtt: u64, cdn_rtt: u64) -> (r: Self)
        ensures
            r == (RttResult { server_rtt, cdn_rtt }),
    {
        Self { server_rtt, cdn_rtt }
    }

    /// The time to the reference endpoint.
    pub fn server_rtt(&self) -> (r: u64)
        ensures
            r == self.server_rtt,
    {
        self.server_rtt
    }

    /// The time to the candidate.
    pub fn cdn_rtt(&self) -> (r: u64)
        ensures
            r == self.cdn_rtt,
    {
        self.cdn_rtt
    }

    /// Whether this record comes strictly before `other`.
    pub fn precedes(&self, other: &Self) -> (r: bool)
        ensures
            r == (self.rank() < other.rank()),
            r == (self.server_rtt < other.server_rtt || (self.server_rtt == other.server_rtt
                && self.cdn_rtt < other.cdn_rtt)),
    {
        self.server_rtt < other.server_rtt || (self.server_rtt == other.server_rtt && self.cdn_rtt
            < other.cdn_rtt)
    }
}

/// Ranks order records as the pair of their fields does, and tell them apart.
pub proof fn lemma_rank_orders(a: RttResult, b: RttResult)
    ensures
        a.rank() < b.rank() <==> a.server_rtt < b.server_rtt || (a.server_rtt == b.server_rtt
            && a.cdn_rtt < b.cdn_rtt),
        a.rank() == b.rank() <==> a == b,
{
}

/// The key by which the addresses of a mapping are ordered.
pub open spec fn key_of(m: Map<IpInet, RttResult>) -> spec_fn(IpInet) -> int {
    |k: IpInet| m[k].rank()
}

/// The order that a commit leaves: what was in order and has not been
/// touched since, merged with the touched addresses sorted by their new
/// records. A touched address goes before an untouched one of equal record,
/// and touched addresses of equal record stand as they were first touched.
pub open spec fn committed_order(
    m: Map<IpInet, RttResult>,
    ordered: Seq<IpInet>,
    staged: Seq<IpInet>,
) -> Seq<IpInet> {
    merge(key_of(m), without(ordered, staged.to_set()), stable_sort(key_of(m), staged))
}

/// What holds of a mapping, an order and a staging list at all times: no
/// address is ordered or staged twice, the addresses of the mapping are
/// those that are ordered or staged, and the ordered addresses that are not
/// staged stand in ascending order of their records.
pub open spec fn store_inv(
    m: Map<IpInet, RttResult>,
    ordered: Seq<IpInet>,
    staged: Seq<IpInet>,
) -> bool {
    &&& ordered.no_duplicates()
    &&& staged.no_duplicates()
    &&& forall|k: IpInet| #[trigger] m.contains_key(k) <==> ordered.contains(k) || staged.contains(k)
    &&& sorted_outside(key_of(m), ordered, staged.to_set())
}

/// Adding a record keeps what holds at all times: whatever is added, and in
/// whatever sequence, the next commit finds the store as it needs it.
pub proof fn lemma_add_keeps_inv(
    m: Map<IpInet, RttResult>,
    ordered: Seq<IpInet>,
    staged: Seq<IpInet>,
    k: IpInet,
    r: RttResult,
)
    requires
        store_inv(m, ordered, staged),
    ensures
        store_inv(
            m.insert(k, r),
            ordered,
            if staged.contains(k) {
                staged
            } else {
                staged.push(k)
            },
        ),
{
    let m2 = m.insert(k, r);
    let staged2 = if staged.contains(k) {
        staged
    } else {
        staged.push(k)
    };
    assert forall|y: IpInet| staged2.contains(y) <==> staged.contains(y) || y == k by {
        if staged.contains(y) {
            let i = choose|i: int| 0 <= i < staged.len() && staged[i] == y;
            assert(staged2[i] == y);
        }
        if y == k && !staged.contains(k) {
            assert(staged2[staged.len() as int] == y);
        }
        if staged2.contains(y) {
            let i = choose|i: int| 0 <= i < staged2.len() && staged2[i] == y;
            if i < staged.len() {
                assert(staged[i] == y);
            }
        }
    }
    assert(staged2.no_duplicates()) by {
        assert forall|i: int, j: int|
            0 <= i < staged2.len() && 0 <= j < staged2.len() && i != j implies staged2[i]
            != staged2[j] by {
            if i < staged.len() && j < staged.len() {
                assert(staged[i] != staged[j]);
            } else if i < staged.len() {
                assert(staged.contains(staged[i]));
            } else if j < staged.len() {
                assert(staged.contains(staged[j]));
            }
        }
    }
    assert forall|y: IpInet| #[trigger]
        m2.contains_key(y) <==> ordered.contains(y) || staged2.contains(y) by {
        assert(m.contains_key(y) <==> ordered.contains(y) || staged.contains(y));
    }
    let key = key_of(m);
    let key2 = key_of(m2);
    assert forall|i: int, j: int|
        0 <= i < j < ordered.len() && !staged2.to_set().contains(ordered[i])
            && !staged2.to_set().contains(ordered[j]) implies key2(ordered[i]) <= key2(
        ordered[j],
    ) by {
        assert(!staged.to_set().contains(ordered[i]));
        assert(!staged.to_set().contains(ordered[j]));
        assert(key(ordered[i]) <= key(ordered[j]));
    }
}

/// After a commit the order is a duplicate-free arrangement of all addresses
/// of the mapping, in ascending order of their records, whatever was added
/// before.
pub proof fn lemma_commit_orders(
    m: Map<IpInet, RttResult>,
    ordered: Seq<IpInet>,
    staged: Seq<IpInet>,
)
    requires
        store_inv(m, ordered, staged),
    ensures
        committed_order(m, ordered, staged).no_duplicates(),
        forall|k: IpInet| #[trigger]
            committed_order(m, ordered, staged).contains(k) <==> m.contains_key(k),
        sorted_by(key_of(m), committed_order(m, ordered, staged)),
        store_inv(m, committed_order(m, ordered, staged), Seq::empty()),
{
    let key = key_of(m);
    let gone = staged.to_set();
    let a = without(ordered, gone);
    let b = stable_sort(key, staged);
    lemma_without(key, ordered, gone);
    lemma_stable_sort(key, staged);
    assert forall|y: IpInet| !(a.contains(y) && b.contains(y)) by {
        if b.contains(y) {
            assert(staged.contains(y));
            assert(gone.contains(y));
        }
    }
    lemma_merge(key, a, b);
    let after = merge(key, a, b);
    assert forall|k: IpInet| #[trigger] after.contains(k) <==> m.contains_key(k) by {
        assert(m.contains_key(k) <==> ordered.contains(k) || staged.contains(k));
        if staged.contains(k) {
            assert(b.contains(k));
        } else if ordered.contains(k) {
            assert(!gone.contains(k));
            assert(a.contains(k));
        }
    }
    assert(Seq::<IpInet>::empty().to_set() =~= Set::<IpInet>::empty());
}

/// A commit with nothing staged changes nothing: committing twice leaves
/// what committing once leaves.
pub proof fn lemma_commit_idempotent(
    m: Map<IpInet, RttResult>,
    ordered: Seq<IpInet>,
    staged: Seq<IpInet>,
)
    ensures
        committed_order(m, ordered, Seq::empty()) == ordered,
        committed_order(m, committed_order(m, ordered, staged), Seq::empty()) == committed_order(
            m,
            ordered,
            staged,
        ),
{
    let none = Seq::<IpInet>::empty();
    assert(stable_sort(key_of(m), none) =~= none);
    lemma_without_nothing(ordered, none.to_set());
    lemma_without_nothing(committed_order(m, ordered, staged), none.to_set());
}

/// An address that is in a sorted, duplicate-free order and gets a new
/// record stands, after the next commit, once in the order and where its
/// new record belongs: the order is again sorted and duplicate-free over the
/// same addresses, and all other addresses stand as they stood.
pub proof fn lemma_readd_relocates(
    m: Map<IpInet, RttResult>,
    ordered: Seq<IpInet>,
    k: IpInet,
    r: RttResult,
)
    requires
        ordered.no_duplicates(),
        sorted_by(key_of(m), ordered),
        ordered.contains(k),
    ensures
        ({
            let after = committed_order(m.insert(k, r), ordered, seq![k]);
            &&& after.no_duplicates()
            &&& after.len() == ordered.len()
            &&& forall|y: IpInet| #[trigger] after.contains(y) <==> ordered.contains(y)
            &&& sorted_by(key_of(m.insert(k, r)), after)
            &&& without(after, set![k]) == without(ordered, set![k])
        }),
{
    let m2 = m.insert(k, r);
    let key = key_of(m);
    let key2 = key_of(m2);
    let staged = seq![k];
    let gone = staged.to_set();
    let a = without(ordered, gone);
    let b = stable_sort(key2, staged);
    assert(gone =~= set![k]);
    assert(staged.drop_last() =~= Seq::<IpInet>::empty());
    assert(stable_sort(key2, staged.drop_last()) =~= Seq::<IpInet>::empty());
    assert(b =~= seq![k]);
    assert(sorted_outside(key, ordered, gone));
    lemma_without(key, ordered, gone);
    assert(sorted_by(key2, a)) by {
        assert forall|i: int, j: int| 0 <= i < j < a.len() implies key2(a[i]) <= key2(a[j]) by {
            assert(a.contains(a[i]) && a.contains(a[j]));
            assert(key(a[i]) <= key(a[j]));
        }
    }
    assert(staged[0] == k);
    assert forall|y: IpInet| !(a.contains(y) && b.contains(y)) by {
        if b.contains(y) {
            assert(y == k);
        }
    }
    lemma_merge(key2, a, b);
    let after = merge(key2, a, b);
    assert forall|y: IpInet| #[trigger] after.contains(y) <==> ordered.contains(y) by {
        if y == k {
            assert(b[0] == k);
        }
    }
    assert forall|i: int| 0 <= i < a.len() implies !gone.contains(a[i]) by {
        assert(a.contains(a[i]));
    }
    crate::order::lemma_without_merge(key2, a, b, gone);
    lemma_without_len_one(ordered, k);
}

/// Taking one address out of a duplicate-free sequence that holds it
/// shortens the sequence by one.
proof fn lemma_without_len_one(s: Seq<IpInet>, k: IpInet)
    requires
        s.no_duplicates(),
        s.contains(k),
    ensures
        without(s, set![k]).len() + 1 == s.len(),
    decreases s.len(),
{
    let gone = set![k];
    let t = s.skip(1);
    crate::order::lemma_skip_no_duplicates(s);
    crate::order::lemma_skip_contains(s);
    if s[0] == k {
        assert forall|i: int| 0 <= i < t.len() implies !gone.contains(t[i]) by {
            assert(t.contains(t[i]));
        }
        lemma_without_nothing(t, gone);
    } else {
        lemma_without_len_one(t, k);
    }
}

/// What the store keeps of an address: its latest record, and whether the
/// address was touched since the last commit.
#[derive(Debug, Clone, Copy)]
struct Slot {
    record: RttResult,
    staged: bool,
}

/// Measurements by address, with the addresses in ascending order of their
/// records as of the last commit.
#[derive(Debug)]
pub struct RttResults {
    /// What is kept of each address.
    res: InetMap<Slot>,
    /// The addresses in the order of the last commit.
    sorted_res_keys: Vec<IpInet>,
    /// The addresses touched since the last commit, as they were first
    /// touched.
    tmp_keys: Vec<IpInet>,
}

impl RttResults {
    /// The latest record of each address.
    pub closed spec fn mapping(&self) -> Map<IpInet, RttResult> {
        Map::new(|k: IpInet| self.res@.contains_key(k), |k: IpInet| self.res@[k].record)
    }

    /// The addresses in the order of the last commit.
    pub closed spec fn ordered(&self) -> Seq<IpInet> {
        self.sorted_res_keys@
    }

    /// The addresses touched since the last commit, as they were first
    /// touched.
    pub closed spec fn staged(&self) -> Seq<IpInet> {
        self.tmp_keys@
    }

    /// What holds of the store at all times.
    pub closed spec fn wf(&self) -> bool {
        &&& self.res.wf()
        &&& self.tmp_keys@.no_duplicates()
        &&& self.sorted_res_keys@.no_duplicates()
        &&& forall|k: IpInet| #[trigger]
            self.res@.contains_key(k) ==> (self.res@[k].staged <==> self.tmp_keys@.contains(k))
        &&& forall|i: int|
            0 <= i < self.tmp_keys.len() ==> self.res@.contains_key(#[trigger] self.tmp_keys[i])
        &&& forall|i: int|
            0 <= i < self.sorted_res_keys.len() ==> self.res@.contains_key(
                #[trigger] self.sorted_res_keys[i],
            )
        &&& forall|k: IpInet| #[trigger]
            self.res@.contains_key(k) ==> self.sorted_res_keys@.contains(k)
                || self.tmp_keys@.contains(k)
        &&& sorted_outside(key_of(self.mapping()), self.sorted_res_keys@, self.tmp_keys@.to_set())
    }

    /// Nothing is staged, and the order is a duplicate-free arrangement of
    /// all addresses of the mapping in ascending order of their records.
    pub open spec fn is_committed(&self) -> bool {
        &&& self.staged().len() == 0
        &&& self.ordered().no_duplicates()
        &&& self.ordered().to_set() == self.mapping().dom()
        &&& sorted_by(key_of(self.mapping()), self.ordered())
    }

    /// What holds of every store: the mapping is finite and keyed by
    /// well-formed addresses, no address is staged or ordered twice, every
    /// address of the mapping is ordered or staged and no other is, and the
    /// untouched part of the order is sorted. With nothing staged the store
    /// is committed.
    pub proof fn lemma_wf(&self)
        requires
            self.wf(),
        ensures
            self.mapping().dom().finite(),
            forall|k: IpInet| #[trigger] self.mapping().contains_key(k) ==> k.wf(),
            self.staged().no_duplicates(),
            self.ordered().no_duplicates(),
            forall|k: IpInet| #[trigger]
                self.mapping().contains_key(k) <==> self.ordered().contains(k)
                    || self.staged().contains(k),
            store_inv(self.mapping(), self.ordered(), self.staged()),
            self.staged().len() == 0 ==> self.is_committed(),
    {
        self.res.lemma_keys_wf();
        assert(self.mapping().dom() =~= self.res@.dom());
        self.res.lemma_wf();
        assert forall|k: IpInet| #[trigger]
            self.mapping().contains_key(k) <==> self.ordered().contains(k)
                || self.staged().contains(k) by {
            if self.ordered().contains(k) {
                let i = choose|i: int| 0 <= i < self.ordered().len() && self.ordered()[i] == k;
                assert(self.res@.contains_key(self.sorted_res_keys[i]));
            }
            if self.staged().contains(k) {
                let i = choose|i: int| 0 <= i < self.staged().len() && self.staged()[i] == k;
                assert(self.res@.contains_key(self.tmp_keys[i]));
            }
        }
        if self.staged().len() == 0 {
            assert(self.ordered().to_set() =~= self.mapping().dom());
            assert(sorted_by(key_of(self.mapping()), self.ordered())) by {
                assert forall|i: int, j: int| 0 <= i < j < self.ordered().len() implies key_of(
                    self.mapping(),
                )(self.ordered()[i]) <= key_of(self.mapping())(self.ordered()[j]) by {
                    assert(!self.staged().to_set().contains(self.ordered()[i]));
                    assert(!self.staged().to_set().contains(self.ordered()[j]));
                }
            }
        }
    }

    /// An empty store.
    pub fn new() -> (r: Self)
        ensures
            r.wf(),
            r.is_committed(),
            r.mapping() == Map::<IpInet, RttResult>::empty(),
            r.ordered() == Seq::<IpInet>::empty(),
    {
        let r = RttResults { res: InetMap::new(), sorted_res_keys: Vec::new(), tmp_keys: Vec::new() };
        assert(r.mapping() =~= Map::<IpInet, RttResult>::empty());
        assert(r.ordered().to_set() =~= r.mapping().dom());
        r
    }

    /// Number of addresses that have a record.
    pub fn len(&self) -> (n: usize)
        requires
            self.wf(),
        ensures
            n == self.mapping().len(),
    {
        proof {
            assert(self.mapping().dom() =~= self.res@.dom());
        }
        self.res.len()
    }

    /// The latest record of `ip_inet`, if it has one.
    pub fn get(&self, ip_inet: &IpInet) -> (r: Option<RttResult>)
        requires
            self.wf(),
        ensures
            r == (if self.mapping().contains_key(*ip_inet) {
                Some(self.mapping()[*ip_inet])
            } else {
                None
            }),
    {
        proof {
            self.res.lemma_keys_wf();
        }
        if !ip_inet.is_wf() {
            return None;
        }
        match self.res.get(ip_inet) {
            Some(slot) => Some(slot.record),
            None => None,
        }
    }

    /// The addresses in the order of the last commit.
    pub fn ordered_keys(&self) -> (v: Vec<IpInet>)
        ensures
            v@ == self.ordered(),
    {
        let mut v: Vec<IpInet> = Vec::new();
        let mut i: usize = 0;
        while i < self.sorted_res_keys.len()
            invariant
                i <= self.sorted_res_keys.len(),
                v@ == self.sorted_res_keys@.take(i as int),
            decreases self.sorted_res_keys.len() - i,
        {
            v.push(self.sorted_res_keys[i]);
            assert(self.sorted_res_keys@.take(i + 1) =~= self.sorted_res_keys@.take(i as int).push(
                self.sorted_res_keys[i as int],
            ));
            i = i + 1;
        }
        assert(self.sorted_res_keys@.take(i as int) =~= self.sorted_res_keys@);
        v
    }

    /// Records a measurement. The latest record of an address always wins;
    /// the order is left as it is until the next commit.
    pub fn add_result(&mut self, ip_inet: IpInet, rtt_result: RttResult)
        requires
            old(self).wf(),
            ip_inet.wf(),
            old(self).mapping().contains_key(ip_inet) || old(self).mapping().len() < usize::MAX,
        ensures
            final(self).wf(),
            final(self).mapping() == old(self).mapping().insert(ip_inet, rtt_result),
            final(self).ordered() == old(self).ordered(),
            final(self).staged() == (if old(self).staged().contains(ip_inet) {
                old(self).staged()
            } else {
                old(self).staged().push(ip_inet)
            }),
    {
        proof {
            assert(self.mapping().dom() =~= self.res@.dom());
        }
        let was_staged = match self.res.get(&ip_inet) {
            Some(slot) => slot.staged,
            None => false,
        };
        self.res.insert(ip_inet, Slot { record: rtt_result, staged: true });
        if !was_staged {
            self.tmp_keys.push(ip_inet);
        }
        proof {
            let old_staged = old(self).tmp_keys@;
            assert(self.mapping() =~= old(self).mapping().insert(ip_inet, rtt_result));
            if was_staged {
                assert(old_staged.contains(ip_inet));
            } else {
                assert(!old_staged.contains(ip_inet)) by {
                    if old_staged.contains(ip_inet) {
                        let i = choose|i: int| 0 <= i < old_staged.len() && old_staged[i] == ip_inet;
                        assert(old(self).res@.contains_key(old(self).tmp_keys[i]));
                    }
                }
                assert(self.tmp_keys@.last() == ip_inet);
                assert(forall|i: int| 0 <= i < old_staged.len() ==> self.tmp_keys@[i] == old_staged[i]);
            }
            assert(self.tmp_keys@.contains(ip_inet)) by {
                if was_staged {
                } else {
                    assert(self.tmp_keys@[old_staged.len() as int] == ip_inet);
                }
            }
            assert forall|k: IpInet| old_staged.contains(k) implies self.tmp_keys@.contains(k) by {
                let i = choose|i: int| 0 <= i < old_staged.len() && old_staged[i] == k;
                assert(self.tmp_keys@[i] == k);
            }
            assert forall|k: IpInet|
                self.tmp_keys@.contains(k) implies old_staged.contains(k) || k == ip_inet by {
                let i = choose|i: int| 0 <= i < self.tmp_keys@.len() && self.tmp_keys@[i] == k;
                if i < old_staged.len() {
                    assert(old_staged[i] == k);
                }
            }
            assert forall|i: int| 0 <= i < self.tmp_keys.len() implies self.res@.contains_key(
                #[trigger] self.tmp_keys[i],
            ) by {
                if i < old_staged.len() {
                    assert(old(self).res@.contains_key(old(self).tmp_keys[i]));
                }
            }
            assert forall|i: int|
                0 <= i < self.sorted_res_keys.len() implies self.res@.contains_key(
                #[trigger] self.sorted_res_keys[i],
            ) by {
                assert(old(self).res@.contains_key(old(self).sorted_res_keys[i]));
            }
            assert forall|k: IpInet| #[trigger] self.res@.contains_key(k) implies (
            self.res@[k].staged <==> self.tmp_keys@.contains(k)) by {
                if k != ip_inet {
                    assert(old(self).res@.contains_key(k));
                }
            }
            assert forall|k: IpInet| #[trigger]
                self.res@.contains_key(k) implies self.sorted_res_keys@.contains(k)
                || self.tmp_keys@.contains(k) by {
                if k != ip_inet {
                    assert(old(self).res@.contains_key(k));
                }
            }
            let key = key_of(self.mapping());
            let old_key = key_of(old(self).mapping());
            let gone = self.tmp_keys@.to_set();
            assert forall|i: int, j: int|
                0 <= i < j < self.sorted_res_keys@.len() && !gone.contains(self.sorted_res_keys@[i])
                    && !gone.contains(self.sorted_res_keys@[j]) implies key(
                self.sorted_res_keys@[i],
            ) <= key(self.sorted_res_keys@[j]) by {
                let a = self.sorted_res_keys@[i];
                let b = self.sorted_res_keys@[j];
                assert(a != ip_inet && b != ip_inet);
                assert(!old_staged.to_set().contains(a));
                assert(!old_staged.to_set().contains(b));
                assert(old_key(a) <= old_key(b));
                assert(key(a) == old_key(a) && key(b) == old_key(b));
            }
        }
    }

    /// The staged addresses in ascending order of their records, each with
    /// its record.
    fn sort_staged(&self) -> (out: (Vec<IpInet>, Vec<RttResult>))
        requires
            self.wf(),
        ensures
            out.0@ == stable_sort(key_of(self.mapping()), self.staged()),
            out.1.len() == out.0.len(),
            forall|i: int| 0 <= i < out.0.len() ==> out.1[i] == self.mapping()[#[trigger] out.0[i]],
    {
        let ghost m = self.mapping();
        let mut recs: Vec<RttResult> = Vec::new();
        let mut t: usize = 0;
        while t < self.tmp_keys.len()
            invariant
                self.wf(),
                m == self.mapping(),
                t <= self.tmp_keys.len(),
                recs.len() == t,
                forall|i: int| 0 <= i < t ==> recs[i] == m[#[trigger] self.tmp_keys[i]],
            decreases self.tmp_keys.len() - t,
        {
            let x = self.tmp_keys[t];
            proof {
                self.res.lemma_keys_wf();
                assert(self.res@.contains_key(self.tmp_keys[t as int]));
            }
            let rx = match self.res.get(&x) {
                Some(slot) => slot.record,
                None => vstd::pervasive::unreached(),
            };
            recs.push(rx);
            t = t + 1;
        }
        proof {
            assert(self.tmp_keys@.subrange(0, self.tmp_keys.len() as int) =~= self.tmp_keys@);
        }
        sort_range(&self.tmp_keys, &recs, 0, self.tmp_keys.len(), Ghost(m))
    }

    /// The untouched part of the order merged with the sorted staged
    /// addresses.
    fn merge_staged(&self, keys: &Vec<IpInet>, recs: &Vec<RttResult>) -> (out: Vec<IpInet>)
        requires
            self.wf(),
            recs.len() == keys.len(),
            forall|i: int| 0 <= i < keys.len() ==> recs[i] == self.mapping()[#[trigger] keys[i]],
        ensures
            out@ == merge(
                key_of(self.mapping()),
                without(self.ordered(), self.staged().to_set()),
                keys@,
            ),
    {
        let ghost key = key_of(self.mapping());
        let ghost gone = self.tmp_keys@.to_set();
        let ghost old_s = self.sorted_res_keys@;
        let ghost goal = merge(key, without(old_s, gone), keys@);
        let n = self.sorted_res_keys.len();
        let bn = keys.len();
        let mut out: Vec<IpInet> = Vec::new();
        let mut i: usize = 0;
        let mut j: usize = 0;
        proof {
            assert(old_s.skip(0) =~= old_s);
            assert(keys@.skip(0) =~= keys@);
        }
        while i < n || j < bn
            invariant
                self.wf(),
                key == key_of(self.mapping()),
                gone == self.tmp_keys@.to_set(),
                old_s == self.sorted_res_keys@,
                n == old_s.len(),
                bn == keys.len(),
                recs.len() == keys.len(),
                forall|p: int| 0 <= p < keys.len() ==> recs[p] == self.mapping()[#[trigger] keys[p]],
                i <= n,
                j <= bn,
                out@ + merge(key, without(old_s.skip(i as int), gone), keys@.skip(j as int)) == goal,
            decreases (n - i) + (bn - j),
        {
            let ghost a = without(old_s.skip(i as int), gone);
            let ghost b = keys@.skip(j as int);
            let ghost before = out@;
            if i < n {
                let k = self.sorted_res_keys[i];
                proof {
                    self.res.lemma_keys_wf();
                    assert(self.res@.contains_key(self.sorted_res_keys[i as int]));
                    assert(old_s.skip(i as int)[0] == k);
                    assert(old_s.skip(i as int).skip(1) =~= old_s.skip(i + 1));
                }
                let slot = match self.res.get(&k) {
                    Some(slot) => *slot,
                    None => vstd::pervasive::unreached(),
                };
                if slot.staged {
                    i = i + 1;
                } else {
                    let ghost a2 = without(old_s.skip(i + 1), gone);
                    proof {
                        assert(a == seq![k] + a2);
                        assert(a[0] == k);
                        assert(a.skip(1) =~= a2);
                        assert(key(k) == slot.record.rank());
                    }
                    if j < bn && !slot.record.precedes(&recs[j]) {
                        proof {
                            assert(b[0] == keys[j as int]);
                            assert(b.skip(1) =~= keys@.skip(j + 1));
                            assert(key(keys[j as int]) == recs[j as int].rank());
                            assert(merge(key, a, b) == seq![b[0]] + merge(key, a, b.skip(1)));
                            assert(before.push(b[0]) + merge(key, a, b.skip(1)) =~= before + merge(
                                key,
                                a,
                                b,
                            ));
                        }
                        out.push(keys[j]);
                        j = j + 1;
                    } else {
                        proof {
                            if j < bn {
                                assert(b[0] == keys[j as int]);
                                assert(key(keys[j as int]) == recs[j as int].rank());
                                assert(merge(key, a, b) == seq![k] + merge(key, a2, b));
                            } else {
                                assert(b.len() == 0);
                                assert(merge(key, a, b) == a);
                                assert(merge(key, a2, b) == a2);
                            }
                            assert(before.push(k) + merge(key, a2, b) =~= before + merge(key, a, b));
                        }
                        out.push(k);
                        i = i + 1;
                    }
                }
            } else {
                proof {
                    assert(old_s.skip(i as int).len() == 0);
                    assert(a.len() == 0);
                    assert(b[0] == keys[j as int]);
                    assert(b.skip(1) =~= keys@.skip(j + 1));
                    assert(merge(key, a, b) == b);
                    assert(merge(key, a, b.skip(1)) == b.skip(1));
                    assert(before.push(b[0]) + b.skip(1) =~= before + b);
                }
                out.push(keys[j]);
                j = j + 1;
            }
        }
        proof {
            assert(old_s.skip(i as int).len() == 0);
            assert(keys@.skip(j as int).len() == 0);
            assert(out@ + Seq::<IpInet>::empty() =~= out@);
        }
        out
    }

    /// Brings the order up to date with the records added since the last
    /// commit, and empties the staging list. The part of the order that has
    /// not been touched is not sorted again: it is merged with the touched
    /// addresses in one pass.
    pub fn commit(&mut self)
        requires
            old(self).wf(),
        ensures
            final(self).wf(),
            final(self).is_committed(),
            final(self).mapping() == old(self).mapping(),
            final(self).ordered() == committed_order(
                old(self).mapping(),
                old(self).ordered(),
                old(self).staged(),
            ),
            old(self).staged().len() == 0 ==> final(self).ordered() == old(self).ordered(),
    {
        let ghost m = self.mapping();
        let ghost key = key_of(m);
        let ghost old_s = self.sorted_res_keys@;
        let ghost staged = self.tmp_keys@;
        let ghost gone = staged.to_set();
        proof {
            self.lemma_wf();
            lemma_without(key, old_s, gone);
            lemma_stable_sort(key, staged);
        }
        if self.tmp_keys.len() == 0 {
            proof {
                lemma_without_nothing(old_s, gone);
                assert(stable_sort(key, staged) =~= Seq::<IpInet>::empty());
            }
            return ;
        }
        let (keys, recs) = self.sort_staged();
        let merged = self.merge_staged(&keys, &recs);
        proof {
            self.res.lemma_keys_wf();
            assert forall|i: int| 0 <= i < keys.len() implies self.res@.contains_key(
                #[trigger] keys[i],
            ) && recs[i] == self.res@[keys[i]].record by {
                assert(keys@.contains(keys[i]));
                assert(staged.contains(keys[i]));
                assert(m.contains_key(keys[i]));
                assert(recs[i] == m[keys[i]]);
            }
        }
        clear_marks(&mut self.res, &keys, &recs);
        self.sorted_res_keys = merged;
        self.tmp_keys = Vec::new();
        proof {
            let a = without(old_s, gone);
            let b = stable_sort(key, staged);
            lemma_merge(key, a, b);
            assert(self.mapping() =~= m);
            assert forall|y: IpInet| !(a.contains(y) && b.contains(y)) by {
                if b.contains(y) {
                    assert(staged.contains(y));
                    assert(gone.contains(y));
                }
            }
            assert(self.sorted_res_keys@ == merge(key, a, b));
            assert forall|k: IpInet| #[trigger] self.res@.contains_key(k) implies (
            self.res@[k].staged <==> self.tmp_keys@.contains(k)) by {
                assert(old(self).res@.contains_key(k));
                if !keys@.contains(k) {
                    assert(!staged.contains(k));
                }
            }
            assert forall|i: int|
                0 <= i < self.sorted_res_keys.len() implies self.res@.contains_key(
                #[trigger] self.sorted_res_keys[i],
            ) by {
                let y = self.sorted_res_keys[i];
                assert(merge(key, a, b).contains(y));
                assert(m.contains_key(y));
            }
            assert forall|k: IpInet| #[trigger]
                self.res@.contains_key(k) implies self.sorted_res_keys@.contains(k)
                || self.tmp_keys@.contains(k) by {
                assert(m.contains_key(k));
                if staged.contains(k) {
                    assert(b.contains(k));
                } else {
                    assert(old_s.contains(k));
                    assert(!gone.contains(k));
                    assert(a.contains(k));
                }
                assert(merge(key, a, b).contains(k));
            }
            assert(self.wf());
            self.lemma_wf();
        }
    }
}

/// The addresses `keys[lo..hi]` in ascending order of their records, each
/// with its record; addresses of equal record stand as they stood. The range
/// is halved, the halves are sorted, and the sorted halves are merged.
fn sort_range(
    keys: &Vec<IpInet>,
    recs: &Vec<RttResult>,
    lo: usize,
    hi: usize,
    Ghost(m): Ghost<Map<IpInet, RttResult>>,
) -> (out: (Vec<IpInet>, Vec<RttResult>))
    requires
        lo <= hi <= keys.len(),
        recs.len() == keys.len(),
        forall|i: int| 0 <= i < keys.len() ==> recs[i] == m[#[trigger] keys[i]],
    ensures
        out.0@ == stable_sort(key_of(m), keys@.subrange(lo as int, hi as int)),
        out.1.len() == out.0.len(),
        forall|i: int| 0 <= i < out.0.len() ==> out.1[i] == m[#[trigger] out.0[i]],
    decreases hi - lo,
{
    let ghost key = key_of(m);
    let ghost part = keys@.subrange(lo as int, hi as int);
    if hi - lo == 0 {
        (Vec::new(), Vec::new())
    } else if hi - lo == 1 {
        let mut out_keys: Vec<IpInet> = Vec::new();
        let mut out_recs: Vec<RttResult> = Vec::new();
        out_keys.push(keys[lo]);
        out_recs.push(recs[lo]);
        proof {
            assert(part.drop_last() =~= Seq::<IpInet>::empty());
            assert(stable_sort(key, part.drop_last()) =~= Seq::<IpInet>::empty());
            assert(part.last() == keys[lo as int]);
            assert(out_keys@ =~= seq![keys[lo as int]]);
        }
        (out_keys, out_recs)
    } else {
        let mid = lo + (hi - lo) / 2;
        let (left_keys, left_recs) = sort_range(keys, recs, lo, mid, Ghost(m));
        let (right_keys, right_recs) = sort_range(keys, recs, mid, hi, Ghost(m));
        proof {
            let left = keys@.subrange(lo as int, mid as int);
            let right = keys@.subrange(mid as int, hi as int);
            assert(part =~= left + right);
            crate::order::lemma_sort_concat(key, left, right);
        }
        merge_sorted(&left_keys, &left_recs, &right_keys, &right_recs, Ghost(m))
    }
}

/// Two sorted runs merged into one, the first run in front where records
/// are equal.
fn merge_sorted(
    left_keys: &Vec<IpInet>,
    left_recs: &Vec<RttResult>,
    right_keys: &Vec<IpInet>,
    right_recs: &Vec<RttResult>,
    Ghost(m): Ghost<Map<IpInet, RttResult>>,
) -> (out: (Vec<IpInet>, Vec<RttResult>))
    requires
        left_recs.len() == left_keys.len(),
        right_recs.len() == right_keys.len(),
        forall|i: int| 0 <= i < left_keys.len() ==> left_recs[i] == m[#[trigger] left_keys[i]],
        forall|i: int| 0 <= i < right_keys.len() ==> right_recs[i] == m[#[trigger] right_keys[i]],
    ensures
        out.0@ == crate::order::merge_stable(key_of(m), left_keys@, right_keys@),
        out.1.len() == out.0.len(),
        forall|i: int| 0 <= i < out.0.len() ==> out.1[i] == m[#[trigger] out.0[i]],
{
    let ghost key = key_of(m);
    let ghost goal = crate::order::merge_stable(key, left_keys@, right_keys@);
    let n = left_keys.len();
    let bn = right_keys.len();
    let mut keys: Vec<IpInet> = Vec::new();
    let mut recs: Vec<RttResult> = Vec::new();
    let mut i: usize = 0;
    let mut j: usize = 0;
    proof {
        assert(left_keys@.skip(0) =~= left_keys@);
        assert(right_keys@.skip(0) =~= right_keys@);
    }
    while i < n || j < bn
        invariant
            key == key_of(m),
            n == left_keys.len(),
            bn == right_keys.len(),
            left_recs.len() == n,
            right_recs.len() == bn,
            forall|p: int| 0 <= p < n ==> left_recs[p] == m[#[trigger] left_keys[p]],
            forall|p: int| 0 <= p < bn ==> right_recs[p] == m[#[trigger] right_keys[p]],
            i <= n,
            j <= bn,
            recs.len() == keys.len(),
            forall|p: int| 0 <= p < keys.len() ==> recs[p] == m[#[trigger] keys[p]],
            keys@ + crate::order::merge_stable(
                key,
                left_keys@.skip(i as int),
                right_keys@.skip(j as int),
            ) == goal,
        decreases (n - i) + (bn - j),
    {
        let ghost a = left_keys@.skip(i as int);
        let ghost b = right_keys@.skip(j as int);
        let ghost before = keys@;
        let take_right = if i == n {
            true
        } else if j == bn {
            false
        } else {
            right_recs[j].precedes(&left_recs[i])
        };
        if take_right {
            proof {
                assert(b[0] == right_keys[j as int]);
                assert(b.skip(1) =~= right_keys@.skip(j + 1));
                if i < n {
                    assert(a[0] == left_keys[i as int]);
                    assert(key(b[0]) == right_recs[j as int].rank());
                    assert(key(a[0]) == left_recs[i as int].rank());
                }
                let rest = crate::order::merge_stable(key, a, b.skip(1));
                assert(crate::order::merge_stable(key, a, b) =~= seq![b[0]] + rest);
                assert(before.push(b[0]) + rest =~= before + (seq![b[0]] + rest));
            }
            keys.push(right_keys[j]);
            recs.push(right_recs[j]);
            j = j + 1;
        } else {
            proof {
                assert(a[0] == left_keys[i as int]);
                assert(a.skip(1) =~= left_keys@.skip(i + 1));
                if j < bn {
                    assert(b[0] == right_keys[j as int]);
                    assert(key(b[0]) == right_recs[j as int].rank());
                    assert(key(a[0]) == left_recs[i as int].rank());
                }
                let rest = crate::order::merge_stable(key, a.skip(1), b);
                assert(crate::order::merge_stable(key, a, b) =~= seq![a[0]] + rest);
                assert(before.push(a[0]) + rest =~= before + (seq![a[0]] + rest));
            }
            keys.push(left_keys[i]);
            recs.push(left_recs[i]);
            i = i + 1;
        }
    }
    proof {
        assert(left_keys@.skip(i as int).len() == 0);
        assert(keys@ + Seq::<IpInet>::empty() =~= keys@);
    }
    (keys, recs)
}

/// Takes the staging mark off the addresses in `keys`.
fn clear_marks(res: &mut InetMap<Slot>, keys: &Vec<IpInet>, recs: &Vec<RttResult>)
    requires
        old(res).wf(),
        recs.len() == keys.len(),
        forall|i: int|
            0 <= i < keys.len() ==> old(res)@.contains_key(#[trigger] keys[i]) && recs[i] == old(res)@[keys[i]].record,
    ensures
        final(res).wf(),
        final(res)@.dom() == old(res)@.dom(),
        forall|k: IpInet| #[trigger]
            final(res)@.contains_key(k) ==> final(res)@[k] == (if keys@.contains(k) {
                Slot { record: old(res)@[k].record, staged: false }
            } else {
                old(res)@[k]
            }),
{
    let mut p: usize = 0;
    while p < keys.len()
        invariant
            p <= keys.len(),
            recs.len() == keys.len(),
            res.wf(),
            res@.dom() == old(res)@.dom(),
            forall|i: int|
                0 <= i < keys.len() ==> old(res)@.contains_key(#[trigger] keys[i]) && recs[i]
                    == old(res)@[keys[i]].record,
            forall|k: IpInet| #[trigger]
                res@.contains_key(k) ==> res@[k] == (if keys@.take(p as int).contains(k) {
                    Slot { record: old(res)@[k].record, staged: false }
                } else {
                    old(res)@[k]
                }),
        decreases keys.len() - p,
    {
        let k = keys[p];
        let ghost before = res@;
        proof {
            res.lemma_keys_wf();
            assert(old(res)@.contains_key(keys[p as int]));
        }
        res.insert(k, Slot { record: recs[p], staged: false });
        proof {
            assert(res@.dom() =~= before.dom());
            let done = keys@.take(p as int);
            let next = keys@.take(p + 1);
            assert(next =~= done.push(k));
            assert forall|y: IpInet| next.contains(y) <==> done.contains(y) || y == k by {
                if done.contains(y) {
                    let i = choose|i: int| 0 <= i < done.len() && done[i] == y;
                    assert(next[i] == y);
                }
                if y == k {
                    assert(next[p as int] == y);
                }
                if next.contains(y) {
                    let i = choose|i: int| 0 <= i < next.len() && next[i] == y;
                    if i < p {
                        assert(done[i] == y);
                    }
                }
            }
        }
        p = p + 1;
    }
    proof {
        assert(keys@.take(p as int) =~= keys@);
    }
}

impl RttResults {
    /// Reads a store from the lines of a result file: every line is added,
    /// then all is committed. The first line that is refused ends the
    /// reading: nothing of a file with such a line is taken.
    pub fn from_lines(lines: &Vec<Vec<char>>) -> (r: Result<Self, Error>)
        ensures
            match r {
                Ok(store) => {
                    let l = lines@.map_values(|line: Vec<char>| line@);
                    &&& store.wf()
                    &&& store.is_committed()
                    &&& all_entries(l)
                    &&& store.mapping() == loaded_mapping(entries_of(l))
                    &&& store.ordered() == loaded_order(entries_of(l))
                },
                Err(e) => {
                    let l = lines@.map_values(|line: Vec<char>| line@);
                    exists|p: int| refused_at(l, p, e)
                },
            },
    {
        let ghost l = lines@.map_values(|line: Vec<char>| line@);
        let ghost es = entries_of(l);
        let mut store = RttResults::new();
        let mut i: usize = 0;
        proof {
            assert(es.take(0) =~= Seq::<(IpInet, RttResult)>::empty());
            assert(store.staged() =~= Seq::<IpInet>::empty());
        }
        while i < lines.len()
            invariant
                i <= lines.len(),
                l == lines@.map_values(|line: Vec<char>| line@),
                es == entries_of(l),
                store.wf(),
                store.mapping() == loaded_mapping(es.take(i as int)),
                store.staged() == loaded_staged(es.take(i as int)),
                store.ordered() == Seq::<IpInet>::empty(),
                store.mapping().len() <= i,
                forall|p: int| 0 <= p < i ==> (#[trigger] entry_of(l[p])) is Ok,
            decreases lines.len() - i,
        {
            proof {
                assert(l[i as int] == lines[i as int]@);
            }
            match parse_line(&lines[i]) {
                Ok((ip_inet, rtt_result)) => {
                    proof {
                        store.lemma_wf();
                        assert(es[i as int] == (ip_inet, rtt_result));
                        assert(es.take(i + 1).drop_last() =~= es.take(i as int));
                        assert(es.take(i + 1).last() == es[i as int]);
                    }
                    store.add_result(ip_inet, rtt_result);
                },
                Err(e) => {
                    proof {
                        assert(refused_at(l, i as int, e));
                    }
                    return Err(e);
                },
            }
            i = i + 1;
        }
        proof {
            assert(es.take(i as int) =~= es);
        }
        store.commit();
        Ok(store)
    }

    /// Reads a store from the lines of a result file. See
    /// [`RttResults::from_lines`].
    pub fn from_string_list(s: &Vec<String>) -> (r: Result<Self, Error>)
        ensures
            match r {
                Ok(store) => {
                    let l = s@.map_values(|line: String| line@);
                    &&& store.wf()
                    &&& store.is_committed()
                    &&& all_entries(l)
                    &&& store.mapping() == loaded_mapping(entries_of(l))
                    &&& store.ordered() == loaded_order(entries_of(l))
                },
                Err(e) => {
                    let l = s@.map_values(|line: String| line@);
                    exists|p: int| refused_at(l, p, e)
                },
            },
    {
        let mut lines: Vec<Vec<char>> = Vec::new();
        let mut i: usize = 0;
        while i < s.len()
            invariant
                i <= s.len(),
                lines@.map_values(|line: Vec<char>| line@) == s@.map_values(
                    |line: String| line@,
                ).take(i as int),
            decreases s.len() - i,
        {
            let ghost before = lines@.map_values(|line: Vec<char>| line@);
            let line = chars_of(s[i].as_str());
            lines.push(line);
            proof {
                let l = s@.map_values(|line: String| line@);
                assert(lines@.map_values(|line: Vec<char>| line@) =~= before.push(s[i as int]@));
                assert(l.take(i + 1) =~= l.take(i as int).push(s[i as int]@));
            }
            i = i + 1;
        }
        proof {
            let l = s@.map_values(|line: String| line@);
            assert(l.take(i as int) =~= l);
        }
        RttResults::from_lines(&lines)
    }

    /// Marks every range that holds an address of the order as enabled.
    pub fn enable_subnets(&self, subnets: &mut Vec<Subnet>)
        requires
            self.wf(),
            forall|i: int| 0 <= i < old(subnets).len() ==> (#[trigger] old(subnets)[i]).wf(),
        ensures
            final(subnets).len() == old(subnets).len(),
            forall|i: int|
                0 <= i < final(subnets).len() ==> (#[trigger] final(subnets)[i]).cidr == old(subnets)[i].cidr && (final(subnets)[i].enable <==> old(subnets)[i].enable || exists|
                    j: int,
                |
                    0 <= j < self.ordered().len() && old(subnets)[i].cidr.covers(
                        #[trigger] self.ordered()[j],
                    )),
    {
        let mut networks: InetMap<bool> = InetMap::new();
        let mut j: usize = 0;
        while j < self.sorted_res_keys.len()
            invariant
                self.wf(),
                j <= self.sorted_res_keys.len(),
                networks.wf(),
                networks@.len() <= j,
                forall|c: IpCidr| #[trigger]
                    networks@.contains_key(lookup_key(c)) <==> exists|p: int|
                        0 <= p < j && (#[trigger] self.sorted_res_keys[p]).spec_network() == c,
            decreases self.sorted_res_keys.len() - j,
        {
            let k = self.sorted_res_keys[j];
            proof {
                self.res.lemma_keys_wf();
                assert(self.res@.contains_key(self.sorted_res_keys[j as int]));
                networks.lemma_wf();
            }
            let c = k.network();
            let key = IpInet {
                family: c.family,
                address: c.address,
                network_length: c.network_length,
            };
            networks.insert(key, true);
            proof {
                assert forall|d: IpCidr| #[trigger]
                    networks@.contains_key(lookup_key(d)) <==> exists|p: int|
                        0 <= p < j + 1 && (#[trigger] self.sorted_res_keys[p]).spec_network()
                            == d by {
                    if d == c {
                        assert(self.sorted_res_keys[j as int].spec_network() == d);
                    }
                }
            }
            j = j + 1;
        }
        let n = subnets.len();
        let mut i: usize = 0;
        while i < n
            invariant
                self.wf(),
                i <= n,
                n == old(subnets).len(),
                subnets.len() == n,
                networks.wf(),
                forall|p: int| 0 <= p < n ==> (#[trigger] old(subnets)[p]).wf(),
                forall|c: IpCidr| #[trigger]
                    networks@.contains_key(lookup_key(c)) <==> exists|p: int|
                        0 <= p < self.sorted_res_keys.len() && (
                        #[trigger] self.sorted_res_keys[p]).spec_network() == c,
                forall|p: int| i <= p < n ==> subnets[p] == old(subnets)[p],
                forall|p: int|
                    0 <= p < i ==> (#[trigger] subnets[p]).cidr == old(subnets)[p].cidr && (
                    subnets[p].enable <==> old(subnets)[p].enable || exists|q: int|
                        0 <= q < self.ordered().len() && old(subnets)[p].cidr.covers(
                            #[trigger] self.ordered()[q],
                        )),
            decreases n - i,
        {
            let subnet = subnets[i];
            let key = IpInet {
                family: subnet.cidr.family,
                address: subnet.cidr.address,
                network_length: subnet.cidr.network_length,
            };
            proof {
                assert(old(subnets)[i as int].wf());
                vstd::arithmetic::power2::lemma_pow2_pos(
                    (subnet.cidr.family.bits() - subnet.cidr.network_length) as nat,
                );
            }
            let found = networks.contains_key(&key);
            proof {
                self.res.lemma_keys_wf();
                let c = subnet.cidr;
                assert(key == lookup_key(c));
                if found {
                    let p = choose|p: int|
                        0 <= p < self.sorted_res_keys.len() && (
                        #[trigger] self.sorted_res_keys[p]).spec_network() == c;
                    assert(self.res@.contains_key(self.sorted_res_keys[p]));
                    lemma_network_of_covered(c, self.sorted_res_keys[p]);
                    assert(c.covers(self.ordered()[p]));
                } else {
                    assert forall|q: int| 0 <= q < self.ordered().len() implies !c.covers(
                        #[trigger] self.ordered()[q],
                    ) by {
                        assert(self.res@.contains_key(self.sorted_res_keys[q]));
                        lemma_network_of_covered(c, self.sorted_res_keys[q]);
                    }
                }
            }
            if found {
                subnets.set(i, Subnet { cidr: subnet.cidr, enable: true });
            }
            i = i + 1;
        }
    }
}

impl Default for RttResults {
    fn default() -> (r: Self)
        ensures
            r.wf(),
            r.is_committed(),
            r.mapping() == Map::<IpInet, RttResult>::empty(),
            r.ordered() == Seq::<IpInet>::empty(),
    {
        RttResults::new()
    }
}

impl Loadable<Self> for RttResults {
    /// Reads a store from the text of a result file.
    fn from_str(s: &str) -> (r: Result<Self, Error>)
        ensures
            match r {
                Ok(store) => store.wf() && store.is_committed() && loaded(s@) == Some(
                    (store.mapping(), store.ordered()),
                ),
                Err(e) => loaded(s@) is None && exists|p: int| refused_at(lines_of(s@), p, e),
            },
    {
        let text = chars_of(s);
        let lines = split_lines(&text);
        proof {
            assert(lines@.map_values(|line: Vec<char>| line@) =~= lines_of(s@));
        }
        RttResults::from_lines(&lines)
    }
}

impl Savable for RttResults {
    open spec fn savable(&self) -> bool {
        self.wf()
    }

    /// The text of the result file: one line for each address of the order.
    /// The text is given only where every address is written so that it
    /// reads back; a committed store then loads from its text as it is.
    fn to_string(&self) -> (r: Result<String, Error>)
        ensures
            match r {
                Ok(text) => {
                    &&& text@ == rendered(self.mapping(), self.ordered())
                    &&& forall|i: int|
                        0 <= i < self.ordered().len() ==> reads_back(#[trigger] self.ordered()[i])
                    &&& self.is_committed() ==> loaded(text@) == Some(
                        (self.mapping(), self.ordered()),
                    )
                },
                Err(e) => {
                    &&& exists|i: int|
                        0 <= i < self.ordered().len() && !reads_back(#[trigger] self.ordered()[i])
                    &&& e.kind() matches ErrorKind::Serialized(SerializedError::Address { .. })
                },
            },
    {
        let ghost m = self.mapping();
        let ghost ordered = self.sorted_res_keys@;
        let mut ret = String::new();
        let mut i: usize = 0;
        proof {
            assert(rendered_lines(m, ordered).take(0) =~= Seq::<Seq<char>>::empty());
        }
        while i < self.sorted_res_keys.len()
            invariant
                self.wf(),
                m == self.mapping(),
                ordered == self.sorted_res_keys@,
                i <= ordered.len(),
                ret@ == joined(rendered_lines(m, ordered).take(i as int)),
                forall|p: int| 0 <= p < i ==> reads_back(#[trigger] ordered[p]),
            decreases ordered.len() - i,
        {
            let ip_inet = self.sorted_res_keys[i];
            proof {
                self.res.lemma_keys_wf();
                assert(self.res@.contains_key(self.sorted_res_keys[i as int]));
            }
            let rtt_result = match self.res.get(&ip_inet) {
                Some(slot) => slot.record,
                None => vstd::pervasive::unreached(),
            };
            let addr = ip_inet.to_text();
            let chars = chars_of(addr.as_str());
            proof {
                assert(chars@.subrange(0, chars.len() as int) =~= chars@);
            }
            let shaped = is_address_span(&chars, 0, chars.len()) && !contains_char(
                &chars,
                0,
                chars.len(),
                '\n',
            ) && !contains_char(&chars, 0, chars.len(), '\r');
            let same = match parse_inet(addr.as_str()) {
                Ok(back) => back == ip_inet,
                Err(_) => false,
            };
            if !shaped || !same {
                proof {
                    if is_one_line(chars@) {
                        if chars@.contains('\n') {
                            let p = choose|p: int| 0 <= p < chars@.len() && chars@[p] == '\n';
                            assert(chars@[p] != '\n');
                        }
                        if chars@.contains('\r') {
                            let p = choose|p: int| 0 <= p < chars@.len() && chars@[p] == '\r';
                            assert(chars@[p] != '\r');
                        }
                    }
                    assert(!reads_back(ordered[i as int]));
                }
                return Err(Error::from(SerializedError::Address { text: addr }));
            }
            proof {
                assert(is_one_line(chars@)) by {
                    assert forall|p: int| 0 <= p < chars@.len() implies #[trigger] chars@[p]
                        != '\n' && chars@[p] != '\r' by {
                        if chars@[p] == '\n' {
                            assert(chars@.contains('\n'));
                        }
                        if chars@[p] == '\r' {
                            assert(chars@.contains('\r'));
                        }
                    }
                }
                let lines = rendered_lines(m, ordered);
                assert(lines.take(i + 1).drop_last() =~= lines.take(i as int));
                assert(lines.take(i + 1).last() == line_text(chars@, rtt_result));
            }
            push_line(&mut ret, &chars, rtt_result);
            i = i + 1;
        }
        proof {
            assert(rendered_lines(m, ordered).take(i as int) =~= rendered_lines(m, ordered));
            if self.is_committed() {
                self.lemma_wf();
                lemma_saved_text_loads(m, ordered);
            }
        }
        Ok(ret)
    }
}

/// The place of the scan: the range to probe next and the offset into each
/// range.
#[derive(Debug, Clone, Copy, PartialEq, Eq, Structural)]
pub struct RttResultCache {
    pub current_subnet: usize,
    pub current_subnet_start: usize,
}

impl Default for RttResultCache {
    fn default() -> (r: Self)
        ensures
            r == (RttResultCache { current_subnet: 0, current_subnet_start: 0 }),
    {
        RttResultCache { current_subnet: 0, current_subnet_start: 0 }
    }
}

} // verus!
