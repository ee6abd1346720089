//! The registry core: per-hash ledgers, the global hash index, per-submitter
//! histories, and the operations over them.

use vstd::prelude::*;

use crate::types::{Address, Audit, AuditEvent, AuditRow, AuditView, ContentHash, RegistryError};
use vstd::string::StrSliceExecFns;

verus! {

/// The views of a sequence of audit records, in the same order.
pub open spec fn audit_views(entries: Seq<Audit>) -> Seq<AuditView> {
    entries.map_values(|a: Audit| a@)
}

/// The views of a sequence of content hashes, in the same order.
pub open spec fn hash_views(hs: Seq<ContentHash>) -> Seq<Seq<u8>> {
    hs.map_values(|h: ContentHash| h@)
}

/// Whether a rating is within the accepted range.
pub open spec fn rating_ok(stars: u8) -> bool {
    stars <= 5
}

/// Whether a summary is non-empty and within the accepted length.
pub open spec fn summary_ok(summary: Seq<char>) -> bool {
    1 <= summary.len() <= 500
}

/// What one successful registration does to the registry: it appends the new
/// entry to the ledger of its hash, adds the hash to the global index and to
/// the submitter's history where it was absent, and changes nothing else.
pub open spec fn register_post(
    pre: AuditRegistry,
    post: AuditRegistry,
    h: Seq<u8>,
    stars: u8,
    summary: Seq<char>,
    submitter: Seq<u8>,
    timestamp: u64,
) -> bool {
    let entry = AuditView { stars, summary, auditor: submitter, timestamp };
    &&& post.ledger_of(h) == pre.ledger_of(h).push(entry)
    &&& (forall|h2: Seq<u8>| h2 != h ==> #[trigger] post.ledger_of(h2) == pre.ledger_of(h2))
    &&& post.index_view() == (if pre.has_hash(h) {
        pre.index_view()
    } else {
        pre.index_view().push(h)
    })
    &&& post.history_of(submitter) == (if pre.history_of(submitter).contains(h) {
        pre.history_of(submitter)
    } else {
        pre.history_of(submitter).push(h)
    })
    &&& (forall|s2: Seq<u8>|
        s2 != submitter ==> #[trigger] post.history_of(s2) == pre.history_of(s2))
    &&& post.owner_view() == pre.owner_view()
    &&& post.has_hash(h)
    &&& post.history_of(submitter).contains(h)
}

/// The ledger of one hash: every audit ever filed under it, in submission order.
struct HashLedger {
    hash: ContentHash,
    entries: Vec<Audit>,
}

/// The history of one submitter: each hash they audited, once, in first-audit order.
struct AuditorHistory {
    auditor: Address,
    hashes: Vec<ContentHash>,
}

/// The append-only, content-indexed audit registry.
///
/// `ledgers` holds one non-empty ledger per audited hash; `hashes` is the
/// deduplicated global index, parallel to `ledgers`; `histories` maps each
/// submitter to the deduplicated list of hashes they audited.
pub struct AuditRegistry {
    owner: Address,
    hashes: Vec<ContentHash>,
    ledgers: Vec<HashLedger>,
    histories: Vec<AuditorHistory>,
}

impl AuditRegistry {
    /// The identity that may withdraw, fixed at initialization.
    pub closed spec fn owner_view(self) -> Seq<u8> {
        self.owner@
    }

    /// The global hash index: every audited hash, once, in first-audit order.
    pub closed spec fn index_view(self) -> Seq<Seq<u8>> {
        hash_views(self.hashes@)
    }

    /// Whether a hash stands in the global index.
    pub open spec fn has_hash(self, h: Seq<u8>) -> bool {
        self.index_view().contains(h)
    }

    spec fn has_ledger(self, h: Seq<u8>) -> bool {
        exists|i: int| 0 <= i < self.ledgers@.len() && (#[trigger] self.ledgers@[i]).hash@ == h
    }

    spec fn ledger_pos(self, h: Seq<u8>) -> int {
        choose|i: int| 0 <= i < self.ledgers@.len() && (#[trigger] self.ledgers@[i]).hash@ == h
    }

    /// The ledger of a hash: every audit filed under it, in submission order;
    /// empty if the hash was never audited.
    pub closed spec fn ledger_of(self, h: Seq<u8>) -> Seq<AuditView> {
        if self.has_ledger(h) {
            audit_views(self.ledgers@[self.ledger_pos(h)].entries@)
        } else {
            Seq::<AuditView>::empty()
        }
    }

    spec fn has_history(self, s: Seq<u8>) -> bool {
        exists|k: int| 0 <= k < self.histories@.len() && (#[trigger] self.histories@[k]).auditor@
            == s
    }

    spec fn history_pos(self, s: Seq<u8>) -> int {
        choose|k: int| 0 <= k < self.histories@.len() && (#[trigger] self.histories@[k]).auditor@
            == s
    }

    /// The history of a submitter: each hash they audited, once, in
    /// first-audit order; empty if they never audited anything.
    pub closed spec fn history_of(self, s: Seq<u8>) -> Seq<Seq<u8>> {
        if self.has_history(s) {
            hash_views(self.histories@[self.history_pos(s)].hashes@)
        } else {
            Seq::<Seq<u8>>::empty()
        }
    }

    spec fn ledgers_wf(self) -> bool {
        &&& self.ledgers@.len() == self.hashes@.len()
        &&& forall|i: int|
            0 <= i < self.ledgers@.len() ==> (#[trigger] self.ledgers@[i]).hash@
                == self.hashes@[i]@
        &&& forall|i: int|
            0 <= i < self.ledgers@.len() ==> (#[trigger] self.ledgers@[i]).entries@.len() > 0
        &&& forall|i: int, j: int|
            0 <= i < self.hashes@.len() && 0 <= j < self.hashes@.len() && i != j ==> (
            #[trigger] self.hashes@[i])@ != (#[trigger] self.hashes@[j])@
    }

    /// Some ledger entry backs position `m` of history `k`: the listed hash
    /// has an audit by that history's submitter.
    spec fn history_entry_backed(self, k: int, m: int) -> bool {
        exists|i: int, n: int|
            {
                &&& 0 <= i < self.ledgers@.len()
                &&& 0 <= n < self.ledgers@[i].entries@.len()
                &&& (#[trigger] self.ledgers@[i].entries@[n]).auditor@
                    == self.histories@[k].auditor@
                &&& self.ledgers@[i].hash@ == self.histories@[k].hashes@[m]@
            }
    }

    /// Entry `n` of ledger `i` is listed: its auditor's history holds that
    /// ledger's hash.
    spec fn entry_in_history(self, i: int, n: int) -> bool {
        exists|k: int, m: int|
            {
                &&& 0 <= k < self.histories@.len()
                &&& 0 <= m < self.histories@[k].hashes@.len()
                &&& (#[trigger] self.histories@[k].hashes@[m])@ == self.ledgers@[i].hash@
                &&& self.histories@[k].auditor@ == self.ledgers@[i].entries@[n].auditor@
            }
    }

    spec fn links_wf(self) -> bool {
        &&& forall|k: int, m: int|
            0 <= k < self.histories@.len() && 0 <= m < self.histories@[k].hashes@.len()
                ==> #[trigger] self.history_entry_backed(k, m)
        &&& forall|i: int, n: int|
            0 <= i < self.ledgers@.len() && 0 <= n < self.ledgers@[i].entries@.len()
                ==> #[trigger] self.entry_in_history(i, n)
    }

    spec fn histories_wf(self) -> bool {
        &&& forall|k: int, l: int|
            0 <= k < self.histories@.len() && 0 <= l < self.histories@.len() && k != l ==> (
            #[trigger] self.histories@[k]).auditor@ != (#[trigger] self.histories@[l]).auditor@
        &&& forall|k: int, i: int, j: int|
            0 <= k < self.histories@.len() && 0 <= i < self.histories@[k].hashes@.len() && 0 <= j
                < self.histories@[k].hashes@.len() && i != j ==> (#[trigger] self.histories@[k].hashes@[i])@
                != (#[trigger] self.histories@[k].hashes@[j])@
    }

    /// Well-formedness of the whole registry: the global index and the
    /// ledgers are parallel and duplicate-free, every ledger is non-empty,
    /// every history belongs to one submitter and is duplicate-free, and a
    /// history lists a hash exactly when its submitter audited that hash.
    pub closed spec fn inv(self) -> bool {
        &&& self.ledgers_wf()
        &&& self.histories_wf()
        &&& self.links_wf()
    }

    /// The ledger found at a position is the ledger of its own hash.
    proof fn lemma_ledger_at(self, i: int)
        requires
            self.ledgers_wf(),
            0 <= i < self.ledgers@.len(),
        ensures
            self.has_ledger(self.ledgers@[i].hash@),
            self.ledger_pos(self.ledgers@[i].hash@) == i,
            self.ledger_of(self.ledgers@[i].hash@) == audit_views(self.ledgers@[i].entries@),
    {
        let h = self.ledgers@[i].hash@;
        assert(self.has_ledger(h));
        let j = self.ledger_pos(h);
        assert(0 <= j < self.ledgers@.len() && self.ledgers@[j].hash@ == h);
        if i != j {
            assert(self.hashes@[i]@ == h && self.hashes@[j]@ == h);
            assert(false);
        }
    }

    /// A registry with the same ledgers has the same ledger for every hash.
    proof fn lemma_ledger_frame(pre: AuditRegistry, post: AuditRegistry, h: Seq<u8>)
        requires
            pre.ledgers_wf(),
            post.ledgers@ == pre.ledgers@,
        ensures
            post.ledger_of(h) == pre.ledger_of(h),
    {
        if pre.has_ledger(h) {
            let i = pre.ledger_pos(h);
            assert(0 <= i < pre.ledgers@.len() && pre.ledgers@[i].hash@ == h);
            assert(post.ledgers@[i].hash@ == h);
            assert(post.has_ledger(h));
            let j = post.ledger_pos(h);
            assert(0 <= j < post.ledgers@.len() && post.ledgers@[j].hash@ == h);
            if i != j {
                assert(pre.hashes@[i]@ == h && pre.hashes@[j]@ == h);
                assert(false);
            }
        } else {
            if post.has_ledger(h) {
                let j = post.ledger_pos(h);
                assert(pre.ledgers@[j].hash@ == h);
                assert(false);
            }
        }
    }

    /// The history found at a position is the history of its own submitter.
    proof fn lemma_history_at(self, k: int)
        requires
            self.histories_wf(),
            0 <= k < self.histories@.len(),
        ensures
            self.has_history(self.histories@[k].auditor@),
            self.history_pos(self.histories@[k].auditor@) == k,
            self.history_of(self.histories@[k].auditor@) == hash_views(
                self.histories@[k].hashes@,
            ),
    {
        let s = self.histories@[k].auditor@;
        assert(self.has_history(s));
        let l = self.history_pos(s);
        assert(0 <= l < self.histories@.len() && self.histories@[l].auditor@ == s);
        if k != l {
            assert(false);
        }
    }

    /// Ledger well-formedness carries over to a registry with the same
    /// ledgers and the same global index.
    proof fn lemma_ledgers_wf_same(pre: AuditRegistry, post: AuditRegistry)
        requires
            pre.ledgers_wf(),
            post.ledgers@ == pre.ledgers@,
            post.hashes@ == pre.hashes@,
        ensures
            post.ledgers_wf(),
    {
        assert forall|i: int| 0 <= i < post.ledgers@.len() implies (
        #[trigger] post.ledgers@[i]).hash@ == post.hashes@[i]@ && post.ledgers@[i].entries@.len()
            > 0 by {
            assert(post.ledgers@[i] == pre.ledgers@[i]);
            assert(post.hashes@[i] == pre.hashes@[i]);
        }
        assert forall|i: int, j: int|
            0 <= i < post.hashes@.len() && 0 <= j < post.hashes@.len() && i != j implies (
        #[trigger] post.hashes@[i])@ != (#[trigger] post.hashes@[j])@ by {
            assert(post.hashes@[i] == pre.hashes@[i]);
            assert(post.hashes@[j] == pre.hashes@[j]);
        }
    }

    /// History well-formedness carries over to a registry with the same
    /// histories.
    proof fn lemma_histories_wf_same(pre: AuditRegistry, post: AuditRegistry)
        requires
            pre.histories_wf(),
            post.histories@ == pre.histories@,
        ensures
            post.histories_wf(),
    {
        assert forall|k: int, l: int|
            0 <= k < post.histories@.len() && 0 <= l < post.histories@.len() && k != l implies (
        #[trigger] post.histories@[k]).auditor@ != (#[trigger] post.histories@[l]).auditor@ by {
            assert(post.histories@[k] == pre.histories@[k]);
            assert(post.histories@[l] == pre.histories@[l]);
        }
        assert forall|k: int, i: int, j: int|
            0 <= k < post.histories@.len() && 0 <= i < post.histories@[k].hashes@.len() && 0 <= j
                < post.histories@[k].hashes@.len() && i != j implies (
        #[trigger] post.histories@[k].hashes@[i])@ != (
        #[trigger] post.histories@[k].hashes@[j])@ by {
            assert(post.histories@[k] == pre.histories@[k]);
        }
    }

    /// A registry with the same histories has the same history for every submitter.
    proof fn lemma_history_frame(pre: AuditRegistry, post: AuditRegistry, s: Seq<u8>)
        requires
            pre.histories_wf(),
            post.histories@ == pre.histories@,
        ensures
            post.history_of(s) == pre.history_of(s),
    {
        if pre.has_history(s) {
            let k = pre.history_pos(s);
            assert(0 <= k < pre.histories@.len() && pre.histories@[k].auditor@ == s);
            assert(post.histories@[k].auditor@ == s);
            assert(post.has_history(s));
            let l = post.history_pos(s);
            assert(0 <= l < post.histories@.len() && post.histories@[l].auditor@ == s);
            if k != l {
                assert(pre.histories@[k].auditor@ != pre.histories@[l].auditor@);
                assert(false);
            }
        } else {
            if post.has_history(s) {
                let l = post.history_pos(s);
                assert(pre.histories@[l].auditor@ == s);
                assert(false);
            }
        }
    }

    /// Finds the position of the ledger for a hash, if one exists.
    fn find_ledger(&self, h: &ContentHash) -> (r: Option<usize>)
        ensures
            match r {
                Some(i) => 0 <= i < self.ledgers@.len() && self.ledgers@[i as int].hash@ == h@,
                None => !self.has_ledger(h@),
            },
    {
        let n = self.ledgers.len();
        let mut i: usize = 0;
        while i < n
            invariant
                n == self.ledgers@.len(),
                i <= n,
                forall|j: int| 0 <= j < i ==> (#[trigger] self.ledgers@[j]).hash@ != h@,
            decreases n - i,
        {
            if self.ledgers[i].hash == *h {
                return Some(i);
            }
            i += 1;
        }
        None
    }

    /// Finds the position of the history for a submitter, if one exists.
    fn find_history(&self, s: &Address) -> (r: Option<usize>)
        ensures
            match r {
                Some(k) => 0 <= k < self.histories@.len() && self.histories@[k as int].auditor@
                    == s@,
                None => !self.has_history(s@),
            },
    {
        let n = self.histories.len();
        let mut k: usize = 0;
        while k < n
            invariant
                n == self.histories@.len(),
                k <= n,
                forall|l: int| 0 <= l < k ==> (#[trigger] self.histories@[l]).auditor@ != s@,
            decreases n - k,
        {
            if self.histories[k].auditor == *s {
                return Some(k);
            }
            k += 1;
        }
        None
    }

    /// Whether the history at a position already lists a hash.
    fn history_lists(&self, k: usize, h: &ContentHash) -> (r: bool)
        requires
            k < self.histories@.len(),
        ensures
            r == hash_views(self.histories@[k as int].hashes@).contains(h@),
    {
        let hs = &self.histories[k].hashes;
        let n = hs.len();
        let mut m: usize = 0;
        while m < n
            invariant
                k < self.histories@.len(),
                hs@ == self.histories@[k as int].hashes@,
                n == hs@.len(),
                m <= n,
                forall|l: int| 0 <= l < m ==> (#[trigger] hs@[l])@ != h@,
            decreases n - m,
        {
            if hs[m] == *h {
                proof {
                    assert(hash_views(hs@)[m as int] == h@);
                    assert(hash_views(hs@).contains(h@));
                }
                return true;
            }
            m += 1;
        }
        proof {
            assert forall|l: int| 0 <= l < hash_views(hs@).len() implies hash_views(hs@)[l]
                != h@ by {
                assert(hs@[l]@ != h@);
            }
        }
        false
    }

    /// Creates an empty registry owned by the caller that initializes it.
    pub fn init(owner: Address) -> (r: AuditRegistry)
        ensures
            r.inv(),
            r.owner_view() == owner@,
            r.index_view() == Seq::<Seq<u8>>::empty(),
            forall|h: Seq<u8>| #[trigger] r.ledger_of(h) == Seq::<AuditView>::empty(),
            forall|s: Seq<u8>| #[trigger] r.history_of(s) == Seq::<Seq<u8>>::empty(),
    {
        let r = AuditRegistry {
            owner,
            hashes: Vec::new(),
            ledgers: Vec::new(),
            histories: Vec::new(),
        };
        proof {
            assert(r.index_view() =~= Seq::<Seq<u8>>::empty());
        }
        r
    }

    /// Returns how many distinct hashes have ever been audited.
    pub fn get_total_contracts(&self) -> (n: usize)
        ensures
            n == self.index_view().len(),
    {
        self.hashes.len()
    }

    /// Returns a copy of the stored owner identity.
    pub fn owner(&self) -> (r: Address)
        ensures
            r@ == self.owner_view(),
    {
        self.owner
    }

    /// Decides a withdrawal request: only the owner may withdraw. The host
    /// performs the actual transfer when this returns success.
    pub fn withdraw(&self, caller: &Address) -> (r: Result<(), RegistryError>)
        ensures
            caller@ == self.owner_view() ==> r == Ok::<(), RegistryError>(()),
            caller@ != self.owner_view() ==> r == Err::<(), RegistryError>(
                RegistryError::Unauthorized,
            ),
    {
        if *caller == self.owner {
            Ok(())
        } else {
            Err(RegistryError::Unauthorized)
        }
    }

    /// Returns the most recent audit for a hash, or `NotFound` if the hash
    /// was never audited.
    pub fn get_latest_audit(&self, contract_hash: &ContentHash) -> (r: Result<
        Audit,
        RegistryError,
    >)
        requires
            self.inv(),
        ensures
            self.ledger_of(contract_hash@).len() == 0 ==> r == Err::<Audit, RegistryError>(
                RegistryError::NotFound,
            ),
            self.ledger_of(contract_hash@).len() > 0 ==> (r matches Ok(a) && a@ == self.ledger_of(
                contract_hash@,
            ).last()),
    {
        match self.find_ledger(contract_hash) {
            Some(i) => {
                proof {
                    self.lemma_ledger_at(i as int);
                }
                let entries = &self.ledgers[i].entries;
                let a = entries[entries.len() - 1].clone();
                Ok(a)
            },
            None => Err(RegistryError::NotFound),
        }
    }

    /// Returns every audit for a hash, in submission order; empty if the
    /// hash was never audited.
    pub fn get_contract_audits(&self, contract_hash: &ContentHash) -> (r: Vec<Audit>)
        requires
            self.inv(),
        ensures
            audit_views(r@) == self.ledger_of(contract_hash@),
    {
        let mut result: Vec<Audit> = Vec::new();
        match self.find_ledger(contract_hash) {
            Some(i) => {
                proof {
                    self.lemma_ledger_at(i as int);
                }
                let entries = &self.ledgers[i].entries;
                let n = entries.len();
                let mut j: usize = 0;
                while j < n
                    invariant
                        n == entries@.len(),
                        j <= n,
                        result@.len() == j,
                        forall|l: int| 0 <= l < j ==> (#[trigger] result@[l])@ == entries@[l]@,
                    decreases n - j,
                {
                    result.push(entries[j].clone());
                    j += 1;
                }
                proof {
                    assert(audit_views(result@) =~= audit_views(entries@));
                }
            },
            None => {
                proof {
                    assert(audit_views(result@) =~= Seq::<AuditView>::empty());
                }
            },
        }
        result
    }

    /// Returns each hash a submitter has audited, once, in first-audit
    /// order; empty if the submitter never audited anything.
    pub fn get_auditor_history(&self, auditor: &Address) -> (r: Vec<ContentHash>)
        requires
            self.inv(),
        ensures
            hash_views(r@) == self.history_of(auditor@),
    {
        let mut result: Vec<ContentHash> = Vec::new();
        match self.find_history(auditor) {
            Some(k) => {
                proof {
                    self.lemma_history_at(k as int);
                }
                let hs = &self.histories[k].hashes;
                let n = hs.len();
                let mut m: usize = 0;
                while m < n
                    invariant
                        n == hs@.len(),
                        m <= n,
                        result@.len() == m,
                        forall|l: int| 0 <= l < m ==> (#[trigger] result@[l])@ == hs@[l]@,
                    decreases n - m,
                {
                    result.push(hs[m]);
                    m += 1;
                }
                proof {
                    assert(hash_views(result@) =~= hash_views(hs@));
                }
            },
            None => {
                proof {
                    assert(hash_views(result@) =~= Seq::<Seq<u8>>::empty());
                }
            },
        }
        result
    }

    /// How many rows a page starting at `start_index` with limit `limit`
    /// holds: the limit, clamped to what remains of the global index.
    pub open spec fn page_len(self, start_index: usize, limit: usize) -> int {
        if limit <= self.index_view().len() - start_index {
            limit as int
        } else {
            self.index_view().len() - start_index
        }
    }

    /// Whether a row reports the hash at a position of the global index
    /// together with that hash's latest audit.
    pub open spec fn row_ok(self, pos: int, row: AuditRow) -> bool {
        let h = self.index_view()[pos];
        &&& row.hash@ == h
        &&& self.ledger_of(h).len() > 0
        &&& row.stars == self.ledger_of(h).last().stars
        &&& row.summary@ == self.ledger_of(h).last().summary
        &&& row.auditor@ == self.ledger_of(h).last().auditor
        &&& row.timestamp == self.ledger_of(h).last().timestamp
    }

    /// Paginates over the global hash index: one row per hash in the slice
    /// `[start_index, start_index + min(limit, remaining))`, each carrying
    /// that hash's latest audit, in index (first-registration) order.
    pub fn get_all_audits(&self, start_index: usize, limit: usize) -> (r: Result<
        Vec<AuditRow>,
        RegistryError,
    >)
        requires
            self.inv(),
        ensures
            start_index >= self.index_view().len() ==> r == Err::<Vec<AuditRow>, RegistryError>(
                RegistryError::IndexOutOfBounds,
            ),
            start_index < self.index_view().len() ==> (r matches Ok(rows) && rows@.len()
                == self.page_len(start_index, limit) && (forall|j: int|
                0 <= j < rows@.len() ==> self.row_ok(start_index + j, #[trigger] rows@[j]))),
    {
        let total = self.hashes.len();
        if start_index >= total {
            return Err(RegistryError::IndexOutOfBounds);
        }
        let remaining = total - start_index;
        let actual_limit = if limit < remaining {
            limit
        } else {
            remaining
        };
        let mut rows: Vec<AuditRow> = Vec::new();
        let mut i: usize = 0;
        while i < actual_limit
            invariant
                self.inv(),
                actual_limit == self.page_len(start_index, limit),
                start_index + actual_limit <= self.hashes@.len(),
                start_index + actual_limit <= usize::MAX,
                i <= actual_limit,
                rows@.len() == i,
                forall|j: int| 0 <= j < i ==> self.row_ok(start_index + j, #[trigger] rows@[j]),
            decreases actual_limit - i,
        {
            let pos = start_index + i;
            let hash = self.hashes[pos];
            proof {
                self.lemma_ledger_at(pos as int);
            }
            let entries = &self.ledgers[pos].entries;
            if entries.len() > 0 {
                let last = &entries[entries.len() - 1];
                rows.push(
                    AuditRow {
                        hash,
                        stars: last.stars,
                        summary: last.summary.clone(),
                        auditor: last.auditor,
                        timestamp: last.timestamp,
                    },
                );
            }
            i += 1;
        }
        Ok(rows)
    }

    /// Registers one audit: validates the rating and the summary, appends the
    /// entry to the hash's ledger, adds the hash to the global index and to
    /// the caller's history where absent, and returns the notification to
    /// emit. A validation failure mutates nothing.
    pub fn register_audit(
        &mut self,
        contract_hash: ContentHash,
        stars: u8,
        summary: String,
        caller: Address,
        timestamp: u64,
    ) -> (r: Result<AuditEvent, RegistryError>)
        requires
            old(self).inv(),
        ensures
            final(self).inv(),
            !rating_ok(stars) ==> r == Err::<AuditEvent, RegistryError>(
                RegistryError::RatingOutOfRange,
            ) && *final(self) == *old(self),
            rating_ok(stars) && !summary_ok(summary@) ==> r == Err::<AuditEvent, RegistryError>(
                RegistryError::SummaryInvalid,
            ) && *final(self) == *old(self),
            rating_ok(stars) && summary_ok(summary@) ==> ({
                &&& register_post(
                    *old(self),
                    *final(self),
                    contract_hash@,
                    stars,
                    summary@,
                    caller@,
                    timestamp,
                )
                &&& (r matches Ok(ev) && ev.hash@ == contract_hash@ && ev.stars == stars
                    && ev.summary@ == summary@ && ev.auditor@ == caller@ && ev.timestamp
                    == timestamp)
            }),
            forall|h2: Seq<u8>|
                #[trigger] final(self).ledger_of(h2).len() >= old(self).ledger_of(h2).len(),
    {
        if stars > 5 {
            return Err(RegistryError::RatingOutOfRange);
        }
        let sum_len = summary.as_str().unicode_len();
        if sum_len == 0 || sum_len > 500 {
            return Err(RegistryError::SummaryInvalid);
        }
        let entry = Audit { stars, summary: summary.clone(), auditor: caller, timestamp };
        let ghost pre = *self;
        let ghost h = contract_hash@;
        let ghost ev = entry@;
        let ghost mut gli: int = 0;

        // Append to the ledger of the hash, creating ledger and index slot
        // together where the hash is new.
        match self.find_ledger(&contract_hash) {
            Some(li) => {
                proof {
                    pre.lemma_ledger_at(li as int);
                    assert(pre.index_view()[li as int] == h);
                    assert(pre.has_hash(h));
                }
                self.ledgers[li].entries.push(entry);
                proof {
                    gli = li as int;
                    assert(self.hashes@ == pre.hashes@);
                    assert(self.histories@ == pre.histories@);
                    assert(self.ledgers@.len() == pre.ledgers@.len());
                    assert(self.ledgers@[li as int].hash@ == h);
                    assert(self.ledgers@[li as int].entries@ == pre.ledgers@[li as int].entries@
                        .push(entry));
                    assert forall|j: int|
                        0 <= j < self.ledgers@.len() && j != li implies self.ledgers@[j]
                        == pre.ledgers@[j] by {}
                    assert forall|i: int| 0 <= i < self.ledgers@.len() implies (
                    #[trigger] self.ledgers@[i]).hash@ == self.hashes@[i]@
                        && self.ledgers@[i].entries@.len() > 0 by {
                        if i != li {
                            assert(self.ledgers@[i] == pre.ledgers@[i]);
                        }
                    }
                    assert(self.ledgers_wf());
                    self.lemma_ledger_at(li as int);
                    assert(audit_views(self.ledgers@[li as int].entries@) =~= audit_views(
                        pre.ledgers@[li as int].entries@,
                    ).push(ev));
                    assert(self.ledger_of(h) == pre.ledger_of(h).push(ev));
                    assert forall|h2: Seq<u8>| h2 != h implies #[trigger] self.ledger_of(h2)
                        == pre.ledger_of(h2) by {
                        if pre.has_ledger(h2) {
                            let i2 = pre.ledger_pos(h2);
                            assert(0 <= i2 < pre.ledgers@.len() && pre.ledgers@[i2].hash@ == h2);
                            assert(i2 != li);
                            assert(self.ledgers@[i2] == pre.ledgers@[i2]);
                            pre.lemma_ledger_at(i2);
                            self.lemma_ledger_at(i2);
                        } else {
                            if self.has_ledger(h2) {
                                let i2 = self.ledger_pos(h2);
                                assert(0 <= i2 < self.ledgers@.len() && self.ledgers@[i2].hash@
                                    == h2);
                                if i2 != li {
                                    assert(pre.ledgers@[i2] == self.ledgers@[i2]);
                                }
                                assert(pre.has_ledger(h2));
                            }
                        }
                    }
                    assert(self.index_view() == pre.index_view());
                }
            },
            None => {
                proof {
                    assert forall|j: int| 0 <= j < pre.index_view().len() implies
                        #[trigger] pre.index_view()[j] != h by {
                        assert(pre.ledgers@[j].hash@ != h);
                        assert(pre.hashes@[j]@ == pre.ledgers@[j].hash@);
                    }
                    assert(!pre.has_hash(h));
                }
                let mut entries_new: Vec<Audit> = Vec::new();
                entries_new.push(entry);
                self.ledgers.push(HashLedger { hash: contract_hash, entries: entries_new });
                self.hashes.push(contract_hash);
                proof {
                    let n = pre.ledgers@.len() as int;
                    gli = n;
                    assert(self.histories@ == pre.histories@);
                    assert(self.ledgers@.len() == n + 1);
                    assert(self.hashes@ == pre.hashes@.push(contract_hash));
                    assert(self.ledgers@[n].hash@ == h);
                    assert(self.ledgers@[n].entries@.len() == 1);
                    assert(self.ledgers@[n].entries@[0] == entry);
                    assert forall|j: int| 0 <= j < n implies self.ledgers@[j] == pre.ledgers@[j]
                        by {}
                    assert forall|i: int| 0 <= i < self.ledgers@.len() implies (
                    #[trigger] self.ledgers@[i]).hash@ == self.hashes@[i]@
                        && self.ledgers@[i].entries@.len() > 0 by {
                        if i < n {
                            assert(self.ledgers@[i] == pre.ledgers@[i]);
                            assert(self.hashes@[i] == pre.hashes@[i]);
                        }
                    }
                    assert forall|i: int, j: int|
                        0 <= i < self.hashes@.len() && 0 <= j < self.hashes@.len() && i
                            != j implies (#[trigger] self.hashes@[i])@ != (
                    #[trigger] self.hashes@[j])@ by {
                        if i < n && j < n {
                            assert(pre.hashes@[i]@ != pre.hashes@[j]@);
                        } else if i == n {
                            assert(pre.hashes@[j]@ == pre.ledgers@[j].hash@);
                            assert(pre.ledgers@[j].hash@ != h);
                        } else {
                            assert(pre.hashes@[i]@ == pre.ledgers@[i].hash@);
                            assert(pre.ledgers@[i].hash@ != h);
                        }
                    }
                    assert(self.ledgers_wf());
                    self.lemma_ledger_at(n);
                    assert(!pre.has_ledger(h));
                    assert(pre.ledger_of(h) == Seq::<AuditView>::empty());
                    assert(audit_views(self.ledgers@[n].entries@) =~= Seq::<
                        AuditView,
                    >::empty().push(ev));
                    assert(self.ledger_of(h) == pre.ledger_of(h).push(ev));
                    assert forall|h2: Seq<u8>| h2 != h implies #[trigger] self.ledger_of(h2)
                        == pre.ledger_of(h2) by {
                        if pre.has_ledger(h2) {
                            let i2 = pre.ledger_pos(h2);
                            assert(0 <= i2 < pre.ledgers@.len() && pre.ledgers@[i2].hash@ == h2);
                            assert(self.ledgers@[i2] == pre.ledgers@[i2]);
                            pre.lemma_ledger_at(i2);
                            self.lemma_ledger_at(i2);
                        } else {
                            if self.has_ledger(h2) {
                                let i2 = self.ledger_pos(h2);
                                assert(0 <= i2 < self.ledgers@.len() && self.ledgers@[i2].hash@
                                    == h2);
                                if i2 < n {
                                    assert(pre.ledgers@[i2] == self.ledgers@[i2]);
                                    assert(pre.has_ledger(h2));
                                }
                                assert(false);
                            }
                        }
                    }
                    assert(self.index_view() =~= pre.index_view().push(h));
                    assert(self.index_view()[self.index_view().len() - 1] == h);
                    assert(self.has_hash(h));
                }
            },
        }
        let ghost mid = *self;
        proof {
            assert(mid.ledgers_wf());
            AuditRegistry::lemma_histories_wf_same(pre, mid);
            assert(mid.ledger_of(h) == pre.ledger_of(h).push(ev));
            assert(mid.has_hash(h));
            assert(mid.index_view() == (if pre.has_hash(h) {
                pre.index_view()
            } else {
                pre.index_view().push(h)
            }));
            // Where the new entry now sits, and how the old ledger contents
            // survive, position for position.
            assert(0 <= gli < mid.ledgers@.len());
            assert(mid.ledgers@[gli].hash@ == h);
            assert(mid.ledgers@[gli].entries@.len() > 0);
            assert(mid.ledgers@[gli].entries@.last() == entry);
            assert(pre.ledgers@.len() <= mid.ledgers@.len());
            assert forall|i2: int| 0 <= i2 < pre.ledgers@.len() implies (
            #[trigger] mid.ledgers@[i2]).hash@ == pre.ledgers@[i2].hash@
                && pre.ledgers@[i2].entries@.len() <= mid.ledgers@[i2].entries@.len() by {
                if i2 != gli {
                    assert(mid.ledgers@[i2] == pre.ledgers@[i2]);
                }
            }
            assert forall|i2: int, n2: int|
                0 <= i2 < pre.ledgers@.len() && 0 <= n2 < pre.ledgers@[i2].entries@.len() implies
                #[trigger] mid.ledgers@[i2].entries@[n2] == pre.ledgers@[i2].entries@[n2] by {
                if i2 != gli {
                    assert(mid.ledgers@[i2] == pre.ledgers@[i2]);
                }
            }
            assert forall|i2: int, n2: int|
                0 <= i2 < mid.ledgers@.len() && 0 <= n2
                    < mid.ledgers@[i2].entries@.len() implies ((0 <= i2 < pre.ledgers@.len() && n2
                < pre.ledgers@[i2].entries@.len()) || (mid.ledgers@[i2].hash@ == h && (
            #[trigger] mid.ledgers@[i2].entries@[n2]).auditor@ == caller@)) by {
                if i2 != gli {
                    assert(mid.ledgers@[i2] == pre.ledgers@[i2]);
                } else {
                    if gli < pre.ledgers@.len() {
                        if n2 == pre.ledgers@[gli].entries@.len() {
                            assert(mid.ledgers@[gli].entries@[n2] == entry);
                        }
                    } else {
                        assert(mid.ledgers@[gli].entries@[n2] == entry);
                    }
                }
            }
        }

        // Add the hash to the caller's history where it is not yet listed.
        match self.find_history(&caller) {
            Some(ki) => {
                proof {
                    mid.lemma_history_at(ki as int);
                }
                if self.history_lists(ki, &contract_hash) {
                    proof {
                        assert(mid.history_of(caller@).contains(h));
                        AuditRegistry::lemma_history_frame(pre, mid, caller@);
                        assert(pre.history_of(caller@).contains(h));
                        assert(self.histories@ == pre.histories@);
                        assert forall|k2: int| 0 <= k2 < pre.histories@.len() implies (
                        #[trigger] self.histories@[k2]).auditor@ == pre.histories@[k2].auditor@
                            && pre.histories@[k2].hashes@.len()
                            <= self.histories@[k2].hashes@.len() by {
                            assert(self.histories@[k2] == pre.histories@[k2]);
                        }
                        assert forall|k2: int, m2: int|
                            0 <= k2 < pre.histories@.len() && 0 <= m2
                                < pre.histories@[k2].hashes@.len() implies
                            #[trigger] self.histories@[k2].hashes@[m2]
                                == pre.histories@[k2].hashes@[m2] by {
                            assert(self.histories@[k2] == pre.histories@[k2]);
                        }
                        assert forall|k2: int, m2: int|
                            0 <= k2 < self.histories@.len() && 0 <= m2
                                < self.histories@[k2].hashes@.len() implies ((k2
                            < pre.histories@.len() && m2 < pre.histories@[k2].hashes@.len()) || ((
                        #[trigger] self.histories@[k2].hashes@[m2])@ == h
                            && self.histories@[k2].auditor@ == caller@)) by {
                            assert(self.histories@[k2] == pre.histories@[k2]);
                        }
                    }
                } else {
                    proof {
                        assert(!hash_views(mid.histories@[ki as int].hashes@).contains(h));
                        assert(!mid.history_of(caller@).contains(h));
                        AuditRegistry::lemma_history_frame(pre, mid, caller@);
                        assert(!pre.history_of(caller@).contains(h));
                    }
                    self.histories[ki].hashes.push(contract_hash);
                    proof {
                        let old_hs = mid.histories@[ki as int].hashes@;
                        assert(self.ledgers@ == mid.ledgers@);
                        assert(self.hashes@ == mid.hashes@);
                        assert(self.histories@.len() == mid.histories@.len());
                        assert(self.histories@[ki as int].auditor@ == caller@);
                        assert(self.histories@[ki as int].hashes@ == old_hs.push(contract_hash));
                        assert forall|l: int|
                            0 <= l < self.histories@.len() && l != ki implies self.histories@[l]
                            == mid.histories@[l] by {}
                        assert forall|k2: int, l2: int|
                            0 <= k2 < self.histories@.len() && 0 <= l2 < self.histories@.len()
                                && k2 != l2 implies (#[trigger] self.histories@[k2]).auditor@ != (
                        #[trigger] self.histories@[l2]).auditor@ by {
                            if k2 != ki {
                                assert(self.histories@[k2] == mid.histories@[k2]);
                            }
                            if l2 != ki {
                                assert(self.histories@[l2] == mid.histories@[l2]);
                            }
                            assert(mid.histories@[k2].auditor@ != mid.histories@[l2].auditor@);
                        }
                        assert forall|l: int|
                            0 <= l < old_hs.len() implies (#[trigger] old_hs[l])@ != h by {
                            assert(hash_views(old_hs)[l] == old_hs[l]@);
                        }
                        assert forall|k2: int, i2: int, j2: int|
                            0 <= k2 < self.histories@.len() && 0 <= i2
                                < self.histories@[k2].hashes@.len() && 0 <= j2
                                < self.histories@[k2].hashes@.len() && i2 != j2 implies (
                        #[trigger] self.histories@[k2].hashes@[i2])@ != (
                        #[trigger] self.histories@[k2].hashes@[j2])@ by {
                            if k2 != ki {
                                assert(self.histories@[k2] == mid.histories@[k2]);
                                assert(mid.histories@[k2].hashes@[i2]@
                                    != mid.histories@[k2].hashes@[j2]@);
                            } else {
                                if i2 < old_hs.len() && j2 < old_hs.len() {
                                    assert(mid.histories@[k2].hashes@[i2]@
                                        != mid.histories@[k2].hashes@[j2]@);
                                }
                            }
                        }
                        assert(self.histories_wf());
                        self.lemma_history_at(ki as int);
                        assert(hash_views(old_hs.push(contract_hash)) =~= hash_views(
                            old_hs,
                        ).push(h));
                        assert(self.history_of(caller@) == mid.history_of(caller@).push(h));
                        assert forall|s2: Seq<u8>| s2 != caller@ implies
                            #[trigger] self.history_of(s2) == mid.history_of(s2) by {
                            if mid.has_history(s2) {
                                let k2 = mid.history_pos(s2);
                                assert(0 <= k2 < mid.histories@.len()
                                    && mid.histories@[k2].auditor@ == s2);
                                assert(k2 != ki);
                                assert(self.histories@[k2] == mid.histories@[k2]);
                                mid.lemma_history_at(k2);
                                self.lemma_history_at(k2);
                            } else {
                                if self.has_history(s2) {
                                    let k2 = self.history_pos(s2);
                                    assert(0 <= k2 < self.histories@.len()
                                        && self.histories@[k2].auditor@ == s2);
                                    assert(k2 != ki);
                                    assert(mid.histories@[k2] == self.histories@[k2]);
                                    assert(mid.has_history(s2));
                                }
                            }
                        }
                        assert(self.history_of(caller@)[self.history_of(caller@).len() - 1] == h);
                        assert(self.history_of(caller@).contains(h));
                        assert(mid.histories@ == pre.histories@);
                        assert forall|k2: int| 0 <= k2 < pre.histories@.len() implies (
                        #[trigger] self.histories@[k2]).auditor@ == pre.histories@[k2].auditor@
                            && pre.histories@[k2].hashes@.len()
                            <= self.histories@[k2].hashes@.len() by {
                            assert(mid.histories@[k2] == pre.histories@[k2]);
                            if k2 != ki {
                                assert(self.histories@[k2] == mid.histories@[k2]);
                            }
                        }
                        assert forall|k2: int, m2: int|
                            0 <= k2 < pre.histories@.len() && 0 <= m2
                                < pre.histories@[k2].hashes@.len() implies
                            #[trigger] self.histories@[k2].hashes@[m2]
                                == pre.histories@[k2].hashes@[m2] by {
                            assert(mid.histories@[k2] == pre.histories@[k2]);
                            if k2 != ki {
                                assert(self.histories@[k2] == mid.histories@[k2]);
                            }
                        }
                        assert forall|k2: int, m2: int|
                            0 <= k2 < self.histories@.len() && 0 <= m2
                                < self.histories@[k2].hashes@.len() implies ((k2
                            < pre.histories@.len() && m2 < pre.histories@[k2].hashes@.len()) || ((
                        #[trigger] self.histories@[k2].hashes@[m2])@ == h
                            && self.histories@[k2].auditor@ == caller@)) by {
                            assert(mid.histories@[k2] == pre.histories@[k2]);
                            if k2 != ki {
                                assert(self.histories@[k2] == mid.histories@[k2]);
                            } else {
                                if m2 == old_hs.len() {
                                    assert(self.histories@[k2].hashes@[m2] == contract_hash);
                                }
                            }
                        }
                    }
                }
            },
            None => {
                proof {
                    assert(!mid.has_history(caller@));
                    assert(mid.history_of(caller@) == Seq::<Seq<u8>>::empty());
                    AuditRegistry::lemma_history_frame(pre, mid, caller@);
                    assert(!pre.history_of(caller@).contains(h));
                }
                let mut hs_new: Vec<ContentHash> = Vec::new();
                hs_new.push(contract_hash);
                self.histories.push(AuditorHistory { auditor: caller, hashes: hs_new });
                proof {
                    let nk = mid.histories@.len() as int;
                    assert(self.ledgers@ == mid.ledgers@);
                    assert(self.hashes@ == mid.hashes@);
                    assert(self.histories@.len() == nk + 1);
                    assert(self.histories@[nk].auditor@ == caller@);
                    assert(self.histories@[nk].hashes@.len() == 1);
                    assert(self.histories@[nk].hashes@[0] == contract_hash);
                    assert forall|l: int| 0 <= l < nk implies self.histories@[l]
                        == mid.histories@[l] by {}
                    assert forall|k2: int, l2: int|
                        0 <= k2 < self.histories@.len() && 0 <= l2 < self.histories@.len() && k2
                            != l2 implies (#[trigger] self.histories@[k2]).auditor@ != (
                    #[trigger] self.histories@[l2]).auditor@ by {
                        if k2 < nk && l2 < nk {
                            assert(mid.histories@[k2].auditor@ != mid.histories@[l2].auditor@);
                        } else if k2 == nk {
                            assert(self.histories@[l2] == mid.histories@[l2]);
                            assert(mid.histories@[l2].auditor@ != caller@);
                        } else {
                            assert(self.histories@[k2] == mid.histories@[k2]);
                            assert(mid.histories@[k2].auditor@ != caller@);
                        }
                    }
                    assert forall|k2: int, i2: int, j2: int|
                        0 <= k2 < self.histories@.len() && 0 <= i2
                            < self.histories@[k2].hashes@.len() && 0 <= j2
                            < self.histories@[k2].hashes@.len() && i2 != j2 implies (
                    #[trigger] self.histories@[k2].hashes@[i2])@ != (
                    #[trigger] self.histories@[k2].hashes@[j2])@ by {
                        if k2 < nk {
                            assert(self.histories@[k2] == mid.histories@[k2]);
                            assert(mid.histories@[k2].hashes@[i2]@
                                != mid.histories@[k2].hashes@[j2]@);
                        }
                    }
                    assert(self.histories_wf());
                    self.lemma_history_at(nk);
                    assert(hash_views(self.histories@[nk].hashes@) =~= Seq::<
                        Seq<u8>,
                    >::empty().push(h));
                    assert(self.history_of(caller@) == mid.history_of(caller@).push(h));
                    assert forall|s2: Seq<u8>| s2 != caller@ implies #[trigger] self.history_of(s2)
                        == mid.history_of(s2) by {
                        if mid.has_history(s2) {
                            let k2 = mid.history_pos(s2);
                            assert(0 <= k2 < mid.histories@.len() && mid.histories@[k2].auditor@
                                == s2);
                            assert(self.histories@[k2] == mid.histories@[k2]);
                            mid.lemma_history_at(k2);
                            self.lemma_history_at(k2);
                        } else {
                            if self.has_history(s2) {
                                let k2 = self.history_pos(s2);
                                assert(0 <= k2 < self.histories@.len()
                                    && self.histories@[k2].auditor@ == s2);
                                if k2 < nk {
                                    assert(mid.histories@[k2] == self.histories@[k2]);
                                    assert(mid.has_history(s2));
                                }
                                assert(false);
                            }
                        }
                    }
                    assert(self.history_of(caller@)[self.history_of(caller@).len() - 1] == h);
                    assert(self.history_of(caller@).contains(h));
                    assert(mid.histories@ == pre.histories@);
                    assert forall|k2: int| 0 <= k2 < pre.histories@.len() implies (
                    #[trigger] self.histories@[k2]).auditor@ == pre.histories@[k2].auditor@
                        && pre.histories@[k2].hashes@.len()
                        <= self.histories@[k2].hashes@.len() by {
                        assert(self.histories@[k2] == mid.histories@[k2]);
                        assert(mid.histories@[k2] == pre.histories@[k2]);
                    }
                    assert forall|k2: int, m2: int|
                        0 <= k2 < pre.histories@.len() && 0 <= m2
                            < pre.histories@[k2].hashes@.len() implies
                        #[trigger] self.histories@[k2].hashes@[m2]
                            == pre.histories@[k2].hashes@[m2] by {
                        assert(self.histories@[k2] == mid.histories@[k2]);
                        assert(mid.histories@[k2] == pre.histories@[k2]);
                    }
                    assert forall|k2: int, m2: int|
                        0 <= k2 < self.histories@.len() && 0 <= m2
                            < self.histories@[k2].hashes@.len() implies ((k2 < pre.histories@.len()
                        && m2 < pre.histories@[k2].hashes@.len()) || ((
                    #[trigger] self.histories@[k2].hashes@[m2])@ == h && self.histories@[k2].auditor@
                        == caller@)) by {
                        if k2 < nk {
                            assert(self.histories@[k2] == mid.histories@[k2]);
                            assert(mid.histories@[k2] == pre.histories@[k2]);
                        } else {
                            assert(self.histories@[k2].hashes@[m2] == contract_hash);
                        }
                    }
                }
            },
        }

        // The history update left the ledgers, the index and the owner alone.
        proof {
            AuditRegistry::lemma_ledgers_wf_same(mid, *self);
            assert forall|h2: Seq<u8>| #[trigger] self.ledger_of(h2) == mid.ledger_of(h2) by {
                AuditRegistry::lemma_ledger_frame(mid, *self, h2);
            }
            assert(self.index_view() == mid.index_view());
            assert(self.ledger_of(h) == pre.ledger_of(h).push(ev));
            assert forall|s2: Seq<u8>| s2 != caller@ implies #[trigger] self.history_of(s2)
                == pre.history_of(s2) by {
                AuditRegistry::lemma_history_frame(pre, mid, s2);
            }
            assert(register_post(pre, *self, h, stars, summary@, caller@, timestamp));
            assert forall|h2: Seq<u8>| #[trigger] self.ledger_of(h2).len() >= pre.ledger_of(
                h2,
            ).len() by {
                if h2 != h {
                    assert(self.ledger_of(h2) == pre.ledger_of(h2));
                }
            }
            // The submitter links survive: an old history position keeps its
            // old backing entry, the new position is backed by the new entry,
            // and the new entry is listed under the caller's history.
            assert(self.ledgers@ == mid.ledgers@);
            assert forall|k2: int, m2: int|
                0 <= k2 < self.histories@.len() && 0 <= m2
                    < self.histories@[k2].hashes@.len() implies
                #[trigger] self.history_entry_backed(k2, m2) by {
                let hv = self.histories@[k2].hashes@[m2];
                if 0 <= k2 < pre.histories@.len() && m2 < pre.histories@[k2].hashes@.len() {
                    assert(pre.history_entry_backed(k2, m2));
                    let (i, n) = choose|i: int, n: int|
                        {
                            &&& 0 <= i < pre.ledgers@.len()
                            &&& 0 <= n < pre.ledgers@[i].entries@.len()
                            &&& (#[trigger] pre.ledgers@[i].entries@[n]).auditor@
                                == pre.histories@[k2].auditor@
                            &&& pre.ledgers@[i].hash@ == pre.histories@[k2].hashes@[m2]@
                        };
                    assert(mid.ledgers@[i].entries@[n] == pre.ledgers@[i].entries@[n]);
                    assert(mid.ledgers@[i].hash@ == pre.ledgers@[i].hash@);
                    assert(self.ledgers@[i].entries@[n].auditor@ == self.histories@[k2].auditor@);
                    assert(self.ledgers@[i].hash@ == self.histories@[k2].hashes@[m2]@);
                    assert(self.history_entry_backed(k2, m2));
                } else {
                    assert(hv@ == h && self.histories@[k2].auditor@ == caller@);
                    let nlast = self.ledgers@[gli].entries@.len() - 1;
                    assert(mid.ledgers@[gli].entries@[nlast] == entry);
                    assert(self.ledgers@[gli].entries@[nlast].auditor@ == caller@);
                    assert(self.ledgers@[gli].hash@ == h);
                    assert(self.history_entry_backed(k2, m2));
                }
            }
            assert forall|i2: int, n2: int|
                0 <= i2 < self.ledgers@.len() && 0 <= n2
                    < self.ledgers@[i2].entries@.len() implies #[trigger] self.entry_in_history(
                i2,
                n2,
            ) by {
                assert(self.ledgers@[i2].entries@[n2] == mid.ledgers@[i2].entries@[n2]);
                assert(self.ledgers@[i2].hash@ == mid.ledgers@[i2].hash@);
                if 0 <= i2 < pre.ledgers@.len() && n2 < pre.ledgers@[i2].entries@.len() {
                    assert(pre.entry_in_history(i2, n2));
                    let (k, m) = choose|k: int, m: int|
                        {
                            &&& 0 <= k < pre.histories@.len()
                            &&& 0 <= m < pre.histories@[k].hashes@.len()
                            &&& (#[trigger] pre.histories@[k].hashes@[m])@
                                == pre.ledgers@[i2].hash@
                            &&& pre.histories@[k].auditor@ == pre.ledgers@[i2].entries@[n2].auditor@
                        };
                    assert(self.histories@[k].auditor@ == pre.histories@[k].auditor@);
                    assert(self.histories@[k].hashes@[m] == pre.histories@[k].hashes@[m]);
                    assert(mid.ledgers@[i2].hash@ == pre.ledgers@[i2].hash@);
                    assert(mid.ledgers@[i2].entries@[n2] == pre.ledgers@[i2].entries@[n2]);
                    assert(self.entry_in_history(i2, n2));
                } else {
                    assert(mid.ledgers@[i2].hash@ == h && mid.ledgers@[i2].entries@[n2].auditor@
                        == caller@);
                    assert(self.history_of(caller@).contains(h));
                    if !self.has_history(caller@) {
                        assert(self.history_of(caller@) == Seq::<Seq<u8>>::empty());
                    }
                    let kk = self.history_pos(caller@);
                    assert(0 <= kk < self.histories@.len() && self.histories@[kk].auditor@
                        == caller@);
                    self.lemma_history_at(kk);
                    assert(self.history_of(caller@) == hash_views(self.histories@[kk].hashes@));
                    let mm = choose|mm: int|
                        0 <= mm < self.history_of(caller@).len() && self.history_of(caller@)[mm]
                            == h;
                    assert(self.histories@[kk].hashes@[mm]@ == h);
                    assert(self.histories@[kk].hashes@[mm]@ == self.ledgers@[i2].hash@);
                    assert(self.histories@[kk].auditor@ == self.ledgers@[i2].entries@[n2].auditor@);
                    assert(self.entry_in_history(i2, n2));
                }
            }
            assert(self.links_wf());
        }
        Ok(AuditEvent { hash: contract_hash, stars, summary, auditor: caller, timestamp })
    }
}

/// Law: a hash stands in the global index exactly when its ledger is
/// non-empty.
pub proof fn lemma_index_iff_ledger(r: AuditRegistry, h: Seq<u8>)
    requires
        r.inv(),
    ensures
        r.has_hash(h) <==> r.ledger_of(h).len() > 0,
{
    if r.has_hash(h) {
        let j = choose|j: int| 0 <= j < r.index_view().len() && r.index_view()[j] == h;
        assert(r.index_view()[j] == r.hashes@[j]@);
        assert(r.ledgers@[j].hash@ == h);
        r.lemma_ledger_at(j);
        assert(r.ledger_of(h).len() == r.ledgers@[j].entries@.len());
    }
    if r.ledger_of(h).len() > 0 {
        assert(r.has_ledger(h));
        let i = r.ledger_pos(h);
        assert(0 <= i < r.ledgers@.len() && r.ledgers@[i].hash@ == h);
        assert(r.index_view()[i] == r.hashes@[i]@);
        assert(r.index_view()[i] == h);
        assert(r.has_hash(h));
    }
}

/// Law: the global index lists every hash at most once.
pub proof fn lemma_index_no_duplicates(r: AuditRegistry, i: int, j: int)
    requires
        r.inv(),
        0 <= i < r.index_view().len(),
        0 <= j < r.index_view().len(),
        i != j,
    ensures
        r.index_view()[i] != r.index_view()[j],
{
    assert(r.index_view()[i] == r.hashes@[i]@);
    assert(r.index_view()[j] == r.hashes@[j]@);
}

/// Law: a submitter's history lists every hash at most once.
pub proof fn lemma_history_no_duplicates(r: AuditRegistry, s: Seq<u8>, i: int, j: int)
    requires
        r.inv(),
        0 <= i < r.history_of(s).len(),
        0 <= j < r.history_of(s).len(),
        i != j,
    ensures
        r.history_of(s)[i] != r.history_of(s)[j],
{
    assert(r.has_history(s));
    let k = r.history_pos(s);
    assert(0 <= k < r.histories@.len() && r.histories@[k].auditor@ == s);
    r.lemma_history_at(k);
    assert(r.history_of(s)[i] == r.histories@[k].hashes@[i]@);
    assert(r.history_of(s)[j] == r.histories@[k].hashes@[j]@);
}

/// Law: a submitter's history lists a hash exactly when the hash's ledger
/// holds at least one entry submitted by them.
pub proof fn lemma_history_iff_audited(r: AuditRegistry, s: Seq<u8>, h: Seq<u8>)
    requires
        r.inv(),
    ensures
        r.history_of(s).contains(h) <==> (exists|n: int|
            0 <= n < r.ledger_of(h).len() && (#[trigger] r.ledger_of(h)[n]).auditor == s),
{
    if r.history_of(s).contains(h) {
        assert(r.has_history(s));
        let k = r.history_pos(s);
        assert(0 <= k < r.histories@.len() && r.histories@[k].auditor@ == s);
        r.lemma_history_at(k);
        let m = choose|m: int| 0 <= m < r.history_of(s).len() && r.history_of(s)[m] == h;
        assert(r.histories@[k].hashes@[m]@ == h);
        assert(r.history_entry_backed(k, m));
        let (i, n) = choose|i: int, n: int|
            {
                &&& 0 <= i < r.ledgers@.len()
                &&& 0 <= n < r.ledgers@[i].entries@.len()
                &&& (#[trigger] r.ledgers@[i].entries@[n]).auditor@ == r.histories@[k].auditor@
                &&& r.ledgers@[i].hash@ == r.histories@[k].hashes@[m]@
            };
        r.lemma_ledger_at(i);
        assert(r.ledger_of(h) == audit_views(r.ledgers@[i].entries@));
        assert(r.ledger_of(h)[n].auditor == s);
    }
    if exists|n: int| 0 <= n < r.ledger_of(h).len() && (#[trigger] r.ledger_of(h)[n]).auditor
        == s {
        let n = choose|n: int|
            0 <= n < r.ledger_of(h).len() && (#[trigger] r.ledger_of(h)[n]).auditor == s;
        assert(r.has_ledger(h));
        let i = r.ledger_pos(h);
        assert(0 <= i < r.ledgers@.len() && r.ledgers@[i].hash@ == h);
        assert(r.ledger_of(h) == audit_views(r.ledgers@[i].entries@));
        assert(r.ledgers@[i].entries@[n].auditor@ == s);
        assert(r.entry_in_history(i, n));
        let (k, m) = choose|k: int, m: int|
            {
                &&& 0 <= k < r.histories@.len()
                &&& 0 <= m < r.histories@[k].hashes@.len()
                &&& (#[trigger] r.histories@[k].hashes@[m])@ == r.ledgers@[i].hash@
                &&& r.histories@[k].auditor@ == r.ledgers@[i].entries@[n].auditor@
            };
        r.lemma_history_at(k);
        assert(r.history_of(s) == hash_views(r.histories@[k].hashes@));
        assert(r.history_of(s)[m] == h);
        assert(r.history_of(s).contains(h));
    }
}

/// Law: a registration never reorders or truncates the global index or a
/// submitter's history; it can only extend them at the end.
pub proof fn lemma_register_only_extends(
    pre: AuditRegistry,
    post: AuditRegistry,
    h: Seq<u8>,
    stars: u8,
    summary: Seq<char>,
    submitter: Seq<u8>,
    timestamp: u64,
    s: Seq<u8>,
)
    requires
        register_post(pre, post, h, stars, summary, submitter, timestamp),
    ensures
        pre.index_view().is_prefix_of(post.index_view()),
        pre.history_of(s).is_prefix_of(post.history_of(s)),
{
    let iv = pre.index_view();
    assert(iv.subrange(0, iv.len() as int) =~= iv);
    assert(iv.push(h).subrange(0, iv.len() as int) =~= iv);
    let hv = pre.history_of(s);
    assert(hv.subrange(0, hv.len() as int) =~= hv);
    assert(hv.push(h).subrange(0, hv.len() as int) =~= hv);
}

/// Law: registering the same hash a second time from the same submitter
/// appends a second ledger entry but leaves the global index and that
/// submitter's history exactly as they were after the first registration.
pub proof fn lemma_reregister_keeps_indexes(
    s0: AuditRegistry,
    s1: AuditRegistry,
    s2: AuditRegistry,
    h: Seq<u8>,
    stars1: u8,
    summary1: Seq<char>,
    stars2: u8,
    summary2: Seq<char>,
    submitter: Seq<u8>,
    t1: u64,
    t2: u64,
)
    requires
        register_post(s0, s1, h, stars1, summary1, submitter, t1),
        register_post(s1, s2, h, stars2, summary2, submitter, t2),
    ensures
        s2.index_view() == s1.index_view(),
        s2.history_of(submitter) == s1.history_of(submitter),
        s2.ledger_of(h).len() == s0.ledger_of(h).len() + 2,
{
}

} // verus!
