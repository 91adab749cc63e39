use vstd::prelude::*;
use crate::digest::{checksum, checksum_text, project_scope};
use crate::order::{RankKey, rank, ranked};
use crate::ranking::{relevance, relevance_of};
use crate::order::lemma_ranked_members;
use crate::text::{blank, is_blank, prefix, render_signed, signed_decimal, str_eq, take_chars};
use vstd::string::StringExecFns;

verus! {

/// A remembered answer, as stored.
pub struct MemoryEntry {
    id: i64,
    project: String,
    query: String,
    content: String,
    source: String,
    checksum: String,
    revision: i64,
}

/// Why a memory operation was refused.
#[derive(Debug, Clone, Copy, PartialEq, Eq)]
pub enum MemoryError {
    /// More entries were asked for than a recall may return.
    RecallLimit,
    /// A stored entry belongs to another project.
    Partition,
    /// The stored schema is newer than this program.
    UnsupportedSchema,
    /// The stored schema is older and no migration exists for it.
    MissingMigration(i64),
}

impl MemoryError {
    /// The text shown for the error; a missing migration names the stored version.
    pub fn message(&self) -> (text: String)
        ensures
            text@ == match self {
                MemoryError::RecallLimit => "Limite de recherche mémoire excessive"@,
                MemoryError::Partition => "Erreur de cloisonnement de la mémoire"@,
                MemoryError::UnsupportedSchema => "Version de schéma SQLite non prise en charge"@,
                MemoryError::MissingMigration(v) => "Migration depuis la version "@ + signed_decimal(
                    *v as int,
                ) + " non implémentée"@,
            },
    {
        match self {
            MemoryError::RecallLimit => String::from_str("Limite de recherche mémoire excessive"),
            MemoryError::Partition => String::from_str("Erreur de cloisonnement de la mémoire"),
            MemoryError::UnsupportedSchema => String::from_str(
                "Version de schéma SQLite non prise en charge",
            ),
            MemoryError::MissingMigration(v) => {
                let mut text = String::from_str("Migration depuis la version ");
                let digits = render_signed(*v);
                text.append(digits.as_str());
                text.append(" non implémentée");
                text
            },
        }
    }
}

/// The text whose checksum protects an entry: the query, a backslash, the letter `n`, and the
/// content (the separator is these two characters, not a line feed).
pub open spec fn checksum_input(query: Seq<char>, content: Seq<char>) -> Seq<char> {
    query + seq!['\\', 'n'] + content
}

/// The checksum of a query and its content.
pub open spec fn entry_checksum(query: Seq<char>, content: Seq<char>) -> Seq<char> {
    checksum_text(checksum_input(query, content))
}

/// `x` capped at `usize::MAX`.
pub open spec fn saturated(x: nat) -> usize {
    if x > usize::MAX {
        usize::MAX
    } else {
        x as usize
    }
}

impl MemoryEntry {
    pub closed spec fn spec_id(&self) -> i64 {
        self.id
    }

    pub closed spec fn spec_project(&self) -> Seq<char> {
        self.project@
    }

    pub closed spec fn spec_query(&self) -> Seq<char> {
        self.query@
    }

    pub closed spec fn spec_content(&self) -> Seq<char> {
        self.content@
    }

    pub closed spec fn spec_source(&self) -> Seq<char> {
        self.source@
    }

    pub closed spec fn spec_checksum(&self) -> Seq<char> {
        self.checksum@
    }

    pub closed spec fn spec_revision(&self) -> i64 {
        self.revision
    }

    /// Whether the stored checksum matches the query and content.
    pub open spec fn checksum_valid(&self) -> bool {
        entry_checksum(self.spec_query(), self.spec_content()) == self.spec_checksum()
    }

    /// Ranking score: terms of the request shared with the query count four times, with the
    /// content twice, and terms of the role shared with the content once; capped at `usize::MAX`.
    pub open spec fn score(&self, request: Seq<char>, role: Seq<char>) -> usize {
        saturated(
            4 * relevance_of(request, self.spec_query()) + 2 * relevance_of(request, self.spec_content())
                + relevance_of(role, self.spec_content()),
        )
    }

    /// Whether the entry shares a term with the request, in its query or its content.
    pub open spec fn matches(&self, request: Seq<char>) -> bool {
        relevance_of(request, self.spec_query()) > 0 || relevance_of(request, self.spec_content()) > 0
    }

    pub fn from_storage(
        id: i64,
        project: String,
        query: String,
        content: String,
        source: String,
        checksum: String,
        revision: i64,
    ) -> (e: Self)
        ensures
            e.spec_id() == id,
            e.spec_project() == project@,
            e.spec_query() == query@,
            e.spec_content() == content@,
            e.spec_source() == source@,
            e.spec_checksum() == checksum@,
            e.spec_revision() == revision,
    {
        MemoryEntry { id, project, query, content, source, checksum, revision }
    }

    /// The checksum stored with a query and its content.
    pub fn checksum_for(query: &str, content: &str) -> (r: String)
        ensures
            r@ == entry_checksum(query@, content@),
    {
        let mut text = String::from_str(query);
        text.append("\\n");
        text.append(content);
        proof {
            reveal_strlit("\\n");
            assert(text@ =~= checksum_input(query@, content@));
        }
        checksum(text.as_str())
    }

    pub fn verify_checksum(&self) -> (b: bool)
        ensures
            b == self.checksum_valid(),
    {
        let expected = Self::checksum_for(self.query.as_str(), self.content.as_str());
        str_eq(expected.as_str(), self.checksum.as_str())
    }

    pub fn relevance_score(&self, request: &str, role: &str) -> (s: usize)
        ensures
            s == self.score(request@, role@),
    {
        let a = relevance(request, self.query.as_str());
        let b = relevance(request, self.content.as_str());
        let c = relevance(role, self.content.as_str());
        let a4 = match a.checked_mul(4) {
            Some(v) => v,
            None => usize::MAX,
        };
        let b2 = match b.checked_mul(2) {
            Some(v) => v,
            None => usize::MAX,
        };
        a4.saturating_add(b2).saturating_add(c)
    }

    pub fn matches_request(&self, request: &str) -> (b: bool)
        ensures
            b == self.matches(request@),
    {
        relevance(request, self.query.as_str()) > 0 || relevance(request, self.content.as_str()) > 0
    }

    pub fn id(&self) -> (r: i64)
        ensures
            r == self.spec_id(),
    {
        self.id
    }

    pub fn project(&self) -> (r: &str)
        ensures
            r@ == self.spec_project(),
    {
        self.project.as_str()
    }

    pub fn query(&self) -> (r: &str)
        ensures
            r@ == self.spec_query(),
    {
        self.query.as_str()
    }

    pub fn content(&self) -> (r: &str)
        ensures
            r@ == self.spec_content(),
    {
        self.content.as_str()
    }

    pub fn source(&self) -> (r: &str)
        ensures
            r@ == self.spec_source(),
    {
        self.source.as_str()
    }

    pub fn checksum(&self) -> (r: &str)
        ensures
            r@ == self.spec_checksum(),
    {
        self.checksum.as_str()
    }

    pub fn revision(&self) -> (r: i64)
        ensures
            r == self.spec_revision(),
    {
        self.revision
    }

    /// A field-for-field copy.
    pub fn duplicate(&self) -> (r: Self)
        ensures
            r == *self,
    {
        MemoryEntry {
            id: self.id,
            project: self.project.clone(),
            query: self.query.clone(),
            content: self.content.clone(),
            source: self.source.clone(),
            checksum: self.checksum.clone(),
            revision: self.revision,
        }
    }
}

/// The first `n` elements of `s` (all of them when `s` is shorter).
pub open spec fn first_n<A>(s: Seq<A>, n: nat) -> Seq<A> {
    if n < s.len() {
        s.take(n as int)
    } else {
        s
    }
}

/// The entries of `s` that share a term with the request, in order.
pub open spec fn matching(s: Seq<MemoryEntry>, request: Seq<char>) -> Seq<MemoryEntry>
    decreases s.len(),
{
    if s.len() == 0 {
        Seq::empty()
    } else if s.last().matches(request) {
        matching(s.drop_last(), request).push(s.last())
    } else {
        matching(s.drop_last(), request)
    }
}

/// Rank keys of stored entries: score first, then the larger id.
pub open spec fn entry_keys(entries: Seq<MemoryEntry>, request: Seq<char>, role: Seq<char>) -> Seq<RankKey> {
    Seq::new(
        entries.len(),
        |k: int|
            RankKey {
                score: entries[k].score(request, role),
                tie: entries[k].spec_id() as i128,
                slot: k as usize,
            },
    )
}

/// The entries in rank order (a stable sort, so entries with equal keys keep their order).
pub open spec fn entries_in_rank_order(entries: Seq<MemoryEntry>, request: Seq<char>, role: Seq<char>) -> Seq<MemoryEntry> {
    ranked(entry_keys(entries, request, role)).map_values(|k: RankKey| entries[k.slot as int])
}

/// What a recall returns of the stored entries: in rank order, those that share a term with
/// the request, at most `limit` of them.
pub open spec fn recalled(entries: Seq<MemoryEntry>, request: Seq<char>, role: Seq<char>, limit: nat) -> Seq<MemoryEntry> {
    first_n(matching(entries_in_rank_order(entries, request, role), request), limit)
}

/// Ranks stored entries for a request: by score, then by larger id, keeping those that share a
/// term with the request, and at most `limit` of them.
pub fn rank_entries(entries: Vec<MemoryEntry>, request: &str, role: &str, limit: usize) -> (r: Vec<MemoryEntry>)
    ensures
        r@ == recalled(entries@, request@, role@, limit as nat),
{
    let n = entries.len();
    let mut keys: Vec<RankKey> = Vec::new();
    let mut hits: Vec<bool> = Vec::new();
    let mut k: usize = 0;
    while k < n
        invariant
            n == entries@.len(),
            k <= n,
            keys@.len() == k,
            hits@.len() == k,
            forall|j: int| 0 <= j < k ==> #[trigger] keys@[j] == entry_keys(entries@, request@, role@)[j],
            forall|j: int| 0 <= j < k ==> #[trigger] hits@[j] == entries@[j].matches(request@),
        decreases n - k,
    {
        let score = entries[k].relevance_score(request, role);
        let id = entries[k].id();
        keys.push(RankKey { score, tie: id as i128, slot: k });
        hits.push(entries[k].matches_request(request));
        k = k + 1;
    }
    proof {
        assert(keys@ =~= entry_keys(entries@, request@, role@));
        lemma_ranked_members(keys@);
    }
    let order = rank(&keys);
    let ghost ordered = entries_in_rank_order(entries@, request@, role@);
    let mut out: Vec<MemoryEntry> = Vec::new();
    let mut i: usize = 0;
    proof {
        assert(ordered.take(0) =~= Seq::<MemoryEntry>::empty());
    }
    while i < order.len()
        invariant
            n == entries@.len(),
            n == keys@.len(),
            hits@.len() == n,
            forall|j: int| 0 <= j < n ==> #[trigger] hits@[j] == entries@[j].matches(request@),
            forall|j: int| 0 <= j < n ==> (#[trigger] keys@[j]).slot == j,
            order@ == ranked(keys@),
            order@.len() == n,
            forall|j: int| 0 <= j < n ==> keys@.contains(#[trigger] order@[j]),
            ordered == order@.map_values(|k: RankKey| entries@[k.slot as int]),
            i <= n,
            out@ == first_n(matching(ordered.take(i as int), request@), limit as nat),
        decreases n - i,
    {
        let key = order[i];
        proof {
            assert(keys@.contains(order@[i as int]));
            let m = choose|m: int| 0 <= m < n && keys@[m] == key;
            assert(key.slot == m);
            assert(ordered.take(i as int + 1).drop_last() =~= ordered.take(i as int));
            assert(ordered[i as int] == entries@[key.slot as int]);
        }
        let ghost prev = matching(ordered.take(i as int), request@);
        if hits[key.slot] {
            proof {
                assert(matching(ordered.take(i as int + 1), request@) == prev.push(entries@[key.slot as int]));
            }
            if out.len() < limit {
                out.push(entries[key.slot].duplicate());
                proof {
                    assert(prev.push(entries@[key.slot as int]).take(out@.len() as int) =~= out@);
                }
            } else {
                proof {
                    assert(prev.push(entries@[key.slot as int]).take(limit as int) =~= prev.take(limit as int));
                }
            }
        } else {
            proof {
                assert(matching(ordered.take(i as int + 1), request@) == prev);
            }
        }
        i = i + 1;
    }
    proof {
        assert(ordered.take(n as int) =~= ordered);
    }
    out
}

/// The entries whose checksum matches, in order.
pub open spec fn valid_entries(s: Seq<MemoryEntry>) -> Seq<MemoryEntry> {
    s.filter(|e: MemoryEntry| e.checksum_valid())
}

/// The memory of one project.
pub struct MemoryScope {
    project: String,
}

/// A recall may return at most this many entries.
pub const MAX_RECALL: usize = 8;

/// What is stored for an answer: the query and answer cut to their size limits, and their checksum.
pub struct PreparedMemory {
    pub query: String,
    pub content: String,
    pub checksum: String,
}

impl MemoryScope {
    pub closed spec fn spec_project(&self) -> Seq<char> {
        self.project@
    }

    /// The scope of the project whose root path has the given text.
    pub fn new(project_root: &str) -> (m: Self)
        ensures
            m.spec_project() == checksum_text(project_root@),
    {
        MemoryScope { project: project_scope(project_root) }
    }

    pub fn project(&self) -> (r: &str)
        ensures
            r@ == self.spec_project(),
    {
        self.project.as_str()
    }

    /// A recall may ask for at most eight entries.
    pub fn check_recall_limit(limit: usize) -> (r: Result<(), MemoryError>)
        ensures
            r is Ok <==> limit <= MAX_RECALL,
            r is Err ==> r == Err::<(), MemoryError>(MemoryError::RecallLimit),
    {
        if limit > MAX_RECALL {
            Err(MemoryError::RecallLimit)
        } else {
            Ok(())
        }
    }

    /// Checks recalled entries: all must belong to this project (else the recall is refused),
    /// and those whose checksum does not match are dropped.
    pub fn screen(&self, entries: Vec<MemoryEntry>) -> (r: Result<Vec<MemoryEntry>, MemoryError>)
        ensures
            match r {
                Ok(kept) => (forall|i: int| 0 <= i < entries@.len() ==> (#[trigger] entries@[i]).spec_project() == self.spec_project())
                    && kept@ == valid_entries(entries@),
                Err(e) => e == MemoryError::Partition && exists|i: int| 0 <= i < entries@.len() && (#[trigger] entries@[i]).spec_project() != self.spec_project(),
            },
    {
        let mut i: usize = 0;
        while i < entries.len()
            invariant
                i <= entries@.len(),
                forall|j: int| 0 <= j < i ==> (#[trigger] entries@[j]).spec_project() == self.spec_project(),
            decreases entries@.len() - i,
        {
            if !str_eq(entries[i].project(), self.project.as_str()) {
                return Err(MemoryError::Partition);
            }
            i = i + 1;
        }
        let mut kept: Vec<MemoryEntry> = Vec::new();
        let mut j: usize = 0;
        proof {
            assert(entries@.take(0) =~= Seq::<MemoryEntry>::empty());
            reveal(Seq::filter);
            assert(entries@.take(0).filter(|e: MemoryEntry| e.checksum_valid()) =~= Seq::<MemoryEntry>::empty());
        }
        while j < entries.len()
            invariant
                j <= entries@.len(),
                kept@ == entries@.take(j as int).filter(|e: MemoryEntry| e.checksum_valid()),
            decreases entries@.len() - j,
        {
            proof {
                assert(entries@.take(j as int + 1).drop_last() =~= entries@.take(j as int));
                reveal(Seq::filter);
            }
            if entries[j].verify_checksum() {
                kept.push(entries[j].duplicate());
            }
            j = j + 1;
        }
        proof {
            assert(entries@.take(entries@.len() as int) =~= entries@);
        }
        Ok(kept)
    }

    /// What to store for an answer: nothing when the query or the answer is blank; otherwise
    /// the first 1024 characters of the query, the first 4096 of the answer, and their checksum.
    pub fn prepare(query: &str, answer: &str) -> (r: Option<PreparedMemory>)
        ensures
            r is None <==> (blank(query@) || blank(answer@)),
            r matches Some(p) ==> {
                &&& p.query@ == prefix(query@, 1024)
                &&& p.content@ == prefix(answer@, 4096)
                &&& p.checksum@ == entry_checksum(p.query@, p.content@)
            },
    {
        if is_blank(query) || is_blank(answer) {
            return None;
        }
        let query = take_chars(query, 1024);
        let content = take_chars(answer, 4096);
        let checksum = MemoryEntry::checksum_for(query.as_str(), content.as_str());
        Some(PreparedMemory { query, content, checksum })
    }
}

/// The schema version this program writes.
pub const SCHEMA_VERSION: i64 = 1;

/// What to do with a store whose latest schema version is known.
#[derive(Debug, Clone, Copy, PartialEq, Eq)]
pub enum SchemaStep {
    /// No schema yet: create the tables and record the version.
    Create,
    /// The schema is current: nothing to do.
    Current,
}

/// The migration step for the memory store, from the highest recorded schema version.
pub fn memory_schema_step(latest: Option<i64>) -> (r: Result<SchemaStep, MemoryError>)
    ensures
        r == match latest {
            None => Ok(SchemaStep::Create),
            Some(v) => if v > SCHEMA_VERSION {
                Err(MemoryError::UnsupportedSchema)
            } else if v == SCHEMA_VERSION {
                Ok(SchemaStep::Current)
            } else {
                Err(MemoryError::MissingMigration(v))
            },
        },
{
    match latest {
        Some(version) if version > SCHEMA_VERSION => Err(MemoryError::UnsupportedSchema),
        Some(version) if version == SCHEMA_VERSION => Ok(SchemaStep::Current),
        None => Ok(SchemaStep::Create),
        Some(version) => Err(MemoryError::MissingMigration(version)),
    }
}

proof fn lemma_matching(s: Seq<MemoryEntry>, request: Seq<char>)
    ensures
        matching(s, request).len() <= s.len(),
        forall|i: int| 0 <= i < matching(s, request).len() ==> (#[trigger] matching(s, request)[i]).matches(request)
            && s.contains(matching(s, request)[i]),
    decreases s.len(),
{
    if s.len() > 0 {
        let t = s.drop_last();
        lemma_matching(t, request);
        let m = matching(s, request);
        assert forall|i: int| 0 <= i < m.len() implies (#[trigger] m[i]).matches(request) && s.contains(m[i]) by {
            if i < matching(t, request).len() {
                assert(m[i] == matching(t, request)[i]);
                let k = choose|k: int| 0 <= k < t.len() && t[k] == m[i];
                assert(s[k] == m[i]);
            } else {
                assert(m[i] == s.last());
                assert(s[s.len() - 1] == m[i]);
            }
        }
    }
}

/// A recall returns at most `limit` entries, each sharing a term with the request and each
/// one of the stored entries.
pub proof fn lemma_recall_bounds(entries: Seq<MemoryEntry>, request: Seq<char>, role: Seq<char>, limit: nat)
    requires
        entries.len() <= usize::MAX,
    ensures
        recalled(entries, request, role, limit).len() <= limit,
        forall|i: int|
            0 <= i < recalled(entries, request, role, limit).len() ==> (#[trigger] recalled(entries, request, role, limit)[i]).matches(request)
                && entries.contains(recalled(entries, request, role, limit)[i]),
{
    let keys = entry_keys(entries, request, role);
    lemma_ranked_members(keys);
    let ordered = entries_in_rank_order(entries, request, role);
    lemma_matching(ordered, request);
    let r = recalled(entries, request, role, limit);
    let m = matching(ordered, request);
    assert forall|i: int| 0 <= i < r.len() implies (#[trigger] r[i]).matches(request) && entries.contains(r[i]) by {
        assert(r[i] == m[i]);
        let k = choose|k: int| 0 <= k < ordered.len() && ordered[k] == m[i];
        assert(keys.contains(ranked(keys)[k]));
        let j = choose|j: int| 0 <= j < keys.len() && keys[j] == ranked(keys)[k];
        assert(keys[j].slot == j);
        assert(entries[j] == r[i]);
    }
}

/// What is remembered is recalled intact: an entry stored with a prepared query, content and
/// checksum passes the checksum test.
pub proof fn lemma_prepared_entry_verifies(p: PreparedMemory, e: MemoryEntry)
    requires
        p.checksum@ == entry_checksum(p.query@, p.content@),
        e.spec_query() == p.query@,
        e.spec_content() == p.content@,
        e.spec_checksum() == p.checksum@,
    ensures
        e.checksum_valid(),
{
}

/// Entries kept by screening all pass the checksum test.
pub proof fn lemma_screened_entries_valid(entries: Seq<MemoryEntry>)
    ensures
        forall|i: int| 0 <= i < valid_entries(entries).len() ==> (#[trigger] valid_entries(entries)[i]).checksum_valid(),
{
    assert forall|i: int| 0 <= i < valid_entries(entries).len() implies (#[trigger] valid_entries(entries)[i]).checksum_valid() by {
        entries.lemma_filter_pred(|e: MemoryEntry| e.checksum_valid(), i);
    }
}

/// Recall ranks by score, then by larger id: in the rank order, each entry scores higher than
/// every later one, or as high with an id at least as large.
pub proof fn lemma_recall_rank_order(entries: Seq<MemoryEntry>, request: Seq<char>, role: Seq<char>)
    requires
        entries.len() <= usize::MAX,
    ensures
        ({
            let o = entries_in_rank_order(entries, request, role);
            forall|i: int, j: int|
                0 <= i < j < o.len() ==> {
                    ||| (#[trigger] o[i]).score(request, role) > (#[trigger] o[j]).score(request, role)
                    ||| (o[i].score(request, role) == o[j].score(request, role) && o[i].spec_id() >= o[j].spec_id())
                }
        }),
{
    let keys = entry_keys(entries, request, role);
    let r = ranked(keys);
    lemma_ranked_members(keys);
    crate::order::lemma_ranked_is_sorted_permutation(keys);
    let o = entries_in_rank_order(entries, request, role);
    assert forall|i: int, j: int| 0 <= i < j < o.len() implies {
        ||| (#[trigger] o[i]).score(request, role) > (#[trigger] o[j]).score(request, role)
        ||| (o[i].score(request, role) == o[j].score(request, role) && o[i].spec_id() >= o[j].spec_id())
    } by {
        assert(!crate::order::precedes(r[j], r[i]));
        assert(keys.contains(r[i]));
        assert(keys.contains(r[j]));
        let a = choose|a: int| 0 <= a < keys.len() && keys[a] == r[i];
        let b = choose|b: int| 0 <= b < keys.len() && keys[b] == r[j];
        assert(keys[a].slot == a && keys[b].slot == b);
        assert(o[i] == entries[a]);
        assert(o[j] == entries[b]);
    }
}

proof fn lemma_matching_keeps(s: Seq<MemoryEntry>, request: Seq<char>, x: MemoryEntry)
    requires
        s.contains(x),
        x.matches(request),
    ensures
        matching(s, request).contains(x),
    decreases s.len(),
{
    let t = s.drop_last();
    if s.last() == x {
        assert(matching(s, request).last() == x);
        assert(matching(s, request)[matching(s, request).len() - 1] == x);
    } else {
        let k = choose|k: int| 0 <= k < s.len() && s[k] == x;
        assert(t[k] == x);
        lemma_matching_keeps(t, request, x);
        let m = matching(t, request);
        let j = choose|j: int| 0 <= j < m.len() && m[j] == x;
        if s.last().matches(request) {
            assert(matching(s, request)[j] == x);
        }
    }
}

/// Recall consults both the query and the content of an entry: every recalled entry shares a
/// term with the request in its query or in its content, and every stored entry that does so is
/// recalled whenever the limit leaves room (fewer than `limit` entries come back, or there are
/// no more stored entries than `limit`).
pub proof fn lemma_recall_complete(entries: Seq<MemoryEntry>, request: Seq<char>, role: Seq<char>, limit: nat)
    requires
        entries.len() <= usize::MAX,
    ensures
        forall|i: int|
            0 <= i < recalled(entries, request, role, limit).len() ==> {
                let e = #[trigger] recalled(entries, request, role, limit)[i];
                relevance_of(request, e.spec_query()) > 0 || relevance_of(request, e.spec_content()) > 0
            },
        recalled(entries, request, role, limit).len() < limit || entries.len() <= limit ==> forall|k: int|
            0 <= k < entries.len() && (relevance_of(request, (#[trigger] entries[k]).spec_query()) > 0
                || relevance_of(request, entries[k].spec_content()) > 0) ==> recalled(
                entries,
                request,
                role,
                limit,
            ).contains(entries[k]),
{
    broadcast use vstd::seq_lib::to_multiset_contains;

    lemma_recall_bounds(entries, request, role, limit);
    let keys = entry_keys(entries, request, role);
    let r = ranked(keys);
    lemma_ranked_members(keys);
    crate::order::lemma_ranked_is_sorted_permutation(keys);
    let ordered = entries_in_rank_order(entries, request, role);
    lemma_matching(ordered, request);
    let m = matching(ordered, request);
    let out = recalled(entries, request, role, limit);
    if out.len() < limit || entries.len() <= limit {
        assert(out == m);
        assert forall|k: int|
            0 <= k < entries.len() && (relevance_of(request, (#[trigger] entries[k]).spec_query()) > 0
                || relevance_of(request, entries[k].spec_content()) > 0) implies out.contains(entries[k]) by {
            assert(keys.contains(keys[k]));
            assert(keys.to_multiset().count(keys[k]) > 0);
            assert(r.contains(keys[k]));
            let j = choose|j: int| 0 <= j < r.len() && r[j] == keys[k];
            assert(ordered[j] == entries[k]);
            assert(ordered.contains(entries[k]));
            lemma_matching_keeps(ordered, request, entries[k]);
        }
    }
}

proof fn lemma_matching_in_order(s: Seq<MemoryEntry>, request: Seq<char>)
    ensures
        forall|i: int, j: int|
            0 <= i < j < matching(s, request).len() ==> exists|p: int, q: int|
                0 <= p < q < s.len() && #[trigger] matching(s, request)[i] == s[p]
                    && #[trigger] matching(s, request)[j] == s[q],
    decreases s.len(),
{
    if s.len() > 0 {
        let t = s.drop_last();
        lemma_matching_in_order(t, request);
        lemma_matching(t, request);
        let m = matching(s, request);
        let mt = matching(t, request);
        assert forall|i: int, j: int| 0 <= i < j < m.len() implies exists|p: int, q: int|
            0 <= p < q < s.len() && #[trigger] m[i] == s[p] && #[trigger] m[j] == s[q] by {
            if j < mt.len() {
                assert(m[i] == mt[i] && m[j] == mt[j]);
                let (p, q) = choose|p: int, q: int| 0 <= p < q < t.len() && mt[i] == t[p] && mt[j] == t[q];
                assert(s[p] == t[p] && s[q] == t[q]);
            } else {
                assert(m[i] == mt[i]);
                assert(t.contains(mt[i]));
                let p = choose|p: int| 0 <= p < t.len() && t[p] == mt[i];
                assert(s[p] == t[p]);
                assert(m[j] == s[s.len() - 1]);
            }
        }
    }
}

/// Recall ranks by four times the terms an entry's query shares with the request, plus twice
/// those its content shares with the request, plus those its content shares with the role
/// (the sum capped at `usize::MAX`), then by larger id; and the recalled entries come out in
/// that order.
pub proof fn lemma_recall_weights(entries: Seq<MemoryEntry>, request: Seq<char>, role: Seq<char>, limit: nat)
    requires
        entries.len() <= usize::MAX,
    ensures
        forall|i: int, j: int|
            0 <= i < j < recalled(entries, request, role, limit).len() ==> {
                let a = #[trigger] recalled(entries, request, role, limit)[i];
                let b = #[trigger] recalled(entries, request, role, limit)[j];
                let sa = saturated(
                    4 * relevance_of(request, a.spec_query()) + 2 * relevance_of(request, a.spec_content())
                        + relevance_of(role, a.spec_content()),
                );
                let sb = saturated(
                    4 * relevance_of(request, b.spec_query()) + 2 * relevance_of(request, b.spec_content())
                        + relevance_of(role, b.spec_content()),
                );
                sa > sb || (sa == sb && a.spec_id() >= b.spec_id())
            },
{
    lemma_recall_rank_order(entries, request, role);
    let o = entries_in_rank_order(entries, request, role);
    lemma_matching_in_order(o, request);
    lemma_matching(o, request);
    let m = matching(o, request);
    let out = recalled(entries, request, role, limit);
    assert forall|i: int, j: int| 0 <= i < j < out.len() implies {
        let a = #[trigger] out[i];
        let b = #[trigger] out[j];
        a.score(request, role) > b.score(request, role) || (a.score(request, role) == b.score(request, role)
            && a.spec_id() >= b.spec_id())
    } by {
        assert(out[i] == m[i] && out[j] == m[j]);
        let (p, q) = choose|p: int, q: int| 0 <= p < q < o.len() && m[i] == o[p] && m[j] == o[q];
        assert(o[p] == out[i] && o[q] == out[j]);
    }
}

} // verus!
