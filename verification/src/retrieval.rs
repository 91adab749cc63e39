use vstd::prelude::*;
use crate::order::{RankKey, lemma_ranked_members, rank, ranked};
use crate::ranking::{relevance, relevance_of};
use crate::text::{byte_len, push_char, str_eq, text_len};
use vstd::string::StringExecFns;

verus! {

/// One message of a conversation.
#[derive(Debug)]
pub struct Message {
    pub role: String,
    pub content: String,
}

/// Why a history selection failed.
#[derive(Debug, Clone, Copy, PartialEq, Eq)]
pub enum HistoryError {
    /// The size estimate of an exchange does not fit in a `usize`.
    EstimateOverflow,
}

impl HistoryError {
    pub fn message(&self) -> (text: &'static str)
        ensures
            text@ == match self {
                HistoryError::EstimateOverflow => "Estimation de l'historique impossible"@,
            },
    {
        match self {
            HistoryError::EstimateOverflow => "Estimation de l'historique impossible",
        }
    }
}

/// Fixed overhead counted for every message, on top of its UTF-8 size.
pub const MESSAGE_OVERHEAD: usize = 32;

/// Estimated cost of one message.
pub open spec fn message_cost(m: Message) -> nat {
    byte_len(m.content@) + 32
}

/// Estimated cost of a run of messages.
pub open spec fn cost_of(ms: Seq<Message>) -> nat
    decreases ms.len(),
{
    if ms.len() == 0 {
        0
    } else {
        cost_of(ms.drop_last()) + message_cost(ms.last())
    }
}

proof fn lemma_cost_grows(ms: Seq<Message>, k: int)
    requires
        0 <= k <= ms.len(),
    ensures
        cost_of(ms.take(k)) <= cost_of(ms),
    decreases ms.len() - k,
{
    if k < ms.len() {
        lemma_cost_grows(ms, k + 1);
        assert(ms.take(k + 1).drop_last() =~= ms.take(k));
    } else {
        assert(ms.take(k) =~= ms);
    }
}

/// The estimated cost of a run of messages, or an error when it does not fit in a `usize`.
pub fn exchange_cost(messages: &[Message]) -> (r: Result<usize, HistoryError>)
    ensures
        match r {
            Ok(c) => c as nat == cost_of(messages@),
            Err(e) => e == HistoryError::EstimateOverflow && cost_of(messages@) > usize::MAX,
        },
{
    let mut total: usize = 0;
    let mut i: usize = 0;
    proof {
        assert(messages@.take(0) =~= Seq::<Message>::empty());
    }
    while i < messages.len()
        invariant
            i <= messages@.len(),
            total as nat == cost_of(messages@.take(i as int)),
        decreases messages@.len() - i,
    {
        proof {
            assert(messages@.take(i as int + 1).drop_last() =~= messages@.take(i as int));
            lemma_cost_grows(messages@, i as int + 1);
        }
        let size = text_len(messages[i].content.as_str());
        match total.checked_add(size) {
            None => {
                return Err(HistoryError::EstimateOverflow);
            },
            Some(partial) => match partial.checked_add(MESSAGE_OVERHEAD) {
                None => {
                    return Err(HistoryError::EstimateOverflow);
                },
                Some(next) => {
                    total = next;
                },
            },
        }
        i = i + 1;
    }
    proof {
        assert(messages@.take(messages@.len() as int) =~= messages@);
    }
    Ok(total)
}

/// Whether a message was written by the user.
pub open spec fn is_user(m: Message) -> bool {
    m.role@ == "user"@
}

/// Positions of the user messages, in increasing order: each one opens an exchange.
pub open spec fn user_starts(h: Seq<Message>) -> Seq<int>
    decreases h.len(),
{
    if h.len() == 0 {
        Seq::empty()
    } else {
        let s = user_starts(h.drop_last());
        if is_user(h.last()) {
            s.push(h.len() - 1)
        } else {
            s
        }
    }
}

/// First message of exchange `k`.
pub open spec fn exchange_start(h: Seq<Message>, k: int) -> int {
    user_starts(h)[k]
}

/// One past the last message of exchange `k`: the next user message, or the end.
pub open spec fn exchange_end(h: Seq<Message>, k: int) -> int {
    if k + 1 < user_starts(h).len() {
        user_starts(h)[k + 1]
    } else {
        h.len() as int
    }
}

/// The messages of exchange `k`.
pub open spec fn exchange_group(h: Seq<Message>, k: int) -> Seq<Message> {
    h.subrange(exchange_start(h, k), exchange_end(h, k))
}

/// The contents of a run of messages joined by line feeds.
pub open spec fn joined(ms: Seq<Message>) -> Seq<char>
    decreases ms.len(),
{
    if ms.len() == 0 {
        Seq::empty()
    } else if ms.len() == 1 {
        ms[0].content@
    } else {
        joined(ms.drop_last()).push('\n') + ms.last().content@
    }
}

/// Relevance of exchange `k`: shared terms with the query count four times, those with the
/// role instructions once.
pub open spec fn exchange_score(h: Seq<Message>, query: Seq<char>, role: Seq<char>, k: int) -> nat {
    4 * relevance_of(query, joined(exchange_group(h, k))) + relevance_of(
        role,
        joined(exchange_group(h, k)),
    )
}

/// Rank keys of the exchanges: score first, then the most recent start.
pub open spec fn exchange_keys(h: Seq<Message>, query: Seq<char>, role: Seq<char>) -> Seq<RankKey> {
    Seq::new(
        user_starts(h).len(),
        |k: int|
            RankKey {
                score: exchange_score(h, query, role, k) as usize,
                tie: exchange_start(h, k) as i128,
                slot: k as usize,
            },
    )
}

/// The exchanges kept by walking the rank order and taking each one that still fits.
pub open spec fn chosen(r: Seq<RankKey>, h: Seq<Message>, remaining: nat) -> Set<int>
    decreases r.len(),
{
    if r.len() == 0 {
        Set::empty()
    } else {
        let c = cost_of(exchange_group(h, r[0].slot as int));
        if c <= remaining {
            chosen(r.drop_first(), h, (remaining - c) as nat).insert(r[0].slot as int)
        } else {
            chosen(r.drop_first(), h, remaining)
        }
    }
}

/// The message positions `a, a + 1, ..., b - 1`.
pub open spec fn positions(a: int, b: int) -> Seq<usize> {
    Seq::new((b - a) as nat, |i: int| (a + i) as usize)
}

/// Positions of the messages of the picked exchanges among the first `k`, in increasing order.
pub open spec fn covered(h: Seq<Message>, picked: Set<int>, k: int) -> Seq<usize>
    decreases k,
{
    if k <= 0 {
        Seq::empty()
    } else if picked.contains(k - 1) {
        covered(h, picked, k - 1) + positions(exchange_start(h, k - 1), exchange_end(h, k - 1))
    } else {
        covered(h, picked, k - 1)
    }
}

/// The history selection: whole exchanges, most relevant first and then most recent, as long
/// as they fit in the capacity, returned as message positions in their original order.
pub open spec fn selection(h: Seq<Message>, query: Seq<char>, role: Seq<char>, capacity: nat) -> Seq<usize> {
    covered(
        h,
        chosen(ranked(exchange_keys(h, query, role)), h, capacity),
        user_starts(h).len() as int,
    )
}

/// Some exchange is too large for its size estimate to fit in a `usize`.
pub open spec fn estimate_overflows(h: Seq<Message>) -> bool {
    exists|k: int| 0 <= k < user_starts(h).len() && cost_of(#[trigger] exchange_group(h, k)) > usize::MAX
}


proof fn lemma_user_starts(h: Seq<Message>)
    ensures
        user_starts(h).len() <= h.len(),
        forall|k: int| 0 <= k < user_starts(h).len() ==> 0 <= #[trigger] user_starts(h)[k] < h.len(),
        forall|j: int, k: int|
            0 <= j < k < user_starts(h).len() ==> #[trigger] user_starts(h)[j] < #[trigger] user_starts(h)[k],
    decreases h.len(),
{
    if h.len() > 0 {
        let t = h.drop_last();
        lemma_user_starts(t);
        let s = user_starts(t);
        if is_user(h.last()) {
            assert(user_starts(h) == s.push(h.len() - 1));
        } else {
            assert(user_starts(h) == s);
        }
    }
}

fn user_positions(history: &[Message]) -> (s: Vec<usize>)
    ensures
        s@.len() == user_starts(history@).len(),
        forall|k: int| 0 <= k < s@.len() ==> s@[k] as int == #[trigger] user_starts(history@)[k],
{
    let mut s: Vec<usize> = Vec::new();
    let mut i: usize = 0;
    proof {
        assert(history@.take(0) =~= Seq::<Message>::empty());
    }
    while i < history.len()
        invariant
            i <= history@.len(),
            s@.len() == user_starts(history@.take(i as int)).len(),
            forall|k: int|
                0 <= k < s@.len() ==> s@[k] as int == #[trigger] user_starts(history@.take(i as int))[k],
        decreases history@.len() - i,
    {
        proof {
            assert(history@.take(i as int + 1).drop_last() =~= history@.take(i as int));
        }
        if str_eq(history[i].role.as_str(), "user") {
            s.push(i);
        }
        i = i + 1;
    }
    proof {
        assert(history@.take(history@.len() as int) =~= history@);
    }
    s
}

/// The contents of `messages` joined by line feeds.
fn join_contents(messages: &[Message]) -> (r: String)
    ensures
        r@ == joined(messages@),
{
    let mut out = String::new();
    let mut i: usize = 0;
    proof {
        assert(messages@.take(0) =~= Seq::<Message>::empty());
    }
    while i < messages.len()
        invariant
            i <= messages@.len(),
            out@ == joined(messages@.take(i as int)),
        decreases messages@.len() - i,
    {
        let ghost t = messages@.take(i as int + 1);
        proof {
            assert(t.drop_last() =~= messages@.take(i as int));
        }
        if i > 0 {
            push_char(&mut out, '\n');
        }
        out.append(messages[i].content.as_str());
        proof {
            if i == 0 {
                assert(out@ =~= t[0].content@);
            }
        }
        i = i + 1;
    }
    proof {
        assert(messages@.take(messages@.len() as int) =~= messages@);
    }
    out
}

/// The slots picked in a flag vector.
pub open spec fn flagged(p: Seq<bool>) -> Set<int> {
    Set::new(|k: int| 0 <= k < p.len() && p[k])
}

/// Chooses whole exchanges of `history` for a context of `capacity` estimated bytes: most
/// relevant first (terms shared with the query weigh four times those shared with the role
/// instructions), then most recent, each taken when it still fits. The result lists message
/// positions in their original order. Messages before the first user message belong to no
/// exchange and are never selected.
pub fn select_history(history: &[Message], query: &str, role_instructions: &str, capacity: usize) -> (r: Result<Vec<usize>, HistoryError>)
    requires
        query@.len() + role_instructions@.len() + 4 <= usize::MAX,
    ensures
        match r {
            Ok(selected) => !estimate_overflows(history@) && selected@ == selection(
                history@,
                query@,
                role_instructions@,
                capacity as nat,
            ),
            Err(e) => e == HistoryError::EstimateOverflow && estimate_overflows(history@),
        },
{
    let ghost h = history@;
    let starts = user_positions(history);
    let n = starts.len();
    proof {
        lemma_user_starts(h);
    }
    let mut keys: Vec<RankKey> = Vec::new();
    let mut costs: Vec<usize> = Vec::new();
    let mut k: usize = 0;
    while k < n
        invariant
            n == starts@.len(),
            starts@.len() == user_starts(h).len(),
            forall|j: int| 0 <= j < n ==> starts@[j] as int == #[trigger] user_starts(h)[j],
            forall|j: int| 0 <= j < user_starts(h).len() ==> 0 <= #[trigger] user_starts(h)[j] < h.len(),
            forall|i: int, j: int|
                0 <= i < j < user_starts(h).len() ==> #[trigger] user_starts(h)[i] < #[trigger] user_starts(h)[j],
            h == history@,
            query@.len() + role_instructions@.len() + 4 <= usize::MAX,
            k <= n,
            keys@.len() == k,
            costs@.len() == k,
            forall|j: int| 0 <= j < k ==> #[trigger] keys@[j] == exchange_keys(h, query@, role_instructions@)[j],
            forall|j: int| 0 <= j < k ==> #[trigger] costs@[j] as nat == cost_of(exchange_group(h, j)),
        decreases n - k,
    {
        let start = starts[k];
        let end = if k + 1 < n {
            starts[k + 1]
        } else {
            history.len()
        };
        proof {
            assert(user_starts(h)[k as int] < h.len());
            if k + 1 < n {
                assert(user_starts(h)[k as int] < user_starts(h)[k as int + 1]);
                assert(user_starts(h)[k as int + 1] < h.len());
            }
        }
        let group = &history[start..end];
        proof {
            assert(group@ == exchange_group(h, k as int));
        }
        let cost = match exchange_cost(group) {
            Ok(c) => c,
            Err(e) => {
                return Err(e);
            },
        };
        let text = join_contents(group);
        let a = relevance(query, text.as_str());
        let b = relevance(role_instructions, text.as_str());
        let score = 4 * a + b;
        keys.push(RankKey { score, tie: start as i128, slot: k });
        costs.push(cost);
        k = k + 1;
    }
    proof {
        assert(keys@ =~= exchange_keys(h, query@, role_instructions@));
        assert forall|j: int| 0 <= j < user_starts(h).len() implies cost_of(
            #[trigger] exchange_group(h, j),
        ) <= usize::MAX by {
            assert(costs@[j] as nat == cost_of(exchange_group(h, j)));
        }
        assert(!estimate_overflows(h));
    }
    let order = rank(&keys);
    proof {
        lemma_ranked_members(keys@);
    }
    let mut picked: Vec<bool> = Vec::new();
    let mut j: usize = 0;
    while j < n
        invariant
            j <= n,
            picked@.len() == j,
            forall|i: int| 0 <= i < j ==> !#[trigger] picked@[i],
        decreases n - j,
    {
        picked.push(false);
        j = j + 1;
    }
    proof {
        assert(flagged(picked@) =~= Set::<int>::empty());
        assert(order@.skip(0) =~= order@);
    }
    let mut remaining = capacity;
    let mut i: usize = 0;
    while i < order.len()
        invariant
            n == keys@.len(),
            costs@.len() == n,
            forall|j: int| 0 <= j < n ==> #[trigger] costs@[j] as nat == cost_of(exchange_group(h, j)),
            order@ == ranked(keys@),
            order@.len() == n,
            forall|j: int| 0 <= j < n ==> keys@.contains(#[trigger] order@[j]),
            forall|j: int| 0 <= j < n ==> (#[trigger] keys@[j]).slot == j,
            picked@.len() == n,
            i <= n,
            chosen(order@, h, capacity as nat) == flagged(picked@) + chosen(
                order@.skip(i as int),
                h,
                remaining as nat,
            ),
        decreases n - i,
    {
        let key = order[i];
        proof {
            assert(keys@.contains(order@[i as int]));
            let m = choose|m: int| 0 <= m < n && keys@[m] == key;
            assert(key.slot == m);
            let rest = order@.skip(i as int);
            assert(rest[0] == key);
            assert(rest.drop_first() =~= order@.skip(i as int + 1));
        }
        let c = costs[key.slot];
        if c <= remaining {
            remaining = remaining - c;
            let ghost before = flagged(picked@);
            picked.set(key.slot, true);
            proof {
                assert(flagged(picked@) =~= before.insert(key.slot as int));
                let tail = chosen(order@.skip(i as int + 1), h, remaining as nat);
                assert(before + tail.insert(key.slot as int) =~= flagged(picked@) + tail);
            }
        }
        i = i + 1;
    }
    proof {
        assert(order@.skip(n as int) =~= Seq::<RankKey>::empty());
        assert(flagged(picked@) + Set::<int>::empty() =~= flagged(picked@));
    }
    let ghost picks = flagged(picked@);
    let mut selected: Vec<usize> = Vec::new();
    let mut k: usize = 0;
    while k < n
        invariant
            n == starts@.len(),
            starts@.len() == user_starts(h).len(),
            forall|j: int| 0 <= j < n ==> starts@[j] as int == #[trigger] user_starts(h)[j],
            h == history@,
            picked@.len() == n,
            picks == flagged(picked@),
            k <= n,
            selected@ == covered(h, picks, k as int),
            forall|j: int| 0 <= j < user_starts(h).len() ==> 0 <= #[trigger] user_starts(h)[j] < h.len(),
            forall|i: int, j: int|
                0 <= i < j < user_starts(h).len() ==> #[trigger] user_starts(h)[i] < #[trigger] user_starts(h)[j],
        decreases n - k,
    {
        let start = starts[k];
        let end = if k + 1 < n {
            starts[k + 1]
        } else {
            history.len()
        };
        proof {
            assert(user_starts(h)[k as int] < h.len());
            if k + 1 < n {
                assert(user_starts(h)[k as int] < user_starts(h)[k as int + 1]);
            }
            assert(start as int == exchange_start(h, k as int));
            assert(end as int == exchange_end(h, k as int));
        }
        if picked[k] {
            let ghost base = selected@;
            let mut idx = start;
            proof {
                assert(positions(start as int, start as int) =~= Seq::<usize>::empty());
                assert(base + Seq::<usize>::empty() =~= base);
            }
            while idx < end
                invariant
                    start <= idx <= end,
                    selected@ == base + positions(start as int, idx as int),
                decreases end - idx,
            {
                selected.push(idx);
                proof {
                    assert(positions(start as int, idx as int + 1) =~= positions(start as int, idx as int).push(idx));
                    assert(selected@ =~= base + positions(start as int, idx as int).push(idx));
                }
                idx = idx + 1;
                proof {
                    assert(base + positions(start as int, idx as int - 1).push((idx - 1) as usize)
                        =~= base + positions(start as int, idx as int));
                }
            }
            proof {
                assert(picks.contains(k as int));
                assert(covered(h, picks, k as int + 1) == covered(h, picks, k as int) + positions(
                    start as int,
                    end as int,
                ));
            }
        } else {
            proof {
                assert(!picks.contains(k as int));
                assert(covered(h, picks, k as int + 1) == covered(h, picks, k as int));
            }
        }
        k = k + 1;
    }
    Ok(selected)
}

/// The exchanges taken by the walk over the rank order, in the order they are taken.
pub open spec fn taken(r: Seq<RankKey>, h: Seq<Message>, remaining: nat) -> Seq<int>
    decreases r.len(),
{
    if r.len() == 0 {
        Seq::empty()
    } else {
        let c = cost_of(exchange_group(h, r[0].slot as int));
        if c <= remaining {
            seq![r[0].slot as int] + taken(r.drop_first(), h, (remaining - c) as nat)
        } else {
            taken(r.drop_first(), h, remaining)
        }
    }
}

/// The total estimated cost of some exchanges.
pub open spec fn exchanges_cost(slots: Seq<int>, h: Seq<Message>) -> nat
    decreases slots.len(),
{
    if slots.len() == 0 {
        0
    } else {
        cost_of(exchange_group(h, slots[0])) + exchanges_cost(slots.drop_first(), h)
    }
}

proof fn lemma_walk(r: Seq<RankKey>, h: Seq<Message>, remaining: nat)
    ensures
        chosen(r, h, remaining) == taken(r, h, remaining).to_set(),
        exchanges_cost(taken(r, h, remaining), h) <= remaining,
        forall|i: int| 0 <= i < taken(r, h, remaining).len() ==> exists|j: int| 0 <= j < r.len() && #[trigger] taken(r, h, remaining)[i] == r[j].slot as int,
        r.map_values(|k: RankKey| k.slot as int).no_duplicates() ==> taken(r, h, remaining).no_duplicates(),
    decreases r.len(),
{
    if r.len() > 0 {
        let rest = r.drop_first();
        let c = cost_of(exchange_group(h, r[0].slot as int));
        let slots = r.map_values(|k: RankKey| k.slot as int);
        assert(rest.map_values(|k: RankKey| k.slot as int) =~= slots.drop_first());
        let next: nat = if c <= remaining { (remaining - c) as nat } else { remaining };
        lemma_walk(rest, h, next);
        let t = taken(rest, h, next);
        assert forall|i: int| 0 <= i < t.len() implies exists|j: int| 0 <= j < r.len() && #[trigger] t[i] == r[j].slot as int by {
            let j = choose|j: int| 0 <= j < rest.len() && t[i] == rest[j].slot as int;
            assert(r[j + 1] == rest[j]);
        }
        if c <= remaining {
            let w = seq![r[0].slot as int] + t;
            assert(w.drop_first() =~= t);
            assert(w.to_set() =~= t.to_set().insert(r[0].slot as int)) by {
                assert forall|x: int| w.to_set().contains(x) <==> t.to_set().insert(r[0].slot as int).contains(x) by {
                    if w.to_set().contains(x) {
                        let i = choose|i: int| 0 <= i < w.len() && w[i] == x;
                        if i > 0 {
                            assert(t[i - 1] == x);
                        }
                    }
                    if t.to_set().contains(x) {
                        let i = choose|i: int| 0 <= i < t.len() && t[i] == x;
                        assert(w[i + 1] == x);
                    }
                    if x == r[0].slot as int {
                        assert(w[0] == x);
                    }
                }
            }
            assert forall|i: int| 0 <= i < w.len() implies exists|j: int| 0 <= j < r.len() && #[trigger] w[i] == r[j].slot as int by {
                if i > 0 {
                    assert(w[i] == t[i - 1]);
                } else {
                    assert(w[0] == r[0].slot as int);
                }
            }
            if slots.no_duplicates() {
                assert forall|i: int, j: int| 0 <= i < j < w.len() implies w[i] != w[j] by {
                    if i == 0 {
                        let m = choose|m: int| 0 <= m < rest.len() && t[j - 1] == rest[m].slot as int;
                        assert(slots[m + 1] == t[j - 1]);
                        assert(slots[0] == w[0]);
                    } else {
                        assert(w[i] == t[i - 1] && w[j] == t[j - 1]);
                    }
                }
            }
        }
    } else {
        assert(taken(r, h, remaining).to_set() =~= Set::<int>::empty());
    }
}

proof fn lemma_exchange_rank_distinct(h: Seq<Message>, query: Seq<char>, role: Seq<char>)
    requires
        h.len() <= usize::MAX,
    ensures
        ranked(exchange_keys(h, query, role)).map_values(|k: RankKey| k.slot as int).no_duplicates(),
        ranked(exchange_keys(h, query, role)).len() == user_starts(h).len(),
        forall|i: int|
            0 <= i < user_starts(h).len() ==> {
                let k = #[trigger] ranked(exchange_keys(h, query, role))[i];
                &&& 0 <= k.slot < user_starts(h).len()
                &&& exchange_keys(h, query, role)[k.slot as int] == k
            },
{
    let keys = exchange_keys(h, query, role);
    let r = ranked(keys);
    lemma_user_starts(h);
    lemma_ranked_members(keys);
    crate::order::lemma_ranked_is_sorted_permutation(keys);
    assert(keys.no_duplicates()) by {
        assert forall|i: int, j: int| 0 <= i < j < keys.len() implies keys[i] != keys[j] by {
            assert(keys[i].slot == i && keys[j].slot == j);
        }
    }
    keys.lemma_multiset_has_no_duplicates();
    r.lemma_multiset_has_no_duplicates_conv();
    assert forall|i: int| 0 <= i < user_starts(h).len() implies {
        let k = #[trigger] r[i];
        &&& 0 <= k.slot < user_starts(h).len()
        &&& keys[k.slot as int] == k
    } by {
        assert(keys.contains(r[i]));
        let a = choose|a: int| 0 <= a < keys.len() && keys[a] == r[i];
        assert(keys[a].slot == a);
    }
    let slots = r.map_values(|k: RankKey| k.slot as int);
    assert forall|i: int, j: int| 0 <= i < j < slots.len() implies slots[i] != slots[j] by {
        assert(keys.contains(r[i]));
        assert(keys.contains(r[j]));
        let a = choose|a: int| 0 <= a < keys.len() && keys[a] == r[i];
        let b = choose|b: int| 0 <= b < keys.len() && keys[b] == r[j];
        assert(keys[a].slot == a && keys[b].slot == b);
    }
}

/// Relevance first, recency next: in the order the selection walks, each exchange is either
/// more relevant than every later one, or as relevant and more recent. So when no exchange
/// shares a term with the query or the role, the most recent exchanges come first.
pub proof fn lemma_relevance_then_recency(h: Seq<Message>, query: Seq<char>, role: Seq<char>)
    requires
        h.len() <= usize::MAX,
        query.len() + role.len() + 4 <= usize::MAX,
    ensures
        ({
            let r = ranked(exchange_keys(h, query, role));
            forall|i: int, j: int|
                0 <= i < j < r.len() ==> {
                    let a = #[trigger] r[i].slot as int;
                    let b = #[trigger] r[j].slot as int;
                    ||| exchange_score(h, query, role, a) > exchange_score(h, query, role, b)
                    ||| (exchange_score(h, query, role, a) == exchange_score(h, query, role, b)
                        && exchange_start(h, a) > exchange_start(h, b))
                }
        }),
{
    let keys = exchange_keys(h, query, role);
    let r = ranked(keys);
    lemma_exchange_rank_distinct(h, query, role);
    crate::order::lemma_ranked_is_sorted_permutation(keys);
    lemma_user_starts(h);
    assert forall|i: int, j: int| 0 <= i < j < r.len() implies {
        let a = #[trigger] r[i].slot as int;
        let b = #[trigger] r[j].slot as int;
        ||| exchange_score(h, query, role, a) > exchange_score(h, query, role, b)
        ||| (exchange_score(h, query, role, a) == exchange_score(h, query, role, b)
            && exchange_start(h, a) > exchange_start(h, b))
    } by {
        let a = r[i].slot as int;
        let b = r[j].slot as int;
        assert(!crate::order::precedes(r[j], r[i]));
        assert(keys[a] == r[i]);
        assert(keys[b] == r[j]);
        let slots = r.map_values(|k: RankKey| k.slot as int);
        assert(slots[i] != slots[j]);
        lemma_score_fits(h, query, role, a);
        lemma_score_fits(h, query, role, b);
        if a < b {
            assert(user_starts(h)[a] < user_starts(h)[b]);
        } else {
            assert(user_starts(h)[b] < user_starts(h)[a]);
        }
    }
}

proof fn lemma_score_fits(h: Seq<Message>, query: Seq<char>, role: Seq<char>, k: int)
    requires
        query.len() + role.len() + 4 <= usize::MAX,
    ensures
        exchange_score(h, query, role, k) <= usize::MAX,
{
    let text = joined(exchange_group(h, k));
    crate::ranking::lemma_relevance_bounds(query, text);
    crate::ranking::lemma_relevance_bounds(role, text);
    crate::ranking::lemma_term_count(query);
    crate::ranking::lemma_term_count(role);
}

/// The selection keeps within its capacity: the exchanges it takes, each taken once, have a
/// total estimated cost of at most the capacity.
pub proof fn lemma_selection_within_capacity(h: Seq<Message>, query: Seq<char>, role: Seq<char>, capacity: nat)
    requires
        h.len() <= usize::MAX,
    ensures
        ({
            let r = ranked(exchange_keys(h, query, role));
            let t = taken(r, h, capacity);
            &&& t.to_set() == chosen(r, h, capacity)
            &&& t.no_duplicates()
            &&& exchanges_cost(t, h) <= capacity
        }),
{
    lemma_exchange_rank_distinct(h, query, role);
    lemma_walk(ranked(exchange_keys(h, query, role)), h, capacity);
}

/// Message positions `x` with `a <= x < b` in increasing order.
pub open spec fn strictly_increasing(s: Seq<usize>) -> bool {
    forall|i: int, j: int| 0 <= i < j < s.len() ==> s[i] < s[j]
}

proof fn lemma_covered_sorted(h: Seq<Message>, picked: Set<int>, k: int)
    requires
        0 <= k <= user_starts(h).len(),
        h.len() <= usize::MAX,
    ensures
        strictly_increasing(covered(h, picked, k)),
        forall|i: int| 0 <= i < covered(h, picked, k).len() ==> (#[trigger] covered(h, picked, k)[i]) < (
        if k == 0 {
            0
        } else {
            exchange_end(h, k - 1)
        }),
    decreases k,
{
    lemma_user_starts(h);
    if k > 0 {
        lemma_covered_sorted(h, picked, k - 1);
        let prev = covered(h, picked, k - 1);
        let a = exchange_start(h, k - 1);
        let b = exchange_end(h, k - 1);
        assert(a < b) by {
            if k < user_starts(h).len() {
                assert(user_starts(h)[k - 1] < user_starts(h)[k]);
            }
        }
        if k - 1 > 0 {
            assert(exchange_end(h, k - 2) == a);
        }
        if picked.contains(k - 1) {
            let p = positions(a, b);
            let all = prev + p;
            assert forall|i: int, j: int| 0 <= i < j < all.len() implies all[i] < all[j] by {
                if j >= prev.len() && i < prev.len() {
                    assert(all[j] == p[j - prev.len()]);
                }
            }
            assert forall|i: int| 0 <= i < all.len() implies (#[trigger] all[i]) < b by {
                if i < prev.len() {
                    assert(all[i] == prev[i]);
                }
            }
        }
    }
}

/// The selection lists message positions of the history in strictly increasing order.
pub proof fn lemma_selection_sorted(h: Seq<Message>, query: Seq<char>, role: Seq<char>, capacity: nat)
    requires
        h.len() <= usize::MAX,
    ensures
        strictly_increasing(selection(h, query, role, capacity)),
        forall|i: int| 0 <= i < selection(h, query, role, capacity).len() ==> (#[trigger] selection(h, query, role, capacity)[i]) < h.len(),
{
    let n = user_starts(h).len() as int;
    lemma_covered_sorted(h, chosen(ranked(exchange_keys(h, query, role)), h, capacity), n);
    lemma_user_starts(h);
}

/// The weights of the ranking: the selection walks the exchanges by four times the number of
/// terms an exchange shares with the query plus the number it shares with the role
/// instructions, the more recent first among equals. So a term shared with the query outweighs
/// up to three shared with the role instructions, and when the role instructions share no term
/// with two exchanges, the one more relevant to the query comes first.
pub proof fn lemma_rank_weights(h: Seq<Message>, query: Seq<char>, role: Seq<char>)
    requires
        h.len() <= usize::MAX,
        query.len() + role.len() + 4 <= usize::MAX,
    ensures
        ({
            let r = ranked(exchange_keys(h, query, role));
            forall|i: int, j: int|
                0 <= i < j < r.len() ==> {
                    let a = #[trigger] r[i].slot as int;
                    let b = #[trigger] r[j].slot as int;
                    let qa = relevance_of(query, joined(exchange_group(h, a)));
                    let qb = relevance_of(query, joined(exchange_group(h, b)));
                    let ra = relevance_of(role, joined(exchange_group(h, a)));
                    let rb = relevance_of(role, joined(exchange_group(h, b)));
                    &&& 4 * qa + ra >= 4 * qb + rb
                    &&& 4 * qa + ra == 4 * qb + rb ==> exchange_start(h, a) > exchange_start(h, b)
                    &&& !(qb > qa && ra <= rb + 3)
                    &&& ra == 0 && rb == 0 ==> qa >= qb
                }
        }),
{
    lemma_relevance_then_recency(h, query, role);
}

proof fn lemma_walk_leaves_no_room(r: Seq<RankKey>, h: Seq<Message>, remaining: nat)
    ensures
        forall|j: int|
            0 <= j < r.len() && !taken(r, h, remaining).contains(#[trigger] r[j].slot as int) ==> cost_of(
                exchange_group(h, r[j].slot as int),
            ) + exchanges_cost(taken(r, h, remaining), h) > remaining,
    decreases r.len(),
{
    if r.len() > 0 {
        let rest = r.drop_first();
        let c = cost_of(exchange_group(h, r[0].slot as int));
        let next: nat = if c <= remaining { (remaining - c) as nat } else { remaining };
        lemma_walk_leaves_no_room(rest, h, next);
        lemma_walk(rest, h, next);
        let t = taken(rest, h, next);
        let w = taken(r, h, remaining);
        if c <= remaining {
            assert(w == seq![r[0].slot as int] + t);
            assert(w.drop_first() =~= t);
            assert(w[0] == r[0].slot as int);
        }
        assert forall|j: int|
            0 <= j < r.len() && !w.contains(#[trigger] r[j].slot as int) implies cost_of(
                exchange_group(h, r[j].slot as int),
            ) + exchanges_cost(w, h) > remaining by {
            if j > 0 {
                assert(r[j] == rest[j - 1]);
                if c <= remaining && t.contains(r[j].slot as int) {
                    let m = choose|m: int| 0 <= m < t.len() && t[m] == r[j].slot as int;
                    assert(w[m + 1] == t[m]);
                }
            }
        }
    }
}

/// The selection leaves no room for what it skips: every exchange left out costs more than
/// the capacity that the selected exchanges leave over. So a skipped exchange never stops the
/// walk, and when all exchanges fit together, all are selected.
pub proof fn lemma_selection_maximal(h: Seq<Message>, query: Seq<char>, role: Seq<char>, capacity: nat)
    requires
        h.len() <= usize::MAX,
    ensures
        ({
            let r = ranked(exchange_keys(h, query, role));
            let t = taken(r, h, capacity);
            forall|k: int|
                0 <= k < user_starts(h).len() && !chosen(r, h, capacity).contains(k) ==> cost_of(
                    #[trigger] exchange_group(h, k),
                ) + exchanges_cost(t, h) > capacity
        }),
{
    broadcast use vstd::seq_lib::to_multiset_contains;

    let keys = exchange_keys(h, query, role);
    let r = ranked(keys);
    let t = taken(r, h, capacity);
    lemma_walk(r, h, capacity);
    lemma_walk_leaves_no_room(r, h, capacity);
    lemma_user_starts(h);
    crate::order::lemma_ranked_is_sorted_permutation(keys);
    assert forall|k: int|
        0 <= k < user_starts(h).len() && !chosen(r, h, capacity).contains(k) implies cost_of(
            #[trigger] exchange_group(h, k),
        ) + exchanges_cost(t, h) > capacity by {
        assert(keys[k].slot as int == k);
        assert(keys.contains(keys[k]));
        assert(keys.to_multiset().count(keys[k]) > 0);
        assert(r.contains(keys[k]));
        let j = choose|j: int| 0 <= j < r.len() && r[j] == keys[k];
        assert(r[j].slot as int == k);
        assert(!t.to_set().contains(k));
    }
}

} // verus!
