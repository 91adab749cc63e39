use vstd::prelude::*;
use crate::text::{
    char_is_alphanumeric, is_alphanumeric, lemma_text_before_order, lowercase, push_char, str_eq,
    text_before, text_less, to_lowercase,
};

verus! {

/// The pieces of `s` between non-alphanumeric characters, as `str::split` yields them
/// (empty pieces included, so there is one piece more than there are separators).
pub open spec fn pieces(s: Seq<char>) -> Seq<Seq<char>>
    decreases s.len(),
{
    if s.len() == 0 {
        seq![Seq::empty()]
    } else {
        let p = pieces(s.drop_last());
        let c = s.last();
        if is_alphanumeric(c) {
            p.update(p.len() - 1, p.last().push(c))
        } else {
            p.push(Seq::empty())
        }
    }
}

/// Words that carry no meaning for relevance.
pub open spec fn stop_word(t: Seq<char>) -> bool {
    ||| t == "avec"@
    ||| t == "dans"@
    ||| t == "pour"@
    ||| t == "cette"@
    ||| t == "comme"@
    ||| t == "mais"@
    ||| t == "plus"@
    ||| t == "the"@
    ||| t == "and"@
    ||| t == "for"@
    ||| t == "with"@
    ||| t == "from"@
    ||| t == "that"@
    ||| t == "this"@
}

/// A piece counts as a term when it has at least three characters and its lowercase
/// form is not a stop word.
pub open spec fn keeps(piece: Seq<char>) -> bool {
    piece.len() >= 3 && !stop_word(lowercase(piece))
}

/// The lowercase forms of the kept pieces.
pub open spec fn term_set(ps: Seq<Seq<char>>) -> Set<Seq<char>>
    decreases ps.len(),
{
    if ps.len() == 0 {
        Set::empty()
    } else {
        let rest = term_set(ps.drop_last());
        if keeps(ps.last()) {
            rest.insert(lowercase(ps.last()))
        } else {
            rest
        }
    }
}

/// The terms of a text.
pub open spec fn terms_of(text: Seq<char>) -> Set<Seq<char>> {
    term_set(pieces(text))
}

/// Lexical relevance: how many terms two texts share.
pub open spec fn relevance_of(query: Seq<char>, exchange: Seq<char>) -> nat {
    terms_of(query).intersect(terms_of(exchange)).len()
}

/// The views of a sequence of strings.
pub open spec fn views(v: Seq<String>) -> Seq<Seq<char>> {
    v.map_values(|s: String| s@)
}

proof fn lemma_pieces_nonempty(s: Seq<char>)
    ensures
        pieces(s).len() >= 1,
    decreases s.len(),
{
    if s.len() > 0 {
        lemma_pieces_nonempty(s.drop_last());
    }
}

proof fn lemma_term_set_finite(ps: Seq<Seq<char>>)
    ensures
        term_set(ps).finite(),
    decreases ps.len(),
{
    if ps.len() > 0 {
        lemma_term_set_finite(ps.drop_last());
    }
}

fn is_stop_word(t: &str) -> (b: bool)
    ensures
        b == stop_word(t@),
{
    str_eq(t, "avec") || str_eq(t, "dans") || str_eq(t, "pour") || str_eq(t, "cette")
        || str_eq(t, "comme") || str_eq(t, "mais") || str_eq(t, "plus") || str_eq(t, "the")
        || str_eq(t, "and") || str_eq(t, "for") || str_eq(t, "with") || str_eq(t, "from")
        || str_eq(t, "that") || str_eq(t, "this")
}

fn contains_text(v: &Vec<String>, t: &String) -> (b: bool)
    ensures
        b == views(v@).contains(t@),
{
    let mut i: usize = 0;
    while i < v.len()
        invariant
            i <= v@.len(),
            forall|j: int| 0 <= j < i ==> v@[j]@ != t@,
        decreases v@.len() - i,
    {
        if str_eq(v[i].as_str(), t.as_str()) {
            assert(views(v@)[i as int] == t@);
            return true;
        }
        i = i + 1;
    }
    proof {
        if views(v@).contains(t@) {
            let k = choose|k: int| 0 <= k < views(v@).len() && views(v@)[k] == t@;
            assert(v@[k]@ == t@);
        }
    }
    false
}

/// Texts in strictly increasing order of `str`.
pub open spec fn ascending(v: Seq<Seq<char>>) -> bool {
    forall|i: int, j: int| 0 <= i < j < v.len() ==> text_before(#[trigger] v[i], #[trigger] v[j])
}

proof fn lemma_ascending_distinct(v: Seq<Seq<char>>)
    requires
        ascending(v),
    ensures
        v.no_duplicates(),
{
    assert forall|i: int, j: int| 0 <= i < v.len() && 0 <= j < v.len() && i != j implies v[i]
        != v[j] by {
        lemma_text_before_order(v[i], v[j], v[j]);
        lemma_text_before_order(v[j], v[i], v[i]);
    }
}

/// Adds the term of a finished piece to `found`, at its place in the order, unless it is
/// dropped or already there.
fn add_piece(found: &mut Vec<String>, piece: &String, count: usize)
    requires
        count as nat == if piece@.len() < 3 { piece@.len() } else { 3 },
        ascending(views(old(found)@)),
    ensures
        ascending(views(final(found)@)),
        views(final(found)@).to_set() == if keeps(piece@) {
            views(old(found)@).to_set().insert(lowercase(piece@))
        } else {
            views(old(found)@).to_set()
        },
        final(found)@.len() <= old(found)@.len() + 1,
        count < 3 ==> final(found)@.len() == old(found)@.len(),
{
    if count >= 3 {
        let lower = to_lowercase(piece.as_str());
        if !is_stop_word(lower.as_str()) {
            let ghost before = views(found@);
            let ghost x = lower@;
            let mut j: usize = 0;
            while j < found.len() && text_less(found[j].as_str(), lower.as_str())
                invariant
                    before == views(found@),
                    x == lower@,
                    j <= found@.len(),
                    forall|k: int| 0 <= k < j ==> text_before(#[trigger] before[k], x),
                decreases found@.len() - j,
            {
                j = j + 1;
            }
            if j < found.len() && str_eq(found[j].as_str(), lower.as_str()) {
                proof {
                    assert(before[j as int] == x);
                    assert(before.to_set().insert(x) =~= before.to_set());
                }
            } else {
                proof {
                    if j < before.len() {
                        lemma_text_before_order(before[j as int], x, x);
                        assert forall|k: int| j <= k < before.len() implies text_before(
                            x,
                            #[trigger] before[k],
                        ) by {
                            if k > j {
                                lemma_text_before_order(x, before[j as int], before[k]);
                            }
                        }
                    }
                    assert forall|k: int| 0 <= k < before.len() implies #[trigger] before[k]
                        != x by {
                        lemma_text_before_order(x, x, x);
                        if k >= j {
                            assert(text_before(x, before[k]));
                        } else {
                            assert(text_before(before[k], x));
                        }
                    }
                }
                found.insert(j, lower);
                proof {
                    let after = before.insert(j as int, x);
                    before.insert_ensures(j as int, x);
                    assert(views(found@) =~= after);
                    assert forall|a: int, b: int| 0 <= a < b < after.len() implies text_before(
                        #[trigger] after[a],
                        #[trigger] after[b],
                    ) by {
                        if b < j {
                            assert(after[a] == before[a] && after[b] == before[b]);
                        } else if b == j {
                            assert(after[a] == before[a]);
                        } else if a < j {
                            assert(after[a] == before[a] && after[b] == before[b - 1]);
                        } else if a == j {
                            assert(after[b] == before[b - 1]);
                        } else {
                            assert(after[a] == before[a - 1] && after[b] == before[b - 1]);
                        }
                    }
                    assert forall|e: Seq<char>| #[trigger] after.to_set().contains(e)
                        <==> before.to_set().insert(x).contains(e) by {
                        if after.contains(e) {
                            let k = choose|k: int| 0 <= k < after.len() && after[k] == e;
                            if k < j {
                                assert(before[k] == e);
                            } else if k > j {
                                assert(before[k - 1] == e);
                            }
                        }
                        if before.contains(e) {
                            let k = choose|k: int| 0 <= k < before.len() && before[k] == e;
                            if k < j {
                                assert(after[k] == e);
                            } else {
                                assert(after[k + 1] == e);
                            }
                        }
                        if e == x {
                            assert(after[j as int] == e);
                        }
                    }
                    assert(after.to_set() =~= before.to_set().insert(x));
                }
            }
        }
    }
}

/// The distinct terms of a text, each once, in increasing order (the order of a
/// `BTreeSet<String>`).
pub fn terms(text: &str) -> (found: Vec<String>)
    ensures
        ascending(views(found@)),
        views(found@).no_duplicates(),
        views(found@).to_set() == terms_of(text@),
        4 * found@.len() <= text@.len() + 2,
{
    let mut found: Vec<String> = Vec::new();
    let mut current = String::new();
    let mut count: usize = 0;
    proof {
        assert(text@.take(0) =~= Seq::<char>::empty());
        assert(views(found@).to_set() =~= Set::<Seq<char>>::empty());
        assert(pieces(Seq::<char>::empty()).drop_last() =~= Seq::<Seq<char>>::empty());
    }
    for c in it: text.chars()
        invariant
            it.seq() == text@,
            ascending(views(found@)),
            pieces(text@.take(it.index() as int)).len() >= 1,
            current@ == pieces(text@.take(it.index() as int)).last(),
            count as nat == if current@.len() < 3 { current@.len() } else { 3 },
            views(found@).to_set() == term_set(pieces(text@.take(it.index() as int)).drop_last()),
            4 * found@.len() + current@.len() <= it.index() + 1,
    {
        let ghost i = it.index() as int;
        let ghost before = text@.take(i);
        let ghost after = text@.take(i + 1);
        proof {
            assert(after.drop_last() =~= before);
            assert(after.last() == c);
            lemma_pieces_nonempty(before);
        }
        if char_is_alphanumeric(c) {
            push_char(&mut current, c);
            if count < 3 {
                count = count + 1;
            }
            proof {
                let p = pieces(before);
                assert(pieces(after) == p.update(p.len() - 1, p.last().push(c)));
                assert(pieces(after).drop_last() =~= p.drop_last());
            }
        } else {
            add_piece(&mut found, &current, count);
            current = String::new();
            count = 0;
            proof {
                let p = pieces(before);
                assert(pieces(after) == p.push(Seq::empty()));
                assert(pieces(after).drop_last() =~= p);
                assert(p.drop_last() =~= p.drop_last());
            }
        }
    }
    proof {
        assert(text@.take(text@.len() as int) =~= text@);
        lemma_pieces_nonempty(text@);
    }
    add_piece(&mut found, &current, count);
    proof {
        lemma_ascending_distinct(views(found@));
    }
    found
}

proof fn lemma_views_set_len(v: Seq<String>)
    requires
        views(v).no_duplicates(),
    ensures
        views(v).to_set().len() == v.len(),
{
    views(v).unique_seq_to_set();
}

/// The number of terms two texts share (none when the query has no term).
pub fn relevance(query: &str, exchange: &str) -> (r: usize)
    ensures
        r == relevance_of(query@, exchange@),
        4 * r <= query@.len() + 2,
{
    let query_terms = terms(query);
    proof {
        lemma_views_set_len(query_terms@);
        lemma_term_set_finite(pieces(query@));
        lemma_term_set_finite(pieces(exchange@));
    }
    if query_terms.len() == 0 {
        proof {
            assert(terms_of(query@).len() == 0);
            assert(terms_of(query@) =~= Set::<Seq<char>>::empty());
            assert(terms_of(query@).intersect(terms_of(exchange@)) =~= Set::<Seq<char>>::empty());
        }
        return 0;
    }
    let exchange_terms = terms(exchange);
    let ghost e = terms_of(exchange@);
    let mut shared: usize = 0;
    let mut i: usize = 0;
    proof {
        assert(views(query_terms@).take(0).to_set() =~= Set::<Seq<char>>::empty());
        assert(Set::<Seq<char>>::empty().intersect(e) =~= Set::<Seq<char>>::empty());
    }
    while i < query_terms.len()
        invariant
            i <= query_terms@.len(),
            views(query_terms@).no_duplicates(),
            views(exchange_terms@).to_set() == e,
            e.finite(),
            shared as nat == views(query_terms@).take(i as int).to_set().intersect(e).len(),
            shared <= i,
        decreases query_terms@.len() - i,
    {
        let ghost q = views(query_terms@);
        let ghost prev = q.take(i as int).to_set().intersect(e);
        proof {
            assert(q.take(i as int + 1) =~= q.take(i as int).push(q[i as int]));
            q.take(i as int).lemma_push_to_set_commute(q[i as int]);
            assert(!q.take(i as int).to_set().contains(q[i as int])) by {
                if q.take(i as int).to_set().contains(q[i as int]) {
                    let k = choose|k: int| 0 <= k < i && q.take(i as int)[k] == q[i as int];
                    assert(q[k] == q[i as int]);
                }
            }
            vstd::seq_lib::seq_to_set_is_finite(q.take(i as int));
            assert(prev.finite());
        }
        if contains_text(&exchange_terms, &query_terms[i]) {
            proof {
                assert(q[i as int] == query_terms@[i as int]@);
                assert(e.contains(q[i as int]));
                assert(q.take(i as int + 1).to_set().intersect(e) =~= prev.insert(q[i as int]));
            }
            shared = shared + 1;
        } else {
            proof {
                assert(!e.contains(q[i as int]));
                assert(q.take(i as int + 1).to_set().intersect(e) =~= prev);
            }
        }
        i = i + 1;
    }
    proof {
        assert(views(query_terms@).take(query_terms@.len() as int) =~= views(query_terms@));
    }
    shared
}

/// Relevance is symmetric: two texts share as many terms whichever is the query.
pub proof fn lemma_relevance_symmetric(a: Seq<char>, b: Seq<char>)
    ensures
        relevance_of(a, b) == relevance_of(b, a),
{
    assert(terms_of(a).intersect(terms_of(b)) =~= terms_of(b).intersect(terms_of(a)));
}

/// Relevance never exceeds the number of terms of the query, and a text shares all of its
/// terms with itself.
pub proof fn lemma_relevance_bounds(query: Seq<char>, exchange: Seq<char>)
    ensures
        relevance_of(query, exchange) <= terms_of(query).len(),
        relevance_of(query, query) == terms_of(query).len(),
{
    lemma_term_set_finite(pieces(query));
    lemma_term_set_finite(pieces(exchange));
    vstd::set_lib::lemma_len_intersect(terms_of(query), terms_of(exchange));
    assert(terms_of(query).intersect(terms_of(query)) =~= terms_of(query));
}

proof fn lemma_term_set_step(ps: Seq<Seq<char>>)
    requires
        ps.len() >= 1,
    ensures
        term_set(ps).len() <= term_set(ps.drop_last()).len() + (if keeps(ps.last()) { 1int } else { 0int }),
{
    lemma_term_set_finite(ps.drop_last());
}

proof fn lemma_term_count_prefix(s: Seq<char>)
    ensures
        pieces(s).len() >= 1,
        4 * term_set(pieces(s).drop_last()).len() + pieces(s).last().len() <= s.len() + 1,
    decreases s.len(),
{
    lemma_pieces_nonempty(s);
    if s.len() > 0 {
        let t = s.drop_last();
        lemma_term_count_prefix(t);
        let p = pieces(t);
        let c = s.last();
        if is_alphanumeric(c) {
            assert(pieces(s).drop_last() =~= p.drop_last());
        } else {
            assert(pieces(s).drop_last() =~= p);
            lemma_term_set_step(p);
        }
    }
}

/// A text of `n` characters has at most `(n + 2) / 4` terms: each term takes at least three
/// characters and is followed by a separator.
pub proof fn lemma_term_count(text: Seq<char>)
    ensures
        4 * terms_of(text).len() <= text.len() + 2,
{
    lemma_term_count_prefix(text);
    lemma_term_set_step(pieces(text));
}

proof fn lemma_term_set_kept(ps: Seq<Seq<char>>, t: Seq<char>)
    requires
        term_set(ps).contains(t),
    ensures
        exists|i: int| 0 <= i < ps.len() && keeps(#[trigger] ps[i]) && lowercase(ps[i]) == t,
    decreases ps.len(),
{
    let rest = ps.drop_last();
    if keeps(ps.last()) && lowercase(ps.last()) == t {
        assert(ps[ps.len() - 1] == ps.last());
    } else {
        lemma_term_set_kept(rest, t);
        let i = choose|i: int| 0 <= i < rest.len() && keeps(#[trigger] rest[i]) && lowercase(rest[i]) == t;
        assert(ps[i] == rest[i]);
    }
}

/// No term is a stop word: the fourteen words `avec`, `dans`, `pour`, `cette`, `comme`, `mais`,
/// `plus`, `the`, `and`, `for`, `with`, `from`, `that` and `this` are dropped whatever their
/// case, so they never count toward relevance.
pub proof fn lemma_stop_words_dropped(text: Seq<char>)
    ensures
        forall|t: Seq<char>|
            #[trigger] terms_of(text).contains(t) ==> {
                &&& t != "avec"@
                &&& t != "dans"@
                &&& t != "pour"@
                &&& t != "cette"@
                &&& t != "comme"@
                &&& t != "mais"@
                &&& t != "plus"@
                &&& t != "the"@
                &&& t != "and"@
                &&& t != "for"@
                &&& t != "with"@
                &&& t != "from"@
                &&& t != "that"@
                &&& t != "this"@
            },
{
    assert forall|t: Seq<char>| #[trigger] terms_of(text).contains(t) implies !stop_word(t) by {
        lemma_term_set_kept(pieces(text), t);
    }
}

proof fn lemma_term_set_has(ps: Seq<Seq<char>>, i: int)
    requires
        0 <= i < ps.len(),
        keeps(ps[i]),
    ensures
        term_set(ps).contains(lowercase(ps[i])),
    decreases ps.len(),
{
    if i < ps.len() - 1 {
        let rest = ps.drop_last();
        assert(rest[i] == ps[i]);
        lemma_term_set_has(rest, i);
    }
}

/// What the terms of a text are: the lowercase forms of its pieces of at least three
/// characters, except those that are one of the fourteen stop words; each such piece gives a
/// term, and every term comes from such a piece.
pub proof fn lemma_terms_exact(text: Seq<char>)
    ensures
        forall|i: int|
            0 <= i < pieces(text).len() && pieces(text)[i].len() >= 3 && {
                let t = lowercase(#[trigger] pieces(text)[i]);
                &&& t != "avec"@
                &&& t != "dans"@
                &&& t != "pour"@
                &&& t != "cette"@
                &&& t != "comme"@
                &&& t != "mais"@
                &&& t != "plus"@
                &&& t != "the"@
                &&& t != "and"@
                &&& t != "for"@
                &&& t != "with"@
                &&& t != "from"@
                &&& t != "that"@
                &&& t != "this"@
            } ==> terms_of(text).contains(lowercase(pieces(text)[i])),
        forall|t: Seq<char>|
            #[trigger] terms_of(text).contains(t) ==> exists|i: int|
                0 <= i < pieces(text).len() && (#[trigger] pieces(text)[i]).len() >= 3 && lowercase(pieces(text)[i]) == t,
{
    let ps = pieces(text);
    assert forall|i: int| 0 <= i < ps.len() && ps[i].len() >= 3 && !stop_word(lowercase(#[trigger] ps[i])) implies terms_of(
        text,
    ).contains(lowercase(ps[i])) by {
        lemma_term_set_has(ps, i);
    }
    assert forall|t: Seq<char>| #[trigger] terms_of(text).contains(t) implies exists|i: int|
        0 <= i < ps.len() && (#[trigger] ps[i]).len() >= 3 && lowercase(ps[i]) == t by {
        lemma_term_set_kept(ps, t);
    }
}

} // verus!
