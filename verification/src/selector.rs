//! The searchable picker: its rows, how a typed query filters and ranks
//! them, and the state machine that keystrokes drive.

use vstd::prelude::*;
use crate::order::{
    insert_by, is_sorted, is_total, is_transitive, lemma_insert_position, lemma_sort_members,
    lemma_sort_sorted, stable_sort,
};
use crate::text::{chars_of, string_of, views};

verus! {

/// One row of the picker.
#[derive(Debug, PartialEq, Eq)]
pub struct SelectItem {
    /// The line shown to the user.
    pub display: String,
    /// The text a query is matched against.
    pub search_text: String,
    /// What the picker returns when the row is chosen.
    pub data: String,
}

/// A `SelectItem` as a mathematical value.
pub struct SelectItemView {
    pub display: Seq<char>,
    pub search_text: Seq<char>,
    pub data: Seq<char>,
}

impl View for SelectItem {
    type V = SelectItemView;

    open spec fn view(&self) -> SelectItemView {
        SelectItemView { display: self.display@, search_text: self.search_text@, data: self.data@ }
    }
}

impl Clone for SelectItem {
    fn clone(&self) -> (out: Self)
        ensures
            out@ == self@,
    {
        SelectItem {
            display: self.display.clone(),
            search_text: self.search_text.clone(),
            data: self.data.clone(),
        }
    }
}

/// Whether `query` stands in `text` at position `p`, character for character.
pub open spec fn occurs_at(query: Seq<char>, text: Seq<char>, p: int) -> bool {
    0 <= p && p + query.len() <= text.len() && text.subrange(p, p + query.len()) == query
}

/// The first position at or after `p` where `query` stands in `text`.
pub open spec fn find_from(query: Seq<char>, text: Seq<char>, p: int) -> Option<int>
    decreases text.len() - p + 1,
{
    if p < 0 || p + query.len() > text.len() {
        None
    } else if occurs_at(query, text, p) {
        Some(p)
    } else {
        find_from(query, text, p + 1)
    }
}

/// The first position where `query` stands in `text`.
pub open spec fn first_occurrence(query: Seq<char>, text: Seq<char>) -> Option<int> {
    find_from(query, text, 0)
}

/// Whether the characters of `query` from `qi` on occur in `text` from `ti`
/// on, in their order, with any characters between them.
pub open spec fn embeds_from(query: Seq<char>, text: Seq<char>, qi: int, ti: int) -> bool
    decreases text.len() - ti,
{
    if qi < 0 || qi >= query.len() {
        true
    } else if ti < 0 || ti >= text.len() {
        false
    } else if query[qi] == text[ti] {
        embeds_from(query, text, qi + 1, ti + 1)
    } else {
        embeds_from(query, text, qi, ti + 1)
    }
}

/// Whether `text` matches `query`: the characters of the query occur in
/// the text in their order.
pub open spec fn embeds(query: Seq<char>, text: Seq<char>) -> bool {
    embeds_from(query, text, 0, 0)
}

/// How well a text matches a query.
pub struct Score {
    /// Whether the query stands in the text as one piece.
    pub contiguous: bool,
    /// Where the match starts in the text.
    pub position: nat,
}

/// The quality of the match of `text` with `query`, if it matches. A query
/// that stands in the text as one piece is scored at its first such place;
/// any other match is scored where its first character is first found.
pub open spec fn score(query: Seq<char>, text: Seq<char>) -> Option<Score> {
    if !embeds(query, text) {
        None
    } else {
        match first_occurrence(query, text) {
            Some(p) => Some(Score { contiguous: true, position: p as nat }),
            None => Some(
                Score {
                    contiguous: false,
                    position: match first_occurrence(seq![query[0]], text) {
                        Some(p) => p as nat,
                        None => 0,
                    },
                },
            ),
        }
    }
}

/// Whether the match `a` is strictly better than the match `b`: one piece
/// beats scattered characters, and of two matches of one kind the earlier
/// one wins.
pub open spec fn better(a: Score, b: Score) -> bool {
    (a.contiguous && !b.contiguous) || (a.contiguous == b.contiguous && a.position < b.position)
}

/// The quality of row `i`.
pub open spec fn quality(texts: Seq<Seq<char>>, query: Seq<char>, i: int) -> Score {
    score(query, texts[i])->Some_0
}

/// The order of rows: by quality of match, and among rows of equal quality
/// by their place in the list.
pub open spec fn by_rank(texts: Seq<Seq<char>>, query: Seq<char>) -> spec_fn(int, int) -> bool {
    |a: int, b: int|
        better(quality(texts, query, a), quality(texts, query, b)) || (!better(
            quality(texts, query, b),
            quality(texts, query, a),
        ) && a <= b)
}

/// The rows among the first `n` that match `query`, in list order.
pub open spec fn matching_upto(texts: Seq<Seq<char>>, query: Seq<char>, n: int) -> Seq<int>
    decreases n,
{
    if n <= 0 {
        Seq::empty()
    } else {
        let before = matching_upto(texts, query, n - 1);
        if score(query, texts[n - 1]) is Some {
            before.push(n - 1)
        } else {
            before
        }
    }
}

/// The rows that match `query`, in list order.
pub open spec fn matching(texts: Seq<Seq<char>>, query: Seq<char>) -> Seq<int> {
    matching_upto(texts, query, texts.len() as int)
}

/// The rows shown for `query`: those that match, best match first.
pub open spec fn ranking(texts: Seq<Seq<char>>, query: Seq<char>) -> Seq<int> {
    stable_sort(matching(texts, query), by_rank(texts, query))
}

/// The positions held in `v`, as mathematical integers.
pub open spec fn indices(v: Seq<usize>) -> Seq<int> {
    Seq::new(v.len(), |k: int| v[k] as int)
}

/// Whether row `a` has to stand above row `b`: its match is better, or as
/// good while it stands earlier in the list.
pub open spec fn outranks(texts: Seq<Seq<char>>, query: Seq<char>, a: int, b: int) -> bool {
    better(quality(texts, query, a), quality(texts, query, b)) || (quality(texts, query, a)
        == quality(texts, query, b) && a < b)
}

/// The order of rows relates any two rows, and is transitive.
pub proof fn lemma_by_rank_orders(texts: Seq<Seq<char>>, query: Seq<char>)
    ensures
        is_total(by_rank(texts, query)),
        is_transitive(by_rank(texts, query)),
{
}

/// A row matches exactly if it is among the matching rows.
pub proof fn lemma_matching_members(texts: Seq<Seq<char>>, query: Seq<char>, n: int, i: int)
    requires
        0 <= n <= texts.len(),
    ensures
        matching_upto(texts, query, n).contains(i) <==> 0 <= i < n && score(query, texts[i])
            is Some,
    decreases n,
{
    if n > 0 {
        let before = matching_upto(texts, query, n - 1);
        let all = matching_upto(texts, query, n);
        lemma_matching_members(texts, query, n - 1, i);
        if all.contains(i) {
            let k = all.index_of(i);
            if k < before.len() {
                assert(before[k] == i);
            }
        }
        if 0 <= i < n && score(query, texts[i]) is Some {
            if i == n - 1 {
                assert(all[before.len() as int] == i);
            } else {
                let k = before.index_of(i);
                assert(all[k] == i);
            }
        }
    }
}

/// The rows shown are exactly the rows that match: none is left out, and
/// none is shown that does not match.
pub proof fn lemma_ranking_members(texts: Seq<Seq<char>>, query: Seq<char>, i: int)
    ensures
        ranking(texts, query).contains(i) <==> 0 <= i < texts.len() && score(query, texts[i])
            is Some,
{
    lemma_sort_members(matching(texts, query), by_rank(texts, query), i);
    lemma_matching_members(texts, query, texts.len() as int, i);
}

/// Of two rows shown, the one that outranks the other stands above it.
pub proof fn lemma_ranking_order(texts: Seq<Seq<char>>, query: Seq<char>, x: int, y: int)
    requires
        0 <= x < ranking(texts, query).len(),
        0 <= y < ranking(texts, query).len(),
        outranks(texts, query, ranking(texts, query)[x], ranking(texts, query)[y]),
    ensures
        x < y,
{
    let rows = ranking(texts, query);
    lemma_by_rank_orders(texts, query);
    lemma_sort_sorted(matching(texts, query), by_rank(texts, query));
    if y < x {
        assert(by_rank(texts, query)(rows[y], rows[x]));
    }
}

/// A row in which the query stands as one piece is shown above every row
/// that matches only with characters between.
pub proof fn lemma_exact_above_fuzzy(texts: Seq<Seq<char>>, query: Seq<char>, x: int, y: int)
    requires
        0 <= x < ranking(texts, query).len(),
        0 <= y < ranking(texts, query).len(),
        quality(texts, query, ranking(texts, query)[x]).contiguous,
        !quality(texts, query, ranking(texts, query)[y]).contiguous,
    ensures
        x < y,
{
    lemma_ranking_order(texts, query, x, y);
}

/// Of two matches of the same kind, the one that starts earlier in its text
/// is shown above the other.
pub proof fn lemma_earlier_above_later(texts: Seq<Seq<char>>, query: Seq<char>, x: int, y: int)
    requires
        0 <= x < ranking(texts, query).len(),
        0 <= y < ranking(texts, query).len(),
        quality(texts, query, ranking(texts, query)[x]).contiguous == quality(
            texts,
            query,
            ranking(texts, query)[y],
        ).contiguous,
        quality(texts, query, ranking(texts, query)[x]).position < quality(
            texts,
            query,
            ranking(texts, query)[y],
        ).position,
    ensures
        x < y,
{
    lemma_ranking_order(texts, query, x, y);
}

/// Rows that match equally well are shown in the order of the list.
pub proof fn lemma_ties_keep_list_order(texts: Seq<Seq<char>>, query: Seq<char>, x: int, y: int)
    requires
        0 <= x < ranking(texts, query).len(),
        0 <= y < ranking(texts, query).len(),
        quality(texts, query, ranking(texts, query)[x]) == quality(
            texts,
            query,
            ranking(texts, query)[y],
        ),
        ranking(texts, query)[x] < ranking(texts, query)[y],
    ensures
        x < y,
{
    lemma_ranking_order(texts, query, x, y);
}

/// Whether `at` says where the characters of `query` stand in `text`: one
/// position for each character, the positions going up.
pub open spec fn is_embedding(query: Seq<char>, text: Seq<char>, at: Seq<int>) -> bool {
    &&& at.len() == query.len()
    &&& forall|i: int|
        0 <= i < at.len() ==> 0 <= #[trigger] at[i] < text.len() && text[at[i]] == query[i]
    &&& forall|i: int, j: int| 0 <= i < j < at.len() ==> #[trigger] at[i] < #[trigger] at[j]
}

/// The positions that the match takes: each character of the query at the
/// first place where it can stand.
pub open spec fn first_embedding(query: Seq<char>, text: Seq<char>, qi: int, ti: int) -> Seq<int>
    decreases text.len() - ti,
{
    if qi < 0 || qi >= query.len() || ti < 0 || ti >= text.len() {
        Seq::empty()
    } else if query[qi] == text[ti] {
        seq![ti] + first_embedding(query, text, qi + 1, ti + 1)
    } else {
        first_embedding(query, text, qi, ti + 1)
    }
}

proof fn lemma_first_embedding(query: Seq<char>, text: Seq<char>, qi: int, ti: int)
    requires
        0 <= qi <= query.len(),
        0 <= ti,
        embeds_from(query, text, qi, ti),
    ensures
        first_embedding(query, text, qi, ti).len() == query.len() - qi,
        forall|i: int|
            0 <= i < query.len() - qi ==> ti <= #[trigger] first_embedding(query, text, qi, ti)[i]
                < text.len() && text[first_embedding(query, text, qi, ti)[i]] == query[qi + i],
        forall|i: int, j: int|
            0 <= i < j < query.len() - qi ==> #[trigger] first_embedding(query, text, qi, ti)[i]
                < #[trigger] first_embedding(query, text, qi, ti)[j],
    decreases text.len() - ti,
{
    if qi < query.len() && ti < text.len() {
        let all = first_embedding(query, text, qi, ti);
        if query[qi] == text[ti] {
            let rest = first_embedding(query, text, qi + 1, ti + 1);
            lemma_first_embedding(query, text, qi + 1, ti + 1);
            assert forall|i: int| 0 <= i < query.len() - qi implies ti <= #[trigger] all[i]
                < text.len() && text[all[i]] == query[qi + i] by {
                if i > 0 {
                    assert(all[i] == rest[i - 1]);
                }
            }
            assert forall|i: int, j: int| 0 <= i < j < query.len() - qi implies #[trigger] all[i]
                < #[trigger] all[j] by {
                assert(all[j] == rest[j - 1]);
                if i > 0 {
                    assert(all[i] == rest[i - 1]);
                }
            }
        } else {
            lemma_first_embedding(query, text, qi, ti + 1);
        }
    }
}

/// A text that matches holds the characters of the query at positions that
/// go up.
pub proof fn lemma_match_has_embedding(query: Seq<char>, text: Seq<char>)
    requires
        embeds(query, text),
    ensures
        is_embedding(query, text, first_embedding(query, text, 0, 0)),
{
    lemma_first_embedding(query, text, 0, 0);
}

proof fn lemma_embedding_tail(query: Seq<char>, text: Seq<char>, at: Seq<int>, qi: int)
    requires
        is_embedding(query, text, at),
        0 <= qi <= query.len(),
    ensures
        qi < query.len() ==> embeds_from(query, text, qi, at[qi]),
        qi == query.len() ==> embeds_from(query, text, qi, text.len() as int),
    decreases query.len() - qi,
{
    if qi < query.len() {
        lemma_embedding_tail(query, text, at, qi + 1);
        let next = if qi + 1 < query.len() {
            at[qi + 1]
        } else {
            text.len() as int
        };
        lemma_embeds_back(query, text, qi + 1, at[qi] + 1, next);
    }
}

proof fn lemma_embeds_back(query: Seq<char>, text: Seq<char>, qi: int, from: int, to: int)
    requires
        0 <= qi,
        0 <= from <= to,
        embeds_from(query, text, qi, to),
    ensures
        embeds_from(query, text, qi, from),
    decreases to - from,
{
    if from < to {
        lemma_embeds_earlier(query, text, qi, to - 1);
        lemma_embeds_back(query, text, qi, from, to - 1);
    }
}

/// A text that holds the characters of the query at positions that go up,
/// with whatever stands between them, matches.
pub proof fn lemma_embedding_matches(query: Seq<char>, text: Seq<char>, at: Seq<int>)
    requires
        is_embedding(query, text, at),
    ensures
        embeds(query, text),
{
    lemma_embedding_tail(query, text, at, 0);
    if query.len() > 0 {
        lemma_embeds_back(query, text, 0, 0, at[0]);
    }
}

/// A match that may use the text from `ti + 1` on may use it from `ti` on.
proof fn lemma_embeds_earlier(query: Seq<char>, text: Seq<char>, qi: int, ti: int)
    requires
        0 <= qi,
        0 <= ti,
        embeds_from(query, text, qi, ti + 1),
    ensures
        embeds_from(query, text, qi, ti),
    decreases text.len() - ti, 0int,
{
    if qi < query.len() && ti < text.len() && query[qi] == text[ti] {
        lemma_embeds_shorter(query, text, qi, ti + 1);
    }
}

/// If a query matches, so does the query without its first character.
proof fn lemma_embeds_shorter(query: Seq<char>, text: Seq<char>, qi: int, ti: int)
    requires
        0 <= qi,
        0 <= ti,
        embeds_from(query, text, qi, ti),
    ensures
        embeds_from(query, text, qi + 1, ti),
    decreases text.len() - ti, 1int,
{
    if qi + 1 < query.len() && ti < text.len() {
        if query[qi] != text[ti] {
            lemma_embeds_shorter(query, text, qi, ti + 1);
        }
        lemma_embeds_earlier(query, text, qi + 1, ti);
    }
}

/// A text in which the query stands as one piece matches the query.
pub proof fn lemma_occurrence_embeds(query: Seq<char>, text: Seq<char>, p: int)
    requires
        occurs_at(query, text, p),
    ensures
        embeds(query, text),
        score(query, text) is Some,
        score(query, text)->Some_0.contiguous,
{
    lemma_piece_embeds(query, text, p, 0);
    lemma_embeds_back(query, text, 0, 0, p);
    lemma_find_finds(query, text, 0, p);
}

/// Where the query stands in the text, its characters from `qi` on match
/// the text from there on.
proof fn lemma_piece_embeds(query: Seq<char>, text: Seq<char>, p: int, qi: int)
    requires
        occurs_at(query, text, p),
        0 <= qi,
    ensures
        embeds_from(query, text, qi, p + qi),
    decreases query.len() - qi,
{
    if qi < query.len() {
        assert(text.subrange(p, p + query.len())[qi] == query[qi]);
        lemma_piece_embeds(query, text, p, qi + 1);
    }
}

/// A search that starts at or before an occurrence finds one.
proof fn lemma_find_finds(query: Seq<char>, text: Seq<char>, from: int, p: int)
    requires
        0 <= from <= p,
        occurs_at(query, text, p),
    ensures
        find_from(query, text, from) is Some,
    decreases p - from,
{
    if from < p && !occurs_at(query, text, from) {
        lemma_find_finds(query, text, from + 1, p);
    }
}

/// The position that a search reports is the first occurrence: the query
/// stands there, and nowhere before.
pub proof fn lemma_first_occurrence(query: Seq<char>, text: Seq<char>, from: int, k: int)
    requires
        0 <= from <= k,
        find_from(query, text, from) is Some,
    ensures
        occurs_at(query, text, find_from(query, text, from)->Some_0),
        from <= find_from(query, text, from)->Some_0,
        k < find_from(query, text, from)->Some_0 ==> !occurs_at(query, text, k),
    decreases text.len() - from + 1,
{
    if !occurs_at(query, text, from) {
        if k > from {
            lemma_first_occurrence(query, text, from + 1, k);
        } else {
            lemma_first_occurrence(query, text, from + 1, from + 1);
        }
    }
}

/// Every text matches the empty query, as one piece at its start.
pub proof fn lemma_empty_query_matches(text: Seq<char>)
    ensures
        score(Seq::<char>::empty(), text) == Some(Score { contiguous: true, position: 0 }),
{
    assert(text.subrange(0, 0) =~= Seq::<char>::empty());
    assert(occurs_at(Seq::<char>::empty(), text, 0));
}

proof fn lemma_first_rows_shown(texts: Seq<Seq<char>>, n: int)
    requires
        0 <= n <= texts.len(),
    ensures
        matching_upto(texts, Seq::<char>::empty(), n) == Seq::new(n as nat, |i: int| i),
        stable_sort(
            matching_upto(texts, Seq::<char>::empty(), n),
            by_rank(texts, Seq::<char>::empty()),
        ) == Seq::new(n as nat, |i: int| i),
    decreases n,
{
    let query = Seq::<char>::empty();
    let all = Seq::new(n as nat, |i: int| i);
    if n == 0 {
        assert(matching_upto(texts, query, n) =~= all);
    } else {
        lemma_first_rows_shown(texts, n - 1);
        lemma_empty_query_matches(texts[n - 1]);
        let before = Seq::new((n - 1) as nat, |i: int| i);
        assert(before.push(n - 1) =~= all);
        assert(matching_upto(texts, query, n) == all);
        assert(all.drop_last() =~= before);
        if n > 1 {
            lemma_empty_query_matches(texts[n - 2]);
            assert(before.last() == n - 2);
            assert(by_rank(texts, query)(before.last(), n - 1));
        }
    }
}

/// With no query typed every row is shown, in the order of the list.
pub proof fn lemma_empty_query_shows_all(texts: Seq<Seq<char>>)
    ensures
        ranking(texts, Seq::<char>::empty()) == Seq::new(texts.len(), |i: int| i),
{
    lemma_first_rows_shown(texts, texts.len() as int);
}

fn occurs_here(query: &Vec<char>, text: &Vec<char>, p: usize) -> (out: bool)
    requires
        p + query.len() <= text.len(),
    ensures
        out == occurs_at(query@, text@, p as int),
{
    let mut k: usize = 0;
    while k < query.len()
        invariant
            p + query.len() <= text.len(),
            k <= query.len(),
            forall|j: int| 0 <= j < k ==> text@[p + j] == query@[j],
        decreases query.len() - k,
    {
        if text[p + k] != query[k] {
            assert(text@.subrange(p as int, p + query.len())[k as int] != query@[k as int]);
            return false;
        }
        k = k + 1;
    }
    assert(text@.subrange(p as int, p + query.len()) =~= query@);
    true
}

fn find_occurrence(query: &Vec<char>, text: &Vec<char>) -> (out: Option<usize>)
    ensures
        match out {
            Some(p) => first_occurrence(query@, text@) == Some(p as int),
            None => first_occurrence(query@, text@) is None,
        },
{
    if query.len() > text.len() {
        return None;
    }
    let last = text.len() - query.len();
    let mut p: usize = 0;
    loop
        invariant
            query.len() <= text.len(),
            last == text.len() - query.len(),
            p <= last,
            first_occurrence(query@, text@) == find_from(query@, text@, p as int),
        decreases last - p,
    {
        if occurs_here(query, text, p) {
            return Some(p);
        }
        if p == last {
            return None;
        }
        p = p + 1;
    }
}

fn embeds_in(query: &Vec<char>, text: &Vec<char>) -> (out: bool)
    ensures
        out == embeds(query@, text@),
{
    let mut qi: usize = 0;
    let mut ti: usize = 0;
    while qi < query.len() && ti < text.len()
        invariant
            qi <= query.len(),
            ti <= text.len(),
            embeds(query@, text@) == embeds_from(query@, text@, qi as int, ti as int),
        decreases text.len() - ti,
    {
        if query[qi] == text[ti] {
            qi = qi + 1;
        }
        ti = ti + 1;
    }
    qi >= query.len()
}

/// A matching row with the quality of its match.
struct Candidate {
    index: usize,
    contiguous: bool,
    position: usize,
}

impl Candidate {
    spec fn rates(&self, texts: Seq<Seq<char>>, query: Seq<char>) -> bool {
        &&& self.index < texts.len()
        &&& score(query, texts[self.index as int]) == Some(
            Score { contiguous: self.contiguous, position: self.position as nat },
        )
    }

    fn beats(&self, other: &Candidate) -> (out: bool)
        ensures
            out == better(
                Score { contiguous: self.contiguous, position: self.position as nat },
                Score { contiguous: other.contiguous, position: other.position as nat },
            ),
    {
        (self.contiguous && !other.contiguous) || (self.contiguous == other.contiguous
            && self.position < other.position)
    }

    fn ranks_before(
        &self,
        other: &Candidate,
        Ghost(texts): Ghost<Seq<Seq<char>>>,
        Ghost(query): Ghost<Seq<char>>,
    ) -> (out: bool)
        requires
            self.rates(texts, query),
            other.rates(texts, query),
        ensures
            out == by_rank(texts, query)(self.index as int, other.index as int),
    {
        self.beats(other) || (!other.beats(self) && self.index <= other.index)
    }
}

spec fn candidate_rows(candidates: Seq<Candidate>) -> Seq<int> {
    Seq::new(candidates.len(), |k: int| candidates[k].index as int)
}

fn rate(query: &Vec<char>, text: &Vec<char>, index: usize) -> (out: Option<Candidate>)
    ensures
        match out {
            Some(c) => c.index == index && score(query@, text@) == Some(
                Score { contiguous: c.contiguous, position: c.position as nat },
            ),
            None => score(query@, text@) is None,
        },
{
    if !embeds_in(query, text) {
        return None;
    }
    match find_occurrence(query, text) {
        Some(p) => Some(Candidate { index, contiguous: true, position: p }),
        None => {
            assert(query@.len() > 0) by {
                if query@.len() == 0 {
                    assert(text@.subrange(0, 0) =~= query@);
                    assert(occurs_at(query@, text@, 0));
                }
            }
            let mut head: Vec<char> = Vec::new();
            head.push(query[0]);
            assert(head@ =~= seq![query@[0]]);
            let position = match find_occurrence(&head, text) {
                Some(p) => p,
                None => 0,
            };
            Some(Candidate { index, contiguous: false, position })
        },
    }
}

/// The rows to show for `query`: the positions of the texts that match,
/// best match first.
pub fn rank(texts: &Vec<Vec<char>>, query: &Vec<char>) -> (out: Vec<usize>)
    ensures
        indices(out@) == ranking(views(texts@), query@),
        forall|k: int| 0 <= k < out@.len() ==> out@[k] < texts.len(),
{
    let ghost all = views(texts@);
    let ghost le = by_rank(all, query@);
    let mut candidates: Vec<Candidate> = Vec::new();
    let mut i: usize = 0;
    assert(candidate_rows(candidates@) =~= stable_sort(matching_upto(all, query@, 0), le));
    while i < texts.len()
        invariant
            i <= texts.len(),
            all == views(texts@),
            le == by_rank(all, query@),
            candidate_rows(candidates@) == stable_sort(matching_upto(all, query@, i as int), le),
            forall|k: int|
                0 <= k < candidates@.len() ==> (#[trigger] candidates@[k]).rates(all, query@),
        decreases texts.len() - i,
    {
        assert(all[i as int] == texts@[i as int]@);
        match rate(query, &texts[i], i) {
            Some(candidate) => {
                let ghost rows = candidate_rows(candidates@);
                let ghost given = matching_upto(all, query@, i + 1);
                assert(given.drop_last() =~= matching_upto(all, query@, i as int));
                assert(candidate.rates(all, query@));
                let mut p: usize = candidates.len();
                while p > 0 && !candidates[p - 1].ranks_before(
                    &candidate,
                    Ghost(all),
                    Ghost(query@),
                )
                    invariant
                        p <= candidates.len(),
                        rows == candidate_rows(candidates@),
                        le == by_rank(all, query@),
                        candidate.rates(all, query@),
                        candidate.index == i,
                        forall|k: int|
                            0 <= k < candidates@.len() ==> (#[trigger] candidates@[k]).rates(
                                all,
                                query@,
                            ),
                        forall|k: int| p <= k < rows.len() ==> !#[trigger] le(rows[k], i as int),
                    decreases p,
                {
                    p = p - 1;
                    assert(rows[p as int] == candidates@[p as int].index);
                }
                proof {
                    if p > 0 {
                        assert(rows[p - 1] == candidates@[p - 1].index);
                    }
                    lemma_insert_position(rows, i as int, le, p as int);
                }
                candidates.insert(p, candidate);
                assert(candidate_rows(candidates@) =~= rows.insert(p as int, i as int));
            },
            None => {},
        }
        i = i + 1;
    }
    let mut out: Vec<usize> = Vec::new();
    let mut k: usize = 0;
    while k < candidates.len()
        invariant
            k <= candidates.len(),
            out@.len() == k,
            all == views(texts@),
            forall|j: int| 0 <= j < k ==> out@[j] == (#[trigger] candidates@[j]).index,
            forall|j: int|
                0 <= j < candidates@.len() ==> (#[trigger] candidates@[j]).rates(all, query@),
        decreases candidates.len() - k,
    {
        out.push(candidates[k].index);
        k = k + 1;
    }
    assert(indices(out@) =~= candidate_rows(candidates@));
    assert forall|k: int| 0 <= k < out@.len() implies out@[k] < texts.len() by {
        assert(candidates@[k].rates(all, query@));
    }
    out
}

/// Where the picker stands.
#[derive(Clone, Copy, Debug, PartialEq, Eq, Structural)]
pub enum Phase {
    /// No query typed: the whole list is shown.
    Browsing,
    /// A query is typed: the rows that match it are shown.
    Filtering,
    /// The user confirmed a row. Final.
    Committed,
    /// The user gave up. Final.
    Cancelled,
}

/// One keystroke.
#[derive(Clone, Copy, Debug, PartialEq, Eq, Structural)]
pub enum Key {
    /// A character typed.
    Char(char),
    /// Delete the last character of the query.
    Backspace,
    /// Move the highlight up.
    Up,
    /// Move the highlight down.
    Down,
    /// Confirm the highlighted row.
    Enter,
    /// Give up.
    Escape,
}

/// The picker: a fixed list of rows, the query typed so far, the rows shown
/// for it, and the one that is highlighted.
pub struct Selector {
    items: Vec<SelectItem>,
    texts: Vec<Vec<char>>,
    query: Vec<char>,
    visible: Vec<usize>,
    cursor: usize,
    phase: Phase,
}

/// A `Selector` as a mathematical value. The rows shown are not part of it:
/// they follow from the list and the query.
pub struct SelectorView {
    pub items: Seq<SelectItemView>,
    pub query: Seq<char>,
    pub cursor: nat,
    pub phase: Phase,
}

/// The search texts of `items`.
pub open spec fn search_texts(items: Seq<SelectItemView>) -> Seq<Seq<char>> {
    Seq::new(items.len(), |k: int| items[k].search_text)
}

/// The rows shown in state `v`, best match first.
pub open spec fn visible_rows(v: SelectorView) -> Seq<int> {
    ranking(search_texts(v.items), v.query)
}

/// Whether a character extends the query: control characters do not.
pub open spec fn is_printable(c: char) -> bool {
    c >= ' ' && c != '\x7f'
}

/// Whether the picker has reached a final state.
pub open spec fn is_final(phase: Phase) -> bool {
    phase == Phase::Committed || phase == Phase::Cancelled
}

/// The state after one keystroke. A final state stays as it is. Typing
/// extends the query and deleting shortens it; both put the highlight on the
/// best row, and the picker browses exactly while the query is empty. The
/// highlight moves by one row and stops at either end of the rows shown.
/// Confirming needs a row to confirm; giving up needs nothing.
pub open spec fn step(v: SelectorView, key: Key) -> SelectorView {
    if is_final(v.phase) {
        v
    } else {
        match key {
            Key::Char(c) => if is_printable(c) {
                SelectorView { query: v.query.push(c), cursor: 0, phase: Phase::Filtering, ..v }
            } else {
                v
            },
            Key::Backspace => if v.query.len() == 0 {
                v
            } else {
                SelectorView {
                    query: v.query.drop_last(),
                    cursor: 0,
                    phase: if v.query.len() == 1 {
                        Phase::Browsing
                    } else {
                        Phase::Filtering
                    },
                    ..v
                }
            },
            Key::Up => SelectorView {
                cursor: if v.cursor > 0 {
                    (v.cursor - 1) as nat
                } else {
                    0
                },
                ..v
            },
            Key::Down => SelectorView {
                cursor: if v.cursor + 1 < visible_rows(v).len() {
                    v.cursor + 1
                } else {
                    v.cursor
                },
                ..v
            },
            Key::Enter => if visible_rows(v).len() == 0 {
                v
            } else {
                SelectorView { phase: Phase::Committed, ..v }
            },
            Key::Escape => SelectorView { phase: Phase::Cancelled, ..v },
        }
    }
}

/// What the picker returns in state `v`: the payload of the confirmed row,
/// and nothing in every other state.
pub open spec fn outcome(v: SelectorView) -> Option<Seq<char>> {
    if v.phase == Phase::Committed {
        Some(v.items[visible_rows(v)[v.cursor as int]].data)
    } else {
        None
    }
}

/// Whether a state hangs together: the highlight is on a row that is shown
/// (on the first line when none is), the picker browses exactly while the
/// query is empty, and a confirmed state has a row to return.
pub open spec fn is_consistent(v: SelectorView) -> bool {
    &&& v.cursor < visible_rows(v).len() || v.cursor == 0
    &&& v.phase == Phase::Browsing ==> v.query.len() == 0
    &&& v.phase == Phase::Filtering ==> v.query.len() > 0
    &&& v.phase == Phase::Committed ==> v.cursor < visible_rows(v).len()
}

/// The state in which a picker over `items` starts.
pub open spec fn initial(items: Seq<SelectItemView>) -> SelectorView {
    SelectorView { items, query: Seq::empty(), cursor: 0, phase: Phase::Browsing }
}

/// The line that shows the query.
pub open spec fn prompt_line(query: Seq<char>) -> Seq<char> {
    "> "@ + query
}

/// The line of one row: marked if it is highlighted, indented if not.
pub open spec fn row_line(item: SelectItemView, highlighted: bool) -> Seq<char> {
    if highlighted {
        "> "@ + item.display
    } else {
        "  "@ + item.display
    }
}

/// What is drawn in state `v`: the query, then the rows shown, best match
/// first, with the highlighted one marked.
pub open spec fn frame(v: SelectorView) -> Seq<Seq<char>> {
    seq![prompt_line(v.query)] + Seq::new(
        visible_rows(v).len(),
        |k: int| row_line(v.items[visible_rows(v)[k]], k == v.cursor),
    )
}

/// No keystroke leads from a state that hangs together to one that does not.
pub proof fn lemma_step_keeps_consistent(v: SelectorView, key: Key)
    requires
        is_consistent(v),
    ensures
        is_consistent(step(v, key)),
{
}

/// Giving up always ends the picker without a payload: from a state that is
/// not final, the next state is `Cancelled` and returns nothing.
pub proof fn lemma_cancel_returns_nothing(v: SelectorView)
    requires
        !is_final(v.phase),
    ensures
        step(v, Key::Escape).phase == Phase::Cancelled,
        outcome(step(v, Key::Escape)) is None,
{
}

/// A final state is left by no keystroke.
pub proof fn lemma_final_stays(v: SelectorView, key: Key)
    requires
        is_final(v.phase),
    ensures
        step(v, key) == v,
{
}

/// Deleting undoes typing: after a character and a backspace the picker
/// shows what it showed before, with the highlight on the best row.
pub proof fn lemma_backspace_undoes_typing(v: SelectorView, c: char)
    requires
        is_consistent(v),
        !is_final(v.phase),
        is_printable(c),
    ensures
        step(step(v, Key::Char(c)), Key::Backspace) == (SelectorView { cursor: 0, ..v }),
{
    assert(v.query.push(c).drop_last() =~= v.query);
}

/// Moving the highlight changes neither the query nor the rows shown.
pub proof fn lemma_moving_keeps_rows(v: SelectorView, key: Key)
    requires
        key == Key::Up || key == Key::Down,
    ensures
        step(v, key).query == v.query,
        visible_rows(step(v, key)) == visible_rows(v),
{
}

impl View for Selector {
    type V = SelectorView;

    closed spec fn view(&self) -> SelectorView {
        SelectorView {
            items: views(self.items@),
            query: self.query@,
            cursor: self.cursor as nat,
            phase: self.phase,
        }
    }
}

impl Selector {
    #[verifier::type_invariant]
    spec fn well_formed(&self) -> bool {
        &&& views(self.texts@) == search_texts(views(self.items@))
        &&& indices(self.visible@) == ranking(views(self.texts@), self.query@)
        &&& forall|k: int| 0 <= k < self.visible@.len() ==> self.visible@[k] < self.items@.len()
        &&& is_consistent(self@)
    }

    /// A picker over `items`, with no query typed and the first row
    /// highlighted.
    pub fn new(items: Vec<SelectItem>) -> (out: Selector)
        ensures
            out@ == initial(views(items@)),
            is_consistent(out@),
    {
        let mut texts: Vec<Vec<char>> = Vec::new();
        let mut i: usize = 0;
        while i < items.len()
            invariant
                i <= items.len(),
                texts@.len() == i,
                forall|k: int| 0 <= k < i ==> (#[trigger] texts@[k])@ == items@[k].search_text@,
            decreases items.len() - i,
        {
            texts.push(chars_of(items[i].search_text.as_str()));
            i = i + 1;
        }
        assert(views(texts@) =~= search_texts(views(items@)));
        let query: Vec<char> = Vec::new();
        let visible = rank(&texts, &query);
        assert(indices(visible@).len() == visible@.len());
        Selector { items, texts, query, visible, cursor: 0, phase: Phase::Browsing }
    }

    /// The state after one keystroke.
    pub fn handle_key(self, key: Key) -> (out: Selector)
        ensures
            out@ == step(self@, key),
            is_consistent(out@),
    {
        proof {
            use_type_invariant(&self);
            assert(indices(self.visible@).len() == self.visible@.len());
        }
        if self.phase == Phase::Committed || self.phase == Phase::Cancelled {
            return self;
        }
        match key {
            Key::Char(c) => {
                if c >= ' ' && c != '\x7f' {
                    let mut query = self.query;
                    query.push(c);
                    let visible = rank(&self.texts, &query);
                    assert(indices(visible@).len() == visible@.len());
                    Selector {
                        items: self.items,
                        texts: self.texts,
                        query,
                        visible,
                        cursor: 0,
                        phase: Phase::Filtering,
                    }
                } else {
                    self
                }
            },
            Key::Backspace => {
                if self.query.len() == 0 {
                    self
                } else {
                    let mut query = self.query;
                    query.pop();
                    assert(query@ =~= self.query@.drop_last());
                    let visible = rank(&self.texts, &query);
                    assert(indices(visible@).len() == visible@.len());
                    let phase = if query.len() == 0 {
                        Phase::Browsing
                    } else {
                        Phase::Filtering
                    };
                    Selector {
                        items: self.items,
                        texts: self.texts,
                        query,
                        visible,
                        cursor: 0,
                        phase,
                    }
                }
            },
            Key::Up => {
                let cursor = if self.cursor > 0 {
                    self.cursor - 1
                } else {
                    0
                };
                Selector { cursor, ..self }
            },
            Key::Down => {
                let cursor = if self.cursor < self.visible.len() && self.cursor + 1
                    < self.visible.len() {
                    self.cursor + 1
                } else {
                    self.cursor
                };
                Selector { cursor, ..self }
            },
            Key::Enter => {
                if self.visible.len() == 0 {
                    self
                } else {
                    Selector { phase: Phase::Committed, ..self }
                }
            },
            Key::Escape => Selector { phase: Phase::Cancelled, ..self },
        }
    }

    /// Where the picker stands.
    pub fn phase(&self) -> (out: Phase)
        ensures
            out == self@.phase,
    {
        self.phase
    }

    /// Whether the picker has reached a final state.
    pub fn is_finished(&self) -> (out: bool)
        ensures
            out == is_final(self@.phase),
    {
        self.phase == Phase::Committed || self.phase == Phase::Cancelled
    }

    /// The query typed so far.
    pub fn query(&self) -> (out: String)
        ensures
            out@ == self@.query,
    {
        let out = string_of(&self.query, 0, self.query.len());
        assert(self.query@.subrange(0, self.query@.len() as int) =~= self.query@);
        out
    }

    /// The position of the highlighted row among the rows shown.
    pub fn cursor(&self) -> (out: usize)
        ensures
            out == self@.cursor,
    {
        self.cursor
    }

    /// The rows shown, as positions in the list, best match first.
    pub fn visible(&self) -> (out: Vec<usize>)
        ensures
            indices(out@) == visible_rows(self@),
    {
        proof {
            use_type_invariant(self);
        }
        let mut out: Vec<usize> = Vec::new();
        let mut k: usize = 0;
        while k < self.visible.len()
            invariant
                k <= self.visible.len(),
                out@ == self.visible@.take(k as int),
            decreases self.visible.len() - k,
        {
            out.push(self.visible[k]);
            k = k + 1;
            assert(out@ =~= self.visible@.take(k as int));
        }
        assert(self.visible@.take(k as int) =~= self.visible@);
        out
    }

    /// The payload of the confirmed row, once the user has confirmed one.
    pub fn result(&self) -> (out: Option<String>)
        ensures
            match out {
                Some(payload) => outcome(self@) == Some(payload@),
                None => outcome(self@) is None,
            },
    {
        proof {
            use_type_invariant(self);
            assert(indices(self.visible@).len() == self.visible@.len());
        }
        if self.phase == Phase::Committed {
            let row = self.visible[self.cursor];
            assert(indices(self.visible@)[self.cursor as int] == row);
            assert(views(self.items@)[row as int] == self.items@[row as int]@);
            Some(self.items[row].data.clone())
        } else {
            None
        }
    }

    /// The lines to draw: the query, then the rows shown with the
    /// highlighted one marked.
    pub fn render(&self) -> (out: Vec<String>)
        ensures
            views(out@) == frame(self@),
    {
        proof {
            use_type_invariant(self);
            assert(indices(self.visible@).len() == self.visible@.len());
        }
        let ghost rows = visible_rows(self@);
        let ghost wanted = frame(self@);
        let mut prompt = String::new();
        prompt.append("> ");
        let mut k: usize = 0;
        while k < self.query.len()
            invariant
                k <= self.query.len(),
                prompt@ == "> "@ + self.query@.take(k as int),
            decreases self.query.len() - k,
        {
            prompt.push(self.query[k]);
            k = k + 1;
            assert(prompt@ =~= "> "@ + self.query@.take(k as int));
        }
        assert(self.query@.take(k as int) =~= self.query@);
        let mut out: Vec<String> = Vec::new();
        out.push(prompt);
        let mut k: usize = 0;
        assert(views(out@) =~= wanted.take(1));
        while k < self.visible.len()
            invariant
                k <= self.visible.len(),
                rows == visible_rows(self@),
                rows == indices(self.visible@),
                rows.len() == self.visible@.len(),
                wanted == frame(self@),
                wanted.len() == rows.len() + 1,
                forall|j: int|
                    0 <= j < self.visible@.len() ==> self.visible@[j] < self.items@.len(),
                views(out@) == wanted.take(k + 1),
            decreases self.visible.len() - k,
        {
            let ghost before = views(out@);
            let row = self.visible[k];
            assert(rows[k as int] == row);
            assert(views(self.items@)[row as int] == self.items@[row as int]@);
            let mut line = String::new();
            if k == self.cursor {
                line.append("> ");
            } else {
                line.append("  ");
            }
            line.append(self.items[row].display.as_str());
            assert(line@ =~= row_line(self@.items[rows[k as int]], k == self@.cursor));
            assert(line@ == wanted[k + 1]);
            out.push(line);
            assert(views(out@) =~= before.push(line@));
            k = k + 1;
            assert(before.push(line@) =~= wanted.take(k + 1));
        }
        assert(wanted.take(k + 1) =~= wanted);
        out
    }
}

} // verus!
