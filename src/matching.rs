use vstd::prelude::*;

use crate::similarity::{
    calculate_partial_match, partial_score, similarity, string_similarity,
    PARTIAL_MATCH_THRESHOLD, WHOLE_MATCH_THRESHOLD,
};
use crate::text::{
    ascii_alphanumeric, ascii_lower, ascii_whitespace, keep_retained, lowercase, normalize_text,
    normalized, retained,
};
use vstd::utf8::is_ascii_chars;

verus! {

/// Most candidates a lookup returns.
pub const MAX_MATCHES: usize = 5;

/// One choice offered by a training event.
#[derive(Clone, Debug)]
pub struct Choice {
    pub text: String,
    pub number: String,
    pub outcome: String,
}

/// One entry of the event catalog.
#[derive(Clone, Debug)]
pub struct JsonEvent {
    pub name: String,
    pub character_name: String,
    pub relation_type: String,
    pub choices: Vec<Choice>,
}

/// The event catalog, loaded once and read by every lookup.
pub struct AppState {
    pub events: Vec<JsonEvent>,
}

impl AppState {
    /// Holds `events` as the session's catalog.
    pub fn new(events: Vec<JsonEvent>) -> (r: AppState)
        ensures
            r.events@ == events@,
    {
        AppState { events }
    }
}

/// What a candidate was matched on.
#[derive(Clone, Copy, Debug, PartialEq, Eq, Structural)]
pub enum MatchKind {
    /// The whole event name.
    EventName,
    /// The whole text of one of the event's choices.
    ChoiceText,
    /// The event name, word by word.
    PartialEventName,
}

impl MatchKind {
    /// The tag under which the kind is reported.
    pub fn as_str(&self) -> (r: &'static str)
        ensures
            *self == MatchKind::EventName ==> r@ == "event_name"@,
            *self == MatchKind::ChoiceText ==> r@ == "choice_text"@,
            *self == MatchKind::PartialEventName ==> r@ == "partial_event_name"@,
    {
        match self {
            MatchKind::EventName => "event_name",
            MatchKind::ChoiceText => "choice_text",
            MatchKind::PartialEventName => "partial_event_name",
        }
    }
}

/// A scored association between a query and one catalog field.
#[derive(Clone, Debug)]
pub struct EventMatch {
    /// Position of the matched entry in the catalog.
    pub event_index: usize,
    /// Confidence in millionths, at most one million.
    pub match_confidence: u32,
    pub match_type: MatchKind,
    /// The catalog text that was matched, as written in the catalog.
    pub matched_text: String,
}

/// The mathematical value of an `EventMatch`.
pub struct MatchView {
    pub event_index: nat,
    pub confidence: nat,
    pub kind: MatchKind,
    pub text: Seq<char>,
}

impl View for EventMatch {
    type V = MatchView;

    open spec fn view(&self) -> MatchView {
        MatchView {
            event_index: self.event_index as nat,
            confidence: self.match_confidence as nat,
            kind: self.match_type,
            text: self.matched_text@,
        }
    }
}

/// The values of a list of candidates.
pub open spec fn match_views(v: Seq<EventMatch>) -> Seq<MatchView> {
    v.map_values(|m: EventMatch| m@)
}

// ---------------------------------------------------------------------------
// Ranking
// ---------------------------------------------------------------------------

/// Where a candidate of confidence `confidence` goes in `r`: before the
/// first element of lower confidence, so after every element of equal or
/// higher confidence.
pub open spec fn insertion_index(r: Seq<MatchView>, confidence: nat) -> nat
    decreases r.len(),
{
    if r.len() == 0 {
        0
    } else if r[0].confidence < confidence {
        0
    } else {
        1 + insertion_index(r.drop_first(), confidence)
    }
}

pub open spec fn insert_by_confidence(r: Seq<MatchView>, m: MatchView) -> Seq<MatchView> {
    r.insert(insertion_index(r, m.confidence) as int, m)
}

/// `s` sorted by descending confidence; candidates of equal confidence keep
/// the order in which they come in `s`.
pub open spec fn sort_by_confidence(s: Seq<MatchView>) -> Seq<MatchView>
    decreases s.len(),
{
    if s.len() == 0 {
        Seq::empty()
    } else {
        insert_by_confidence(sort_by_confidence(s.drop_last()), s.last())
    }
}

/// The first `MAX_MATCHES` candidates of `s` once sorted.
pub open spec fn top_matches(s: Seq<MatchView>) -> Seq<MatchView> {
    let r = sort_by_confidence(s);
    if r.len() <= MAX_MATCHES {
        r
    } else {
        r.take(MAX_MATCHES as int)
    }
}

proof fn lemma_insertion_index_bound(r: Seq<MatchView>, confidence: nat)
    ensures
        insertion_index(r, confidence) <= r.len(),
    decreases r.len(),
{
    if r.len() > 0 {
        lemma_insertion_index_bound(r.drop_first(), confidence);
    }
}

/// Inserts `m` into `ranked` after every candidate of equal or higher
/// confidence and before the rest.
pub fn insert_ranked(ranked: &mut Vec<EventMatch>, m: EventMatch)
    ensures
        match_views(final(ranked)@) == insert_by_confidence(match_views(old(ranked)@), m@),
{
    let ghost views = match_views(ranked@);
    let mut pos: usize = 0;
    assert(views.subrange(0, views.len() as int) =~= views);
    while pos < ranked.len() && ranked[pos].match_confidence >= m.match_confidence
        invariant
            pos <= ranked@.len(),
            views == match_views(ranked@),
            insertion_index(views, m@.confidence) == pos + insertion_index(
                views.subrange(pos as int, views.len() as int),
                m@.confidence,
            ),
        decreases ranked@.len() - pos,
    {
        proof {
            let rest = views.subrange(pos as int, views.len() as int);
            assert(rest.drop_first() =~= views.subrange(pos + 1, views.len() as int));
        }
        pos = pos + 1;
    }
    proof {
        let rest = views.subrange(pos as int, views.len() as int);
        if pos < views.len() {
            assert(rest[0] == views[pos as int]);
        } else {
            assert(rest.len() == 0);
        }
    }
    ranked.insert(pos, m);
    assert(match_views(ranked@) =~= views.insert(pos as int, m@));
}

/// Sorts `candidates` by descending confidence, keeping the given order
/// among equal confidences, and keeps the first `MAX_MATCHES`.
pub fn rank_candidates(candidates: Vec<EventMatch>) -> (r: Vec<EventMatch>)
    ensures
        match_views(r@) == top_matches(match_views(candidates@)),
{
    let ghost all = match_views(candidates@);
    let mut ranked: Vec<EventMatch> = Vec::new();
    let ghost mut seen: Seq<MatchView> = Seq::empty();
    for m in it: candidates.into_iter()
        invariant
            all == match_views(it.seq()),
            seen == all.take(it.index() as int),
            match_views(ranked@) == sort_by_confidence(seen),
    {
        proof {
            let i = it.index() as int;
            assert(all.take(i + 1).drop_last() =~= all.take(i));
            assert(all[i] == m@);
        }
        insert_ranked(&mut ranked, m);
        proof {
            seen = all.take(it.index() + 1);
        }
    }
    proof {
        assert(seen =~= all.take(all.len() as int));
        assert(all.take(all.len() as int) =~= all);
    }
    ranked.truncate(MAX_MATCHES);
    proof {
        lemma_sort_len(all);
    }
    assert(match_views(ranked@) =~= top_matches(all));
    ranked
}

proof fn lemma_sort_len(s: Seq<MatchView>)
    ensures
        sort_by_confidence(s).len() == s.len(),
    decreases s.len(),
{
    if s.len() > 0 {
        lemma_sort_len(s.drop_last());
        lemma_insertion_index_bound(sort_by_confidence(s.drop_last()), s.last().confidence);
    }
}

// ---------------------------------------------------------------------------
// Matching a query against the catalog
// ---------------------------------------------------------------------------

/// The candidates that the choices of entry `index` give for the normalized
/// query `q`, in the order of the choices.
pub open spec fn choice_candidates(index: nat, choices: Seq<Choice>, q: Seq<char>) -> Seq<MatchView>
    decreases choices.len(),
{
    if choices.len() == 0 {
        Seq::empty()
    } else {
        let prev = choice_candidates(index, choices.drop_last(), q);
        let text = choices.last().text@;
        let score = similarity(normalized(text), q);
        if score >= WHOLE_MATCH_THRESHOLD {
            prev.push(
                MatchView { event_index: index, confidence: score, kind: MatchKind::ChoiceText, text },
            )
        } else {
            prev
        }
    }
}

/// The candidates that entry `index` gives for the normalized query `q`:
/// its name when the whole name scores at least the whole-match threshold,
/// then each choice whose whole text does, then, only when the whole name
/// scored below that threshold, its name by words when the word-level score
/// reaches the partial-match threshold.
pub open spec fn entry_candidates(index: nat, e: JsonEvent, q: Seq<char>) -> Seq<MatchView> {
    let name_score = similarity(normalized(e.name@), q);
    let word_score = partial_score(q, normalized(e.name@));
    let whole: Seq<MatchView> = if name_score >= WHOLE_MATCH_THRESHOLD {
        seq![
            MatchView {
                event_index: index,
                confidence: name_score,
                kind: MatchKind::EventName,
                text: e.name@,
            },
        ]
    } else {
        Seq::empty()
    };
    let by_words: Seq<MatchView> = if name_score < WHOLE_MATCH_THRESHOLD && word_score
        >= PARTIAL_MATCH_THRESHOLD {
        seq![
            MatchView {
                event_index: index,
                confidence: word_score,
                kind: MatchKind::PartialEventName,
                text: e.name@,
            },
        ]
    } else {
        Seq::empty()
    };
    whole + choice_candidates(index, e.choices@, q) + by_words
}

/// Every candidate that the catalog gives for the normalized query `q`, in
/// catalog order.
pub open spec fn catalog_candidates(events: Seq<JsonEvent>, q: Seq<char>) -> Seq<MatchView>
    decreases events.len(),
{
    if events.len() == 0 {
        Seq::empty()
    } else {
        catalog_candidates(events.drop_last(), q) + entry_candidates(
            (events.len() - 1) as nat,
            events.last(),
            q,
        )
    }
}

/// The result of looking `text` up in `events`: nothing for a query that
/// normalizes to the empty string, else the best `MAX_MATCHES` candidates by
/// descending confidence, ties in catalog order.
pub open spec fn lookup_result(text: Seq<char>, events: Seq<JsonEvent>) -> Seq<MatchView> {
    let q = normalized(text);
    if q.len() == 0 {
        Seq::empty()
    } else {
        top_matches(catalog_candidates(events, q))
    }
}

/// Looks recognized text up in the catalog and returns the ranked
/// candidates.
pub fn match_events_with_text(extracted_text: &str, events: &[JsonEvent]) -> (r: Vec<EventMatch>)
    ensures
        match_views(r@) == lookup_result(extracted_text@, events@),
{
    let normalized_text = normalize_text(extracted_text);
    let query = normalized_text.as_str();
    let ghost q = query@;
    if query.is_empty() {
        let empty: Vec<EventMatch> = Vec::new();
        assert(match_views(empty@) =~= Seq::<MatchView>::empty());
        return empty;
    }
    let mut found: Vec<EventMatch> = Vec::new();
    let mut i: usize = 0;
    while i < events.len()
        invariant
            i <= events@.len(),
            q == query@,
            match_views(found@) == catalog_candidates(events@.take(i as int), q),
        decreases events@.len() - i,
    {
        let event = &events[i];
        let ghost before = match_views(found@);
        let name = normalize_text(event.name.as_str());
        let name_score = string_similarity(name.as_str(), query);
        if name_score >= WHOLE_MATCH_THRESHOLD {
            found.push(
                EventMatch {
                    event_index: i,
                    match_confidence: name_score,
                    match_type: MatchKind::EventName,
                    matched_text: event.name.clone(),
                },
            );
        }
        let ghost whole = match_views(found@).skip(before.len() as int);
        assert(match_views(found@) =~= before + whole);
        let mut j: usize = 0;
        while j < event.choices.len()
            invariant
                j <= event.choices@.len(),
                q == query@,
                match_views(found@) == before + whole + choice_candidates(
                    i as nat,
                    event.choices@.take(j as int),
                    q,
                ),
            decreases event.choices@.len() - j,
        {
            let choice = &event.choices[j];
            let text = normalize_text(choice.text.as_str());
            let score = string_similarity(text.as_str(), query);
            proof {
                assert(event.choices@.take(j + 1).drop_last() =~= event.choices@.take(j as int));
            }
            let ghost prev = match_views(found@);
            if score >= WHOLE_MATCH_THRESHOLD {
                found.push(
                    EventMatch {
                        event_index: i,
                        match_confidence: score,
                        match_type: MatchKind::ChoiceText,
                        matched_text: choice.text.clone(),
                    },
                );
                assert(match_views(found@) =~= prev.push(found@.last()@));
            }
            j = j + 1;
        }
        assert(event.choices@.take(event.choices@.len() as int) =~= event.choices@);
        let ghost with_choices = match_views(found@);
        if name_score < WHOLE_MATCH_THRESHOLD {
            let word_score = calculate_partial_match(query, name.as_str());
            if word_score >= PARTIAL_MATCH_THRESHOLD {
                found.push(
                    EventMatch {
                        event_index: i,
                        match_confidence: word_score,
                        match_type: MatchKind::PartialEventName,
                        matched_text: event.name.clone(),
                    },
                );
                assert(match_views(found@) =~= with_choices.push(found@.last()@));
            }
        }
        proof {
            let taken = events@.take(i + 1);
            assert(taken.drop_last() =~= events@.take(i as int));
            assert(taken.last() == events@[i as int]);
            let e = events@[i as int];
            assert(match_views(found@) =~= before + entry_candidates(i as nat, e, q));
        }
        i = i + 1;
    }
    assert(events@.take(events@.len() as int) =~= events@);
    rank_candidates(found)
}

// ---------------------------------------------------------------------------
// Laws of the ranking
// ---------------------------------------------------------------------------

/// Confidences never increase along `r`.
pub open spec fn descending(r: Seq<MatchView>) -> bool {
    forall|i: int, j: int| 0 <= i < j < r.len() ==> r[i].confidence >= r[j].confidence
}

/// The candidates of `s` with confidence `c`, in their order in `s`.
pub open spec fn with_confidence(s: Seq<MatchView>, c: nat) -> Seq<MatchView> {
    s.filter(|m: MatchView| m.confidence == c)
}

proof fn lemma_insertion_index_splits(r: Seq<MatchView>, confidence: nat)
    ensures
        insertion_index(r, confidence) <= r.len(),
        forall|k: int| 0 <= k < insertion_index(r, confidence) ==> r[k].confidence >= confidence,
        insertion_index(r, confidence) < r.len() ==> r[insertion_index(r, confidence) as int].confidence
            < confidence,
    decreases r.len(),
{
    if r.len() > 0 && r[0].confidence >= confidence {
        let t = r.drop_first();
        lemma_insertion_index_splits(t, confidence);
        assert forall|k: int| 0 <= k < insertion_index(r, confidence) implies r[k].confidence
            >= confidence by {
            if k > 0 {
                assert(r[k] == t[k - 1]);
            }
        }
    }
}

proof fn lemma_insert_keeps_descending(r: Seq<MatchView>, m: MatchView)
    requires
        descending(r),
    ensures
        descending(insert_by_confidence(r, m)),
{
    let p = insertion_index(r, m.confidence) as int;
    lemma_insertion_index_splits(r, m.confidence);
    let u = insert_by_confidence(r, m);
    assert forall|i: int, j: int| 0 <= i < j < u.len() implies u[i].confidence
        >= u[j].confidence by {
        if j < p {
        } else if j == p {
        } else if i < p {
            assert(u[j] == r[j - 1]);
        } else if i == p {
            assert(u[j] == r[j - 1]);
            assert(r[p].confidence >= r[j - 1].confidence);
        } else {
            assert(u[i] == r[i - 1]);
            assert(u[j] == r[j - 1]);
        }
    }
}

/// The ranking puts candidates in descending order of confidence.
pub proof fn lemma_sort_descending(s: Seq<MatchView>)
    ensures
        descending(sort_by_confidence(s)),
    decreases s.len(),
{
    if s.len() > 0 {
        lemma_sort_descending(s.drop_last());
        lemma_insert_keeps_descending(sort_by_confidence(s.drop_last()), s.last());
    }
}

/// The ranking is stable: the candidates of any one confidence come out in
/// the order in which they went in.
pub proof fn lemma_sort_stable(s: Seq<MatchView>, c: nat)
    ensures
        with_confidence(sort_by_confidence(s), c) == with_confidence(s, c),
    decreases s.len(),
{
    let pred = |m: MatchView| m.confidence == c;
    if s.len() > 0 {
        let t = s.drop_last();
        let m = s.last();
        let r = sort_by_confidence(t);
        lemma_sort_stable(t, c);
        lemma_sort_descending(t);
        lemma_insertion_index_splits(r, m.confidence);
        let p = insertion_index(r, m.confidence) as int;
        let front = r.take(p);
        let back = r.skip(p);
        assert(r =~= front + back);
        assert(r.insert(p, m) =~= front + seq![m] + back);
        Seq::filter_distributes_over_add(front, back, pred);
        Seq::filter_distributes_over_add(front + seq![m], back, pred);
        Seq::filter_distributes_over_add(front, seq![m], pred);
        reveal_with_fuel(Seq::filter, 2);
        assert(seq![m].drop_last() =~= Seq::<MatchView>::empty());
        assert(s =~= t.push(m));
        if m.confidence == c {
            assert forall|k: int| 0 <= k < back.len() implies !pred(back[k]) by {
                assert(back[k] == r[p + k]);
                if k > 0 {
                    assert(r[p].confidence >= r[p + k].confidence);
                }
            }
            back.lemma_all_neg_filter_empty(pred);
            assert(front.filter(pred) + back.filter(pred) =~= front.filter(pred));
            assert(seq![m].filter(pred) =~= seq![m]);
        } else {
            assert(seq![m].filter(pred) =~= Seq::<MatchView>::empty());
            assert(front.filter(pred) + Seq::<MatchView>::empty() =~= front.filter(pred));
        }
    }
}

/// A lookup returns `MAX_MATCHES` candidates whenever the catalog gives at
/// least that many, and all of them otherwise.
pub proof fn lemma_top_matches_len(s: Seq<MatchView>)
    ensures
        top_matches(s).len() == if s.len() < MAX_MATCHES {
            s.len()
        } else {
            MAX_MATCHES as nat
        },
        descending(top_matches(s)),
{
    lemma_sort_len(s);
    lemma_sort_descending(s);
}

proof fn lemma_sort_members(s: Seq<MatchView>)
    ensures
        forall|k: int|
            0 <= k < sort_by_confidence(s).len() ==> s.contains(
                #[trigger] sort_by_confidence(s)[k],
            ),
    decreases s.len(),
{
    if s.len() > 0 {
        let t = s.drop_last();
        lemma_sort_members(t);
        let r = sort_by_confidence(t);
        lemma_insertion_index_splits(r, s.last().confidence);
        let p = insertion_index(r, s.last().confidence) as int;
        let u = sort_by_confidence(s);
        assert forall|k: int| 0 <= k < u.len() implies s.contains(#[trigger] u[k]) by {
            if k < p {
                assert(u[k] == r[k]);
                assert(t.contains(r[k]));
                let j = choose|j: int| 0 <= j < t.len() && t[j] == r[k];
                assert(s[j] == t[j]);
            } else if k == p {
                assert(s[s.len() - 1] == u[k]);
            } else {
                assert(u[k] == r[k - 1]);
                assert(t.contains(r[k - 1]));
                let j = choose|j: int| 0 <= j < t.len() && t[j] == r[k - 1];
                assert(s[j] == t[j]);
            }
        }
    }
}

/// A query made of ASCII punctuation alone (or of nothing) normalizes to
/// the empty string and finds nothing.
pub proof fn lemma_punctuation_finds_nothing(text: Seq<char>, events: Seq<JsonEvent>)
    requires
        is_ascii_chars(text),
        forall|i: int|
            0 <= i < text.len() ==> !ascii_alphanumeric(#[trigger] text[i]) && !ascii_whitespace(
                text[i],
            ),
    ensures
        normalized(text).len() == 0,
        lookup_result(text, events).len() == 0,
{
    let l = lowercase(text);
    assert forall|i: int| 0 <= i < l.len() implies !retained(#[trigger] l[i]) by {
        assert(text[i] <= '\u{7f}');
        assert(l[i] == ascii_lower(text[i]));
    }
    lemma_nothing_retained(l);
}

proof fn lemma_nothing_retained(t: Seq<char>)
    requires
        forall|i: int| 0 <= i < t.len() ==> !retained(#[trigger] t[i]),
    ensures
        keep_retained(t).len() == 0,
    decreases t.len(),
{
    if t.len() > 0 {
        lemma_nothing_retained(t.drop_last());
        assert(!retained(t[t.len() - 1]));
    }
}

// ---------------------------------------------------------------------------
// Laws of the lookup
// ---------------------------------------------------------------------------

/// `x` is what entry `e` gives for the normalized query `q` under `x`'s
/// kind: a name match carries the whole name's score, at or above the
/// whole-match threshold; a choice match carries its text's whole score, at
/// or above the same threshold, never a word-level one; a word-level match
/// is on the name, whose whole score fell below the whole-match threshold,
/// and carries the word-level score, at or above the partial-match
/// threshold.
pub open spec fn kind_sourced(x: MatchView, e: JsonEvent, q: Seq<char>) -> bool {
    match x.kind {
        MatchKind::EventName => {
            &&& x.text == e.name@
            &&& x.confidence == similarity(normalized(e.name@), q)
            &&& x.confidence >= WHOLE_MATCH_THRESHOLD
        },
        MatchKind::ChoiceText => {
            &&& x.confidence == similarity(normalized(x.text), q)
            &&& x.confidence >= WHOLE_MATCH_THRESHOLD
        },
        MatchKind::PartialEventName => {
            &&& x.text == e.name@
            &&& similarity(normalized(e.name@), q) < WHOLE_MATCH_THRESHOLD
            &&& x.confidence == partial_score(q, normalized(e.name@))
            &&& x.confidence >= PARTIAL_MATCH_THRESHOLD
        },
    }
}

/// `x` belongs to an entry of `events` and is accounted for by it.
pub open spec fn sourced(x: MatchView, events: Seq<JsonEvent>, q: Seq<char>) -> bool {
    x.event_index < events.len() && kind_sourced(x, events[x.event_index as int], q)
}

proof fn lemma_choice_candidates_sourced(index: nat, e: JsonEvent, choices: Seq<Choice>, q: Seq<char>)
    ensures
        forall|k: int|
            0 <= k < choice_candidates(index, choices, q).len() ==> {
                &&& (#[trigger] choice_candidates(index, choices, q)[k]).event_index == index
                &&& choice_candidates(index, choices, q)[k].kind == MatchKind::ChoiceText
                &&& kind_sourced(choice_candidates(index, choices, q)[k], e, q)
            },
    decreases choices.len(),
{
    if choices.len() > 0 {
        lemma_choice_candidates_sourced(index, e, choices.drop_last(), q);
    }
}

proof fn lemma_catalog_candidates_sourced(events: Seq<JsonEvent>, q: Seq<char>)
    ensures
        forall|k: int|
            0 <= k < catalog_candidates(events, q).len() ==> sourced(
                #[trigger] catalog_candidates(events, q)[k],
                events,
                q,
            ),
    decreases events.len(),
{
    if events.len() > 0 {
        let t = events.drop_last();
        let i = (events.len() - 1) as nat;
        let e = events.last();
        lemma_catalog_candidates_sourced(t, q);
        lemma_choice_candidates_sourced(i, e, e.choices@, q);
        let prev = catalog_candidates(t, q);
        let entry = entry_candidates(i, e, q);
        let all = catalog_candidates(events, q);
        let choices = choice_candidates(i, e.choices@, q);
        let name_score = similarity(normalized(e.name@), q);
        let nw: int = if name_score >= WHOLE_MATCH_THRESHOLD {
            1
        } else {
            0
        };
        assert forall|k: int| 0 <= k < all.len() implies sourced(#[trigger] all[k], events, q) by {
            if k < prev.len() {
                assert(all[k] == prev[k]);
                assert(sourced(prev[k], t, q));
                assert(events[prev[k].event_index as int] == t[prev[k].event_index as int]);
            } else {
                let k2 = k - prev.len();
                assert(all[k] == entry[k2]);
                if k2 >= nw && k2 < nw + choices.len() {
                    assert(entry[k2] == choices[k2 - nw]);
                }
            }
        }
    }
}

/// Every candidate a lookup returns is accounted for by its kind (see
/// `kind_sourced`): word-level scoring is never applied to a choice, applies
/// to an event name only where its whole score fell below the whole-match
/// threshold, and is accepted only at or above the partial-match threshold.
pub proof fn lemma_lookup_sources(text: Seq<char>, events: Seq<JsonEvent>)
    ensures
        forall|k: int|
            0 <= k < lookup_result(text, events).len() ==> sourced(
                #[trigger] lookup_result(text, events)[k],
                events,
                normalized(text),
            ),
{
    let q = normalized(text);
    if q.len() > 0 {
        let all = catalog_candidates(events, q);
        lemma_catalog_candidates_sourced(events, q);
        lemma_sort_members(all);
        lemma_sort_len(all);
        let r = sort_by_confidence(all);
        let out = lookup_result(text, events);
        assert forall|k: int| 0 <= k < out.len() implies sourced(#[trigger] out[k], events, q) by {
            assert(out[k] == r[k]);
            assert(all.contains(r[k]));
        }
    }
}

} // verus!
