//! The chain: the texts that were learned and the transitions between
//! their tokens, each with the number of times it was seen.
//!
//! [`Chain`] keeps both in memory and states, as contracts, what any store
//! of the chain has to do: a transition is created with a count of one and
//! counted up by one each time it is seen again, never lost, never reset.

use vstd::prelude::*;
use vstd::string::StrSliceExecFns;

use crate::counts::lemma_incremented;
use crate::counts::lemma_outgoing_sound;
use crate::error::first_error;
use crate::error::first_failure;
use crate::error::Error;
use crate::generator::advanced;
use crate::generator::begun;
use crate::generator::generate_text;
use crate::generator::possible_draw;
use crate::generator::seed_view;
use crate::generator::start_text;
use crate::generator::total_weight;
use crate::generator::Generation;
use crate::generator::GenerationView;
use crate::input::derived_entries;
use crate::input::entry_key;
use crate::input::increment_or_create_entry;
use crate::input::process_input;
use crate::text::byte_len;
use crate::text::last_token;
use crate::text::tokens;
use crate::text::trim;
use crate::text::trimmed;

verus! {

/// A transition from one token to the next, and how often it was seen.
/// The empty token as `from` marks the start of a text.
#[derive(Debug)]
pub struct Edge {
    pub from: String,
    pub to: String,
    pub count: i32,
}

/// An [`Edge`] with its tokens as character sequences.
pub struct EdgeView {
    pub from: Seq<char>,
    pub to: Seq<char>,
    pub count: i32,
}

impl View for Edge {
    type V = EdgeView;

    open spec fn view(&self) -> EdgeView {
        EdgeView { from: self.from@, to: self.to@, count: self.count }
    }
}

/// The largest count that an edge can hold.
pub const MAX_COUNT: i32 = 0x7fff_ffff;

/// Some edge leads from `from` to `to`.
pub open spec fn has_edge(edges: Seq<EdgeView>, from: Seq<char>, to: Seq<char>) -> bool {
    exists|i: int| 0 <= i < edges.len() && (#[trigger] edges[i]).from == from && edges[i].to == to
}

/// The place of an edge that leads from `from` to `to`.
pub open spec fn edge_index(edges: Seq<EdgeView>, from: Seq<char>, to: Seq<char>) -> int {
    choose|i: int| 0 <= i < edges.len() && (#[trigger] edges[i]).from == from && edges[i].to == to
}

/// How often the transition from `from` to `to` was seen: the count of its
/// edge, or zero where there is none.
pub open spec fn count_of(edges: Seq<EdgeView>, from: Seq<char>, to: Seq<char>) -> int {
    if has_edge(edges, from, to) {
        edges[edge_index(edges, from, to)].count as int
    } else {
        0
    }
}

/// The edges are those of a chain: no transition has two edges, every
/// count is positive, and every token is trimmed, the one that an edge
/// leads to not empty.
pub open spec fn well_formed(edges: Seq<EdgeView>) -> bool {
    &&& forall|i: int, j: int|
        0 <= i < j < edges.len() ==> !((#[trigger] edges[i]).from == (#[trigger] edges[j]).from
            && edges[i].to == edges[j].to)
    &&& forall|i: int|
        0 <= i < edges.len() ==> {
            &&& (#[trigger] edges[i]).count >= 1
            &&& edges[i].to.len() > 0
            &&& trimmed(edges[i].to) == edges[i].to
            &&& trimmed(edges[i].from) == edges[i].from
        }
}

/// The edges after the transition from `from` to `to` was seen once more:
/// its edge is counted up by one, or created with a count of one.
pub open spec fn incremented(edges: Seq<EdgeView>, from: Seq<char>, to: Seq<char>) -> Seq<
    EdgeView,
> {
    if has_edge(edges, from, to) {
        let i = edge_index(edges, from, to);
        edges.update(i, EdgeView { from, to, count: (edges[i].count + 1) as i32 })
    } else {
        edges.push(EdgeView { from, to, count: 1 })
    }
}

/// Whether the store refuses to count the pair of tokens: its transition
/// already has the largest count.
pub open spec fn refuses(edges: Seq<EdgeView>, from: Seq<char>, to: Seq<char>) -> bool {
    match entry_key(from, to) {
        Some(key) => count_of(edges, key.0, key.1) == MAX_COUNT,
        None => false,
    }
}

/// The edges after the store was handed the pair of tokens: unchanged where
/// the pair stands for no transition or the store refuses, else with the
/// transition counted once more.
pub open spec fn counted(edges: Seq<EdgeView>, from: Seq<char>, to: Seq<char>) -> Seq<EdgeView> {
    match entry_key(from, to) {
        Some(key) => if count_of(edges, key.0, key.1) == MAX_COUNT {
            edges
        } else {
            incremented(edges, key.0, key.1)
        },
        None => edges,
    }
}

/// The edges after the store was handed each of `pairs` in turn.
pub open spec fn learned(edges: Seq<EdgeView>, pairs: Seq<(Seq<char>, Seq<char>)>) -> Seq<
    EdgeView,
>
    decreases pairs.len(),
{
    if pairs.len() == 0 {
        edges
    } else {
        counted(learned(edges, pairs.drop_last()), pairs.last().0, pairs.last().1)
    }
}

/// What the store answered to each of `pairs` in turn.
pub open spec fn answers(edges: Seq<EdgeView>, pairs: Seq<(Seq<char>, Seq<char>)>) -> Seq<
    Result<(), Error>,
>
    decreases pairs.len(),
{
    if pairs.len() == 0 {
        Seq::empty()
    } else {
        answers(edges, pairs.drop_last()).push(
            if refuses(learned(edges, pairs.drop_last()), pairs.last().0, pairs.last().1) {
                Err(Error::Storage)
            } else {
                Ok(())
            },
        )
    }
}

/// The candidates that follow `from`: the token and the count of each edge
/// that leaves it, in the order of the edges.
pub open spec fn outgoing(edges: Seq<EdgeView>, from: Seq<char>) -> Seq<(Seq<char>, i32)>
    decreases edges.len(),
{
    if edges.len() == 0 {
        Seq::empty()
    } else if edges.last().from == from {
        outgoing(edges.drop_last(), from).push((edges.last().to, edges.last().count))
    } else {
        outgoing(edges.drop_last(), from)
    }
}

/// The edges after a text was learned: each of its transitions handed to
/// the store in turn. A text that is empty once trimmed teaches nothing.
pub open spec fn ingested(edges: Seq<EdgeView>, input: Seq<char>) -> Seq<EdgeView> {
    if trimmed(input).len() == 0 {
        edges
    } else {
        learned(edges, derived_entries(tokens(trimmed(input))))
    }
}

/// The edges after the same text was learned `n` times.
pub open spec fn ingested_times(edges: Seq<EdgeView>, input: Seq<char>, n: nat) -> Seq<EdgeView>
    decreases n,
{
    if n == 0 {
        edges
    } else {
        ingested(ingested_times(edges, input, (n - 1) as nat), input)
    }
}

/// How many of `pairs` stand for the transition from `from` to `to`.
pub open spec fn occurrences(
    pairs: Seq<(Seq<char>, Seq<char>)>,
    from: Seq<char>,
    to: Seq<char>,
) -> nat
    decreases pairs.len(),
{
    if pairs.len() == 0 {
        0
    } else {
        occurrences(pairs.drop_last(), from, to) + if entry_key(pairs.last().0, pairs.last().1)
            == Some((from, to)) {
            1nat
        } else {
            0nat
        }
    }
}

/// How many pairs of all the `batches` together stand for the transition
/// from `from` to `to`.
pub open spec fn all_occurrences(
    batches: Seq<Seq<(Seq<char>, Seq<char>)>>,
    from: Seq<char>,
    to: Seq<char>,
) -> nat
    decreases batches.len(),
{
    if batches.len() == 0 {
        0
    } else {
        all_occurrences(batches.drop_last(), from, to) + occurrences(batches.last(), from, to)
    }
}

/// The pairs of all the `batches`, one batch after the other.
pub open spec fn all_pairs(batches: Seq<Seq<(Seq<char>, Seq<char>)>>) -> Seq<
    (Seq<char>, Seq<char>),
>
    decreases batches.len(),
{
    if batches.len() == 0 {
        Seq::empty()
    } else {
        all_pairs(batches.drop_last()) + batches.last()
    }
}

/// The candidates among which the walk chooses next: those that follow the
/// last word of a generation that waits for them.
pub open spec fn candidates(edges: Seq<EdgeView>, state: GenerationView) -> Seq<(Seq<char>, i32)> {
    match state {
        GenerationView::Fetch { last_word, .. } => outgoing(edges, last_word),
        _ => Seq::empty(),
    }
}

/// Where a generation stands after one step for each of `draws`, every
/// step taken with the candidates that the chain holds for it.
pub open spec fn walked(edges: Seq<EdgeView>, state: GenerationView, draws: Seq<int>) -> Result<
    GenerationView,
    Error,
>
    decreases draws.len(),
{
    if draws.len() == 0 {
        Ok(state)
    } else {
        match walked(edges, state, draws.drop_last()) {
            Ok(before) => advanced(before, candidates(edges, before), draws.last()),
            Err(e) => Err(e),
        }
    }
}

/// The draw of step `i` is one that the sampler can make there: no step
/// before it has failed, and the draw fits the candidates of its step.
pub open spec fn possible_step(
    edges: Seq<EdgeView>,
    state: GenerationView,
    draws: Seq<int>,
    i: int,
) -> bool {
    match walked(edges, state, draws.take(i)) {
        Ok(before) => possible_draw(candidates(edges, before), draws[i]),
        Err(_) => false,
    }
}

/// Every one of `draws` is a draw that the sampler can make at its step.
pub open spec fn possible_draws(
    edges: Seq<EdgeView>,
    state: GenerationView,
    draws: Seq<int>,
) -> bool {
    forall|i: int| 0 <= i < draws.len() ==> #[trigger] possible_step(edges, state, draws, i)
}

/// How far a generation is from its end: the bytes that its output still
/// lacks.
spec fn lacking(state: GenerationView) -> int {
    match state {
        GenerationView::Fetch { output, target, .. } => target - byte_len(output),
        _ => 0,
    }
}

/// A chain held in memory.
#[derive(Debug)]
pub struct Chain {
    texts: Vec<String>,
    edges: Vec<Edge>,
}

/// What a [`Chain`] holds.
pub struct ChainView {
    /// The recorded texts, oldest first.
    pub texts: Seq<Seq<char>>,
    /// The edges, in the order in which their transitions were first seen.
    pub edges: Seq<EdgeView>,
}

impl View for Chain {
    type V = ChainView;

    closed spec fn view(&self) -> ChainView {
        ChainView { texts: self.texts.deep_view(), edges: edge_views(self.edges@) }
    }
}

/// The edges with their tokens as character sequences.
pub open spec fn edge_views(edges: Seq<Edge>) -> Seq<EdgeView> {
    Seq::new(edges.len(), |i: int| edges[i]@)
}

impl Chain {
    /// The chain is sound: its edges are well formed. Every chain that
    /// this module hands out is, and every operation keeps it so.
    pub open spec fn wf(&self) -> bool {
        well_formed(self@.edges)
    }

    /// A chain that has learned nothing.
    pub fn new() -> (chain: Chain)
        ensures
            chain.wf(),
            chain@.texts.len() == 0,
            chain@.edges.len() == 0,
    {
        Chain { texts: Vec::new(), edges: Vec::new() }
    }

    /// The chain that holds the given edges and no text, where the edges
    /// are well formed; nothing where they are not.
    pub fn from_edges(edges: Vec<Edge>) -> (chain: Option<Chain>)
        ensures
            chain is Some <==> well_formed(edge_views(edges@)),
            chain matches Some(c) ==> c.wf() && c@.edges == edge_views(edges@) && c@.texts.len()
                == 0,
    {
        let ghost views = edge_views(edges@);
        let mut i: usize = 0;
        while i < edges.len()
            invariant
                i <= edges@.len(),
                views == edge_views(edges@),
                well_formed(views.take(i as int)),
            decreases edges@.len() - i,
        {
            let edge = &edges[i];
            assert(views[i as int] == edge@);
            let to_trimmed = trim(edge.to.as_str()).to_owned();
            let from_trimmed = trim(edge.from.as_str()).to_owned();
            if edge.count < 1 || edge.to.as_str().is_empty() || to_trimmed != edge.to
                || from_trimmed != edge.from {
                return None;
            }
            let mut j: usize = 0;
            while j < i
                invariant
                    j <= i < edges@.len(),
                    views == edge_views(edges@),
                    forall|k: int|
                        0 <= k < j ==> !((#[trigger] views[k]).from == views[i as int].from
                            && views[k].to == views[i as int].to),
                decreases i - j,
            {
                assert(views[j as int] == edges@[j as int]@);
                assert(views[i as int] == edges@[i as int]@);
                if edges[j].from == edges[i].from && edges[j].to == edges[i].to {
                    return None;
                }
                j = j + 1;
            }
            proof {
                let shorter = views.take(i as int);
                let longer = views.take(i + 1);
                assert forall|a: int, b: int| 0 <= a < b < longer.len() implies !((
                #[trigger] longer[a]).from == (#[trigger] longer[b]).from && longer[a].to
                    == longer[b].to) by {
                    if b < i {
                        assert(longer[a] == shorter[a] && longer[b] == shorter[b]);
                    }
                }
                assert forall|a: int| 0 <= a < longer.len() implies {
                    &&& (#[trigger] longer[a]).count >= 1
                    &&& longer[a].to.len() > 0
                    &&& trimmed(longer[a].to) == longer[a].to
                    &&& trimmed(longer[a].from) == longer[a].from
                } by {
                    if a < i {
                        assert(longer[a] == shorter[a]);
                    }
                }
            }
            i = i + 1;
        }
        proof {
            assert(views.take(edges@.len() as int) =~= views);
        }
        Some(Chain { texts: Vec::new(), edges })
    }

    /// Records a text as it is.
    pub fn record_text(&mut self, content: &str)
        ensures
            final(self)@.texts == old(self)@.texts.push(content@),
            final(self)@.edges == old(self)@.edges,
    {
        let ghost before = self.texts.deep_view();
        self.texts.push(content.to_owned());
        assert(self.texts.deep_view() =~= before.push(content@));
    }

    /// Counts the transition from `from` to `to` once more. The store
    /// refuses, and changes nothing, where the count cannot grow.
    fn upsert(&mut self, from: String, to: String) -> (done: Result<(), Error>)
        requires
            old(self).wf(),
            to@.len() > 0,
            trimmed(to@) == to@,
            trimmed(from@) == from@,
        ensures
            final(self).wf(),
            final(self)@.texts == old(self)@.texts,
            count_of(old(self)@.edges, from@, to@) == MAX_COUNT ==> done == Err::<(), Error>(
                Error::Storage,
            ) && final(self)@.edges == old(self)@.edges,
            count_of(old(self)@.edges, from@, to@) != MAX_COUNT ==> done == Ok::<(), Error>(())
                && final(self)@.edges == incremented(old(self)@.edges, from@, to@),
    {
        let ghost before = self@.edges;
        let mut i: usize = 0;
        while i < self.edges.len()
            invariant
                i <= self.edges@.len(),
                self@.edges == before,
                before == old(self)@.edges,
                self@.texts == old(self)@.texts,
                well_formed(before),
                forall|j: int|
                    0 <= j < i ==> !((#[trigger] before[j]).from == from@ && before[j].to == to@),
            decreases self.edges@.len() - i,
        {
            if self.edges[i].from == from && self.edges[i].to == to {
                proof {
                    assert(before[i as int].from == from@ && before[i as int].to == to@);
                    assert(has_edge(before, from@, to@));
                    let k = edge_index(before, from@, to@);
                    assert(k == i);
                }
                let count = self.edges[i].count;
                if count == MAX_COUNT {
                    return Err(Error::Storage);
                }
                proof {
                    lemma_incremented(before, from@, to@);
                }
                self.edges.set(i, Edge { from, to, count: count + 1 });
                assert(self@.edges =~= incremented(before, from@, to@));
                return Ok(());
            }
            i = i + 1;
        }
        proof {
            assert(!has_edge(before, from@, to@));
            lemma_incremented(before, from@, to@);
        }
        self.edges.push(Edge { from, to, count: 1 });
        assert(self@.edges =~= incremented(before, from@, to@));
        Ok(())
    }

    /// Hands a pair of tokens to the store: both are trimmed, and the
    /// transition between them is counted once more, created with a count
    /// of one where it is new. A pair whose second token is empty once
    /// trimmed changes nothing. The store refuses, and changes nothing,
    /// where the count already is [`MAX_COUNT`].
    pub fn increment_or_create_entry(&mut self, from: &str, to: &str) -> (done: Result<(), Error>)
        requires
            old(self).wf(),
        ensures
            final(self).wf(),
            final(self)@.texts == old(self)@.texts,
            final(self)@.edges == counted(old(self)@.edges, from@, to@),
            done == (if refuses(old(self)@.edges, from@, to@) {
                Err::<(), Error>(Error::Storage)
            } else {
                Ok(())
            }),
    {
        match increment_or_create_entry(from, to) {
            Some((key_from, key_to)) => {
                proof {
                    crate::text::lemma_trimmed_idempotent(from@);
                    crate::text::lemma_trimmed_idempotent(to@);
                }
                self.upsert(key_from, key_to)
            },
            None => Ok(()),
        }
    }

    /// The candidates that follow `from`: the token and the count of each
    /// edge that leaves it, in the order of the edges.
    pub fn edges_from(&self, from: &str) -> (entries: Vec<(String, i32)>)
        ensures
            entries.deep_view() == outgoing(self@.edges, from@),
    {
        let from = from.to_owned();
        let mut entries: Vec<(String, i32)> = Vec::new();
        let mut i: usize = 0;
        while i < self.edges.len()
            invariant
                i <= self.edges@.len(),
                entries.deep_view() == outgoing(self@.edges.take(i as int), from@),
            decreases self.edges@.len() - i,
        {
            let ghost found = entries.deep_view();
            proof {
                assert(self@.edges.take(i + 1).drop_last() =~= self@.edges.take(i as int));
                assert(self@.edges.take(i + 1).last() == self.edges@[i as int]@);
            }
            if self.edges[i].from == from {
                entries.push((self.edges[i].to.clone(), self.edges[i].count));
                assert(entries.deep_view() =~= found.push(
                    (self.edges@[i as int].to@, self.edges@[i as int].count),
                ));
            }
            i = i + 1;
        }
        proof {
            assert(self@.edges.take(self.edges@.len() as int) =~= self@.edges);
        }
        entries
    }

    /// Learns a text: records it trimmed, and hands each of its
    /// transitions to the store. All of them are handed over, whatever the
    /// store answers; the outcome is the first refusal, if there is one. A
    /// text that is empty once trimmed changes nothing.
    pub fn process_input(&mut self, input: String) -> (done: Result<(), Error>)
        requires
            old(self).wf(),
        ensures
            final(self).wf(),
            final(self)@.edges == ingested(old(self)@.edges, input@),
            trimmed(input@).len() == 0 ==> done is Ok && final(self)@.texts == old(self)@.texts,
            trimmed(input@).len() > 0 ==> {
                &&& final(self)@.texts == old(self)@.texts.push(trimmed(input@))
                &&& done == (match first_failure(
                    answers(old(self)@.edges, derived_entries(tokens(trimmed(input@)))),
                ) {
                    Some(e) => Err::<(), Error>(e),
                    None => Ok(()),
                })
            },
    {
        let ingest = match process_input(input) {
            Some(ingest) => ingest,
            None => {
                return Ok(());
            },
        };
        self.record_text(ingest.content.as_str());
        let ghost start = old(self)@.edges;
        let ghost pairs = ingest.entries.deep_view();
        let mut results: Vec<Result<(), Error>> = Vec::new();
        let mut i: usize = 0;
        while i < ingest.entries.len()
            invariant
                i <= ingest.entries@.len(),
                pairs == ingest.entries.deep_view(),
                self.wf(),
                self@.texts == old(self)@.texts.push(trimmed(input@)),
                self@.edges == learned(start, pairs.take(i as int)),
                results@ == answers(start, pairs.take(i as int)),
            decreases ingest.entries@.len() - i,
        {
            proof {
                assert(pairs.take(i + 1).drop_last() =~= pairs.take(i as int));
                assert(pairs.take(i + 1).last() == pairs[i as int]);
            }
            let answer = self.increment_or_create_entry(
                ingest.entries[i].0.as_str(),
                ingest.entries[i].1.as_str(),
            );
            results.push(answer);
            i = i + 1;
        }
        proof {
            assert(pairs.take(pairs.len() as int) =~= pairs);
        }
        first_error(results)
    }

    /// Generates a text by a weighted walk over the chain, after `start`
    /// where it is given. The walk ends as soon as it has put out
    /// `text_length` bytes, the seed not counted, or where no edge leaves
    /// the last word; its output may exceed the length by its last token.
    /// The text is what the steps of [`Generation::advance_with`] give for
    /// some draws that the sampler can make.
    pub fn generate_text(&self, text_length: usize, start: Option<String>) -> (text: Result<
        String,
        Error,
    >)
        requires
            self.wf(),
        ensures
            text is Ok,
            text matches Ok(t) ==> exists|draws: Seq<int>|
                possible_draws(self@.edges, begun(seed_view(start), text_length), draws)
                    && #[trigger] walked(
                    self@.edges,
                    begun(seed_view(start), text_length),
                    draws,
                ) == Ok::<GenerationView, Error>(GenerationView::Done { text: t@ }),
            text matches Ok(t) ==> outgoing(
                self@.edges,
                last_token(start_text(seed_view(start))),
            ).len() == 0 ==> t@ == start_text(seed_view(start)),
            text matches Ok(t) ==> text_length == 0 ==> t@ == start_text(seed_view(start)),
    {
        let ghost edges = self@.edges;
        let ghost first = begun(seed_view(start), text_length);
        let ghost mut draws: Seq<int> = Seq::empty();
        let mut state = generate_text(Some(text_length), start);
        // Each step makes the text longer, so the walk comes to an end.
        loop
            invariant
                self.wf(),
                edges == self@.edges,
                first == begun(seed_view(start), text_length),
                !(state@ is Estimate),
                state@ matches GenerationView::Fetch { output, target, .. } ==> byte_len(output)
                    < target,
                possible_draws(edges, first, draws),
                walked(edges, first, draws) == Ok::<GenerationView, Error>(state@),
                candidates(edges, first).len() == 0 ==> state@ == first || state@
                    == (GenerationView::Done { text: start_text(seed_view(start)) }),
                text_length == 0 ==> state@ == (GenerationView::Done {
                    text: start_text(seed_view(start)),
                }),
            decreases lacking(state@),
        {
            let ghost before = state@;
            match state {
                Generation::Fetch { seed, output, last_word, target } => {
                    let entries = self.edges_from(last_word.as_str());
                    let waiting = Generation::Fetch { seed, output, last_word, target };
                    assert(waiting@ == before);
                    let slice = entries.as_slice();
                    let outcome = waiting.advance(slice);
                    proof {
                        let found = entries.deep_view();
                        assert(slice.deep_view() =~= found);
                        assert(found == candidates(edges, before));
                        let draw = choose|draw: int| #[trigger]
                            possible_draw(found, draw) && crate::generator::outcome_view(outcome)
                                == advanced(before, found, draw);
                        let longer = draws.push(draw);
                        assert(longer.drop_last() =~= draws);
                        assert forall|i: int|
                            0 <= i < longer.len() implies #[trigger] possible_step(
                            edges,
                            first,
                            longer,
                            i,
                        ) by {
                            if i < draws.len() {
                                assert(longer.take(i) =~= draws.take(i));
                                assert(possible_step(edges, first, draws, i));
                            } else {
                                assert(longer.take(i) =~= draws);
                            }
                        }
                        lemma_outgoing_sound(edges, before->Fetch_last_word);
                        if found.len() > 0 {
                            crate::generator::lemma_weights_increase(found, -1, found.len() - 1);
                            let k = crate::generator::selected(found, draw);
                            crate::generator::lemma_scan_stops(found, draw);
                            crate::generator::lemma_joined_is_longer(
                                before->Fetch_output,
                                found[k].0,
                            );
                        }
                        draws = longer;
                    }
                    match outcome {
                        Ok(next) => {
                            state = next;
                        },
                        Err(e) => {
                            return Err(e);
                        },
                    }
                },
                Generation::Done { text } => {
                    return Ok(text);
                },
                Generation::Estimate { start } => {
                    state = Generation::Estimate { start }.with_length(text_length);
                },
            }
        }
    }

    /// The length of each recorded text, in characters, oldest first:
    /// what the target length of a generated text is estimated from.
    pub fn text_lengths(&self) -> (lengths: Vec<usize>)
        ensures
            lengths@.len() == self@.texts.len(),
            forall|i: int|
                0 <= i < lengths@.len() ==> lengths@[i] == (#[trigger] self@.texts[i]).len(),
    {
        let mut lengths: Vec<usize> = Vec::new();
        let mut i: usize = 0;
        while i < self.texts.len()
            invariant
                i <= self.texts@.len(),
                lengths@.len() == i,
                forall|k: int|
                    0 <= k < i ==> lengths@[k] == (#[trigger] self.texts.deep_view()[k]).len(),
            decreases self.texts@.len() - i,
        {
            lengths.push(self.texts[i].as_str().unicode_len());
            i = i + 1;
        }
        lengths
    }

    /// The number of recorded texts.
    pub fn text_count(&self) -> (n: usize)
        ensures
            n == self@.texts.len(),
    {
        self.texts.len()
    }

    /// The edges, in the order in which their transitions were first seen.
    pub fn edges(&self) -> (edges: &Vec<Edge>)
        ensures
            edge_views(edges@) == self@.edges,
    {
        &self.edges
    }
}

} // verus!
