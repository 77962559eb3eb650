//! Text synthesis: a weighted random walk over the chain.
//!
//! A candidate is a pair of a token and the count of the transition that
//! leads to it. One candidate is chosen by an inclusive draw from zero to
//! the sum of the counts, and a scan that subtracts each count in turn.

use rand::Rng;
use vstd::prelude::*;
use vstd::string::StringExecFns;

use crate::error::Error;
use crate::text::byte_len;
use crate::text::last_token;
use crate::text::last_word;
use crate::text::text_len;
use crate::text::trim;
use crate::text::trimmed;

verus! {

/// The sum of the counts of the candidates up to and including index `k`.
pub open spec fn weight_through(entries: Seq<(Seq<char>, i32)>, k: int) -> int
    decreases k + 1,
{
    if k < 0 || k >= entries.len() {
        0
    } else {
        weight_through(entries, k - 1) + entries[k].1
    }
}

/// The sum of the counts of all candidates.
pub open spec fn total_weight(entries: Seq<(Seq<char>, i32)>) -> int {
    weight_through(entries, entries.len() - 1)
}

/// The scan stops at candidate `k` for the draw `draw`: `k` is the first
/// candidate through which the counts sum to at least `draw`.
pub open spec fn selects(entries: Seq<(Seq<char>, i32)>, draw: int, k: int) -> bool {
    &&& 0 <= k < entries.len()
    &&& draw <= weight_through(entries, k)
    &&& forall|j: int| 0 <= j < k ==> draw > #[trigger] weight_through(entries, j)
}

/// The sum of the counts through any index lies within what that many
/// 32-bit counts can reach.
pub proof fn lemma_weight_bounds(entries: Seq<(Seq<char>, i32)>, k: int)
    requires
        -1 <= k < entries.len(),
    ensures
        (k + 1) * (i32::MIN as int) <= weight_through(entries, k) <= (k + 1) * (i32::MAX as int),
    decreases k + 1,
{
    if k >= 0 {
        lemma_weight_bounds(entries, k - 1);
        assert((k + 1) * (i32::MIN as int) == k * (i32::MIN as int) + (i32::MIN as int))
            by (nonlinear_arith);
        assert((k + 1) * (i32::MAX as int) == k * (i32::MAX as int) + (i32::MAX as int))
            by (nonlinear_arith);
    }
}

/// The sum of the counts of all candidates.
pub fn total_weight_of(entries: &[(String, i32)]) -> (total: i128)
    ensures
        total == total_weight(entries.deep_view()),
{
    let mut total: i128 = 0;
    let mut i: usize = 0;
    while i < entries.len()
        invariant
            i <= entries@.len(),
            total == weight_through(entries.deep_view(), i - 1),
        decreases entries@.len() - i,
    {
        proof {
            lemma_weight_bounds(entries.deep_view(), i - 1);
            assert(i * (i32::MAX as int) <= usize::MAX * (i32::MAX as int)) by (nonlinear_arith)
                requires
                    i <= usize::MAX,
            ;
            assert(i * (i32::MIN as int) >= usize::MAX * (i32::MIN as int)) by (nonlinear_arith)
                requires
                    i <= usize::MAX,
            ;
        }
        total = total + entries[i].1 as i128;
        i = i + 1;
    }
    total
}

/// A uniform draw from zero to `total`, both included, by
/// `rand::Rng::random_range` on the thread's generator. Nothing is
/// claimed of the draw but its range.
#[verifier::external_body]
fn random_up_to(total: i128) -> (draw: i128)
    requires
        0 <= total,
    ensures
        0 <= draw <= total,
{
    rand::rng().random_range(0..=total)
}

/// The token of the candidate at which the scan stops for `draw`: the
/// counts are subtracted from the draw in the order of the candidates, and
/// the first candidate that brings the remainder to zero or below is
/// chosen.
fn scan<'a>(entries: &'a [(String, i32)], draw: i128) -> (word: &'a String)
    requires
        0 <= draw <= total_weight(entries.deep_view()),
        0 < total_weight(entries.deep_view()),
    ensures
        exists|k: int|
            #[trigger] selects(entries.deep_view(), draw as int, k) && word@
                == entries.deep_view()[k].0,
{
    // The counts through the last candidate sum to the total, which the
    // draw does not exceed: the scan stops there at the latest.
    let last = entries.len() - 1;
    let mut remainder: i128 = draw;
    let mut i: usize = 0;
    while i < last
        invariant
            i <= last,
            last == entries@.len() - 1,
            entries@.len() <= usize::MAX,
            0 <= draw <= total_weight(entries.deep_view()),
            remainder == draw - weight_through(entries.deep_view(), i - 1),
            forall|j: int| 0 <= j < i ==> draw > #[trigger] weight_through(entries.deep_view(), j),
        decreases last - i,
    {
        proof {
            lemma_weight_bounds(entries.deep_view(), i - 1);
            lemma_weight_bounds(entries.deep_view(), entries@.len() - 1);
            assert(i * (i32::MAX as int) <= usize::MAX * (i32::MAX as int)) by (nonlinear_arith)
                requires
                    i <= usize::MAX,
            ;
            assert(i * (i32::MIN as int) >= usize::MAX * (i32::MIN as int)) by (nonlinear_arith)
                requires
                    i <= usize::MAX,
            ;
            assert(entries@.len() * (i32::MAX as int) <= usize::MAX * (i32::MAX as int))
                by (nonlinear_arith)
                requires
                    entries@.len() <= usize::MAX,
            ;
        }
        remainder = remainder - entries[i].1 as i128;
        if remainder <= 0 {
            assert(selects(entries.deep_view(), draw as int, i as int));
            return &entries[i].0;
        }
        i = i + 1;
    }
    assert(selects(entries.deep_view(), draw as int, last as int));
    &entries[last].0
}

/// The token that `draw` chooses among the candidates, by the scan that
/// subtracts each count from the draw in turn and stops at the first
/// candidate that brings the remainder to zero or below. Fails exactly
/// where the counts sum to zero or less.
pub fn select_word<'a>(entries: &'a [(String, i32)], draw: i128) -> (word: Result<
    &'a String,
    Error,
>)
    requires
        possible_draw(entries.deep_view(), draw as int),
    ensures
        word is Err <==> total_weight(entries.deep_view()) <= 0,
        word matches Err(e) ==> e == Error::Sampling,
        word matches Ok(w) ==> exists|k: int|
            #[trigger] selects(entries.deep_view(), draw as int, k) && w@
                == entries.deep_view()[k].0,
{
    if total_weight_of(entries) <= 0 {
        return Err(Error::Sampling);
    }
    Ok(scan(entries, draw))
}

/// A token drawn at random among the candidates, each weighted by its
/// count. Fails exactly where the counts sum to zero or less; otherwise
/// the token is the one that [`select_word`] gives for some draw from zero
/// to the total weight.
pub fn get_random_weighted_word<'a>(entries: &'a [(String, i32)]) -> (word: Result<
    &'a String,
    Error,
>)
    ensures
        word is Err <==> total_weight(entries.deep_view()) <= 0,
        word matches Err(e) ==> e == Error::Sampling,
        word matches Ok(w) ==> exists|draw: int, k: int|
            0 <= draw <= total_weight(entries.deep_view()) && #[trigger] selects(
                entries.deep_view(),
                draw,
                k,
            ) && w@ == entries.deep_view()[k].0,
{
    let total = total_weight_of(entries);
    if total <= 0 {
        return Err(Error::Sampling);
    }
    let draw = random_up_to(total);
    Ok(scan(entries, draw))
}

/// `draw` is a draw that the sampler can make among `entries`: one from
/// zero to their total weight, where that is positive.
pub open spec fn possible_draw(entries: Seq<(Seq<char>, i32)>, draw: int) -> bool {
    total_weight(entries) > 0 ==> 0 <= draw <= total_weight(entries)
}

/// For every draw up to the total weight, the scan stops at some
/// candidate, as long as there is one.
pub proof fn lemma_scan_stops(entries: Seq<(Seq<char>, i32)>, draw: int)
    requires
        entries.len() > 0,
        draw <= total_weight(entries),
    ensures
        exists|k: int| #[trigger] selects(entries, draw, k),
{
    lemma_scan_stops_by(entries, draw, entries.len() - 1);
}

/// Where the counts through `bound` sum to at least `draw`, the scan stops
/// at `bound` or before.
proof fn lemma_scan_stops_by(entries: Seq<(Seq<char>, i32)>, draw: int, bound: int)
    requires
        0 <= bound < entries.len(),
        draw <= weight_through(entries, bound),
    ensures
        exists|k: int| 0 <= k <= bound && #[trigger] selects(entries, draw, k),
    decreases bound,
{
    if exists|j: int| 0 <= j < bound && draw <= weight_through(entries, j) {
        let j = choose|j: int| 0 <= j < bound && draw <= weight_through(entries, j);
        lemma_scan_stops_by(entries, draw, j);
    } else {
        assert(selects(entries, draw, bound));
    }
}

/// The scan stops at one candidate only.
pub proof fn lemma_selection_unique(entries: Seq<(Seq<char>, i32)>, draw: int, k: int, l: int)
    requires
        selects(entries, draw, k),
        selects(entries, draw, l),
    ensures
        k == l,
{
    if k < l {
        assert(draw > weight_through(entries, k));
    }
    if l < k {
        assert(draw > weight_through(entries, l));
    }
}

/// Every candidate has a count of one or more.
pub open spec fn positive_counts(entries: Seq<(Seq<char>, i32)>) -> bool {
    forall|i: int| 0 <= i < entries.len() ==> (#[trigger] entries[i]).1 >= 1
}

/// With positive counts the sums through the candidates grow strictly.
pub proof fn lemma_weights_increase(entries: Seq<(Seq<char>, i32)>, j: int, k: int)
    requires
        positive_counts(entries),
        -1 <= j < k < entries.len(),
    ensures
        weight_through(entries, j) < weight_through(entries, k),
    decreases k - j,
{
    assert(entries[k].1 >= 1);
    if j < k - 1 {
        lemma_weights_increase(entries, j, k - 1);
    }
}

/// Sampler weighting: with positive counts, the draws that choose
/// candidate `k` are those above the sum of the counts before it, up to
/// the sum through it; for the first candidate, every draw up to its
/// count. Of the draws from zero to the total, a candidate's count many
/// choose it, and one more chooses the first.
pub proof fn lemma_selection_interval(entries: Seq<(Seq<char>, i32)>, draw: int, k: int)
    requires
        positive_counts(entries),
        0 <= k < entries.len(),
    ensures
        selects(entries, draw, k) <==> (if k == 0 {
            draw <= entries[0].1
        } else {
            weight_through(entries, k - 1) < draw <= weight_through(entries, k)
        }),
        weight_through(entries, k) - weight_through(entries, k - 1) == entries[k].1,
{
    assert(weight_through(entries, -1) == 0);
    if k > 0 && selects(entries, draw, k) {
        assert(draw > weight_through(entries, k - 1));
    }
    if k > 0 && weight_through(entries, k - 1) < draw <= weight_through(entries, k) {
        assert forall|j: int| 0 <= j < k implies draw > #[trigger] weight_through(entries, j) by {
            if j < k - 1 {
                lemma_weights_increase(entries, j, k - 1);
            }
        }
    }
}

/// Where the generation of a text stands, and with it what its driver has
/// to do next. The driver performs the outside work (an estimate, a query)
/// and hands the result back; every decision is taken here.
#[derive(Debug)]
pub enum Generation {
    /// No target length was given: the driver estimates one and hands it
    /// to [`Generation::with_length`].
    Estimate { start: Option<String> },
    /// The walk has put out fewer bytes than the target: the driver
    /// fetches the candidates that follow `last_word` and hands them to
    /// [`Generation::advance`]. `seed` is the trimmed seed that the text
    /// starts with, `output` the tokens that the walk has appended so far.
    Fetch { seed: String, output: String, last_word: String, target: usize },
    /// The text is complete: the seed, and after it what the walk has put
    /// out.
    Done { text: String },
}

/// A [`Generation`] with its texts as character sequences.
pub enum GenerationView {
    Estimate { start: Option<Seq<char>> },
    Fetch { seed: Seq<char>, output: Seq<char>, last_word: Seq<char>, target: usize },
    Done { text: Seq<char> },
}

impl View for Generation {
    type V = GenerationView;

    open spec fn view(&self) -> GenerationView {
        match *self {
            Generation::Estimate { start } => GenerationView::Estimate { start: seed_view(start) },
            Generation::Fetch { seed, output, last_word, target } => GenerationView::Fetch {
                seed: seed@,
                output: output@,
                last_word: last_word@,
                target,
            },
            Generation::Done { text } => GenerationView::Done { text: text@ },
        }
    }
}

/// An optional text as an optional character sequence.
pub open spec fn seed_view(start: Option<String>) -> Option<Seq<char>> {
    match start {
        Some(s) => Some(s@),
        None => None,
    }
}

/// The outcome of a step with its texts as character sequences.
pub open spec fn outcome_view(outcome: Result<Generation, Error>) -> Result<GenerationView, Error> {
    match outcome {
        Ok(g) => Ok(g@),
        Err(e) => Err(e),
    }
}

/// The text that a generation starts from: the trimmed seed, or nothing.
pub open spec fn start_text(start: Option<Seq<char>>) -> Seq<char> {
    match start {
        Some(s) => trimmed(s),
        None => Seq::empty(),
    }
}

/// `text` with `word` appended: a single space separates them unless
/// `text` is empty.
pub open spec fn joined(text: Seq<char>, word: Seq<char>) -> Seq<char> {
    if text.len() == 0 {
        word
    } else {
        text.push(' ') + word
    }
}

/// The finished text: the seed, and after it, separated by a single
/// space, what the walk has put out. Where the walk has put out nothing
/// the text is the seed alone.
pub open spec fn assembled(seed: Seq<char>, output: Seq<char>) -> Seq<char> {
    if output.len() == 0 {
        seed
    } else {
        joined(seed, output)
    }
}

/// Where a walk stands that has put out `output` after `seed` and is at
/// `last_word`: it goes on while its own output is shorter, in bytes, than
/// the target. The seed does not count towards the target.
pub open spec fn standing(
    seed: Seq<char>,
    output: Seq<char>,
    last_word: Seq<char>,
    target: usize,
) -> GenerationView {
    if byte_len(output) < target {
        GenerationView::Fetch { seed, output, last_word, target }
    } else {
        GenerationView::Done { text: assembled(seed, output) }
    }
}

/// Where a generation stands once its target length is known: the walk
/// has put out nothing yet and starts at the last token of the trimmed
/// seed, or at the empty token that marks the start of a text. It waits
/// for candidates whenever the target is positive.
pub open spec fn begun(start: Option<Seq<char>>, target: usize) -> GenerationView {
    standing(start_text(start), Seq::empty(), last_token(start_text(start)), target)
}

/// Where a generation stands at its very beginning.
pub open spec fn initial(text_length: Option<usize>, start: Option<Seq<char>>) -> GenerationView {
    match text_length {
        Some(target) => begun(start, target),
        None => GenerationView::Estimate { start },
    }
}

/// The candidate at which the scan stops for `draw`.
pub open spec fn selected(entries: Seq<(Seq<char>, i32)>, draw: int) -> int {
    choose|k: int| selects(entries, draw, k)
}

/// One step of the walk. A generation that waits for candidates ends
/// where there are none, fails where their counts sum to zero or less, and
/// else appends the token that `draw` chooses to its output and walks on
/// from it. Any other generation stays as it is.
pub open spec fn advanced(
    state: GenerationView,
    entries: Seq<(Seq<char>, i32)>,
    draw: int,
) -> Result<GenerationView, Error> {
    match state {
        GenerationView::Fetch { seed, output, last_word, target } => {
            if entries.len() == 0 {
                Ok(GenerationView::Done { text: assembled(seed, output) })
            } else if total_weight(entries) <= 0 {
                Err(Error::Sampling)
            } else {
                let word = entries[selected(entries, draw)].0;
                Ok(standing(seed, joined(output, word), word, target))
            }
        },
        _ => Ok(state),
    }
}

/// A text grows, in bytes, with every token that is appended, unless both
/// are empty.
pub proof fn lemma_joined_is_longer(text: Seq<char>, word: Seq<char>)
    requires
        text.len() > 0 || word.len() > 0,
    ensures
        byte_len(joined(text, word)) > byte_len(text),
{
    if text.len() == 0 {
        assert(text =~= Seq::<char>::empty());
        crate::text::lemma_byte_len_at_least_len(word);
    } else {
        let sep = seq![' '];
        assert(text.push(' ') =~= text + sep);
        crate::text::lemma_byte_len_concat(text, sep);
        crate::text::lemma_byte_len_concat(text + sep, word);
        crate::text::lemma_byte_len_at_least_len(sep);
    }
}

/// A dead end ends the walk: where nothing follows the last word, a
/// generation that has just begun ends with the trimmed seed alone, the
/// empty text where there is no seed, and does not fail.
pub proof fn lemma_dead_end(start: Option<Seq<char>>, target: usize, draw: int)
    ensures
        advanced(begun(start, target), Seq::empty(), draw) == Ok::<GenerationView, Error>(
            GenerationView::Done { text: start_text(start) },
        ),
{
}

/// A generation with a positive target always takes a first step: the
/// seed, however long, does not end the walk.
pub proof fn lemma_positive_target_walks(start: Option<Seq<char>>, target: usize)
    requires
        0 < target,
    ensures
        begun(start, target) == (GenerationView::Fetch {
            seed: start_text(start),
            output: Seq::empty(),
            last_word: last_token(start_text(start)),
            target,
        }),
{
    assert(byte_len(Seq::<char>::empty()) == 0);
}

/// Where a single candidate follows the seed, every draw appends its
/// token to the seed after one space; the walk ends there if the token
/// fills the target.
pub proof fn lemma_only_candidate_follows_seed(
    start: Option<Seq<char>>,
    target: usize,
    word: Seq<char>,
    count: i32,
    draw: int,
)
    requires
        0 < target <= byte_len(word),
        1 <= count,
        0 <= draw <= count,
        start_text(start).len() > 0,
    ensures
        advanced(begun(start, target), seq![(word, count)], draw) == Ok::<GenerationView, Error>(
            GenerationView::Done { text: start_text(start).push(' ') + word },
        ),
{
    let entries = seq![(word, count)];
    lemma_positive_target_walks(start, target);
    assert(weight_through(entries, -1) == 0);
    assert(weight_through(entries, 0) == count);
    assert(selects(entries, draw, 0));
    lemma_selection_unique(entries, draw, 0, selected(entries, draw));
    assert(joined(Seq::<char>::empty(), word) == word);
    assert(word.len() > 0) by {
        if word.len() == 0 {
            assert(word =~= Seq::<char>::empty());
            assert(byte_len(word) == 0);
        }
    }
}

/// The finished text: the seed, and after it, separated by a single
/// space, what the walk has put out.
fn assemble(seed: String, output: &str) -> (text: String)
    ensures
        text@ == assembled(seed@, output@),
{
    if output.is_empty() {
        seed
    } else {
        join(seed, output)
    }
}

/// The walk goes on from `last_word` or ends, by the length of its
/// output.
fn stand(seed: String, output: String, last_word: String, target: usize) -> (g: Generation)
    ensures
        g@ == standing(seed@, output@, last_word@, target),
{
    if text_len(output.as_str()) < target {
        Generation::Fetch { seed, output, last_word, target }
    } else {
        Generation::Done { text: assemble(seed, output.as_str()) }
    }
}

/// `text` with `word` appended after a single space, or `word` alone where
/// `text` is empty.
pub fn join(text: String, word: &str) -> (longer: String)
    ensures
        longer@ == joined(text@, word@),
{
    let mut longer = text;
    if longer.as_str().is_empty() {
        longer.append(word);
        assert(longer@ =~= word@);
    } else {
        longer.push(' ');
        longer.append(word);
    }
    longer
}

/// Starts the generation of a text: the walk is to put out `text_length`
/// bytes where that is given, after `start` where that is given. The seed
/// does not count towards the length. Without a length the generation
/// first asks for an estimate.
pub fn generate_text(text_length: Option<usize>, start: Option<String>) -> (g: Generation)
    ensures
        g@ == initial(text_length, seed_view(start)),
{
    match text_length {
        Some(target) => Generation::Estimate { start }.with_length(target),
        None => Generation::Estimate { start },
    }
}

impl Generation {
    /// Takes the estimated target length. A generation that waits for it
    /// starts its walk; any other stays as it is.
    pub fn with_length(self, target: usize) -> (g: Generation)
        ensures
            g@ == (match self@ {
                GenerationView::Estimate { start } => begun(start, target),
                _ => self@,
            }),
    {
        match self {
            Generation::Estimate { start } => {
                let seed = match start {
                    Some(given) => trim(given.as_str()).to_owned(),
                    None => String::new(),
                };
                let word = last_word(seed.as_str());
                stand(seed, String::new(), word, target)
            },
            other => other,
        }
    }

    /// Takes the candidates that follow the last word, and the draw that
    /// chooses among them.
    pub fn advance_with(self, entries: &[(String, i32)], draw: i128) -> (outcome: Result<
        Generation,
        Error,
    >)
        requires
            possible_draw(entries.deep_view(), draw as int),
        ensures
            outcome_view(outcome) == advanced(self@, entries.deep_view(), draw as int),
    {
        match self {
            Generation::Fetch { seed, output, last_word, target } => {
                if entries.len() == 0 {
                    return Ok(Generation::Done { text: assemble(seed, output.as_str()) });
                }
                match select_word(entries, draw) {
                    Ok(word) => {
                        proof {
                            lemma_selected(entries.deep_view(), draw as int, word@);
                        }
                        Ok(stand(seed, join(output, word.as_str()), word.clone(), target))
                    },
                    Err(e) => Err(e),
                }
            },
            other => Ok(other),
        }
    }

    /// Takes the candidates that follow the last word and chooses among
    /// them at random, each weighted by its count. The outcome is what
    /// [`Generation::advance_with`] gives for some draw that the sampler
    /// can make.
    pub fn advance(self, entries: &[(String, i32)]) -> (outcome: Result<Generation, Error>)
        ensures
            exists|draw: int| #[trigger]
                possible_draw(entries.deep_view(), draw) && outcome_view(outcome) == advanced(
                    self@,
                    entries.deep_view(),
                    draw,
                ),
    {
        let ghost found = entries.deep_view();
        match self {
            Generation::Fetch { seed, output, last_word, target } => {
                if entries.len() == 0 {
                    assert(possible_draw(found, 0));
                    return Ok(Generation::Done { text: assemble(seed, output.as_str()) });
                }
                match get_random_weighted_word(entries) {
                    Ok(word) => {
                        proof {
                            let (draw, k) = choose|draw: int, k: int|
                                0 <= draw <= total_weight(found) && #[trigger] selects(
                                    found,
                                    draw,
                                    k,
                                ) && word@ == found[k].0;
                            lemma_selected(found, draw, word@);
                            assert(possible_draw(found, draw));
                        }
                        Ok(stand(seed, join(output, word.as_str()), word.clone(), target))
                    },
                    Err(e) => {
                        assert(possible_draw(found, 0));
                        Err(e)
                    },
                }
            },
            other => {
                assert(possible_draw(found, 0));
                Ok(other)
            },
        }
    }
}

/// The token of a candidate at which the scan stops is the token of the
/// selected candidate.
proof fn lemma_selected(entries: Seq<(Seq<char>, i32)>, draw: int, word: Seq<char>)
    requires
        exists|k: int| #[trigger] selects(entries, draw, k) && word == entries[k].0,
    ensures
        word == entries[selected(entries, draw)].0,
{
    let k = choose|k: int| #[trigger] selects(entries, draw, k) && word == entries[k].0;
    lemma_selection_unique(entries, draw, k, selected(entries, draw));
}

} // verus!
