//! Learning: from a submitted text to the transitions that it teaches.
//!
//! A text is trimmed and split at its spaces. Its first token follows the
//! empty token, which marks the start of a text; every later token but the
//! last one follows the token before it. The transition into the last
//! token of a text is not recorded.

use vstd::prelude::*;

use crate::text::split_spaces;
use crate::text::tokens;
use crate::text::trim;
use crate::text::trimmed;

verus! {

/// What one submitted text asks of the chain store.
#[derive(Debug)]
pub struct Ingest {
    /// The trimmed text, to be recorded as it is.
    pub content: String,
    /// The transitions of the text, as pairs of a token and the token that
    /// follows it, in the order of the text. Each is to be handed to
    /// [`increment_or_create_entry`].
    pub entries: Vec<(String, String)>,
}

/// The transitions that a text with the tokens `parts` teaches: the start
/// of the text into its first token, then each token into the next, up to
/// the token before the last.
pub open spec fn derived_entries(parts: Seq<Seq<char>>) -> Seq<(Seq<char>, Seq<char>)> {
    Seq::new(
        if parts.len() <= 2 {
            1
        } else {
            (parts.len() - 1) as nat
        },
        |i: int|
            if i == 0 {
                (Seq::empty(), parts[0])
            } else {
                (parts[i - 1], parts[i])
            },
    )
}

/// The transition that a pair of tokens stands for in the store: both
/// tokens trimmed, and none at all where the second is then empty.
pub open spec fn entry_key(from: Seq<char>, to: Seq<char>) -> Option<(Seq<char>, Seq<char>)> {
    if trimmed(to).len() == 0 {
        None
    } else {
        Some((trimmed(from), trimmed(to)))
    }
}

/// Takes a submitted text apart. A text that is empty once trimmed asks
/// nothing of the store.
pub fn process_input(input: String) -> (plan: Option<Ingest>)
    ensures
        plan is None <==> trimmed(input@).len() == 0,
        plan matches Some(ingest) ==> ingest.content@ == trimmed(input@)
            && ingest.entries.deep_view() == derived_entries(tokens(trimmed(input@))),
{
    let content = trim(input.as_str());
    if content.is_empty() {
        return None;
    }
    let parts = split_spaces(content);
    proof {
        crate::text::lemma_tokens_nonempty(content@);
    }
    let ghost wanted = derived_entries(parts.deep_view());
    let mut entries: Vec<(String, String)> = Vec::new();
    entries.push((String::new(), parts[0].clone()));
    assert(entries.deep_view() =~= wanted.take(1));
    // The last token is left out: nothing is recorded as leading to it.
    let last = parts.len() - 1;
    let mut i: usize = 1;
    while i < last
        invariant
            1 <= i,
            last == parts@.len() - 1,
            i <= last || i == 1,
            wanted == derived_entries(parts.deep_view()),
            entries.deep_view() == wanted.take(i as int),
        decreases parts@.len() - i,
    {
        let ghost before = entries.deep_view();
        entries.push((parts[i - 1].clone(), parts[i].clone()));
        assert(entries.deep_view() =~= before.push(wanted[i as int]));
        assert(wanted.take(i + 1) =~= before.push(wanted[i as int]));
        i = i + 1;
    }
    assert(wanted.take(i as int) =~= wanted);
    Some(Ingest { content: content.to_owned(), entries })
}

/// The transition that the store is to count for a pair of tokens: its
/// key, with both tokens trimmed. A pair whose second token is empty once
/// trimmed stands for no transition.
pub fn increment_or_create_entry(from: &str, to: &str) -> (key: Option<(String, String)>)
    ensures
        key.deep_view() == entry_key(from@, to@),
{
    let from = trim(from);
    let to = trim(to);
    if to.is_empty() {
        return None;
    }
    Some((from.to_owned(), to.to_owned()))
}

} // verus!
