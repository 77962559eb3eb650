//! What holds of the counts of a chain, whatever is learned and in
//! whatever order.

use vstd::prelude::*;

use crate::chain::all_occurrences;
use crate::chain::all_pairs;
use crate::chain::count_of;
use crate::chain::counted;
use crate::chain::edge_index;
use crate::chain::has_edge;
use crate::chain::incremented;
use crate::chain::ingested_times;
use crate::chain::learned;
use crate::chain::occurrences;
use crate::chain::outgoing;
use crate::chain::well_formed;
use crate::chain::EdgeView;
use crate::chain::MAX_COUNT;
use crate::generator::positive_counts;
use crate::input::derived_entries;
use crate::input::entry_key;
use crate::text::tokens;
use crate::text::trimmed;

verus! {

/// Counting a transition once more keeps the edges those of a chain, adds
/// one to the count of that transition and leaves every other count as it
/// was.
pub proof fn lemma_incremented(edges: Seq<EdgeView>, from: Seq<char>, to: Seq<char>)
    requires
        well_formed(edges),
        to.len() > 0,
        trimmed(to) == to,
        trimmed(from) == from,
        count_of(edges, from, to) < MAX_COUNT,
    ensures
        well_formed(incremented(edges, from, to)),
        count_of(incremented(edges, from, to), from, to) == count_of(edges, from, to) + 1,
        forall|f: Seq<char>, t: Seq<char>|
            !(f == from && t == to) ==> count_of(incremented(edges, from, to), f, t) == count_of(
                edges,
                f,
                t,
            ),
{
    let after = incremented(edges, from, to);
    if has_edge(edges, from, to) {
        let i = edge_index(edges, from, to);
        assert(after[i].from == from && after[i].to == to);
        assert(has_edge(after, from, to));
        let a = edge_index(after, from, to);
        assert(a == i) by {
            if a != i {
                assert(after[a] == edges[a]);
            }
        }
        assert forall|f: Seq<char>, t: Seq<char>| !(f == from && t == to) implies count_of(
            after,
            f,
            t,
        ) == count_of(edges, f, t) by {
            lemma_other_count_kept(edges, after, from, to, f, t);
        }
    } else {
        let n = edges.len() as int;
        assert(after[n].from == from && after[n].to == to);
        assert(has_edge(after, from, to));
        let a = edge_index(after, from, to);
        assert(a == n) by {
            if a != n {
                assert(after[a] == edges[a]);
            }
        }
        assert forall|i: int, j: int| 0 <= i < j < after.len() implies !((#[trigger] after[i]).from
            == (#[trigger] after[j]).from && after[i].to == after[j].to) by {
            if j == n {
                assert(after[i] == edges[i]);
            } else {
                assert(after[i] == edges[i] && after[j] == edges[j]);
            }
        }
        assert forall|f: Seq<char>, t: Seq<char>| !(f == from && t == to) implies count_of(
            after,
            f,
            t,
        ) == count_of(edges, f, t) by {
            lemma_other_count_kept(edges, after, from, to, f, t);
        }
    }
}

/// Edges that agree on every transition but the one from `from` to `to`
/// give every other transition the same count.
proof fn lemma_other_count_kept(
    edges: Seq<EdgeView>,
    after: Seq<EdgeView>,
    from: Seq<char>,
    to: Seq<char>,
    f: Seq<char>,
    t: Seq<char>,
)
    requires
        well_formed(edges),
        after == incremented(edges, from, to),
        !(f == from && t == to),
    ensures
        count_of(after, f, t) == count_of(edges, f, t),
{
    let n = edges.len() as int;
    if has_edge(edges, f, t) {
        let i = edge_index(edges, f, t);
        assert(after[i] == edges[i]);
        assert(has_edge(after, f, t));
        let a = edge_index(after, f, t);
        if a != i {
            if a < n {
                if has_edge(edges, from, to) && a == edge_index(edges, from, to) {
                } else {
                    assert(after[a] == edges[a]);
                }
            }
        }
    } else {
        if has_edge(after, f, t) {
            let a = edge_index(after, f, t);
            if a < n {
                if has_edge(edges, from, to) && a == edge_index(edges, from, to) {
                } else {
                    assert(after[a] == edges[a]);
                }
            }
        }
    }
}

/// Handing one pair of tokens to the store keeps the edges those of a
/// chain.
pub proof fn lemma_counted_well_formed(edges: Seq<EdgeView>, from: Seq<char>, to: Seq<char>)
    requires
        well_formed(edges),
    ensures
        well_formed(counted(edges, from, to)),
{
    if entry_key(from, to) is Some {
        crate::text::lemma_trimmed_idempotent(from);
        crate::text::lemma_trimmed_idempotent(to);
        if count_of(edges, trimmed(from), trimmed(to)) != MAX_COUNT {
            lemma_count_in_range(edges, trimmed(from), trimmed(to));
            lemma_incremented(edges, trimmed(from), trimmed(to));
        }
    }
}

/// A count is never above the largest that an edge can hold.
pub proof fn lemma_count_in_range(edges: Seq<EdgeView>, from: Seq<char>, to: Seq<char>)
    requires
        well_formed(edges),
    ensures
        0 <= count_of(edges, from, to) <= MAX_COUNT,
{
}

/// Whatever is handed to the store, the edges stay those of a chain, and
/// no count goes down.
pub proof fn lemma_counts_never_decrease(
    edges: Seq<EdgeView>,
    pairs: Seq<(Seq<char>, Seq<char>)>,
    from: Seq<char>,
    to: Seq<char>,
)
    requires
        well_formed(edges),
    ensures
        well_formed(learned(edges, pairs)),
        count_of(learned(edges, pairs), from, to) >= count_of(edges, from, to),
    decreases pairs.len(),
{
    if pairs.len() > 0 {
        let before = learned(edges, pairs.drop_last());
        let last = pairs.last();
        lemma_counts_never_decrease(edges, pairs.drop_last(), from, to);
        lemma_counted_well_formed(before, last.0, last.1);
        if entry_key(last.0, last.1) is Some {
            let key = entry_key(last.0, last.1)->0;
            crate::text::lemma_trimmed_idempotent(last.0);
            crate::text::lemma_trimmed_idempotent(last.1);
            if count_of(before, key.0, key.1) != MAX_COUNT {
                lemma_count_in_range(before, key.0, key.1);
                lemma_incremented(before, key.0, key.1);
            }
        }
    }
}

/// Additivity: after any pairs were handed to the store, the count of a
/// transition is what it was before plus the number of pairs that stand
/// for it. No occurrence is lost, as long as the count can hold the sum.
pub proof fn lemma_counts_add_up(
    edges: Seq<EdgeView>,
    pairs: Seq<(Seq<char>, Seq<char>)>,
    from: Seq<char>,
    to: Seq<char>,
)
    requires
        well_formed(edges),
        count_of(edges, from, to) + occurrences(pairs, from, to) <= MAX_COUNT,
    ensures
        well_formed(learned(edges, pairs)),
        count_of(learned(edges, pairs), from, to) == count_of(edges, from, to) + occurrences(
            pairs,
            from,
            to,
        ),
    decreases pairs.len(),
{
    if pairs.len() > 0 {
        let before = learned(edges, pairs.drop_last());
        let last = pairs.last();
        lemma_counts_add_up(edges, pairs.drop_last(), from, to);
        lemma_counted_well_formed(before, last.0, last.1);
        if entry_key(last.0, last.1) is Some {
            let key = entry_key(last.0, last.1)->0;
            crate::text::lemma_trimmed_idempotent(last.0);
            crate::text::lemma_trimmed_idempotent(last.1);
            lemma_count_in_range(before, key.0, key.1);
            if count_of(before, key.0, key.1) != MAX_COUNT {
                lemma_incremented(before, key.0, key.1);
            }
        }
    }
}

/// Two batches, one after the other, hold each transition as often as
/// the two together.
pub proof fn lemma_occurrences_concat(
    a: Seq<(Seq<char>, Seq<char>)>,
    b: Seq<(Seq<char>, Seq<char>)>,
    from: Seq<char>,
    to: Seq<char>,
)
    ensures
        occurrences(a + b, from, to) == occurrences(a, from, to) + occurrences(b, from, to),
    decreases b.len(),
{
    if b.len() == 0 {
        assert(a + b =~= a);
    } else {
        assert((a + b).drop_last() =~= a + b.drop_last());
        lemma_occurrences_concat(a, b.drop_last(), from, to);
    }
}

/// The pairs of all batches hold each transition as often as the batches
/// do, one by one.
pub proof fn lemma_all_pairs_occurrences(
    batches: Seq<Seq<(Seq<char>, Seq<char>)>>,
    from: Seq<char>,
    to: Seq<char>,
)
    ensures
        occurrences(all_pairs(batches), from, to) == all_occurrences(batches, from, to),
    decreases batches.len(),
{
    if batches.len() > 0 {
        lemma_all_pairs_occurrences(batches.drop_last(), from, to);
        lemma_occurrences_concat(all_pairs(batches.drop_last()), batches.last(), from, to);
    }
}

/// Taking one pair out of a batch takes one occurrence of its transition
/// with it, and no other.
proof fn lemma_occurrences_remove(
    pairs: Seq<(Seq<char>, Seq<char>)>,
    i: int,
    from: Seq<char>,
    to: Seq<char>,
)
    requires
        0 <= i < pairs.len(),
    ensures
        occurrences(pairs, from, to) == occurrences(pairs.remove(i), from, to) + if entry_key(
            pairs[i].0,
            pairs[i].1,
        ) == Some((from, to)) {
            1nat
        } else {
            0nat
        },
    decreases pairs.len(),
{
    if i == pairs.len() - 1 {
        assert(pairs.remove(i) =~= pairs.drop_last());
    } else {
        lemma_occurrences_remove(pairs.drop_last(), i, from, to);
        assert(pairs.remove(i).drop_last() =~= pairs.drop_last().remove(i));
        assert(pairs.remove(i).last() == pairs.last());
    }
}

/// The order of the pairs does not matter: two arrangements of the same
/// pairs hold each transition equally often.
pub proof fn lemma_occurrences_any_order(
    a: Seq<(Seq<char>, Seq<char>)>,
    b: Seq<(Seq<char>, Seq<char>)>,
    from: Seq<char>,
    to: Seq<char>,
)
    requires
        a.to_multiset() == b.to_multiset(),
    ensures
        occurrences(a, from, to) == occurrences(b, from, to),
    decreases a.len(),
{
    a.to_multiset_ensures();
    b.to_multiset_ensures();
    if a.len() == 0 {
        assert(b.len() == 0);
    } else {
        let last = a.last();
        let rest = a.drop_last();
        rest.to_multiset_ensures();
        assert(rest.push(last) =~= a);
        assert(a.contains(last));
        assert(a.to_multiset().count(last) > 0);
        assert(b.to_multiset().count(last) > 0);
        assert(b.contains(last));
        let j = choose|j: int| 0 <= j < b.len() && b[j] == last;
        let others = b.remove(j);
        assert(rest.to_multiset() =~= others.to_multiset());
        lemma_occurrences_any_order(rest, others, from, to);
        lemma_occurrences_remove(b, j, from, to);
    }
}

/// No lost updates: in whatever order the pairs of concurrent batches
/// reach the store, those of one batch among themselves as well as those
/// of different batches, the count of a transition ends as what it was
/// before plus its occurrences in all the batches, as long as the count
/// can hold the sum.
pub proof fn lemma_any_order_adds_up(
    edges: Seq<EdgeView>,
    merged: Seq<(Seq<char>, Seq<char>)>,
    batches: Seq<Seq<(Seq<char>, Seq<char>)>>,
    from: Seq<char>,
    to: Seq<char>,
)
    requires
        well_formed(edges),
        merged.to_multiset() == all_pairs(batches).to_multiset(),
        count_of(edges, from, to) + all_occurrences(batches, from, to) <= MAX_COUNT,
    ensures
        count_of(learned(edges, merged), from, to) == count_of(edges, from, to) + all_occurrences(
            batches,
            from,
            to,
        ),
{
    lemma_occurrences_any_order(merged, all_pairs(batches), from, to);
    lemma_all_pairs_occurrences(batches, from, to);
    lemma_counts_add_up(edges, merged, from, to);
}

/// A text of a single token teaches one transition: from the start of a
/// text into that token.
pub proof fn lemma_single_token_entries(input: Seq<char>)
    requires
        trimmed(input).len() > 0,
        !trimmed(input).contains(' '),
    ensures
        derived_entries(tokens(trimmed(input))) == seq![(Seq::<char>::empty(), trimmed(input))],
        entry_key(Seq::<char>::empty(), trimmed(input)) == Some(
            (Seq::<char>::empty(), trimmed(input)),
        ),
{
    let token = trimmed(input);
    crate::text::lemma_tokens_without_space(token);
    crate::text::lemma_trimmed_idempotent(input);
    assert(derived_entries(seq![token]) =~= seq![(Seq::<char>::empty(), token)]);
    assert(trimmed(Seq::<char>::empty()) == Seq::<char>::empty());
}

/// Learning the same text of a single token `n` times, from nothing,
/// leaves exactly one edge: from the start of a text into the token, with
/// the count `n`.
pub proof fn lemma_single_token_repeated(input: Seq<char>, n: nat)
    requires
        trimmed(input).len() > 0,
        !trimmed(input).contains(' '),
        1 <= n <= MAX_COUNT,
    ensures
        ingested_times(Seq::empty(), input, n) == seq![
            EdgeView { from: Seq::empty(), to: trimmed(input), count: n as i32 },
        ],
    decreases n,
{
    let token = trimmed(input);
    let start = Seq::<char>::empty();
    let pairs = seq![(start, token)];
    lemma_single_token_entries(input);
    let before = ingested_times(Seq::empty(), input, (n - 1) as nat);
    assert(pairs.drop_last() =~= Seq::<(Seq<char>, Seq<char>)>::empty());
    assert(learned(before, pairs) == counted(before, start, token)) by {
        assert(learned(before, pairs.drop_last()) == before);
        assert(pairs.last() == (start, token));
    }
    if n == 1 {
        assert(before =~= Seq::<EdgeView>::empty());
        assert(!has_edge(before, start, token));
        assert(incremented(before, start, token) =~= seq![
            EdgeView { from: start, to: token, count: 1 },
        ]);
    } else {
        lemma_single_token_repeated(input, (n - 1) as nat);
        let edge = EdgeView { from: start, to: token, count: (n - 1) as i32 };
        assert(before == seq![edge]);
        assert(before[0] == edge);
        assert(has_edge(before, start, token));
        assert(edge_index(before, start, token) == 0);
        assert(incremented(before, start, token) =~= seq![
            EdgeView { from: start, to: token, count: n as i32 },
        ]);
    }
}

/// Every candidate that follows a token in a well-formed chain has a
/// token of its own and a positive count.
pub proof fn lemma_outgoing_sound(edges: Seq<EdgeView>, from: Seq<char>)
    requires
        well_formed(edges),
    ensures
        positive_counts(outgoing(edges, from)),
        forall|k: int|
            0 <= k < outgoing(edges, from).len() ==> (#[trigger] outgoing(edges, from)[k]).0.len()
                > 0,
    decreases edges.len(),
{
    if edges.len() > 0 {
        let rest = edges.drop_last();
        assert forall|i: int, j: int| 0 <= i < j < rest.len() implies !((#[trigger] rest[i]).from
            == (#[trigger] rest[j]).from && rest[i].to == rest[j].to) by {
            assert(rest[i] == edges[i] && rest[j] == edges[j]);
        }
        assert forall|i: int| 0 <= i < rest.len() implies {
            &&& (#[trigger] rest[i]).count >= 1
            &&& rest[i].to.len() > 0
            &&& trimmed(rest[i].to) == rest[i].to
            &&& trimmed(rest[i].from) == rest[i].from
        } by {
            assert(rest[i] == edges[i]);
        }
        lemma_outgoing_sound(rest, from);
        assert(edges.last() == edges[edges.len() - 1]);
    }
}

} // verus!
