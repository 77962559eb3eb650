//! Text primitives: whitespace, trimming, tokens and byte lengths.
//!
//! A text is viewed as its sequence of characters. Tokens are the pieces
//! between single space characters; whitespace is what Unicode gives the
//! property `White_Space`.

use vstd::prelude::*;
use vstd::string::StrSliceExecFns;
use vstd::string::StringSliceAdditionalSpecFns;

verus! {

/// Whether `c` is whitespace: a character with the Unicode property
/// `White_Space`. These are the tab, the line feed, the vertical tab, the
/// form feed, the carriage return and the space; the next line and the
/// no-break space; the ogham space mark; the spaces of fixed width from the
/// en quad to the hair space; the line and the paragraph separator; the
/// narrow no-break space, the medium mathematical space and the
/// ideographic space.
pub open spec fn is_white_space(c: char) -> bool {
    let code = c as u32;
    ||| 0x0009 <= code <= 0x000D
    ||| code == 0x0020
    ||| code == 0x0085
    ||| code == 0x00A0
    ||| code == 0x1680
    ||| 0x2000 <= code <= 0x200A
    ||| code == 0x2028
    ||| code == 0x2029
    ||| code == 0x202F
    ||| code == 0x205F
    ||| code == 0x3000
}

/// `char::is_whitespace` tells whether the character has the Unicode
/// property `White_Space`, which is the list that [`is_white_space`]
/// spells out.
pub assume_specification[ char::is_whitespace ](c: char) -> (r: bool)
    ensures
        r == is_white_space(c),
;

/// `String::push` appends the character to the end of the string.
pub assume_specification[ String::push ](s: &mut String, ch: char)
    ensures
        final(s)@ == old(s)@.push(ch),
;

/// The number of bytes that the UTF-8 encoding of `s` takes.
pub open spec fn byte_len(s: Seq<char>) -> nat {
    vstd::utf8::encode_utf8(s).len()
}

/// The length of the text in bytes.
pub fn text_len(s: &str) -> (n: usize)
    ensures
        n == byte_len(s@),
{
    s.as_bytes().len()
}

/// The bytes of two texts add up when the texts are joined.
pub proof fn lemma_byte_len_concat(a: Seq<char>, b: Seq<char>)
    ensures
        byte_len(a + b) == byte_len(a) + byte_len(b),
    decreases a.len(),
{
    if a.len() == 0 {
        assert(a + b =~= b);
    } else {
        assert((a + b).drop_first() =~= a.drop_first() + b);
        lemma_byte_len_concat(a.drop_first(), b);
    }
}

/// Every character takes at least one byte.
pub proof fn lemma_byte_len_at_least_len(s: Seq<char>)
    ensures
        byte_len(s) >= s.len(),
    decreases s.len(),
{
    if s.len() > 0 {
        lemma_byte_len_at_least_len(s.drop_first());
    }
}

/// `s` without its leading whitespace.
pub open spec fn trim_start(s: Seq<char>) -> Seq<char>
    decreases s.len(),
{
    if s.len() > 0 && is_white_space(s.first()) {
        trim_start(s.drop_first())
    } else {
        s
    }
}

/// `s` without its trailing whitespace.
pub open spec fn trim_end(s: Seq<char>) -> Seq<char>
    decreases s.len(),
{
    if s.len() > 0 && is_white_space(s.last()) {
        trim_end(s.drop_last())
    } else {
        s
    }
}

/// `s` without its leading and trailing whitespace.
pub open spec fn trimmed(s: Seq<char>) -> Seq<char> {
    trim_end(trim_start(s))
}

/// Every character of `s` between `from` and `to` is whitespace.
pub open spec fn whitespace_between(s: Seq<char>, from: int, to: int) -> bool {
    forall|k: int| from <= k < to ==> is_white_space(#[trigger] s[k])
}

/// Dropping `i` leading whitespace characters does not change what
/// `trim_start` gives.
pub proof fn lemma_trim_start_skip(s: Seq<char>, i: int)
    requires
        0 <= i <= s.len(),
        whitespace_between(s, 0, i),
    ensures
        trim_start(s) == trim_start(s.skip(i)),
    decreases i,
{
    if i > 0 {
        assert(is_white_space(s[0]));
        let rest = s.drop_first();
        assert forall|k: int| 0 <= k < i - 1 implies is_white_space(#[trigger] rest[k]) by {
            assert(rest[k] == s[k + 1]);
        }
        lemma_trim_start_skip(rest, i - 1);
        assert(rest.skip(i - 1) =~= s.skip(i));
    } else {
        assert(s.skip(0) =~= s);
    }
}

/// Dropping trailing whitespace characters down to length `j` does not
/// change what `trim_end` gives.
pub proof fn lemma_trim_end_take(s: Seq<char>, j: int)
    requires
        0 <= j <= s.len(),
        whitespace_between(s, j, s.len() as int),
    ensures
        trim_end(s) == trim_end(s.take(j)),
    decreases s.len() - j,
{
    if j < s.len() {
        assert(is_white_space(s[s.len() - 1]));
        let rest = s.drop_last();
        assert forall|k: int| j <= k < rest.len() implies is_white_space(#[trigger] rest[k]) by {
            assert(rest[k] == s[k]);
        }
        lemma_trim_end_take(rest, j);
        assert(rest.take(j) =~= s.take(j));
    } else {
        assert(s.take(j) =~= s);
    }
}

/// Where `s` is whitespace before `i` and from `j` on, and neither `s[i]`
/// nor `s[j - 1]` is, the trimmed text is the part from `i` to `j`.
pub proof fn lemma_trimmed_is_subrange(s: Seq<char>, i: int, j: int)
    requires
        0 <= i < j <= s.len(),
        whitespace_between(s, 0, i),
        whitespace_between(s, j, s.len() as int),
        !is_white_space(s[i]),
        !is_white_space(s[j - 1]),
    ensures
        trimmed(s) == s.subrange(i, j),
{
    lemma_trim_start_skip(s, i);
    let t = s.skip(i);
    assert(t[0] == s[i]);
    assert(trim_start(t) == t);
    assert forall|k: int| j - i <= k < t.len() implies is_white_space(#[trigger] t[k]) by {
        assert(t[k] == s[k + i]);
    }
    lemma_trim_end_take(t, j - i);
    let u = t.take(j - i);
    assert(u =~= s.subrange(i, j));
    assert(u.last() == s[j - 1]);
    assert(trim_end(u) == u);
}

/// A text of whitespace alone trims to the empty text.
pub proof fn lemma_trimmed_all_whitespace(s: Seq<char>)
    requires
        whitespace_between(s, 0, s.len() as int),
    ensures
        trimmed(s) == Seq::<char>::empty(),
{
    lemma_trim_start_skip(s, s.len() as int);
    assert(s.skip(s.len() as int) =~= Seq::<char>::empty());
}

/// A text that does not start with whitespace has nothing to trim at its
/// start, and `trim_start` always leaves such a text.
pub proof fn lemma_trim_start_head(s: Seq<char>)
    ensures
        trim_start(s).len() == 0 || !is_white_space(trim_start(s).first()),
        trim_start(trim_start(s)) == trim_start(s),
    decreases s.len(),
{
    if s.len() > 0 && is_white_space(s.first()) {
        lemma_trim_start_head(s.drop_first());
    }
}

/// What `trim_end` leaves is a prefix of the text that does not end with
/// whitespace.
pub proof fn lemma_trim_end_prefix(s: Seq<char>)
    ensures
        trim_end(s).len() <= s.len(),
        trim_end(s) == s.take(trim_end(s).len() as int),
        trim_end(s).len() == 0 || !is_white_space(trim_end(s).last()),
        trim_end(trim_end(s)) == trim_end(s),
    decreases s.len(),
{
    if s.len() > 0 && is_white_space(s.last()) {
        let rest = s.drop_last();
        lemma_trim_end_prefix(rest);
        assert(rest.take(trim_end(rest).len() as int) =~= s.take(trim_end(rest).len() as int));
    } else {
        assert(s.take(s.len() as int) =~= s);
    }
}

/// Trimming a trimmed text changes nothing.
pub proof fn lemma_trimmed_idempotent(s: Seq<char>)
    ensures
        trimmed(trimmed(s)) == trimmed(s),
{
    let t = trim_start(s);
    let u = trim_end(t);
    lemma_trim_start_head(s);
    lemma_trim_end_prefix(t);
    if u.len() > 0 {
        assert(u.first() == t.first());
    }
    assert(trim_start(u) == u);
}

/// A text that neither starts nor ends with whitespace is its own trimmed
/// text; so is the empty text.
pub proof fn lemma_trimmed_fixed(s: Seq<char>)
    requires
        s.len() == 0 || (!is_white_space(s.first()) && !is_white_space(s.last())),
    ensures
        trimmed(s) == s,
{
}

/// A trimmed text is empty, or neither starts nor ends with whitespace.
pub proof fn lemma_trimmed_ends(s: Seq<char>)
    ensures
        trimmed(s).len() == 0 || (!is_white_space(trimmed(s).first()) && !is_white_space(
            trimmed(s).last(),
        )),
{
    let t = trim_start(s);
    let u = trim_end(t);
    lemma_trim_start_head(s);
    lemma_trim_end_prefix(t);
    if u.len() > 0 {
        assert(u.first() == t.first());
    }
}

/// The text without its leading and trailing whitespace.
pub fn trim(s: &str) -> (t: &str)
    ensures
        t@ == trimmed(s@),
{
    let n = s.unicode_len();
    let mut i: usize = 0;
    let mut start: usize = 0;
    let mut end: usize = 0;
    for c in it: s.chars()
        invariant
            i == it.index(),
            it.seq() == s@,
            n == s@.len(),
            start <= end <= i,
            end == 0 ==> start == 0 && whitespace_between(s@, 0, i as int),
            end > 0 ==> start < end && whitespace_between(s@, 0, start as int)
                && whitespace_between(s@, end as int, i as int) && !is_white_space(s@[start as int])
                && !is_white_space(s@[end - 1]),
    {
        if !c.is_whitespace() {
            if end == 0 {
                start = i;
            }
            end = i + 1;
        }
        i = i + 1;
    }
    proof {
        if end == 0 {
            lemma_trimmed_all_whitespace(s@);
            assert(s@.subrange(0, 0) =~= Seq::<char>::empty());
        } else {
            lemma_trimmed_is_subrange(s@, start as int, end as int);
        }
    }
    s.substring_char(start, end)
}

/// The tokens of `s`: the pieces between its space characters, in order.
/// A text with `n` spaces has `n + 1` tokens, some of them possibly empty.
pub open spec fn tokens(s: Seq<char>) -> Seq<Seq<char>>
    decreases s.len(),
{
    if s.len() == 0 {
        seq![Seq::<char>::empty()]
    } else {
        let before = tokens(s.drop_last());
        if s.last() == ' ' {
            before.push(Seq::<char>::empty())
        } else {
            before.drop_last().push(before.last().push(s.last()))
        }
    }
}

/// The last token of `s`: what follows its last space.
pub open spec fn last_token(s: Seq<char>) -> Seq<char> {
    tokens(s).last()
}

/// Every text has at least one token.
pub proof fn lemma_tokens_nonempty(s: Seq<char>)
    ensures
        tokens(s).len() >= 1,
    decreases s.len(),
{
    if s.len() > 0 {
        lemma_tokens_nonempty(s.drop_last());
    }
}

/// A text without a space is its own single token.
pub proof fn lemma_tokens_without_space(s: Seq<char>)
    requires
        !s.contains(' '),
    ensures
        tokens(s) == seq![s],
    decreases s.len(),
{
    if s.len() > 0 {
        let rest = s.drop_last();
        assert(s.last() != ' ') by {
            assert(s.contains(s[s.len() - 1]));
        }
        assert(!rest.contains(' ')) by {
            if rest.contains(' ') {
                let k = choose|k: int| 0 <= k < rest.len() && rest[k] == ' ';
                assert(s[k] == ' ');
            }
        }
        lemma_tokens_without_space(rest);
        assert(rest.push(s.last()) =~= s);
        assert(seq![rest].drop_last().push(rest.push(s.last())) =~= seq![s]);
    } else {
        assert(s =~= Seq::<char>::empty());
    }
}

/// No token holds a space.
pub proof fn lemma_tokens_hold_no_space(s: Seq<char>, i: int)
    requires
        0 <= i < tokens(s).len(),
    ensures
        !tokens(s)[i].contains(' '),
    decreases s.len(),
{
    if s.len() > 0 {
        let before = tokens(s.drop_last());
        lemma_tokens_nonempty(s.drop_last());
        if s.last() == ' ' {
            if i < before.len() {
                lemma_tokens_hold_no_space(s.drop_last(), i);
            }
        } else {
            if i < before.len() - 1 {
                lemma_tokens_hold_no_space(s.drop_last(), i);
            } else {
                lemma_tokens_hold_no_space(s.drop_last(), before.len() - 1);
                let t = before.last().push(s.last());
                if t.contains(' ') {
                    let k = choose|k: int| 0 <= k < t.len() && t[k] == ' ';
                    if k < before.last().len() {
                        assert(before.last()[k] == ' ');
                        assert(before.last().contains(' '));
                    }
                }
            }
        }
    }
}

/// The tokens `parts` joined again, with one space between neighbours.
pub open spec fn joined_tokens(parts: Seq<Seq<char>>) -> Seq<char>
    decreases parts.len(),
{
    if parts.len() == 0 {
        Seq::empty()
    } else if parts.len() == 1 {
        parts[0]
    } else {
        joined_tokens(parts.drop_last()).push(' ') + parts.last()
    }
}

/// Splitting loses nothing: the tokens of a text, joined by single spaces,
/// are the text.
pub proof fn lemma_tokens_join(s: Seq<char>)
    ensures
        joined_tokens(tokens(s)) == s,
    decreases s.len(),
{
    if s.len() == 0 {
        assert(s =~= Seq::<char>::empty());
    } else {
        let rest = s.drop_last();
        let before = tokens(rest);
        lemma_tokens_nonempty(rest);
        lemma_tokens_join(rest);
        assert(rest.push(s.last()) =~= s);
        if s.last() == ' ' {
            let parts = before.push(Seq::<char>::empty());
            assert(parts.drop_last() =~= before);
            assert(rest.push(' ') + Seq::<char>::empty() =~= s);
        } else {
            let word = before.last().push(s.last());
            let parts = before.drop_last().push(word);
            assert(parts.drop_last() =~= before.drop_last());
            if before.len() == 1 {
                assert(before[0] == rest);
            } else {
                let head = joined_tokens(before.drop_last()).push(' ');
                assert(head + word =~= (head + before.last()).push(s.last()));
            }
        }
    }
}

/// The tokens of the text, split at each space character.
pub fn split_spaces(s: &str) -> (parts: Vec<String>)
    ensures
        parts.deep_view() == tokens(s@),
{
    let mut parts: Vec<String> = Vec::new();
    let mut current = String::new();
    for c in it: s.chars()
        invariant
            it.seq() == s@,
            parts.deep_view().push(current@) == tokens(s@.take(it.index())),
    {
        let ghost i = it.index();
        let ghost done = parts.deep_view();
        let ghost word = current@;
        proof {
            assert(s@.take(i + 1).drop_last() =~= s@.take(i));
            assert(s@.take(i + 1).last() == c);
            assert(done.push(word).last() == word);
            assert(done.push(word).drop_last() =~= done);
        }
        if c == ' ' {
            parts.push(current);
            current = String::new();
            assert(parts.deep_view() =~= done.push(word));
        } else {
            current.push(c);
        }
    }
    proof {
        assert(s@.take(s@.len() as int) =~= s@);
    }
    let ghost done = parts.deep_view();
    let ghost word = current@;
    parts.push(current);
    assert(parts.deep_view() =~= done.push(word));
    parts
}

/// The last token of the text: what follows its last space character.
pub fn last_word(s: &str) -> (word: String)
    ensures
        word@ == last_token(s@),
{
    let mut current = String::new();
    for c in it: s.chars()
        invariant
            it.seq() == s@,
            current@ == last_token(s@.take(it.index())),
    {
        let ghost i = it.index();
        proof {
            assert(s@.take(i + 1).drop_last() =~= s@.take(i));
            assert(s@.take(i + 1).last() == c);
            lemma_tokens_nonempty(s@.take(i));
        }
        if c == ' ' {
            current = String::new();
        } else {
            current.push(c);
        }
    }
    proof {
        assert(s@.take(s@.len() as int) =~= s@);
    }
    current
}

} // verus!
