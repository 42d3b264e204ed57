//! Character classes and the splitting of text into lines and words.

use vstd::prelude::*;

verus! {

/// Whether `c` has the Unicode property `White_Space`.
pub open spec fn is_whitespace(c: char) -> bool {
    let u = c as u32;
    ||| 0x09 <= u <= 0x0D
    ||| u == 0x20
    ||| u == 0x85
    ||| u == 0xA0
    ||| u == 0x1680
    ||| 0x2000 <= u <= 0x200A
    ||| u == 0x2028
    ||| u == 0x2029
    ||| u == 0x202F
    ||| u == 0x205F
    ||| u == 0x3000
}

/// Whether `s` holds nothing but white space; the empty text is blank.
pub open spec fn is_blank(s: Seq<char>) -> bool {
    forall|i: int| 0 <= i < s.len() ==> is_whitespace(#[trigger] s[i])
}

/// Whether `s` is a word: not empty, and free of white space.
pub open spec fn is_word(s: Seq<char>) -> bool {
    &&& s.len() > 0
    &&& forall|i: int| 0 <= i < s.len() ==> !is_whitespace(#[trigger] s[i])
}

/// Number of characters of `s` that stand before the first `stop`, or all of
/// them where `s` holds no `stop`.
pub open spec fn len_before(s: Seq<char>, stop: char) -> nat
    decreases s.len(),
{
    if s.len() == 0 || s[0] == stop {
        0
    } else {
        1 + len_before(s.drop_first(), stop)
    }
}

/// Length of the first line of `s`: what stands before the first line feed.
pub open spec fn line_len(s: Seq<char>) -> nat {
    len_before(s, '\n')
}

/// Length of the longest prefix of `s` that holds no white space.
pub open spec fn word_len(s: Seq<char>) -> nat
    decreases s.len(),
{
    if s.len() == 0 || is_whitespace(s[0]) {
        0
    } else {
        1 + word_len(s.drop_first())
    }
}

/// The words of `s`: its maximal runs of characters that are not white space,
/// from left to right.
pub open spec fn words_of(s: Seq<char>) -> Seq<Seq<char>>
    decreases s.len(),
    via words_of_decreases
{
    if s.len() == 0 {
        Seq::empty()
    } else if is_whitespace(s[0]) {
        words_of(s.drop_first())
    } else {
        let n = word_len(s) as int;
        seq![s.take(n)] + words_of(s.skip(n))
    }
}

#[via_fn]
proof fn words_of_decreases(s: Seq<char>) {
    if s.len() > 0 && !is_whitespace(s[0]) {
        lemma_word_len_bounds(s);
    }
}

/// What stands before the first `stop` is never longer than the text.
pub proof fn lemma_len_before_bounds(s: Seq<char>, stop: char)
    ensures
        len_before(s, stop) <= s.len(),
    decreases s.len(),
{
    if s.len() > 0 && s[0] != stop {
        lemma_len_before_bounds(s.drop_first(), stop);
    }
}

/// A leading word is never longer than the text, and not empty where the text
/// starts with something other than white space.
pub proof fn lemma_word_len_bounds(s: Seq<char>)
    ensures
        word_len(s) <= s.len(),
        s.len() > 0 && !is_whitespace(s[0]) ==> word_len(s) >= 1,
    decreases s.len(),
{
    if s.len() > 0 && !is_whitespace(s[0]) {
        lemma_word_len_bounds(s.drop_first());
    }
}

/// The first `stop` stands at `n` where none stands before `n` and one stands
/// at `n`, or the text ends there.
pub proof fn lemma_len_before_is(s: Seq<char>, stop: char, n: int)
    requires
        0 <= n <= s.len(),
        forall|k: int| 0 <= k < n ==> s[k] != stop,
        n == s.len() || s[n] == stop,
    ensures
        len_before(s, stop) == n,
    decreases n,
{
    if n > 0 {
        let t = s.drop_first();
        assert forall|k: int| 0 <= k < n - 1 implies t[k] != stop by {
            assert(t[k] == s[k + 1]);
        }
        lemma_len_before_is(t, stop, n - 1);
    }
}

/// The leading word ends at `n` where no white space stands before `n` and
/// some stands at `n`, or the text ends there.
pub proof fn lemma_word_len_is(s: Seq<char>, n: int)
    requires
        0 <= n <= s.len(),
        forall|k: int| 0 <= k < n ==> !is_whitespace(s[k]),
        n == s.len() || is_whitespace(s[n]),
    ensures
        word_len(s) == n,
    decreases n,
{
    if n > 0 {
        let t = s.drop_first();
        assert forall|k: int| 0 <= k < n - 1 implies !is_whitespace(t[k]) by {
            assert(t[k] == s[k + 1]);
        }
        lemma_word_len_is(t, n - 1);
    }
}

/// A blank text holds no word.
pub proof fn lemma_blank_has_no_words(s: Seq<char>)
    requires
        is_blank(s),
    ensures
        words_of(s) == Seq::<Seq<char>>::empty(),
    decreases s.len(),
{
    if s.len() > 0 {
        assert(is_whitespace(s[0]));
        let t = s.drop_first();
        assert forall|i: int| 0 <= i < t.len() implies is_whitespace(#[trigger] t[i]) by {
            assert(t[i] == s[i + 1]);
        }
        lemma_blank_has_no_words(t);
    }
}

/// A word in front of white space, or of nothing, is the first word of the
/// text, and the words that follow are those of the rest.
pub proof fn lemma_words_of_leading_word(word: Seq<char>, rest: Seq<char>)
    requires
        is_word(word),
        rest.len() == 0 || is_whitespace(rest[0]),
    ensures
        words_of(word + rest) == seq![word] + words_of(rest),
{
    let s = word + rest;
    let n = word.len() as int;
    assert(s[0] == word[0]);
    assert forall|k: int| 0 <= k < n implies !is_whitespace(s[k]) by {
        assert(s[k] == word[k]);
    }
    if rest.len() > 0 {
        assert(s[n] == rest[0]);
    }
    lemma_word_len_is(s, n);
    assert(s.take(n) =~= word);
    assert(s.skip(n) =~= rest);
}

/// White space in front of a text adds no word to it.
pub proof fn lemma_words_of_leading_space(c: char, rest: Seq<char>)
    requires
        is_whitespace(c),
    ensures
        words_of(seq![c] + rest) == words_of(rest),
{
    let s = seq![c] + rest;
    assert(s[0] == c);
    assert(s.drop_first() =~= rest);
}

/// `String::push` of the standard library: it appends the one character `c`
/// to the end of the string and leaves the rest as it was.
pub assume_specification[ String::push ](s: &mut String, c: char)
    ensures
        final(s)@ == old(s)@.push(c),
;

/// Tells whether `c` is a white space character.
pub fn char_is_whitespace(c: char) -> (b: bool)
    ensures
        b == is_whitespace(c),
{
    let u: u32 = c as u32;
    (0x09 <= u && u <= 0x0D) || u == 0x20 || u == 0x85 || u == 0xA0 || u == 0x1680 || (0x2000 <= u
        && u <= 0x200A) || u == 0x2028 || u == 0x2029 || u == 0x202F || u == 0x205F || u == 0x3000
}

/// The characters of `s`, in order.
pub fn chars_of(s: &str) -> (v: Vec<char>)
    ensures
        v@ == s@,
{
    let mut v: Vec<char> = Vec::new();
    for c in it: s.chars()
        invariant
            v@ == it.seq().take(it.index()),
            it.seq() == s@,
    {
        v.push(c);
    }
    v
}

/// The index of the first `stop` at or behind `from`, or the length of the
/// text where none follows.
pub fn position_of(chars: &Vec<char>, from: usize, stop: char) -> (end: usize)
    requires
        from <= chars.len(),
    ensures
        from <= end <= chars.len(),
        end - from == len_before(chars@.skip(from as int), stop),
{
    let n = chars.len();
    let mut j: usize = from;
    while j < n && chars[j] != stop
        invariant
            from <= j <= n,
            n == chars.len(),
            forall|k: int| from <= k < j ==> chars[k] != stop,
        decreases n - j,
    {
        j += 1;
    }
    proof {
        lemma_len_before_is(chars@.skip(from as int), stop, j - from);
    }
    j
}

/// Splits the characters from `from` up to `to` into words.
pub fn split_words(chars: &Vec<char>, from: usize, to: usize) -> (words: Vec<String>)
    requires
        from <= to <= chars.len(),
    ensures
        words.deep_view() == words_of(chars@.subrange(from as int, to as int)),
{
    let mut words: Vec<String> = Vec::new();
    let mut i: usize = from;
    while i < to
        invariant
            from <= i <= to <= chars.len(),
            words_of(chars@.subrange(from as int, to as int)) == words.deep_view() + words_of(
                chars@.subrange(i as int, to as int),
            ),
        decreases to - i,
    {
        let ghost rest = chars@.subrange(i as int, to as int);
        if char_is_whitespace(chars[i]) {
            assert(rest.drop_first() =~= chars@.subrange(i + 1, to as int));
            i += 1;
        } else {
            let mut word = String::new();
            let mut j: usize = i;
            while j < to && !char_is_whitespace(chars[j])
                invariant
                    i <= j <= to <= chars.len(),
                    word@ == chars@.subrange(i as int, j as int),
                    forall|k: int| i <= k < j ==> !is_whitespace(chars[k]),
                decreases to - j,
            {
                word.push(chars[j]);
                assert(chars@.subrange(i as int, j as int).push(chars[j as int])
                    =~= chars@.subrange(i as int, j + 1));
                j += 1;
            }
            proof {
                lemma_word_len_is(rest, j - i);
                assert(rest.take(j - i) =~= word@);
                assert(rest.skip(j - i) =~= chars@.subrange(j as int, to as int));
                assert(words.deep_view().push(word@) + words_of(
                    chars@.subrange(j as int, to as int),
                ) =~= words.deep_view() + (seq![word@] + words_of(
                    chars@.subrange(j as int, to as int),
                )));
            }
            let ghost before = words.deep_view();
            words.push(word);
            assert(words.deep_view() =~= before.push(word@));
            i = j;
        }
    }
    assert(chars@.subrange(to as int, to as int) =~= Seq::<char>::empty());
    words
}

} // verus!
