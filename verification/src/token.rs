//! Splitting a text into its whitespace-separated tokens.
use vstd::prelude::*;
use vstd::slice::slice_subrange;
use vstd::string::StringSliceAdditionalSpecFns;

verus! {

/// ASCII whitespace: space, tab, line feed, form feed, carriage return.
pub open spec fn is_space(b: u8) -> bool {
    b == 0x20 || b == 0x09 || b == 0x0a || b == 0x0c || b == 0x0d
}

/// Length of the run of whitespace that `s` starts with.
pub open spec fn leading_spaces(s: Seq<u8>) -> nat
    decreases s.len(),
{
    if s.len() > 0 && is_space(s[0]) {
        1 + leading_spaces(s.skip(1))
    } else {
        0
    }
}

/// Length of the run of bytes other than whitespace that `s` starts with.
pub open spec fn leading_word(s: Seq<u8>) -> nat
    decreases s.len(),
{
    if s.len() > 0 && !is_space(s[0]) {
        1 + leading_word(s.skip(1))
    } else {
        0
    }
}

/// The tokens of `s` in order of appearance: its maximal runs of bytes other
/// than whitespace.
pub open spec fn tokens(s: Seq<u8>) -> Seq<Seq<u8>>
    decreases s.len(),
    via tokens_decreases
{
    let word = s.skip(leading_spaces(s) as int);
    let n = leading_word(word);
    if n == 0 {
        Seq::empty()
    } else {
        seq![word.take(n as int)] + tokens(word.skip(n as int))
    }
}

#[via_fn]
proof fn tokens_decreases(s: Seq<u8>) {
    lemma_leading_spaces(s);
    lemma_leading_word(s.skip(leading_spaces(s) as int));
}

/// `leading_spaces(s)` is a position of `s` with only whitespace before it
/// and none at it.
pub proof fn lemma_leading_spaces(s: Seq<u8>)
    ensures
        leading_spaces(s) <= s.len(),
        forall|i: int| 0 <= i < leading_spaces(s) ==> is_space(#[trigger] s[i]),
        leading_spaces(s) < s.len() ==> !is_space(s[leading_spaces(s) as int]),
    decreases s.len(),
{
    if s.len() > 0 && is_space(s[0]) {
        let rest = s.skip(1);
        lemma_leading_spaces(rest);
        assert forall|i: int| 0 <= i < leading_spaces(s) implies is_space(#[trigger] s[i]) by {
            if i > 0 {
                assert(s[i] == rest[i - 1]);
            }
        }
    }
}

/// A position with only whitespace before it and none at it is
/// `leading_spaces(s)`.
pub proof fn lemma_leading_spaces_is(s: Seq<u8>, n: nat)
    requires
        n <= s.len(),
        forall|i: int| 0 <= i < n ==> is_space(#[trigger] s[i]),
        n < s.len() ==> !is_space(s[n as int]),
    ensures
        leading_spaces(s) == n,
    decreases s.len(),
{
    if n > 0 {
        let rest = s.skip(1);
        assert(is_space(s[0]));
        assert forall|i: int| 0 <= i < n - 1 implies is_space(#[trigger] rest[i]) by {
            assert(rest[i] == s[i + 1]);
        }
        lemma_leading_spaces_is(rest, (n - 1) as nat);
    }
}

/// `leading_word(s)` is a position of `s` with no whitespace before it and
/// whitespace, or the end, at it.
pub proof fn lemma_leading_word(s: Seq<u8>)
    ensures
        leading_word(s) <= s.len(),
        forall|i: int| 0 <= i < leading_word(s) ==> !is_space(#[trigger] s[i]),
        leading_word(s) < s.len() ==> is_space(s[leading_word(s) as int]),
    decreases s.len(),
{
    if s.len() > 0 && !is_space(s[0]) {
        let rest = s.skip(1);
        lemma_leading_word(rest);
        assert forall|i: int| 0 <= i < leading_word(s) implies !is_space(#[trigger] s[i]) by {
            if i > 0 {
                assert(s[i] == rest[i - 1]);
            }
        }
    }
}

/// A position with no whitespace before it and whitespace, or the end, at it
/// is `leading_word(s)`.
pub proof fn lemma_leading_word_is(s: Seq<u8>, n: nat)
    requires
        n <= s.len(),
        forall|i: int| 0 <= i < n ==> !is_space(#[trigger] s[i]),
        n < s.len() ==> is_space(s[n as int]),
    ensures
        leading_word(s) == n,
    decreases s.len(),
{
    if n > 0 {
        let rest = s.skip(1);
        assert(!is_space(s[0]));
        assert forall|i: int| 0 <= i < n - 1 implies !is_space(#[trigger] rest[i]) by {
            assert(rest[i] == s[i + 1]);
        }
        lemma_leading_word_is(rest, (n - 1) as nat);
    }
}

/// Every token is non-empty and free of whitespace.
pub proof fn lemma_tokens_are_words(s: Seq<u8>, i: int)
    requires
        0 <= i < tokens(s).len(),
    ensures
        tokens(s)[i].len() > 0,
        forall|j: int| 0 <= j < tokens(s)[i].len() ==> !is_space(#[trigger] tokens(s)[i][j]),
    decreases s.len(),
{
    let word = s.skip(leading_spaces(s) as int);
    let n = leading_word(word);
    lemma_leading_spaces(s);
    lemma_leading_word(word);
    if i > 0 {
        lemma_tokens_are_words(word.skip(n as int), i - 1);
    }
}

/// A text of nothing but whitespace, the empty text included, has no tokens.
pub proof fn lemma_blank_has_no_tokens(s: Seq<u8>)
    requires
        forall|i: int| 0 <= i < s.len() ==> is_space(#[trigger] s[i]),
    ensures
        tokens(s).len() == 0,
{
    lemma_leading_spaces_is(s, s.len());
}

/// Length of the run of whitespace that `bytes` starts with.
pub fn count_spaces(bytes: &[u8]) -> (n: usize)
    ensures
        n == leading_spaces(bytes@),
        n <= bytes@.len(),
{
    let mut n: usize = 0;
    while n < bytes.len() && is_space_byte(bytes[n])
        invariant
            n <= bytes.len(),
            forall|i: int| 0 <= i < n ==> is_space(#[trigger] bytes@[i]),
        decreases bytes.len() - n,
    {
        n += 1;
    }
    proof {
        lemma_leading_spaces_is(bytes@, n as nat);
    }
    n
}

/// Length of the run of bytes other than whitespace that `bytes` starts with.
pub fn count_word(bytes: &[u8]) -> (n: usize)
    ensures
        n == leading_word(bytes@),
        n <= bytes@.len(),
{
    let mut n: usize = 0;
    while n < bytes.len() && !is_space_byte(bytes[n])
        invariant
            n <= bytes.len(),
            forall|i: int| 0 <= i < n ==> !is_space(#[trigger] bytes@[i]),
        decreases bytes.len() - n,
    {
        n += 1;
    }
    proof {
        lemma_leading_word_is(bytes@, n as nat);
    }
    n
}

/// Whether `b` is ASCII whitespace.
pub fn is_space_byte(b: u8) -> (space: bool)
    ensures
        space == is_space(b),
{
    b == 0x20 || b == 0x09 || b == 0x0a || b == 0x0c || b == 0x0d
}

/// A cursor over the tokens of a text, with one token of lookahead.
///
/// Its view is the sequence of tokens not yet taken.
pub struct Tokenizer<'a> {
    rest: &'a [u8],
}

impl<'a> View for Tokenizer<'a> {
    type V = Seq<Seq<u8>>;

    closed spec fn view(&self) -> Seq<Seq<u8>> {
        tokens(self.rest@)
    }
}

impl<'a> Tokenizer<'a> {
    /// A cursor before the first token of `text`.
    pub fn new(text: &'a str) -> (cursor: Self)
        ensures
            cursor@ == tokens(text.spec_bytes()),
    {
        Tokenizer { rest: text.as_bytes() }
    }

    /// No token of a text is empty, and none holds whitespace.
    pub proof fn lemma_words(self, i: int)
        requires
            0 <= i < self@.len(),
        ensures
            self@[i].len() > 0,
            forall|j: int| 0 <= j < self@[i].len() ==> !is_space(#[trigger] self@[i][j]),
    {
        lemma_tokens_are_words(self.rest@, i);
    }

    /// The next token, which stays in place; `None` when none is left.
    pub fn peek(&self) -> (token: Option<&'a [u8]>)
        ensures
            match token {
                Some(t) => self@.len() > 0 && t@ == self@[0],
                None => self@.len() == 0,
            },
    {
        let spaces = count_spaces(self.rest);
        let word = slice_subrange(self.rest, spaces, self.rest.len());
        let n = count_word(word);
        if n == 0 {
            None
        } else {
            Some(slice_subrange(word, 0, n))
        }
    }

    /// Takes the next token; `None`, and no change, when none is left.
    pub fn next(&mut self) -> (token: Option<&'a [u8]>)
        ensures
            match token {
                Some(t) => {
                    &&& old(self)@.len() > 0
                    &&& t@ == old(self)@[0]
                    &&& final(self)@ == old(self)@.skip(1)
                },
                None => old(self)@.len() == 0 && final(self)@ == old(self)@,
            },
    {
        let spaces = count_spaces(self.rest);
        let word = slice_subrange(self.rest, spaces, self.rest.len());
        let n = count_word(word);
        if n == 0 {
            None
        } else {
            let token = slice_subrange(word, 0, n);
            let ghost before = self@;
            self.rest = slice_subrange(word, n, word.len());
            assert(before.skip(1) =~= tokens(word@.skip(n as int)));
            Some(token)
        }
    }
}

} // verus!
