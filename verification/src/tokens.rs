//! From messages to tokens.
use vstd::prelude::*;
use crate::text::{
    chars_of, replace_chars, replaced, split_all, split_at_all, split_words, texts, words,
};
use crate::types::{ConfigView, DrainState};

verus! {

/// The ASCII digits.
pub open spec fn is_digit(c: char) -> bool {
    '0' <= c <= '9'
}

/// `s` without a sign in front.
pub open spec fn unsigned(s: Seq<char>) -> Seq<char> {
    if s.len() > 0 && (s[0] == '-' || s[0] == '+') {
        s.skip(1)
    } else {
        s
    }
}

/// A number: an optional sign, then ASCII digits, at least one, with at most one dot among
/// them, before them or after them.
pub open spec fn numeric(s: Seq<char>) -> bool {
    let body = unsigned(s);
    &&& exists|i: int| 0 <= i < body.len() && is_digit(#[trigger] body[i])
    &&& forall|i: int| 0 <= i < body.len() ==> is_digit(#[trigger] body[i]) || body[i] == '.'
    &&& forall|i: int, j: int|
        0 <= i < j < body.len() ==> !(#[trigger] body[i] == '.' && #[trigger] body[j] == '.')
}

/// Whether `s` is a number, with or without a sign, with or without a dot.
pub fn is_numeric(s: &str) -> (res: bool)
    ensures
        res == numeric(s@),
{
    let chars = chars_of(s);
    if chars.len() == 0 {
        return false;
    }
    let start: usize = if chars[0] == '-' || chars[0] == '+' {
        if chars.len() == 1 {
            return false;
        }
        1
    } else {
        0
    };
    let ghost body = unsigned(s@);
    let mut has_dot = false;
    let mut has_digit = false;
    let mut i: usize = start;
    let mut dot: usize = start;
    while i < chars.len()
        invariant
            chars@ == s@,
            start <= i <= chars@.len(),
            start <= 1,
            body.len() == chars@.len() - start,
            body == unsigned(s@),
            forall|k: int| 0 <= k < body.len() ==> body[k] == chars@[k + start],
            forall|k: int|
                0 <= k < i - start ==> is_digit(#[trigger] body[k]) || body[k] == '.',
            has_digit == exists|k: int| 0 <= k < i - start && is_digit(#[trigger] body[k]),
            has_dot ==> start <= dot < i && body[dot - start] == '.',
            forall|k: int|
                0 <= k < i - start ==> (#[trigger] body[k] == '.' ==> has_dot && k == dot - start),
        decreases chars@.len() - i,
    {
        let c = chars[i];
        proof {
            assert(body[i - start] == c);
        }
        if c == '.' {
            if has_dot {
                return false;
            }
            has_dot = true;
            dot = i;
        } else if '0' <= c && c <= '9' {
            has_digit = true;
        } else {
            return false;
        }
        i = i + 1;
    }
    has_digit
}

/// `s` with every delimiter replaced by a space, one delimiter after the other.
pub open spec fn spaced(s: Seq<char>, delimiters: Seq<Seq<char>>) -> Seq<char>
    decreases delimiters.len(),
{
    if delimiters.len() == 0 {
        s
    } else {
        replaced(spaced(s, delimiters.drop_last()), delimiters.last(), seq![' '])
    }
}

impl ConfigView {
    /// A token as it is used: the wildcard for a number, where numbers are parametrized.
    pub open spec fn parametrized(self, token: Seq<char>) -> Seq<char> {
        if self.parametrize_numeric_tokens && numeric(token) {
            self.param_str
        } else {
            token
        }
    }

    /// The pieces into which a message is split: only by its own delimiters if there are any,
    /// else by whitespace and the extra delimiters.
    pub open spec fn pieces(self, content: Seq<char>) -> Seq<Seq<char>> {
        if self.delimiters.len() > 0 {
            split_all(seq![content], self.delimiters)
        } else {
            words(spaced(content, self.extra_delimiters))
        }
    }

    /// The tokens of a message.
    pub open spec fn tokens(self, content: Seq<char>) -> Seq<Seq<char>> {
        self.pieces(content).map_values(|t: Seq<char>| self.parametrized(t))
    }
}

/// `content` with every delimiter replaced by a space.
fn space_out(content: &str, delimiters: &Vec<String>) -> (chars: Vec<char>)
    ensures
        chars@ == spaced(content@, texts(delimiters@)),
{
    let ghost all = texts(delimiters@);
    let mut chars = chars_of(content);
    let mut target: Vec<char> = Vec::new();
    target.push(' ');
    let mut i: usize = 0;
    while i < delimiters.len()
        invariant
            i <= delimiters@.len(),
            all == texts(delimiters@),
            target@ == seq![' '],
            chars@ == spaced(content@, all.take(i as int)),
        decreases delimiters@.len() - i,
    {
        let pat = chars_of(delimiters[i].as_str());
        chars = replace_chars(chars.as_slice(), pat.as_slice(), target.as_slice());
        proof {
            assert(all.take(i + 1).drop_last() =~= all.take(i as int));
        }
        i = i + 1;
    }
    proof {
        assert(all.take(i as int) =~= all);
    }
    chars
}

impl DrainState {
    /// A token as it is used: the wildcard for a number, where numbers are parametrized.
    pub fn maybe_parametrize(&self, token: &str) -> (res: String)
        ensures
            res@ == self@.config.parametrized(token@),
    {
        if self.config.parametrize_numeric_tokens && is_numeric(token) {
            self.config.param_str.clone()
        } else {
            token.to_string()
        }
    }

    /// The tokens of a message.
    ///
    /// If `delimiters` is set, the message is split only on those. Otherwise, the extra
    /// delimiters are replaced by spaces, and the message is split on whitespace.
    pub fn tokenize(&self, content: &str) -> (tokens: Vec<String>)
        ensures
            texts(tokens@) == self@.config.tokens(content@),
    {
        let pieces = if self.config.delimiters.len() > 0 {
            split_at_all(content, &self.config.delimiters)
        } else {
            let chars = space_out(content, &self.config.extra_delimiters);
            split_words(chars.as_slice())
        };
        let mut tokens: Vec<String> = Vec::new();
        let mut i: usize = 0;
        while i < pieces.len()
            invariant
                i <= pieces@.len(),
                texts(pieces@) == self@.config.pieces(content@),
                texts(tokens@) == self@.config.tokens(content@).take(i as int),
            decreases pieces@.len() - i,
        {
            let ghost before = tokens@;
            let token = self.maybe_parametrize(pieces[i].as_str());
            tokens.push(token);
            proof {
                assert(texts(pieces@)[i as int] == pieces@[i as int]@);
                assert(texts(tokens@) =~= texts(before).push(token@));
                let all = self@.config.tokens(content@);
                assert(all.take(i + 1) =~= all.take(i as int).push(token@));
            }
            i = i + 1;
        }
        proof {
            assert(self@.config.tokens(content@).take(i as int) =~= self@.config.tokens(content@));
        }
        tokens
    }
}

} // verus!
