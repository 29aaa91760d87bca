//! What tokens are: which texts are numbers, what becomes of them, and how messages are split.
use vstd::prelude::*;
use crate::text::{decimal, replaced, split_all, words};
use crate::text_laws::law_numeral_reads_back;
use crate::tokens::{numeric, spaced, unsigned};
use crate::types::ConfigView;

verus! {

/// Whether every character is an ASCII digit.
pub open spec fn all_digits(s: Seq<char>) -> bool {
    forall|i: int| 0 <= i < s.len() ==> '0' <= #[trigger] s[i] <= '9'
}

/// Whether a text is nothing or one of the two signs.
pub open spec fn sign_or_nothing(s: Seq<char>) -> bool {
    s.len() == 0 || s == seq!['-'] || s == seq!['+']
}

/// Whether a text is a sign or none, digits, and perhaps a dot and more digits, with at least
/// one digit in all.
pub open spec fn number_of(s: Seq<char>, sign: Seq<char>, a: Seq<char>, b: Seq<char>) -> bool {
    &&& sign_or_nothing(sign)
    &&& all_digits(a)
    &&& all_digits(b)
    &&& a.len() + b.len() > 0
    &&& s == sign + a + seq!['.'] + b || (b.len() == 0 && s == sign + a)
}

proof fn lemma_unsigned(sign: Seq<char>, body: Seq<char>)
    requires
        sign_or_nothing(sign),
        body.len() > 0,
        body[0] != '-' && body[0] != '+',
    ensures
        unsigned(sign + body) == body,
{
    if sign.len() == 0 {
        assert(sign + body =~= body);
    } else {
        assert((sign + body)[0] == sign[0]);
        assert((sign + body).skip(1) =~= body);
    }
}

/// Digits are a number, with or without a sign, and with or without a dot before, among or
/// after them.
pub proof fn law_digits_are_numbers(s: Seq<char>, sign: Seq<char>, a: Seq<char>, b: Seq<char>)
    requires
        number_of(s, sign, a, b),
    ensures
        numeric(s),
{
    if b.len() == 0 && s == sign + a {
        assert('0' <= a[0] <= '9');
        lemma_unsigned(sign, a);
        assert(crate::tokens::is_digit(a[0]));
        assert forall|i: int| 0 <= i < a.len() implies crate::tokens::is_digit(
            #[trigger] a[i],
        ) by {
            assert('0' <= a[i] <= '9');
        }
    } else {
        let body = a + seq!['.'] + b;
        assert(s =~= sign + body);
        assert(body[0] == if a.len() > 0 {
            a[0]
        } else {
            '.'
        });
        if a.len() > 0 {
            assert('0' <= a[0] <= '9');
        }
        lemma_unsigned(sign, body);
        assert forall|i: int| 0 <= i < body.len() && i != a.len() implies crate::tokens::is_digit(
            #[trigger] body[i],
        ) by {
            if i < a.len() {
                assert('0' <= a[i] <= '9');
            } else {
                assert('0' <= b[i - a.len() - 1] <= '9');
            }
        }
        assert(body[a.len() as int] == '.');
        if a.len() > 0 {
            assert(crate::tokens::is_digit(body[0]));
        } else {
            assert(crate::tokens::is_digit(body[1]));
        }
    }
}

/// Nothing else is a number.
pub proof fn law_numbers_are_digits(s: Seq<char>)
    requires
        numeric(s),
    ensures
        exists|sign: Seq<char>, a: Seq<char>, b: Seq<char>| number_of(s, sign, a, b),
{
    let body = unsigned(s);
    let sign = s.take(s.len() - body.len());
    assert(s =~= sign + body);
    assert(sign_or_nothing(sign)) by {
        if sign.len() > 0 {
            assert(sign =~= seq![s[0]]);
        }
    }
    let some = choose|i: int| 0 <= i < body.len() && crate::tokens::is_digit(#[trigger] body[i]);
    if exists|d: int| 0 <= d < body.len() && #[trigger] body[d] == '.' {
        let d = choose|d: int| 0 <= d < body.len() && #[trigger] body[d] == '.';
        let a = body.take(d);
        let b = body.skip(d + 1);
        assert(s =~= sign + a + seq!['.'] + b);
        assert forall|i: int| 0 <= i < a.len() implies '0' <= #[trigger] a[i] <= '9' by {
            assert(crate::tokens::is_digit(body[i]) || body[i] == '.');
        }
        assert forall|i: int| 0 <= i < b.len() implies '0' <= #[trigger] b[i] <= '9' by {
            assert(b[i] == body[i + d + 1]);
            assert(crate::tokens::is_digit(body[i + d + 1]) || body[i + d + 1] == '.');
        }
        assert(some != d);
        assert(number_of(s, sign, a, b));
    } else {
        let none = Seq::<char>::empty();
        assert forall|i: int| 0 <= i < body.len() implies '0' <= #[trigger] body[i] <= '9' by {
            assert(crate::tokens::is_digit(body[i]) || body[i] == '.');
        }
        assert(number_of(s, sign, body, none));
    }
}

/// The numeral of every number is a number, also with a sign in front, and becomes the wildcard
/// where numbers are parametrized.
pub proof fn law_numerals_are_parametrized(config: ConfigView, n: nat)
    ensures
        numeric(decimal(n)),
        numeric(seq!['-'] + decimal(n)),
        numeric(seq!['+'] + decimal(n)),
        config.parametrize_numeric_tokens ==> {
            &&& config.parametrized(decimal(n)) == config.param_str
            &&& config.parametrized(seq!['-'] + decimal(n)) == config.param_str
            &&& config.parametrized(seq!['+'] + decimal(n)) == config.param_str
        },
{
    law_numeral_reads_back(n);
    let s = decimal(n);
    let none = Seq::<char>::empty();
    assert(none + s =~= s);
    assert(number_of(s, none, s, none));
    assert(number_of(seq!['-'] + s, seq!['-'], s, none));
    assert(number_of(seq!['+'] + s, seq!['+'], s, none));
    law_digits_are_numbers(s, none, s, none);
    law_digits_are_numbers(seq!['-'] + s, seq!['-'], s, none);
    law_digits_are_numbers(seq!['+'] + s, seq!['+'], s, none);
}

/// Each piece of a message gives one token, in order: the wildcard for a number where numbers
/// are parametrized, else the piece itself.
pub proof fn law_tokens_stand_for_pieces(config: ConfigView, content: Seq<char>)
    ensures
        config.tokens(content).len() == config.pieces(content).len(),
        forall|i: int|
            0 <= i < config.pieces(content).len() ==> #[trigger] config.tokens(content)[i] == (
            if config.parametrize_numeric_tokens && numeric(config.pieces(content)[i]) {
                config.param_str
            } else {
                config.pieces(content)[i]
            }),
{
}

/// Own delimiters override: where there are any, they alone divide the message, and whitespace
/// and extra delimiters do not. Where there are none, the words of the message are its pieces,
/// after each extra delimiter in turn gave way to a space.
pub proof fn law_own_delimiters_override(
    config: ConfigView,
    content: Seq<char>,
    delimiters: Seq<Seq<char>>,
    d: Seq<char>,
)
    ensures
        config.delimiters.len() > 0 ==> config.pieces(content) == split_all(
            seq![content],
            config.delimiters,
        ),
        config.delimiters.len() == 0 ==> config.pieces(content) == words(
            spaced(content, config.extra_delimiters),
        ),
        config.delimiters.len() == 0 && config.extra_delimiters.len() == 0 ==> config.pieces(
            content,
        ) == words(content),
        spaced(content, Seq::empty()) == content,
        spaced(content, delimiters.push(d)) == replaced(
            spaced(content, delimiters),
            d,
            seq![' '],
        ),
{
    assert(delimiters.push(d).drop_last() =~= delimiters);
}

} // verus!
