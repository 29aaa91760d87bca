//! Text as sequences of characters: splitting, replacing, joining, numerals.
use vstd::prelude::*;

verus! {

/// `String::push`: appends the given character to the end of the string.
pub assume_specification[ String::push ](s: &mut String, c: char)
    ensures
        final(s)@ == old(s)@.push(c),
;

/// The texts that a sequence of strings holds.
pub open spec fn texts(strings: Seq<String>) -> Seq<Seq<char>> {
    strings.map_values(|s: String| s@)
}

/// The characters with the Unicode property `White_Space`.
pub open spec fn whitespace(c: char) -> bool {
    let n = c as u32;
    ||| 0x09 <= n <= 0x0D
    ||| n == 0x20
    ||| n == 0x85
    ||| n == 0xA0
    ||| n == 0x1680
    ||| 0x2000 <= n <= 0x200A
    ||| n == 0x2028
    ||| n == 0x2029
    ||| n == 0x202F
    ||| n == 0x205F
    ||| n == 0x3000
}

/// Whether `c` has the Unicode property `White_Space`.
pub fn is_whitespace(c: char) -> (res: bool)
    ensures
        res == whitespace(c),
{
    let n: u32 = c as u32;
    (0x09 <= n && n <= 0x0D) || n == 0x20 || n == 0x85 || n == 0xA0 || n == 0x1680 || (0x2000 <= n
        && n <= 0x200A) || n == 0x2028 || n == 0x2029 || n == 0x202F || n == 0x205F || n == 0x3000
}

/// How many characters at the start of `s` come before the first whitespace.
pub open spec fn run_len(s: Seq<char>) -> nat
    decreases s.len(),
{
    if s.len() == 0 || whitespace(s[0]) {
        0
    } else {
        1 + run_len(s.skip(1))
    }
}

/// The words of `s`: its maximal non-empty runs without whitespace, in order.
pub open spec fn words(s: Seq<char>) -> Seq<Seq<char>>
    decreases s.len(),
{
    if s.len() == 0 {
        Seq::empty()
    } else if whitespace(s[0]) {
        words(s.skip(1))
    } else {
        proof {
            lemma_run_len(s);
        }
        seq![s.take(run_len(s) as int)] + words(s.skip(run_len(s) as int))
    }
}

/// A run ends where the text ends or at whitespace, and holds none.
pub proof fn lemma_run_len(s: Seq<char>)
    ensures
        run_len(s) <= s.len(),
        forall|i: int| 0 <= i < run_len(s) ==> !whitespace(#[trigger] s[i]),
        run_len(s) < s.len() ==> whitespace(s[run_len(s) as int]),
        s.len() > 0 && !whitespace(s[0]) ==> run_len(s) > 0,
    decreases s.len(),
{
    if s.len() > 0 && !whitespace(s[0]) {
        lemma_run_len(s.skip(1));
        assert forall|i: int| 0 <= i < run_len(s) implies !whitespace(#[trigger] s[i]) by {
            if i > 0 {
                assert(s[i] == s.skip(1)[i - 1]);
            }
        }
    }
}

/// `s` with every match of `pat` replaced by `to`. Matches are found from left to right and do
/// not overlap; an empty pattern matches before every character and at the end.
pub open spec fn replaced(s: Seq<char>, pat: Seq<char>, to: Seq<char>) -> Seq<char>
    decreases s.len(),
{
    if pat.len() == 0 {
        if s.len() == 0 {
            to
        } else {
            to + seq![s[0]] + replaced(s.skip(1), pat, to)
        }
    } else if s.len() < pat.len() {
        s
    } else if s.take(pat.len() as int) == pat {
        to + replaced(s.skip(pat.len() as int), pat, to)
    } else {
        seq![s[0]] + replaced(s.skip(1), pat, to)
    }
}

/// The position of the first match of `pat` in `s`, or the length of `s` if there is none.
pub open spec fn match_pos(s: Seq<char>, pat: Seq<char>) -> nat
    decreases s.len(),
{
    if s.len() == 0 || s.len() < pat.len() {
        s.len()
    } else if s.take(pat.len() as int) == pat {
        0
    } else {
        1 + match_pos(s.skip(1), pat)
    }
}

/// Where the first match is, `pat` stands, and before it `pat` does not.
pub proof fn lemma_match_pos(s: Seq<char>, pat: Seq<char>)
    requires
        pat.len() > 0,
    ensures
        match_pos(s, pat) <= s.len(),
        match_pos(s, pat) < s.len() ==> match_pos(s, pat) + pat.len() <= s.len() && s.skip(
            match_pos(s, pat) as int,
        ).take(pat.len() as int) == pat,
        forall|j: int|
            0 <= j < match_pos(s, pat) && j + pat.len() <= s.len() ==> #[trigger] s.skip(j).take(
                pat.len() as int,
            ) != pat,
    decreases s.len(),
{
    let n = pat.len() as int;
    assert(s.skip(0) =~= s);
    if s.len() > 0 && s.len() >= pat.len() && s.take(n) != pat {
        let rest = s.skip(1);
        lemma_match_pos(rest, pat);
        let p = match_pos(rest, pat) as int;
        assert(rest.skip(p) =~= s.skip(p + 1));
        assert forall|j: int|
            0 <= j < match_pos(s, pat) && j + pat.len() <= s.len() implies #[trigger] s.skip(
            j,
        ).take(n) != pat by {
            if j > 0 {
                assert(rest.skip(j - 1) =~= s.skip(j));
                assert(rest.skip(j - 1).take(n) != pat);
            }
        }
    }
}

/// The non-empty pieces of `s` between the matches of `pat`, in order. Matches are found from
/// left to right and do not overlap; an empty pattern matches between all characters.
pub open spec fn divided(s: Seq<char>, pat: Seq<char>) -> Seq<Seq<char>>
    decreases s.len(),
{
    if pat.len() == 0 {
        Seq::new(s.len(), |i: int| seq![s[i]])
    } else if s.len() == 0 {
        Seq::empty()
    } else {
        proof {
            lemma_match_pos(s, pat);
        }
        let n = match_pos(s, pat) as int;
        if n == s.len() {
            seq![s]
        } else if n == 0 {
            divided(s.skip(pat.len() as int), pat)
        } else {
            seq![s.take(n)] + divided(s.skip(n + pat.len()), pat)
        }
    }
}

/// The pieces of all pieces.
pub open spec fn divided_each(pieces: Seq<Seq<char>>, pat: Seq<char>) -> Seq<Seq<char>>
    decreases pieces.len(),
{
    if pieces.len() == 0 {
        Seq::empty()
    } else {
        divided_each(pieces.drop_last(), pat) + divided(pieces.last(), pat)
    }
}

/// Every piece divided at each delimiter in turn. Where there are delimiters, no empty piece is
/// left.
pub open spec fn split_all(pieces: Seq<Seq<char>>, delimiters: Seq<Seq<char>>) -> Seq<Seq<char>>
    decreases delimiters.len(),
{
    if delimiters.len() == 0 {
        pieces
    } else {
        divided_each(split_all(pieces, delimiters.drop_last()), delimiters.last())
    }
}

/// The parts in order, with `sep` between each two.
pub open spec fn joined(parts: Seq<Seq<char>>, sep: Seq<char>) -> Seq<char>
    decreases parts.len(),
{
    if parts.len() == 0 {
        Seq::empty()
    } else if parts.len() == 1 {
        parts[0]
    } else {
        parts[0] + sep + joined(parts.skip(1), sep)
    }
}

/// The decimal digit for `d`.
pub open spec fn digit(d: nat) -> char {
    (48 + d) as char
}

/// The decimal numeral for `n`, without leading zeros.
pub open spec fn decimal(n: nat) -> Seq<char>
    decreases n,
{
    if n < 10 {
        seq![digit(n)]
    } else {
        decimal(n / 10).push(digit(n % 10))
    }
}

/// The characters of `s`, in order.
pub fn chars_of(s: &str) -> (chars: Vec<char>)
    ensures
        chars@ == s@,
{
    let mut chars: Vec<char> = Vec::new();
    for c in it: s.chars()
        invariant
            chars@ == s@.take(it.index()),
            it.seq() == s@,
    {
        chars.push(c);
    }
    chars
}

/// The string that holds the characters from `from` up to, not including, `to`.
pub fn string_of(chars: &[char], from: usize, to: usize) -> (s: String)
    requires
        from <= to <= chars@.len(),
    ensures
        s@ == chars@.subrange(from as int, to as int),
{
    let mut s = String::new();
    let mut i: usize = from;
    while i < to
        invariant
            from <= i <= to <= chars@.len(),
            s@ == chars@.subrange(from as int, i as int),
        decreases to - i,
    {
        s.push(chars[i]);
        i = i + 1;
    }
    s
}

/// The end of the run that starts at `start`.
fn run_end(chars: &[char], start: usize) -> (end: usize)
    requires
        start <= chars@.len(),
    ensures
        start <= end <= chars@.len(),
        end == start + run_len(chars@.skip(start as int)),
{
    let mut end: usize = start;
    while end < chars.len() && !is_whitespace(chars[end])
        invariant
            start <= end <= chars@.len(),
            end + run_len(chars@.skip(end as int)) == start + run_len(
                chars@.skip(start as int)),
        decreases chars@.len() - end,
    {
        proof {
            assert(chars@.skip(end as int).skip(1) =~= chars@.skip(end + 1));
        }
        end = end + 1;
    }
    end
}

/// The words of `chars`: its maximal non-empty runs without whitespace, in order.
pub fn split_words(chars: &[char]) -> (out: Vec<String>)
    ensures
        texts(out@) == words(chars@),
{
    let mut out: Vec<String> = Vec::new();
    let mut i: usize = 0;
    proof {
        assert(chars@.skip(0) =~= chars@);
        assert(texts(out@) + words(chars@) =~= words(chars@));
    }
    while i < chars.len()
        invariant
            i <= chars@.len(),
            texts(out@) + words(chars@.skip(i as int)) == words(chars@),
        decreases chars@.len() - i,
    {
        let ghost rest = chars@.skip(i as int);
        let ghost before = texts(out@);
        if is_whitespace(chars[i]) {
            proof {
                assert(rest.skip(1) =~= chars@.skip(i + 1));
            }
            i = i + 1;
        } else {
            let end = run_end(chars, i);
            out.push(string_of(chars, i, end));
            proof {
                lemma_run_len(rest);
                let n = run_len(rest) as int;
                assert(rest.take(n) =~= chars@.subrange(i as int, end as int));
                assert(rest.skip(n) =~= chars@.skip(end as int));
                assert(texts(out@) =~= before.push(rest.take(n)));
                assert(texts(out@) + words(rest.skip(n)) =~= before + (seq![rest.take(n)]
                    + words(rest.skip(n))));
            }
            i = end;
        }
    }
    proof {
        assert(texts(out@) + Seq::<Seq<char>>::empty() =~= texts(out@));
    }
    out
}

/// Whether `pat` stands in `chars` at position `at`.
fn matches_at(chars: &[char], at: usize, pat: &[char]) -> (res: bool)
    requires
        at + pat@.len() <= chars@.len(),
    ensures
        res == (chars@.skip(at as int).take(pat@.len() as int) == pat@),
{
    let total: usize = chars.len();
    let mut k: usize = 0;
    while k < pat.len()
        invariant
            k <= pat@.len(),
            total == chars@.len(),
            at + pat@.len() <= total,
            forall|j: int| 0 <= j < k ==> chars@[at + j] == pat@[j],
        decreases pat@.len() - k,
    {
        if chars[at + k] != pat[k] {
            proof {
                assert(chars@.skip(at as int).take(pat@.len() as int)[k as int] != pat@[k as int]);
            }
            return false;
        }
        k = k + 1;
    }
    proof {
        assert(chars@.skip(at as int).take(pat@.len() as int) =~= pat@);
    }
    true
}

/// Where the first match of `pat` from `start` on begins, or the end of `chars`.
fn match_from(chars: &[char], start: usize, pat: &[char]) -> (at: usize)
    requires
        start <= chars@.len(),
        pat@.len() > 0,
    ensures
        at == start + match_pos(chars@.skip(start as int), pat@),
        start <= at <= chars@.len(),
        at < chars@.len() ==> at + pat@.len() <= chars@.len(),
{
    proof {
        lemma_match_pos(chars@.skip(start as int), pat@);
    }
    let mut at: usize = start;
    while pat.len() <= chars.len() - at
        invariant
            pat@.len() > 0,
            start <= at <= chars@.len(),
            at + match_pos(chars@.skip(at as int), pat@) == start + match_pos(
                chars@.skip(start as int),
                pat@,
            ),
        decreases chars@.len() - at,
    {
        if matches_at(chars, at, pat) {
            return at;
        }
        proof {
            assert(chars@.skip(at as int).skip(1) =~= chars@.skip(at + 1));
        }
        at = at + 1;
    }
    chars.len()
}

/// The non-empty pieces of `s` between the matches of `pat`, in order.
pub fn divide(s: &str, pat: &str) -> (out: Vec<String>)
    ensures
        texts(out@) == divided(s@, pat@),
{
    let chars = chars_of(s);
    let pat_chars = chars_of(pat);
    let mut out: Vec<String> = Vec::new();
    let mut i: usize = 0;
    proof {
        assert(chars@.skip(0) =~= chars@);
        assert(texts(out@) + divided(s@, pat@) =~= divided(s@, pat@));
    }
    if pat_chars.len() == 0 {
        while i < chars.len()
            invariant
                pat@.len() == 0,
                chars@ == s@,
                i <= chars@.len(),
                texts(out@) == divided(s@, pat@).take(i as int),
            decreases chars@.len() - i,
        {
            let ghost before = out@;
            let piece = string_of(chars.as_slice(), i, i + 1);
            out.push(piece);
            proof {
                assert(piece@ =~= seq![s@[i as int]]);
                assert(texts(out@) =~= texts(before).push(piece@));
                assert(divided(s@, pat@).take(i + 1) =~= divided(s@, pat@).take(i as int).push(
                    piece@,
                ));
            }
            i = i + 1;
        }
        proof {
            assert(divided(s@, pat@).take(i as int) =~= divided(s@, pat@));
        }
        return out;
    }
    while i < chars.len()
        invariant
            pat_chars@ == pat@,
            pat@.len() > 0,
            chars@ == s@,
            i <= chars@.len(),
            texts(out@) + divided(s@.skip(i as int), pat@) == divided(s@, pat@),
        decreases chars@.len() - i,
    {
        let ghost before = texts(out@);
        let ghost rest = s@.skip(i as int);
        let end = match_from(chars.as_slice(), i, pat_chars.as_slice());
        if i < end {
            out.push(string_of(chars.as_slice(), i, end));
            proof {
                assert(rest.take(end - i) =~= s@.subrange(i as int, end as int));
                assert(texts(out@) =~= before.push(rest.take(end - i)));
            }
        }
        let next = if end < chars.len() {
            end + pat_chars.len()
        } else {
            end
        };
        proof {
            assert(rest.skip(next - i) =~= s@.skip(next as int));
            assert(rest.take(rest.len() as int) =~= rest);
            assert(texts(out@) + divided(s@.skip(next as int), pat@) =~= before + divided(
                rest,
                pat@,
            ));
        }
        i = next;
    }
    proof {
        assert(texts(out@) + Seq::<Seq<char>>::empty() =~= texts(out@));
    }
    out
}

/// The pieces of all pieces.
fn divide_each(pieces: &Vec<String>, pat: &str) -> (out: Vec<String>)
    ensures
        texts(out@) == divided_each(texts(pieces@), pat@),
{
    let ghost all = texts(pieces@);
    let mut out: Vec<String> = Vec::new();
    let mut i: usize = 0;
    proof {
        assert(texts(out@) =~= Seq::empty());
    }
    while i < pieces.len()
        invariant
            i <= pieces@.len(),
            all == texts(pieces@),
            texts(out@) == divided_each(all.take(i as int), pat@),
        decreases pieces@.len() - i,
    {
        let ghost before = out@;
        let mut more = divide(pieces[i].as_str(), pat);
        let ghost added = more@;
        out.append(&mut more);
        proof {
            assert(texts(out@) =~= texts(before) + texts(added));
            assert(all.take(i + 1).drop_last() =~= all.take(i as int));
            assert(all.take(i + 1).last() == pieces@[i as int]@);
        }
        i = i + 1;
    }
    proof {
        assert(all.take(i as int) =~= all);
    }
    out
}

/// `s` divided at each delimiter in turn.
pub fn split_at_all(s: &str, delimiters: &Vec<String>) -> (pieces: Vec<String>)
    ensures
        texts(pieces@) == split_all(seq![s@], texts(delimiters@)),
{
    let mut pieces: Vec<String> = Vec::new();
    pieces.push(s.to_string());
    let ghost all = texts(delimiters@);
    let mut i: usize = 0;
    proof {
        assert(texts(pieces@) =~= seq![s@]);
    }
    while i < delimiters.len()
        invariant
            i <= delimiters@.len(),
            all == texts(delimiters@),
            texts(pieces@) == split_all(seq![s@], all.take(i as int)),
        decreases delimiters@.len() - i,
    {
        pieces = divide_each(&pieces, delimiters[i].as_str());
        proof {
            assert(all.take(i + 1).drop_last() =~= all.take(i as int));
            assert(all.take(i + 1).last() == delimiters@[i as int]@);
        }
        i = i + 1;
    }
    proof {
        assert(all.take(i as int) =~= all);
    }
    pieces
}

/// Appends all of `more` to `out`.
fn extend(out: &mut Vec<char>, more: &[char])
    ensures
        final(out)@ == old(out)@ + more@,
{
    let mut k: usize = 0;
    while k < more.len()
        invariant
            k <= more@.len(),
            out@ == old(out)@ + more@.take(k as int),
        decreases more@.len() - k,
    {
        out.push(more[k]);
        k = k + 1;
        proof {
            assert(out@ =~= old(out)@ + more@.take(k as int));
        }
    }
    proof {
        assert(more@.take(k as int) =~= more@);
    }
}

/// `chars` with every match of `pat` replaced by `to`.
pub fn replace_chars(chars: &[char], pat: &[char], to: &[char]) -> (out: Vec<char>)
    ensures
        out@ == replaced(chars@, pat@, to@),
{
    let mut out: Vec<char> = Vec::new();
    let mut i: usize = 0;
    proof {
        assert(chars@.skip(0) =~= chars@);
        assert(out@ + replaced(chars@, pat@, to@) =~= replaced(chars@, pat@, to@));
    }
    if pat.len() == 0 {
        while i < chars.len()
            invariant
                pat@.len() == 0,
                i <= chars@.len(),
                out@ + replaced(chars@.skip(i as int), pat@, to@) == replaced(chars@, pat@, to@),
            decreases chars@.len() - i,
        {
            let ghost before = out@;
            let ghost rest = chars@.skip(i as int);
            extend(&mut out, to);
            out.push(chars[i]);
            i = i + 1;
            proof {
                let tail = replaced(rest.skip(1), pat@, to@);
                assert(rest.skip(1) =~= chars@.skip(i as int));
                assert(out@ + tail =~= before + (to@ + seq![rest[0]] + tail));
            }
        }
        extend(&mut out, to);
        return out;
    }
    while pat.len() <= chars.len() - i
        invariant
            pat@.len() > 0,
            i <= chars@.len(),
            out@ + replaced(chars@.skip(i as int), pat@, to@) == replaced(chars@, pat@, to@),
        decreases chars@.len() - i,
    {
        let ghost before = out@;
        let ghost rest = chars@.skip(i as int);
        if matches_at(chars, i, pat) {
            extend(&mut out, to);
            i = i + pat.len();
            proof {
                let tail = replaced(rest.skip(pat@.len() as int), pat@, to@);
                assert(rest.skip(pat@.len() as int) =~= chars@.skip(i as int));
                assert(out@ + tail =~= before + (to@ + tail));
            }
        } else {
            out.push(chars[i]);
            i = i + 1;
            proof {
                let tail = replaced(rest.skip(1), pat@, to@);
                assert(rest.skip(1) =~= chars@.skip(i as int));
                assert(out@ + tail =~= before + (seq![rest[0]] + tail));
            }
        }
    }
    let ghost before = out@;
    let ghost rest = chars@.skip(i as int);
    while i < chars.len()
        invariant
            i <= chars@.len(),
            out@ + chars@.skip(i as int) == before + rest,
        decreases chars@.len() - i,
    {
        let ghost prev = out@;
        out.push(chars[i]);
        proof {
            assert(out@ + chars@.skip(i + 1) =~= prev + chars@.skip(i as int));
        }
        i = i + 1;
    }
    proof {
        assert(out@ + chars@.skip(i as int) =~= out@);
    }
    out
}

/// `s` with every match of `pat` replaced by `to`.
pub fn replace(s: &str, pat: &str, to: &str) -> (out: String)
    ensures
        out@ == replaced(s@, pat@, to@),
{
    let chars = chars_of(s);
    let pat_chars = chars_of(pat);
    let to_chars = chars_of(to);
    let out = replace_chars(chars.as_slice(), pat_chars.as_slice(), to_chars.as_slice());
    let len = out.len();
    proof {
        assert(out@.subrange(0, len as int) =~= out@);
    }
    string_of(out.as_slice(), 0, len)
}

/// The words of `s`: its maximal runs without whitespace.
pub fn split_whitespace(s: &str) -> (out: Vec<String>)
    ensures
        texts(out@) == words(s@),
{
    let chars = chars_of(s);
    split_words(chars.as_slice())
}

/// One more part at the end.
pub proof fn lemma_joined_push(parts: Seq<Seq<char>>, part: Seq<char>, sep: Seq<char>)
    ensures
        parts.len() == 0 ==> joined(parts.push(part), sep) == part,
        parts.len() > 0 ==> joined(parts.push(part), sep) == joined(parts, sep) + sep + part,
    decreases parts.len(),
{
    if parts.len() > 0 {
        lemma_joined_push(parts.skip(1), part, sep);
        assert(parts.push(part).skip(1) =~= parts.skip(1).push(part));
        if parts.len() == 1 {
            assert(parts.skip(1).push(part) =~= seq![part]);
        }
        assert(joined(parts.push(part), sep) =~= joined(parts, sep) + sep + part);
    }
}

/// The parts in order, with `sep` between each two.
pub fn join(parts: &[String], sep: &str) -> (out: String)
    ensures
        out@ == joined(texts(parts@), sep@),
{
    let mut out = String::new();
    let mut i: usize = 0;
    while i < parts.len()
        invariant
            i <= parts@.len(),
            out@ == joined(texts(parts@.take(i as int)), sep@),
        decreases parts@.len() - i,
    {
        if i > 0 {
            out.append(sep);
        }
        out.append(parts[i].as_str());
        proof {
            lemma_joined_push(texts(parts@.take(i as int)), parts@[i as int]@, sep@);
            assert(texts(parts@.take(i + 1)) =~= texts(parts@.take(i as int)).push(
                parts@[i as int]@,
            ));
        }
        i = i + 1;
    }
    proof {
        assert(parts@.take(i as int) =~= parts@);
    }
    out
}

/// The decimal numeral for `n`.
pub fn numeral(n: u64) -> (out: String)
    ensures
        out@ == decimal(n as nat),
    decreases n,
{
    let last: u8 = (n % 10) as u8;
    let c: char = (48 + last) as char;
    let mut out = if n < 10 {
        String::new()
    } else {
        numeral(n / 10)
    };
    out.push(c);
    proof {
        assert(out@ =~= decimal(n as nat));
    }
    out
}

} // verus!
