use vstd::prelude::*;

verus! {

/// Whether `c` is a Unicode word character (Alphabetic, Join_Control, Decimal_Number,
/// Mark or Connector_Punctuation), the class that `\w` denotes.
pub uninterp spec fn word_char(c: char) -> bool;

/// Whether `c` has the Unicode White_Space property.
pub uninterp spec fn white_space(c: char) -> bool;

/// Relies on regex_syntax::is_word_character: whether `c` is a Unicode word character.
#[verifier::external_body]
fn is_word(c: char) -> (r: bool)
    ensures
        r == word_char(c),
{
    regex_syntax::is_word_character(c)
}

/// Relies on char::is_whitespace: whether `c` has the White_Space property.
#[verifier::external_body]
pub(crate) fn is_white(c: char) -> (r: bool)
    ensures
        r == white_space(c),
{
    c.is_whitespace()
}

/// Relies on str::chars: the characters of `s`, in order.
#[verifier::external_body]
pub(crate) fn chars_of(s: &str) -> (r: Vec<char>)
    ensures
        r@ == s@,
{
    s.chars().collect()
}

/// Relies on String's FromIterator<&char>: the string made of `v`'s characters.
#[verifier::external_body]
pub(crate) fn string_of(v: &Vec<char>) -> (r: String)
    ensures
        r@ == v@,
{
    v.iter().collect()
}

/// End of the run of word characters that starts at `i`.
pub open spec fn word_end(s: Seq<char>, i: int) -> int
    decreases s.len() - i,
{
    if 0 <= i < s.len() && word_char(s[i]) {
        word_end(s, i + 1)
    } else {
        i
    }
}

/// End of the run of non-whitespace characters that starts at `i`.
pub open spec fn non_white_end(s: Seq<char>, i: int) -> int
    decreases s.len() - i,
{
    if 0 <= i < s.len() && !white_space(s[i]) {
        non_white_end(s, i + 1)
    } else {
        i
    }
}

/// `--name=value` matches at `p`: two dashes, a run of word characters, an `=`.
pub open spec fn long_at(s: Seq<char>, p: int) -> bool {
    &&& 0 <= p
    &&& p + 1 < s.len()
    &&& s[p] == '-'
    &&& s[p + 1] == '-'
    &&& word_end(s, p + 2) < s.len()
    &&& s[word_end(s, p + 2)] == '='
}

/// The first position at or after `p` where `--name=value` matches.
pub open spec fn first_long(s: Seq<char>, p: int) -> Option<int>
    decreases s.len() - p,
{
    if p < 0 || p >= s.len() {
        None
    } else if long_at(s, p) {
        Some(p)
    } else {
        first_long(s, p + 1)
    }
}

/// The first position at or after `p` that holds a dash.
pub open spec fn first_dash(s: Seq<char>, p: int) -> Option<int>
    decreases s.len() - p,
{
    if p < 0 || p >= s.len() {
        None
    } else if s[p] == '-' {
        Some(p)
    } else {
        first_dash(s, p + 1)
    }
}

/// The name and value of the leftmost `--name=value` in `s`: the name is the longest
/// run of word characters after the two dashes, the value the longest run of
/// non-whitespace characters after the `=`.
pub open spec fn long_form(s: Seq<char>) -> Option<(Seq<char>, Seq<char>)> {
    match first_long(s, 0) {
        Some(p) => {
            let q = word_end(s, p + 2);
            Some((s.subrange(p + 2, q), s.subrange(q + 1, non_white_end(s, q + 1))))
        },
        None => None,
    }
}

/// The name of the leftmost `-name` in `s`: the longest run of word characters after
/// the first dash.
pub open spec fn short_form(s: Seq<char>) -> Option<Seq<char>> {
    match first_dash(s, 0) {
        Some(p) => Some(s.subrange(p + 1, word_end(s, p + 1))),
        None => None,
    }
}

/// How a single command-line token reads.
pub enum Token {
    /// `--name=value`
    Long(Vec<char>, Vec<char>),
    /// `-name`
    Short(Vec<char>),
    /// Anything else: the value of a preceding `-name`.
    Plain,
}

/// What a token reads as, over character sequences.
pub ghost enum TokenView {
    Long(Seq<char>, Seq<char>),
    Short(Seq<char>),
    Plain,
}

impl View for Token {
    type V = TokenView;

    open spec fn view(&self) -> TokenView {
        match self {
            Token::Long(n, v) => TokenView::Long(n@, v@),
            Token::Short(n) => TokenView::Short(n@),
            Token::Plain => TokenView::Plain,
        }
    }
}

/// The reading of a token: the long form where it matches, else the short form
/// where it matches, else plain.
pub open spec fn token_view(s: Seq<char>) -> TokenView {
    match long_form(s) {
        Some((n, v)) => TokenView::Long(n, v),
        None => match short_form(s) {
            Some(n) => TokenView::Short(n),
            None => TokenView::Plain,
        },
    }
}

/// End of the run of word characters in `s` that starts at `i`.
fn scan_word(s: &Vec<char>, i: usize) -> (r: usize)
    requires
        i <= s@.len(),
    ensures
        r == word_end(s@, i as int),
        i <= r <= s@.len(),
{
    let mut j = i;
    while j < s.len() && is_word(s[j])
        invariant
            i <= j <= s@.len(),
            word_end(s@, i as int) == word_end(s@, j as int),
        decreases s@.len() - j,
    {
        j = j + 1;
    }
    j
}

/// End of the run of non-whitespace characters in `s` that starts at `i`.
fn scan_non_white(s: &Vec<char>, i: usize) -> (r: usize)
    requires
        i <= s@.len(),
    ensures
        r == non_white_end(s@, i as int),
        i <= r <= s@.len(),
{
    let mut j = i;
    while j < s.len() && !is_white(s[j])
        invariant
            i <= j <= s@.len(),
            non_white_end(s@, i as int) == non_white_end(s@, j as int),
        decreases s@.len() - j,
    {
        j = j + 1;
    }
    j
}

/// The characters of `s` from `a` up to `b`.
pub fn slice_chars(s: &Vec<char>, a: usize, b: usize) -> (r: Vec<char>)
    requires
        a <= b <= s@.len(),
    ensures
        r@ == s@.subrange(a as int, b as int),
{
    let mut out: Vec<char> = Vec::new();
    let mut i = a;
    while i < b
        invariant
            a <= i <= b,
            b <= s@.len(),
            out@ == s@.subrange(a as int, i as int),
        decreases b - i,
    {
        out.push(s[i]);
        i = i + 1;
        assert(out@ =~= s@.subrange(a as int, i as int));
    }
    out
}

/// Reads one command-line token.
pub fn classify(s: &Vec<char>) -> (r: Token)
    ensures
        r@ == token_view(s@),
{
    let n = s.len();
    let mut p: usize = 0;
    while p < n
        invariant
            n == s@.len(),
            p <= n,
            first_long(s@, 0) == first_long(s@, p as int),
        decreases n - p,
    {
        if p + 1 < n && s[p] == '-' && s[p + 1] == '-' {
            let q = scan_word(s, p + 2);
            if q < n && s[q] == '=' {
                let e = scan_non_white(s, q + 1);
                assert(long_at(s@, p as int));
                assert(first_long(s@, p as int) == Some(p as int));
                return Token::Long(slice_chars(s, p + 2, q), slice_chars(s, q + 1, e));
            }
        }
        p = p + 1;
    }
    assert(first_long(s@, n as int) is None);
    let mut d: usize = 0;
    while d < n
        invariant
            n == s@.len(),
            d <= n,
            first_dash(s@, 0) == first_dash(s@, d as int),
            first_long(s@, 0) is None,
        decreases n - d,
    {
        if s[d] == '-' {
            let e = scan_word(s, d + 1);
            assert(first_dash(s@, d as int) == Some(d as int));
            return Token::Short(slice_chars(s, d + 1, e));
        }
        d = d + 1;
    }
    assert(first_dash(s@, n as int) is None);
    Token::Plain
}

/// Appends the characters of `s` to `out`.
pub fn push_all(out: &mut Vec<char>, s: &Vec<char>)
    ensures
        final(out)@ == old(out)@ + s@,
{
    let ghost start = out@;
    let mut i: usize = 0;
    while i < s.len()
        invariant
            i <= s@.len(),
            out@ == start + s@.subrange(0, i as int),
        decreases s@.len() - i,
    {
        out.push(s[i]);
        i = i + 1;
        assert(out@ =~= start + s@.subrange(0, i as int));
    }
    assert(s@.subrange(0, s@.len() as int) =~= s@);
}

} // verus!
