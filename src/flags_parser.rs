use vstd::prelude::*;

use crate::token::{chars_of, classify, is_white, push_all, string_of, token_view, white_space, Token, TokenView};

verus! {

/// The settings read from the command line.
#[derive(Debug)]
pub struct Flags {
    pub verbosity: bool,
    pub images: Vec<String>,
    pub padding: i32,
    pub background_color: String,
    pub data_format: Option<DataFormat>,
    pub filename: String,
    pub image_resolution: (i32, i32),
}

/// Why the command line could not be read.
#[derive(Debug)]
pub enum ParseError {
    /// A value had the wrong shape.
    Basic,
    /// A required flag, named by its long form, was absent.
    FlagNotFound(String),
    /// A token stood where no flag could take it as its value.
    InvalidArgumentOrder(String),
    /// The command line could not be split into flags.
    TokenParsingFailed(Box<ParseError>),
    /// The value of a flag, named by its long form, did not parse.
    FlagParserError(String, Box<ParseError>),
    /// The value was neither `json` nor `xml`.
    DataFormatParsingFailed(String),
    /// The list held no value.
    EmptyListError(String),
    /// The value was neither `true` nor `false`.
    BooleanParsingFailed(String),
    /// The value was not a decimal `i32`.
    IntParsingFailed(String),
}

/// The text that describes an error of reading a command line.
pub open spec fn message_of(e: ParseError) -> Seq<char>
    decreases e,
{
    match e {
        ParseError::FlagNotFound(s) => "Didn't find required flag `"@ + s@ + "`"@,
        ParseError::InvalidArgumentOrder(s) => "Invalid argument order for `"@ + s@ + "`"@,
        ParseError::TokenParsingFailed(inner) => "Parsing command line string to tokens failed: "@
            + message_of(*inner),
        ParseError::FlagParserError(s, inner) => "Wasn't able to parse flag `"@ + s@ + "`, "@
            + message_of(*inner),
        ParseError::DataFormatParsingFailed(s) => "Provided string("@ + s@
            + ") was not `json` or `xml`"@,
        ParseError::EmptyListError(s) => "Provided list of values("@ + s@ + ") was empty"@,
        ParseError::BooleanParsingFailed(s) => "Provided string("@ + s@
            + ") was not `true` or `false`"@,
        ParseError::IntParsingFailed(s) => "Provided string("@ + s@ + ") was not an integer"@,
        ParseError::Basic => "Not implemented yet"@,
    }
}

impl ParseError {
    /// Describes the error.
    pub fn message(&self) -> (r: String)
        ensures
            r@ == message_of(*self),
        decreases self,
    {
        let mut out: Vec<char> = Vec::new();
        match self {
            ParseError::FlagNotFound(s) => {
                push_all(&mut out, &chars_of("Didn't find required flag `"));
                push_all(&mut out, &chars_of(s.as_str()));
                push_all(&mut out, &chars_of("`"));
            },
            ParseError::InvalidArgumentOrder(s) => {
                push_all(&mut out, &chars_of("Invalid argument order for `"));
                push_all(&mut out, &chars_of(s.as_str()));
                push_all(&mut out, &chars_of("`"));
            },
            ParseError::TokenParsingFailed(inner) => {
                push_all(&mut out, &chars_of("Parsing command line string to tokens failed: "));
                let m = inner.message();
                push_all(&mut out, &chars_of(m.as_str()));
            },
            ParseError::FlagParserError(s, inner) => {
                push_all(&mut out, &chars_of("Wasn't able to parse flag `"));
                push_all(&mut out, &chars_of(s.as_str()));
                push_all(&mut out, &chars_of("`, "));
                let m = inner.message();
                push_all(&mut out, &chars_of(m.as_str()));
            },
            ParseError::DataFormatParsingFailed(s) => {
                push_all(&mut out, &chars_of("Provided string("));
                push_all(&mut out, &chars_of(s.as_str()));
                push_all(&mut out, &chars_of(") was not `json` or `xml`"));
            },
            ParseError::EmptyListError(s) => {
                push_all(&mut out, &chars_of("Provided list of values("));
                push_all(&mut out, &chars_of(s.as_str()));
                push_all(&mut out, &chars_of(") was empty"));
            },
            ParseError::BooleanParsingFailed(s) => {
                push_all(&mut out, &chars_of("Provided string("));
                push_all(&mut out, &chars_of(s.as_str()));
                push_all(&mut out, &chars_of(") was not `true` or `false`"));
            },
            ParseError::IntParsingFailed(s) => {
                push_all(&mut out, &chars_of("Provided string("));
                push_all(&mut out, &chars_of(s.as_str()));
                push_all(&mut out, &chars_of(") was not an integer"));
            },
            ParseError::Basic => {
                push_all(&mut out, &chars_of("Not implemented yet"));
            },
        }
        proof {
            assert(out@ =~= message_of(*self));
        }
        string_of(&out)
    }
}

/// The format of the layout description written beside the atlas.
#[derive(Debug, Clone, Copy, PartialEq, Eq)]
pub enum DataFormat {
    Json,
    Xml,
}

/// One flag as written on the command line.
#[derive(Debug)]
pub enum RawFlag {
    /// `-name value`
    ShortForm(String, String),
    /// `--name=value`
    LongForm(String, String),
    /// `-name` with no value
    BooleanShortForm(String),
}

/// A flag over character sequences.
pub ghost enum FlagView {
    ShortForm(Seq<char>, Seq<char>),
    LongForm(Seq<char>, Seq<char>),
    BooleanShortForm(Seq<char>),
}

impl View for RawFlag {
    type V = FlagView;

    open spec fn view(&self) -> FlagView {
        match self {
            RawFlag::ShortForm(n, v) => FlagView::ShortForm(n@, v@),
            RawFlag::LongForm(n, v) => FlagView::LongForm(n@, v@),
            RawFlag::BooleanShortForm(n) => FlagView::BooleanShortForm(n@),
        }
    }
}

/// The characters of `true`.
pub open spec fn true_chars() -> Seq<char> {
    seq!['t', 'r', 'u', 'e']
}

/// The value a flag carries: a flag given without one stands for `true`.
pub open spec fn flag_value(f: FlagView) -> Seq<char> {
    match f {
        FlagView::ShortForm(_, v) => v,
        FlagView::LongForm(_, v) => v,
        FlagView::BooleanShortForm(_) => true_chars(),
    }
}

impl RawFlag {
    /// The value this flag carries.
    pub fn value(&self) -> (r: String)
        ensures
            r@ == flag_value(self@),
    {
        match self {
            RawFlag::ShortForm(_, value) => value.clone(),
            RawFlag::LongForm(_, value) => value.clone(),
            RawFlag::BooleanShortForm(_) => {
                proof {
                    reveal_strlit("true");
                }
                "true".to_owned()
            },
        }
    }
}

/// The flags of a sequence of raw flags.
pub open spec fn flags_view(v: Seq<RawFlag>) -> Seq<FlagView> {
    v.map_values(|f: RawFlag| f@)
}

/// The characters of each string.
pub open spec fn strings_view(v: Seq<String>) -> Seq<Seq<char>> {
    v.map_values(|s: String| s@)
}

/// The flags read so far, extended by one more token: a `--name=value` or `-name` token
/// is a flag of its own; any other token is the value of a preceding `-name`, and is
/// refused, as the error, where no such flag precedes it.
pub open spec fn read_token(acc: Seq<FlagView>, t: Seq<char>) -> Result<Seq<FlagView>, Seq<char>> {
    match token_view(t) {
        TokenView::Long(n, v) => Ok(acc.push(FlagView::LongForm(n, v))),
        TokenView::Short(n) => Ok(acc.push(FlagView::BooleanShortForm(n))),
        TokenView::Plain => if acc.len() > 0 && acc.last() is BooleanShortForm {
            Ok(acc.drop_last().push(FlagView::ShortForm(acc.last()->BooleanShortForm_0, t)))
        } else {
            Err(t)
        },
    }
}

/// The flags that a command line reads as, or the first token that is out of place.
pub open spec fn read_tokens(args: Seq<Seq<char>>) -> Result<Seq<FlagView>, Seq<char>>
    decreases args.len(),
{
    if args.len() == 0 {
        Ok(Seq::empty())
    } else {
        match read_tokens(args.drop_last()) {
            Ok(acc) => read_token(acc, args.last()),
            Err(t) => Err(t),
        }
    }
}

/// Splits a command line into flags.
pub fn parse_string_to_raw_flags(args_raw: Vec<String>) -> (r: Result<Vec<RawFlag>, ParseError>)
    ensures
        match read_tokens(strings_view(args_raw@)) {
            Ok(fs) => r is Ok && flags_view(r->Ok_0@) == fs,
            Err(t) => r is Err && r->Err_0 is InvalidArgumentOrder
                && r->Err_0->InvalidArgumentOrder_0@ == t,
        },
{
    let mut acc: Vec<RawFlag> = Vec::new();
    let mut i: usize = 0;
    proof {
        assert(strings_view(args_raw@.subrange(0, 0)) =~= Seq::<Seq<char>>::empty());
        assert(flags_view(acc@) =~= Seq::<FlagView>::empty());
    }
    while i < args_raw.len()
        invariant
            i <= args_raw@.len(),
            read_tokens(strings_view(args_raw@.subrange(0, i as int))) == Ok::<
                Seq<FlagView>,
                Seq<char>,
            >(flags_view(acc@)),
        decreases args_raw@.len() - i,
    {
        let ghost before = flags_view(acc@);
        proof {
            let p = args_raw@.subrange(0, i + 1);
            assert(strings_view(p).drop_last() =~= strings_view(args_raw@.subrange(0, i as int)));
            assert(strings_view(p).last() == args_raw@[i as int]@);
        }
        let text = &args_raw[i];
        let chars = chars_of(text.as_str());
        match classify(&chars) {
            Token::Long(n, v) => {
                acc.push(RawFlag::LongForm(string_of(&n), string_of(&v)));
            },
            Token::Short(n) => {
                acc.push(RawFlag::BooleanShortForm(string_of(&n)));
            },
            Token::Plain => {
                let last = acc.pop();
                match last {
                    Some(RawFlag::BooleanShortForm(flag)) => {
                        acc.push(RawFlag::ShortForm(flag, text.clone()));
                    },
                    _ => {
                        proof {
                            assert(read_tokens(strings_view(args_raw@.subrange(0, i + 1)))
                                == Err::<Seq<FlagView>, Seq<char>>(text@));
                            assert(strings_view(args_raw@).subrange(0, i + 1) =~= strings_view(
                                args_raw@.subrange(0, i + 1),
                            ));
                            lemma_read_tokens_err_sticks(strings_view(args_raw@), i + 1);
                        }
                        return Err(ParseError::InvalidArgumentOrder(text.clone()));
                    },
                }
            },
        }
        proof {
            assert(flags_view(acc@) =~= read_token(before, text@)->Ok_0);
        }
        i = i + 1;
    }
    proof {
        assert(args_raw@.subrange(0, args_raw@.len() as int) =~= args_raw@);
    }
    Ok(acc)
}

/// Once a prefix of the command line is refused, the whole of it is, for the same token.
proof fn lemma_read_tokens_err_sticks(args: Seq<Seq<char>>, i: int)
    requires
        0 <= i <= args.len(),
        read_tokens(args.subrange(0, i)) is Err,
    ensures
        read_tokens(args) == read_tokens(args.subrange(0, i)),
    decreases args.len(),
{
    if i < args.len() {
        assert(args.drop_last().subrange(0, i) =~= args.subrange(0, i));
        lemma_read_tokens_err_sticks(args.drop_last(), i);
    } else {
        assert(args.subrange(0, i) =~= args);
    }
}

/// The characters of `false`.
pub open spec fn false_chars() -> Seq<char> {
    seq!['f', 'a', 'l', 's', 'e']
}

/// The boolean that `s` spells, if it spells one.
pub open spec fn bool_of(s: Seq<char>) -> Option<bool> {
    if s == true_chars() {
        Some(true)
    } else if s == false_chars() {
        Some(false)
    } else {
        None
    }
}

/// The characters of `json`.
pub open spec fn json_chars() -> Seq<char> {
    seq!['j', 's', 'o', 'n']
}

/// The characters of `xml`.
pub open spec fn xml_chars() -> Seq<char> {
    seq!['x', 'm', 'l']
}

/// The data format that `s` names, if it names one.
pub open spec fn data_format_of(s: Seq<char>) -> Option<DataFormat> {
    if s == json_chars() {
        Some(DataFormat::Json)
    } else if s == xml_chars() {
        Some(DataFormat::Xml)
    } else {
        None
    }
}

/// Whether `c` is a decimal digit.
pub open spec fn is_digit(c: char) -> bool {
    '0' <= c <= '9'
}

/// Whether every character of `d` is a decimal digit.
pub open spec fn all_digits(d: Seq<char>) -> bool {
    forall|i: int| 0 <= i < d.len() ==> #[trigger] is_digit(d[i])
}

/// The number that the decimal digits `d` write.
pub open spec fn digits_value(d: Seq<char>) -> int
    decreases d.len(),
{
    if d.len() == 0 {
        0
    } else {
        digits_value(d.drop_last()) * 10 + (d.last() as int - '0' as int)
    }
}

/// The digits of `s` after an optional sign.
pub open spec fn unsigned_part(s: Seq<char>) -> Seq<char> {
    if s.len() > 0 && (s[0] == '-' || s[0] == '+') {
        s.drop_first()
    } else {
        s
    }
}

/// The `i32` that `s` writes in decimal, with an optional sign, if it writes one
/// within range.
pub open spec fn int_of(s: Seq<char>) -> Option<i32> {
    let d = unsigned_part(s);
    let v = if s.len() > 0 && s[0] == '-' {
        -digits_value(d)
    } else {
        digits_value(d)
    };
    if d.len() > 0 && all_digits(d) && i32::MIN <= v <= i32::MAX {
        Some(v as i32)
    } else {
        None
    }
}

/// `s` cut at each comma; a string without a comma is one piece.
pub open spec fn split_commas(s: Seq<char>) -> Seq<Seq<char>>
    decreases s.len(),
{
    if s.len() == 0 {
        seq![Seq::empty()]
    } else if s.last() == ',' {
        split_commas(s.drop_last()).push(Seq::empty())
    } else {
        let p = split_commas(s.drop_last());
        p.update(p.len() - 1, p.last().push(s.last()))
    }
}

/// Whether a list keeps `c`: brackets and whitespace are dropped.
pub open spec fn list_keeps(c: char) -> bool {
    c != '[' && c != ']' && !white_space(c)
}

/// `s` without brackets and whitespace.
pub open spec fn strip_list(s: Seq<char>) -> Seq<char>
    decreases s.len(),
{
    if s.len() == 0 {
        Seq::empty()
    } else if list_keeps(s.last()) {
        strip_list(s.drop_last()).push(s.last())
    } else {
        strip_list(s.drop_last())
    }
}

/// The pieces of a split, as character sequences.
pub open spec fn pieces_view(v: Seq<Vec<char>>) -> Seq<Seq<char>> {
    v.map_values(|p: Vec<char>| p@)
}

/// Whether `a` and `b` hold the same characters.
fn same_chars(a: &Vec<char>, b: &Vec<char>) -> (r: bool)
    ensures
        r == (a@ == b@),
{
    if a.len() != b.len() {
        return false;
    }
    let mut i: usize = 0;
    while i < a.len()
        invariant
            i <= a@.len(),
            a@.len() == b@.len(),
            forall|j: int| 0 <= j < i ==> a@[j] == b@[j],
        decreases a@.len() - i,
    {
        if a[i] != b[i] {
            return false;
        }
        i = i + 1;
    }
    assert(a@ =~= b@);
    true
}

/// Reads `true` or `false`.
pub fn boolean_parser(str: String) -> (r: Result<bool, ParseError>)
    ensures
        match bool_of(str@) {
            Some(b) => r == Ok::<bool, ParseError>(b),
            None => r is Err && r->Err_0 is BooleanParsingFailed
                && r->Err_0->BooleanParsingFailed_0@ == str@,
        },
{
    proof {
        reveal_strlit("true");
        reveal_strlit("false");
        assert("true"@ =~= true_chars());
        assert("false"@ =~= false_chars());
    }
    let s = chars_of(str.as_str());
    if same_chars(&s, &chars_of("true")) {
        Ok(true)
    } else if same_chars(&s, &chars_of("false")) {
        Ok(false)
    } else {
        Err(ParseError::BooleanParsingFailed(str))
    }
}

/// Reads `json` or `xml`.
pub fn data_format_parser(str: String) -> (r: Result<DataFormat, ParseError>)
    ensures
        match data_format_of(str@) {
            Some(f) => r == Ok::<DataFormat, ParseError>(f),
            None => r is Err && r->Err_0 is DataFormatParsingFailed
                && r->Err_0->DataFormatParsingFailed_0@ == str@,
        },
{
    proof {
        reveal_strlit("json");
        reveal_strlit("xml");
        assert("json"@ =~= json_chars());
        assert("xml"@ =~= xml_chars());
    }
    let s = chars_of(str.as_str());
    if same_chars(&s, &chars_of("json")) {
        Ok(DataFormat::Json)
    } else if same_chars(&s, &chars_of("xml")) {
        Ok(DataFormat::Xml)
    } else {
        Err(ParseError::DataFormatParsingFailed(str))
    }
}

/// The value of a prefix of all-digit characters is at most the value of the whole.
proof fn lemma_digits_prefix(d: Seq<char>, i: int)
    requires
        all_digits(d),
        0 <= i <= d.len(),
    ensures
        0 <= digits_value(d.subrange(0, i)) <= digits_value(d),
    decreases d.len(),
{
    if i < d.len() {
        assert(d.drop_last().subrange(0, i) =~= d.subrange(0, i));
        assert(all_digits(d.drop_last())) by {
            assert forall|j: int| 0 <= j < d.drop_last().len() implies #[trigger] is_digit(
                d.drop_last()[j],
            ) by {
                assert(is_digit(d[j]));
            }
        }
        lemma_digits_prefix(d.drop_last(), i);
        assert(is_digit(d[d.len() - 1]));
    } else {
        assert(d.subrange(0, i) =~= d);
        if d.len() > 0 {
            assert(all_digits(d.drop_last())) by {
                assert forall|j: int| 0 <= j < d.drop_last().len() implies #[trigger] is_digit(
                    d.drop_last()[j],
                ) by {
                    assert(is_digit(d[j]));
                }
            }
            assert(d.drop_last().subrange(0, d.len() - 1) =~= d.drop_last());
            lemma_digits_prefix(d.drop_last(), d.len() - 1);
            assert(is_digit(d[d.len() - 1]));
        }
    }
}

/// The `i32` that `s` writes in decimal, if it writes one.
fn int_of_chars(s: &Vec<char>) -> (r: Option<i32>)
    ensures
        r == int_of(s@),
{
    let n = s.len();
    if n == 0 {
        return None;
    }
    let negative = s[0] == '-';
    let start: usize = if s[0] == '-' || s[0] == '+' {
        1
    } else {
        0
    };
    let ghost d = unsigned_part(s@);
    assert(d =~= s@.subrange(start as int, n as int));
    if start == n {
        return None;
    }
    let mut acc: i64 = 0;
    let mut i: usize = start;
    while i < n
        invariant
            start <= i <= n,
            n == s@.len(),
            d == s@.subrange(start as int, n as int),
            d == unsigned_part(s@),
            n > 0,
            negative == (s@[0] == '-'),
            all_digits(d.subrange(0, i - start)),
            acc == digits_value(d.subrange(0, i - start)),
            0 <= acc <= 2147483648,
        decreases n - i,
    {
        let c = s[i];
        if c < '0' || c > '9' {
            assert(!is_digit(d[i - start]));
            return None;
        }
        let ghost p = d.subrange(0, i - start + 1);
        assert(p.drop_last() =~= d.subrange(0, i - start));
        assert(p.last() == c);
        acc = acc * 10 + (c as u32 - '0' as u32) as i64;
        assert(acc == digits_value(p));
        assert(all_digits(p)) by {
            assert forall|j: int| 0 <= j < p.len() implies #[trigger] is_digit(p[j]) by {
                if j < p.len() - 1 {
                    assert(is_digit(d.subrange(0, i - start)[j]));
                }
            }
        }
        if acc > 2147483648 {
            proof {
                if all_digits(d) {
                    lemma_digits_prefix(d, i - start + 1);
                }
            }
            return None;
        }
        i = i + 1;
    }
    assert(d.subrange(0, n - start) =~= d);
    if negative {
        Some((0 - acc) as i32)
    } else if acc <= 2147483647 {
        Some(acc as i32)
    } else {
        None
    }
}

/// Reads a decimal `i32`.
pub fn int_parser(str: String) -> (r: Result<i32, ParseError>)
    ensures
        match int_of(str@) {
            Some(v) => r == Ok::<i32, ParseError>(v),
            None => r is Err && r->Err_0 is IntParsingFailed && r->Err_0->IntParsingFailed_0@
                == str@,
        },
{
    match int_of_chars(&chars_of(str.as_str())) {
        Some(v) => Ok(v),
        None => Err(ParseError::IntParsingFailed(str)),
    }
}

/// Cuts `s` at each comma.
fn split_on_commas(s: &Vec<char>) -> (r: Vec<Vec<char>>)
    ensures
        pieces_view(r@) == split_commas(s@),
{
    let mut parts: Vec<Vec<char>> = Vec::new();
    let mut cur: Vec<char> = Vec::new();
    let mut i: usize = 0;
    assert(pieces_view(parts@).push(cur@) =~= split_commas(s@.subrange(0, 0)));
    while i < s.len()
        invariant
            i <= s@.len(),
            pieces_view(parts@).push(cur@) == split_commas(s@.subrange(0, i as int)),
        decreases s@.len() - i,
    {
        let ghost p = s@.subrange(0, i + 1);
        assert(p.drop_last() =~= s@.subrange(0, i as int));
        let c = s[i];
        if c == ',' {
            parts.push(cur);
            cur = Vec::new();
        } else {
            cur.push(c);
        }
        assert(pieces_view(parts@).push(cur@) =~= split_commas(p));
        i = i + 1;
    }
    assert(s@.subrange(0, s@.len() as int) =~= s@);
    parts.push(cur);
    assert(pieces_view(parts@) =~= split_commas(s@));
    parts
}

/// Reads a resolution written `x,y`.
pub fn resolution_parser(str: String) -> (r: Result<(i32, i32), ParseError>)
    ensures
        ({
            let p = split_commas(str@);
            if p.len() != 2 {
                r is Err && r->Err_0 is Basic
            } else {
                match (int_of(p[0]), int_of(p[1])) {
                    (Some(x), Some(y)) => r == Ok::<(i32, i32), ParseError>((x, y)),
                    (None, _) => r is Err && r->Err_0 is IntParsingFailed
                        && r->Err_0->IntParsingFailed_0@ == p[0],
                    (Some(_), None) => r is Err && r->Err_0 is IntParsingFailed
                        && r->Err_0->IntParsingFailed_0@ == p[1],
                }
            }
        }),
{
    let parts = split_on_commas(&chars_of(str.as_str()));
    if parts.len() != 2 {
        return Err(ParseError::Basic);
    }
    assert(parts@[0]@ == split_commas(str@)[0]);
    assert(parts@[1]@ == split_commas(str@)[1]);
    let x = match int_of_chars(&parts[0]) {
        Some(x) => x,
        None => {
            return Err(ParseError::IntParsingFailed(string_of(&parts[0])));
        },
    };
    let y = match int_of_chars(&parts[1]) {
        Some(y) => y,
        None => {
            return Err(ParseError::IntParsingFailed(string_of(&parts[1])));
        },
    };
    Ok((x, y))
}

/// Drops brackets and whitespace from `s`.
fn strip_list_chars(s: &Vec<char>) -> (r: Vec<char>)
    ensures
        r@ == strip_list(s@),
{
    let mut out: Vec<char> = Vec::new();
    let mut i: usize = 0;
    assert(s@.subrange(0, 0) =~= Seq::<char>::empty());
    while i < s.len()
        invariant
            i <= s@.len(),
            out@ == strip_list(s@.subrange(0, i as int)),
        decreases s@.len() - i,
    {
        let ghost p = s@.subrange(0, i + 1);
        assert(p.drop_last() =~= s@.subrange(0, i as int));
        let c = s[i];
        if c != '[' && c != ']' && !is_white(c) {
            out.push(c);
        }
        i = i + 1;
    }
    assert(s@.subrange(0, s@.len() as int) =~= s@);
    out
}

/// Reads a list written `[a, b, ...]`: brackets and whitespace are dropped and the rest
/// is cut at each comma. A list whose first item is empty is refused.
pub fn list_parser(str: String) -> (r: Result<Vec<String>, ParseError>)
    ensures
        ({
            let p = split_commas(strip_list(str@));
            if p[0].len() == 0 {
                r is Err && r->Err_0 is EmptyListError && r->Err_0->EmptyListError_0@ == str@
            } else {
                r is Ok && strings_view(r->Ok_0@) == p
            }
        }),
{
    let parts = split_on_commas(&strip_list_chars(&chars_of(str.as_str())));
    proof {
        lemma_split_nonempty(strip_list(str@));
    }
    if parts[0].len() == 0 {
        return Err(ParseError::EmptyListError(str));
    }
    let mut out: Vec<String> = Vec::new();
    let mut i: usize = 0;
    while i < parts.len()
        invariant
            i <= parts@.len(),
            strings_view(out@) == pieces_view(parts@.subrange(0, i as int)),
        decreases parts@.len() - i,
    {
        let piece = string_of(&parts[i]);
        let ghost before = out@;
        out.push(piece);
        assert(strings_view(out@) =~= strings_view(before).push(parts@[i as int]@));
        assert(pieces_view(parts@.subrange(0, i + 1)) =~= pieces_view(
            parts@.subrange(0, i as int),
        ).push(parts@[i as int]@));
        i = i + 1;
    }
    assert(parts@.subrange(0, parts@.len() as int) =~= parts@);
    Ok(out)
}

/// Cutting at commas gives at least one piece.
proof fn lemma_split_nonempty(s: Seq<char>)
    ensures
        split_commas(s).len() >= 1,
    decreases s.len(),
{
    if s.len() > 0 {
        lemma_split_nonempty(s.drop_last());
    }
}

/// Whether `f` is the flag named `short` in a short form or `long` in the long form.
pub open spec fn names(f: FlagView, short: Seq<char>, long: Seq<char>) -> bool {
    match f {
        FlagView::ShortForm(n, _) => n == short,
        FlagView::LongForm(n, _) => n == long,
        FlagView::BooleanShortForm(n) => n == short,
    }
}

/// The index of the first of `flags`, from `i` on, that `short` or `long` names.
pub open spec fn find_from(flags: Seq<FlagView>, short: Seq<char>, long: Seq<char>, i: int) -> Option<
    int,
>
    decreases flags.len() - i,
{
    if i < 0 || i >= flags.len() {
        None
    } else if names(flags[i], short, long) {
        Some(i)
    } else {
        find_from(flags, short, long, i + 1)
    }
}

/// The value of the first of `flags` that `short` or `long` names.
pub open spec fn lookup(flags: Seq<FlagView>, short: Seq<char>, long: Seq<char>) -> Option<
    Seq<char>,
> {
    match find_from(flags, short, long, 0) {
        Some(i) => Some(flag_value(flags[i])),
        None => None,
    }
}

/// The value of the first flag named `short_form` in a short form or `long_form` in
/// the long form.
pub fn extract_flag(raw_flags: &Vec<RawFlag>, short_form: &str, long_form: &str) -> (r: Option<
    String,
>)
    ensures
        r is Some <==> lookup(flags_view(raw_flags@), short_form@, long_form@) is Some,
        r is Some ==> r->Some_0@ == lookup(flags_view(raw_flags@), short_form@, long_form@)->Some_0,
{
    let short = short_form.to_owned();
    let long = long_form.to_owned();
    let ghost fs = flags_view(raw_flags@);
    let mut i: usize = 0;
    while i < raw_flags.len()
        invariant
            i <= raw_flags@.len(),
            fs == flags_view(raw_flags@),
            short@ == short_form@,
            long@ == long_form@,
            find_from(fs, short@, long@, 0) == find_from(fs, short@, long@, i as int),
        decreases raw_flags@.len() - i,
    {
        let f = &raw_flags[i];
        assert(fs[i as int] == f@);
        let hit = match f {
            RawFlag::ShortForm(flag, _) => short.eq(flag),
            RawFlag::LongForm(flag, _) => long.eq(flag),
            RawFlag::BooleanShortForm(flag) => short.eq(flag),
        };
        if hit {
            return Some(f.value());
        }
        i = i + 1;
    }
    None
}

/// Reads the first flag named `short_form` in a short form or `long_form` in the long
/// form with `parser`. Where no such flag is given, the default is the result; with no
/// default, the flag is reported missing.
pub fn extract_flag_and_parse<T, F: Fn(String) -> Result<T, ParseError>>(
    raw_flags: &Vec<RawFlag>,
    short_form: &str,
    long_form: &str,
    default_value: Option<T>,
    parser: F,
) -> (r: Result<T, ParseError>)
    requires
        forall|s: String| #[trigger] parser.requires((s,)),
    ensures
        match lookup(flags_view(raw_flags@), short_form@, long_form@) {
            None => match default_value {
                Some(d) => r == Ok::<T, ParseError>(d),
                None => r is Err && r->Err_0 is FlagNotFound && r->Err_0->FlagNotFound_0@
                    == long_form@,
            },
            Some(v) => exists|s: String, p: Result<T, ParseError>|
                s@ == v && #[trigger] parser.ensures((s,), p) && match p {
                    Ok(x) => r == Ok::<T, ParseError>(x),
                    Err(_) => r is Err && r->Err_0 is FlagParserError && r->Err_0->FlagParserError_0@
                        == long_form@,
                },
        },
{
    match extract_flag(raw_flags, short_form, long_form) {
        None => match default_value {
            Some(d) => Ok(d),
            None => Err(ParseError::FlagNotFound(long_form.to_owned())),
        },
        Some(v) => {
            let ghost s = v;
            let p = parser(v);
            assert(parser.ensures((s,), p));
            match p {
                Ok(x) => Ok(x),
                Err(e) => Err(ParseError::FlagParserError(long_form.to_owned(), Box::new(e))),
            }
        },
    }
}

/// Takes a value as it is written.
pub fn text_parser(str: String) -> (r: Result<String, ParseError>)
    ensures
        r == Ok::<String, ParseError>(str),
{
    Ok(str)
}

/// Which flag stopped the reading of a command line.
pub ghost enum ArgsFailure {
    /// The command line could not be split into flags at this token.
    Tokens(Seq<char>),
    /// The required flag of this long name is absent.
    Missing(Seq<char>),
    /// The value of the flag of this long name does not parse.
    BadValue(Seq<char>),
}

/// The settings of a command line, over character sequences.
pub ghost struct FlagsView {
    pub verbosity: bool,
    pub images: Seq<Seq<char>>,
    pub padding: i32,
    pub background_color: Seq<char>,
    pub data_format: DataFormat,
    pub filename: Seq<char>,
    pub image_resolution: (i32, i32),
}

/// A flag read with `read`, or its default where it is absent; absent and without a
/// default, it is missing.
pub open spec fn field<T>(
    flags: Seq<FlagView>,
    short: Seq<char>,
    long: Seq<char>,
    default: Option<T>,
    read: spec_fn(Seq<char>) -> Option<T>,
) -> Result<T, ArgsFailure> {
    match lookup(flags, short, long) {
        None => match default {
            Some(d) => Ok(d),
            None => Err(ArgsFailure::Missing(long)),
        },
        Some(v) => match read(v) {
            Some(x) => Ok(x),
            None => Err(ArgsFailure::BadValue(long)),
        },
    }
}

/// The resolution that `s` writes as `x,y`, if it writes one.
pub open spec fn resolution_of(s: Seq<char>) -> Option<(i32, i32)> {
    let p = split_commas(s);
    if p.len() == 2 && int_of(p[0]) is Some && int_of(p[1]) is Some {
        Some((int_of(p[0])->Some_0, int_of(p[1])->Some_0))
    } else {
        None
    }
}

/// The items of the list that `s` writes, if it writes one.
pub open spec fn list_of(s: Seq<char>) -> Option<Seq<Seq<char>>> {
    let p = split_commas(strip_list(s));
    if p[0].len() == 0 {
        None
    } else {
        Some(p)
    }
}

/// A value read as itself.
pub open spec fn text_of(s: Seq<char>) -> Option<Seq<char>> {
    Some(s)
}

/// The settings that a command line gives, or the first flag, in the order of the
/// fields, that stops it.
pub open spec fn args_outcome(args: Seq<Seq<char>>) -> Result<FlagsView, ArgsFailure> {
    match read_tokens(args) {
        Err(t) => Err(ArgsFailure::Tokens(t)),
        Ok(fs) => {
            let verbosity = field(fs, "v"@, "verbose"@, Some(false), |s| bool_of(s));
            let padding = field(fs, "p"@, "padding"@, Some(1i32), |s| int_of(s));
            let background = field(fs, "bg"@, "background"@, Some("#000000"@), |s| text_of(s));
            let format = field(fs, "df"@, "data_format"@, None, |s| data_format_of(s));
            let filename = field(fs, "f"@, "filename"@, None, |s| text_of(s));
            let resolution = field(fs, "ir"@, "image_resolution"@, None, |s| resolution_of(s));
            let images = field(fs, "i"@, "images"@, None, |s| list_of(s));
            if verbosity is Err {
                Err(verbosity->Err_0)
            } else if padding is Err {
                Err(padding->Err_0)
            } else if background is Err {
                Err(background->Err_0)
            } else if format is Err {
                Err(format->Err_0)
            } else if filename is Err {
                Err(filename->Err_0)
            } else if resolution is Err {
                Err(resolution->Err_0)
            } else if images is Err {
                Err(images->Err_0)
            } else {
                Ok(
                    FlagsView {
                        verbosity: verbosity->Ok_0,
                        images: images->Ok_0,
                        padding: padding->Ok_0,
                        background_color: background->Ok_0,
                        data_format: format->Ok_0,
                        filename: filename->Ok_0,
                        image_resolution: resolution->Ok_0,
                    },
                )
            }
        },
    }
}

impl Flags {
    /// These settings over character sequences.
    pub open spec fn spec_view(&self) -> FlagsView {
        FlagsView {
            verbosity: self.verbosity,
            images: strings_view(self.images@),
            padding: self.padding,
            background_color: self.background_color@,
            data_format: self.data_format->Some_0,
            filename: self.filename@,
            image_resolution: self.image_resolution,
        }
    }
}

/// Whether an error of reading a command line reports `failure`.
pub open spec fn reports(e: ParseError, failure: ArgsFailure) -> bool {
    match failure {
        ArgsFailure::Tokens(t) => e is TokenParsingFailed && *e->TokenParsingFailed_0 is InvalidArgumentOrder
            && (*e->TokenParsingFailed_0)->InvalidArgumentOrder_0@ == t,
        ArgsFailure::Missing(n) => e is FlagNotFound && e->FlagNotFound_0@ == n,
        ArgsFailure::BadValue(n) => e is FlagParserError && e->FlagParserError_0@ == n,
    }
}

/// Reads the settings from a command line. Verbosity, padding and background colour
/// have defaults; data format, file name, image resolution and images are required.
pub fn parse_args(args_raw: Vec<String>) -> (r: Result<Flags, ParseError>)
    ensures
        match args_outcome(strings_view(args_raw@)) {
            Ok(v) => r is Ok && r->Ok_0.data_format is Some && r->Ok_0.spec_view() == v,
            Err(f) => r is Err && reports(r->Err_0, f),
        },
{
    let raw_flags = match parse_string_to_raw_flags(args_raw) {
        Err(e) => {
            return Err(ParseError::TokenParsingFailed(Box::new(e)));
        },
        Ok(f) => f,
    };
    let verbosity = match extract_flag_and_parse(&raw_flags, "v", "verbose", Some(false), boolean_parser) {
        Ok(b) => b,
        Err(e) => {
            return Err(e);
        },
    };
    let padding = match extract_flag_and_parse(&raw_flags, "p", "padding", Some(1), int_parser) {
        Ok(n) => n,
        Err(e) => {
            return Err(e);
        },
    };
    let background_color = match extract_flag_and_parse(
        &raw_flags,
        "bg",
        "background",
        Some("#000000".to_owned()),
        text_parser,
    ) {
        Ok(c) => c,
        Err(e) => {
            return Err(e);
        },
    };
    let data_format = match extract_flag_and_parse(&raw_flags, "df", "data_format", None, data_format_parser) {
        Ok(f) => f,
        Err(e) => {
            return Err(e);
        },
    };
    let filename = match extract_flag_and_parse(
        &raw_flags,
        "f",
        "filename",
        None,
        text_parser,
    ) {
        Ok(f) => f,
        Err(e) => {
            return Err(e);
        },
    };
    let image_resolution = match extract_flag_and_parse(
        &raw_flags,
        "ir",
        "image_resolution",
        None,
        resolution_parser,
    ) {
        Ok(res) => res,
        Err(e) => {
            return Err(e);
        },
    };
    let images = match extract_flag_and_parse(&raw_flags, "i", "images", None, list_parser) {
        Ok(list) => list,
        Err(e) => {
            return Err(e);
        },
    };
    Ok(
        Flags {
            verbosity,
            images,
            padding,
            background_color,
            data_format: Some(data_format),
            filename,
            image_resolution,
        },
    )
}

} // verus!
