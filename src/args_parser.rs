use vstd::prelude::*;

use crate::flags_parser::{read_token, strings_view, FlagView};
use crate::token::{chars_of, classify, push_all, string_of, Token};

verus! {

/// The settings of a run.
#[derive(Debug)]
pub struct Arguments {
    pub folder: String,
}

/// Why a command line could not be read.
#[derive(Debug)]
pub enum ParseError {
    /// A token stood where no flag could take it as its value; the text says which.
    InvalidArgumentOrder(String),
}

/// One argument as written on the command line.
#[derive(Debug)]
pub enum Argument {
    /// `-name value`
    ShortForm(String, String),
    /// `--name=value`
    LongForm(String, String),
    /// `-name` with no value
    BooleanShortForm(String),
}

impl View for Argument {
    type V = FlagView;

    open spec fn view(&self) -> FlagView {
        match self {
            Argument::ShortForm(n, v) => FlagView::ShortForm(n@, v@),
            Argument::LongForm(n, v) => FlagView::LongForm(n@, v@),
            Argument::BooleanShortForm(n) => FlagView::BooleanShortForm(n@),
        }
    }
}

/// The name of a flag.
pub open spec fn flag_name(f: FlagView) -> Seq<char> {
    match f {
        FlagView::ShortForm(n, _) => n,
        FlagView::LongForm(n, _) => n,
        FlagView::BooleanShortForm(n) => n,
    }
}

impl Argument {
    /// The name of this argument's flag.
    pub fn flag(&self) -> (r: &String)
        ensures
            r@ == flag_name(self@),
    {
        match self {
            Argument::ShortForm(flag, _) => flag,
            Argument::LongForm(flag, _) => flag,
            Argument::BooleanShortForm(flag) => flag,
        }
    }
}

/// The arguments of a sequence of parsed arguments.
pub open spec fn arguments_view(v: Seq<Argument>) -> Seq<FlagView> {
    v.map_values(|a: Argument| a@)
}

/// The flags that a command line reads as; or, at the first token out of place, the
/// flags read before it and the token.
pub open spec fn scan(args: Seq<Seq<char>>) -> Result<Seq<FlagView>, (Seq<FlagView>, Seq<char>)>
    decreases args.len(),
{
    if args.len() == 0 {
        Ok(Seq::empty())
    } else {
        match scan(args.drop_last()) {
            Err(e) => Err(e),
            Ok(acc) => match read_token(acc, args.last()) {
                Ok(a) => Ok(a),
                Err(t) => Err((acc, t)),
            },
        }
    }
}

/// The flag named beside a refused token: the one before the last flag read, or
/// `exec` where there is none.
pub open spec fn preceding(acc: Seq<FlagView>) -> Seq<char> {
    if acc.len() >= 2 {
        flag_name(acc[acc.len() - 2])
    } else {
        "exec"@
    }
}

/// The text that reports token `t` refused after the flags `acc`.
pub open spec fn order_message(acc: Seq<FlagView>, t: Seq<char>) -> Seq<char> {
    "Invalid token `"@ + t + "` after `"@ + preceding(acc) + "`"@
}

/// The settings of a run; the command line does not change them yet.
pub fn parse_arguments(args_raw: Vec<String>) -> (r: Arguments)
    ensures
        r.folder@ == "./whatever"@,
{
    Arguments { folder: "./whatever".to_owned() }
}

/// Once a prefix of the command line is refused, the whole of it is, in the same way.
proof fn lemma_scan_err_sticks(args: Seq<Seq<char>>, i: int)
    requires
        0 <= i <= args.len(),
        scan(args.subrange(0, i)) is Err,
    ensures
        scan(args) == scan(args.subrange(0, i)),
    decreases args.len(),
{
    if i < args.len() {
        assert(args.drop_last().subrange(0, i) =~= args.subrange(0, i));
        lemma_scan_err_sticks(args.drop_last(), i);
    } else {
        assert(args.subrange(0, i) =~= args);
    }
}

/// Splits a command line into arguments.
pub fn parse_rec(args_raw: Vec<String>) -> (r: Result<Vec<Argument>, ParseError>)
    ensures
        match scan(strings_view(args_raw@)) {
            Ok(fs) => r is Ok && arguments_view(r->Ok_0@) == fs,
            Err((acc, t)) => r is Err && r->Err_0->InvalidArgumentOrder_0@ == order_message(
                acc,
                t,
            ),
        },
{
    let mut acc: Vec<Argument> = Vec::new();
    let mut i: usize = 0;
    proof {
        assert(strings_view(args_raw@.subrange(0, 0)) =~= Seq::<Seq<char>>::empty());
        assert(arguments_view(acc@) =~= Seq::<FlagView>::empty());
    }
    while i < args_raw.len()
        invariant
            i <= args_raw@.len(),
            scan(strings_view(args_raw@.subrange(0, i as int))) == Ok::<
                Seq<FlagView>,
                (Seq<FlagView>, Seq<char>),
            >(arguments_view(acc@)),
        decreases args_raw@.len() - i,
    {
        let ghost before = arguments_view(acc@);
        proof {
            let p = args_raw@.subrange(0, i + 1);
            assert(strings_view(p).drop_last() =~= strings_view(args_raw@.subrange(0, i as int)));
            assert(strings_view(p).last() == args_raw@[i as int]@);
        }
        let text = &args_raw[i];
        let chars = chars_of(text.as_str());
        match classify(&chars) {
            Token::Long(n, v) => {
                acc.push(Argument::LongForm(string_of(&n), string_of(&v)));
            },
            Token::Short(n) => {
                acc.push(Argument::BooleanShortForm(string_of(&n)));
            },
            Token::Plain => {
                let last = acc.pop();
                match last {
                    Some(Argument::BooleanShortForm(flag)) => {
                        acc.push(Argument::ShortForm(flag, text.clone()));
                    },
                    _ => {
                        let mut message = chars_of("Invalid token `");
                        push_all(&mut message, &chars);
                        push_all(&mut message, &chars_of("` after `"));
                        if acc.len() > 0 {
                            let prev = acc[acc.len() - 1].flag();
                            assert(arguments_view(acc@)[acc@.len() - 1] == acc@[acc@.len() - 1]@);
                            push_all(&mut message, &chars_of(prev.as_str()));
                        } else {
                            push_all(&mut message, &chars_of("exec"));
                        }
                        push_all(&mut message, &chars_of("`"));
                        proof {
                            assert(message@ =~= order_message(before, text@));
                            assert(strings_view(args_raw@).subrange(0, i + 1) =~= strings_view(
                                args_raw@.subrange(0, i + 1),
                            ));
                            lemma_scan_err_sticks(strings_view(args_raw@), i + 1);
                        }
                        return Err(ParseError::InvalidArgumentOrder(string_of(&message)));
                    },
                }
            },
        }
        proof {
            assert(arguments_view(acc@) =~= read_token(before, text@)->Ok_0);
        }
        i = i + 1;
    }
    proof {
        assert(args_raw@.subrange(0, args_raw@.len() as int) =~= args_raw@);
    }
    Ok(acc)
}

} // verus!
