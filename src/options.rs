//! Command-line options: a field list (`-f`), a delimiter (`-d`) and an input
//! file, read from the arguments, and the settings they resolve to.

use vstd::prelude::*;
use vstd::slice::slice_subrange;
use vstd::slice::slice_to_vec;
use vstd::string::StringExecFns;
use crate::text::char_rows;
use crate::text::chars_of;
use crate::text::split_chars;
use crate::text::split_on;
use crate::text::string_of;
use crate::text::string_views;

verus! {

/// One option given on the command line.
#[derive(Debug, Clone, PartialEq, Eq)]
pub enum CLIOption {
    /// Field numbers, counted from 1, in the order given.
    Fields(Vec<u32>),
    /// The path of the input file.
    File(String),
    /// The field delimiter.
    Delimiter(String),
}

/// An option as plain values.
pub enum OptionView {
    Fields(Seq<u32>),
    File(Seq<char>),
    Delimiter(Seq<char>),
}

impl View for CLIOption {
    type V = OptionView;

    open spec fn view(&self) -> OptionView {
        match self {
            CLIOption::Fields(v) => OptionView::Fields(v@),
            CLIOption::File(s) => OptionView::File(s@),
            CLIOption::Delimiter(s) => OptionView::Delimiter(s@),
        }
    }
}

/// A field list token that is not a field number.
#[derive(Debug, Clone, PartialEq, Eq)]
pub struct InvalidFieldSpec {
    pub token: String,
}

/// `s` begins with `-` followed by `c`.
pub open spec fn has_flag(s: Seq<char>, c: char) -> bool {
    s.len() >= 2 && s[0] == '-' && s[1] == c
}

/// The value of the decimal digits `s`.
pub open spec fn digits_value(s: Seq<char>) -> nat
    decreases s.len(),
{
    if s.len() == 0 {
        0
    } else {
        digits_value(s.drop_last()) * 10 + (s.last() as nat - '0' as nat) as nat
    }
}

/// Every character of `s` is an ASCII digit.
pub open spec fn all_digits(s: Seq<char>) -> bool {
    forall|i: int| 0 <= i < s.len() ==> '0' <= #[trigger] s[i] <= '9'
}

/// The digits of a number token: what follows a leading `+`, if there is one.
pub open spec fn unsigned_digits(tok: Seq<char>) -> Seq<char> {
    if tok.len() > 0 && tok[0] == '+' {
        tok.skip(1)
    } else {
        tok
    }
}

/// The field number that `tok` writes: an optional `+` and one or more decimal
/// digits, whose value is at least 1 and fits in a `u32`.
pub open spec fn field_number(tok: Seq<char>) -> Option<u32> {
    let ds = unsigned_digits(tok);
    if ds.len() > 0 && all_digits(ds) && 1 <= digits_value(ds) <= u32::MAX {
        Some(digits_value(ds) as u32)
    } else {
        None
    }
}

/// The field numbers that the tokens `toks` write, or the first token that
/// writes none.
pub open spec fn field_list(toks: Seq<Seq<char>>) -> Result<Seq<u32>, Seq<char>>
    decreases toks.len(),
{
    if toks.len() == 0 {
        Ok(Seq::empty())
    } else {
        match field_list(toks.drop_last()) {
            Err(t) => Err(t),
            Ok(prev) => match field_number(toks.last()) {
                Some(n) => Ok(prev.push(n)),
                None => Err(toks.last()),
            },
        }
    }
}

/// What separates the entries of a field list: a space where the list holds a
/// space and no comma, else a comma.
pub open spec fn list_separator(body: Seq<char>) -> char {
    if body.contains(' ') && !body.contains(',') {
        ' '
    } else {
        ','
    }
}

/// What an argument means: a field list after `-f`, a delimiter after `-d`, a
/// file path where it does not begin with `-`; nothing otherwise. `Err` holds
/// a field list token that is not a field number.
pub open spec fn arg_meaning(a: Seq<char>) -> Result<Option<OptionView>, Seq<char>> {
    let body = a.skip(2);
    if has_flag(a, 'f') {
        match field_list(split_on(body, seq![list_separator(body)])) {
            Ok(ns) => Ok(Some(OptionView::Fields(ns))),
            Err(t) => Err(t),
        }
    } else if has_flag(a, 'd') {
        Ok(Some(OptionView::Delimiter(body)))
    } else if a.len() > 0 && a[0] == '-' {
        Ok(None)
    } else {
        Ok(Some(OptionView::File(a)))
    }
}

/// The options that the arguments `args` give, in order, or the first bad
/// field list token among them.
pub open spec fn options_of(args: Seq<Seq<char>>) -> Result<Seq<OptionView>, Seq<char>>
    decreases args.len(),
{
    if args.len() == 0 {
        Ok(Seq::empty())
    } else {
        match options_of(args.drop_last()) {
            Err(t) => Err(t),
            Ok(prev) => match arg_meaning(args.last()) {
                Err(t) => Err(t),
                Ok(None) => Ok(prev),
                Ok(Some(o)) => Ok(prev.push(o)),
            },
        }
    }
}

proof fn lemma_digits_value_grows(s: Seq<char>, i: int)
    requires
        0 <= i <= s.len(),
        all_digits(s),
    ensures
        digits_value(s.take(i)) <= digits_value(s),
    decreases s.len() - i,
{
    if i < s.len() {
        lemma_digits_value_grows(s, i + 1);
        assert(s.take(i + 1).drop_last() =~= s.take(i));
        assert(s.take(i + 1).last() == s[i]);
        assert('0' <= s[i]);
    } else {
        assert(s.take(i) =~= s);
    }
}

/// The field number that `tok` writes, as `field_number` describes.
pub fn parse_field_number(tok: &[char]) -> (r: Option<u32>)
    ensures
        r == field_number(tok@),
{
    let start: usize = if tok.len() > 0 && tok[0] == '+' {
        1
    } else {
        0
    };
    let ds = slice_subrange(tok, start, tok.len());
    assert(ds@ == unsigned_digits(tok@));
    if ds.len() == 0 {
        return None;
    }
    let mut value: u64 = 0;
    let mut i: usize = 0;
    while i < ds.len()
        invariant
            ds@ == unsigned_digits(tok@),
            i <= ds@.len(),
            all_digits(ds@.take(i as int)),
            value == digits_value(ds@.take(i as int)),
            value <= u32::MAX,
        decreases ds@.len() - i,
    {
        let c = ds[i];
        if c < '0' || c > '9' {
            assert(!all_digits(ds@));
            return None;
        }
        let digit = (c as u32 - '0' as u32) as u64;
        assert(ds@.take(i + 1).drop_last() =~= ds@.take(i as int));
        value = value * 10 + digit;
        assert(all_digits(ds@.take(i + 1)));
        if value > u32::MAX as u64 {
            proof {
                if all_digits(ds@) {
                    lemma_digits_value_grows(ds@, i + 1);
                }
            }
            return None;
        }
        i = i + 1;
    }
    assert(ds@.take(i as int) =~= ds@);
    if value == 0 {
        None
    } else {
        Some(value as u32)
    }
}

/// The options held by a sequence of options, as plain values.
pub open spec fn option_views(v: Seq<CLIOption>) -> Seq<OptionView> {
    v.map_values(|o: CLIOption| o@)
}

fn contains_char(s: &[char], c: char) -> (r: bool)
    ensures
        r == s@.contains(c),
{
    let mut i: usize = 0;
    while i < s.len()
        invariant
            i <= s@.len(),
            forall|j: int| 0 <= j < i ==> s@[j] != c,
        decreases s@.len() - i,
    {
        if s[i] == c {
            return true;
        }
        i = i + 1;
    }
    false
}

/// The field numbers of the field list `body`, as `field_list` describes.
fn parse_field_list(body: &[char]) -> (r: Result<Vec<u32>, InvalidFieldSpec>)
    ensures
        match r {
            Ok(v) => field_list(split_on(body@, seq![list_separator(body@)])) == Ok::<
                Seq<u32>,
                Seq<char>,
            >(v@),
            Err(e) => field_list(split_on(body@, seq![list_separator(body@)])) == Err::<
                Seq<u32>,
                Seq<char>,
            >(e.token@),
        },
{
    let sep: char = if contains_char(body, ' ') && !contains_char(body, ',') {
        ' '
    } else {
        ','
    };
    let seps: [char; 1] = [sep];
    assert(seps@ =~= seq![list_separator(body@)]);
    let toks = split_chars(body, seps.as_slice());
    let ghost tv = char_rows(toks@);
    let mut out: Vec<u32> = Vec::new();
    let mut k: usize = 0;
    assert(tv.take(0) =~= Seq::<Seq<char>>::empty());
    while k < toks.len()
        invariant
            tv == char_rows(toks@),
            tv == split_on(body@, seq![list_separator(body@)]),
            k <= toks@.len(),
            field_list(tv.take(k as int)) == Ok::<Seq<u32>, Seq<char>>(out@),
        decreases toks@.len() - k,
    {
        assert(tv.take(k + 1).drop_last() =~= tv.take(k as int));
        assert(tv.take(k + 1).last() == toks@[k as int]@);
        match parse_field_number(toks[k].as_slice()) {
            Some(n) => {
                out.push(n);
            },
            None => {
                let token = string_of(toks[k].as_slice());
                proof {
                    lemma_field_list_err_stays(tv, k + 1);
                }
                return Err(InvalidFieldSpec { token });
            },
        }
        k = k + 1;
    }
    assert(tv.take(k as int) =~= tv);
    Ok(out)
}

proof fn lemma_field_list_err_stays(toks: Seq<Seq<char>>, k: int)
    requires
        0 <= k <= toks.len(),
        field_list(toks.take(k)) is Err,
    ensures
        field_list(toks) == field_list(toks.take(k)),
    decreases toks.len() - k,
{
    if k < toks.len() {
        assert(toks.take(k + 1).drop_last() =~= toks.take(k));
        lemma_field_list_err_stays(toks, k + 1);
    } else {
        assert(toks.take(k) =~= toks);
    }
}

proof fn lemma_options_err_stays(args: Seq<Seq<char>>, k: int)
    requires
        0 <= k <= args.len(),
        options_of(args.take(k)) is Err,
    ensures
        options_of(args) == options_of(args.take(k)),
    decreases args.len() - k,
{
    if k < args.len() {
        assert(args.take(k + 1).drop_last() =~= args.take(k));
        lemma_options_err_stays(args, k + 1);
    } else {
        assert(args.take(k) =~= args);
    }
}

/// Reads the options that the arguments give, as `options_of` describes:
/// `-f` with a field list, `-d` with a delimiter, and a file path; other
/// arguments that begin with `-` are ignored. A field list token that is not a
/// field number is an error.
pub fn parse_options(args: &Vec<String>) -> (r: Result<Vec<CLIOption>, InvalidFieldSpec>)
    ensures
        match r {
            Ok(v) => options_of(string_views(args@)) == Ok::<Seq<OptionView>, Seq<char>>(
                option_views(v@),
            ),
            Err(e) => options_of(string_views(args@)) == Err::<Seq<OptionView>, Seq<char>>(
                e.token@,
            ),
        },
{
    let ghost av = string_views(args@);
    let mut options: Vec<CLIOption> = Vec::new();
    let mut i: usize = 0;
    assert(av.take(0) =~= Seq::<Seq<char>>::empty());
    assert(option_views(options@) =~= Seq::<OptionView>::empty());
    while i < args.len()
        invariant
            av == string_views(args@),
            i <= args@.len(),
            options_of(av.take(i as int)) == Ok::<Seq<OptionView>, Seq<char>>(
                option_views(options@),
            ),
        decreases args@.len() - i,
    {
        assert(av.take(i + 1).drop_last() =~= av.take(i as int));
        assert(av.take(i + 1).last() == args@[i as int]@);
        let a = chars_of(args[i].as_str());
        let ghost prev = options@;
        if a.len() >= 2 && a[0] == '-' && a[1] == 'f' {
            let body = slice_subrange(a.as_slice(), 2, a.len());
            assert(body@ == a@.skip(2));
            match parse_field_list(body) {
                Ok(ns) => {
                    let ghost o = OptionView::Fields(ns@);
                    options.push(CLIOption::Fields(ns));
                    assert(option_views(options@) =~= option_views(prev).push(o));
                },
                Err(e) => {
                    proof {
                        lemma_options_err_stays(av, i + 1);
                    }
                    return Err(e);
                },
            }
        } else if a.len() >= 2 && a[0] == '-' && a[1] == 'd' {
            let body = slice_subrange(a.as_slice(), 2, a.len());
            assert(body@ == a@.skip(2));
            options.push(CLIOption::Delimiter(string_of(body)));
            assert(option_views(options@) =~= option_views(prev).push(
                OptionView::Delimiter(body@),
            ));
        } else if a.len() > 0 && a[0] == '-' {
        } else {
            options.push(CLIOption::File(args[i].clone()));
            assert(option_views(options@) =~= option_views(prev).push(OptionView::File(a@)));
        }
        i = i + 1;
    }
    assert(av.take(i as int) =~= av);
    Ok(options)
}

/// The settings of one run: where the text comes from, which fields to keep,
/// counted from 1, and the delimiter.
#[derive(Debug, Clone, PartialEq, Eq)]
pub struct Config {
    /// The input file; standard input where there is none.
    pub file: Option<String>,
    /// Field numbers, counted from 1, in output order.
    pub fields: Vec<u32>,
    /// The field delimiter.
    pub delimiter: String,
}

/// Settings as plain values.
pub struct ConfigView {
    pub file: Option<Seq<char>>,
    pub fields: Seq<u32>,
    pub delimiter: Seq<char>,
}

impl View for Config {
    type V = ConfigView;

    open spec fn view(&self) -> ConfigView {
        ConfigView {
            file: match self.file {
                Some(f) => Some(f@),
                None => None,
            },
            fields: self.fields@,
            delimiter: self.delimiter@,
        }
    }
}

/// The settings that the options `opts` give: for each kind, the last option
/// of that kind wins; with none, there is no file, no field, and the delimiter
/// is a tab.
pub open spec fn resolved(opts: Seq<OptionView>) -> ConfigView
    decreases opts.len(),
{
    if opts.len() == 0 {
        ConfigView { file: None, fields: Seq::empty(), delimiter: seq!['\t'] }
    } else {
        let c = resolved(opts.drop_last());
        match opts.last() {
            OptionView::File(f) => ConfigView { file: Some(f), ..c },
            OptionView::Fields(ns) => ConfigView { fields: ns, ..c },
            OptionView::Delimiter(d) => ConfigView { delimiter: d, ..c },
        }
    }
}

/// The settings that `options` give, as `resolved` describes.
pub fn resolve_options(options: &Vec<CLIOption>) -> (r: Config)
    ensures
        r@ == resolved(option_views(options@)),
{
    let ghost ov = option_views(options@);
    let tab = "\t";
    proof {
        reveal_strlit("\t");
    }
    let mut config = Config { file: None, fields: Vec::new(), delimiter: String::from_str(tab) };
    assert(config@.fields =~= Seq::<u32>::empty());
    assert(config@.delimiter =~= seq!['\t']);
    assert(ov.take(0) =~= Seq::<OptionView>::empty());
    let mut i: usize = 0;
    while i < options.len()
        invariant
            ov == option_views(options@),
            i <= options@.len(),
            config@ == resolved(ov.take(i as int)),
        decreases options@.len() - i,
    {
        assert(ov.take(i + 1).drop_last() =~= ov.take(i as int));
        assert(ov.take(i + 1).last() == options@[i as int]@);
        match &options[i] {
            CLIOption::File(f) => {
                config.file = Some(f.clone());
            },
            CLIOption::Fields(ns) => {
                config.fields = slice_to_vec(ns.as_slice());
            },
            CLIOption::Delimiter(d) => {
                config.delimiter = d.clone();
            },
        }
        i = i + 1;
    }
    assert(ov.take(i as int) =~= ov);
    config
}

} // verus!
