//! Command-line options: `--dbpath PATH`, `--cachedir PATH`,
//! `--repos A,B,...`, and `-h` / `--help`.
use vstd::prelude::*;
use vstd::string::*;
use crate::text::chars_of;

verus! {

/// Settings given on the command line; each one left out is `None`.
#[derive(Debug, PartialEq, Eq)]
pub struct Config {
    dbpath: Option<String>,
    cachedir: Option<String>,
    repos: Option<Vec<String>>,
}

/// The abstract value of a [`Config`].
pub struct ConfigView {
    pub dbpath: Option<Seq<char>>,
    pub cachedir: Option<Seq<char>>,
    pub repos: Option<Seq<Seq<char>>>,
}

impl View for Config {
    type V = ConfigView;

    closed spec fn view(&self) -> ConfigView {
        ConfigView {
            dbpath: self.dbpath.deep_view(),
            cachedir: self.cachedir.deep_view(),
            repos: self.repos.deep_view(),
        }
    }
}

/// A command line that cannot be read.
#[derive(Debug)]
pub enum Error {
    /// The option, given last, lacks its value.
    NoValue(String),
    /// The argument is no known option.
    Unknown(String),
}

/// The abstract value of an [`Error`].
pub enum ErrorView {
    NoValue(Seq<char>),
    Unknown(Seq<char>),
}

impl View for Error {
    type V = ErrorView;

    open spec fn view(&self) -> ErrorView {
        match self {
            Error::NoValue(a) => ErrorView::NoValue(a@),
            Error::Unknown(a) => ErrorView::Unknown(a@),
        }
    }
}

/// The text that describes an error to the user.
pub open spec fn error_text(e: ErrorView) -> Seq<char> {
    match e {
        ErrorView::NoValue(a) => "option '"@ + a + "' requires value"@,
        ErrorView::Unknown(a) => "unknown option '"@ + a + "'"@,
    }
}

impl Error {
    /// The text that describes the error to the user.
    pub fn message(&self) -> (r: String)
        ensures
            r@ == error_text(self@),
    {
        match self {
            Error::NoValue(arg) => {
                let mut r = "option '".to_owned();
                r.append(arg.as_str());
                r.append("' requires value");
                r
            },
            Error::Unknown(arg) => {
                let mut r = "unknown option '".to_owned();
                r.append(arg.as_str());
                r.append("'");
                r
            },
        }
    }
}

/// The list item that the characters `cur` make: none when `cur` is empty.
pub open spec fn item(cur: Seq<char>) -> Seq<Seq<char>> {
    if cur.len() == 0 {
        Seq::empty()
    } else {
        seq![cur]
    }
}

/// The non-empty comma-separated items of `rest`, where `cur` holds the
/// characters of the current item seen so far.
pub open spec fn list_items(cur: Seq<char>, rest: Seq<char>) -> Seq<Seq<char>>
    decreases rest.len(),
{
    if rest.len() == 0 {
        item(cur)
    } else if rest[0] == ',' {
        item(cur) + list_items(Seq::empty(), rest.drop_first())
    } else {
        list_items(cur.push(rest[0]), rest.drop_first())
    }
}

/// The items of a comma-separated list; empty items are dropped.
pub open spec fn list_of(s: Seq<char>) -> Seq<Seq<char>> {
    list_items(Seq::empty(), s)
}

/// What reading the arguments `args` gives, on top of the settings `cfg`
/// gathered from the arguments before them: `Ok(None)` where help is asked
/// for.
pub open spec fn parse_args(cfg: ConfigView, args: Seq<Seq<char>>) -> Result<
    Option<ConfigView>,
    ErrorView,
>
    decreases args.len(),
{
    if args.len() == 0 {
        Ok(Some(cfg))
    } else {
        let a = args[0];
        if a == ""@ {
            parse_args(cfg, args.drop_first())
        } else if a == "--cachedir"@ || a == "--dbpath"@ || a == "--repos"@ {
            if args.len() < 2 {
                Err(ErrorView::NoValue(a))
            } else {
                let v = args[1];
                let next = if a == "--cachedir"@ {
                    ConfigView { cachedir: Some(v), ..cfg }
                } else if a == "--dbpath"@ {
                    ConfigView { dbpath: Some(v), ..cfg }
                } else {
                    ConfigView { repos: Some(list_of(v)), ..cfg }
                };
                parse_args(next, args.subrange(2, args.len() as int))
            }
        } else if a == "-h"@ || a == "--help"@ {
            Ok(None)
        } else {
            Err(ErrorView::Unknown(a))
        }
    }
}

/// The views of the arguments.
pub open spec fn arg_views(args: Seq<String>) -> Seq<Seq<char>> {
    args.map_values(|a: String| a@)
}

/// The abstract value of what [`read_args`] returns.
pub open spec fn outcome_view(r: &Result<Option<Config>, Error>) -> Result<
    Option<ConfigView>,
    ErrorView,
> {
    match r {
        Ok(Some(c)) => Ok(Some(c@)),
        Ok(None) => Ok(None),
        Err(e) => Err(e@),
    }
}

/// The settings that nothing has set.
pub open spec fn no_settings() -> ConfigView {
    ConfigView { dbpath: None, cachedir: None, repos: None }
}

impl Config {
    pub fn new() -> (r: Config)
        ensures
            r@ == no_settings(),
    {
        Config { dbpath: None, cachedir: None, repos: None }
    }

    pub fn cachedir(&self) -> (r: Option<&str>)
        ensures
            r.deep_view() == self@.cachedir,
    {
        match &self.cachedir {
            Some(s) => Some(s.as_str()),
            None => None,
        }
    }

    pub fn dbpath(&self) -> (r: Option<&str>)
        ensures
            r.deep_view() == self@.dbpath,
    {
        match &self.dbpath {
            Some(s) => Some(s.as_str()),
            None => None,
        }
    }

    pub fn repos(&self) -> (r: Option<&[String]>)
        ensures
            r.deep_view() == self@.repos,
    {
        match &self.repos {
            Some(v) => Some(v.as_slice()),
            None => None,
        }
    }
}

/// Splits `s` at its commas, leaving out empty items.
fn parse_list(s: &str) -> (r: Vec<String>)
    ensures
        r.deep_view() == list_of(s@),
{
    let cs = chars_of(s);
    let mut r: Vec<String> = Vec::new();
    let mut start: usize = 0;
    let mut i: usize = 0;
    assert(cs@.subrange(0, 0) =~= Seq::<char>::empty());
    assert(cs@.subrange(0, cs@.len() as int) =~= cs@);
    assert(r.deep_view() =~= Seq::<Seq<char>>::empty());
    while i < cs.len()
        invariant
            cs@ == s@,
            start <= i <= cs@.len(),
            r.deep_view() + list_items(
                cs@.subrange(start as int, i as int),
                cs@.subrange(i as int, cs@.len() as int),
            ) == list_of(s@),
        decreases cs@.len() - i,
    {
        let ghost cur = cs@.subrange(start as int, i as int);
        let ghost rest = cs@.subrange(i as int, cs@.len() as int);
        assert(rest.drop_first() =~= cs@.subrange(i + 1, cs@.len() as int));
        if cs[i] == ',' {
            let ghost before = r.deep_view();
            if start < i {
                r.push(s.substring_char(start, i).to_owned());
                assert(r.deep_view() =~= before + item(cur));
            } else {
                assert(r.deep_view() =~= before + item(cur));
            }
            assert(before + (item(cur) + list_items(Seq::empty(), rest.drop_first()))
                =~= r.deep_view() + list_items(Seq::empty(), rest.drop_first()));
            assert(cs@.subrange(i + 1, i + 1) =~= Seq::<char>::empty());
            i = i + 1;
            start = i;
        } else {
            assert(cur.push(rest[0]) =~= cs@.subrange(start as int, i + 1));
            i = i + 1;
        }
    }
    let ghost before = r.deep_view();
    let ghost cur = cs@.subrange(start as int, i as int);
    if start < i {
        r.push(s.substring_char(start, i).to_owned());
    }
    assert(r.deep_view() =~= before + item(cur));
    r
}

/// Whether `s` is the word `w`.
fn is_word(s: &String, w: &str) -> (r: bool)
    ensures
        r == (s@ == w@),
{
    let w = w.to_owned();
    *s == w
}

/// Reads the command-line arguments, program name excluded.
///
/// Empty arguments are ignored. Each of `--cachedir`, `--dbpath` and `--repos`
/// takes the next argument as its value (for `--repos` a comma-separated
/// list); given again, it overrides. `-h` or `--help` asks for help: the
/// result is `Ok(None)` and the arguments after it are not read.
pub fn read_args(args: &[String]) -> (r: Result<Option<Config>, Error>)
    ensures
        outcome_view(&r) == parse_args(no_settings(), arg_views(args@)),
{
    let ghost all = arg_views(args@);
    let mut config = Config::new();
    let mut i: usize = 0;
    assert(all.subrange(0, all.len() as int) =~= all);
    while i < args.len()
        invariant
            all == arg_views(args@),
            i <= args@.len(),
            parse_args(config@, all.subrange(i as int, all.len() as int)) == parse_args(
                no_settings(),
                all,
            ),
        decreases args@.len() - i,
    {
        let ghost rest = all.subrange(i as int, all.len() as int);
        let arg = &args[i];
        assert(rest[0] == arg@);
        if is_word(arg, "") {
            assert(rest.drop_first() =~= all.subrange(i + 1, all.len() as int));
            i = i + 1;
        } else if is_word(arg, "--cachedir") || is_word(arg, "--dbpath") || is_word(
            arg,
            "--repos",
        ) {
            if i + 1 >= args.len() {
                return Err(Error::NoValue(arg.clone()));
            }
            let value = &args[i + 1];
            assert(rest[1] == value@);
            if is_word(arg, "--cachedir") {
                config.cachedir = Some(value.clone());
            } else if is_word(arg, "--dbpath") {
                config.dbpath = Some(value.clone());
            } else {
                config.repos = Some(parse_list(value.as_str()));
            }
            assert(rest.subrange(2, rest.len() as int) =~= all.subrange(i + 2, all.len() as int));
            i = i + 2;
        } else if is_word(arg, "-h") || is_word(arg, "--help") {
            return Ok(None);
        } else {
            return Err(Error::Unknown(arg.clone()));
        }
    }
    Ok(Some(config))
}

} // verus!
