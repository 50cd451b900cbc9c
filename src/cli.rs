//! Command-line arguments: the host name to advertise and the interface filter values.
use vstd::prelude::*;

use crate::filter::{texts, wildcard};
use crate::text::{text_equal, trim, trimmed};

verus! {

/// What the arguments ask for: the name to advertise and the raw interface
/// filter values (`*` where none was given).
pub struct CliOptions {
    pub name: String,
    pub interfaces: Vec<String>,
}

/// What a list of arguments asks the program to do.
pub enum Command {
    /// Print usage and stop.
    Help,
    /// Run with these options.
    Run(CliOptions),
}

/// Why a list of arguments was refused.
pub enum ArgsError {
    /// `-n`/`--name` came last, without a value.
    MissingNameValue,
    /// `-i`/`--interface` came last, without a value.
    MissingInterfaceValue,
    /// `--name=` with nothing but white space after it.
    EmptyNameValue,
    /// `--interface=` with nothing but white space after it.
    EmptyInterfaceValue,
    /// An argument that starts with `-` and is no known option.
    UnknownOption(String),
    /// More than one positional argument and no name option.
    TooManyPositional(Vec<String>),
    /// Positional arguments beside a name option.
    UnexpectedPositional(Vec<String>),
    /// The name is white space alone.
    EmptyName,
    /// No name was given.
    MissingName,
}

/// What a list of arguments means.
pub enum ParsedArgs {
    Help,
    Run { name: Seq<char>, interfaces: Seq<Seq<char>> },
    MissingNameValue,
    MissingInterfaceValue,
    EmptyNameValue,
    EmptyInterfaceValue,
    UnknownOption(Seq<char>),
    TooManyPositional(Seq<Seq<char>>),
    UnexpectedPositional(Seq<Seq<char>>),
    EmptyName,
    MissingName,
}

/// Whether `s` starts with `p`.
pub open spec fn has_prefix(s: Seq<char>, p: Seq<char>) -> bool {
    p.len() <= s.len() && s.subrange(0, p.len() as int) == p
}

/// `s` with every leading repetition of the non-empty `p` removed.
pub open spec fn strip_prefixes(s: Seq<char>, p: Seq<char>) -> Seq<char>
    decreases s.len(),
{
    if p.len() > 0 && has_prefix(s, p) {
        strip_prefixes(s.skip(p.len() as int), p)
    } else {
        s
    }
}

pub open spec fn short_help() -> Seq<char> {
    seq!['-', 'h']
}

pub open spec fn long_help() -> Seq<char> {
    seq!['-', '-', 'h', 'e', 'l', 'p']
}

pub open spec fn short_name() -> Seq<char> {
    seq!['-', 'n']
}

pub open spec fn long_name() -> Seq<char> {
    seq!['-', '-', 'n', 'a', 'm', 'e']
}

pub open spec fn short_interface() -> Seq<char> {
    seq!['-', 'i']
}

pub open spec fn long_interface() -> Seq<char> {
    seq!['-', '-', 'i', 'n', 't', 'e', 'r', 'f', 'a', 'c', 'e']
}

pub open spec fn name_assign() -> Seq<char> {
    long_name() + seq!['=']
}

pub open spec fn interface_assign() -> Seq<char> {
    long_interface() + seq!['=']
}

/// The meaning of the arguments once all are read: a name option wins, else a
/// single positional argument is the name; the name is trimmed and must not be
/// empty; no interface value means every interface.
pub open spec fn finish_args(
    name: Option<Seq<char>>,
    interfaces: Seq<Seq<char>>,
    positional: Seq<Seq<char>>,
) -> ParsedArgs {
    let chosen = match name {
        Some(n) => if positional.len() > 0 {
            Err(ParsedArgs::UnexpectedPositional(positional))
        } else {
            Ok(Some(n))
        },
        None => if positional.len() == 1 {
            Ok(Some(positional[0]))
        } else if positional.len() > 1 {
            Err(ParsedArgs::TooManyPositional(positional))
        } else {
            Ok(None)
        },
    };
    match chosen {
        Err(e) => e,
        Ok(None) => ParsedArgs::MissingName,
        Ok(Some(n)) => if trim(n).len() == 0 {
            ParsedArgs::EmptyName
        } else {
            ParsedArgs::Run {
                name: trim(n),
                interfaces: if interfaces.len() == 0 {
                    seq![wildcard()]
                } else {
                    interfaces
                },
            }
        },
    }
}

/// The meaning of `args[i..]`, given what the arguments before `i` gave.
pub open spec fn scan_args(
    args: Seq<Seq<char>>,
    i: int,
    name: Option<Seq<char>>,
    interfaces: Seq<Seq<char>>,
    positional: Seq<Seq<char>>,
) -> ParsedArgs
    decreases args.len() - i,
{
    if i < 0 || i >= args.len() {
        finish_args(name, interfaces, positional)
    } else {
        let arg = args[i];
        if arg == short_help() || arg == long_help() {
            ParsedArgs::Help
        } else if arg == short_name() || arg == long_name() {
            if i + 1 >= args.len() {
                ParsedArgs::MissingNameValue
            } else {
                scan_args(args, i + 2, Some(args[i + 1]), interfaces, positional)
            }
        } else if arg == short_interface() || arg == long_interface() {
            if i + 1 >= args.len() {
                ParsedArgs::MissingInterfaceValue
            } else {
                scan_args(args, i + 2, name, interfaces.push(args[i + 1]), positional)
            }
        } else if has_prefix(arg, name_assign()) {
            let v = trim(strip_prefixes(arg, name_assign()));
            if v.len() == 0 {
                ParsedArgs::EmptyNameValue
            } else {
                scan_args(args, i + 1, Some(v), interfaces, positional)
            }
        } else if has_prefix(arg, interface_assign()) {
            let v = trim(strip_prefixes(arg, interface_assign()));
            if v.len() == 0 {
                ParsedArgs::EmptyInterfaceValue
            } else {
                scan_args(args, i + 1, name, interfaces.push(v), positional)
            }
        } else if arg.len() > 0 && arg[0] == '-' {
            ParsedArgs::UnknownOption(arg)
        } else {
            scan_args(args, i + 1, name, interfaces, positional.push(arg))
        }
    }
}

/// The meaning of a full argument list; the first element is the program's name.
pub open spec fn parsed_args(args: Seq<Seq<char>>) -> ParsedArgs {
    scan_args(args, 1, None, Seq::empty(), Seq::empty())
}

/// What a parse result means.
pub open spec fn result_view(r: Result<Command, ArgsError>) -> ParsedArgs {
    match r {
        Ok(Command::Help) => ParsedArgs::Help,
        Ok(Command::Run(o)) => ParsedArgs::Run { name: o.name@, interfaces: texts(o.interfaces@) },
        Err(ArgsError::MissingNameValue) => ParsedArgs::MissingNameValue,
        Err(ArgsError::MissingInterfaceValue) => ParsedArgs::MissingInterfaceValue,
        Err(ArgsError::EmptyNameValue) => ParsedArgs::EmptyNameValue,
        Err(ArgsError::EmptyInterfaceValue) => ParsedArgs::EmptyInterfaceValue,
        Err(ArgsError::UnknownOption(a)) => ParsedArgs::UnknownOption(a@),
        Err(ArgsError::TooManyPositional(p)) => ParsedArgs::TooManyPositional(texts(p@)),
        Err(ArgsError::UnexpectedPositional(p)) => ParsedArgs::UnexpectedPositional(texts(p@)),
        Err(ArgsError::EmptyName) => ParsedArgs::EmptyName,
        Err(ArgsError::MissingName) => ParsedArgs::MissingName,
    }
}

pub open spec fn opt_view(o: Option<String>) -> Option<Seq<char>> {
    match o {
        Some(s) => Some(s@),
        None => None,
    }
}

/// Whether `s` starts with `p`.
fn starts_with(s: &str, p: &str) -> (r: bool)
    ensures
        r == has_prefix(s@, p@),
{
    let n = s.unicode_len();
    let m = p.unicode_len();
    if m > n {
        return false;
    }
    let mut k: usize = 0;
    while k < m
        invariant
            n == s@.len(),
            m == p@.len(),
            m <= n,
            k <= m,
            forall|q: int| 0 <= q < k ==> s@[q] == p@[q],
        decreases m - k,
    {
        if s.get_char(k) != p.get_char(k) {
            assert(s@.subrange(0, m as int)[k as int] != p@[k as int]);
            return false;
        }
        k = k + 1;
    }
    assert(s@.subrange(0, m as int) =~= p@);
    true
}

/// `s` with every leading repetition of `p` removed, then trimmed.
fn option_value(s: &str, p: &str) -> (r: String)
    requires
        p@.len() > 0,
    ensures
        r@ == trim(strip_prefixes(s@, p@)),
{
    let m = p.unicode_len();
    let mut rest: &str = s;
    while starts_with(rest, p)
        invariant
            m == p@.len(),
            m > 0,
            strip_prefixes(s@, p@) == strip_prefixes(rest@, p@),
        decreases rest@.len(),
    {
        let n = rest.unicode_len();
        let ghost before = rest@;
        rest = rest.substring_char(m, n);
        assert(rest@ =~= before.skip(m as int));
    }
    trimmed(rest)
}

/// The options once all arguments are read.
fn finish(name: Option<String>, interfaces: Vec<String>, positional: Vec<String>) -> (r: Result<
    Command,
    ArgsError,
>)
    ensures
        result_view(r) == finish_args(opt_view(name), texts(interfaces@), texts(positional@)),
{
    let chosen: String = match name {
        Some(n) => {
            if positional.len() > 0 {
                return Err(ArgsError::UnexpectedPositional(positional));
            }
            n
        },
        None => {
            if positional.len() == 1 {
                positional[0].clone()
            } else if positional.len() > 1 {
                return Err(ArgsError::TooManyPositional(positional));
            } else {
                return Err(ArgsError::MissingName);
            }
        },
    };
    let name = trimmed(chosen.as_str());
    if name.unicode_len() == 0 {
        return Err(ArgsError::EmptyName);
    }
    let mut interfaces = interfaces;
    if interfaces.len() == 0 {
        let all = String::from_str("*");
        proof {
            reveal_strlit("*");
        }
        assert(all@ =~= wildcard());
        interfaces.push(all);
        assert(texts(interfaces@) =~= seq![wildcard()]);
    }
    Ok(Command::Run(CliOptions { name, interfaces }))
}

/// Reads the arguments; the first is the program's name and is skipped.
/// Options: `-h`/`--help`; `-n`/`--name` followed by the name, or
/// `--name=<name>`; `-i`/`--interface` followed by a value, or
/// `--interface=<value>`, repeatable. Without a name option a single
/// positional argument is the name.
pub fn parse_args(args: &Vec<String>) -> (r: Result<Command, ArgsError>)
    ensures
        result_view(r) == parsed_args(texts(args@)),
{
    let ghost a = texts(args@);
    let h1 = "-h";
    let h2 = "--help";
    let n1 = "-n";
    let n2 = "--name";
    let i1 = "-i";
    let i2 = "--interface";
    let na = "--name=";
    let ia = "--interface=";
    proof {
        reveal_strlit("-h");
        reveal_strlit("--help");
        reveal_strlit("-n");
        reveal_strlit("--name");
        reveal_strlit("-i");
        reveal_strlit("--interface");
        reveal_strlit("--name=");
        reveal_strlit("--interface=");
    }
    assert(h1@ =~= short_help());
    assert(h2@ =~= long_help());
    assert(n1@ =~= short_name());
    assert(n2@ =~= long_name());
    assert(i1@ =~= short_interface());
    assert(i2@ =~= long_interface());
    assert(na@ =~= name_assign());
    assert(ia@ =~= interface_assign());
    let mut name: Option<String> = None;
    let mut interfaces: Vec<String> = Vec::new();
    let mut positional: Vec<String> = Vec::new();
    let mut i: usize = 1;
    assert(texts(interfaces@) =~= Seq::empty());
    assert(texts(positional@) =~= Seq::empty());
    while i < args.len()
        invariant
            a == texts(args@),
            h1@ == short_help(),
            h2@ == long_help(),
            n1@ == short_name(),
            n2@ == long_name(),
            i1@ == short_interface(),
            i2@ == long_interface(),
            na@ == name_assign(),
            ia@ == interface_assign(),
            i >= 1,
            parsed_args(a) == scan_args(
                a,
                i as int,
                opt_view(name),
                texts(interfaces@),
                texts(positional@),
            ),
        decreases args@.len() - i,
    {
        let arg = args[i].as_str();
        assert(arg@ == a[i as int]);
        if text_equal(arg, h1) || text_equal(arg, h2) {
            return Ok(Command::Help);
        } else if text_equal(arg, n1) || text_equal(arg, n2) {
            if i + 1 >= args.len() {
                return Err(ArgsError::MissingNameValue);
            }
            name = Some(args[i + 1].clone());
            i = i + 2;
        } else if text_equal(arg, i1) || text_equal(arg, i2) {
            if i + 1 >= args.len() {
                return Err(ArgsError::MissingInterfaceValue);
            }
            let ghost before = texts(interfaces@);
            interfaces.push(args[i + 1].clone());
            assert(texts(interfaces@) =~= before.push(a[i + 1]));
            i = i + 2;
        } else if starts_with(arg, na) {
            let v = option_value(arg, na);
            if v.unicode_len() == 0 {
                return Err(ArgsError::EmptyNameValue);
            }
            name = Some(v);
            i = i + 1;
        } else if starts_with(arg, ia) {
            let v = option_value(arg, ia);
            if v.unicode_len() == 0 {
                return Err(ArgsError::EmptyInterfaceValue);
            }
            let ghost before = texts(interfaces@);
            let ghost vv = v@;
            interfaces.push(v);
            assert(texts(interfaces@) =~= before.push(vv));
            i = i + 1;
        } else if arg.unicode_len() > 0 && arg.get_char(0) == '-' {
            return Err(ArgsError::UnknownOption(arg.to_owned()));
        } else {
            let ghost before = texts(positional@);
            positional.push(arg.to_owned());
            assert(texts(positional@) =~= before.push(a[i as int]));
            i = i + 1;
        }
    }
    finish(name, interfaces, positional)
}

} // verus!
