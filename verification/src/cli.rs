//! Command-line arguments: two positional paths and optional `--from` /
//! `--to` format overrides.
use vstd::prelude::*;
use vstd::string::StringExecFns;

use crate::playlist::{format_named, strings_view, Format};
use crate::text::{chars_of, range_eq};

verus! {

pub const USAGE: &'static str = "usage: playlist-bridge [--from FORMAT] [--to FORMAT] <input> <output>";

/// Parsed command-line arguments, before file extensions are consulted.
/// `from`/`to` are only set when the caller passed an explicit flag, so a
/// program can still fall back to extension detection when they're not.
#[derive(Debug, Clone, PartialEq, Eq)]
pub struct Args {
    pub input: String,
    pub output: String,
    pub from: Option<Format>,
    pub to: Option<Format>,
}

pub struct ArgsView {
    pub input: Seq<char>,
    pub output: Seq<char>,
    pub from: Option<Format>,
    pub to: Option<Format>,
}

impl View for Args {
    type V = ArgsView;

    open spec fn view(&self) -> ArgsView {
        ArgsView { input: self.input@, output: self.output@, from: self.from, to: self.to }
    }
}

/// What the scan over the arguments has collected: the values given to
/// `--from` and `--to` (the last one wins), and the positional arguments.
pub struct ArgScan {
    pub from: Option<Seq<char>>,
    pub to: Option<Seq<char>>,
    pub positional: Seq<Seq<char>>,
}

pub open spec fn from_flag() -> Seq<char> {
    seq!['-', '-', 'f', 'r', 'o', 'm']
}

pub open spec fn to_flag() -> Seq<char> {
    seq!['-', '-', 't', 'o']
}

/// Scans `args` left to right: `--from` and `--to` take the argument after
/// them as their value, whatever it is; everything else is positional.
pub open spec fn scan_args(args: Seq<Seq<char>>, st: ArgScan) -> Result<ArgScan, Seq<char>>
    decreases args.len(),
{
    if args.len() == 0 {
        Ok(st)
    } else if args[0] == from_flag() {
        if args.len() < 2 {
            Err("--from requires a value"@)
        } else {
            scan_args(
                args.skip(2),
                ArgScan { from: Some(args[1]), to: st.to, positional: st.positional },
            )
        }
    } else if args[0] == to_flag() {
        if args.len() < 2 {
            Err("--to requires a value"@)
        } else {
            scan_args(
                args.skip(2),
                ArgScan { from: st.from, to: Some(args[1]), positional: st.positional },
            )
        }
    } else {
        scan_args(
            args.drop_first(),
            ArgScan { from: st.from, to: st.to, positional: st.positional.push(args[0]) },
        )
    }
}

pub open spec fn named_or_none(n: Option<Seq<char>>) -> Option<Format> {
    match n {
        Some(x) => format_named(x),
        None => None,
    }
}

/// The result of parsing `args` (the arguments after the program name).
pub open spec fn parse_args_spec(args: Seq<Seq<char>>) -> Result<ArgsView, Seq<char>> {
    match scan_args(args, ArgScan { from: None, to: None, positional: seq![] }) {
        Err(e) => Err(e),
        Ok(sc) => if sc.positional.len() != 2 {
            Err(USAGE@)
        } else if sc.from is Some && format_named(sc.from->0) is None {
            Err("unknown format: "@ + sc.from->0)
        } else if sc.to is Some && format_named(sc.to->0) is None {
            Err("unknown format: "@ + sc.to->0)
        } else {
            Ok(
                ArgsView {
                    input: sc.positional[0],
                    output: sc.positional[1],
                    from: named_or_none(sc.from),
                    to: named_or_none(sc.to),
                },
            )
        },
    }
}

fn unknown_format(name: &String) -> (e: String)
    ensures
        e@ == "unknown format: "@ + name@,
{
    let mut e = String::from_str("unknown format: ");
    e.append(name.as_str());
    e
}

/// Parses `argv[1..]`. `--from`/`--to` override extension detection, which
/// matters for playlists that don't use a recognized extension.
pub fn parse_args(args: &[String]) -> (res: Result<Args, String>)
    ensures
        match parse_args_spec(strings_view(args@)) {
            Ok(a) => res matches Ok(r) && r@ == a,
            Err(e) => res matches Err(m) && m@ == e,
        },
{
    let ghost all = strings_view(args@);
    let from_arr: [char; 6] = ['-', '-', 'f', 'r', 'o', 'm'];
    let to_arr: [char; 4] = ['-', '-', 't', 'o'];
    assert(from_arr@ =~= from_flag());
    assert(to_arr@ =~= to_flag());
    let mut from_name: Option<String> = None;
    let mut to_name: Option<String> = None;
    let mut positional: Vec<String> = Vec::new();
    let mut i: usize = 0;
    assert(all.skip(0) =~= all);
    assert(strings_view(positional@) =~= Seq::<Seq<char>>::empty());
    while i < args.len()
        invariant
            0 <= i <= args@.len(),
            all == strings_view(args@),
            from_arr@ == from_flag(),
            to_arr@ == to_flag(),
            scan_args(all, ArgScan { from: None, to: None, positional: seq![] }) == scan_args(
                all.skip(i as int),
                ArgScan {
                    from: crate::playlist::opt_view(from_name),
                    to: crate::playlist::opt_view(to_name),
                    positional: strings_view(positional@),
                },
            ),
        decreases args@.len() - i,
    {
        let ghost rest = all.skip(i as int);
        let a = chars_of(args[i].as_str());
        let n = a.len();
        assert(a@.subrange(0, n as int) =~= a@);
        assert(rest[0] == args@[i as int]@);
        if range_eq(&a, 0, n, &from_arr) {
            if i + 1 >= args.len() {
                return Err(String::from_str("--from requires a value"));
            }
            assert(rest.skip(2) =~= all.skip(i + 2));
            assert(rest[1] == args@[i + 1]@);
            from_name = Some(args[i + 1].clone());
            i = i + 2;
        } else if range_eq(&a, 0, n, &to_arr) {
            if i + 1 >= args.len() {
                return Err(String::from_str("--to requires a value"));
            }
            assert(rest.skip(2) =~= all.skip(i + 2));
            assert(rest[1] == args@[i + 1]@);
            to_name = Some(args[i + 1].clone());
            i = i + 2;
        } else {
            assert(rest.drop_first() =~= all.skip(i + 1));
            let ghost before = positional@;
            positional.push(args[i].clone());
            assert(strings_view(positional@) =~= strings_view(before).push(rest[0]));
            i = i + 1;
        }
    }
    assert(all.skip(i as int) =~= Seq::<Seq<char>>::empty());
    if positional.len() != 2 {
        return Err(String::from_str(USAGE));
    }
    let from = match &from_name {
        Some(name) => match Format::from_name(name.as_str()) {
            Some(f) => Some(f),
            None => {
                return Err(unknown_format(name));
            },
        },
        None => None,
    };
    let to = match &to_name {
        Some(name) => match Format::from_name(name.as_str()) {
            Some(f) => Some(f),
            None => {
                return Err(unknown_format(name));
            },
        },
        None => None,
    };
    let input = positional[0].clone();
    let output = positional[1].clone();
    Ok(Args { input, output, from, to })
}

} // verus!
