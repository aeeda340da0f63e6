//! The options of a run and the command line that sets them.

use crate::lang::{normalize_ext, normalized_ext};
use crate::text::{
    chars_of, lower, lower_exec, parse_usize_chars, parsed_usize, push_text, same_text, split,
    split_exec, str_eq, string_of, strings, texts, trim, trim_whitespace, whitespace,
};
use vstd::prelude::*;

verus! {

/// The form of the report.
#[derive(Debug, Clone, Copy, PartialEq, Eq, Structural)]
pub enum Format {
    Text,
    Json,
}

/// Which count a directory is shown with.
#[derive(Debug, Clone, Copy, PartialEq, Eq, Structural)]
pub enum CountMode {
    /// The files directly inside the directory.
    Direct,
    /// The files of the directory's whole subtree.
    Tree,
}

/// What becomes of the extensions of C and C++ header files.
#[derive(Debug, Clone, Copy, PartialEq, Eq, Structural)]
pub enum HeaderMode {
    Include,
    Exclude,
    Only,
}

/// The options of a run.
#[derive(Debug)]
pub struct Cli {
    pub path: String,
    pub lang: Vec<String>,
    pub ext: Vec<String>,
    pub headers: HeaderMode,
    pub count_mode: CountMode,
    pub max_depth: Option<usize>,
    pub min_count: usize,
    pub show_empty: bool,
    pub follow_symlinks: bool,
    pub exclude: Vec<String>,
    pub no_gitignore: bool,
    pub hidden: bool,
    pub format: Format,
    pub json_pretty: bool,
}

/// The options as the contracts see them.
pub struct CliView {
    pub path: Seq<char>,
    pub lang: Seq<Seq<char>>,
    pub ext: Seq<Seq<char>>,
    pub headers: HeaderMode,
    pub count_mode: CountMode,
    pub max_depth: Option<usize>,
    pub min_count: usize,
    pub show_empty: bool,
    pub follow_symlinks: bool,
    pub exclude: Seq<Seq<char>>,
    pub no_gitignore: bool,
    pub hidden: bool,
    pub format: Format,
    pub json_pretty: bool,
}

impl View for Cli {
    type V = CliView;

    open spec fn view(&self) -> CliView {
        CliView {
            path: self.path@,
            lang: strings(self.lang@),
            ext: strings(self.ext@),
            headers: self.headers,
            count_mode: self.count_mode,
            max_depth: self.max_depth,
            min_count: self.min_count,
            show_empty: self.show_empty,
            follow_symlinks: self.follow_symlinks,
            exclude: strings(self.exclude@),
            no_gitignore: self.no_gitignore,
            hidden: self.hidden,
            format: self.format,
            json_pretty: self.json_pretty,
        }
    }
}

/// The options read so far from a command line.
pub struct Draft {
    /// The path, once one was given.
    pub path: Option<Seq<char>>,
    /// The other options.
    pub rest: CliView,
}

/// The options of a command line without arguments.
pub open spec fn defaults() -> Draft {
    Draft {
        path: None,
        rest: CliView {
            path: "."@,
            lang: Seq::empty(),
            ext: Seq::empty(),
            headers: HeaderMode::Include,
            count_mode: CountMode::Tree,
            max_depth: None,
            min_count: 0,
            show_empty: false,
            follow_symlinks: false,
            exclude: Seq::empty(),
            no_gitignore: false,
            hidden: false,
            format: Format::Text,
            json_pretty: false,
        },
    }
}

/// The options that a draft stands for: the path is `.` if none was
/// given.
pub open spec fn finished(d: Draft) -> CliView {
    match d.path {
        Some(p) => CliView { path: p, ..d.rest },
        None => CliView { path: "."@, ..d.rest },
    }
}

/// The texts of `pieces` without white space around them, those left
/// out that are empty then.
pub open spec fn trimmed_items(pieces: Seq<Seq<char>>) -> Seq<Seq<char>>
    decreases pieces.len(),
{
    if pieces.len() == 0 {
        Seq::empty()
    } else {
        let before = trimmed_items(pieces.drop_last());
        let item = trim(pieces.last(), whitespace());
        if item.len() > 0 {
            before.push(item)
        } else {
            before
        }
    }
}

/// The extensions that the texts of `pieces` name, in their order.
pub open spec fn normalized_items(pieces: Seq<Seq<char>>) -> Seq<Seq<char>>
    decreases pieces.len(),
{
    if pieces.len() == 0 {
        Seq::empty()
    } else {
        let before = normalized_items(pieces.drop_last());
        match normalized_ext(pieces.last()) {
            Some(x) => before.push(x),
            None => before,
        }
    }
}

/// The languages that the value `v` of `--lang` names: the items
/// between its commas.
pub open spec fn lang_items(v: Seq<char>) -> Seq<Seq<char>> {
    trimmed_items(split(v, ','))
}

/// The header mode that `v` names, whatever the case of its letters.
pub open spec fn parsed_headers(v: Seq<char>) -> Option<HeaderMode> {
    let l = lower(v);
    if l == "include"@ {
        Some(HeaderMode::Include)
    } else if l == "exclude"@ {
        Some(HeaderMode::Exclude)
    } else if l == "only"@ {
        Some(HeaderMode::Only)
    } else {
        None
    }
}

/// The count mode that `v` names, whatever the case of its letters.
pub open spec fn parsed_count_mode(v: Seq<char>) -> Option<CountMode> {
    let l = lower(v);
    if l == "direct"@ {
        Some(CountMode::Direct)
    } else if l == "tree"@ {
        Some(CountMode::Tree)
    } else {
        None
    }
}

/// The format that `v` names, whatever the case of its letters.
pub open spec fn parsed_format(v: Seq<char>) -> Option<Format> {
    let l = lower(v);
    if l == "text"@ {
        Some(Format::Text)
    } else if l == "json"@ {
        Some(Format::Json)
    } else {
        None
    }
}

/// The option `a` is followed by a value.
pub open spec fn takes_value(a: Seq<char>) -> bool {
    ||| a == "--lang"@
    ||| a == "--ext"@
    ||| a == "--headers"@
    ||| a == "--count-mode"@
    ||| a == "--max-depth"@
    ||| a == "--min-count"@
    ||| a == "--exclude"@
    ||| a == "--format"@
}

/// The option `a` stands alone.
pub open spec fn is_flag(a: Seq<char>) -> bool {
    ||| a == "--show-empty"@
    ||| a == "--follow-symlinks"@
    ||| a == "--no-gitignore"@
    ||| a == "--hidden"@
    ||| a == "--json-pretty"@
}

/// The draft `d` after the option `a` with the value `v`, or the
/// message for a value that the option does not take.
pub open spec fn with_value(d: Draft, a: Seq<char>, v: Seq<char>) -> Result<Draft, Seq<char>> {
    let o = d.rest;
    if a == "--lang"@ {
        Ok(Draft { rest: CliView { lang: lang_items(v), ..o }, ..d })
    } else if a == "--ext"@ {
        Ok(Draft { rest: CliView { ext: o.ext + normalized_items(split(v, ',')), ..o }, ..d })
    } else if a == "--headers"@ {
        match parsed_headers(v) {
            Some(h) => Ok(Draft { rest: CliView { headers: h, ..o }, ..d }),
            None => Err("invalid --headers value: "@ + v),
        }
    } else if a == "--count-mode"@ {
        match parsed_count_mode(v) {
            Some(m) => Ok(Draft { rest: CliView { count_mode: m, ..o }, ..d }),
            None => Err("invalid --count-mode value: "@ + v),
        }
    } else if a == "--max-depth"@ {
        match parsed_usize(v) {
            Some(n) => Ok(Draft { rest: CliView { max_depth: Some(n), ..o }, ..d }),
            None => Err("invalid max-depth: "@ + v),
        }
    } else if a == "--min-count"@ {
        match parsed_usize(v) {
            Some(n) => Ok(Draft { rest: CliView { min_count: n, ..o }, ..d }),
            None => Err("invalid min-count: "@ + v),
        }
    } else if a == "--exclude"@ {
        Ok(Draft { rest: CliView { exclude: o.exclude.push(v), ..o }, ..d })
    } else {
        match parsed_format(v) {
            Some(f) => Ok(Draft { rest: CliView { format: f, ..o }, ..d }),
            None => Err("invalid --format value: "@ + v),
        }
    }
}

/// The draft `d` after the option `a` that stands alone.
pub open spec fn with_flag(d: Draft, a: Seq<char>) -> Draft {
    let o = d.rest;
    if a == "--show-empty"@ {
        Draft { rest: CliView { show_empty: true, ..o }, ..d }
    } else if a == "--follow-symlinks"@ {
        Draft { rest: CliView { follow_symlinks: true, ..o }, ..d }
    } else if a == "--no-gitignore"@ {
        Draft { rest: CliView { no_gitignore: true, ..o }, ..d }
    } else if a == "--hidden"@ {
        Draft { rest: CliView { hidden: true, ..o }, ..d }
    } else {
        Draft { rest: CliView { json_pretty: true, ..o }, ..d }
    }
}

/// What the arguments from position `i` on make of the draft `d`: the
/// options, or a message. A request for help or for the version ends
/// the reading with the message `--help` or `--version`. An option that
/// takes a value takes the next argument. Any other argument that
/// begins with `-` is an error, and so is a second path.
pub open spec fn parse_from(args: Seq<Seq<char>>, i: int, d: Draft) -> Result<CliView, Seq<char>>
    decreases args.len() - i,
{
    if i < 0 || i >= args.len() {
        Ok(finished(d))
    } else {
        let a = args[i];
        if a == "-h"@ || a == "--help"@ {
            Err("--help"@)
        } else if a == "-V"@ || a == "--version"@ {
            Err("--version"@)
        } else if takes_value(a) {
            if i + 1 >= args.len() {
                Err(a + " requires a value"@)
            } else {
                match with_value(d, a, args[i + 1]) {
                    Ok(next) => parse_from(args, i + 2, next),
                    Err(message) => Err(message),
                }
            }
        } else if is_flag(a) {
            parse_from(args, i + 1, with_flag(d, a))
        } else if a.len() > 0 && a[0] == '-' {
            Err("unknown option: "@ + a)
        } else if d.path is Some {
            Err("unexpected positional argument: "@ + a)
        } else {
            parse_from(args, i + 1, Draft { path: Some(a), ..d })
        }
    }
}

/// The options that the command line `args` sets, or a message.
pub open spec fn parsed(args: Seq<Seq<char>>) -> Result<CliView, Seq<char>> {
    parse_from(args, 0, defaults())
}

/// The text of a string that may be missing.
pub open spec fn text_of(s: Option<String>) -> Option<Seq<char>> {
    match s {
        Some(p) => Some(p@),
        None => None,
    }
}

fn message(head: &str, tail: &str) -> (r: String)
    ensures
        r@ == head@ + tail@,
{
    let mut r = String::new();
    push_text(&mut r, head);
    push_text(&mut r, tail);
    r
}

/// Reads a number for the option called `field`.
pub fn parse_usize(v: &str, field: &str) -> (r: Result<usize, String>)
    ensures
        match r {
            Ok(n) => parsed_usize(v@) == Some(n),
            Err(m) => parsed_usize(v@) is None && m@ == "invalid "@ + field@ + ": "@ + v@,
        },
{
    match parse_usize_chars(&chars_of(v)) {
        Some(n) => Ok(n),
        None => {
            let mut m = String::new();
            push_text(&mut m, "invalid ");
            push_text(&mut m, field);
            push_text(&mut m, ": ");
            push_text(&mut m, v);
            Err(m)
        },
    }
}

/// Reads the languages that the value of `--lang` names.
pub fn parse_lang(v: &str) -> (r: Vec<String>)
    ensures
        strings(r@) == lang_items(v@),
{
    let pieces = split_exec(&chars_of(v), ',');
    let mut r: Vec<String> = Vec::new();
    let mut i: usize = 0;
    while i < pieces.len()
        invariant
            i <= pieces.len(),
            strings(r@) == trimmed_items(texts(pieces@).take(i as int)),
        decreases pieces.len() - i,
    {
        assert(texts(pieces@).take(i + 1).drop_last() =~= texts(pieces@).take(i as int));
        let item = trim_whitespace(&pieces[i]);
        if item.len() > 0 {
            r.push(string_of(&item));
        }
        i += 1;
    }
    assert(texts(pieces@).take(pieces.len() as int) =~= texts(pieces@));
    r
}

/// Adds to `ext` the extensions that the value of `--ext` names.
pub fn parse_ext(ext: &mut Vec<String>, v: &str)
    ensures
        strings(final(ext)@) == strings(old(ext)@) + normalized_items(split(v@, ',')),
{
    let pieces = split_exec(&chars_of(v), ',');
    let mut i: usize = 0;
    while i < pieces.len()
        invariant
            i <= pieces.len(),
            strings(ext@) == strings(old(ext)@) + normalized_items(texts(pieces@).take(i as int)),
        decreases pieces.len() - i,
    {
        assert(texts(pieces@).take(i + 1).drop_last() =~= texts(pieces@).take(i as int));
        let piece = string_of(&pieces[i]);
        match normalize_ext(piece.as_str()) {
            Some(x) => {
                let ghost before = strings(ext@);
                ext.push(x);
                assert(strings(ext@) =~= before.push(x@));
            },
            None => {},
        }
        i += 1;
    }
    assert(texts(pieces@).take(pieces.len() as int) =~= texts(pieces@));
}

/// Reads a header mode.
pub fn parse_headers(v: &str) -> (r: Result<HeaderMode, String>)
    ensures
        match r {
            Ok(h) => parsed_headers(v@) == Some(h),
            Err(m) => parsed_headers(v@) is None && m@ == "invalid --headers value: "@ + v@,
        },
{
    let l = lower_exec(&chars_of(v));
    if same_text(&l, &chars_of("include")) {
        Ok(HeaderMode::Include)
    } else if same_text(&l, &chars_of("exclude")) {
        Ok(HeaderMode::Exclude)
    } else if same_text(&l, &chars_of("only")) {
        Ok(HeaderMode::Only)
    } else {
        Err(message("invalid --headers value: ", v))
    }
}

/// Reads a count mode.
pub fn parse_count_mode(v: &str) -> (r: Result<CountMode, String>)
    ensures
        match r {
            Ok(m) => parsed_count_mode(v@) == Some(m),
            Err(m) => parsed_count_mode(v@) is None && m@ == "invalid --count-mode value: "@ + v@,
        },
{
    let l = lower_exec(&chars_of(v));
    if same_text(&l, &chars_of("direct")) {
        Ok(CountMode::Direct)
    } else if same_text(&l, &chars_of("tree")) {
        Ok(CountMode::Tree)
    } else {
        Err(message("invalid --count-mode value: ", v))
    }
}

/// Reads a format.
pub fn parse_format(v: &str) -> (r: Result<Format, String>)
    ensures
        match r {
            Ok(f) => parsed_format(v@) == Some(f),
            Err(m) => parsed_format(v@) is None && m@ == "invalid --format value: "@ + v@,
        },
{
    let l = lower_exec(&chars_of(v));
    if same_text(&l, &chars_of("text")) {
        Ok(Format::Text)
    } else if same_text(&l, &chars_of("json")) {
        Ok(Format::Json)
    } else {
        Err(message("invalid --format value: ", v))
    }
}

/// Whether the option `arg` is followed by a value.
pub fn takes_value_exec(arg: &str) -> (b: bool)
    ensures
        b == takes_value(arg@),
{
    str_eq(arg, "--lang") || str_eq(arg, "--ext") || str_eq(arg, "--headers") || str_eq(
        arg,
        "--count-mode",
    ) || str_eq(arg, "--max-depth") || str_eq(arg, "--min-count") || str_eq(arg, "--exclude")
        || str_eq(arg, "--format")
}

fn apply_number(cli: &mut Cli, arg: &str, v: &str) -> (r: Result<(), String>)
    requires
        arg@ == "--max-depth"@ || arg@ == "--min-count"@,
        arg@ != "--lang"@,
        arg@ != "--ext"@,
        arg@ != "--headers"@,
        arg@ != "--count-mode"@,
    ensures
        match r {
            Ok(_) => with_value(Draft { path: None, rest: old(cli)@ }, arg@, v@) == Ok::<
                Draft,
                Seq<char>,
            >(Draft { path: None, rest: final(cli)@ }),
            Err(m) => *final(cli) == *old(cli) && with_value(
                Draft { path: None, rest: old(cli)@ },
                arg@,
                v@,
            ) == Err::<Draft, Seq<char>>(m@),
        },
{
    if str_eq(arg, "--max-depth") {
        match parse_usize(v, "max-depth") {
            Ok(n) => {
                cli.max_depth = Some(n);
                Ok(())
            },
            Err(m) => {
                assert(m@ =~= "invalid max-depth: "@ + v@) by {
                    reveal_strlit("invalid ");
                    reveal_strlit("max-depth");
                    reveal_strlit(": ");
                    reveal_strlit("invalid max-depth: ");
                }
                Err(m)
            },
        }
    } else {
        match parse_usize(v, "min-count") {
            Ok(n) => {
                cli.min_count = n;
                Ok(())
            },
            Err(m) => {
                assert(m@ =~= "invalid min-count: "@ + v@) by {
                    reveal_strlit("invalid ");
                    reveal_strlit("min-count");
                    reveal_strlit(": ");
                    reveal_strlit("invalid min-count: ");
                }
                Err(m)
            },
        }
    }
}

/// Sets the option `arg`, which takes a value, to the value `v`.
pub fn apply_value(cli: &mut Cli, arg: &str, v: &str) -> (r: Result<(), String>)
    requires
        takes_value(arg@),
    ensures
        match r {
            Ok(_) => with_value(Draft { path: None, rest: old(cli)@ }, arg@, v@) == Ok::<
                Draft,
                Seq<char>,
            >(Draft { path: None, rest: final(cli)@ }),
            Err(m) => *final(cli) == *old(cli) && with_value(
                Draft { path: None, rest: old(cli)@ },
                arg@,
                v@,
            ) == Err::<Draft, Seq<char>>(m@),
        },
{
    if str_eq(arg, "--lang") {
        cli.lang = parse_lang(v);
        Ok(())
    } else if str_eq(arg, "--ext") {
        parse_ext(&mut cli.ext, v);
        Ok(())
    } else if str_eq(arg, "--headers") {
        match parse_headers(v) {
            Ok(h) => {
                cli.headers = h;
                Ok(())
            },
            Err(m) => Err(m),
        }
    } else if str_eq(arg, "--count-mode") {
        match parse_count_mode(v) {
            Ok(m) => {
                cli.count_mode = m;
                Ok(())
            },
            Err(m) => Err(m),
        }
    } else if str_eq(arg, "--max-depth") || str_eq(arg, "--min-count") {
        apply_number(cli, arg, v)
    } else if str_eq(arg, "--exclude") {
        let ghost before = strings(cli.exclude@);
        cli.exclude.push(v.to_owned());
        assert(strings(cli.exclude@) =~= before.push(v@));
        Ok(())
    } else {
        match parse_format(v) {
            Ok(f) => {
                cli.format = f;
                Ok(())
            },
            Err(m) => Err(m),
        }
    }
}

/// Sets the option `arg` if it is one that stands alone, and says
/// whether it is.
pub fn apply_flag(cli: &mut Cli, arg: &str) -> (b: bool)
    ensures
        b == is_flag(arg@),
        b ==> with_flag(Draft { path: None, rest: old(cli)@ }, arg@) == (Draft {
            path: None,
            rest: final(cli)@,
        }),
        !b ==> *final(cli) == *old(cli),
{
    if str_eq(arg, "--show-empty") {
        cli.show_empty = true;
        true
    } else if str_eq(arg, "--follow-symlinks") {
        cli.follow_symlinks = true;
        true
    } else if str_eq(arg, "--no-gitignore") {
        cli.no_gitignore = true;
        true
    } else if str_eq(arg, "--hidden") {
        cli.hidden = true;
        true
    } else if str_eq(arg, "--json-pretty") {
        cli.json_pretty = true;
        true
    } else {
        false
    }
}

impl Cli {
    /// Reads the options from the arguments of the command line.
    pub fn parse(args: Vec<String>) -> (r: Result<Cli, String>)
        ensures
            match r {
                Ok(cli) => parsed(strings(args@)) == Ok::<CliView, Seq<char>>(cli@),
                Err(m) => parsed(strings(args@)) == Err::<CliView, Seq<char>>(m@),
            },
    {
        let mut path: Option<String> = None;
        let mut cli = Cli {
            path: ".".to_owned(),
            lang: Vec::new(),
            ext: Vec::new(),
            headers: HeaderMode::Include,
            count_mode: CountMode::Tree,
            max_depth: None,
            min_count: 0,
            show_empty: false,
            follow_symlinks: false,
            exclude: Vec::new(),
            no_gitignore: false,
            hidden: false,
            format: Format::Text,
            json_pretty: false,
        };
        let ghost all = strings(args@);
        assert(cli@.lang =~= Seq::<Seq<char>>::empty());
        let mut i: usize = 0;
        while i < args.len()
            invariant
                i <= args.len(),
                all == strings(args@),
                cli.path@ == "."@,
                parsed(all) == parse_from(all, i as int, Draft { path: text_of(path), rest: cli@ }),
            decreases args.len() - i,
        {
            let ghost d = Draft { path: text_of(path), rest: cli@ };
            let arg = args[i].as_str();
            if str_eq(arg, "-h") || str_eq(arg, "--help") {
                return Err("--help".to_owned());
            } else if str_eq(arg, "-V") || str_eq(arg, "--version") {
                return Err("--version".to_owned());
            } else if takes_value_exec(arg) {
                if i + 1 >= args.len() {
                    return Err(message(arg, " requires a value"));
                }
                let v = args[i + 1].as_str();
                proof {
                    lemma_with_value_keeps_path(d, arg@, v@);
                }
                match apply_value(&mut cli, arg, v) {
                    Ok(_) => {},
                    Err(m) => {
                        return Err(m);
                    },
                }
                i += 2;
            } else if apply_flag(&mut cli, arg) {
                proof {
                    lemma_with_flag_keeps_path(d, arg@);
                }
                i += 1;
            } else {
                let a = chars_of(arg);
                if a.len() > 0 && a[0] == '-' {
                    return Err(message("unknown option: ", arg));
                }
                if path.is_some() {
                    return Err(message("unexpected positional argument: ", arg));
                }
                path = Some(arg.to_owned());
                i += 1;
            }
        }
        match path {
            Some(p) => {
                cli.path = p;
            },
            None => {},
        }
        Ok(cli)
    }
}

/// An option with a value leaves the path of a draft as it is, and what
/// it makes of the other options does not depend on the path.
pub proof fn lemma_with_value_keeps_path(d: Draft, a: Seq<char>, v: Seq<char>)
    ensures
        match with_value(Draft { path: None, rest: d.rest }, a, v) {
            Ok(next) => with_value(d, a, v) == Ok::<Draft, Seq<char>>(
                Draft { path: d.path, rest: next.rest },
            ),
            Err(m) => with_value(d, a, v) == Err::<Draft, Seq<char>>(m),
        },
{
}

/// An option that stands alone leaves the path of a draft as it is.
pub proof fn lemma_with_flag_keeps_path(d: Draft, a: Seq<char>)
    ensures
        with_flag(d, a) == (Draft {
            path: d.path,
            rest: with_flag(Draft { path: None, rest: d.rest }, a).rest,
        }),
{
}

} // verus!
