//! A git command line, taken apart.

use vstd::prelude::*;

use crate::text::{clone_strings, texts};
use crate::text::{chars_of, str_eq, str_starts_with};

verus! {

/// A git command line: the arguments before the command, the command, and
/// the arguments after it.
#[derive(Debug, PartialEq, Eq)]
pub struct ParsedGitInvocation {
    pub global_args: Vec<String>,
    pub command: Option<String>,
    pub command_args: Vec<String>,
    /// Whether `--` stood before the command.
    pub saw_end_of_opts: bool,
    /// Whether the command line only asks for help.
    pub is_help: bool,
}

/// What ends the options of a command.
pub open spec fn end_of_options() -> Seq<char> {
    "--"@
}

/// Whether an argument begins with a dash.
pub open spec fn dashed(arg: Seq<char>) -> bool {
    arg.len() > 0 && arg[0] == '-'
}

/// Where `x` first stands in `args` at or after `from`; the length of `args`
/// where it does not.
pub open spec fn position(args: Seq<Seq<char>>, x: Seq<char>, from: int) -> int
    decreases args.len() - from,
{
    if from < 0 || from >= args.len() {
        args.len() as int
    } else if args[from] == x {
        from
    } else {
        position(args, x, from + 1)
    }
}

/// The arguments that do not begin with a dash, in their order.
pub open spec fn plain(args: Seq<Seq<char>>) -> Seq<Seq<char>>
    decreases args.len(),
{
    if args.len() == 0 {
        Seq::empty()
    } else if dashed(args.last()) {
        plain(args.drop_last())
    } else {
        plain(args.drop_last()).push(args.last())
    }
}

/// The positional arguments of a command: before `--` those that do not
/// begin with a dash, and everything after it.
pub open spec fn positional(args: Seq<Seq<char>>) -> Seq<Seq<char>> {
    let sep = position(args, end_of_options(), 0);
    plain(args.take(sep)) + after(args, sep)
}

/// The arguments behind the one at `at`; none where `at` is no index.
pub open spec fn after(args: Seq<Seq<char>>, at: int) -> Seq<Seq<char>> {
    if 0 <= at < args.len() {
        args.skip(at + 1)
    } else {
        Seq::empty()
    }
}

/// `position` gives the first place of `x` from `from` on, or the length
/// where there is none.
pub proof fn lemma_position(args: Seq<Seq<char>>, x: Seq<char>, from: int)
    requires
        0 <= from <= args.len(),
    ensures
        from <= position(args, x, from) <= args.len(),
        position(args, x, from) < args.len() ==> args[position(args, x, from)] == x,
        forall|k: int| from <= k < position(args, x, from) ==> args[k] != x,
    decreases args.len() - from,
{
    if from < args.len() && args[from] != x {
        lemma_position(args, x, from + 1);
    }
}

/// Whether `s` begins with a dash.
pub fn begins_with_dash(s: &str) -> (r: bool)
    ensures
        r == dashed(s@),
{
    let chars = chars_of(s);
    chars.len() > 0 && chars[0] == '-'
}

/// Finds where `x` first stands in `args`.
pub fn find_arg(args: &Vec<String>, x: &str) -> (r: usize)
    ensures
        r == position(texts(args@), x@, 0),
        r <= args@.len(),
{
    let ghost all = texts(args@);
    let mut i: usize = 0;
    while i < args.len()
        invariant
            i <= args@.len(),
            all == texts(args@),
            position(all, x@, 0) == position(all, x@, i as int),
        decreases args@.len() - i,
    {
        assert(all[i as int] == args@[i as int]@);
        if str_eq(args[i].as_str(), x) {
            return i;
        }
        i = i + 1;
    }
    args.len()
}

impl ParsedGitInvocation {
    /// Whether `flag` stands among the arguments of the command.
    pub fn has_command_flag(&self, flag: &str) -> (r: bool)
        ensures
            r == texts(self.command_args@).contains(flag@),
    {
        let at = find_arg(&self.command_args, flag);
        proof {
            lemma_position(texts(self.command_args@), flag@, 0);
            if texts(self.command_args@).contains(flag@) {
                let k = choose|k: int|
                    0 <= k < texts(self.command_args@).len() && texts(self.command_args@)[k]
                        == flag@;
            }
        }
        at < self.command_args.len()
    }

    /// The positional arguments of the command.
    pub fn positional_args(&self) -> (r: Vec<String>)
        ensures
            texts(r@) == positional(texts(self.command_args@)),
    {
        let ghost all = texts(self.command_args@);
        let sep = find_arg(&self.command_args, "--");
        let mut out: Vec<String> = Vec::new();
        let mut i: usize = 0;
        assert(texts(out@) =~= Seq::<Seq<char>>::empty());
        while i < sep
            invariant
                i <= sep <= self.command_args@.len(),
                all == texts(self.command_args@),
                texts(out@) == plain(all.take(sep as int).take(i as int)),
            decreases sep - i,
        {
            proof {
                assert(all.take(sep as int).take(i + 1).drop_last() =~= all.take(sep as int).take(
                    i as int,
                ));
                assert(all.take(sep as int).take(i + 1).last() == self.command_args@[i as int]@);
            }
            if !begins_with_dash(self.command_args[i].as_str()) {
                let ghost before = out@;
                out.push(self.command_args[i].clone());
                assert(texts(out@) =~= texts(before).push(self.command_args@[i as int]@));
            }
            i = i + 1;
        }
        assert(all.take(sep as int).take(sep as int) =~= all.take(sep as int));
        let ghost head = texts(out@);
        let mut j: usize = if sep < self.command_args.len() {
            sep + 1
        } else {
            sep
        };
        let ghost tail = after(all, sep as int);
        assert(tail.take(0) =~= Seq::<Seq<char>>::empty());
        let start: usize = j;
        while j < self.command_args.len()
            invariant
                start <= j <= self.command_args@.len(),
                start == if sep < self.command_args@.len() {
                    sep + 1
                } else {
                    sep as int
                },
                all == texts(self.command_args@),
                tail == after(all, sep as int),
                sep <= self.command_args@.len(),
                texts(out@) == head + tail.take(j - start),
            decreases self.command_args@.len() - j,
        {
            let ghost before = out@;
            out.push(self.command_args[j].clone());
            assert(texts(out@) =~= texts(before).push(self.command_args@[j as int]@));
            assert(tail.take(j - start + 1) =~= tail.take(j - start).push(
                self.command_args@[j as int]@,
            ));
            j = j + 1;
        }
        assert(tail.take(self.command_args@.len() - start) =~= tail);
        out
    }

    /// The positional argument at `n`, counted from 0.
    pub fn pos_command(&self, n: usize) -> (r: Option<String>)
        ensures
            match r {
                Some(arg) => n < positional(texts(self.command_args@)).len() && arg@
                    == positional(texts(self.command_args@))[n as int],
                None => n >= positional(texts(self.command_args@)).len(),
            },
    {
        let all = self.positional_args();
        if n < all.len() {
            assert(texts(all@)[n as int] == all@[n as int]@);
            Some(all[n].clone())
        } else {
            None
        }
    }

    /// The command line again, as it is handed to git.
    pub fn to_invocation_vec(&self) -> (r: Vec<String>)
        ensures
            texts(r@) == texts(self.global_args@) + (if self.saw_end_of_opts {
                seq![end_of_options()]
            } else {
                Seq::empty()
            }) + (match self.command {
                Some(c) => seq![c@],
                None => Seq::empty(),
            }) + texts(self.command_args@),
    {
        let mut out = clone_strings(&self.global_args);
        if self.saw_end_of_opts {
            out.push("--".to_owned());
        }
        match &self.command {
            Some(c) => {
                out.push(c.clone());
            },
            None => {},
        }
        let ghost head = texts(out@);
        let mut i: usize = 0;
        while i < self.command_args.len()
            invariant
                i <= self.command_args@.len(),
                texts(out@) == head + texts(self.command_args@).take(i as int),
            decreases self.command_args@.len() - i,
        {
            let ghost before = out@;
            out.push(self.command_args[i].clone());
            assert(texts(out@) =~= texts(before).push(self.command_args@[i as int]@));
            assert(texts(self.command_args@).take(i + 1) =~= texts(self.command_args@).take(
                i as int,
            ).push(self.command_args@[i as int]@));
            i = i + 1;
        }
        assert(texts(self.command_args@).take(self.command_args@.len() as int) =~= texts(
            self.command_args@,
        ));
        out
    }
}

/// A command line taken apart, as plain values.
pub struct ParsedView {
    pub global_args: Seq<Seq<char>>,
    pub command: Option<Seq<char>>,
    pub command_args: Seq<Seq<char>>,
    pub saw_end_of_opts: bool,
    pub is_help: bool,
}

impl View for ParsedGitInvocation {
    type V = ParsedView;

    open spec fn view(&self) -> ParsedView {
        ParsedView {
            global_args: texts(self.global_args@),
            command: match self.command {
                Some(c) => Some(c@),
                None => None,
            },
            command_args: texts(self.command_args@),
            saw_end_of_opts: self.saw_end_of_opts,
            is_help: self.is_help,
        }
    }
}

/// An option that asks git about itself and needs no command.
pub open spec fn meta_option(tok: Seq<char>) -> bool {
    tok == "-v"@ || tok == "--version"@ || tok == "-h"@ || tok == "--help"@ || tok
        == "--html-path"@ || tok == "--man-path"@ || tok == "--info-path"@
        || "--exec-path="@.is_prefix_of(tok)
}

/// A global option without a value.
pub open spec fn plain_option(tok: Seq<char>) -> bool {
    tok == "-p"@ || tok == "-P"@ || tok == "--paginate"@ || tok == "--no-pager"@ || tok
        == "--no-replace-objects"@ || tok == "--no-lazy-fetch"@ || tok == "--no-optional-locks"@
        || tok == "--no-advice"@ || tok == "--bare"@ || tok == "--literal-pathspecs"@ || tok
        == "--glob-pathspecs"@ || tok == "--noglob-pathspecs"@ || tok == "--icase-pathspecs"@
}

/// A global option whose value is the next argument.
pub open spec fn value_option(tok: Seq<char>) -> bool {
    tok == "-C"@ || tok == "-c"@ || tok == "--git-dir"@ || tok == "--work-tree"@ || tok
        == "--namespace"@ || tok == "--super-prefix"@ || tok == "--config-env"@ || tok
        == "--list-cmds"@ || tok == "--attr-source"@
}

/// A global option together with its value: a long option with an equals
/// sign, or `-c` or `-C` with the value right behind it.
pub open spec fn joined_option(tok: Seq<char>) -> bool {
    "--git-dir="@.is_prefix_of(tok) || "--work-tree="@.is_prefix_of(tok) || "--namespace="@.is_prefix_of(
        tok,
    ) || "--super-prefix="@.is_prefix_of(tok) || "--config-env="@.is_prefix_of(tok)
        || "--list-cmds="@.is_prefix_of(tok) || "--attr-source="@.is_prefix_of(tok) || (tok.len()
        > 2 && tok[0] == '-' && (tok[1] == 'c' || tok[1] == 'C'))
}

/// Whether a command line asks for help: by the command `help`, or by `-h`
/// or `--help` among the arguments of the command.
pub open spec fn asks_help(command: Option<Seq<char>>, command_args: Seq<Seq<char>>) -> bool {
    command == Some("help"@) || command_args.contains("-h"@) || command_args.contains("--help"@)
}

/// The command line at the end of its global options. The argument at `i`,
/// where there is one, is the command, and what follows it belongs to the
/// command; the options that need no command are dropped. Without a command
/// these options are what the command line holds.
pub open spec fn finished(
    args: Seq<Seq<char>>,
    i: int,
    globals: Seq<Seq<char>>,
    meta: Seq<Seq<char>>,
    saw_end_of_opts: bool,
) -> ParsedView {
    if 0 <= i < args.len() {
        ParsedView {
            global_args: globals,
            command: Some(args[i]),
            command_args: args.skip(i + 1),
            saw_end_of_opts,
            is_help: asks_help(Some(args[i]), args.skip(i + 1)),
        }
    } else {
        ParsedView {
            global_args: globals,
            command: None,
            command_args: meta,
            saw_end_of_opts,
            is_help: asks_help(None, meta),
        }
    }
}

/// A command line that cannot be taken apart: everything is handed on as it
/// is.
pub open spec fn passed_through(args: Seq<Seq<char>>) -> ParsedView {
    ParsedView {
        global_args: Seq::empty(),
        command: None,
        command_args: args,
        saw_end_of_opts: false,
        is_help: asks_help(None, args),
    }
}

/// The command line read from the argument at `i` on, given the global
/// options and the options that need no command read so far. The global
/// options end at `--`, which is skipped, or at the first argument without a
/// dash. An option that git does not know before the command makes the whole
/// command line pass through.
pub open spec fn parsed_from(
    args: Seq<Seq<char>>,
    i: int,
    globals: Seq<Seq<char>>,
    meta: Seq<Seq<char>>,
) -> ParsedView
    decreases args.len() + 1 - i,
{
    if i < 0 || i >= args.len() {
        finished(args, i, globals, meta, false)
    } else if args[i] == end_of_options() {
        finished(args, i + 1, globals, meta, true)
    } else if !dashed(args[i]) {
        finished(args, i, globals, meta, false)
    } else if meta_option(args[i]) {
        parsed_from(args, i + 1, globals, meta.push(args[i]))
    } else if args[i] == "--exec-path"@ {
        if i + 1 < args.len() && !dashed(args[i + 1]) {
            parsed_from(args, i + 2, globals, meta.push(args[i]).push(args[i + 1]))
        } else {
            parsed_from(args, i + 1, globals, meta.push(args[i]))
        }
    } else if plain_option(args[i]) || joined_option(args[i]) {
        parsed_from(args, i + 1, globals.push(args[i]), meta)
    } else if value_option(args[i]) {
        if i + 1 < args.len() {
            parsed_from(args, i + 2, globals.push(args[i]).push(args[i + 1]), meta)
        } else {
            parsed_from(args, i + 1, globals.push(args[i]), meta)
        }
    } else {
        passed_through(args)
    }
}

fn is_meta_option(tok: &str) -> (r: bool)
    ensures
        r == meta_option(tok@),
{
    str_eq(tok, "-v") || str_eq(tok, "--version") || str_eq(tok, "-h") || str_eq(tok, "--help")
        || str_eq(tok, "--html-path") || str_eq(tok, "--man-path") || str_eq(tok, "--info-path")
        || str_starts_with(tok, "--exec-path=")
}

fn is_plain_option(tok: &str) -> (r: bool)
    ensures
        r == plain_option(tok@),
{
    str_eq(tok, "-p") || str_eq(tok, "-P") || str_eq(tok, "--paginate") || str_eq(
        tok,
        "--no-pager",
    ) || str_eq(tok, "--no-replace-objects") || str_eq(tok, "--no-lazy-fetch") || str_eq(
        tok,
        "--no-optional-locks",
    ) || str_eq(tok, "--no-advice") || str_eq(tok, "--bare") || str_eq(tok, "--literal-pathspecs")
        || str_eq(tok, "--glob-pathspecs") || str_eq(tok, "--noglob-pathspecs") || str_eq(
        tok,
        "--icase-pathspecs",
    )
}

fn is_value_option(tok: &str) -> (r: bool)
    ensures
        r == value_option(tok@),
{
    str_eq(tok, "-C") || str_eq(tok, "-c") || str_eq(tok, "--git-dir") || str_eq(
        tok,
        "--work-tree",
    ) || str_eq(tok, "--namespace") || str_eq(tok, "--super-prefix") || str_eq(
        tok,
        "--config-env",
    ) || str_eq(tok, "--list-cmds") || str_eq(tok, "--attr-source")
}

fn is_joined_option(tok: &str) -> (r: bool)
    ensures
        r == joined_option(tok@),
{
    if str_starts_with(tok, "--git-dir=") || str_starts_with(tok, "--work-tree=")
        || str_starts_with(tok, "--namespace=") || str_starts_with(tok, "--super-prefix=")
        || str_starts_with(tok, "--config-env=") || str_starts_with(tok, "--list-cmds=")
        || str_starts_with(tok, "--attr-source=") {
        return true;
    }
    let chars = chars_of(tok);
    chars.len() > 2 && chars[0] == '-' && (chars[1] == 'c' || chars[1] == 'C')
}

fn help_asked(command: &Option<String>, command_args: &Vec<String>) -> (r: bool)
    ensures
        r == asks_help(
            match *command {
                Some(c) => Some(c@),
                None => None,
            },
            texts(command_args@),
        ),
{
    let by_command: bool = match command {
        Some(c) => str_eq(c.as_str(), "help"),
        None => false,
    };
    by_command || crate::text::holds_str(command_args, "-h")
        || crate::text::holds_str(command_args, "--help")
}

fn copy_from(args: &Vec<String>, from: usize) -> (r: Vec<String>)
    requires
        from <= args@.len(),
    ensures
        texts(r@) == texts(args@).skip(from as int),
{
    let mut out: Vec<String> = Vec::new();
    let mut i: usize = from;
    assert(texts(out@) =~= texts(args@).skip(from as int).take(0));
    while i < args.len()
        invariant
            from <= i <= args@.len(),
            texts(out@) == texts(args@).skip(from as int).take(i - from),
        decreases args@.len() - i,
    {
        let ghost before = out@;
        out.push(args[i].clone());
        assert(texts(out@) =~= texts(before).push(args@[i as int]@));
        assert(texts(args@).skip(from as int).take(i - from + 1) =~= texts(args@).skip(
            from as int,
        ).take(i - from).push(args@[i as int]@));
        i = i + 1;
    }
    assert(texts(args@).skip(from as int).take(args@.len() - from) =~= texts(args@).skip(
        from as int,
    ));
    out
}

/// Takes a git command line apart: the global options, the command, and the
/// arguments of the command.
pub fn parse_git_cli_args(args: &Vec<String>) -> (r: ParsedGitInvocation)
    ensures
        r@ == parsed_from(texts(args@), 0, Seq::empty(), Seq::empty()),
{
    let ghost all = texts(args@);
    let mut globals: Vec<String> = Vec::new();
    let mut meta: Vec<String> = Vec::new();
    let mut saw_end_of_opts: bool = false;
    let mut i: usize = 0;
    assert(texts(globals@) =~= Seq::<Seq<char>>::empty());
    assert(texts(meta@) =~= Seq::<Seq<char>>::empty());
    loop
        invariant_except_break
            !saw_end_of_opts,
            parsed_from(all, 0, Seq::empty(), Seq::empty()) == parsed_from(
                all,
                i as int,
                texts(globals@),
                texts(meta@),
            ),
        invariant
            i <= args@.len(),
            all == texts(args@),
        ensures
            i <= args@.len(),
            parsed_from(all, 0, Seq::empty(), Seq::empty()) == finished(
                all,
                i as int,
                texts(globals@),
                texts(meta@),
                saw_end_of_opts,
            ),
        decreases args@.len() - i,
    {
        if i >= args.len() {
            break;
        }
        assert(all[i as int] == args@[i as int]@);
        let tok = args[i].as_str();
        if str_eq(tok, "--") {
            saw_end_of_opts = true;
            i = i + 1;
            break;
        }
        if !begins_with_dash(tok) {
            break;
        }
        let ghost g = texts(globals@);
        let ghost m = texts(meta@);
        if is_meta_option(tok) {
            meta.push(args[i].clone());
            assert(texts(meta@) =~= m.push(all[i as int]));
            i = i + 1;
        } else if str_eq(tok, "--exec-path") {
            meta.push(args[i].clone());
            assert(texts(meta@) =~= m.push(all[i as int]));
            if i + 1 < args.len() && !begins_with_dash(args[i + 1].as_str()) {
                assert(all[i + 1] == args@[i + 1]@);
                let ghost m1 = texts(meta@);
                meta.push(args[i + 1].clone());
                assert(texts(meta@) =~= m1.push(all[i + 1]));
                i = i + 2;
            } else {
                proof {
                    if i + 1 < args@.len() {
                        assert(all[i + 1] == args@[i + 1]@);
                    }
                }
                i = i + 1;
            }
        } else if is_plain_option(tok) || is_joined_option(tok) {
            globals.push(args[i].clone());
            assert(texts(globals@) =~= g.push(all[i as int]));
            i = i + 1;
        } else if is_value_option(tok) {
            globals.push(args[i].clone());
            assert(texts(globals@) =~= g.push(all[i as int]));
            if i + 1 < args.len() {
                assert(all[i + 1] == args@[i + 1]@);
                let ghost g1 = texts(globals@);
                globals.push(args[i + 1].clone());
                assert(texts(globals@) =~= g1.push(all[i + 1]));
                i = i + 2;
            } else {
                i = i + 1;
            }
        } else {
            let command_args = crate::text::clone_strings(args);
            let is_help = help_asked(&None, &command_args);
            let r = ParsedGitInvocation {
                global_args: Vec::new(),
                command: None,
                command_args,
                saw_end_of_opts: false,
                is_help,
            };
            assert(r@.global_args =~= Seq::<Seq<char>>::empty());
            return r;
        }
    }
    if i < args.len() {
        assert(all[i as int] == args@[i as int]@);
        let command = Some(args[i].clone());
        let command_args = copy_from(args, i + 1);
        let is_help = help_asked(&command, &command_args);
        ParsedGitInvocation {
            global_args: globals,
            command,
            command_args,
            saw_end_of_opts,
            is_help,
        }
    } else {
        let is_help = help_asked(&None, &meta);
        ParsedGitInvocation {
            global_args: globals,
            command: None,
            command_args: meta,
            saw_end_of_opts,
            is_help,
        }
    }
}

} // verus!
