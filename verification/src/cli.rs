//! The command line: `gitr [path] [--limit N] [--current] [--foreground] [--help]`.
use vstd::prelude::*;
use crate::text::{chars_of, parse_usize, parse_usize_spec, starts_with_at};

verus! {

/// What to do after reading the command line.
pub enum CliAction {
    /// Print the usage and stop.
    Help,
    /// Open the viewer.
    Run(CliOptions),
}

pub struct CliOptions {
    /// The repository path (default `.`).
    pub path: String,
    /// How many commits to load (default 1000).
    pub limit: usize,
    /// Walk all refs rather than only `HEAD` (default).
    pub all_refs: bool,
    /// Stay attached to the terminal.
    pub foreground: bool,
}

/// The options as text and numbers.
pub struct CliSpec {
    pub path: Seq<char>,
    pub limit: nat,
    pub all_refs: bool,
    pub foreground: bool,
}

pub open spec fn opts_view(o: CliOptions) -> CliSpec {
    CliSpec { path: o.path@, limit: o.limit as nat, all_refs: o.all_refs, foreground: o.foreground }
}

pub open spec fn default_options() -> CliSpec {
    CliSpec { path: seq!['.'], limit: 1000, all_refs: true, foreground: false }
}

pub open spec fn help_word() -> Seq<char> {
    seq!['-', '-', 'h', 'e', 'l', 'p']
}

pub open spec fn short_help_word() -> Seq<char> {
    seq!['-', 'h']
}

pub open spec fn limit_word() -> Seq<char> {
    seq!['-', '-', 'l', 'i', 'm', 'i', 't']
}

pub open spec fn current_word() -> Seq<char> {
    seq!['-', '-', 'c', 'u', 'r', 'r', 'e', 'n', 't']
}

pub open spec fn foreground_word() -> Seq<char> {
    seq!['-', '-', 'f', 'o', 'r', 'e', 'g', 'r', 'o', 'u', 'n', 'd']
}

/// A commit limit as given: the number, or 1000 when it is not one.
pub open spec fn limit_value(v: Seq<char>) -> nat {
    match parse_usize_spec(v) {
        Some(n) => n,
        None => 1000,
    }
}

/// Reading the arguments left to right from `acc`: `None` means help was
/// asked for; `--limit` takes the next argument as its value, `--current`
/// walks only `HEAD`, `--foreground` stays attached, and any other argument
/// is the path.
pub open spec fn read_args(args: Seq<Seq<char>>, acc: CliSpec) -> Option<CliSpec>
    decreases args.len(),
{
    if args.len() == 0 {
        Some(acc)
    } else {
        let a = args[0];
        if a == help_word() || a == short_help_word() {
            None
        } else if a == limit_word() {
            if args.len() > 1 {
                read_args(
                    args.skip(2),
                    CliSpec {
                        path: acc.path,
                        limit: limit_value(args[1]),
                        all_refs: acc.all_refs,
                        foreground: acc.foreground,
                    },
                )
            } else {
                Some(acc)
            }
        } else if a == current_word() {
            read_args(
                args.skip(1),
                CliSpec { path: acc.path, limit: acc.limit, all_refs: false, foreground: acc.foreground },
            )
        } else if a == foreground_word() {
            read_args(
                args.skip(1),
                CliSpec { path: acc.path, limit: acc.limit, all_refs: acc.all_refs, foreground: true },
            )
        } else {
            read_args(
                args.skip(1),
                CliSpec { path: a, limit: acc.limit, all_refs: acc.all_refs, foreground: acc.foreground },
            )
        }
    }
}

/// Reading `a` from its start ends on a `--limit` still waiting for its
/// value.
pub open spec fn awaits_limit_value(a: Seq<Seq<char>>) -> bool
    decreases a.len(),
{
    if a.len() == 0 {
        false
    } else if a[0] == limit_word() {
        if a.len() == 1 {
            true
        } else {
            awaits_limit_value(a.skip(2))
        }
    } else {
        awaits_limit_value(a.skip(1))
    }
}

/// The same reading, with `foreground` set.
pub open spec fn with_foreground(r: Option<CliSpec>) -> Option<CliSpec> {
    match r {
        Some(s) => Some(CliSpec { path: s.path, limit: s.limit, all_refs: s.all_refs, foreground: true }),
        None => None,
    }
}

proof fn lemma_foreground_carried(b: Seq<Seq<char>>, acc: CliSpec)
    ensures
        read_args(b, CliSpec { path: acc.path, limit: acc.limit, all_refs: acc.all_refs, foreground: true })
            == with_foreground(read_args(b, acc)),
    decreases b.len(),
{
    if b.len() > 0 {
        let a = b[0];
        if a == help_word() || a == short_help_word() {
        } else if a == limit_word() {
            if b.len() > 1 {
                lemma_foreground_carried(
                    b.skip(2),
                    CliSpec { path: acc.path, limit: limit_value(b[1]), all_refs: acc.all_refs, foreground: acc.foreground },
                );
            }
        } else if a == current_word() {
            lemma_foreground_carried(
                b.skip(1),
                CliSpec { path: acc.path, limit: acc.limit, all_refs: false, foreground: acc.foreground },
            );
        } else if a == foreground_word() {
            lemma_foreground_carried(
                b.skip(1),
                CliSpec { path: acc.path, limit: acc.limit, all_refs: acc.all_refs, foreground: true },
            );
        } else {
            lemma_foreground_carried(
                b.skip(1),
                CliSpec { path: a, limit: acc.limit, all_refs: acc.all_refs, foreground: acc.foreground },
            );
        }
    }
}

/// `--foreground` consumes only itself: put between two arguments (not as
/// the value of a `--limit`), it leaves the reading of every other argument
/// as it was and only sets `foreground`. In particular an argument right
/// after it that is not an option is the path.
pub proof fn law_foreground_consumes_only_itself(a: Seq<Seq<char>>, b: Seq<Seq<char>>, acc: CliSpec)
    requires
        !awaits_limit_value(a),
    ensures
        read_args(a + seq![foreground_word()] + b, acc) == with_foreground(read_args(a + b, acc)),
    decreases a.len(),
{
    let fg = foreground_word();
    let whole = a + seq![fg] + b;
    if a.len() == 0 {
        assert(whole == seq![fg] + b);
        assert(a + b == b);
        assert(whole[0] == fg);
        assert(whole.skip(1) == b);
        assert(fg.len() == 12);
        assert(fg != help_word() && fg != short_help_word() && fg != limit_word() && fg != current_word()) by {
            assert(help_word().len() == 6);
            assert(short_help_word().len() == 2);
            assert(limit_word().len() == 7);
            assert(current_word().len() == 9);
        }
        lemma_foreground_carried(b, acc);
    } else {
        let x = a[0];
        assert(whole[0] == x);
        assert((a + b)[0] == x);
        if x == help_word() || x == short_help_word() {
        } else if x == limit_word() {
            assert(a.len() > 1);
            assert(whole[1] == a[1]);
            assert((a + b)[1] == a[1]);
            assert(whole.skip(2) == a.skip(2) + seq![fg] + b);
            assert((a + b).skip(2) == a.skip(2) + b);
            law_foreground_consumes_only_itself(
                a.skip(2),
                b,
                CliSpec { path: acc.path, limit: limit_value(a[1]), all_refs: acc.all_refs, foreground: acc.foreground },
            );
        } else {
            assert(whole.skip(1) == a.skip(1) + seq![fg] + b);
            assert((a + b).skip(1) == a.skip(1) + b);
            if x == current_word() {
                law_foreground_consumes_only_itself(
                    a.skip(1),
                    b,
                    CliSpec { path: acc.path, limit: acc.limit, all_refs: false, foreground: acc.foreground },
                );
            } else if x == foreground_word() {
                law_foreground_consumes_only_itself(
                    a.skip(1),
                    b,
                    CliSpec { path: acc.path, limit: acc.limit, all_refs: acc.all_refs, foreground: true },
                );
            } else {
                law_foreground_consumes_only_itself(
                    a.skip(1),
                    b,
                    CliSpec { path: x, limit: acc.limit, all_refs: acc.all_refs, foreground: acc.foreground },
                );
            }
        }
    }
}

/// The same reading, walking only `HEAD`.
pub open spec fn with_current(r: Option<CliSpec>) -> Option<CliSpec> {
    match r {
        Some(s) => Some(CliSpec { path: s.path, limit: s.limit, all_refs: false, foreground: s.foreground }),
        None => None,
    }
}

proof fn lemma_current_carried(b: Seq<Seq<char>>, acc: CliSpec)
    ensures
        read_args(b, CliSpec { path: acc.path, limit: acc.limit, all_refs: false, foreground: acc.foreground })
            == with_current(read_args(b, acc)),
    decreases b.len(),
{
    if b.len() > 0 {
        let a = b[0];
        if a == help_word() || a == short_help_word() {
        } else if a == limit_word() {
            if b.len() > 1 {
                lemma_current_carried(
                    b.skip(2),
                    CliSpec { path: acc.path, limit: limit_value(b[1]), all_refs: acc.all_refs, foreground: acc.foreground },
                );
            }
        } else if a == current_word() {
            lemma_current_carried(
                b.skip(1),
                CliSpec { path: acc.path, limit: acc.limit, all_refs: false, foreground: acc.foreground },
            );
        } else if a == foreground_word() {
            lemma_current_carried(
                b.skip(1),
                CliSpec { path: acc.path, limit: acc.limit, all_refs: acc.all_refs, foreground: true },
            );
        } else {
            lemma_current_carried(
                b.skip(1),
                CliSpec { path: a, limit: acc.limit, all_refs: acc.all_refs, foreground: acc.foreground },
            );
        }
    }
}

/// `--current` consumes only itself: put between two arguments (not as the
/// value of a `--limit`), it leaves the reading of every other argument as
/// it was and only restricts the walk to `HEAD`.
pub proof fn law_current_consumes_only_itself(a: Seq<Seq<char>>, b: Seq<Seq<char>>, acc: CliSpec)
    requires
        !awaits_limit_value(a),
    ensures
        read_args(a + seq![current_word()] + b, acc) == with_current(read_args(a + b, acc)),
    decreases a.len(),
{
    let fg = current_word();
    let whole = a + seq![fg] + b;
    if a.len() == 0 {
        assert(whole == seq![fg] + b);
        assert(a + b == b);
        assert(whole[0] == fg);
        assert(whole.skip(1) == b);
        assert(fg.len() == 9);
        assert(fg != help_word() && fg != short_help_word() && fg != limit_word()) by {
            assert(help_word().len() == 6);
            assert(short_help_word().len() == 2);
            assert(limit_word().len() == 7);
        }
        lemma_current_carried(b, acc);
    } else {
        let x = a[0];
        assert(whole[0] == x);
        assert((a + b)[0] == x);
        if x == help_word() || x == short_help_word() {
        } else if x == limit_word() {
            assert(a.len() > 1);
            assert(whole[1] == a[1]);
            assert((a + b)[1] == a[1]);
            assert(whole.skip(2) == a.skip(2) + seq![fg] + b);
            assert((a + b).skip(2) == a.skip(2) + b);
            law_current_consumes_only_itself(
                a.skip(2),
                b,
                CliSpec { path: acc.path, limit: limit_value(a[1]), all_refs: acc.all_refs, foreground: acc.foreground },
            );
        } else {
            assert(whole.skip(1) == a.skip(1) + seq![fg] + b);
            assert((a + b).skip(1) == a.skip(1) + b);
            if x == current_word() {
                law_current_consumes_only_itself(
                    a.skip(1),
                    b,
                    CliSpec { path: acc.path, limit: acc.limit, all_refs: false, foreground: acc.foreground },
                );
            } else if x == foreground_word() {
                law_current_consumes_only_itself(
                    a.skip(1),
                    b,
                    CliSpec { path: acc.path, limit: acc.limit, all_refs: acc.all_refs, foreground: true },
                );
            } else {
                law_current_consumes_only_itself(
                    a.skip(1),
                    b,
                    CliSpec { path: x, limit: acc.limit, all_refs: acc.all_refs, foreground: acc.foreground },
                );
            }
        }
    }
}

/// An argument that is none of the options.
pub open spec fn plain_argument(p: Seq<char>) -> bool {
    p != help_word() && p != short_help_word() && p != limit_word() && p != current_word() && p
        != foreground_word()
}

/// Any argument that is not an option, read after complete options, is the
/// repository path: the last such argument wins, and nothing else changes.
pub proof fn law_last_plain_argument_is_path(a: Seq<Seq<char>>, p: Seq<char>, acc: CliSpec)
    requires
        !awaits_limit_value(a),
        plain_argument(p),
    ensures
        read_args(a + seq![p], acc) == match read_args(a, acc) {
            Some(s) => Some(CliSpec { path: p, limit: s.limit, all_refs: s.all_refs, foreground: s.foreground }),
            None => None,
        },
    decreases a.len(),
{
    let whole = a + seq![p];
    if a.len() == 0 {
        assert(whole == seq![p]);
        assert(whole[0] == p);
        assert(whole.skip(1) =~= Seq::<Seq<char>>::empty());
        reveal_with_fuel(read_args, 2);
    } else {
        let x = a[0];
        assert(whole[0] == x);
        if x == help_word() || x == short_help_word() {
        } else if x == limit_word() {
            assert(a.len() > 1);
            assert(whole[1] == a[1]);
            assert(whole.skip(2) == a.skip(2) + seq![p]);
            law_last_plain_argument_is_path(
                a.skip(2),
                p,
                CliSpec { path: acc.path, limit: limit_value(a[1]), all_refs: acc.all_refs, foreground: acc.foreground },
            );
        } else {
            assert(whole.skip(1) == a.skip(1) + seq![p]);
            if x == current_word() {
                law_last_plain_argument_is_path(
                    a.skip(1),
                    p,
                    CliSpec { path: acc.path, limit: acc.limit, all_refs: false, foreground: acc.foreground },
                );
            } else if x == foreground_word() {
                law_last_plain_argument_is_path(
                    a.skip(1),
                    p,
                    CliSpec { path: acc.path, limit: acc.limit, all_refs: acc.all_refs, foreground: true },
                );
            } else {
                law_last_plain_argument_is_path(
                    a.skip(1),
                    p,
                    CliSpec { path: x, limit: acc.limit, all_refs: acc.all_refs, foreground: acc.foreground },
                );
            }
        }
    }
}

/// `--limit v` read after complete options sets the limit to the number
/// `v` gives (1000 when `v` is not a number), whatever `v` looks like, and
/// nothing else.
pub proof fn law_limit_takes_next_argument(a: Seq<Seq<char>>, v: Seq<char>, acc: CliSpec)
    requires
        !awaits_limit_value(a),
    ensures
        read_args(a + seq![limit_word(), v], acc) == match read_args(a, acc) {
            Some(s) => Some(CliSpec { path: s.path, limit: limit_value(v), all_refs: s.all_refs, foreground: s.foreground }),
            None => None,
        },
    decreases a.len(),
{
    let whole = a + seq![limit_word(), v];
    if a.len() == 0 {
        assert(whole == seq![limit_word(), v]);
        assert(whole[0] == limit_word() && whole[1] == v);
        assert(whole.skip(2) =~= Seq::<Seq<char>>::empty());
        reveal_with_fuel(read_args, 2);
        assert(limit_word() != help_word() && limit_word() != short_help_word()) by {
            assert(help_word().len() == 6);
            assert(short_help_word().len() == 2);
        }
    } else {
        let x = a[0];
        assert(whole[0] == x);
        if x == help_word() || x == short_help_word() {
        } else if x == limit_word() {
            assert(a.len() > 1);
            assert(whole[1] == a[1]);
            assert(whole.skip(2) == a.skip(2) + seq![limit_word(), v]);
            law_limit_takes_next_argument(
                a.skip(2),
                v,
                CliSpec { path: acc.path, limit: limit_value(a[1]), all_refs: acc.all_refs, foreground: acc.foreground },
            );
        } else {
            assert(whole.skip(1) == a.skip(1) + seq![limit_word(), v]);
            if x == current_word() {
                law_limit_takes_next_argument(
                    a.skip(1),
                    v,
                    CliSpec { path: acc.path, limit: acc.limit, all_refs: false, foreground: acc.foreground },
                );
            } else if x == foreground_word() {
                law_limit_takes_next_argument(
                    a.skip(1),
                    v,
                    CliSpec { path: acc.path, limit: acc.limit, all_refs: acc.all_refs, foreground: true },
                );
            } else {
                law_limit_takes_next_argument(
                    a.skip(1),
                    v,
                    CliSpec { path: x, limit: acc.limit, all_refs: acc.all_refs, foreground: acc.foreground },
                );
            }
        }
    }
}

fn is_word(v: &Vec<char>, w: &[char]) -> (b: bool)
    ensures
        b == (v@ == w@),
{
    if v.len() != w.len() {
        return false;
    }
    let r = starts_with_at(v, 0, v.len(), w);
    assert(v@.subrange(0, v@.len() as int) == v@);
    assert(r ==> v@.take(w@.len() as int) == v@);
    r
}

/// The number a `--limit` value gives, or 1000.
pub fn limit_or_default(v: &String) -> (n: usize)
    ensures
        n as nat == limit_value(v@),
{
    let c = chars_of(v.as_str());
    assert(c@.subrange(0, c@.len() as int) == c@);
    match parse_usize(&c, 0, c.len()) {
        Some(n) => n,
        None => 1000,
    }
}

/// A commit limit typed in the viewer: the number, or `None` when the text
/// is not one.
pub fn parse_limit(text: &String) -> (n: Option<usize>)
    ensures
        match n {
            Some(x) => parse_usize_spec(text@) == Some(x as nat),
            None => parse_usize_spec(text@) is None,
        },
{
    let c = chars_of(text.as_str());
    assert(c@.subrange(0, c@.len() as int) == c@);
    parse_usize(&c, 0, c.len())
}

/// What the command line asks for.
pub fn parse_args(args: &Vec<String>) -> (r: CliAction)
    ensures
        match r {
            CliAction::Help => read_args(args@.map_values(|s: String| s@), default_options()) is None,
            CliAction::Run(o) => read_args(args@.map_values(|s: String| s@), default_options())
                == Some(opts_view(o)),
        },
{
    let ghost all = args@.map_values(|s: String| s@);
    let help = ['-', '-', 'h', 'e', 'l', 'p'];
    let short_help = ['-', 'h'];
    let limit_w = ['-', '-', 'l', 'i', 'm', 'i', 't'];
    let current = ['-', '-', 'c', 'u', 'r', 'r', 'e', 'n', 't'];
    let foreground_w = ['-', '-', 'f', 'o', 'r', 'e', 'g', 'r', 'o', 'u', 'n', 'd'];
    assert(help@ == help_word());
    assert(short_help@ == short_help_word());
    assert(limit_w@ == limit_word());
    assert(current@ == current_word());
    assert(foreground_w@ == foreground_word());
    let mut opts = CliOptions { path: ".".to_owned(), limit: 1000, all_refs: true, foreground: false };
    proof {
        reveal_strlit(".");
        assert(opts.path@ =~= seq!['.']);
    }
    let mut i: usize = 0;
    assert(all.skip(0) == all);
    while i < args.len()
        invariant
            0 <= i <= args@.len(),
            all == args@.map_values(|s: String| s@),
            help@ == help_word(),
            short_help@ == short_help_word(),
            limit_w@ == limit_word(),
            current@ == current_word(),
            foreground_w@ == foreground_word(),
            read_args(all, default_options()) == read_args(all.skip(i as int), opts_view(opts)),
        decreases args@.len() - i,
    {
        let a = chars_of(args[i].as_str());
        let ghost rest = all.skip(i as int);
        assert(rest[0] == a@);
        assert(rest.skip(1) == all.skip(i + 1));
        if is_word(&a, &help) || is_word(&a, &short_help) {
            return CliAction::Help;
        } else if is_word(&a, &limit_w) {
            if i + 1 < args.len() {
                opts.limit = limit_or_default(&args[i + 1]);
                assert(rest[1] == args@[i + 1]@);
                assert(rest.skip(2) == all.skip(i + 2));
                i = i + 2;
            } else {
                return CliAction::Run(opts);
            }
        } else if is_word(&a, &current) {
            opts.all_refs = false;
            i = i + 1;
        } else if is_word(&a, &foreground_w) {
            opts.foreground = true;
            i = i + 1;
        } else {
            opts.path = args[i].clone();
            i = i + 1;
        }
    }
    assert(all.skip(i as int).len() == 0);
    CliAction::Run(opts)
}

} // verus!
