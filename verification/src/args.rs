//! The command line of the daemon.

use vstd::prelude::*;

verus! {

/// What the command line asks for.
#[derive(Debug, Clone, PartialEq, Eq)]
pub struct Args {
    /// Stay in the foreground.
    pub foreground: bool,
    /// The path of the socket.
    pub socket: Option<String>,
    /// Arguments that mean nothing, to be warned about.
    pub unknown: Vec<String>,
}

/// What an [`Args`] holds.
pub struct ArgsView {
    pub foreground: bool,
    pub socket: Option<Seq<char>>,
    pub unknown: Seq<Seq<char>>,
}

/// The texts of strings.
pub open spec fn texts(list: Seq<String>) -> Seq<Seq<char>> {
    list.map_values(|s: String| s@)
}

impl View for Args {
    type V = ArgsView;

    open spec fn view(&self) -> ArgsView {
        ArgsView {
            foreground: self.foreground,
            socket: match self.socket {
                Some(path) => Some(path@),
                None => None,
            },
            unknown: texts(self.unknown@),
        }
    }
}

/// The arguments from the `i`-th on, after those that gave `so_far`. A
/// `--socket` takes the argument behind it, whatever that is; the last one
/// counts, and one with nothing behind it takes the path away.
pub open spec fn parsed(args: Seq<Seq<char>>, i: int, so_far: ArgsView) -> ArgsView
    decreases args.len() - i,
{
    if i < 0 || i >= args.len() {
        so_far
    } else if args[i] == "--foreground"@ || args[i] == "-f"@ {
        parsed(args, i + 1, ArgsView { foreground: true, ..so_far })
    } else if args[i] == "--socket"@ {
        if i + 1 < args.len() {
            parsed(args, i + 2, ArgsView { socket: Some(args[i + 1]), ..so_far })
        } else {
            ArgsView { socket: None, ..so_far }
        }
    } else {
        parsed(args, i + 1, ArgsView { unknown: so_far.unknown.push(args[i]), ..so_far })
    }
}

/// Nothing has been asked for.
pub open spec fn no_args() -> ArgsView {
    ArgsView { foreground: false, socket: None, unknown: Seq::empty() }
}

/// Parses the command line, without the name of the program.
pub fn parse_args(list: &Vec<String>) -> (args: Args)
    ensures
        args@ == parsed(texts(list@), 0, no_args()),
{
    let foreground = "--foreground".to_owned();
    let short = "-f".to_owned();
    let socket = "--socket".to_owned();
    let ghost all = texts(list@);
    let mut args = Args { foreground: false, socket: None, unknown: Vec::new() };
    assert(args@.unknown =~= no_args().unknown);
    let mut i: usize = 0;
    while i < list.len()
        invariant
            i <= list@.len(),
            all == texts(list@),
            foreground@ == "--foreground"@,
            short@ == "-f"@,
            socket@ == "--socket"@,
            parsed(all, i as int, args@) == parsed(all, 0, no_args()),
        decreases list@.len() - i,
    {
        let arg = &list[i];
        let ghost before = args@;
        assert(all[i as int] == arg@);
        if *arg == foreground || *arg == short {
            args.foreground = true;
            assert(args@.unknown =~= before.unknown);
            i = i + 1;
        } else if *arg == socket {
            if i + 1 < list.len() {
                args.socket = Some(list[i + 1].clone());
                assert(all[i + 1] == list@[i + 1]@);
                i = i + 2;
            } else {
                args.socket = None;
                i = i + 1;
            }
            assert(args@.unknown =~= before.unknown);
        } else {
            args.unknown.push(arg.clone());
            assert(args@.unknown =~= before.unknown.push(arg@));
            i = i + 1;
        }
    }
    args
}

// ---------------------------------------------------------------------
// What holds of it
// ---------------------------------------------------------------------
/// The command line as a whole.
pub open spec fn parsed_all(args: Seq<Seq<char>>) -> ArgsView {
    parsed(args, 0, no_args())
}

/// What was parsed before an argument is kept, and only the last path counts.
proof fn lemma_parsed_from(args: Seq<Seq<char>>, i: int, so_far: ArgsView)
    requires
        0 <= i <= args.len(),
    ensures
        ({
            let r = parsed(args, i, so_far);
            let rest = parsed_all(args.skip(i));
            &&& r.foreground == (so_far.foreground || rest.foreground)
            &&& r.unknown == so_far.unknown + rest.unknown
            &&& rest.socket is Some ==> r.socket == rest.socket
            &&& !args.skip(i).contains("--socket"@) ==> r.socket == so_far.socket
        }),
    decreases args.len() - i,
{
    let rest = args.skip(i);
    lemma_parsed_shift(args, i, 0, no_args());
    if i == args.len() {
        assert(rest.len() == 0);
        assert(so_far.unknown + Seq::<Seq<char>>::empty() =~= so_far.unknown);
    } else {
        let first = args[i];
        assert(rest[0] == first);
        if first == "--foreground"@ || first == "-f"@ {
            reveal_strlit("--foreground");
            reveal_strlit("-f");
            reveal_strlit("--socket");
            assert("--foreground"@.len() == 12 && "-f"@.len() == 2 && "--socket"@.len() == 8);
            lemma_parsed_from(args, i + 1, ArgsView { foreground: true, ..so_far });
            lemma_parsed_from(args, i + 1, ArgsView { foreground: true, ..no_args() });
            lemma_same_socket(args, i + 1, ArgsView { foreground: true, ..no_args() }, no_args());
            lemma_parsed_shift(args, i + 1, 0, no_args());
            lemma_contains_skip(args, i);
            assert(no_args().unknown + parsed_all(args.skip(i + 1)).unknown =~= parsed_all(
                args.skip(i + 1),
            ).unknown);
        } else if first == "--socket"@ {
            assert(rest.contains("--socket"@)) by {
                assert(rest[0] == "--socket"@);
            }
            if i + 1 < args.len() {
                lemma_parsed_from(args, i + 2, ArgsView { socket: Some(args[i + 1]), ..so_far });
                lemma_parsed_from(args, i + 2, ArgsView { socket: Some(args[i + 1]), ..no_args() });
                assert(no_args().unknown + parsed_all(args.skip(i + 2)).unknown =~= parsed_all(
                    args.skip(i + 2),
                ).unknown);
                lemma_same_socket(
                    args,
                    i + 2,
                    ArgsView { socket: Some(args[i + 1]), ..so_far },
                    ArgsView { socket: Some(args[i + 1]), ..no_args() },
                );
            } else {
                assert(so_far.unknown + Seq::<Seq<char>>::empty() =~= so_far.unknown);
            }
        } else {
            let more = ArgsView { unknown: so_far.unknown.push(first), ..so_far };
            let one = ArgsView { unknown: no_args().unknown.push(first), ..no_args() };
            lemma_parsed_from(args, i + 1, more);
            lemma_parsed_from(args, i + 1, one);
            lemma_same_socket(args, i + 1, one, no_args());
            lemma_parsed_shift(args, i + 1, 0, no_args());
            lemma_contains_skip(args, i);
            let tail = parsed_all(args.skip(i + 1)).unknown;
            assert(more.unknown + tail =~= so_far.unknown + (one.unknown + tail));
        }
    }
}

proof fn lemma_contains_skip(args: Seq<Seq<char>>, i: int)
    requires
        0 <= i < args.len(),
    ensures
        args.skip(i + 1).contains("--socket"@) ==> args.skip(i).contains("--socket"@),
{
    if args.skip(i + 1).contains("--socket"@) {
        let tail = args.skip(i + 1);
        let k = choose|k: int| 0 <= k < tail.len() && tail[k] == "--socket"@;
        assert(args.skip(i)[k + 1] == "--socket"@);
    }
}

/// It does not matter what stands before the arguments that are parsed.
proof fn lemma_parsed_shift(args: Seq<Seq<char>>, n: int, i: int, so_far: ArgsView)
    requires
        0 <= n <= args.len(),
        0 <= i,
    ensures
        parsed(args.skip(n), i, so_far) == parsed(args, n + i, so_far),
    decreases args.len() - n - i,
{
    let rest = args.skip(n);
    if i < rest.len() {
        assert(rest[i] == args[n + i]);
        if args[n + i] == "--foreground"@ || args[n + i] == "-f"@ {
            lemma_parsed_shift(args, n, i + 1, ArgsView { foreground: true, ..so_far });
        } else if args[n + i] == "--socket"@ {
            if i + 1 < rest.len() {
                assert(rest[i + 1] == args[n + i + 1]);
                lemma_parsed_shift(args, n, i + 2, ArgsView { socket: Some(rest[i + 1]), ..so_far });
            }
        } else {
            lemma_parsed_shift(
                args,
                n,
                i + 1,
                ArgsView { unknown: so_far.unknown.push(rest[i]), ..so_far },
            );
        }
    }
}

/// Nothing is asked for without arguments.
pub proof fn law_no_arguments_ask_for_nothing(args: Seq<Seq<char>>)
    requires
        args.len() == 0,
    ensures
        !parsed_all(args).foreground,
        parsed_all(args).socket is None,
        parsed_all(args).unknown.len() == 0,
{
}

/// `--foreground` and `-f` in front ask for the foreground, and for nothing
/// else.
pub proof fn law_foreground_is_asked_for(flag: Seq<char>, rest: Seq<Seq<char>>)
    requires
        flag == "--foreground"@ || flag == "-f"@,
    ensures
        parsed_all(seq![flag] + rest).foreground,
        parsed_all(seq![flag] + rest).unknown == parsed_all(rest).unknown,
        parsed_all(seq![flag] + rest).socket == parsed_all(rest).socket,
{
    let args = seq![flag] + rest;
    let one = ArgsView { foreground: true, ..no_args() };
    assert(args[0] == flag);
    assert(args.skip(1) =~= rest);
    lemma_parsed_from(args, 1, one);
    lemma_parsed_shift(args, 1, 0, no_args());
    assert(one.unknown + parsed_all(rest).unknown =~= parsed_all(rest).unknown);
    lemma_same_socket(args, 1, one, no_args());
}

/// Only what stands in the path so far matters for the path.
proof fn lemma_same_socket(args: Seq<Seq<char>>, i: int, a: ArgsView, b: ArgsView)
    requires
        a.socket == b.socket,
    ensures
        parsed(args, i, a).socket == parsed(args, i, b).socket,
    decreases args.len() - i,
{
    if 0 <= i < args.len() {
        if args[i] == "--foreground"@ || args[i] == "-f"@ {
            lemma_same_socket(
                args,
                i + 1,
                ArgsView { foreground: true, ..a },
                ArgsView { foreground: true, ..b },
            );
        } else if args[i] == "--socket"@ {
            if i + 1 < args.len() {
                lemma_same_socket(
                    args,
                    i + 2,
                    ArgsView { socket: Some(args[i + 1]), ..a },
                    ArgsView { socket: Some(args[i + 1]), ..b },
                );
            }
        } else {
            lemma_same_socket(
                args,
                i + 1,
                ArgsView { unknown: a.unknown.push(args[i]), ..a },
                ArgsView { unknown: b.unknown.push(args[i]), ..b },
            );
        }
    }
}

/// `--socket` in front takes the argument behind it for the path, whatever
/// that is, unless a later one takes another.
pub proof fn law_socket_takes_the_next_argument(path: Seq<char>, rest: Seq<Seq<char>>)
    ensures
        ({
            let r = parsed_all(seq!["--socket"@, path] + rest);
            &&& r.foreground == parsed_all(rest).foreground
            &&& r.unknown == parsed_all(rest).unknown
            &&& !rest.contains("--socket"@) ==> r.socket == Some(path)
            &&& parsed_all(rest).socket is Some ==> r.socket == parsed_all(rest).socket
        }),
{
    let args = seq!["--socket"@, path] + rest;
    let one = ArgsView { socket: Some(path), ..no_args() };
    reveal_strlit("--foreground");
    reveal_strlit("-f");
    reveal_strlit("--socket");
    assert("--foreground"@.len() == 12 && "-f"@.len() == 2 && "--socket"@.len() == 8);
    assert(args[0] == "--socket"@ && args[1] == path);
    assert(args.skip(2) =~= rest);
    lemma_parsed_from(args, 2, one);
    assert(one.unknown + parsed_all(rest).unknown =~= parsed_all(rest).unknown);
}

/// A `--socket` with nothing behind it names no path.
pub proof fn law_socket_at_the_end_names_no_path(front: Seq<Seq<char>>)
    requires
        !front.contains("--socket"@),
    ensures
        parsed_all(front.push("--socket"@)).socket is None,
    decreases front.len(),
{
    let args = front.push("--socket"@);
    reveal_strlit("--foreground");
    reveal_strlit("-f");
    reveal_strlit("--socket");
    assert("--foreground"@.len() == 12 && "-f"@.len() == 2 && "--socket"@.len() == 8);
    if front.len() > 0 {
        let rest = front.drop_first();
        assert forall|k: int| 0 <= k < rest.len() implies rest[k] != "--socket"@ by {
            assert(front[k + 1] == rest[k]);
        }
        law_socket_at_the_end_names_no_path(rest);
        assert(args.skip(1) =~= rest.push("--socket"@));
        assert(args[0] == front[0]);
        assert(front.contains(front[0]));
        lemma_parsed_shift(args, 1, 0, no_args());
        lemma_same_socket(args, 1, ArgsView { foreground: true, ..no_args() }, no_args());
        lemma_same_socket(
            args,
            1,
            ArgsView { unknown: no_args().unknown.push(args[0]), ..no_args() },
            no_args(),
        );
    } else {
        assert(args[0] == "--socket"@);
    }
}

/// Any other argument in front is warned about, and asks for nothing.
pub proof fn law_other_arguments_are_unknown(arg: Seq<char>, rest: Seq<Seq<char>>)
    requires
        arg != "--foreground"@,
        arg != "-f"@,
        arg != "--socket"@,
    ensures
        parsed_all(seq![arg] + rest).unknown == seq![arg] + parsed_all(rest).unknown,
        parsed_all(seq![arg] + rest).foreground == parsed_all(rest).foreground,
        parsed_all(seq![arg] + rest).socket == parsed_all(rest).socket,
{
    let args = seq![arg] + rest;
    let one = ArgsView { unknown: no_args().unknown.push(arg), ..no_args() };
    assert(args[0] == arg);
    assert(args.skip(1) =~= rest);
    lemma_parsed_from(args, 1, one);
    lemma_parsed_shift(args, 1, 0, no_args());
    assert(one.unknown =~= seq![arg]);
    lemma_same_socket(args, 1, one, no_args());
}

/// Of several `--socket` the last decides, also one with nothing behind it;
/// other arguments behind a path do not change it.
pub proof fn law_last_socket_decides(
    p: Seq<char>,
    q: Seq<char>,
    other: Seq<char>,
    rest: Seq<Seq<char>>,
)
    requires
        other != "--socket"@,
    ensures
        parsed_all(seq!["--socket"@, p, "--socket"@]).socket is None,
        parsed_all(seq!["--socket"@, p, "--socket"@, q] + rest).socket == parsed_all(
            seq!["--socket"@, q] + rest,
        ).socket,
        parsed_all(seq!["--socket"@, p, other] + rest).socket == parsed_all(
            seq!["--socket"@, p] + rest,
        ).socket,
{
    reveal_strlit("--foreground");
    reveal_strlit("-f");
    reveal_strlit("--socket");
    assert("--foreground"@.len() == 12 && "-f"@.len() == 2 && "--socket"@.len() == 8);
    let none = no_args();
    let with_p = ArgsView { socket: Some(p), ..none };
    let with_q = ArgsView { socket: Some(q), ..none };
    // One at the end.
    let ends = seq!["--socket"@, p, "--socket"@];
    assert(ends[0] == "--socket"@ && ends[1] == p && ends[2] == "--socket"@);
    assert(parsed_all(ends) == parsed(ends, 2, with_p));
    reveal_with_fuel(parsed, 2);
    // Two paths.
    let two = seq!["--socket"@, p, "--socket"@, q] + rest;
    let one = seq!["--socket"@, q] + rest;
    assert(two[0] == "--socket"@ && two[1] == p && two[2] == "--socket"@ && two[3] == q);
    assert(one[0] == "--socket"@ && one[1] == q);
    assert(two.skip(2) =~= one);
    assert(parsed_all(two) == parsed(two, 2, with_p));
    assert(parsed(two, 2, with_p) == parsed(two, 4, ArgsView { socket: Some(q), ..with_p }));
    assert(parsed_all(one) == parsed(one, 2, with_q));
    lemma_parsed_shift(two, 2, 2, with_q);
    // Something else behind the path.
    let more = seq!["--socket"@, p, other] + rest;
    let less = seq!["--socket"@, p] + rest;
    assert(more[0] == "--socket"@ && more[1] == p && more[2] == other);
    assert(less[0] == "--socket"@ && less[1] == p);
    assert(more.skip(3) =~= rest && less.skip(2) =~= rest);
    assert(parsed_all(more) == parsed(more, 2, with_p));
    assert(parsed_all(less) == parsed(less, 2, with_p));
    lemma_parsed_shift(more, 3, 0, with_p);
    lemma_parsed_shift(less, 2, 0, with_p);
    lemma_same_socket(more, 3, ArgsView { foreground: true, ..with_p }, with_p);
    lemma_same_socket(
        more,
        3,
        ArgsView { unknown: with_p.unknown.push(other), ..with_p },
        with_p,
    );
}

} // verus!
