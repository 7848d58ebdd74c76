//! Resolving a search configuration from raw command-line arguments.
//!
//! The argument vector is scanned: every token that begins with `-` is a
//! flag, of which only `-i` (ignore case) is recognized; the remaining
//! tokens are positionals. The first positional is the program name, the
//! second is the query, and the last is the file to search. Case folding
//! is also requested when the caller reports that the relevant environment
//! setting is present.

use vstd::prelude::*;

use crate::text::lemma_filter_empty;
use crate::text::lemma_filter_push;

verus! {

/// A resolved search configuration.
#[derive(Debug)]
pub struct Config {
    pub query: String,
    pub file: String,
    pub case_sensitive: bool,
}

/// The error reported when the arguments name no query or no file.
#[derive(Debug)]
pub struct UsageError {
    pub message: String,
}

/// A token the argument scan treats as a flag.
pub open spec fn is_flag(t: Seq<char>) -> bool {
    t.len() > 0 && t[0] == '-'
}

/// The one flag the scan recognizes.
pub open spec fn is_ignore_flag(t: Seq<char>) -> bool {
    t == seq!['-', 'i']
}

/// The predicate that keeps positional tokens.
pub open spec fn positional_pred() -> spec_fn(Seq<char>) -> bool {
    |t: Seq<char>| !is_flag(t)
}

/// The non-flag tokens, in order; the program name is the first of them.
pub open spec fn positionals(args: Seq<Seq<char>>) -> Seq<Seq<char>> {
    args.filter(positional_pred())
}

/// Whether the arguments or the environment ask for case-insensitive
/// search.
pub open spec fn ignore_requested(args: Seq<Seq<char>>, env_ignore_case: bool) -> bool {
    env_ignore_case || exists|k: int| 0 <= k < args.len() && is_ignore_flag(args[k])
}

/// What a successfully resolved configuration holds: the second positional
/// as query, the last as file, and case sensitivity unless it was relaxed.
pub open spec fn resolved(args: Seq<Seq<char>>, env_ignore_case: bool, c: Config) -> bool {
    let pos = positionals(args);
    &&& c.query@ == pos[1]
    &&& c.file@ == pos[pos.len() - 1]
    &&& c.case_sensitive == !ignore_requested(args, env_ignore_case)
}

/// Scan the argument vector (program name first) into a configuration.
/// Fails exactly when fewer than two positionals follow the program name.
pub fn resolve_config(args: &Vec<String>, env_ignore_case: bool) -> (r: Result<
    Config,
    UsageError,
>)
    ensures
        r is Ok <==> positionals(args.deep_view()).len() >= 3,
        r is Ok ==> resolved(args.deep_view(), env_ignore_case, r->Ok_0),
        r is Err ==> r->Err_0.message@ == "not enough arguments"@,
{
    let ghost av = args.deep_view();
    let ghost pred = positional_pred();
    let mut pos: Vec<String> = Vec::new();
    let mut ignore = env_ignore_case;
    let mut k: usize = 0;
    proof {
        assert(av.take(0) =~= Seq::<Seq<char>>::empty());
        lemma_filter_empty::<Seq<char>>(pred);
        assert(pos.deep_view() =~= Seq::<Seq<char>>::empty());
        assert(!(exists|j: int| 0 <= j < av.take(0).len() && is_ignore_flag(av.take(0)[j])));
    }
    while k < args.len()
        invariant
            av == args.deep_view(),
            pred == positional_pred(),
            k <= args@.len(),
            av.len() == args@.len(),
            pos.deep_view() == av.take(k as int).filter(pred),
            ignore == ignore_requested(av.take(k as int), env_ignore_case),
        decreases args@.len() - k,
    {
        let a: &String = &args[k];
        proof {
            assert(av[k as int] == args@[k as int].deep_view());
            assert(a@ == av[k as int]);
        }
        let s: &str = a.as_str();
        let n = s.unicode_len();
        let flagged = n > 0 && s.get_char(0) == '-';
        proof {
            assert(flagged == is_flag(av[k as int]));
        }
        let ghost t0 = av.take(k as int);
        let ghost t1 = av.take(k + 1);
        proof {
            assert(t1 =~= t0.push(av[k as int]));
            lemma_filter_push(t0, pred, av[k as int]);
        }
        if flagged {
            let recognized = n == 2 && s.get_char(1) == 'i';
            proof {
                if recognized {
                    assert(a@ =~= seq!['-', 'i']);
                }
                if is_ignore_flag(av[k as int]) {
                    assert(av[k as int].len() == 2);
                    assert(av[k as int][0] == '-' && av[k as int][1] == 'i');
                }
            }
            if recognized {
                ignore = true;
            }
            proof {
                assert(ignore == ignore_requested(t1, env_ignore_case)) by {
                    if ignore_requested(t1, env_ignore_case) && !ignore_requested(
                        t0,
                        env_ignore_case,
                    ) && !env_ignore_case {
                        let j = choose|j: int| 0 <= j < t1.len() && is_ignore_flag(t1[j]);
                        if j < k {
                            assert(t0[j] == t1[j]);
                            assert(0 <= j < t0.len() && is_ignore_flag(t0[j]));
                        } else {
                            assert(t1[j] == av[k as int]);
                        }
                    }
                    if ignore_requested(t0, env_ignore_case) && !env_ignore_case {
                        let j = choose|j: int| 0 <= j < t0.len() && is_ignore_flag(t0[j]);
                        assert(t1[j] == t0[j]);
                        assert(0 <= j < t1.len() && is_ignore_flag(t1[j]));
                    }
                    if is_ignore_flag(av[k as int]) {
                        assert(t1[k as int] == av[k as int]);
                        assert(0 <= k < t1.len() && is_ignore_flag(t1[k as int]));
                    }
                }
            }
        } else {
            let ghost pos0 = pos.deep_view();
            pos.push(a.clone());
            proof {
                assert(pos.deep_view() =~= pos0.push(a@));
                assert(ignore == ignore_requested(t1, env_ignore_case)) by {
                    if ignore_requested(t1, env_ignore_case) && !ignore_requested(
                        t0,
                        env_ignore_case,
                    ) && !env_ignore_case {
                        let j = choose|j: int| 0 <= j < t1.len() && is_ignore_flag(t1[j]);
                        if j < k {
                            assert(t0[j] == t1[j]);
                            assert(0 <= j < t0.len() && is_ignore_flag(t0[j]));
                        } else {
                            assert(t1[j] == av[k as int]);
                            assert(is_flag(av[k as int]));
                        }
                    }
                    if ignore_requested(t0, env_ignore_case) && !env_ignore_case {
                        let j = choose|j: int| 0 <= j < t0.len() && is_ignore_flag(t0[j]);
                        assert(t1[j] == t0[j]);
                        assert(0 <= j < t1.len() && is_ignore_flag(t1[j]));
                    }
                }
            }
        }
        k = k + 1;
    }
    proof {
        assert(av.take(av.len() as int) =~= av);
    }
    if pos.len() < 3 {
        return Err(UsageError { message: String::from_str("not enough arguments") });
    }
    let query = pos[1].clone();
    let file = pos[pos.len() - 1].clone();
    proof {
        assert(pos.deep_view()[1] == pos@[1].deep_view());
        assert(pos.deep_view()[pos@.len() - 1] == pos@[pos@.len() - 1].deep_view());
    }
    Ok(Config { query, file, case_sensitive: !ignore })
}

} // verus!
