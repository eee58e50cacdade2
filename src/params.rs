use vstd::prelude::*;
use vstd::string::StrSliceExecFns;

use crate::models::Args;

verus! {

/// How the game and version to download are settled from the arguments.
#[derive(PartialEq, Eq, Debug)]
pub enum ParamsDecision {
    /// Download `game` at `version`; an empty version stands for the latest.
    Ready { game: String, version: String },
    /// Silent mode was asked for, but no game was named.
    MissingGame,
    /// The user is to be asked.
    Ask,
}

/// In silent mode the arguments decide alone: they must name the game, and
/// a missing version stands for the latest. Otherwise the user is asked.
pub fn decide_params(args: &Args) -> (r: ParamsDecision)
    ensures
        args.silent && args.game is Some ==> (r matches ParamsDecision::Ready { game, version } && game@
            == args.game->0@ && version@ == (match args.game_version {
            Some(v) => v@,
            None => Seq::<char>::empty(),
        })),
        args.silent && args.game is None ==> r matches ParamsDecision::MissingGame,
        !args.silent ==> r matches ParamsDecision::Ask,
{
    if !args.silent {
        return ParamsDecision::Ask;
    }
    match &args.game {
        Some(game) => {
            let version = match &args.game_version {
                Some(v) => v.clone(),
                None => String::new(),
            };
            ParamsDecision::Ready { game: game.clone(), version }
        },
        None => ParamsDecision::MissingGame,
    }
}

/// The value after the user answered `line` to a prompt that offered
/// `current`: an empty answer keeps it, any other replaces it.
pub fn accept_answer(current: &Option<String>, line: String) -> (r: Option<String>)
    ensures
        line@.len() == 0 ==> r == *current,
        line@.len() > 0 ==> r == Some(line),
{
    if line.as_str().is_empty() {
        match current {
            Some(c) => Some(c.clone()),
            None => None,
        }
    } else {
        Some(line)
    }
}

/// How many times `c` occurs in `s`.
pub open spec fn count_char(s: Seq<char>, c: char) -> nat
    decreases s.len(),
{
    if s.len() == 0 {
        0
    } else {
        count_char(s.drop_last(), c) + if s.last() == c {
            1nat
        } else {
            0nat
        }
    }
}

proof fn lemma_count_prefix(s: Seq<char>, c: char, k: int)
    requires
        0 <= k < s.len(),
    ensures
        count_char(s.subrange(0, k + 1), c) == count_char(s.subrange(0, k), c) + if s[k] == c {
            1nat
        } else {
            0nat
        },
{
    assert(s.subrange(0, k + 1).drop_last() =~= s.subrange(0, k));
}

/// Splits a handshake answer `client/token` at its one slash; `None` unless
/// the answer holds exactly one.
pub fn parse_handshake(line: &str) -> (r: Option<(String, String)>)
    ensures
        r is Some <==> count_char(line@, '/') == 1,
        r matches Some((client, token)) ==> line@ == client@ + seq!['/'] + token@,
{
    let n = line.unicode_len();
    let mut slash: usize = n;
    let mut count: usize = 0;
    let mut i: usize = 0;
    while i < n
        invariant
            n == line@.len(),
            i <= n,
            count as nat == count_char(line@.subrange(0, i as int), '/'),
            count <= i,
            count >= 1 ==> slash < i && line@[slash as int] == '/',
            count == 1 ==> count_char(line@.subrange(0, slash as int), '/') == 0,
        decreases n - i,
    {
        proof {
            lemma_count_prefix(line@, '/', i as int);
        }
        if line.get_char(i) == '/' {
            if count == 0 {
                slash = i;
                assert(line@.subrange(0, i as int) == line@.subrange(0, slash as int));
            }
            count = count + 1;
        }
        i = i + 1;
    }
    assert(line@.subrange(0, n as int) =~= line@);
    if count != 1 {
        return None;
    }
    let client = line.substring_char(0, slash).to_owned();
    let token = line.substring_char(slash + 1, n).to_owned();
    proof {
        assert(line@ =~= line@.subrange(0, slash as int) + seq!['/'] + line@.subrange(slash + 1, n as int));
    }
    Some((client, token))
}

} // verus!
