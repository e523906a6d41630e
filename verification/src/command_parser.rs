//! The shell's command parser.
//!
//! One input line is split on runs of whitespace; the resulting words are
//! matched against the six commands.  Anything else is a parse error.

use vstd::prelude::*;

verus! {

use vstd::string::{StrSliceExecFns, StringExecFns};
use crate::command::{Command, CommandView};

/// How parsing can fail.
#[derive(Debug, PartialEq, Eq, Structural, Clone, Copy)]
pub enum Error {
    ParseError,
}

/// The whitespace that separates words.
pub open spec fn is_space(c: char) -> bool {
    c == ' ' || c == '\t' || c == '\n' || c == '\r'
}

/// The length of the leading run of non-whitespace characters.
pub open spec fn token_len(s: Seq<char>) -> nat
    decreases s.len(),
{
    if s.len() == 0 || is_space(s[0]) {
        0
    } else {
        1 + token_len(s.drop_first())
    }
}

/// A non-empty leading token is at most the whole input.
pub proof fn lemma_token_len_bounds(s: Seq<char>)
    ensures
        token_len(s) <= s.len(),
        s.len() > 0 && !is_space(s[0]) ==> token_len(s) >= 1,
    decreases s.len(),
{
    if s.len() > 0 && !is_space(s[0]) {
        lemma_token_len_bounds(s.drop_first());
    }
}

/// The input's words: maximal runs of non-whitespace characters, in
/// order.
pub open spec fn tokens_of(s: Seq<char>) -> Seq<Seq<char>>
    decreases s.len(),
    via tokens_of_decreases
{
    if s.len() == 0 {
        Seq::empty()
    } else if is_space(s[0]) {
        tokens_of(s.drop_first())
    } else {
        seq![s.take(token_len(s) as int)] + tokens_of(s.skip(token_len(s) as int))
    }
}

#[via_fn]
proof fn tokens_of_decreases(s: Seq<char>) {
    if s.len() != 0 && !is_space(s[0]) {
        lemma_token_len_bounds(s);
    }
}

/// The command a sequence of words names, if any.
pub open spec fn parse_command(toks: Seq<Seq<char>>) -> Option<CommandView> {
    if toks.len() == 3 && toks[0] == ":insert"@ {
        Some(CommandView::Insert(toks[1], toks[2]))
    } else if toks.len() == 2 && toks[0] == ":lookup"@ {
        Some(CommandView::Lookup(toks[1]))
    } else if toks.len() == 2 && toks[0] == ":delete"@ {
        Some(CommandView::Delete(toks[1]))
    } else if toks.len() == 1 && toks[0] == ":list_keys"@ {
        Some(CommandView::ListKeys)
    } else if toks.len() == 1 && toks[0] == ":help"@ {
        Some(CommandView::Help)
    } else if toks.len() == 1 && toks[0] == ":quit"@ {
        Some(CommandView::Quit)
    } else {
        None
    }
}

/// Skipping one whitespace character leaves the words unchanged.
proof fn lemma_tokens_skip_space(s: Seq<char>, i: int)
    requires
        0 <= i < s.len(),
        is_space(s[i]),
    ensures
        tokens_of(s.skip(i)) == tokens_of(s.skip(i + 1)),
{
    assert(s.skip(i)[0] == s[i]);
    assert(s.skip(i).drop_first() =~= s.skip(i + 1));
}

/// The leading token runs exactly to the first whitespace (or the end).
proof fn lemma_token_len_exact(t: Seq<char>, m: int)
    requires
        0 <= m <= t.len(),
        forall|j: int| 0 <= j < m ==> !is_space(t[j]),
        m == t.len() || is_space(t[m]),
    ensures
        token_len(t) == m,
    decreases m,
{
    if m == 0 {
    } else {
        assert(!is_space(t[0]));
        assert(forall|j: int| 0 <= j < m - 1 ==> t.drop_first()[j] == t[j + 1]);
        if m - 1 < t.drop_first().len() {
            assert(t.drop_first()[m - 1] == t[m]);
        }
        lemma_token_len_exact(t.drop_first(), m - 1);
    }
}

/// A maximal non-whitespace run from `start` to `end` is the next word.
proof fn lemma_token_at(s: Seq<char>, start: int, end: int)
    requires
        0 <= start < end <= s.len(),
        forall|j: int| start <= j < end ==> !is_space(s[j]),
        end == s.len() || is_space(s[end]),
    ensures
        tokens_of(s.skip(start)) == seq![s.subrange(start, end)] + tokens_of(s.skip(end)),
{
    let t = s.skip(start);
    assert(forall|j: int| 0 <= j < t.len() ==> t[j] == s[start + j]);
    lemma_token_len_exact(t, end - start);
    assert(!is_space(t[0]));
    assert(t.take(end - start) =~= s.subrange(start, end));
    assert(t.skip(end - start) =~= s.skip(end));
}

/// Whether `c` separates words.
fn is_space_char(c: char) -> (r: bool)
    ensures
        r == is_space(c),
{
    c == ' ' || c == '\t' || c == '\n' || c == '\r'
}

/// Whether `s` holds exactly the characters of `lit`.
fn string_is(s: &String, lit: &str) -> (r: bool)
    ensures
        r == (s@ == lit@),
{
    let l = String::from_str(lit);
    *s == l
}

/// Parse one input line: split it on whitespace and match the words
/// against the six commands.  Succeeds exactly when the words name a
/// command; any other line is a parse error.
pub fn parse(input: &str) -> (r: Result<Command, Error>)
    ensures
        match parse_command(tokens_of(input@)) {
            Some(c) => r matches Ok(cmd) && cmd@ == c,
            None => r == Err::<Command, Error>(Error::ParseError),
        },
{
    let ghost s = input@;
    let n = input.unicode_len();
    let mut toks: Vec<String> = Vec::new();
    let mut i: usize = 0;
    proof {
        assert(s.skip(0) =~= s);
        assert(toks@.map_values(|t: String| t@) + Seq::<Seq<char>>::empty() =~= Seq::<
            Seq<char>,
        >::empty());
    }
    loop
        invariant
            i <= n,
            n == s.len(),
            s == input@,
            tokens_of(s) == toks@.map_values(|t: String| t@) + tokens_of(s.skip(i as int)),
        ensures
            tokens_of(s) == toks@.map_values(|t: String| t@),
        decreases n - i,
    {
        let ghost i_at = i;
        while i < n && is_space_char(input.get_char(i))
            invariant
                i_at <= i <= n,
                n == s.len(),
                s == input@,
                tokens_of(s) == toks@.map_values(|t: String| t@) + tokens_of(s.skip(i as int)),
            decreases n - i,
        {
            proof {
                lemma_tokens_skip_space(s, i as int);
            }
            i = i + 1;
        }
        if i == n {
            proof {
                assert(s.skip(n as int) =~= Seq::<char>::empty());
                assert(toks@.map_values(|t: String| t@) + Seq::<Seq<char>>::empty()
                    =~= toks@.map_values(|t: String| t@));
            }
            break ;
        }
        let start = i;
        i = i + 1;
        while i < n && !is_space_char(input.get_char(i))
            invariant
                start < i <= n,
                n == s.len(),
                s == input@,
                forall|j: int| start <= j < i ==> !is_space(s[j]),
            decreases n - i,
        {
            i = i + 1;
        }
        let ghost toks0 = toks@;
        let word = String::from_str(input.substring_char(start, i));
        toks.push(word);
        proof {
            lemma_token_at(s, start as int, i as int);
            assert(toks@.map_values(|t: String| t@) =~= toks0.map_values(|t: String| t@).push(
                s.subrange(start as int, i as int),
            ));
            assert(toks0.map_values(|t: String| t@).push(s.subrange(start as int, i as int))
                + tokens_of(s.skip(i as int)) =~= toks0.map_values(|t: String| t@) + (seq![
                s.subrange(start as int, i as int),
            ] + tokens_of(s.skip(i as int))));
        }
    }
    let ghost tv = toks@.map_values(|t: String| t@);
    if toks.len() == 3 && string_is(&toks[0], ":insert") {
        Ok(Command::Insert(clone_string(&toks[1]), clone_string(&toks[2])))
    } else if toks.len() == 2 && string_is(&toks[0], ":lookup") {
        Ok(Command::Lookup(clone_string(&toks[1])))
    } else if toks.len() == 2 && string_is(&toks[0], ":delete") {
        Ok(Command::Delete(clone_string(&toks[1])))
    } else if toks.len() == 1 && string_is(&toks[0], ":list_keys") {
        Ok(Command::ListKeys)
    } else if toks.len() == 1 && string_is(&toks[0], ":help") {
        Ok(Command::Help)
    } else if toks.len() == 1 && string_is(&toks[0], ":quit") {
        Ok(Command::Quit)
    } else {
        Err(Error::ParseError)
    }
}

/// Copy a string.
fn clone_string(s: &String) -> (r: String)
    ensures
        r@ == s@,
{
    String::from_str(s.as_str())
}

} // verus!
