//! The tokenizer: splits program text into whitespace-separated tokens,
//! treating a double-quoted span as one atomic token, quotes included.

use vstd::prelude::*;

use crate::strops::is_space;
use crate::strops::push_char;
use crate::strops::space_char;

verus! {

/// The tokens of the input from position `i` on, given the partial token
/// `cur` accumulated so far and whether the scan stands inside a quoted span.
///
/// A quote character toggles string mode; the closing quote emits the
/// accumulated token at once. Outside string mode, whitespace ends the
/// current token. A non-empty partial token is still emitted at end of
/// input, even when a quoted span was never closed.
pub open spec fn tokenize_from(s: Seq<char>, i: int, cur: Seq<char>, in_string: bool) -> Seq<
    Seq<char>,
>
    decreases s.len() - i,
{
    if i < 0 || i >= s.len() {
        if cur.len() > 0 {
            seq![cur]
        } else {
            Seq::empty()
        }
    } else {
        let c = s[i];
        if c == '"' {
            if in_string {
                seq![cur.push('"')] + tokenize_from(s, i + 1, Seq::empty(), false)
            } else {
                tokenize_from(s, i + 1, cur.push('"'), true)
            }
        } else if in_string {
            tokenize_from(s, i + 1, cur.push(c), true)
        } else if space_char(c) {
            if cur.len() > 0 {
                seq![cur] + tokenize_from(s, i + 1, Seq::empty(), false)
            } else {
                tokenize_from(s, i + 1, Seq::empty(), false)
            }
        } else {
            tokenize_from(s, i + 1, cur.push(c), false)
        }
    }
}

/// The token sequence of a whole program text.
pub open spec fn tokenize(s: Seq<char>) -> Seq<Seq<char>> {
    tokenize_from(s, 0, Seq::empty(), false)
}

/// The character sequences of a vector of strings.
pub open spec fn views_of(tokens: Seq<String>) -> Seq<Seq<char>> {
    tokens.map_values(|t: String| t@)
}

/// Split program text into its tokens.
pub fn split(input: &str) -> (tokens: Vec<String>)
    ensures
        views_of(tokens@) == tokenize(input@),
{
    let n = input.unicode_len();
    let mut tokens: Vec<String> = Vec::new();
    let mut current = String::new();
    let mut in_string = false;
    let mut i: usize = 0;
    proof {
        assert(views_of(tokens@) + tokenize_from(input@, 0, current@, false) =~= tokenize(
            input@,
        ));
    }
    while i < n
        invariant
            n == input@.len(),
            i <= n,
            tokenize(input@) == views_of(tokens@) + tokenize_from(
                input@,
                i as int,
                current@,
                in_string,
            ),
        decreases n - i,
    {
        let c = input.get_char(i);
        let ghost prev_tokens = tokens@;
        let ghost prev_cur = current@;
        if c == '"' {
            in_string = !in_string;
            push_char(&mut current, c);
            if !in_string {
                tokens.push(current);
                current = String::new();
                proof {
                    assert(views_of(tokens@) =~= views_of(prev_tokens).push(prev_cur.push('"')));
                    assert(views_of(prev_tokens) + tokenize_from(
                        input@,
                        i as int,
                        prev_cur,
                        true,
                    ) =~= views_of(tokens@) + tokenize_from(
                        input@,
                        i + 1,
                        Seq::empty(),
                        false,
                    ));
                }
            }
        } else if in_string {
            push_char(&mut current, c);
        } else if is_space(c) {
            if !current.as_str().is_empty() {
                tokens.push(current);
                current = String::new();
                proof {
                    assert(views_of(tokens@) =~= views_of(prev_tokens).push(prev_cur));
                    assert(views_of(prev_tokens) + tokenize_from(
                        input@,
                        i as int,
                        prev_cur,
                        false,
                    ) =~= views_of(tokens@) + tokenize_from(
                        input@,
                        i + 1,
                        Seq::empty(),
                        false,
                    ));
                }
            } else {
                proof {
                    assert(current@ =~= Seq::<char>::empty());
                }
            }
        } else {
            push_char(&mut current, c);
        }
        i = i + 1;
    }
    if !current.as_str().is_empty() {
        let ghost prev_tokens = tokens@;
        let ghost prev_cur = current@;
        tokens.push(current);
        proof {
            assert(views_of(tokens@) =~= views_of(prev_tokens).push(prev_cur));
            assert(views_of(prev_tokens) + tokenize_from(input@, n as int, prev_cur, in_string)
                =~= views_of(tokens@));
        }
    } else {
        proof {
            assert(views_of(tokens@) + tokenize_from(input@, n as int, current@, in_string)
                =~= views_of(tokens@));
        }
    }
    tokens
}

} // verus!
