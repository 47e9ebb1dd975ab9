//! What the player typed: free text is chat, a line starting with a slash
//! is a command with arguments. The splitter keeps the exact words; the
//! command word is lowered to ASCII lower case.

use vstd::prelude::*;

verus! {

/// One line of player input, already split: either a command with its
/// arguments or a chat line.
#[derive(Debug, PartialEq)]
pub enum UserInput {
    Command { cmd: String, args: Vec<String> },
    Chat(String),
}

/// The characters that separate words: the Unicode white-space set.
pub open spec fn is_wspace(c: char) -> bool {
    ||| c == '\u{0009}'
    ||| c == '\u{000A}'
    ||| c == '\u{000B}'
    ||| c == '\u{000C}'
    ||| c == '\u{000D}'
    ||| c == ' '
    ||| c == '\u{0085}'
    ||| c == '\u{00A0}'
    ||| c == '\u{1680}'
    ||| c == '\u{2000}'
    ||| c == '\u{2001}'
    ||| c == '\u{2002}'
    ||| c == '\u{2003}'
    ||| c == '\u{2004}'
    ||| c == '\u{2005}'
    ||| c == '\u{2006}'
    ||| c == '\u{2007}'
    ||| c == '\u{2008}'
    ||| c == '\u{2009}'
    ||| c == '\u{200A}'
    ||| c == '\u{2028}'
    ||| c == '\u{2029}'
    ||| c == '\u{202F}'
    ||| c == '\u{205F}'
    ||| c == '\u{3000}'
}

/// See [`is_wspace`].
fn is_whitespace_char(c: char) -> (r: bool)
    ensures
        r == is_wspace(c),
{
    c == '\u{0009}' || c == '\u{000A}' || c == '\u{000B}' || c == '\u{000C}' || c == '\u{000D}'
        || c == ' ' || c == '\u{0085}' || c == '\u{00A0}' || c == '\u{1680}' || c == '\u{2000}'
        || c == '\u{2001}' || c == '\u{2002}' || c == '\u{2003}' || c == '\u{2004}' || c
        == '\u{2005}' || c == '\u{2006}' || c == '\u{2007}' || c == '\u{2008}' || c == '\u{2009}'
        || c == '\u{200A}' || c == '\u{2028}' || c == '\u{2029}' || c == '\u{202F}' || c
        == '\u{205F}' || c == '\u{3000}'
}

/// An upper-case ASCII letter lowered; any other character unchanged.
pub open spec fn lower_char(c: char) -> char {
    match c {
        'A' => 'a',
        'B' => 'b',
        'C' => 'c',
        'D' => 'd',
        'E' => 'e',
        'F' => 'f',
        'G' => 'g',
        'H' => 'h',
        'I' => 'i',
        'J' => 'j',
        'K' => 'k',
        'L' => 'l',
        'M' => 'm',
        'N' => 'n',
        'O' => 'o',
        'P' => 'p',
        'Q' => 'q',
        'R' => 'r',
        'S' => 's',
        'T' => 't',
        'U' => 'u',
        'V' => 'v',
        'W' => 'w',
        'X' => 'x',
        'Y' => 'y',
        'Z' => 'z',
        _ => c,
    }
}

/// A word lowered character by character (ASCII only; command words are
/// ASCII).
pub open spec fn lower_of(s: Seq<char>) -> Seq<char> {
    Seq::new(s.len(), |i: int| lower_char(s[i]))
}

/// See [`lower_char`].
fn lower_char_exec(c: char) -> (r: char)
    ensures
        r == lower_char(c),
{
    match c {
        'A' => 'a',
        'B' => 'b',
        'C' => 'c',
        'D' => 'd',
        'E' => 'e',
        'F' => 'f',
        'G' => 'g',
        'H' => 'h',
        'I' => 'i',
        'J' => 'j',
        'K' => 'k',
        'L' => 'l',
        'M' => 'm',
        'N' => 'n',
        'O' => 'o',
        'P' => 'p',
        'Q' => 'q',
        'R' => 'r',
        'S' => 's',
        'T' => 't',
        'U' => 'u',
        'V' => 'v',
        'W' => 'w',
        'X' => 'x',
        'Y' => 'y',
        'Z' => 'z',
        _ => c,
    }
}

/// Relies on `String::push`: appends exactly the given character to the
/// end of the string.
#[verifier::external_body]
fn push_char(s: &mut String, c: char)
    ensures
        final(s)@ == old(s)@.push(c),
{
    s.push(c);
}

/// The word lowered to ASCII lower case.
fn lower_ascii(word: &str) -> (r: String)
    ensures
        r@ == lower_of(word@),
{
    let n = word.unicode_len();
    let mut out = String::new();
    let mut i: usize = 0;
    while i < n
        invariant
            0 <= i <= n,
            n == word@.len(),
            out@.len() == i,
            forall|j: int| 0 <= j < i ==> out@[j] == lower_char(word@[j]),
        decreases n - i,
    {
        let c = word.get_char(i);
        let lc = lower_char_exec(c);
        push_char(&mut out, lc);
        i += 1;
    }
    proof {
        assert(out@ =~= lower_of(word@));
    }
    out
}

/// How long the word starting at the front runs: the count of characters
/// before the first separator.
pub open spec fn word_len(s: Seq<char>) -> nat
    decreases s.len(),
{
    if s.len() == 0 || is_wspace(s[0]) {
        0
    } else {
        1 + word_len(s.drop_first())
    }
}

/// The word never runs past the end.
pub proof fn lemma_word_len_le(s: Seq<char>)
    ensures
        word_len(s) <= s.len(),
    decreases s.len(),
{
    if s.len() > 0 && !is_wspace(s[0]) {
        lemma_word_len_le(s.drop_first());
    }
}

/// The words of a line, in order, split on white space: maximal runs of
/// non-separator characters.
pub open spec fn tokens_of(s: Seq<char>) -> Seq<Seq<char>>
    decreases s.len(),
    via tokens_of_decreases
{
    if s.len() == 0 {
        Seq::empty()
    } else if is_wspace(s[0]) {
        tokens_of(s.drop_first())
    } else {
        seq![s.take(word_len(s) as int)] + tokens_of(s.skip(word_len(s) as int))
    }
}

#[via_fn]
proof fn tokens_of_decreases(s: Seq<char>) {
    lemma_word_len_le(s);
}

/// Split a line into its words.
fn split_whitespace_words(s: &str) -> (words: Vec<String>)
    ensures
        words@.len() == tokens_of(s@).len(),
        forall|k: int| 0 <= k < words@.len() ==> (#[trigger] words@[k])@ == tokens_of(s@)[k],
{
    let n = s.unicode_len();
    let ghost all = tokens_of(s@);
    let mut words: Vec<String> = Vec::new();
    let mut i: usize = 0;
    proof {
        assert(s@.skip(0) =~= s@);
    }
    while i < n
        invariant
            0 <= i <= n,
            n == s@.len(),
            tokens_of(s@.skip(i as int)) == all.skip(words@.len() as int),
            words@.len() <= all.len(),
            all == tokens_of(s@),
            forall|k: int| 0 <= k < words@.len() ==> (#[trigger] words@[k])@ == all[k],
        decreases n - i,
    {
        let c = s.get_char(i);
        let ghost rem = s@.skip(i as int);
        proof {
            assert(rem[0] == s@[i as int]);
        }
        if is_whitespace_char(c) {
            proof {
                assert(rem.drop_first() =~= s@.skip(i as int + 1));
                assert(tokens_of(s@.skip(i as int + 1)) == all.skip(words@.len() as int));
            }
            i += 1;
        } else {
            // measure the word: scan to its end
            let start = i;
            let mut j = i + 1;
            proof {
                lemma_word_len_le(rem);
                assert(word_len(s@.skip(start as int)) == 1 + word_len(s@.skip(start as int + 1)))
                    by {
                    assert(s@.skip(start as int).drop_first() =~= s@.skip(start as int + 1));
                }
            }
            while j < n && !is_whitespace_char(s.get_char(j))
                invariant
                    start < j <= n,
                    n == s@.len(),
                    word_len(s@.skip(start as int)) == (j - start) + word_len(s@.skip(j as int)),
                decreases n - j,
            {
                proof {
                    assert(s@.skip(j as int)[0] == s@[j as int]);
                    assert(s@.skip(j as int).drop_first() =~= s@.skip(j as int + 1));
                }
                j += 1;
            }
            proof {
                if j < n {
                    assert(s@.skip(j as int)[0] == s@[j as int]);
                    assert(word_len(s@.skip(j as int)) == 0);
                } else {
                    assert(s@.skip(j as int) =~= Seq::<char>::empty());
                    assert(word_len(s@.skip(j as int)) == 0);
                }
                assert(word_len(rem) == j - start);
            }
            let word = s.substring_char(start, j).to_owned();
            proof {
                let m = words@.len() as int;
                assert(word@ =~= rem.take((j - start) as int));
                assert(tokens_of(rem) == seq![rem.take(word_len(rem) as int)] + tokens_of(
                    rem.skip(word_len(rem) as int),
                ));
                assert(all.skip(m)[0] == all[m]);
                assert(all[m] == rem.take((j - start) as int));
                assert(rem.skip((j - start) as int) =~= s@.skip(j as int));
                assert(tokens_of(s@.skip(j as int)) =~= all.skip(m).drop_first());
                assert(all.skip(m).drop_first() =~= all.skip(m + 1));
            }
            words.push(word);
            i = j;
        }
    }
    proof {
        assert(s@.skip(n as int) =~= Seq::<char>::empty());
        assert(all.skip(words@.len() as int) =~= Seq::<Seq<char>>::empty());
        assert(words@.len() == all.len());
    }
    words
}

/// Split one line the player typed. A line starting with a slash is a
/// command: the slash is dropped, the line is split on white space, the
/// first word — lowered to ASCII lower case, empty if there is none —
/// names the command and the remaining words are its arguments, verbatim.
/// Any other line, the empty one included, is chat, passed through
/// unchanged.
pub fn parse_stdin(input: String) -> (r: UserInput)
    ensures
        (input@.len() > 0 && input@[0] == '/') ==> ({
            let toks = tokens_of(input@.skip(1));
            &&& (r matches UserInput::Command { cmd, args } ==> ({
                &&& cmd@ == (if toks.len() > 0 {
                    lower_of(toks[0])
                } else {
                    Seq::<char>::empty()
                })
                &&& args@.len() == (if toks.len() > 0 {
                    (toks.len() - 1) as nat
                } else {
                    0
                })
                &&& (forall|k: int| 0 <= k < args@.len() ==> (#[trigger] args@[k])@ == toks[k + 1])
            }))
            &&& (r is Command)
        }),
        !(input@.len() > 0 && input@[0] == '/') ==> r == UserInput::Chat(input),
{
    let n = input.as_str().unicode_len();
    if n == 0 {
        return UserInput::Chat(input);
    }
    let c0 = input.as_str().get_char(0);
    if c0 != '/' {
        return UserInput::Chat(input);
    }
    let rest = input.as_str().substring_char(1, n);
    proof {
        assert(rest@ =~= input@.skip(1));
    }
    let mut words = split_whitespace_words(rest);
    if words.len() > 0 {
        let ghost toks = tokens_of(input@.skip(1));
        let ghost words0 = words@;
        let first = words.remove(0);
        let cmd = lower_ascii(first.as_str());
        proof {
            assert(cmd@ =~= lower_of(toks[0]));
            assert forall|k: int| 0 <= k < words@.len() implies (#[trigger] words@[k])@
                == toks[k + 1] by {
                assert(words@[k] == words0[k + 1]);
            }
        }
        UserInput::Command { cmd, args: words }
    } else {
        UserInput::Command { cmd: String::new(), args: words }
    }
}

} // verus!
