//! Splitting a string into its ASCII keyword tokens.
//!
//! A token is a maximal run of ASCII alphabetic characters or a maximal run
//! of ASCII digits; every other character is a separator and never appears in
//! a token.  A run of letters followed directly by a run of digits (or the
//! other way round) splits at the boundary, so `"testing123"` yields the two
//! tokens `"testing"` and `"123"`.

use vstd::prelude::*;
use vstd::string::StrSliceExecFns;

verus! {

/// An ASCII alphabetic character (`A`..`Z` or `a`..`z`).
pub open spec fn is_alpha_char(c: char) -> bool {
    (65 <= c as int && c as int <= 90) || (97 <= c as int && c as int <= 122)
}

/// An ASCII digit (`0`..`9`).
pub open spec fn is_digit_char(c: char) -> bool {
    48 <= c as int && c as int <= 57
}

/// A character that can appear in a token.
pub open spec fn is_keyword_char(c: char) -> bool {
    is_alpha_char(c) || is_digit_char(c)
}

/// Two characters that belong to the same token run: both letters or both
/// digits.
pub open spec fn same_class(a: char, b: char) -> bool {
    (is_alpha_char(a) && is_alpha_char(b)) || (is_digit_char(a) && is_digit_char(b))
}

/// The tokens of `s` from position `i` onward, given that the characters of
/// the pending (not yet emitted) run are `cur`.  A pending run is flushed
/// when the next character does not extend it, and at the end of the input.
pub open spec fn tokens_step(s: Seq<char>, i: int, cur: Seq<char>) -> Seq<Seq<char>>
    decreases s.len() - i,
{
    if i < 0 || i >= s.len() {
        if cur.len() > 0 {
            seq![cur]
        } else {
            Seq::empty()
        }
    } else if cur.len() > 0 && same_class(cur[0], s[i]) {
        tokens_step(s, i + 1, cur.push(s[i]))
    } else {
        let rest = if is_keyword_char(s[i]) {
            tokens_step(s, i + 1, seq![s[i]])
        } else {
            tokens_step(s, i + 1, Seq::empty())
        };
        if cur.len() > 0 {
            seq![cur] + rest
        } else {
            rest
        }
    }
}

/// The sequence of ASCII keyword tokens of `s`, in order of appearance.
pub open spec fn tokens_of(s: Seq<char>) -> Seq<Seq<char>> {
    tokens_step(s, 0, Seq::empty())
}

/// Runtime check for [`is_alpha_char`].
pub fn alpha_char(c: char) -> (r: bool)
    ensures
        r == is_alpha_char(c),
{
    let u = c as u32;
    (65 <= u && u <= 90) || (97 <= u && u <= 122)
}

/// Runtime check for [`is_digit_char`].
pub fn digit_char(c: char) -> (r: bool)
    ensures
        r == is_digit_char(c),
{
    let u = c as u32;
    48 <= u && u <= 57
}

/// Runtime check for [`is_keyword_char`].
pub fn keyword_char(c: char) -> (r: bool)
    ensures
        r == is_keyword_char(c),
{
    alpha_char(c) || digit_char(c)
}

/// Runtime check for [`same_class`].
pub fn same_class_chars(a: char, b: char) -> (r: bool)
    ensures
        r == same_class(a, b),
{
    (alpha_char(a) && alpha_char(b)) || (digit_char(a) && digit_char(b))
}

/// Splits `s` into its ASCII keyword tokens, eagerly, in order of
/// appearance.
pub fn ascii_keywords_of(s: &str) -> (r: Vec<String>)
    ensures
        r.deep_view() == tokens_of(s@),
{
    let n = s.unicode_len();
    let mut toks: Vec<String> = Vec::new();
    let mut start: usize = 0;
    let mut i: usize = 0;
    proof {
        assert(toks.deep_view() =~= Seq::<Seq<char>>::empty());
        assert(Seq::<Seq<char>>::empty() + tokens_of(s@) =~= tokens_of(s@));
        assert(s@.subrange(0, 0) =~= Seq::<char>::empty());
    }
    while i < n
        invariant
            n == s@.len(),
            start <= i <= n,
            toks.deep_view() + tokens_step(s@, i as int, s@.subrange(start as int, i as int))
                == tokens_of(s@),
        decreases n - i,
    {
        let ghost cur = s@.subrange(start as int, i as int);
        let c = s.get_char(i);
        if start < i {
            let c0 = s.get_char(start);
            if same_class_chars(c0, c) {
                proof {
                    assert(cur[0] == s@[start as int]);
                    assert(cur.push(s@[i as int]) =~= s@.subrange(start as int, i as int + 1));
                }
                i += 1;
            } else {
                let tok = s.substring_char(start, i);
                let ghost prev = toks.deep_view();
                toks.push(tok.to_owned());
                let kw = keyword_char(c);
                let ghost next_cur: Seq<char> = if kw {
                    seq![s@[i as int]]
                } else {
                    Seq::empty()
                };
                proof {
                    assert(cur[0] == s@[start as int]);
                    assert(cur.len() > 0);
                    assert(tokens_step(s@, i as int, cur) == seq![cur] + tokens_step(
                        s@,
                        i as int + 1,
                        next_cur,
                    ));
                    assert(toks.deep_view() =~= prev + seq![cur]);
                    assert(prev + (seq![cur] + tokens_step(s@, i as int + 1, next_cur)) =~= (prev
                        + seq![cur]) + tokens_step(s@, i as int + 1, next_cur));
                }
                if kw {
                    proof {
                        assert(next_cur =~= s@.subrange(i as int, i as int + 1));
                    }
                    start = i;
                } else {
                    proof {
                        assert(next_cur =~= s@.subrange(i as int + 1, i as int + 1));
                    }
                    start = i + 1;
                }
                i += 1;
            }
        } else {
            if keyword_char(c) {
                proof {
                    assert(seq![s@[i as int]] =~= s@.subrange(i as int, i as int + 1));
                }
                i += 1;
            } else {
                proof {
                    assert(Seq::<char>::empty() =~= s@.subrange(i as int + 1, i as int + 1));
                }
                start = i + 1;
                i += 1;
            }
        }
    }
    let ghost cur = s@.subrange(start as int, n as int);
    if start < n {
        let tok = s.substring_char(start, n);
        let ghost prev = toks.deep_view();
        toks.push(tok.to_owned());
        proof {
            assert(cur.len() > 0);
            assert(tokens_step(s@, n as int, cur) == seq![cur]);
            assert(toks.deep_view() =~= prev + seq![cur]);
        }
    } else {
        proof {
            assert(cur =~= Seq::<char>::empty());
            assert(tokens_step(s@, n as int, cur) == Seq::<Seq<char>>::empty());
            assert(toks.deep_view() + Seq::<Seq<char>>::empty() =~= toks.deep_view());
        }
    }
    toks
}

/// A string-like type whose text can be split into ASCII keyword tokens.
pub trait Keywords {
    /// The characters of the string.
    spec fn text(&self) -> Seq<char>;

    /// Returns the ASCII keywords of the string, in order of appearance.
    ///
    /// A keyword is a sequence of ASCII alphabetic or numeric characters
    /// separated by non-alphanumeric characters (e.g., whitespace,
    /// punctuation).  Non-alphanumeric characters never appear in the
    /// output.
    fn ascii_keywords(&self) -> (r: Vec<String>)
        ensures
            r.deep_view() == tokens_of(self.text()),
    ;
}

impl Keywords for String {
    open spec fn text(&self) -> Seq<char> {
        self@
    }

    fn ascii_keywords(&self) -> (r: Vec<String>) {
        ascii_keywords_of(self.as_str())
    }
}

impl<'a> Keywords for &'a str {
    open spec fn text(&self) -> Seq<char> {
        self@
    }

    fn ascii_keywords(&self) -> (r: Vec<String>) {
        ascii_keywords_of(self)
    }
}

} // verus!
