//! Case conventions for identifiers: snake case, title case and upper case.
use vstd::prelude::*;

verus! {

/// What the case-boundary rewrite makes of a text: each lower-upper pair becomes
/// `lower_upper` in lower case, each other capital is lowered, and each run of whitespace
/// followed by a word character becomes `_` and that character in lower case.
pub uninterp spec fn snake_of(s: Seq<char>) -> Seq<char>;

/// What `str::to_uppercase` makes of a text.
pub uninterp spec fn upper_of(s: Seq<char>) -> Seq<char>;

/// Whether a character has the Unicode `White_Space` property.
pub uninterp spec fn is_white(c: char) -> bool;

/// The ASCII lower-case counterpart of a character; other characters are kept.
pub open spec fn ascii_lower(c: char) -> char {
    if 'A' <= c && c <= 'Z' {
        ((c as u8) + 32) as u8 as char
    } else {
        c
    }
}

/// `t` is `s` without its leading and trailing whitespace.
pub open spec fn is_trim_of(t: Seq<char>, s: Seq<char>) -> bool {
    exists|a: int, b: int|
        #![trigger s.subrange(a, b)]
        0 <= a <= b <= s.len() && t == s.subrange(a, b) && (forall|k: int|
            0 <= k < a ==> is_white(#[trigger] s[k])) && (forall|k: int|
            b <= k < s.len() ==> is_white(#[trigger] s[k])) && (a < b ==> !is_white(s[a])
            && !is_white(s[b - 1]))
}

/// Every character of `w` is whitespace.
pub open spec fn all_white(w: Seq<char>) -> bool {
    forall|k: int| 0 <= k < w.len() ==> is_white(#[trigger] w[k])
}

/// A word with its first character in upper case.
pub open spec fn capitalized(w: Seq<char>) -> Seq<char> {
    upper_of(w.take(1)) + w.skip(1)
}

/// Appends a finished word, followed by a space, unless it is blank.
pub open spec fn flush(out: Seq<char>, w: Seq<char>) -> Seq<char> {
    if all_white(w) {
        out
    } else {
        out + capitalized(w) + seq![' ']
    }
}

/// Reads a snake-case text from the left: the output so far, and the word being read.
pub open spec fn title_scan(s: Seq<char>) -> (Seq<char>, Seq<char>)
    decreases s.len(),
{
    if s.len() == 0 {
        (seq![], seq![])
    } else {
        let (out, w) = title_scan(s.drop_last());
        if s.last() == '_' {
            (flush(out, w), seq![])
        } else {
            (out, w.push(s.last()))
        }
    }
}

/// The capitalized non-blank `_`-separated words of a snake-case text, each followed by a
/// space.
pub open spec fn title_words(s: Seq<char>) -> Seq<char> {
    flush(title_scan(s).0, title_scan(s).1)
}

/// Relies on `str::to_ascii_lowercase`: ASCII capitals are lowered, other characters kept.
#[verifier::external_body]
fn ascii_lowercase(s: &str) -> (r: String)
    ensures
        r@.len() == s@.len(),
        forall|i: int| 0 <= i < s@.len() ==> r@[i] == ascii_lower(#[trigger] s@[i]),
{
    s.to_ascii_lowercase()
}

/// Relies on `str::to_uppercase`: the result depends on the characters alone.
#[verifier::external_body]
fn uppercase(s: &str) -> (r: String)
    ensures
        r@ == upper_of(s@),
{
    s.to_uppercase()
}

/// Relies on `char::is_whitespace`: whether the character has the Unicode `White_Space`
/// property.
#[verifier::external_body]
fn is_whitespace(c: char) -> (r: bool)
    ensures
        r == is_white(c),
{
    c.is_whitespace()
}

/// The text without its leading and trailing whitespace.
pub fn trim(s: &str) -> (r: &str)
    ensures
        is_trim_of(r@, s@),
{
    let n = s.unicode_len();
    let mut a: usize = 0;
    while a < n && is_whitespace(s.get_char(a))
        invariant
            n == s@.len(),
            a <= n,
            forall|k: int| 0 <= k < a ==> is_white(#[trigger] s@[k]),
        decreases n - a,
    {
        a = a + 1;
    }
    let mut b: usize = n;
    while b > a && is_whitespace(s.get_char(b - 1))
        invariant
            n == s@.len(),
            a <= b <= n,
            forall|k: int| b <= k < n ==> is_white(#[trigger] s@[k]),
            a < n ==> !is_white(s@[a as int]),
        decreases b - a,
    {
        b = b - 1;
    }
    let r = s.substring_char(a, b);
    assert(r@ == s@.subrange(a as int, b as int));
    r
}

/// The text that replaces one case boundary. `spaced` is the word character after a run of
/// whitespace, if that is what matched; otherwise `lower` is an optional lower-case letter
/// and `upper` the capital after it.
pub fn boundary_replacement(spaced: Option<&str>, lower: Option<&str>, upper: &str) -> (r:
    String)
    ensures
        spaced matches Some(c) ==> r@ == seq!['_'] + c@.map_values(|x: char| ascii_lower(x)),
        spaced is None && lower is None ==> r@ == upper@.map_values(|x: char| ascii_lower(x)),
        spaced is None ==> (lower matches Some(l) ==> r@ == l@ + seq!['_']
            + upper@.map_values(|x: char| ascii_lower(x))),
{
    match spaced {
        Some(c) => {
            let low = ascii_lowercase(c);
            let r = String::from_str("_").concat(low.as_str());
            proof {
                reveal_strlit("_");
                assert(low@ =~= c@.map_values(|x: char| ascii_lower(x)));
                assert(r@ =~= seq!['_'] + c@.map_values(|x: char| ascii_lower(x)));
            }
            r
        },
        None => {
            let low = ascii_lowercase(upper);
            assert(low@ =~= upper@.map_values(|x: char| ascii_lower(x)));
            match lower {
                None => low,
                Some(l) => {
                    let r = String::from_str(l).concat("_").concat(low.as_str());
                    proof {
                        reveal_strlit("_");
                        assert(r@ =~= l@ + seq!['_'] + upper@.map_values(
                            |x: char| ascii_lower(x),
                        ));
                    }
                    r
                },
            }
        },
    }
}

/// Relies on `regex::Regex::new` and `Regex::replace_all`: every match of the case-boundary
/// pattern is replaced by what `boundary_replacement` gives for its groups. The pattern is a
/// valid constant, so compiling it does not fail.
#[verifier::external_body]
fn replace_case_boundaries(s: &str) -> (r: String)
    ensures
        r@ == snake_of(s@),
{
    let re = regex::Regex::new(r"(([a-z])?([A-Z]))|(\s+(\w))").expect("valid pattern");
    re.replace_all(
        s,
        |c: &regex::Captures| {
            boundary_replacement(
                c.get(5).map(|m| m.as_str()),
                c.get(2).map(|m| m.as_str()),
                c.get(3).map_or("", |m| m.as_str()),
            )
        },
    ).into_owned()
}

/// Appends a finished word to the title text.
fn flush_word(out: String, w: &str) -> (r: String)
    ensures
        r@ == flush(out@, w@),
{
    let t = trim(w);
    if t.unicode_len() == 0 {
        proof {
            let (a, b) = choose|a: int, b: int|
                #![trigger w@.subrange(a, b)]
                0 <= a <= b <= w@.len() && t@ == w@.subrange(a, b) && (forall|k: int|
                    0 <= k < a ==> is_white(#[trigger] w@[k])) && (forall|k: int|
                    b <= k < w@.len() ==> is_white(#[trigger] w@[k])) && (a < b ==> !is_white(
                    w@[a],
                ) && !is_white(w@[b - 1]));
            assert(a == b);
            assert forall|k: int| 0 <= k < w@.len() implies is_white(#[trigger] w@[k]) by {
                if k < a {
                } else {
                }
            }
        }
        out
    } else {
        let n = w.unicode_len();
        proof {
            let (a, b) = choose|a: int, b: int|
                #![trigger w@.subrange(a, b)]
                0 <= a <= b <= w@.len() && t@ == w@.subrange(a, b) && (forall|k: int|
                    0 <= k < a ==> is_white(#[trigger] w@[k])) && (forall|k: int|
                    b <= k < w@.len() ==> is_white(#[trigger] w@[k])) && (a < b ==> !is_white(
                    w@[a],
                ) && !is_white(w@[b - 1]));
            assert(!is_white(w@[a]));
            assert(!all_white(w@));
        }
        let first = uppercase(w.substring_char(0, 1));
        let rest = w.substring_char(1, n);
        let r = out.concat(first.as_str()).concat(rest).concat(" ");
        proof {
            reveal_strlit(" ");
            assert(w@.take(1) =~= w@.subrange(0, 1));
            assert(w@.skip(1) =~= w@.subrange(1, n as int));
            assert(r@ =~= out@ + capitalized(w@) + seq![' ']);
        }
        r
    }
}

/// The title-case text of a snake-case text: its non-blank `_`-separated words, each with
/// its first character in upper case, joined by single spaces.
pub fn title_of_snake(sn: &str) -> (r: String)
    ensures
        is_trim_of(r@, title_words(sn@)),
{
    let n = sn.unicode_len();
    let mut out = String::new();
    let mut start: usize = 0;
    let mut i: usize = 0;
    assert(sn@.take(0) =~= seq![]);
    assert(sn@.subrange(0, 0) =~= seq![]);
    while i < n
        invariant
            n == sn@.len(),
            start <= i <= n,
            title_scan(sn@.take(i as int)) == (out@, sn@.subrange(start as int, i as int)),
        decreases n - i,
    {
        let c = sn.get_char(i);
        assert(sn@.take(i + 1).drop_last() =~= sn@.take(i as int));
        assert(sn@.take(i + 1).last() == c);
        if c == '_' {
            out = flush_word(out, sn.substring_char(start, i));
            start = i + 1;
            assert(sn@.subrange(start as int, i + 1) =~= seq![]);
        } else {
            assert(sn@.subrange(start as int, i + 1) =~= sn@.subrange(
                start as int,
                i as int,
            ).push(c));
        }
        i = i + 1;
    }
    assert(sn@.take(n as int) =~= sn@);
    out = flush_word(out, sn.substring_char(start, n));
    String::from_str(trim(out.as_str()))
}

/// Identifier case conversions.
pub trait CaseConvert {
    /// The text in snake case.
    fn to_wsdf_snake_case(&self) -> (r: String);

    /// The text in title case: its snake-case words capitalized and joined by single spaces.
    fn to_wsdf_title_case(&self) -> (r: String);

    /// The title-case text in upper case.
    fn to_wsdf_upper_case(&self) -> (r: String);
}

impl CaseConvert for str {
    fn to_wsdf_snake_case(&self) -> (r: String)
        ensures
            r@ == snake_of(self@),
    {
        replace_case_boundaries(self)
    }

    fn to_wsdf_title_case(&self) -> (r: String)
        ensures
            is_trim_of(r@, title_words(snake_of(self@))),
    {
        let snake = self.to_wsdf_snake_case();
        title_of_snake(snake.as_str())
    }

    fn to_wsdf_upper_case(&self) -> (r: String)
        ensures
            exists|t: Seq<char>| is_trim_of(t, title_words(snake_of(self@))) && r@ == upper_of(t),
    {
        let t = self.to_wsdf_title_case();
        uppercase(t.as_str())
    }
}

} // verus!
