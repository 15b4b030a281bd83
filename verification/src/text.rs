//! Text handling: case folding, whitespace and tokens.

use vstd::prelude::*;
use vstd::std_specs::iter::IteratorSpec;

verus! {

broadcast use vstd::string::group_string_axioms;

/// Whether a character has the Unicode property `White_Space`: the
/// controls from tab to carriage return, the space, the next-line control,
/// the no-break space, the Ogham space mark, the spaces from en quad to hair
/// space, the line and the paragraph separator, the narrow no-break space,
/// the medium mathematical space and the ideographic space.
pub open spec fn is_whitespace(c: char) -> bool {
    let code = c as u32;
    ||| 0x09 <= code <= 0x0d
    ||| code == 0x20
    ||| code == 0x85
    ||| code == 0xa0
    ||| code == 0x1680
    ||| 0x2000 <= code <= 0x200a
    ||| code == 0x2028
    ||| code == 0x2029
    ||| code == 0x202f
    ||| code == 0x205f
    ||| code == 0x3000
}

/// Whether a character has the Unicode property `White_Space`.
pub fn is_space(c: char) -> (b: bool)
    ensures
        b == is_whitespace(c),
{
    let code: u32 = c as u32;
    (0x09 <= code && code <= 0x0d) || code == 0x20 || code == 0x85 || code == 0xa0 || code
        == 0x1680 || (0x2000 <= code && code <= 0x200a) || code == 0x2028 || code == 0x2029
        || code == 0x202f || code == 0x205f || code == 0x3000
}

/// The lower-case form of a text under the Unicode case mapping.
pub uninterp spec fn lowercase(text: Seq<char>) -> Seq<char>;

/// The upper-case form of a text under the Unicode case mapping.
pub uninterp spec fn uppercase(text: Seq<char>) -> Seq<char>;

/// `str::to_lowercase` returns the lower-case form of the text; the result
/// depends on the text alone.
pub assume_specification[ str::to_lowercase ](text: &str) -> (out: String)
    ensures
        out@ == lowercase(text@),
;

/// `str::to_uppercase` returns the upper-case form of the text; the result
/// depends on the text alone.
pub assume_specification[ str::to_uppercase ](text: &str) -> (out: String)
    ensures
        out@ == uppercase(text@),
;

/// `String::push` appends the character to the end of the string.
pub assume_specification[ String::push ](text: &mut String, c: char)
    ensures
        final(text)@ == old(text)@.push(c),
;

/// The characters of each string of a list.
pub open spec fn string_views(items: Seq<String>) -> Seq<Seq<char>> {
    items.map_values(|s: String| s@)
}

/// For each character of a text, whether it is whitespace.
pub open spec fn gaps_of(text: Seq<char>) -> Seq<bool> {
    Seq::new(text.len(), |i: int| is_whitespace(text[i]))
}

/// The character at place `i` is marked as a gap.
pub open spec fn is_gap(gaps: Seq<bool>, i: int) -> bool {
    0 <= i < gaps.len() && gaps[i]
}

/// The run that has ended, if it holds anything.
pub open spec fn ended(current: Seq<char>) -> Seq<Seq<char>> {
    if current.len() == 0 {
        Seq::empty()
    } else {
        seq![current]
    }
}

/// The runs of `text` from place `i` on, when the characters in `current`,
/// read just before, belong to a run that has not ended yet.
pub open spec fn runs_from(text: Seq<char>, gaps: Seq<bool>, i: int, current: Seq<char>) -> Seq<
    Seq<char>,
>
    decreases text.len() - i,
{
    if i < 0 || i >= text.len() {
        ended(current)
    } else if is_gap(gaps, i) {
        ended(current) + runs_from(text, gaps, i + 1, Seq::empty())
    } else {
        runs_from(text, gaps, i + 1, current.push(text[i]))
    }
}

/// The runs of a text between its gaps: the maximal stretches of
/// characters that are not marked, in order.
pub open spec fn runs(text: Seq<char>, gaps: Seq<bool>) -> Seq<Seq<char>> {
    runs_from(text, gaps, 0, Seq::empty())
}

/// The tokens of a text: its maximal runs of characters that are not
/// whitespace, in order.
pub open spec fn tokens(text: Seq<char>) -> Seq<Seq<char>> {
    runs(text, gaps_of(text))
}

/// A run of characters: not empty, and without whitespace.
pub open spec fn is_word(token: Seq<char>) -> bool {
    token.len() > 0 && forall|i: int| 0 <= i < token.len() ==> !is_whitespace(#[trigger] token[i])
}

/// Every token found after a run without whitespace is a word.
pub proof fn lemma_runs_are_words(text: Seq<char>, i: int, current: Seq<char>)
    requires
        0 <= i,
        forall|k: int| 0 <= k < current.len() ==> !is_whitespace(#[trigger] current[k]),
    ensures
        forall|k: int|
            0 <= k < runs_from(text, gaps_of(text), i, current).len() ==> is_word(
                #[trigger] runs_from(text, gaps_of(text), i, current)[k],
            ),
    decreases text.len() - i,
{
    let gaps = gaps_of(text);
    let found = runs_from(text, gaps, i, current);
    if i >= text.len() {
        assert forall|k: int| 0 <= k < found.len() implies is_word(#[trigger] found[k]) by {
            assert(found[k] == current);
        }
    } else if is_gap(gaps, i) {
        let rest = runs_from(text, gaps, i + 1, Seq::empty());
        lemma_runs_are_words(text, i + 1, Seq::empty());
        assert forall|k: int| 0 <= k < found.len() implies is_word(#[trigger] found[k]) by {
            if current.len() == 0 {
                assert(found[k] == rest[k]);
            } else if k == 0 {
                assert(found[0] == current);
            } else {
                assert(found[k] == rest[k - 1]);
            }
        }
    } else {
        let longer = current.push(text[i]);
        assert(gaps[i] == is_whitespace(text[i]));
        assert forall|k: int| 0 <= k < longer.len() implies !is_whitespace(
            #[trigger] longer[k],
        ) by {
            if k < current.len() {
                assert(longer[k] == current[k]);
            }
        }
        lemma_runs_are_words(text, i + 1, longer);
        assert(found == runs_from(text, gaps, i + 1, longer));
    }
}

/// Every token of a text is a word: it is not empty and holds no
/// whitespace.
pub proof fn lemma_tokens_are_words(text: Seq<char>)
    ensures
        forall|k: int| 0 <= k < tokens(text).len() ==> is_word(#[trigger] tokens(text)[k]),
{
    lemma_runs_are_words(text, 0, Seq::empty());
}

/// For each character of a text, whether it is whitespace.
pub fn mark_gaps(text: &str) -> (gaps: Vec<bool>)
    ensures
        gaps@ == gaps_of(text@),
{
    let mut gaps: Vec<bool> = Vec::new();
    let mut rest = text.chars();
    assert(text@.skip(0) =~= text@);
    loop
        invariant
            rest.obeys_prophetic_iter_laws(),
            rest.decrease() is Some,
            gaps@.len() <= text@.len(),
            rest.remaining() == text@.skip(gaps@.len() as int),
            forall|k: int| 0 <= k < gaps@.len() ==> gaps@[k] == is_whitespace(text@[k]),
        ensures
            gaps@.len() == text@.len(),
            forall|k: int| 0 <= k < gaps@.len() ==> gaps@[k] == is_whitespace(text@[k]),
        decreases rest.decrease()->0,
    {
        let ghost at = gaps@.len() as int;
        match rest.next() {
            None => {
                break ;
            },
            Some(c) => {
                assert(c == text@[at]);
                assert(text@.skip(at).drop_first() =~= text@.skip(at + 1));
                gaps.push(is_space(c));
            },
        }
    }
    assert(gaps@ =~= gaps_of(text@));
    gaps
}

/// Splits a text into the runs between its gaps. A character without a
/// mark is no gap.
pub fn split_runs(text: &str, gaps: &[bool]) -> (out: Vec<String>)
    ensures
        string_views(out@) == runs(text@, gaps@),
{
    let mut out: Vec<String> = Vec::new();
    let mut current = String::new();
    let mut rest = text.chars();
    let mut marked: usize = 0;
    let ghost mut at: int = 0;
    proof {
        assert(text@.skip(0) =~= text@);
        assert(string_views(out@) + runs_from(text@, gaps@, 0, current@) =~= runs(text@, gaps@));
    }
    loop
        invariant
            rest.obeys_prophetic_iter_laws(),
            rest.decrease() is Some,
            0 <= at <= text@.len(),
            rest.remaining() == text@.skip(at),
            marked <= gaps@.len(),
            marked == if at < gaps@.len() {
                at
            } else {
                gaps@.len() as int
            },
            runs(text@, gaps@) == string_views(out@) + runs_from(text@, gaps@, at, current@),
        ensures
            runs(text@, gaps@) == string_views(out@) + ended(current@),
        decreases rest.decrease()->0,
    {
        let ghost done = string_views(out@);
        match rest.next() {
            None => {
                break ;
            },
            Some(c) => {
                assert(c == text@[at]);
                assert(text@.skip(at).drop_first() =~= text@.skip(at + 1));
                let gap = if marked < gaps.len() {
                    let gap = gaps[marked];
                    marked = marked + 1;
                    gap
                } else {
                    false
                };
                assert(gap == is_gap(gaps@, at));
                if gap {
                    if !current.as_str().is_empty() {
                        let ghost token = current@;
                        out.push(current);
                        current = String::new();
                        assert(string_views(out@) =~= done.push(token));
                        assert(done + (seq![token] + runs_from(
                            text@,
                            gaps@,
                            at + 1,
                            Seq::empty(),
                        )) =~= done.push(token) + runs_from(text@, gaps@, at + 1, Seq::empty()));
                    } else {
                        assert(current@ =~= Seq::<char>::empty());
                        assert(done + (Seq::<Seq<char>>::empty() + runs_from(
                            text@,
                            gaps@,
                            at + 1,
                            Seq::empty(),
                        )) =~= done + runs_from(text@, gaps@, at + 1, Seq::empty()));
                    }
                } else {
                    current.push(c);
                }
                proof {
                    at = at + 1;
                }
            },
        }
    }
    if !current.as_str().is_empty() {
        let ghost done = string_views(out@);
        let ghost token = current@;
        out.push(current);
        assert(string_views(out@) =~= done.push(token));
        assert(done + seq![token] =~= done.push(token));
    } else {
        assert(string_views(out@) + Seq::<Seq<char>>::empty() =~= string_views(out@));
    }
    out
}

/// Splits a text into its tokens.
pub fn tokenize(text: &str) -> (out: Vec<String>)
    ensures
        string_views(out@) == tokens(text@),
{
    let gaps = mark_gaps(text);
    split_runs(text, gaps.as_slice())
}

/// Whether two texts are the same.
pub fn same_text(a: &str, b: &str) -> (same: bool)
    ensures
        same == (a@ == b@),
{
    let left: String = a.to_owned();
    let right: String = b.to_owned();
    left == right
}

/// The character of a decimal digit.
pub open spec fn digit(d: int) -> char
    recommends
        0 <= d < 10,
{
    if d == 0 {
        '0'
    } else if d == 1 {
        '1'
    } else if d == 2 {
        '2'
    } else if d == 3 {
        '3'
    } else if d == 4 {
        '4'
    } else if d == 5 {
        '5'
    } else if d == 6 {
        '6'
    } else if d == 7 {
        '7'
    } else if d == 8 {
        '8'
    } else {
        '9'
    }
}

/// The decimal notation of a number, without leading zeros.
pub open spec fn decimal(n: nat) -> Seq<char>
    decreases n,
{
    if n < 10 {
        seq![digit(n as int)]
    } else {
        decimal(n / 10).push(digit((n % 10) as int))
    }
}

/// The character of a decimal digit.
pub(crate) fn digit_char(d: usize) -> (c: char)
    requires
        d < 10,
    ensures
        c == digit(d as int),
{
    if d == 0 {
        '0'
    } else if d == 1 {
        '1'
    } else if d == 2 {
        '2'
    } else if d == 3 {
        '3'
    } else if d == 4 {
        '4'
    } else if d == 5 {
        '5'
    } else if d == 6 {
        '6'
    } else if d == 7 {
        '7'
    } else if d == 8 {
        '8'
    } else {
        '9'
    }
}

/// The decimal notation of a number.
pub fn to_decimal(n: usize) -> (out: String)
    ensures
        out@ == decimal(n as nat),
    decreases n,
{
    if n < 10 {
        let mut out = String::new();
        out.push(digit_char(n));
        assert(out@ =~= seq![digit(n as int)]);
        out
    } else {
        let mut out = to_decimal(n / 10);
        out.push(digit_char(n % 10));
        out
    }
}

} // verus!
