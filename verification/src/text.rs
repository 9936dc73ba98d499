//! Texts as sequences of characters: lists of texts, joining them, and
//! splitting a text into its words.

use vstd::prelude::*;
use vstd::std_specs::iter::IteratorSpec;
use vstd::string::{StrSliceExecFns, StringExecFns};

verus! {

broadcast use vstd::string::group_string_axioms;

/// The views of `texts`, in their order.
pub open spec fn texts_of(texts: Seq<String>) -> Seq<Seq<char>> {
    texts.map_values(|s: String| s@)
}

/// Whether `c` is white space: one of the code points that Unicode gives
/// the property White_Space.
pub open spec fn is_space(c: char) -> bool {
    ||| c == ' '
    ||| '\t' <= c <= '\r'
    ||| c == '\u{85}'
    ||| c == '\u{a0}'
    ||| c == '\u{1680}'
    ||| '\u{2000}' <= c <= '\u{200a}'
    ||| c == '\u{2028}'
    ||| c == '\u{2029}'
    ||| c == '\u{202f}'
    ||| c == '\u{205f}'
    ||| c == '\u{3000}'
}

/// The words of `s`: its maximal runs of characters that are not white
/// space, in order.
pub open spec fn words(s: Seq<char>) -> Seq<Seq<char>>
    decreases s.len(),
{
    if s.len() == 0 {
        Seq::empty()
    } else {
        let before = words(s.drop_last());
        if is_space(s.last()) {
            before
        } else if s.len() > 1 && !is_space(s[s.len() - 2]) {
            before.drop_last().push(before.last().push(s.last()))
        } else {
            before.push(seq![s.last()])
        }
    }
}

/// No word is empty, and no word holds white space.
pub proof fn lemma_words_hold_no_space(s: Seq<char>)
    ensures
        forall|i: int, j: int|
            0 <= i < words(s).len() && 0 <= j < words(s)[i].len() ==> !is_space(
                #[trigger] words(s)[i][j],
            ),
        forall|i: int| 0 <= i < words(s).len() ==> (#[trigger] words(s)[i]).len() > 0,
        s.len() > 0 && !is_space(s.last()) ==> words(s).len() > 0,
    decreases s.len(),
{
    if s.len() > 0 {
        let shorter = s.drop_last();
        let before = words(shorter);
        let all = words(s);
        lemma_words_hold_no_space(shorter);
        if s.len() > 1 {
            assert(shorter.last() == s[s.len() - 2]);
        }
        assert forall|i: int| 0 <= i < all.len() implies (#[trigger] all[i]).len() > 0 && forall|
            j: int,
        | 0 <= j < all[i].len() ==> !is_space(#[trigger] all[i][j]) by {
            if i < before.len() - 1 || (i < before.len() && all.len() > before.len()) || is_space(
                s.last(),
            ) {
                assert(all[i] == before[i]);
            } else if all.len() == before.len() {
                assert(all[i] == before.last().push(s.last()));
                assert forall|j: int| 0 <= j < all[i].len() implies !is_space(
                    #[trigger] all[i][j],
                ) by {
                    if j < before.last().len() {
                        assert(all[i][j] == before[before.len() - 1][j]);
                    }
                }
            } else {
                assert(all[i] == seq![s.last()]);
            }
        }
    }
}

/// The views of the string slices `texts`, in their order.
pub open spec fn strs_of(texts: Seq<&str>) -> Seq<Seq<char>> {
    texts.map_values(|s: &str| s@)
}

/// Whether `c` is white space.
pub fn is_space_char(c: char) -> (r: bool)
    ensures
        r == is_space(c),
{
    c == ' ' || ('\t' <= c && c <= '\r') || c == '\u{85}' || c == '\u{a0}' || c == '\u{1680}' || (
    '\u{2000}' <= c && c <= '\u{200a}') || c == '\u{2028}' || c == '\u{2029}' || c == '\u{202f}'
        || c == '\u{205f}' || c == '\u{3000}'
}

/// Splits `input` into its words.
pub fn split_words<'a>(input: &'a str) -> (tokens: Vec<&'a str>)
    ensures
        strs_of(tokens@) == words(input@),
{
    let ghost s = input@;
    let length = input.unicode_len();
    let mut tokens: Vec<&'a str> = Vec::new();
    let mut chars = input.chars();
    let mut i: usize = 0;
    let mut start: usize = 0;
    let mut in_word = false;
    assert(s.subrange(0, 0) =~= Seq::empty());
    assert(strs_of(tokens@) =~= Seq::empty());
    loop
        invariant_except_break
            chars.remaining() == s.skip(i as int),
        invariant
            s == input@,
            length == s.len(),
            0 <= i <= length,
            chars.obeys_prophetic_iter_laws(),
            in_word ==> start < i && !is_space(s[i - 1]),
            !in_word ==> i == 0 || is_space(s[i - 1]),
            words(s.subrange(0, i as int)) == if in_word {
                strs_of(tokens@).push(s.subrange(start as int, i as int))
            } else {
                strs_of(tokens@)
            },
        ensures
            i == length,
        decreases length - i,
    {
        let ghost done = strs_of(tokens@);
        match chars.next() {
            None => {
                break ;
            },
            Some(c) => {
                proof {
                    assert(s.skip(i as int).drop_first() =~= s.skip(i + 1));
                    assert(s.subrange(0, i + 1).drop_last() =~= s.subrange(0, i as int));
                    assert(s.subrange(0, i + 1).last() == c);
                }
                if is_space_char(c) {
                    if in_word {
                        let word = input.substring_char(start, i);
                        tokens.push(word);
                        assert(strs_of(tokens@) =~= done.push(s.subrange(start as int, i as int)));
                        in_word = false;
                    }
                } else {
                    if !in_word {
                        start = i;
                        in_word = true;
                        assert(s.subrange(i as int, i + 1) =~= seq![c]);
                    } else {
                        assert(s.subrange(start as int, i as int).push(c) =~= s.subrange(
                            start as int,
                            i + 1,
                        ));
                        assert(done.push(s.subrange(start as int, i as int)).drop_last() =~= done);
                    }
                }
                i = i + 1;
            },
        }
    }
    assert(s.subrange(0, i as int) =~= s);
    if in_word {
        let ghost done = strs_of(tokens@);
        let word = input.substring_char(start, i);
        tokens.push(word);
        assert(strs_of(tokens@) =~= done.push(s.subrange(start as int, i as int)));
    }
    tokens
}

/// Copies the words into strings of their own.
pub fn owned_tokens(tokens: &Vec<&str>) -> (owned: Vec<String>)
    ensures
        texts_of(owned@) == strs_of(tokens@),
{
    let mut owned: Vec<String> = Vec::new();
    let mut i: usize = 0;
    while i < tokens.len()
        invariant
            0 <= i <= tokens.len(),
            owned.len() == i,
            forall|k: int| 0 <= k < i ==> (#[trigger] owned[k])@ == tokens[k]@,
        decreases tokens.len() - i,
    {
        owned.push(String::from_str(tokens[i]));
        i = i + 1;
    }
    assert(texts_of(owned@) =~= strs_of(tokens@));
    owned
}

/// The texts of `parts`, each two neighbours with `separator` between them.
pub open spec fn joined(parts: Seq<Seq<char>>, separator: Seq<char>) -> Seq<char>
    decreases parts.len(),
{
    if parts.len() == 0 {
        Seq::empty()
    } else if parts.len() == 1 {
        parts[0]
    } else {
        joined(parts.drop_last(), separator) + separator + parts.last()
    }
}

/// Appends `parts` to `out`, with `separator` between neighbours.
pub fn append_joined(out: &mut String, parts: &Vec<String>, separator: &str)
    ensures
        final(out)@ == old(out)@ + joined(texts_of(parts@), separator@),
{
    let ghost all = texts_of(parts@);
    let mut i: usize = 0;
    assert(all.subrange(0, 0).len() == 0);
    assert(out@ =~= old(out)@ + joined(all.subrange(0, 0), separator@));
    while i < parts.len()
        invariant
            0 <= i <= parts.len(),
            all == texts_of(parts@),
            out@ == old(out)@ + joined(all.subrange(0, i as int), separator@),
        decreases parts.len() - i,
    {
        let ghost before = all.subrange(0, i as int);
        let ghost after = all.subrange(0, i + 1);
        assert(after.drop_last() =~= before);
        assert(after.last() == parts[i as int]@);
        if i > 0 {
            out.append(separator);
        }
        out.append(parts[i].as_str());
        proof {
            if i == 0 {
                assert(joined(after, separator@) =~= parts[i as int]@);
                assert(joined(before, separator@) =~= Seq::<char>::empty());
                assert(out@ =~= old(out)@ + joined(after, separator@));
            } else {
                assert(out@ =~= old(out)@ + joined(after, separator@));
            }
        }
        i = i + 1;
    }
    assert(all.subrange(0, i as int) =~= all);
}

} // verus!
