//! Texts as sequences of characters: whether one occurs in another, the words
//! of a text, and white space.

use vstd::prelude::*;
use vstd::std_specs::iter::IteratorSpec;
use vstd::string::StringExecFns;

verus! {

/// The characters of `s`, in order.
pub fn chars_of(s: &str) -> (v: Vec<char>)
    ensures
        v@ == s@,
{
    let mut v: Vec<char> = Vec::new();
    for c in it: s.chars()
        invariant
            v@ == it.seq().take(it.index() as int),
            it.seq() == s@,
    {
        v.push(c);
    }
    v
}

/// Whether `a` and `b` hold the same characters.
pub fn same_text(a: &str, b: &str) -> (r: bool)
    ensures
        r == (a@ == b@),
{
    a.to_owned() == b.to_owned()
}

/// `needle` occurs in `hay` as a contiguous run starting at `k`.
pub open spec fn occurs_at(needle: Seq<char>, hay: Seq<char>, k: int) -> bool {
    &&& 0 <= k
    &&& k + needle.len() <= hay.len()
    &&& hay.subrange(k, k + needle.len()) == needle
}

/// `needle` occurs somewhere in `hay` as a contiguous run of characters. The
/// empty text occurs in every text.
pub open spec fn is_substring(needle: Seq<char>, hay: Seq<char>) -> bool {
    exists|k: int| occurs_at(needle, hay, k)
}

/// Whether `needle` occurs in `hay` at position `k`.
fn matches_at(needle: &Vec<char>, hay: &Vec<char>, k: usize) -> (r: bool)
    requires
        k + needle.len() <= hay.len(),
    ensures
        r == occurs_at(needle@, hay@, k as int),
{
    let mut j: usize = 0;
    while j < needle.len()
        invariant
            k + needle.len() <= hay.len(),
            j <= needle.len(),
            forall|l: int| 0 <= l < j ==> hay@[k + l] == needle@[l],
        decreases needle.len() - j,
    {
        if hay[k + j] != needle[j] {
            assert(hay@.subrange(k as int, k + needle.len())[j as int] != needle@[j as int]);
            return false;
        }
        j += 1;
    }
    assert(hay@.subrange(k as int, k + needle.len()) =~= needle@);
    true
}

/// Whether `needle` occurs in `hay`, by trying each starting position in turn.
pub fn contains_chars(hay: &Vec<char>, needle: &Vec<char>) -> (r: bool)
    ensures
        r == is_substring(needle@, hay@),
{
    if needle.len() > hay.len() {
        return false;
    }
    let last: usize = hay.len() - needle.len();
    let mut k: usize = 0;
    loop
        invariant
            last == hay.len() - needle.len(),
            k <= last,
            forall|l: int| 0 <= l < k ==> !occurs_at(needle@, hay@, l),
        decreases last - k,
    {
        if matches_at(needle, hay, k) {
            return true;
        }
        if k == last {
            return false;
        }
        k += 1;
    }
}

/// Whether `c` is white space: one of the characters that Unicode gives the
/// property `White_Space`.
pub open spec fn is_whitespace(c: char) -> bool {
    let code = c as int;
    ||| 0x09 <= code <= 0x0D
    ||| code == 0x20
    ||| code == 0x85
    ||| code == 0xA0
    ||| code == 0x1680
    ||| 0x2000 <= code <= 0x200A
    ||| code == 0x2028
    ||| code == 0x2029
    ||| code == 0x202F
    ||| code == 0x205F
    ||| code == 0x3000
}

/// Whether `c` is white space.
pub fn is_whitespace_char(c: char) -> (r: bool)
    ensures
        r == is_whitespace(c),
{
    let code = c as u32;
    (0x09 <= code && code <= 0x0D) || code == 0x20 || code == 0x85 || code == 0xA0 || code
        == 0x1680 || (0x2000 <= code && code <= 0x200A) || code == 0x2028 || code == 0x2029 || code
        == 0x202F || code == 0x205F || code == 0x3000
}

/// `word` as a list of words: one word, or none where `word` is empty.
pub open spec fn word_if_any(word: Seq<char>) -> Seq<Seq<char>> {
    if word.len() > 0 {
        seq![word]
    } else {
        Seq::empty()
    }
}

/// The words of `word + s`, where `word` is the start of a word read so far:
/// white space ends a word, and what is left at the end of the text is a word.
pub open spec fn words_after(s: Seq<char>, word: Seq<char>) -> Seq<Seq<char>>
    decreases s.len(),
{
    if s.len() == 0 {
        word_if_any(word)
    } else if is_whitespace(s[0]) {
        word_if_any(word) + words_after(s.drop_first(), Seq::empty())
    } else {
        words_after(s.drop_first(), word.push(s[0]))
    }
}

/// The words of `s`: its longest runs of characters that are not white space,
/// in order. None of them is empty.
pub open spec fn words(s: Seq<char>) -> Seq<Seq<char>> {
    words_after(s, Seq::empty())
}

/// Whether `word` can be a word of a text: it is not empty and holds no white
/// space.
pub open spec fn is_word(word: Seq<char>) -> bool {
    word.len() > 0 && forall|j: int| 0 <= j < word.len() ==> !is_whitespace(#[trigger] word[j])
}

/// `words` joined into one text, with one space between each two of them.
pub open spec fn joined(words: Seq<Seq<char>>) -> Seq<char>
    decreases words.len(),
{
    if words.len() == 0 {
        Seq::empty()
    } else if words.len() == 1 {
        words[0]
    } else {
        joined(words.drop_last()) + seq![' '] + words.last()
    }
}

/// The characters of each of `texts`, for borrowed texts.
pub open spec fn texts_view(texts: Seq<&str>) -> Seq<Seq<char>> {
    texts.map_values(|t: &str| t@)
}

/// The characters of each of `texts`, for owned texts.
pub open spec fn strings_view(texts: Seq<String>) -> Seq<Seq<char>> {
    texts.map_values(|t: String| t@)
}

/// Splits `text` into its words, at white space.
pub fn split_words<'a>(text: &'a str) -> (found: Vec<&'a str>)
    ensures
        texts_view(found@) == words(text@),
{
    let chars = chars_of(text);
    let mut found: Vec<&'a str> = Vec::new();
    let mut start: usize = 0;
    let mut i: usize = 0;
    assert(chars@.skip(0) =~= chars@);
    assert(chars@.subrange(0, 0) =~= Seq::<char>::empty());
    while i < chars.len()
        invariant
            chars@ == text@,
            start <= i <= chars.len(),
            texts_view(found@) + words_after(
                chars@.skip(i as int),
                chars@.subrange(start as int, i as int),
            ) == words(text@),
        decreases chars.len() - i,
    {
        let ghost word = chars@.subrange(start as int, i as int);
        let ghost before = texts_view(found@);
        assert(chars@.skip(i as int).drop_first() =~= chars@.skip(i + 1));
        if is_whitespace_char(chars[i]) {
            if start < i {
                found.push(text.substring_char(start, i));
                assert(texts_view(found@) =~= before + word_if_any(word));
            }
            start = i + 1;
            assert(chars@.subrange(start as int, i + 1) =~= Seq::<char>::empty());
        } else {
            assert(chars@.subrange(start as int, i + 1) =~= word.push(chars@[i as int]));
        }
        i += 1;
    }
    let ghost word = chars@.subrange(start as int, i as int);
    let ghost before = texts_view(found@);
    if start < i {
        found.push(text.substring_char(start, i));
        assert(texts_view(found@) =~= before + word_if_any(word));
    }
    found
}

/// Joins `words` into one text, with one space between each two of them.
pub fn join_words(words: &[&str]) -> (text: String)
    ensures
        text@ == joined(texts_view(words@)),
{
    let mut text = String::new();
    let mut i: usize = 0;
    let ghost all = texts_view(words@);
    while i < words.len()
        invariant
            i <= words.len(),
            all == texts_view(words@),
            text@ == joined(all.take(i as int)),
        decreases words.len() - i,
    {
        let ghost done = text@;
        if i > 0 {
            proof {
                reveal_strlit(" ");
            }
            text.append(" ");
        }
        text.append(words[i]);
        proof {
            let longer = all.take(i + 1);
            assert(longer.drop_last() =~= all.take(i as int));
            if i > 0 {
                assert(text@ =~= done + seq![' '] + words@[i as int]@);
            } else {
                assert(text@ =~= words@[i as int]@);
            }
        }
        i += 1;
    }
    assert(all.take(i as int) =~= all);
    text
}

/// What follows the start of a word is split into words that are not empty and
/// hold no white space.
proof fn lemma_words_after_are_words(s: Seq<char>, word: Seq<char>)
    requires
        forall|j: int| 0 <= j < word.len() ==> !is_whitespace(#[trigger] word[j]),
    ensures
        forall|i: int|
            0 <= i < words_after(s, word).len() ==> is_word(#[trigger] words_after(s, word)[i]),
    decreases s.len(),
{
    let found = words_after(s, word);
    if s.len() == 0 {
        assert forall|i: int| 0 <= i < found.len() implies is_word(#[trigger] found[i]) by {
            assert(found[i] == word);
        }
    } else if is_whitespace(s[0]) {
        let later = words_after(s.drop_first(), Seq::empty());
        lemma_words_after_are_words(s.drop_first(), Seq::empty());
        assert forall|i: int| 0 <= i < found.len() implies is_word(#[trigger] found[i]) by {
            if i < word_if_any(word).len() {
                assert(found[i] == word);
            } else {
                assert(found[i] == later[i - word_if_any(word).len()]);
            }
        }
    } else {
        lemma_words_after_are_words(s.drop_first(), word.push(s[0]));
        assert(found == words_after(s.drop_first(), word.push(s[0])));
    }
}

/// Every word of a text is a run of characters that is not empty and holds no
/// white space.
pub proof fn lemma_words_are_words(s: Seq<char>)
    ensures
        forall|i: int| 0 <= i < words(s).len() ==> is_word(#[trigger] words(s)[i]),
{
    lemma_words_after_are_words(s, Seq::empty());
}

/// Characters that are not white space go on with the word read so far.
proof fn lemma_words_after_run(run: Seq<char>, rest: Seq<char>, word: Seq<char>)
    requires
        forall|j: int| 0 <= j < run.len() ==> !is_whitespace(#[trigger] run[j]),
    ensures
        words_after(run + rest, word) == words_after(rest, word + run),
    decreases run.len(),
{
    if run.len() == 0 {
        assert(run + rest =~= rest);
        assert(word + run =~= word);
    } else {
        assert((run + rest).drop_first() =~= run.drop_first() + rest);
        lemma_words_after_run(run.drop_first(), rest, word.push(run[0]));
        assert(word.push(run[0]) + run.drop_first() =~= word + run);
    }
}

/// The words of a joined text that something follows: all words but the last,
/// and then what the last word and what follows it are split into.
proof fn lemma_words_of_joined_then(list: Seq<Seq<char>>, rest: Seq<char>)
    requires
        list.len() > 0,
        forall|i: int| 0 <= i < list.len() ==> is_word(#[trigger] list[i]),
    ensures
        words(joined(list) + rest) == list.drop_last() + words_after(rest, list.last()),
    decreases list.len(),
{
    if list.len() == 1 {
        lemma_words_after_run(list[0], rest, Seq::empty());
        assert(Seq::<char>::empty() + list[0] =~= list[0]);
        assert(list.drop_last() + words_after(rest, list.last()) =~= words_after(rest, list[0]));
    } else {
        let before = list.drop_last();
        let last = list.last();
        let tail = seq![' '] + (last + rest);
        assert(joined(list) + rest =~= joined(before) + tail);
        lemma_words_of_joined_then(before, tail);
        assert(tail.drop_first() =~= last + rest);
        lemma_words_after_run(last, rest, Seq::empty());
        assert(Seq::<char>::empty() + last =~= last);
        assert(is_word(before.last()));
        assert(before.drop_last() + (seq![before.last()] + words_after(rest, last)) =~= before
            + words_after(rest, last));
    }
}

/// Splitting a text that was joined from words gives the words back.
pub proof fn lemma_words_of_joined(list: Seq<Seq<char>>)
    requires
        forall|i: int| 0 <= i < list.len() ==> is_word(#[trigger] list[i]),
    ensures
        words(joined(list)) == list,
{
    if list.len() == 0 {
        assert(words(joined(list)) =~= list);
    } else {
        lemma_words_of_joined_then(list, Seq::empty());
        assert(joined(list) + Seq::<char>::empty() =~= joined(list));
        assert(is_word(list.last()));
        assert(list.drop_last() + seq![list.last()] =~= list);
    }
}

} // verus!
