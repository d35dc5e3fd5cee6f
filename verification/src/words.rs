//! The word source: category identifiers and the length/comment filter that
//! turns a raw newline-delimited word resource into candidate words.
use vstd::prelude::*;

verus! {

/// A type of word list, either by theme or age.
#[derive(Clone, Copy, PartialEq, Eq, Structural, Debug)]
pub enum WordListType {
    EarlyPrimary,
    MidPrimary,
    LatePrimary,
    Dragons,
}

impl WordListType {
    /// Every available category, in their fixed presentation order.
    pub fn get_options() -> (options: Vec<WordListType>)
        ensures
            options@ == seq![
                WordListType::EarlyPrimary,
                WordListType::MidPrimary,
                WordListType::LatePrimary,
                WordListType::Dragons,
            ],
    {
        let options = vec![
            WordListType::EarlyPrimary,
            WordListType::MidPrimary,
            WordListType::LatePrimary,
            WordListType::Dragons,
        ];
        proof {
            assert(options@ =~= seq![
                WordListType::EarlyPrimary,
                WordListType::MidPrimary,
                WordListType::LatePrimary,
                WordListType::Dragons,
            ]);
        }
        options
    }
}

/// The character sequences of a list of words.
pub open spec fn views_of(words: Seq<String>) -> Seq<Seq<char>> {
    words.map_values(|s: String| s@)
}

/// The whitespace characters that trimming removes from a line's ends: the
/// Unicode White_Space set, the same set `str::trim` strips.
pub open spec fn is_wspace(c: char) -> bool {
    ||| '\u{0009}' <= c && c <= '\u{000D}'
    ||| c == ' '
    ||| c == '\u{0085}'
    ||| c == '\u{00A0}'
    ||| c == '\u{1680}'
    ||| '\u{2000}' <= c && c <= '\u{200A}'
    ||| c == '\u{2028}'
    ||| c == '\u{2029}'
    ||| c == '\u{202F}'
    ||| c == '\u{205F}'
    ||| c == '\u{3000}'
}

/// A line with leading and trailing whitespace removed.
pub open spec fn trim_spec(s: Seq<char>) -> Seq<char>
    decreases s.len(),
{
    if s.len() == 0 {
        s
    } else if is_wspace(s.first()) {
        trim_spec(s.drop_first())
    } else if is_wspace(s.last()) {
        trim_spec(s.drop_last())
    } else {
        s
    }
}

/// Whether a trimmed line survives the filter: not a `--` comment,
/// at least 3 characters, and no longer than the grid is wide.
pub open spec fn keep_word(t: Seq<char>, max: nat) -> bool {
    &&& !(t.len() >= 2 && t[0] == '-' && t[1] == '-')
    &&& 3 <= t.len()
    &&& t.len() <= max
}

/// The candidate words one raw line contributes: its trimmed form if it
/// passes the filter, nothing otherwise.
pub open spec fn line_words(line: Seq<char>, max: nat) -> Seq<Seq<char>> {
    if keep_word(trim_spec(line), max) {
        seq![trim_spec(line)]
    } else {
        Seq::empty()
    }
}

/// Index of the first newline in `text`, or `text.len()` if there is none.
pub open spec fn first_nl(text: Seq<char>) -> nat
    decreases text.len(),
{
    if text.len() == 0 {
        0
    } else if text.first() == '\n' {
        0
    } else {
        (1 + first_nl(text.drop_first())) as nat
    }
}

/// The full filter: split `text` on newlines, trim each line, and keep the
/// lines that pass the filter, in order.
pub open spec fn filtered_words(text: Seq<char>, max: nat) -> Seq<Seq<char>>
    decreases text.len(),
{
    let k = first_nl(text);
    if k >= text.len() {
        line_words(text, max)
    } else {
        line_words(text.subrange(0, k as int), max) + filtered_words(
            text.subrange(k as int + 1, text.len() as int),
            max,
        )
    }
}

proof fn lemma_first_nl_is(t: Seq<char>, j: int)
    requires
        0 <= j <= t.len(),
        forall|i: int| 0 <= i < j ==> t[i] != '\n',
        j < t.len() ==> t[j] == '\n',
    ensures
        first_nl(t) == j,
    decreases t.len(),
{
    if t.len() == 0 {
    } else if t.first() == '\n' {
        assert(j == 0);
    } else {
        assert(j >= 1);
        lemma_first_nl_is(t.drop_first(), j - 1);
    }
}

proof fn lemma_trim_bounds(s: Seq<char>, a: int, b: int)
    requires
        0 <= a <= b <= s.len(),
        forall|i: int| 0 <= i < a ==> is_wspace(#[trigger] s[i]),
        forall|i: int| b <= i < s.len() ==> is_wspace(#[trigger] s[i]),
        a < b ==> !is_wspace(s[a]) && !is_wspace(s[b - 1]),
    ensures
        trim_spec(s) == s.subrange(a, b),
    decreases s.len(),
{
    if s.len() == 0 {
        assert(s.subrange(0, 0) =~= s);
    } else if is_wspace(s.first()) {
        if a == 0 {
            assert(a == b);
            lemma_trim_bounds(s.drop_first(), 0, 0);
            assert(s.drop_first().subrange(0, 0) =~= s.subrange(0, 0));
        } else {
            lemma_trim_bounds(s.drop_first(), a - 1, b - 1);
            assert(s.drop_first().subrange(a - 1, b - 1) =~= s.subrange(a, b));
        }
    } else {
        assert(a == 0);
        if is_wspace(s.last()) {
            assert(b < s.len());
            lemma_trim_bounds(s.drop_last(), 0, b);
            assert(s.drop_last().subrange(0, b) =~= s.subrange(0, b));
        } else {
            assert(b == s.len());
            assert(s.subrange(0, s.len() as int) =~= s);
        }
    }
}

proof fn lemma_filtered_words_step(text: Seq<char>, pos: int, k: int, max: nat)
    requires
        0 <= pos <= k <= text.len(),
        forall|i: int| pos <= i < k ==> text[i] != '\n',
        k < text.len() ==> text[k] == '\n',
    ensures
        filtered_words(text.subrange(pos, text.len() as int), max) == line_words(
            text.subrange(pos, k),
            max,
        ) + (if k < text.len() {
            filtered_words(text.subrange(k + 1, text.len() as int), max)
        } else {
            Seq::<Seq<char>>::empty()
        }),
{
    let n = text.len() as int;
    let rest = text.subrange(pos, n);
    lemma_first_nl_is(rest, k - pos);
    if k < n {
        assert(rest.subrange(0, k - pos) =~= text.subrange(pos, k));
        assert(rest.subrange(k - pos + 1, rest.len() as int) =~= text.subrange(k + 1, n));
    } else {
        assert(rest =~= text.subrange(pos, k));
        assert(line_words(rest, max) + Seq::<Seq<char>>::empty() =~= line_words(rest, max));
    }
}

/// Law: every word the filter lets through has length at least 3 and at most
/// `max` — no too-short and no too-long word ever reaches placement.
pub proof fn lemma_filtered_word_lengths(text: Seq<char>, max: nat)
    ensures
        forall|j: int|
            0 <= j < filtered_words(text, max).len() ==> 3 <= (#[trigger] filtered_words(
                text,
                max,
            )[j]).len() <= max,
    decreases text.len(),
{
    let k = first_nl(text);
    if k >= text.len() {
        assert forall|j: int| 0 <= j < filtered_words(text, max).len() implies 3 <= (
        #[trigger] filtered_words(text, max)[j]).len() <= max by {
            assert(filtered_words(text, max)[j] == trim_spec(text));
        }
    } else {
        let head = line_words(text.subrange(0, k as int), max);
        let tail = filtered_words(text.subrange(k as int + 1, text.len() as int), max);
        lemma_filtered_word_lengths(text.subrange(k as int + 1, text.len() as int), max);
        assert forall|j: int| 0 <= j < filtered_words(text, max).len() implies 3 <= (
        #[trigger] filtered_words(text, max)[j]).len() <= max by {
            if j < head.len() {
                assert(filtered_words(text, max)[j] == trim_spec(text.subrange(0, k as int)));
            } else {
                assert(filtered_words(text, max)[j] == tail[j - head.len()]);
            }
        }
    }
}

/// Law: the filter is deterministic and order-preserving. Two word lists
/// drawn from the same resource with the same length bound hold the same
/// words in the same order; all the randomness lives in the grid builder.
pub proof fn lemma_filter_deterministic(w1: Seq<String>, w2: Seq<String>, text: Seq<char>, max: nat)
    requires
        views_of(w1) == filtered_words(text, max),
        views_of(w2) == filtered_words(text, max),
    ensures
        views_of(w1) == views_of(w2),
{
}

/// Exec mirror of [`is_wspace`].
fn char_is_space(c: char) -> (r: bool)
    ensures
        r == is_wspace(c),
{
    ('\u{0009}' <= c && c <= '\u{000D}') || c == ' ' || c == '\u{0085}' || c == '\u{00A0}'
        || c == '\u{1680}' || ('\u{2000}' <= c && c <= '\u{200A}') || c == '\u{2028}'
        || c == '\u{2029}' || c == '\u{202F}' || c == '\u{205F}' || c == '\u{3000}'
}

/// Gets the list of candidate words hidden in a raw word resource: the text
/// is split on newlines, each line is trimmed, and a line is kept when it is
/// not a `--` comment and its length lies in `3..=max_word_length`.
pub fn get_words(text: &str, max_word_length: usize) -> (words: Vec<String>)
    ensures
        views_of(words@) == filtered_words(text@, max_word_length as nat),
{
    let ghost max: nat = max_word_length as nat;
    let n: usize = text.unicode_len();
    let mut words: Vec<String> = Vec::new();
    let mut pos: usize = 0;
    let mut done = false;
    proof {
        assert(views_of(words@) =~= Seq::<Seq<char>>::empty());
        assert(Seq::<Seq<char>>::empty() + filtered_words(text@.subrange(0, n as int), max)
            =~= filtered_words(text@.subrange(0, n as int), max));
        assert(text@.subrange(0, n as int) =~= text@);
    }
    while !done
        invariant
            n == text@.len(),
            max == max_word_length as nat,
            pos <= n,
            !done ==> filtered_words(text@, max) == views_of(words@) + filtered_words(
                text@.subrange(pos as int, n as int),
                max,
            ),
            done ==> filtered_words(text@, max) == views_of(words@),
        decreases n - pos + (if done { 0int } else { 1int }),
    {
        // find the end of the current line
        let mut k: usize = pos;
        while k < n && text.get_char(k) != '\n'
            invariant
                n == text@.len(),
                pos <= k <= n,
                forall|i: int| pos <= i < k ==> text@[i] != '\n',
            decreases n - k,
        {
            k = k + 1;
        }
        // trim the line: a is its first, b one past its last non-space character
        let mut a: usize = pos;
        while a < k && char_is_space(text.get_char(a))
            invariant
                n == text@.len(),
                pos <= a <= k <= n,
                forall|i: int| pos <= i < a ==> is_wspace(#[trigger] text@[i]),
            decreases k - a,
        {
            a = a + 1;
        }
        let mut b: usize = k;
        while b > a && char_is_space(text.get_char(b - 1))
            invariant
                n == text@.len(),
                pos <= a <= b <= k <= n,
                forall|i: int| b <= i < k ==> is_wspace(#[trigger] text@[i]),
            decreases b - a,
        {
            b = b - 1;
        }
        let ghost line = text@.subrange(pos as int, k as int);
        proof {
            lemma_trim_bounds(line, a - pos, b - pos);
            assert(line.subrange(a - pos, b - pos) =~= text@.subrange(a as int, b as int));
            assert(trim_spec(line) == text@.subrange(a as int, b as int));
        }
        let wlen = b - a;
        let keep = wlen >= 3 && wlen <= max_word_length && !(text.get_char(a) == '-'
            && text.get_char(a + 1) == '-');
        proof {
            assert(trim_spec(line).len() == b - a);
            if wlen >= 2 {
                assert(trim_spec(line)[0] == text@[a as int]);
                assert(trim_spec(line)[1] == text@[a as int + 1]);
            }
            assert(keep == keep_word(trim_spec(line), max));
        }
        if keep {
            let piece = text.substring_char(a, b);
            let word = piece.to_owned();
            proof {
                assert(word@ == trim_spec(line));
            }
            let ghost before = words@;
            words.push(word);
            proof {
                assert(views_of(words@) =~= views_of(before).push(trim_spec(line)));
                assert(line_words(line, max) =~= seq![trim_spec(line)]);
                assert(views_of(before).push(trim_spec(line)) =~= views_of(before) + line_words(
                    line,
                    max,
                ));
            }
        } else {
            proof {
                assert(line_words(line, max) =~= Seq::<Seq<char>>::empty());
                assert(views_of(words@) + line_words(line, max) =~= views_of(words@));
            }
        }
        proof {
            lemma_filtered_words_step(text@, pos as int, k as int, max);
            if k < n {
                assert(views_of(words@) + filtered_words(
                    text@.subrange(k as int + 1, n as int),
                    max,
                ) =~= filtered_words(text@, max));
            } else {
                assert(views_of(words@) =~= filtered_words(text@, max));
            }
        }
        if k == n {
            done = true;
        } else {
            pos = k + 1;
        }
    }
    words
}

} // verus!
