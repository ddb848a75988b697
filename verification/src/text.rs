//! Characters, lines, words and decimal numbers.
//!
//! Everything that reads textual input works on a `Vec<char>` whose view is
//! the view of the string it came from.

use vstd::prelude::*;

verus! {

/// `String::push`: appends one character at the end.
pub assume_specification[ String::push ](s: &mut String, ch: char)
    ensures
        final(s)@ == old(s)@.push(ch),
;

/// The characters with the Unicode property `White_Space`.
pub open spec fn is_whitespace(c: char) -> bool {
    ||| '\u{9}' <= c <= '\u{D}'
    ||| c == ' '
    ||| c == '\u{85}'
    ||| c == '\u{A0}'
    ||| c == '\u{1680}'
    ||| '\u{2000}' <= c <= '\u{200A}'
    ||| c == '\u{2028}'
    ||| c == '\u{2029}'
    ||| c == '\u{202F}'
    ||| c == '\u{205F}'
    ||| c == '\u{3000}'
}

/// The texts held by a vector of character vectors.
pub open spec fn views(parts: Seq<Vec<char>>) -> Seq<Seq<char>> {
    Seq::new(parts.len(), |i: int| parts[i]@)
}

/// The number of characters before the first `c`; the length if there is none.
pub open spec fn until_char(s: Seq<char>, c: char) -> nat
    decreases s.len(),
{
    if s.len() == 0 || s[0] == c {
        0
    } else {
        1 + until_char(s.skip(1), c)
    }
}

/// The number of white space characters at the start.
pub open spec fn blank_run(s: Seq<char>) -> nat
    decreases s.len(),
{
    if s.len() == 0 || !is_whitespace(s[0]) {
        0
    } else {
        1 + blank_run(s.skip(1))
    }
}

/// The number of characters before the first white space.
pub open spec fn word_run(s: Seq<char>) -> nat
    decreases s.len(),
{
    if s.len() == 0 || is_whitespace(s[0]) {
        0
    } else {
        1 + word_run(s.skip(1))
    }
}

/// Whether a character is white space.
pub fn whitespace(c: char) -> (res: bool)
    ensures
        res == is_whitespace(c),
{
    ('\u{9}' <= c && c <= '\u{D}') || c == ' ' || c == '\u{85}' || c == '\u{A0}' || c
        == '\u{1680}' || ('\u{2000}' <= c && c <= '\u{200A}') || c == '\u{2028}' || c == '\u{2029}'
        || c == '\u{202F}' || c == '\u{205F}' || c == '\u{3000}'
}

/// The characters of a string.
pub fn chars_of(s: &str) -> (res: Vec<char>)
    ensures
        res@ == s@,
{
    let mut out: Vec<char> = Vec::new();
    for c in it: s.chars()
        invariant
            out@ == it.seq().take(it.index()),
    {
        out.push(c);
    }
    out
}

/// The string with the given characters.
pub fn string_of(chars: &Vec<char>) -> (res: String)
    ensures
        res@ == chars@,
{
    let mut out = String::new();
    let mut i: usize = 0;
    while i < chars.len()
        invariant
            i <= chars.len(),
            out@ == chars@.take(i as int),
        decreases chars.len() - i,
    {
        out.push(chars[i]);
        i += 1;
    }
    out
}

/// The characters from `from` up to `to`.
pub fn slice_of(chars: &Vec<char>, from: usize, to: usize) -> (res: Vec<char>)
    requires
        from <= to <= chars.len(),
    ensures
        res@ == chars@.subrange(from as int, to as int),
{
    let mut out: Vec<char> = Vec::new();
    let mut i: usize = from;
    while i < to
        invariant
            from <= i <= to <= chars.len(),
            out@ == chars@.subrange(from as int, i as int),
        decreases to - i,
    {
        out.push(chars[i]);
        i += 1;
    }
    out
}

/// Whether two texts are equal.
pub fn same_text(a: &Vec<char>, b: &Vec<char>) -> (res: bool)
    ensures
        res == (a@ == b@),
{
    if a.len() != b.len() {
        return false;
    }
    let mut i: usize = 0;
    while i < a.len()
        invariant
            i <= a.len(),
            a.len() == b.len(),
            forall|j: int| 0 <= j < i ==> a@[j] == b@[j],
        decreases a.len() - i,
    {
        if a[i] != b[i] {
            return false;
        }
        i += 1;
    }
    assert(a@ =~= b@);
    true
}

/// Whether `s` starts with `prefix`.
pub open spec fn has_prefix(s: Seq<char>, prefix: Seq<char>) -> bool {
    prefix.len() <= s.len() && s.take(prefix.len() as int) == prefix
}

/// Whether `s` starts with `prefix`.
pub fn starts_with(s: &Vec<char>, prefix: &Vec<char>) -> (res: bool)
    ensures
        res == has_prefix(s@, prefix@),
{
    if prefix.len() > s.len() {
        return false;
    }
    let mut i: usize = 0;
    while i < prefix.len()
        invariant
            i <= prefix.len() <= s.len(),
            forall|j: int| 0 <= j < i ==> s@[j] == prefix@[j],
        decreases prefix.len() - i,
    {
        if s[i] != prefix[i] {
            assert(s@.take(prefix.len() as int)[i as int] != prefix@[i as int]);
            return false;
        }
        i += 1;
    }
    assert(s@.take(prefix.len() as int) =~= prefix@);
    true
}

proof fn lemma_until_char(s: Seq<char>, c: char, k: int)
    requires
        0 <= k <= s.len(),
        forall|j: int| 0 <= j < k ==> s[j] != c,
        k < s.len() ==> s[k] == c,
    ensures
        until_char(s, c) == k,
    decreases s.len(),
{
    if s.len() > 0 && s[0] != c {
        lemma_until_char(s.skip(1), c, k - 1);
    }
}

pub proof fn lemma_until_char_bounds(s: Seq<char>, c: char)
    ensures
        until_char(s, c) <= s.len(),
        until_char(s, c) < s.len() ==> s[until_char(s, c) as int] == c,
        forall|j: int| 0 <= j < until_char(s, c) ==> s[j] != c,
    decreases s.len(),
{
    if s.len() > 0 && s[0] != c {
        lemma_until_char_bounds(s.skip(1), c);
        assert forall|j: int| 0 <= j < until_char(s, c) implies s[j] != c by {
            if j > 0 {
                assert(s[j] == s.skip(1)[j - 1]);
            }
        }
    }
}

proof fn lemma_blank_run(s: Seq<char>, k: int)
    requires
        0 <= k <= s.len(),
        forall|j: int| 0 <= j < k ==> is_whitespace(s[j]),
        k < s.len() ==> !is_whitespace(s[k]),
    ensures
        blank_run(s) == k,
    decreases s.len(),
{
    if s.len() > 0 && is_whitespace(s[0]) {
        lemma_blank_run(s.skip(1), k - 1);
    }
}

proof fn lemma_word_run(s: Seq<char>, k: int)
    requires
        0 <= k <= s.len(),
        forall|j: int| 0 <= j < k ==> !is_whitespace(s[j]),
        k < s.len() ==> is_whitespace(s[k]),
    ensures
        word_run(s) == k,
    decreases s.len(),
{
    if s.len() > 0 && !is_whitespace(s[0]) {
        lemma_word_run(s.skip(1), k - 1);
    }
}

pub proof fn lemma_run_bounds(s: Seq<char>)
    ensures
        blank_run(s) <= s.len(),
        word_run(s) <= s.len(),
    decreases s.len(),
{
    if s.len() > 0 {
        lemma_run_bounds(s.skip(1));
    }
}

/// The position of the first `c` at or after `from`; the length if there is none.
pub fn find_char(s: &Vec<char>, c: char, from: usize) -> (k: usize)
    requires
        from <= s.len(),
    ensures
        from <= k <= s.len(),
        k - from == until_char(s@.skip(from as int), c),
{
    let mut i: usize = from;
    while i < s.len() && s[i] != c
        invariant
            from <= i <= s.len(),
            forall|j: int| from <= j < i ==> s@[j] != c,
        decreases s.len() - i,
    {
        i += 1;
    }
    proof {
        lemma_until_char(s@.skip(from as int), c, i - from);
    }
    i
}

/// The position of the first character at or after `from` that is not white space.
fn skip_blank(s: &Vec<char>, from: usize) -> (k: usize)
    requires
        from <= s.len(),
    ensures
        from <= k <= s.len(),
        k - from == blank_run(s@.skip(from as int)),
{
    let mut i: usize = from;
    while i < s.len() && whitespace(s[i])
        invariant
            from <= i <= s.len(),
            forall|j: int| from <= j < i ==> is_whitespace(s@[j]),
        decreases s.len() - i,
    {
        i += 1;
    }
    proof {
        lemma_blank_run(s@.skip(from as int), i - from);
    }
    i
}

/// The position of the first white space at or after `from`.
fn skip_word(s: &Vec<char>, from: usize) -> (k: usize)
    requires
        from <= s.len(),
    ensures
        from <= k <= s.len(),
        k - from == word_run(s@.skip(from as int)),
{
    let mut i: usize = from;
    while i < s.len() && !whitespace(s[i])
        invariant
            from <= i <= s.len(),
            forall|j: int| from <= j < i ==> !is_whitespace(s@[j]),
        decreases s.len() - i,
    {
        i += 1;
    }
    proof {
        lemma_word_run(s@.skip(from as int), i - from);
    }
    i
}

/// A line without the carriage return that its line ending starts with.
pub open spec fn without_cr(line: Seq<char>) -> Seq<char> {
    if line.len() > 0 && line.last() == '\r' {
        line.drop_last()
    } else {
        line
    }
}

/// The lines of a text. A line ends in a line feed, or in a carriage return
/// and a line feed; the ending of the last line is optional.
pub open spec fn lines(s: Seq<char>) -> Seq<Seq<char>>
    decreases s.len(),
{
    let k = until_char(s, '\n') as int;
    if s.len() == 0 {
        Seq::empty()
    } else if k >= s.len() {
        seq![s]
    } else {
        seq![without_cr(s.take(k))] + lines(s.skip(k + 1))
    }
}

/// The lines of a text.
pub fn split_lines(s: &Vec<char>) -> (res: Vec<Vec<char>>)
    ensures
        views(res@) == lines(s@),
{
    let mut out: Vec<Vec<char>> = Vec::new();
    let mut i: usize = 0;
    assert(s@.skip(0) == s@);
    assert(views(out@) =~= Seq::<Seq<char>>::empty());
    assert(views(out@) + lines(s@) =~= lines(s@));
    while i < s.len()
        invariant
            i <= s.len(),
            views(out@) + lines(s@.skip(i as int)) == lines(s@),
        decreases s.len() - i,
    {
        let ghost rest = s@.skip(i as int);
        let ghost before = out@;
        let k = find_char(s, '\n', i);
        if k == s.len() {
            let line = slice_of(s, i, k);
            assert(line@ == rest);
            out.push(line);
            assert(views(out@) =~= views(before).push(rest));
            assert(views(out@) =~= lines(s@));
            i = k;
            assert(s@.skip(i as int).len() == 0);
            assert(lines(s@.skip(i as int)) =~= Seq::<Seq<char>>::empty());
        } else {
            let mut line = slice_of(s, i, k);
            assert(line@ == rest.take(k - i));
            let n = line.len();
            if n > 0 && line[n - 1] == '\r' {
                line.pop();
            }
            assert(line@ == without_cr(rest.take(k - i)));
            let ghost shown = line@;
            out.push(line);
            assert(views(out@) =~= views(before).push(shown));
            assert(rest.skip(k - i + 1) == s@.skip(k + 1));
            assert(lines(rest) == seq![shown] + lines(s@.skip(k + 1)));
            i = k + 1;
            assert(views(before) + (seq![shown] + lines(s@.skip(k + 1))) =~= views(out@) + lines(
                s@.skip(k + 1),
            ));
        }
    }
    assert(lines(s@.skip(i as int)) =~= Seq::<Seq<char>>::empty());
    assert(views(out@) =~= lines(s@));
    out
}

/// The words of a text: its longest runs of characters other than white space.
pub open spec fn words(s: Seq<char>) -> Seq<Seq<char>>
    decreases s.len(),
{
    proof {
        lemma_run_bounds(s);
    }
    if s.len() == 0 {
        Seq::empty()
    } else if is_whitespace(s[0]) {
        words(s.skip(1))
    } else {
        seq![s.take(word_run(s) as int)] + words(s.skip(word_run(s) as int))
    }
}

/// The words of a text.
pub fn split_words(s: &Vec<char>) -> (res: Vec<Vec<char>>)
    ensures
        views(res@) == words(s@),
{
    let mut out: Vec<Vec<char>> = Vec::new();
    let mut i: usize = 0;
    assert(s@.skip(0) == s@);
    assert(views(out@) =~= Seq::<Seq<char>>::empty());
    assert(views(out@) + words(s@) =~= words(s@));
    while i < s.len()
        invariant
            i <= s.len(),
            views(out@) + words(s@.skip(i as int)) == words(s@),
        decreases s.len() - i,
    {
        let ghost rest = s@.skip(i as int);
        let ghost before = out@;
        proof {
            lemma_run_bounds(rest);
        }
        if whitespace(s[i]) {
            assert(rest.skip(1) == s@.skip(i + 1));
            i += 1;
        } else {
            let k = skip_word(s, i);
            assert(rest.skip(k - i) == s@.skip(k as int));
            assert(k > i) by {
                assert(!is_whitespace(rest[0]));
            }
            let word = slice_of(s, i, k);
            assert(word@ == rest.take(k - i));
            let ghost shown = word@;
            out.push(word);
            assert(views(out@) =~= views(before).push(shown));
            assert(words(rest) == seq![shown] + words(s@.skip(k as int)));
            assert(views(before) + (seq![shown] + words(s@.skip(k as int))) =~= views(out@)
                + words(s@.skip(k as int)));
            i = k;
        }
    }
    assert(words(s@.skip(i as int)) =~= Seq::<Seq<char>>::empty());
    assert(views(out@) =~= words(s@));
    out
}

/// The pieces of a text between the separators; a text without any is one piece.
pub open spec fn split_on(s: Seq<char>, sep: char) -> Seq<Seq<char>>
    decreases s.len(),
{
    let k = until_char(s, sep) as int;
    if k >= s.len() {
        seq![s]
    } else {
        seq![s.take(k)] + split_on(s.skip(k + 1), sep)
    }
}

/// The pieces of a text between the separators.
pub fn split_at_char(s: &Vec<char>, sep: char) -> (res: Vec<Vec<char>>)
    ensures
        views(res@) == split_on(s@, sep),
{
    let mut out: Vec<Vec<char>> = Vec::new();
    let mut i: usize = 0;
    assert(s@.skip(0) == s@);
    assert(views(out@) =~= Seq::<Seq<char>>::empty());
    assert(views(out@) + split_on(s@, sep) =~= split_on(s@, sep));
    loop
        invariant
            i <= s.len(),
            views(out@) + split_on(s@.skip(i as int), sep) == split_on(s@, sep),
        decreases s.len() - i,
    {
        let ghost rest = s@.skip(i as int);
        let ghost before = out@;
        let k = find_char(s, sep, i);
        let piece = slice_of(s, i, k);
        assert(piece@ == rest.take(k - i));
        let ghost shown = piece@;
        out.push(piece);
        assert(views(out@) =~= views(before).push(shown));
        if k == s.len() {
            assert(shown == rest);
            assert(views(out@) =~= split_on(s@, sep));
            return out;
        }
        assert(rest.skip(k - i + 1) == s@.skip(k + 1));
        assert(split_on(rest, sep) == seq![shown] + split_on(s@.skip(k + 1), sep));
        assert(views(before) + (seq![shown] + split_on(s@.skip(k + 1), sep)) =~= views(out@)
            + split_on(s@.skip(k + 1), sep));
        i = k + 1;
    }
}

/// One more character either starts a piece or belongs to the last one.
pub proof fn lemma_split_push(s: Seq<char>, c: char, sep: char)
    ensures
        split_on(s, sep).len() > 0,
        split_on(s.push(c), sep) == if c == sep {
            split_on(s, sep).push(Seq::empty())
        } else {
            split_on(s, sep).drop_last().push(split_on(s, sep).last().push(c))
        },
    decreases s.len(),
{
    let k = until_char(s, sep) as int;
    let more = s.push(c);
    lemma_until_char_bounds(s, sep);
    if k < s.len() {
        lemma_until_char(more, sep, k);
        lemma_split_push(s.skip(k + 1), c, sep);
        assert(more.take(k) =~= s.take(k));
        assert(more.skip(k + 1) =~= s.skip(k + 1).push(c));
    } else if c == sep {
        lemma_until_char(more, sep, k);
        assert(more.take(k) =~= s);
        assert(more.skip(k + 1) =~= Seq::empty());
        assert(split_on(Seq::empty(), sep) =~= seq![Seq::empty()]);
    } else {
        lemma_until_char(more, sep, k + 1);
    }
    assert(split_on(more, sep) =~= if c == sep {
        split_on(s, sep).push(Seq::empty())
    } else {
        split_on(s, sep).drop_last().push(split_on(s, sep).last().push(c))
    });
}

/// What follows a separator and holds none is the last piece.
pub proof fn lemma_split_joined(s: Seq<char>, sep: char, rest: Seq<char>)
    requires
        !rest.contains(sep),
    ensures
        split_on(s.push(sep) + rest, sep) == split_on(s, sep).push(rest),
    decreases rest.len(),
{
    if rest.len() == 0 {
        lemma_split_push(s, sep, sep);
        assert(s.push(sep) + rest =~= s.push(sep));
        assert(rest =~= Seq::empty());
    } else {
        let fewer = rest.drop_last();
        let c = rest.last();
        assert(rest[rest.len() - 1] == c);
        assert forall|i: int| 0 <= i < fewer.len() implies fewer[i] != sep by {
            assert(fewer[i] == rest[i]);
        }
        lemma_split_joined(s, sep, fewer);
        lemma_split_push(s.push(sep) + fewer, c, sep);
        assert((s.push(sep) + fewer).push(c) =~= s.push(sep) + rest);
        let pieces = split_on(s, sep).push(fewer);
        assert(pieces.drop_last() =~= split_on(s, sep));
        assert(fewer.push(c) =~= rest);
    }
}

/// A text without a separator is one piece.
pub proof fn lemma_split_whole(s: Seq<char>, sep: char)
    requires
        !s.contains(sep),
    ensures
        split_on(s, sep) == seq![s],
{
    lemma_until_char_bounds(s, sep);
    assert forall|i: int| 0 <= i < s.len() implies s[i] != sep by {}
}

/// The text without the white space at its two ends.
pub open spec fn trimmed(s: Seq<char>) -> Seq<char> {
    trimmed_end(s.skip(blank_run(s) as int))
}

/// The text without the white space at its end.
pub open spec fn trimmed_end(s: Seq<char>) -> Seq<char>
    decreases s.len(),
{
    if s.len() > 0 && is_whitespace(s.last()) {
        trimmed_end(s.drop_last())
    } else {
        s
    }
}

/// The text without the white space at its two ends.
pub fn trim(s: &Vec<char>) -> (res: Vec<char>)
    ensures
        res@ == trimmed(s@),
{
    assert(s@.skip(0) == s@);
    let k = skip_blank(s, 0);
    let mut out = slice_of(s, k, s.len());
    assert(out@ == s@.skip(k as int));
    let ghost whole = out@;
    while out.len() > 0 && whitespace(out[out.len() - 1])
        invariant
            trimmed_end(out@) == trimmed_end(whole),
        decreases out.len(),
    {
        let ghost before = out@;
        out.pop();
        assert(out@ == before.drop_last());
    }
    out
}

/// A line up to its end comes first, and the rest of the text follows; a carriage
/// return before the line feed belongs to the line ending.
pub proof fn law_line_comes_first(line: Seq<char>, rest: Seq<char>)
    requires
        !line.contains('\n'),
    ensures
        line.len() == 0 || line.last() != '\r' ==> lines(line.push('\n') + rest) == seq![line]
            + lines(rest),
        lines(line.push('\r').push('\n') + rest) == seq![line] + lines(rest),
{
    lemma_first_line(line, rest);
    let longer = line.push('\r');
    assert forall|i: int| 0 <= i < longer.len() implies longer[i] != '\n' by {
        if i < line.len() {
            assert(longer[i] == line[i]);
        }
    }
    lemma_first_line(longer, rest);
    assert(longer.drop_last() =~= line);
}

proof fn lemma_first_line(line: Seq<char>, rest: Seq<char>)
    requires
        !line.contains('\n'),
    ensures
        lines(line.push('\n') + rest) == seq![without_cr(line)] + lines(rest),
{
    let all = line.push('\n') + rest;
    let k = line.len() as int;
    assert forall|j: int| 0 <= j < k implies all[j] != '\n' by {
        assert(all[j] == line[j]);
    }
    lemma_until_char(all, '\n', k);
    assert(all.take(k) =~= line);
    assert(all.skip(k + 1) =~= rest);
}

/// The last line needs no ending, and an empty text has no line.
pub proof fn law_last_line_needs_no_ending(line: Seq<char>)
    requires
        !line.contains('\n'),
    ensures
        lines(line) == if line.len() == 0 {
            Seq::<Seq<char>>::empty()
        } else {
            seq![line]
        },
{
    assert forall|j: int| 0 <= j < line.len() implies line[j] != '\n' by {}
    lemma_until_char(line, '\n', line.len() as int);
    assert(lines(line) =~= if line.len() == 0 {
        Seq::<Seq<char>>::empty()
    } else {
        seq![line]
    });
}

/// White space separates words: what stands before the first word does not matter,
/// and the rest of the text follows on it.
pub proof fn law_word_comes_first(blank: Seq<char>, word: Seq<char>, rest: Seq<char>)
    requires
        forall|i: int| 0 <= i < blank.len() ==> is_whitespace(#[trigger] blank[i]),
        forall|i: int| 0 <= i < word.len() ==> !is_whitespace(#[trigger] word[i]),
        word.len() > 0,
        rest.len() > 0 ==> is_whitespace(rest[0]),
    ensures
        words(blank + word + rest) == seq![word] + words(rest),
    decreases blank.len(),
{
    let all = blank + word + rest;
    if blank.len() > 0 {
        let fewer = blank.skip(1);
        assert(is_whitespace(blank[0]));
        assert forall|i: int| 0 <= i < fewer.len() implies is_whitespace(#[trigger] fewer[i]) by {
            assert(fewer[i] == blank[i + 1]);
        }
        law_word_comes_first(fewer, word, rest);
        assert(all.skip(1) =~= fewer + word + rest);
    } else {
        let k = word.len() as int;
        assert(all =~= word + rest);
        assert forall|j: int| 0 <= j < k implies !is_whitespace(all[j]) by {
            assert(all[j] == word[j]);
        }
        lemma_word_run(all, k);
        assert(all.take(k) =~= word);
        assert(all.skip(k) =~= rest);
    }
}

/// White space has no words.
pub proof fn law_blank_has_no_words(blank: Seq<char>)
    requires
        forall|i: int| 0 <= i < blank.len() ==> is_whitespace(#[trigger] blank[i]),
    ensures
        words(blank) == Seq::<Seq<char>>::empty(),
    decreases blank.len(),
{
    if blank.len() > 0 {
        let fewer = blank.skip(1);
        assert(is_whitespace(blank[0]));
        assert forall|i: int| 0 <= i < fewer.len() implies is_whitespace(#[trigger] fewer[i]) by {
            assert(fewer[i] == blank[i + 1]);
        }
        law_blank_has_no_words(fewer);
    } else {
        assert(words(blank) =~= Seq::<Seq<char>>::empty());
    }
}

/// Trimming takes away the white space around a text and nothing else.
pub proof fn law_trimming_leaves_the_text(before: Seq<char>, s: Seq<char>, after: Seq<char>)
    requires
        forall|i: int| 0 <= i < before.len() ==> is_whitespace(#[trigger] before[i]),
        forall|i: int| 0 <= i < after.len() ==> is_whitespace(#[trigger] after[i]),
        s.len() > 0 ==> !is_whitespace(s[0]) && !is_whitespace(s.last()),
    ensures
        trimmed(before + s + after) == s,
{
    let all = before + s + after;
    if s.len() > 0 {
        let k = before.len() as int;
        assert forall|j: int| 0 <= j < k implies is_whitespace(all[j]) by {
            assert(all[j] == before[j]);
        }
        assert(all[k] == s[0]);
        lemma_blank_run(all, k);
        assert(all.skip(k) =~= s + after);
        lemma_trimmed_end(s, after);
    } else {
        assert forall|j: int| 0 <= j < all.len() implies is_whitespace(all[j]) by {
            if j < before.len() {
                assert(all[j] == before[j]);
            } else {
                assert(all[j] == after[j - before.len()]);
            }
        }
        lemma_blank_run(all, all.len() as int);
        assert(all.skip(all.len() as int) =~= Seq::<char>::empty());
        assert(s =~= Seq::<char>::empty());
    }
}

proof fn lemma_trimmed_end(s: Seq<char>, after: Seq<char>)
    requires
        s.len() > 0,
        !is_whitespace(s.last()),
        forall|i: int| 0 <= i < after.len() ==> is_whitespace(#[trigger] after[i]),
    ensures
        trimmed_end(s + after) == s,
    decreases after.len(),
{
    let all = s + after;
    if after.len() > 0 {
        let fewer = after.drop_last();
        assert(is_whitespace(after[after.len() - 1]));
        assert forall|i: int| 0 <= i < fewer.len() implies is_whitespace(#[trigger] fewer[i]) by {
            assert(fewer[i] == after[i]);
        }
        lemma_trimmed_end(s, fewer);
        assert(all.drop_last() =~= s + fewer);
    } else {
        assert(all =~= s);
    }
}

/// A text starts with what it is made of first, and what it starts with comes
/// first.
pub proof fn law_prefix_comes_first(s: Seq<char>, prefix: Seq<char>, rest: Seq<char>)
    ensures
        has_prefix(prefix + rest, prefix),
        has_prefix(s, prefix) ==> s == prefix + s.skip(prefix.len() as int),
{
    assert((prefix + rest).take(prefix.len() as int) =~= prefix);
    if has_prefix(s, prefix) {
        assert(s =~= s.take(prefix.len() as int) + s.skip(prefix.len() as int));
    }
}

/// White space is what Unicode says: the characters with these codes.
pub proof fn law_white_space_is_that_of_unicode(c: char)
    ensures
        is_whitespace(c) <==> (9 <= c as int <= 13 || 0x2000 <= c as int <= 0x200A || seq![
            0x20int,
            0x85int,
            0xA0int,
            0x1680int,
            0x2028int,
            0x2029int,
            0x202Fint,
            0x205Fint,
            0x3000int,
        ].contains(c as int)),
{
    let codes = seq![
        0x20int,
        0x85int,
        0xA0int,
        0x1680int,
        0x2028int,
        0x2029int,
        0x202Fint,
        0x205Fint,
        0x3000int,
    ];
    assert(codes[0] == 0x20 && codes[1] == 0x85 && codes[2] == 0xA0 && codes[3] == 0x1680
        && codes[4] == 0x2028 && codes[5] == 0x2029 && codes[6] == 0x202F && codes[7] == 0x205F
        && codes[8] == 0x3000);
}

/// Lines of text, each with its ending.
pub open spec fn with_line_feeds(ls: Seq<Seq<char>>) -> Seq<char>
    decreases ls.len(),
{
    if ls.len() == 0 {
        Seq::empty()
    } else {
        ls[0].push('\n') + with_line_feeds(ls.skip(1))
    }
}

/// Lines that are written one after the other are read back.
pub proof fn law_lines_read_back(ls: Seq<Seq<char>>)
    requires
        forall|i: int|
            0 <= i < ls.len() ==> !(#[trigger] ls[i]).contains('\n') && (ls[i].len() == 0
                || ls[i].last() != '\r'),
    ensures
        lines(with_line_feeds(ls)) == ls,
    decreases ls.len(),
{
    if ls.len() == 0 {
        assert(lines(with_line_feeds(ls)) =~= ls);
    } else {
        let rest = ls.skip(1);
        assert(!ls[0].contains('\n'));
        assert forall|i: int| 0 <= i < rest.len() implies !(#[trigger] rest[i]).contains('\n') && (
        rest[i].len() == 0 || rest[i].last() != '\r') by {
            assert(rest[i] == ls[i + 1]);
        }
        law_lines_read_back(rest);
        law_line_comes_first(ls[0], with_line_feeds(rest));
        assert(seq![ls[0]] + rest =~= ls);
    }
}

/// Trimming leaves something exactly if there is something other than white space.
pub proof fn law_trimming_leaves_what_is_not_blank(s: Seq<char>)
    ensures
        trimmed(s).len() > 0 <==> exists|i: int| 0 <= i < s.len() && !is_whitespace(#[trigger] s[i]),
{
    if exists|i: int| 0 <= i < s.len() && !is_whitespace(#[trigger] s[i]) {
        let i = choose|i: int| 0 <= i < s.len() && !is_whitespace(#[trigger] s[i]);
        let k = blank_run(s) as int;
        lemma_blank_run_stops(s, i);
        assert(s.skip(k)[i - k] == s[i]);
        lemma_trimmed_end_keeps(s.skip(k), i - k);
    } else {
        assert forall|i: int| 0 <= i < s.len() implies is_whitespace(#[trigger] s[i]) by {}
        law_trimming_leaves_the_text(s, Seq::empty(), Seq::empty());
        assert(s + Seq::empty() + Seq::empty() =~= s);
    }
}

proof fn lemma_blank_run_stops(s: Seq<char>, i: int)
    requires
        0 <= i < s.len(),
        !is_whitespace(s[i]),
    ensures
        blank_run(s) <= i,
    decreases s.len(),
{
    if i > 0 && is_whitespace(s[0]) {
        assert(s.skip(1)[i - 1] == s[i]);
        lemma_blank_run_stops(s.skip(1), i - 1);
    }
}

proof fn lemma_trimmed_end_keeps(s: Seq<char>, i: int)
    requires
        0 <= i < s.len(),
        !is_whitespace(s[i]),
    ensures
        trimmed_end(s).len() > i,
    decreases s.len(),
{
    if is_whitespace(s.last()) {
        assert(s.drop_last()[i] == s[i]);
        lemma_trimmed_end_keeps(s.drop_last(), i);
    }
}

/// A list of texts holds each of them, in its order.
pub proof fn law_every_text_is_in_the_list(parts: Seq<Vec<char>>)
    ensures
        views(parts).len() == parts.len(),
        forall|i: int| 0 <= i < parts.len() ==> #[trigger] views(parts)[i] == parts[i]@,
{
}

} // verus!
