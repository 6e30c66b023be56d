//! Text: words, trimming, and the few standard-library text functions the
//! rules lean on.

use vstd::prelude::*;

verus! {

// ---- what is taken from the standard library ----

/// The characters with the Unicode White_Space property.
pub open spec fn white_space(c: char) -> bool {
    ||| '\u{9}' <= c <= '\u{d}'
    ||| c == '\u{20}'
    ||| c == '\u{85}'
    ||| c == '\u{a0}'
    ||| c == '\u{1680}'
    ||| '\u{2000}' <= c <= '\u{200a}'
    ||| c == '\u{2028}'
    ||| c == '\u{2029}'
    ||| c == '\u{202f}'
    ||| c == '\u{205f}'
    ||| c == '\u{3000}'
}

/// `char::is_whitespace` answers whether the character has the Unicode
/// White_Space property.
pub assume_specification[ char::is_whitespace ](c: char) -> (r: bool)
    ensures
        r == white_space(c),
;

/// `String::push` appends one character.
pub assume_specification[ String::push ](s: &mut String, c: char)
    ensures
        final(s)@ == old(s)@.push(c),
;

/// What `str::to_uppercase` makes of a text.
pub uninterp spec fn uppercase(s: Seq<char>) -> Seq<char>;

/// What `str::to_lowercase` makes of a text.
pub uninterp spec fn lowercase(s: Seq<char>) -> Seq<char>;

/// Calls `str::to_uppercase`. Its result is a function of the text alone. In a
/// text of ASCII characters it turns the small letters into their capitals and
/// leaves the others as they are; the mapping of the rest of Unicode is left to
/// the name `uppercase`.
#[verifier::external_body]
pub(crate) fn to_uppercase(s: &str) -> (r: String)
    ensures
        r@ == uppercase(s@),
        ascii(s@) ==> r@ == capitals(s@),
{
    s.to_uppercase()
}

/// Calls `str::to_lowercase`. Its result is a function of the text alone. In a
/// text of ASCII characters it turns the capitals into their small letters and
/// leaves the others as they are; the mapping of the rest of Unicode is left to
/// the name `lowercase`.
#[verifier::external_body]
pub(crate) fn to_lowercase(s: &str) -> (r: String)
    ensures
        r@ == lowercase(s@),
        ascii(s@) ==> r@ == smalls(s@),
{
    s.to_lowercase()
}

// ---- characters and strings ----

/// The characters of a text.
pub(crate) fn chars_of(s: &str) -> (r: Vec<char>)
    ensures
        r@ == s@,
{
    let mut out: Vec<char> = Vec::new();
    for c in it: s.chars()
        invariant
            it.seq() == s@,
            out@ == s@.take(it.index()),
    {
        out.push(c);
    }
    out
}

/// The text made of some characters.
pub(crate) fn string_of(chars: &[char]) -> (r: String)
    ensures
        r@ == chars@,
{
    let mut out: String = String::new();
    for i in 0..chars.len()
        invariant
            out@ == chars@.take(i as int),
    {
        out.push(chars[i]);
    }
    out
}

/// Whether two texts are the same, character for character.
pub(crate) fn same_text(a: &str, b: &str) -> (r: bool)
    ensures
        r == (a@ == b@),
{
    let x = chars_of(a);
    let y = chars_of(b);
    if x.len() != y.len() {
        return false;
    }
    for i in 0..x.len()
        invariant
            x.len() == y.len(),
            x@ == a@,
            y@ == b@,
            forall|j: int| 0 <= j < i ==> x@[j] == y@[j],
    {
        if x[i] != y[i] {
            return false;
        }
    }
    assert(x@ =~= y@);
    true
}

// ---- words ----

/// The maximal runs of characters that are not white space, in order.
pub open spec fn words(s: Seq<char>) -> Seq<Seq<char>>
    decreases s.len(),
{
    if s.len() == 0 {
        Seq::empty()
    } else {
        let before = s.drop_last();
        let c = s.last();
        if white_space(c) {
            words(before)
        } else if before.len() == 0 || white_space(before.last()) {
            words(before).push(seq![c])
        } else {
            words(before).drop_last().push(words(before).last().push(c))
        }
    }
}

/// Some texts, joined by one space between each two.
pub open spec fn spaced(parts: Seq<Seq<char>>) -> Seq<char>
    decreases parts.len(),
{
    if parts.len() == 0 {
        Seq::empty()
    } else if parts.len() == 1 {
        parts[0]
    } else {
        spaced(parts.drop_last()).push(' ') + parts.last()
    }
}

/// The texts of some strings.
pub open spec fn said(v: Seq<String>) -> Seq<Seq<char>> {
    v.map_values(|s: String| s@)
}

/// The texts that some character vectors hold.
pub open spec fn texts(v: Seq<Vec<char>>) -> Seq<Seq<char>> {
    v.map_values(|w: Vec<char>| w@)
}

/// A character that is not white space leaves a last word behind it.
proof fn lemma_open_word(s: Seq<char>)
    requires
        s.len() > 0,
        !white_space(s.last()),
    ensures
        words(s).len() > 0,
{
}

/// A text without white space is one word.
proof fn lemma_one_word(w: Seq<char>)
    requires
        w.len() > 0,
        forall|i: int| 0 <= i < w.len() ==> !white_space(#[trigger] w[i]),
    ensures
        words(w) == seq![w],
    decreases w.len(),
{
    let before = w.drop_last();
    if before.len() > 0 {
        lemma_one_word(before);
        assert(before.last() == w[w.len() - 2]);
        assert(before.push(w.last()) =~= w);
        assert(words(w) =~= seq![w]);
    } else {
        assert(w =~= seq![w.last()]);
        assert(words(before).len() == 0);
        assert(words(w) =~= seq![w]);
    }
}

/// The first word of a text ends at the first white space.
pub proof fn lemma_first_word(w: Seq<char>, rest: Seq<char>)
    requires
        w.len() > 0,
        forall|i: int| 0 <= i < w.len() ==> !white_space(#[trigger] w[i]),
        rest.len() > 0 ==> white_space(rest[0]),
    ensures
        words(w + rest).len() > 0,
        words(w + rest)[0] == w,
        rest.len() > 0 && !white_space(rest.last()) ==> words(w + rest).len() > 1,
    decreases rest.len(),
{
    if rest.len() == 0 {
        lemma_one_word(w);
        assert(w + rest =~= w);
    } else {
        lemma_first_word(w, rest.drop_last());
        let s = w + rest;
        assert(s.drop_last() =~= w + rest.drop_last());
        assert(s.last() == rest.last());
        if rest.len() > 1 {
            assert(s.drop_last().last() == rest.drop_last().last());
        }
    }
}

/// No word is empty, and no word holds white space.
pub proof fn lemma_words_are_solid(s: Seq<char>)
    ensures
        forall|i: int| 0 <= i < words(s).len() ==> #[trigger] words(s)[i].len() > 0,
        forall|i: int, j: int|
            0 <= i < words(s).len() && 0 <= j < words(s)[i].len() ==> !white_space(
                #[trigger] words(s)[i][j],
            ),
    decreases s.len(),
{
    if s.len() > 0 {
        lemma_words_are_solid(s.drop_last());
        let before = s.drop_last();
        if before.len() > 0 && !white_space(before.last()) {
            lemma_open_word(before);
        }
    }
}

/// The words of a text.
pub(crate) fn words_of(s: &str) -> (r: Vec<Vec<char>>)
    ensures
        texts(r@) == words(s@),
{
    let chars = chars_of(s);
    let mut out: Vec<Vec<char>> = Vec::new();
    let mut open: bool = false;
    assert(texts(out@) =~= words(chars@.take(0)));
    for i in 0..chars.len()
        invariant
            chars@ == s@,
            texts(out@) == words(chars@.take(i as int)),
            open == (i > 0 && !white_space(chars@[i - 1])),
    {
        let c = chars[i];
        let ghost before = chars@.take(i as int);
        let ghost held = out@;
        assert(chars@.take(i + 1).drop_last() =~= before);
        if c.is_whitespace() {
            open = false;
        } else if open {
            proof {
                lemma_open_word(before);
                assert(texts(held).len() == held.len());
            }
            let mut last = out.pop().unwrap();
            last.push(c);
            out.push(last);
            proof {
                assert(texts(out@) =~= texts(held).drop_last().push(texts(held).last().push(c)));
            }
        } else {
            let mut fresh: Vec<char> = Vec::new();
            fresh.push(c);
            out.push(fresh);
            open = true;
            assert(fresh@ =~= seq![c]);
            assert(texts(out@) =~= texts(held).push(seq![c]));
        }
    }
    assert(chars@.take(chars.len() as int) =~= chars@);
    out
}

/// The words of a text with one space between each two.
pub(crate) fn squeezed(s: &str) -> (r: String)
    ensures
        r@ == spaced(words(s@)),
{
    let parts = words_of(s);
    let mut out: Vec<char> = Vec::new();
    assert(out@ =~= spaced(texts(parts@).take(0)));
    for i in 0..parts.len()
        invariant
            texts(parts@) == words(s@),
            out@ == spaced(texts(parts@).take(i as int)),
    {
        let ghost all = texts(parts@);
        assert(all.take(i + 1).drop_last() =~= all.take(i as int));
        if i > 0 {
            out.push(' ');
        }
        let ghost head = out@;
        let size: usize = parts[i].len();
        for j in 0..size
            invariant
                i < parts.len(),
                size == parts@[i as int]@.len(),
                out@ == head + parts@[i as int]@.take(j as int),
        {
            out.push(parts[i][j]);
            assert(parts@[i as int]@.take(j + 1) =~= parts@[i as int]@.take(j as int).push(
                parts@[i as int]@[j as int],
            ));
        }
        assert(parts@[i as int]@.take(parts@[i as int]@.len() as int) =~= parts@[i as int]@);
        assert(all.take(i + 1).last() == parts@[i as int]@);
        if i == 0 {
            assert(out@ =~= all.take(1)[0]);
        }
    }
    assert(texts(parts@).take(parts.len() as int) =~= texts(parts@));
    string_of(out.as_slice())
}

/// Whether a text is words with one space between each two, and nothing else.
pub open spec fn tidy(s: Seq<char>) -> bool {
    &&& tidy_up_to_the_end(s)
    &&& s.len() > 0 ==> !white_space(s.last())
}

/// Whether a text is tidy but for a space at its end.
pub open spec fn tidy_up_to_the_end(s: Seq<char>) -> bool {
    &&& s.len() > 0 ==> !white_space(s[0])
    &&& forall|i: int| 0 <= i < s.len() && white_space(#[trigger] s[i]) ==> s[i] == ' '
    &&& forall|i: int, j: int|
        0 <= i < s.len() && j == i + 1 && j < s.len() && white_space(#[trigger] s[i])
            ==> !white_space(#[trigger] s[j])
}

/// Whether no text is empty and none holds white space.
spec fn solid(parts: Seq<Seq<char>>) -> bool {
    &&& forall|i: int| 0 <= i < parts.len() ==> (#[trigger] parts[i]).len() > 0
    &&& forall|i: int, j: int|
        0 <= i < parts.len() && 0 <= j < parts[i].len() ==> !white_space(#[trigger] parts[i][j])
}

/// Solid texts with spaces between them are tidy.
proof fn lemma_solid_is_tidy(parts: Seq<Seq<char>>)
    requires
        solid(parts),
    ensures
        tidy(spaced(parts)),
        parts.len() > 0 ==> spaced(parts).len() > 0,
    decreases parts.len(),
{
    if parts.len() == 1 {
        let s = spaced(parts);
        assert(s == parts[0]);
        assert forall|i: int| 0 <= i < s.len() implies !white_space(#[trigger] s[i]) by {
            assert(!white_space(parts[0][i]));
        }
    } else if parts.len() > 1 {
        let head = parts.drop_last();
        assert forall|i: int, j: int| 0 <= i < head.len() && 0 <= j < head[i].len() implies
            !white_space(#[trigger] head[i][j]) by {
            assert(!white_space(parts[i][j]));
        }
        lemma_solid_is_tidy(head);
        let before = spaced(head);
        let tail = parts.last();
        let s = spaced(parts);
        assert forall|j: int| 0 <= j < tail.len() implies !white_space(#[trigger] tail[j]) by {
            assert(!white_space(parts[parts.len() - 1][j]));
        }
        assert(tail.len() > 0);
        assert(s == before.push(' ') + tail);
        assert(s[0] == before[0]);
        assert(s.last() == tail.last());
        assert forall|i: int| 0 <= i < s.len() && white_space(#[trigger] s[i]) implies s[i]
            == ' ' by {
            if i < before.len() {
                assert(s[i] == before[i]);
            } else if i > before.len() {
                assert(s[i] == tail[i - before.len() - 1]);
            }
        }
        assert forall|i: int, j: int|
            0 <= i < s.len() && j == i + 1 && j < s.len() && white_space(
                #[trigger] s[i],
            ) implies !white_space(#[trigger] s[j]) by {
            if j < before.len() {
                assert(s[i] == before[i] && s[j] == before[j]);
            } else if j == before.len() {
                assert(s[i] == before.last());
            } else {
                assert(s[j] == tail[j - before.len() - 1]);
            }
        }
    }
}

/// The words of a text with one space between each two are tidy.
pub proof fn lemma_squeezed_is_tidy(s: Seq<char>)
    ensures
        tidy(spaced(words(s))),
{
    lemma_words_are_solid(s);
    lemma_solid_is_tidy(words(s));
}

/// Squeezing changes nothing in a tidy text; a space at the end is lost.
proof fn lemma_nothing_to_squeeze(s: Seq<char>)
    requires
        tidy_up_to_the_end(s),
    ensures
        s.len() > 0 && white_space(s.last()) ==> spaced(words(s)) == s.drop_last(),
        s.len() == 0 || !white_space(s.last()) ==> spaced(words(s)) == s,
    decreases s.len(),
{
    if s.len() == 0 {
        assert(spaced(words(s)) =~= s);
    } else {
        let before = s.drop_last();
        let c = s.last();
        assert forall|i: int| 0 <= i < before.len() && white_space(
            #[trigger] before[i],
        ) implies before[i] == ' ' by {
            assert(s[i] == before[i]);
        }
        assert forall|i: int, j: int|
            0 <= i < before.len() && j == i + 1 && j < before.len() && white_space(
                #[trigger] before[i],
            ) implies !white_space(#[trigger] before[j]) by {
            assert(s[i] == before[i] && s[j] == before[j]);
        }
        lemma_nothing_to_squeeze(before);
        let held = words(before);
        if before.len() > 0 {
            assert(before.last() == s[s.len() - 2] && c == s[s.len() - 1]);
        }
        if white_space(c) {
            assert(before.len() > 0);
        } else if before.len() == 0 {
            assert(held.len() == 0);
            assert(words(s) =~= seq![seq![c]]);
            assert(spaced(words(s)) =~= s);
        } else if white_space(before.last()) {
            assert(before.drop_last().len() > 0);
            assert(held.len() > 0);
            let all = words(s);
            assert(all.drop_last() =~= held);
            assert(all.last() == seq![c]);
            assert(s =~= before.drop_last().push(' ') + seq![c]) by {
                assert(before.last() == ' ');
            }
            assert(spaced(all) == spaced(held).push(' ') + seq![c]);
        } else {
            lemma_open_word(before);
            let all = words(s);
            assert(all.drop_last() =~= held.drop_last());
            assert(all.last() == held.last().push(c));
            if held.len() == 1 {
                assert(spaced(all) == all[0] && spaced(held) == held[0]);
            } else {
                assert(spaced(all) =~= spaced(held).push(c));
            }
            assert(before.push(c) =~= s);
        }
    }
}

/// A tidy text is its own words with one space between each two.
pub proof fn lemma_tidy_stays(s: Seq<char>)
    requires
        tidy(s),
    ensures
        spaced(words(s)) == s,
{
    lemma_nothing_to_squeeze(s);
}

/// Texts may be put into capitals before or after they are joined.
proof fn lemma_spaced_in_capitals(parts: Seq<Seq<char>>)
    ensures
        capitals(spaced(parts)) == spaced(parts.map_values(|w: Seq<char>| capitals(w))),
    decreases parts.len(),
{
    let up = |w: Seq<char>| capitals(w);
    let raised = parts.map_values(up);
    if parts.len() == 0 {
        assert(capitals(spaced(parts)) =~= spaced(raised));
    } else if parts.len() > 1 {
        lemma_spaced_in_capitals(parts.drop_last());
        assert(raised.drop_last() =~= parts.drop_last().map_values(up));
        assert(raised.last() == capitals(parts.last()));
        assert(capitals(spaced(parts)) =~= spaced(raised));
    }
}

/// Texts that are the same up to case are joined to the same capitals.
pub proof fn lemma_case_does_not_count(a: Seq<Seq<char>>, b: Seq<Seq<char>>)
    requires
        a.len() == b.len(),
        forall|i: int| 0 <= i < a.len() ==> same_but_for_case(#[trigger] a[i], b[i]),
    ensures
        capitals(spaced(a)) == capitals(spaced(b)),
{
    let up = |w: Seq<char>| capitals(w);
    lemma_spaced_in_capitals(a);
    lemma_spaced_in_capitals(b);
    assert forall|i: int| 0 <= i < a.len() implies capitals(#[trigger] a[i]) == capitals(b[i]) by {
        let (x, y) = (a[i], b[i]);
        assert(same_but_for_case(x, y));
        assert forall|j: int| 0 <= j < x.len() implies ascii_capital(#[trigger] x[j])
            == ascii_capital(y[j]) by {
            assert(ascii_small(x[j]) == ascii_small(y[j]));
        }
        assert(capitals(x) =~= capitals(y));
    }
    assert(a.map_values(up) =~= b.map_values(up));
}

/// Capitals stay, a text of ASCII characters stays one, and a tidy text stays
/// tidy.
pub proof fn lemma_capitals(s: Seq<char>)
    ensures
        capitals(capitals(s)) == capitals(s),
        ascii(s) ==> ascii(capitals(s)),
        tidy(s) ==> tidy(capitals(s)),
{
    let u = capitals(s);
    assert(capitals(u) =~= u);
    assert forall|i: int| 0 <= i < s.len() implies #[trigger] u[i] == ascii_capital(s[i]) by {}
    assert forall|i: int| 0 <= i < s.len() implies white_space(#[trigger] u[i]) == white_space(
        s[i],
    ) by {
        assert(u[i] == ascii_capital(s[i]));
    }
    if ascii(s) {
        assert forall|i: int| 0 <= i < u.len() implies #[trigger] u[i] <= '\u{7f}' by {
            assert(s[i] <= '\u{7f}');
        }
    }
    if tidy(s) {
        if s.len() > 0 {
            assert(u.last() == u[s.len() - 1] && s.last() == s[s.len() - 1]);
            assert(white_space(u[0]) == white_space(s[0]));
        }
        assert forall|i: int| 0 <= i < u.len() && white_space(#[trigger] u[i]) implies u[i]
            == ' ' by {
            assert(s[i] == ' ');
        }
        assert forall|i: int, j: int|
            0 <= i < u.len() && j == i + 1 && j < u.len() && white_space(
                #[trigger] u[i],
            ) implies !white_space(#[trigger] u[j]) by {
            assert(white_space(s[i]) && !white_space(s[j]));
        }
    }
}

/// The words of a text of ASCII characters are of ASCII characters.
proof fn lemma_ascii_words(s: Seq<char>)
    requires
        ascii(s),
    ensures
        forall|i: int| 0 <= i < words(s).len() ==> ascii(#[trigger] words(s)[i]),
    decreases s.len(),
{
    if s.len() > 0 {
        let before = s.drop_last();
        assert(s.last() == s[s.len() - 1]);
        assert(ascii(before)) by {
            assert forall|i: int| 0 <= i < before.len() implies #[trigger] before[i]
                <= '\u{7f}' by {
                assert(s[i] == before[i]);
            }
        }
        lemma_ascii_words(before);
        if before.len() > 0 && !white_space(before.last()) {
            lemma_open_word(before);
        }
        assert forall|i: int| 0 <= i < words(s).len() implies ascii(#[trigger] words(s)[i]) by {
            let w = words(before);
            if i < w.len() - 1 {
                assert(words(s)[i] == w[i]);
            } else if i < w.len() {
                assert(ascii(w[i]));
            }
        }
    }
}

/// Texts of ASCII characters stay such when they are joined.
proof fn lemma_ascii_spaced(parts: Seq<Seq<char>>)
    requires
        forall|i: int| 0 <= i < parts.len() ==> ascii(#[trigger] parts[i]),
    ensures
        ascii(spaced(parts)),
    decreases parts.len(),
{
    if parts.len() > 1 {
        let head = parts.drop_last();
        assert forall|i: int| 0 <= i < head.len() implies ascii(#[trigger] head[i]) by {
            assert(ascii(parts[i]));
        }
        lemma_ascii_spaced(head);
        assert(ascii(parts[parts.len() - 1]));
    }
}

/// A squeezed text of ASCII characters is one.
pub proof fn lemma_ascii_squeezed(s: Seq<char>)
    requires
        ascii(s),
    ensures
        ascii(spaced(words(s))),
{
    lemma_ascii_words(s);
    lemma_ascii_spaced(words(s));
}

// ---- trimming ----

/// A text without the white space at its two ends.
pub open spec fn trimmed(s: Seq<char>) -> Seq<char>
    decreases s.len(),
{
    if s.len() == 0 {
        s
    } else if white_space(s.first()) {
        trimmed(s.drop_first())
    } else if white_space(s.last()) {
        trimmed(s.drop_last())
    } else {
        s
    }
}

/// The characters without the white space at the two ends.
pub(crate) fn trim_chars(chars: &Vec<char>) -> (r: Vec<char>)
    ensures
        r@ == trimmed(chars@),
{
    let mut lo: usize = 0;
    let mut hi: usize = chars.len();
    assert(chars@.subrange(0, hi as int) =~= chars@);
    while lo < hi && chars[lo].is_whitespace()
        invariant
            lo <= hi <= chars.len(),
            trimmed(chars@.subrange(lo as int, hi as int)) == trimmed(chars@),
        decreases hi - lo,
    {
        assert(chars@.subrange(lo as int, hi as int).drop_first() =~= chars@.subrange(
            lo + 1,
            hi as int,
        ));
        lo = lo + 1;
    }
    while lo < hi && chars[hi - 1].is_whitespace()
        invariant
            lo <= hi <= chars.len(),
            lo < hi ==> !white_space(chars@[lo as int]),
            trimmed(chars@.subrange(lo as int, hi as int)) == trimmed(chars@),
        decreases hi - lo,
    {
        assert(chars@.subrange(lo as int, hi as int).drop_last() =~= chars@.subrange(
            lo as int,
            hi - 1,
        ));
        hi = hi - 1;
    }
    part_of(chars, lo, hi)
}

/// The characters from `lo` up to `hi`.
pub(crate) fn part_of(chars: &Vec<char>, lo: usize, hi: usize) -> (r: Vec<char>)
    requires
        lo <= hi <= chars.len(),
    ensures
        r@ == chars@.subrange(lo as int, hi as int),
{
    let mut out: Vec<char> = Vec::new();
    let mut i: usize = lo;
    while i < hi
        invariant
            lo <= i <= hi <= chars.len(),
            out@ == chars@.subrange(lo as int, i as int),
        decreases hi - i,
    {
        out.push(chars[i]);
        i = i + 1;
        assert(chars@.subrange(lo as int, i as int) =~= chars@.subrange(lo as int, i - 1).push(
            chars@[i - 1],
        ));
    }
    out
}

// ---- case ----

/// A character with an ASCII capital turned into its small letter.
pub open spec fn ascii_small(c: char) -> char {
    if 'A' <= c <= 'Z' {
        ((c as int) + 32) as char
    } else {
        c
    }
}

/// Whether a text is made of ASCII characters alone.
pub open spec fn ascii(s: Seq<char>) -> bool {
    forall|i: int| 0 <= i < s.len() ==> #[trigger] s[i] <= '\u{7f}'
}

/// A character with an ASCII small letter turned into its capital.
pub open spec fn ascii_capital(c: char) -> char {
    if 'a' <= c <= 'z' {
        ((c as int) - 32) as char
    } else {
        c
    }
}

/// A text with its ASCII small letters turned into their capitals.
pub open spec fn capitals(s: Seq<char>) -> Seq<char> {
    s.map_values(|c: char| ascii_capital(c))
}

/// A text with its ASCII capitals turned into their small letters.
pub open spec fn smalls(s: Seq<char>) -> Seq<char> {
    s.map_values(|c: char| ascii_small(c))
}

/// Whether two texts are the same up to the case of ASCII letters.
pub open spec fn same_but_for_case(a: Seq<char>, b: Seq<char>) -> bool {
    &&& a.len() == b.len()
    &&& forall|i: int| 0 <= i < a.len() ==> ascii_small(#[trigger] a[i]) == ascii_small(b[i])
}

/// A text is some small letters up to case exactly when it is they in small
/// letters.
pub proof fn lemma_small_up_to_case(s: Seq<char>, small: Seq<char>)
    requires
        forall|i: int| 0 <= i < small.len() ==> 'a' <= #[trigger] small[i] <= 'z',
    ensures
        smalls(s) == small <==> same_but_for_case(s, small),
{
    assert forall|i: int| 0 <= i < s.len() implies #[trigger] smalls(s)[i] == ascii_small(
        s[i],
    ) by {}
    if smalls(s) == small {
        assert forall|i: int| 0 <= i < s.len() implies ascii_small(#[trigger] s[i]) == ascii_small(
            small[i],
        ) by {
            assert(smalls(s)[i] == small[i]);
        }
    }
    if same_but_for_case(s, small) {
        assert(smalls(s) =~= small);
    }
}

/// Of two texts that are the same up to case, each is like a third or neither
/// is.
pub proof fn lemma_up_to_case_carries_over(a: Seq<char>, b: Seq<char>, c: Seq<char>)
    requires
        same_but_for_case(a, b),
    ensures
        same_but_for_case(a, c) <==> same_but_for_case(b, c),
{
    if same_but_for_case(a, c) {
        assert forall|i: int| 0 <= i < b.len() implies ascii_small(#[trigger] b[i]) == ascii_small(
            c[i],
        ) by {
            assert(ascii_small(a[i]) == ascii_small(b[i]));
        }
    }
}

/// Texts that are the same up to case stay so when they are trimmed.
pub proof fn lemma_trimmed_up_to_case(a: Seq<char>, b: Seq<char>)
    requires
        same_but_for_case(a, b),
    ensures
        same_but_for_case(trimmed(a), trimmed(b)),
    decreases a.len(),
{
    if a.len() > 0 {
        let last = a.len() - 1;
        assert(ascii_small(a[0]) == ascii_small(b[0]));
        assert(ascii_small(a[last]) == ascii_small(b[last]));
        if white_space(a.first()) {
            let (x, y) = (a.drop_first(), b.drop_first());
            assert forall|i: int| 0 <= i < x.len() implies ascii_small(#[trigger] x[i])
                == ascii_small(y[i]) by {
                assert(x[i] == a[i + 1] && y[i] == b[i + 1]);
            }
            lemma_trimmed_up_to_case(x, y);
        } else if white_space(a.last()) {
            let (x, y) = (a.drop_last(), b.drop_last());
            assert forall|i: int| 0 <= i < x.len() implies ascii_small(#[trigger] x[i])
                == ascii_small(y[i]) by {
                assert(x[i] == a[i] && y[i] == b[i]);
            }
            lemma_trimmed_up_to_case(x, y);
        }
    }
}

/// A trimmed text of ASCII characters is one.
pub proof fn lemma_ascii_trimmed(s: Seq<char>)
    requires
        ascii(s),
    ensures
        ascii(trimmed(s)),
    decreases s.len(),
{
    if s.len() > 0 {
        if white_space(s.first()) {
            let x = s.drop_first();
            assert forall|i: int| 0 <= i < x.len() implies #[trigger] x[i] <= '\u{7f}' by {
                assert(x[i] == s[i + 1]);
            }
            lemma_ascii_trimmed(x);
        } else if white_space(s.last()) {
            let x = s.drop_last();
            assert forall|i: int| 0 <= i < x.len() implies #[trigger] x[i] <= '\u{7f}' by {
                assert(x[i] == s[i]);
            }
            lemma_ascii_trimmed(x);
        }
    }
}

/// A character with an ASCII capital turned into its small letter.
fn ascii_small_of(c: char) -> (r: char)
    ensures
        r == ascii_small(c),
{
    if 'A' <= c && c <= 'Z' {
        ((c as u8) + 32) as char
    } else {
        c
    }
}

/// Whether two texts are the same up to the case of ASCII letters.
pub(crate) fn same_ignoring_case(a: &str, b: &str) -> (r: bool)
    ensures
        r == same_but_for_case(a@, b@),
{
    let x = chars_of(a);
    let y = chars_of(b);
    if x.len() != y.len() {
        return false;
    }
    for i in 0..x.len()
        invariant
            x.len() == y.len(),
            x@ == a@,
            y@ == b@,
            forall|j: int| 0 <= j < i ==> ascii_small(#[trigger] x@[j]) == ascii_small(y@[j]),
    {
        if ascii_small_of(x[i]) != ascii_small_of(y[i]) {
            return false;
        }
    }
    true
}

// ---- whole numbers ----

/// The decimal digit of a number below ten.
pub open spec fn digit(d: int) -> char {
    (48 + d) as char
}

/// A whole number in decimal, without leading zeros.
pub open spec fn decimal(n: nat) -> Seq<char>
    decreases n,
{
    if n < 10 {
        seq![digit(n as int)]
    } else {
        decimal(n / 10).push(digit((n % 10) as int))
    }
}

/// A whole number in decimal, with a minus sign when it is negative.
pub open spec fn signed_decimal(n: int) -> Seq<char> {
    if n < 0 {
        seq!['-'] + decimal((-n) as nat)
    } else {
        decimal(n as nat)
    }
}

/// A whole number in decimal.
pub(crate) fn decimal_of(n: u64) -> (r: String)
    ensures
        r@ == decimal(n as nat),
    decreases n,
{
    let mut out: String = if n < 10 {
        String::new()
    } else {
        decimal_of(n / 10)
    };
    let d: u8 = (n % 10) as u8;
    out.push((48 + d) as char);
    assert(n < 10 ==> out@ =~= seq![digit(n as int)]);
    out
}

/// A whole number in decimal, with its sign when it is negative.
pub(crate) fn signed_decimal_of(n: i64) -> (r: String)
    ensures
        r@ == signed_decimal(n as int),
{
    if n < 0 {
        let mut out: String = String::new();
        out.push('-');
        let rest: String = decimal_of((-(n + 1)) as u64 + 1);
        out.append(rest.as_str());
        assert(out@ =~= seq!['-'] + decimal((-n) as nat));
        out
    } else {
        decimal_of(n as u64)
    }
}

/// Whether a text is white space but for one stretch of it.
pub open spec fn white_around(s: Seq<char>, from: int, to: int) -> bool {
    &&& 0 <= from <= to <= s.len()
    &&& forall|i: int| 0 <= i < from ==> white_space(#[trigger] s[i])
    &&& forall|i: int| to <= i < s.len() ==> white_space(#[trigger] s[i])
}

/// Where trimming begins and ends.
proof fn lemma_trimmed_at(s: Seq<char>) -> (at: (int, int))
    ensures
        white_around(s, at.0, at.1),
        s.subrange(at.0, at.1) == trimmed(s),
        trimmed(s).len() > 0 ==> !white_space(trimmed(s)[0]) && !white_space(
            trimmed(s)[trimmed(s).len() - 1],
        ),
    decreases s.len(),
{
    if s.len() == 0 {
        assert(s.subrange(0, 0) =~= trimmed(s));
        (0, 0)
    } else if white_space(s.first()) {
        let x = s.drop_first();
        let (from, to) = lemma_trimmed_at(x);
        assert(s.subrange(from + 1, to + 1) =~= x.subrange(from, to));
        assert forall|i: int| 0 <= i < from + 1 implies white_space(#[trigger] s[i]) by {
            if i > 0 {
                assert(x[i - 1] == s[i]);
            }
        }
        assert forall|i: int| to + 1 <= i < s.len() implies white_space(#[trigger] s[i]) by {
            assert(x[i - 1] == s[i]);
        }
        (from + 1, to + 1)
    } else if white_space(s.last()) {
        let x = s.drop_last();
        let (from, to) = lemma_trimmed_at(x);
        assert(s.subrange(from, to) =~= x.subrange(from, to));
        assert forall|i: int| 0 <= i < from implies white_space(#[trigger] s[i]) by {
            assert(x[i] == s[i]);
        }
        assert forall|i: int| to <= i < s.len() implies white_space(#[trigger] s[i]) by {
            if i < x.len() {
                assert(x[i] == s[i]);
            }
        }
        (from, to)
    } else {
        assert(s.subrange(0, s.len() as int) =~= s);
        (0, s.len() as int)
    }
}

/// Trimming takes white space off the two ends and nothing else.
pub proof fn law_trimming_takes_white_space_off_the_ends(s: Seq<char>)
    ensures
        exists|from: int, to: int| #[trigger]
            white_around(s, from, to) && s.subrange(from, to) == trimmed(s),
        trimmed(s).len() > 0 ==> !white_space(trimmed(s)[0]) && !white_space(
            trimmed(s)[trimmed(s).len() - 1],
        ),
{
    let at = lemma_trimmed_at(s);
    assert(white_around(s, at.0, at.1));
}

/// White space parts the words before it from those after it.
pub proof fn law_white_space_parts_words(a: Seq<char>, c: char, b: Seq<char>)
    requires
        white_space(c),
    ensures
        words(a.push(c) + b) == words(a) + words(b),
    decreases b.len(),
{
    let s = a.push(c) + b;
    if b.len() == 0 {
        assert(s =~= a.push(c));
        assert(s.drop_last() =~= a);
        assert(words(s) =~= words(a) + words(b));
    } else {
        let rest = b.drop_last();
        law_white_space_parts_words(a, c, rest);
        assert(s.drop_last() =~= a.push(c) + rest);
        assert(s.last() == b.last());
        assert(s.drop_last().last() == if rest.len() > 0 {
            rest.last()
        } else {
            c
        });
        if !white_space(b.last()) && rest.len() > 0 && !white_space(rest.last()) {
            lemma_open_word(rest);
        }
        assert(words(s) =~= words(a) + words(b));
    }
}

/// A run of characters without white space is one word, and nothing is none.
pub proof fn law_a_run_without_white_space_is_one_word(w: Seq<char>)
    requires
        forall|i: int| 0 <= i < w.len() ==> !white_space(#[trigger] w[i]),
    ensures
        w.len() > 0 ==> words(w) == seq![w],
        w.len() == 0 ==> words(w).len() == 0,
{
    if w.len() > 0 {
        lemma_one_word(w);
    }
}

/// Texts are joined with one space between each two, in their order.
pub proof fn law_texts_are_joined_by_one_space(parts: Seq<Seq<char>>, last: Seq<char>)
    ensures
        spaced(Seq::empty()).len() == 0,
        spaced(seq![last]) == last,
        parts.len() > 0 ==> spaced(parts.push(last)) == spaced(parts) + seq![' '] + last,
{
    assert(parts.push(last).drop_last() =~= parts);
    if parts.len() > 0 {
        assert(spaced(parts.push(last)) =~= spaced(parts) + seq![' '] + last);
    }
}

/// The number that decimal digits stand for.
pub open spec fn read_back(digits: Seq<char>) -> int
    decreases digits.len(),
{
    if digits.len() == 0 {
        0
    } else {
        10 * read_back(digits.drop_last()) + (digits.last() as int - '0' as int)
    }
}

/// A number in decimal digits is read back as itself, and begins with a zero
/// only where it is zero.
pub proof fn law_decimal_digits_are_read_back(n: nat)
    ensures
        read_back(decimal(n)) == n,
        decimal(n).len() > 0,
        forall|i: int| 0 <= i < decimal(n).len() ==> '0' <= #[trigger] decimal(n)[i] <= '9',
        n > 0 ==> decimal(n)[0] != '0',
        n == 0 ==> decimal(n) == seq!['0'],
    decreases n,
{
    let all = decimal(n);
    if n < 10 {
        assert(all.drop_last() =~= Seq::empty());
        assert(read_back(all.drop_last()) == 0);
    } else {
        let rest = decimal(n / 10);
        law_decimal_digits_are_read_back(n / 10);
        assert(all.drop_last() =~= rest);
        assert(all[0] == rest[0]);
    }
}

/// A number below zero is written with a sign before its digits.
pub proof fn law_a_sign_stands_before_the_digits(n: int)
    ensures
        n >= 0 ==> signed_decimal(n) == decimal(n as nat),
        n < 0 ==> signed_decimal(n) == seq!['-'] + decimal((-n) as nat),
{
}

/// Only the letters differ in their case.
pub proof fn law_only_letters_have_a_case(c: char)
    ensures
        'A' <= c <= 'Z' ==> ascii_small(c) as int == c as int + 32,
        !('A' <= c <= 'Z') ==> ascii_small(c) == c,
        'a' <= c <= 'z' ==> ascii_capital(c) as int == c as int - 32,
        !('a' <= c <= 'z') ==> ascii_capital(c) == c,
{
}

/// Texts are the same up to case exactly when they are the same in small
/// letters.
pub proof fn law_same_up_to_case_is_same_in_small_letters(a: Seq<char>, b: Seq<char>)
    ensures
        same_but_for_case(a, b) <==> smalls(a) == smalls(b),
        smalls(a).len() == a.len(),
        forall|i: int| 0 <= i < a.len() ==> #[trigger] smalls(a)[i] == ascii_small(a[i]),
        capitals(a).len() == a.len(),
        forall|i: int| 0 <= i < a.len() ==> #[trigger] capitals(a)[i] == ascii_capital(a[i]),
{
    if same_but_for_case(a, b) {
        assert(smalls(a) =~= smalls(b));
    }
    if smalls(a) == smalls(b) {
        assert(a.len() == smalls(a).len() && b.len() == smalls(b).len());
        assert forall|i: int| 0 <= i < a.len() implies ascii_small(#[trigger] a[i]) == ascii_small(
            b[i],
        ) by {
            assert(smalls(a)[i] == smalls(b)[i]);
        }
    }
}

} // verus!
