//! Characters and character sequences: character classes, trimming, searching and splitting.
use vstd::prelude::*;

verus! {

/// White space: the characters that carry the Unicode property `White_Space`.
pub open spec fn is_space(c: char) -> bool {
    ||| '\u{9}' <= c <= '\u{d}'
    ||| c == ' '
    ||| c == '\u{85}'
    ||| c == '\u{a0}'
    ||| c == '\u{1680}'
    ||| '\u{2000}' <= c <= '\u{200a}'
    ||| c == '\u{2028}'
    ||| c == '\u{2029}'
    ||| c == '\u{202f}'
    ||| c == '\u{205f}'
    ||| c == '\u{3000}'
}

/// A decimal digit, `0` to `9`.
pub open spec fn is_digit(c: char) -> bool {
    '0' <= c <= '9'
}

/// Whether `c` is a letter or a digit of any script: what `char::is_alphanumeric` of the
/// standard library answers for `c`. Which characters these are is not stated here.
pub uninterp spec fn alphanumeric(c: char) -> bool;

/// Taken on trust, not proved: `char::is_alphanumeric` of the standard library answers by the
/// character alone, so that `alphanumeric` can name its answer. Nothing more is claimed of it.
pub assume_specification[ char::is_alphanumeric ](c: char) -> (r: bool)
    ensures
        r == alphanumeric(c),
;

/// Taken on trust, not proved: `String::push` of the standard library puts the character at
/// the end of the string and leaves the characters before it as they were.
pub assume_specification[ std::string::String::push ](s: &mut std::string::String, ch: char)
    ensures
        final(s)@ == old(s)@.push(ch),
;

/// Taken on trust, not proved: `==` on string slices, `str::eq` of the standard library, holds
/// exactly of two slices with the same characters in the same order.
pub assume_specification[ <str as PartialEq>::eq ](a: &str, b: &str) -> (r: bool)
    ensures
        r == (a@ == b@),
;

/// A character of an identifier: a letter, a digit or an underscore.
pub open spec fn is_word(c: char) -> bool {
    c == '_' || alphanumeric(c)
}

/// The classes of characters that the grammar tells apart by runs.
#[derive(Clone, Copy, Debug, PartialEq, Eq, Structural)]
pub enum CharClass {
    /// White space.
    Space,
    /// Decimal digits.
    Digit,
    /// Letters, digits and the underscore.
    Word,
}

impl CharClass {
    /// Whether `c` belongs to the class.
    pub open spec fn has(self, c: char) -> bool {
        match self {
            CharClass::Space => is_space(c),
            CharClass::Digit => is_digit(c),
            CharClass::Word => is_word(c),
        }
    }

    /// Tells whether `c` belongs to the class.
    pub fn contains(self, c: char) -> (r: bool)
        ensures
            r == self.has(c),
    {
        match self {
            CharClass::Space => is_whitespace(c),
            CharClass::Digit => '0' <= c && c <= '9',
            CharClass::Word => c == '_' || c.is_alphanumeric(),
        }
    }
}

/// Tells whether `c` is white space.
pub fn is_whitespace(c: char) -> (r: bool)
    ensures
        r == is_space(c),
{
    ('\u{9}' <= c && c <= '\u{d}') || c == ' ' || c == '\u{85}' || c == '\u{a0}' || c == '\u{1680}'
        || ('\u{2000}' <= c && c <= '\u{200a}') || c == '\u{2028}' || c == '\u{2029}' || c
        == '\u{202f}' || c == '\u{205f}' || c == '\u{3000}'
}

/// The end of the run of `class` characters that starts at `from`: the first index at or after
/// `from` whose character is outside the class, or the length of `s`.
pub open spec fn run_end(s: Seq<char>, class: CharClass, from: int) -> int
    decreases s.len() - from,
{
    if 0 <= from < s.len() && class.has(s[from]) {
        run_end(s, class, from + 1)
    } else {
        from
    }
}

/// What a run is: every character in it is of the class, and the one after it, if any, is not.
pub proof fn lemma_run_end(s: Seq<char>, class: CharClass, from: int)
    requires
        0 <= from <= s.len(),
    ensures
        from <= run_end(s, class, from) <= s.len(),
        forall|i: int| from <= i < run_end(s, class, from) ==> class.has(#[trigger] s[i]),
        run_end(s, class, from) < s.len() ==> !class.has(s[run_end(s, class, from)]),
    decreases s.len() - from,
{
    if from < s.len() && class.has(s[from]) {
        lemma_run_end(s, class, from + 1);
    }
}

/// Skips the run of `class` characters that starts at `from`.
pub fn skip(s: &[char], class: CharClass, from: usize) -> (r: usize)
    ensures
        r == run_end(s@, class, from as int),
        from <= r,
        from <= s.len() ==> r <= s.len(),
{
    let mut i: usize = from;
    while i < s.len() && class.contains(s[i])
        invariant
            from <= i,
            from <= s.len() ==> i <= s.len(),
            run_end(s@, class, from as int) == run_end(s@, class, i as int),
        decreases s.len() - i,
    {
        i += 1;
    }
    i
}

/// `s` without the white space it starts with.
pub open spec fn trim_start(s: Seq<char>) -> Seq<char>
    decreases s.len(),
{
    if s.len() > 0 && is_space(s[0]) {
        trim_start(s.drop_first())
    } else {
        s
    }
}

/// `s` without the white space it ends with.
pub open spec fn trim_end(s: Seq<char>) -> Seq<char>
    decreases s.len(),
{
    if s.len() > 0 && is_space(s.last()) {
        trim_end(s.drop_last())
    } else {
        s
    }
}

/// `s` without the white space at either end.
pub open spec fn trimmed(s: Seq<char>) -> Seq<char> {
    trim_end(trim_start(s))
}

/// What `trim_start` leaves is the end of the text from its first character that is not white
/// space; what it takes away is white space only.
pub proof fn lemma_trim_start(s: Seq<char>)
    ensures
        trim_start(s) == s.subrange(run_end(s, CharClass::Space, 0), s.len() as int),
        trim_start(s).len() > 0 ==> !is_space(trim_start(s)[0]),
    decreases s.len(),
{
    lemma_run_end(s, CharClass::Space, 0);
    if s.len() > 0 && is_space(s[0]) {
        let rest = s.drop_first();
        lemma_trim_start(rest);
        lemma_run_end(rest, CharClass::Space, 0);
        lemma_run_end_shift(s, CharClass::Space, 1);
        assert(rest.subrange(run_end(rest, CharClass::Space, 0), rest.len() as int)
            == s.subrange(run_end(s, CharClass::Space, 0), s.len() as int));
    } else {
        assert(s.subrange(0, s.len() as int) == s);
    }
}

/// A run ends at the same character whether it is counted in the text or in the text without
/// its first `k` characters.
pub proof fn lemma_run_end_shift(s: Seq<char>, class: CharClass, k: int)
    requires
        0 <= k <= s.len(),
    ensures
        run_end(s, class, k) == k + run_end(s.subrange(k, s.len() as int), class, 0),
{
    lemma_run_end_from(s, class, k, k);
}

/// The same, for a run that starts anywhere at or after the `k`-th character.
pub proof fn lemma_run_end_from(s: Seq<char>, class: CharClass, k: int, from: int)
    requires
        0 <= k <= from <= s.len(),
    ensures
        run_end(s, class, from) == k + run_end(s.subrange(k, s.len() as int), class, from - k),
    decreases s.len() - from,
{
    let rest = s.subrange(k, s.len() as int);
    if from < s.len() {
        assert(rest[from - k] == s[from]);
        if class.has(s[from]) {
            lemma_run_end_from(s, class, k, from + 1);
        }
    }
}

/// What `trim_end` leaves is a start of the text that does not end with white space; what it
/// takes away is white space only.
pub proof fn lemma_trim_end(s: Seq<char>)
    ensures
        trim_end(s).len() <= s.len(),
        trim_end(s) == s.take(trim_end(s).len() as int),
        forall|i: int| trim_end(s).len() <= i < s.len() ==> is_space(#[trigger] s[i]),
        trim_end(s).len() > 0 ==> !is_space(trim_end(s).last()),
    decreases s.len(),
{
    if s.len() > 0 && is_space(s.last()) {
        let rest = s.drop_last();
        lemma_trim_end(rest);
        assert(rest.take(trim_end(rest).len() as int) == s.take(trim_end(rest).len() as int));
        assert forall|i: int| trim_end(s).len() <= i < s.len() implies is_space(
            #[trigger] s[i],
        ) by {
            if i < s.len() - 1 {
                assert(rest[i] == s[i]);
            }
        }
    } else {
        assert(s.take(s.len() as int) == s);
    }
}

/// A trimmed text is a stretch of the text it was trimmed from. It neither starts nor ends
/// with white space, and trimming it again changes nothing.
pub proof fn lemma_trimmed(s: Seq<char>)
    ensures
        trimmed(s).len() > 0 ==> !is_space(trimmed(s)[0]) && !is_space(trimmed(s).last()),
        trimmed(s) == s.subrange(
            run_end(s, CharClass::Space, 0),
            run_end(s, CharClass::Space, 0) + trimmed(s).len(),
        ),
        run_end(s, CharClass::Space, 0) + trimmed(s).len() <= s.len(),
        trimmed(trimmed(s)) == trimmed(s),
{
    let start = run_end(s, CharClass::Space, 0);
    lemma_run_end(s, CharClass::Space, 0);
    lemma_trim_start(s);
    let middle = trim_start(s);
    lemma_trim_end(middle);
    let core = trimmed(s);
    assert(core == s.subrange(start, start + core.len()));
    if core.len() > 0 {
        assert(core[0] == middle[0]);
    }
    lemma_trim_start(core);
    lemma_run_end(core, CharClass::Space, 0);
    assert(trim_start(core) == core) by {
        if core.len() > 0 {
            assert(run_end(core, CharClass::Space, 0) == 0);
        }
        assert(core.subrange(0, core.len() as int) == core);
    }
}

/// `s` without the white space at its end.
pub fn trim_trailing<'a>(s: &'a [char]) -> (r: &'a [char])
    ensures
        r@ == trim_end(s@),
{
    let mut hi: usize = s.len();
    assert(s@.subrange(0, hi as int) == s@);
    while hi > 0 && is_whitespace(s[hi - 1])
        invariant
            hi <= s.len(),
            trim_end(s@) == trim_end(s@.subrange(0, hi as int)),
        decreases hi,
    {
        proof {
            assert(s@.subrange(0, hi as int).drop_last() == s@.subrange(0, hi - 1));
        }
        hi -= 1;
    }
    &s[0..hi]
}

/// `s` without the white space at its start.
pub fn trim_leading<'a>(s: &'a [char]) -> (r: &'a [char])
    ensures
        r@ == trim_start(s@),
{
    let mut lo: usize = 0;
    assert(s@.subrange(0, s.len() as int) == s@);
    while lo < s.len() && is_whitespace(s[lo])
        invariant
            lo <= s.len(),
            trim_start(s@) == trim_start(s@.subrange(lo as int, s.len() as int)),
        decreases s.len() - lo,
    {
        proof {
            assert(s@.subrange(lo as int, s.len() as int).drop_first() == s@.subrange(
                lo + 1,
                s.len() as int,
            ));
        }
        lo += 1;
    }
    &s[lo..s.len()]
}

/// `s` without the white space at either end.
pub fn trim<'a>(s: &'a [char]) -> (r: &'a [char])
    ensures
        r@ == trimmed(s@),
{
    trim_trailing(trim_leading(s))
}

/// The indices below `n` at which `s` holds `c`, in ascending order.
pub open spec fn positions(s: Seq<char>, c: char, n: int) -> Seq<int>
    decreases n,
{
    if n <= 0 {
        Seq::empty()
    } else if s[n - 1] == c {
        positions(s, c, n - 1).push(n - 1)
    } else {
        positions(s, c, n - 1)
    }
}

/// Cut points: indices into a text of length `len`, in strictly ascending order.
pub open spec fn ascending(cuts: Seq<int>, len: int) -> bool {
    &&& forall|k: int| 0 <= k < cuts.len() ==> 0 <= #[trigger] cuts[k] < len
    &&& forall|j: int, k: int| 0 <= j < k < cuts.len() ==> cuts[j] < cuts[k]
}

/// The piece of `s` between the cut before it and the cut after it: piece `0` starts the text,
/// and piece `cuts.len()` ends it. The characters at the cut points belong to no piece.
pub open spec fn piece(s: Seq<char>, cuts: Seq<int>, k: int) -> Seq<char> {
    let lo = if k == 0 {
        0
    } else {
        cuts[k - 1] + 1
    };
    let hi = if k == cuts.len() {
        s.len() as int
    } else {
        cuts[k]
    };
    s.subrange(lo, hi)
}

/// The pieces into which the cut points divide `s`: one more than there are cuts.
pub open spec fn pieces(s: Seq<char>, cuts: Seq<int>) -> Seq<Seq<char>> {
    Seq::new(cuts.len() + 1, |k: int| piece(s, cuts, k))
}

/// The pieces of `s` between the occurrences of `c`. A text without `c` is one piece.
pub open spec fn split(s: Seq<char>, c: char) -> Seq<Seq<char>> {
    pieces(s, positions(s, c, s.len() as int))
}

/// The pieces joined into one text, with `sep` between neighbours.
pub open spec fn join(parts: Seq<Seq<char>>, sep: char) -> Seq<char>
    decreases parts.len(),
{
    if parts.len() == 0 {
        Seq::empty()
    } else if parts.len() == 1 {
        parts[0]
    } else {
        join(parts.drop_last(), sep).push(sep) + parts.last()
    }
}

/// Indices as mathematical integers.
pub open spec fn indices(v: Seq<usize>) -> Seq<int> {
    v.map_values(|i: usize| i as int)
}

/// The texts that the slices hold.
pub open spec fn slices(v: Seq<&[char]>) -> Seq<Seq<char>> {
    v.map_values(|p: &[char]| p@)
}

/// The positions of a character are cut points, and they are exactly its occurrences.
pub proof fn lemma_positions(s: Seq<char>, c: char, n: int)
    requires
        0 <= n <= s.len(),
    ensures
        ascending(positions(s, c, n), n),
        forall|k: int| 0 <= k < positions(s, c, n).len() ==> s[#[trigger] positions(s, c, n)[k]] == c,
        forall|i: int| 0 <= i < n && s[i] == c ==> positions(s, c, n).contains(i),
    decreases n,
{
    if n > 0 {
        lemma_positions(s, c, n - 1);
        let before = positions(s, c, n - 1);
        let now = positions(s, c, n);
        if s[n - 1] == c {
            assert(now[now.len() - 1] == n - 1);
            assert forall|i: int| 0 <= i < n && s[i] == c implies now.contains(i) by {
                if i < n - 1 {
                    let k = choose|k: int| 0 <= k < before.len() && before[k] == i;
                    assert(now[k] == i);
                }
            }
        }
    }
}

/// The pieces of the first `n` characters of `s` between the occurrences of `c`, joined by
/// `c`, are these characters again.
proof fn lemma_join_prefix(s: Seq<char>, c: char, n: int)
    requires
        0 <= n <= s.len(),
    ensures
        join(pieces(s.take(n), positions(s, c, n)), c) == s.take(n),
    decreases n,
{
    let now = pieces(s.take(n), positions(s, c, n));
    if n == 0 {
        assert(now[0] == s.take(0));
    } else {
        lemma_join_prefix(s, c, n - 1);
        lemma_positions(s, c, n - 1);
        let cuts = positions(s, c, n - 1);
        let before = pieces(s.take(n - 1), cuts);
        let last = cuts.len() as int;
        if s[n - 1] == c {
            assert(now =~= before.push(Seq::empty())) by {
                assert forall|k: int| 0 <= k < now.len() implies now[k] == before.push(
                    Seq::empty(),
                )[k] by {
                    if k <= last {
                        assert(now[k] =~= before[k]);
                    } else {
                        assert(now[k] =~= Seq::<char>::empty());
                    }
                }
            }
            assert(now.drop_last() == before);
            assert(join(now, c) =~= s.take(n - 1).push(c));
            assert(s.take(n) == s.take(n - 1).push(c));
        } else {
            assert(now =~= before.update(last, before[last].push(s[n - 1]))) by {
                assert forall|k: int| 0 <= k < now.len() implies now[k] == before.update(
                    last,
                    before[last].push(s[n - 1]),
                )[k] by {
                    if k < last {
                        assert(now[k] =~= before[k]);
                    } else {
                        assert(now[k] =~= before[last].push(s[n - 1]));
                    }
                }
            }
            if last > 0 {
                assert(now.drop_last() =~= before.drop_last());
                assert(join(now, c) =~= join(before, c).push(s[n - 1]));
            }
            assert(s.take(n) == s.take(n - 1).push(s[n - 1]));
        }
    }
}

/// No piece of a text between the occurrences of `c` holds `c`.
proof fn lemma_piece_clean(s: Seq<char>, c: char, k: int, i: int)
    requires
        0 <= k < split(s, c).len(),
        0 <= i < split(s, c)[k].len(),
    ensures
        split(s, c)[k][i] != c,
{
    let cuts = positions(s, c, s.len() as int);
    lemma_positions(s, c, s.len() as int);
    let lo = if k == 0 {
        0
    } else {
        cuts[k - 1] + 1
    };
    let hi = if k == cuts.len() {
        s.len() as int
    } else {
        cuts[k]
    };
    assert(0 <= lo <= hi <= s.len()) by {
        if 0 < k < cuts.len() {
            assert(cuts[k - 1] < cuts[k]);
        }
    }
    assert(split(s, c)[k] == s.subrange(lo, hi));
    let at = lo + i;
    if s[at] == c {
        assert(cuts.contains(at));
        let j = choose|j: int| 0 <= j < cuts.len() && cuts[j] == at;
        if j < k - 1 {
            assert(cuts[j] < cuts[k - 1]);
        } else if j > k {
            assert(cuts[k] < cuts[j]);
        }
    }
}

/// Splitting and joining undo each other: the pieces of a text between the occurrences of `c`
/// hold no `c`, and joined by `c` they are the text again.
pub proof fn lemma_split_join(s: Seq<char>, c: char)
    ensures
        forall|k: int, i: int|
            0 <= k < split(s, c).len() && 0 <= i < split(s, c)[k].len() ==> #[trigger] split(
                s,
                c,
            )[k][i] != c,
        join(split(s, c), c) == s,
{
    lemma_join_prefix(s, c, s.len() as int);
    assert(s.take(s.len() as int) == s);
    assert forall|k: int, i: int|
        0 <= k < split(s, c).len() && 0 <= i < split(s, c)[k].len() implies #[trigger] split(
        s,
        c,
    )[k][i] != c by {
        lemma_piece_clean(s, c, k, i);
    }
}

/// Finds every occurrence of `c` in `s`.
pub fn find_all(s: &[char], c: char) -> (r: Vec<usize>)
    ensures
        indices(r@) == positions(s@, c, s.len() as int),
        ascending(indices(r@), s.len() as int),
{
    let mut r: Vec<usize> = Vec::new();
    let mut i: usize = 0;
    while i < s.len()
        invariant
            i <= s.len(),
            indices(r@) == positions(s@, c, i as int),
        decreases s.len() - i,
    {
        if s[i] == c {
            r.push(i);
        }
        i += 1;
    }
    proof {
        lemma_positions(s@, c, s.len() as int);
    }
    r
}

/// Divides `s` at the cut points.
pub(crate) fn cut<'a>(s: &'a [char], cuts: &Vec<usize>) -> (r: Vec<&'a [char]>)
    requires
        ascending(indices(cuts@), s.len() as int),
    ensures
        slices(r@) == pieces(s@, indices(cuts@)),
{
    let mut r: Vec<&'a [char]> = Vec::new();
    let mut lo: usize = 0;
    let mut k: usize = 0;
    while k < cuts.len()
        invariant
            k <= cuts.len(),
            ascending(indices(cuts@), s.len() as int),
            lo == (if k == 0 {
                0
            } else {
                indices(cuts@)[k - 1] + 1
            }),
            lo <= s.len(),
            r@.len() == k,
            forall|j: int| 0 <= j < k ==> (#[trigger] r@[j])@ == piece(s@, indices(cuts@), j),
        decreases cuts.len() - k,
    {
        let hi: usize = cuts[k];
        assert(indices(cuts@)[k as int] == hi);
        assert(lo <= hi) by {
            if k > 0 {
                assert(indices(cuts@)[k - 1] < indices(cuts@)[k as int]);
            }
        }
        r.push(&s[lo..hi]);
        lo = hi + 1;
        k += 1;
    }
    r.push(&s[lo..s.len()]);
    assert(slices(r@) =~= pieces(s@, indices(cuts@)));
    r
}

/// Divides `s` at every occurrence of `c`.
pub fn split_on<'a>(s: &'a [char], c: char) -> (r: Vec<&'a [char]>)
    ensures
        slices(r@) == split(s@, c),
{
    let cuts = find_all(s, c);
    cut(s, &cuts)
}

/// The characters of `s`, in order.
pub fn chars_of(s: &str) -> (v: Vec<char>)
    ensures
        v@ == s@,
{
    let mut v: Vec<char> = Vec::new();
    for c in it: s.chars()
        invariant
            v@ == it.seq().take(it.index() as int),
            it.seq() == s@,
    {
        v.push(c);
    }
    v
}

/// A string of the characters of `s`, in order.
pub fn string_of(s: &[char]) -> (r: String)
    ensures
        r@ == s@,
{
    let mut r = String::new();
    let mut i: usize = 0;
    while i < s.len()
        invariant
            i <= s.len(),
            r@ == s@.take(i as int),
        decreases s.len() - i,
    {
        r.push(s[i]);
        i += 1;
    }
    r
}

/// Tells whether `s` holds the characters of `word`, and no others.
pub fn spells(s: &[char], word: &str) -> (r: bool)
    ensures
        r == (s@ == word@),
{
    let mut i: usize = 0;
    for c in it: word.chars()
        invariant
            it.seq() == word@,
            i == it.index(),
            i <= s.len(),
            s@.take(i as int) == word@.take(i as int),
    {
        if i >= s.len() || s[i] != c {
            assert(s@ != word@) by {
                if s@ == word@ {
                    assert(s@[i as int] == word@[i as int]);
                }
            }
            return false;
        }
        assert(s@.take(i + 1) == s@.take(i as int).push(s@[i as int]));
        assert(word@.take(i + 1) == word@.take(i as int).push(word@[i as int]));
        i += 1;
    }
    assert(word@.take(i as int) == word@);
    if i == s.len() {
        assert(s@.take(i as int) == s@);
    }
    i == s.len()
}

} // verus!
