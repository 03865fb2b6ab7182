//! Character-level text handling: whitespace, trimming, splitting and
//! substring search, all over `Seq<char>` with executable counterparts
//! that work on index ranges of a character vector.
use vstd::prelude::*;

verus! {

/// Unicode `White_Space` (what `char::is_whitespace` accepts).
pub open spec fn is_ws(c: char) -> bool {
    let u = c as u32;
    ||| 0x09 <= u <= 0x0d
    ||| u == 0x20
    ||| u == 0x85
    ||| u == 0xa0
    ||| u == 0x1680
    ||| 0x2000 <= u <= 0x200a
    ||| u == 0x2028
    ||| u == 0x2029
    ||| u == 0x202f
    ||| u == 0x205f
    ||| u == 0x3000
}

/// Removes leading whitespace.
pub open spec fn trim_start(s: Seq<char>) -> Seq<char>
    decreases s.len(),
{
    if s.len() > 0 && is_ws(s[0]) {
        trim_start(s.drop_first())
    } else {
        s
    }
}

/// Removes trailing whitespace.
pub open spec fn trim_end(s: Seq<char>) -> Seq<char>
    decreases s.len(),
{
    if s.len() > 0 && is_ws(s.last()) {
        trim_end(s.drop_last())
    } else {
        s
    }
}

/// Removes whitespace at both ends (what `str::trim` does).
pub open spec fn trim(s: Seq<char>) -> Seq<char> {
    trim_end(trim_start(s))
}

/// The pieces of `s` between occurrences of `sep` (what `str::split` with a
/// `char` pattern yields): there is always at least one piece, and a
/// separator at either end gives an empty piece there.
pub open spec fn split_on(s: Seq<char>, sep: char) -> Seq<Seq<char>>
    decreases s.len(),
{
    if s.len() == 0 {
        seq![Seq::<char>::empty()]
    } else {
        let prev = split_on(s.drop_last(), sep);
        if s.last() == sep {
            prev.push(Seq::<char>::empty())
        } else {
            prev.update(prev.len() - 1, prev.last().push(s.last()))
        }
    }
}

/// The maximal runs of non-whitespace characters of `s`, in order (what
/// `str::split_whitespace` yields): a non-whitespace character extends the
/// current run when the character before it is not whitespace, and starts a
/// new run otherwise.
pub open spec fn ws_tokens(s: Seq<char>) -> Seq<Seq<char>>
    decreases s.len(),
{
    if s.len() == 0 {
        Seq::<Seq<char>>::empty()
    } else {
        let prev = ws_tokens(s.drop_last());
        let c = s.last();
        if is_ws(c) {
            prev
        } else if s.len() > 1 && !is_ws(s[s.len() - 2]) {
            prev.update(prev.len() - 1, prev.last().push(c))
        } else {
            prev.push(seq![c])
        }
    }
}

/// `needle` occurs in `hay` as a contiguous piece (what `str::contains`
/// with a string pattern tests).
pub open spec fn contains_piece(hay: Seq<char>, needle: Seq<char>) -> bool {
    exists|i: int|
        0 <= i && i + needle.len() <= hay.len() && #[trigger] hay.subrange(i, i + needle.len())
            == needle
}

/// The characters that a range covers.
pub open spec fn piece(text: Seq<char>, r: (usize, usize)) -> Seq<char> {
    text.subrange(r.0 as int, r.1 as int)
}

pub proof fn lemma_split_on_nonempty(s: Seq<char>, sep: char)
    ensures
        split_on(s, sep).len() >= 1,
    decreases s.len(),
{
    if s.len() > 0 {
        lemma_split_on_nonempty(s.drop_last(), sep);
    }
}

/// Whether `c` is whitespace.
pub fn is_whitespace(c: char) -> (r: bool)
    ensures
        r == is_ws(c),
{
    let u = c as u32;
    (0x09 <= u && u <= 0x0d) || u == 0x20 || u == 0x85 || u == 0xa0 || u == 0x1680 || (0x2000
        <= u && u <= 0x200a) || u == 0x2028 || u == 0x2029 || u == 0x202f || u == 0x205f || u
        == 0x3000
}

/// Collects the characters of a string slice, in order.
pub fn chars_of(s: &str) -> (out: Vec<char>)
    ensures
        out@ == s@,
{
    let mut out: Vec<char> = Vec::new();
    for c in it: s.chars()
        invariant
            out@ == it.seq().take(it.index() as int),
    {
        out.push(c);
    }
    out
}

/// The range of `text[lo..hi]` without its surrounding whitespace.
pub fn trim_range(text: &Vec<char>, lo: usize, hi: usize) -> (r: (usize, usize))
    requires
        lo <= hi <= text@.len(),
    ensures
        lo <= r.0 <= r.1 <= hi,
        piece(text@, r) == trim(text@.subrange(lo as int, hi as int)),
{
    let mut a = lo;
    while a < hi && is_whitespace(text[a])
        invariant
            lo <= a <= hi <= text@.len(),
            trim_start(text@.subrange(lo as int, hi as int)) == trim_start(
                text@.subrange(a as int, hi as int),
            ),
        decreases hi - a,
    {
        assert(text@.subrange(a as int, hi as int).drop_first() =~= text@.subrange(
            a + 1,
            hi as int,
        ));
        a = a + 1;
    }
    let ghost front = text@.subrange(a as int, hi as int);
    assert(trim_start(front) == front);
    let mut b = hi;
    while b > a && is_whitespace(text[b - 1])
        invariant
            lo <= a <= b <= hi <= text@.len(),
            front == text@.subrange(a as int, hi as int),
            trim_end(front) == trim_end(text@.subrange(a as int, b as int)),
        decreases b - a,
    {
        assert(text@.subrange(a as int, b as int).drop_last() =~= text@.subrange(
            a as int,
            b - 1,
        ));
        b = b - 1;
    }
    assert(trim_end(text@.subrange(a as int, b as int)) == text@.subrange(a as int, b as int));
    (a, b)
}

/// The ranges of the pieces of `text[lo..hi]` between occurrences of `sep`.
pub fn split_ranges(text: &Vec<char>, lo: usize, hi: usize, sep: char) -> (out: Vec<(usize, usize)>)
    requires
        lo <= hi <= text@.len(),
    ensures
        out@.len() == split_on(text@.subrange(lo as int, hi as int), sep).len(),
        forall|k: int|
            0 <= k < out@.len() ==> lo <= #[trigger] out@[k].0 <= out@[k].1 <= hi && piece(
                text@,
                out@[k],
            ) == split_on(text@.subrange(lo as int, hi as int), sep)[k],
{
    let mut out: Vec<(usize, usize)> = Vec::new();
    out.push((lo, lo));
    let mut i = lo;
    assert(text@.subrange(lo as int, lo as int) =~= Seq::<char>::empty());
    assert(split_on(Seq::<char>::empty(), sep) =~= seq![Seq::<char>::empty()]);
    while i < hi
        invariant
            lo <= i <= hi <= text@.len(),
            out@.len() >= 1,
            out@.len() == split_on(text@.subrange(lo as int, i as int), sep).len(),
            out@.last().1 == i,
            forall|k: int|
                0 <= k < out@.len() ==> lo <= #[trigger] out@[k].0 <= out@[k].1 <= i && piece(
                    text@,
                    out@[k],
                ) == split_on(text@.subrange(lo as int, i as int), sep)[k],
        decreases hi - i,
    {
        let ghost prev = split_on(text@.subrange(lo as int, i as int), sep);
        let ghost old_out = out@;
        let ghost s = text@.subrange(lo as int, i + 1);
        assert(s.drop_last() =~= text@.subrange(lo as int, i as int));
        assert(s.last() == text@[i as int]);
        if text[i] == sep {
            out.push((i + 1, i + 1));
            assert(piece(text@, out@.last()) =~= Seq::<char>::empty());
            assert forall|k: int| 0 <= k < out@.len() implies lo <= #[trigger] out@[k].0
                <= out@[k].1 <= i + 1 && piece(text@, out@[k]) == split_on(s, sep)[k] by {
                if k < old_out.len() {
                    assert(out@[k] == old_out[k]);
                }
            }
        } else {
            let last = out.len() - 1;
            let (a, _) = out[last];
            out.set(last, (a, i + 1));
            assert(piece(text@, out@[last as int]) =~= piece(text@, old_out[last as int]).push(
                text@[i as int],
            ));
            assert forall|k: int| 0 <= k < out@.len() implies lo <= #[trigger] out@[k].0
                <= out@[k].1 <= i + 1 && piece(text@, out@[k]) == split_on(s, sep)[k] by {
                if k < last {
                    assert(out@[k] == old_out[k]);
                }
            }
        }
        i = i + 1;
    }
    out
}

/// The ranges of the whitespace-separated tokens of `text[lo..hi]`.
pub fn token_ranges(text: &Vec<char>, lo: usize, hi: usize) -> (out: Vec<(usize, usize)>)
    requires
        lo <= hi <= text@.len(),
    ensures
        out@.len() == ws_tokens(text@.subrange(lo as int, hi as int)).len(),
        forall|k: int|
            0 <= k < out@.len() ==> lo <= #[trigger] out@[k].0 <= out@[k].1 <= hi && piece(
                text@,
                out@[k],
            ) == ws_tokens(text@.subrange(lo as int, hi as int))[k],
{
    let mut out: Vec<(usize, usize)> = Vec::new();
    let mut i = lo;
    assert(text@.subrange(lo as int, lo as int) =~= Seq::<char>::empty());
    while i < hi
        invariant
            lo <= i <= hi <= text@.len(),
            out@.len() == ws_tokens(text@.subrange(lo as int, i as int)).len(),
            i > lo && !is_ws(text@[i - 1]) ==> out@.len() >= 1 && out@.last().1 == i,
            forall|k: int|
                0 <= k < out@.len() ==> lo <= #[trigger] out@[k].0 <= out@[k].1 <= i && piece(
                    text@,
                    out@[k],
                ) == ws_tokens(text@.subrange(lo as int, i as int))[k],
        decreases hi - i,
    {
        let ghost old_out = out@;
        let ghost s = text@.subrange(lo as int, i + 1);
        assert(s.drop_last() =~= text@.subrange(lo as int, i as int));
        assert(s.last() == text@[i as int]);
        let c = text[i];
        if is_whitespace(c) {
            assert(ws_tokens(s) == ws_tokens(text@.subrange(lo as int, i as int)));
        } else if i > lo && !is_whitespace(text[i - 1]) {
            assert(s[s.len() - 2] == text@[i - 1]);
            let last = out.len() - 1;
            let (a, _) = out[last];
            out.set(last, (a, i + 1));
            assert(piece(text@, out@[last as int]) =~= piece(text@, old_out[last as int]).push(c));
            assert forall|k: int| 0 <= k < out@.len() implies lo <= #[trigger] out@[k].0
                <= out@[k].1 <= i + 1 && piece(text@, out@[k]) == ws_tokens(s)[k] by {
                if k < last {
                    assert(out@[k] == old_out[k]);
                }
            }
        } else {
            proof {
                if s.len() > 1 {
                    assert(s[s.len() - 2] == text@[i - 1]);
                }
            }
            out.push((i, i + 1));
            assert(piece(text@, out@.last()) =~= seq![c]);
            assert forall|k: int| 0 <= k < out@.len() implies lo <= #[trigger] out@[k].0
                <= out@[k].1 <= i + 1 && piece(text@, out@[k]) == ws_tokens(s)[k] by {
                if k < old_out.len() {
                    assert(out@[k] == old_out[k]);
                }
            }
        }
        i = i + 1;
    }
    out
}

/// Whether `needle` occurs in `hay` as a contiguous piece.
pub fn has_piece(hay: &Vec<char>, needle: &Vec<char>) -> (r: bool)
    ensures
        r == contains_piece(hay@, needle@),
{
    let n = needle.len();
    if n > hay.len() {
        return false;
    }
    let mut i: usize = 0;
    while i <= hay.len() - n
        invariant
            n == needle@.len(),
            n <= hay@.len(),
            i <= hay@.len() - n + 1,
            forall|j: int| 0 <= j < i ==> #[trigger] hay@.subrange(j, j + n) != needle@,
        decreases hay@.len() - i,
    {
        let mut k: usize = 0;
        let mut same = true;
        while k < n
            invariant
                n == needle@.len(),
                i + n <= hay.len(),
                k <= n,
                same <==> forall|m: int| 0 <= m < k ==> hay@[i + m] == needle@[m],
            decreases n - k,
        {
            if hay[i + k] != needle[k] {
                same = false;
            }
            k = k + 1;
        }
        if same {
            assert(hay@.subrange(i as int, i + n) =~= needle@);
            return true;
        }
        proof {
            let m = choose|m: int| 0 <= m < n && hay@[i + m] != needle@[m];
            assert(hay@.subrange(i as int, i + n)[m] != needle@[m]);
        }
        i = i + 1;
    }
    false
}


/// `contains_piece` is what `str::contains` tests: `needle` occurs in `hay`
/// exactly when `hay` is some text, then `needle`, then some text. In
/// particular every text contains itself, its prefixes, its suffixes and
/// the empty text.
pub proof fn law_contains_piece_is_occurrence(hay: Seq<char>, needle: Seq<char>)
    ensures
        contains_piece(hay, needle) <==> exists|a: Seq<char>, b: Seq<char>|
            hay == #[trigger] (a + needle + b),
{
    if contains_piece(hay, needle) {
        let i = choose|i: int|
            0 <= i && i + needle.len() <= hay.len() && #[trigger] hay.subrange(
                i,
                i + needle.len(),
            ) == needle;
        let a = hay.subrange(0, i);
        let b = hay.subrange(i + needle.len(), hay.len() as int);
        assert(hay =~= a + needle + b);
    }
    if exists|a: Seq<char>, b: Seq<char>| hay == #[trigger] (a + needle + b) {
        let (a, b) = choose|a: Seq<char>, b: Seq<char>| hay == #[trigger] (a + needle + b);
        law_piece_is_contained(a, needle, b);
    }
}

/// A text is found wherever it occurs: at the start, in the middle, at the
/// end, or as the whole text.
pub proof fn law_piece_is_contained(a: Seq<char>, needle: Seq<char>, b: Seq<char>)
    ensures
        contains_piece(a + needle + b, needle),
{
    let hay = a + needle + b;
    assert(hay.subrange(a.len() as int, a.len() as int + needle.len()) =~= needle);
}

/// Among ASCII characters, whitespace is exactly tab, line feed, vertical
/// tab, form feed, carriage return and space (as `char::is_whitespace` has
/// it); every other character counted is beyond ASCII.
pub proof fn law_ascii_whitespace(c: char)
    ensures
        (c as u32) < 128 ==> (is_ws(c) <==> (c == '\t' || c == '\n' || c == '\u{b}' || c
            == '\u{c}' || c == '\r' || c == ' ')),
        is_ws(c) && (c as u32) >= 128 ==> (c as u32) >= 0x85,
{
}

/// Tokens are split at any whitespace character: two runs of
/// non-whitespace characters with one whitespace character between them
/// are two tokens.
pub proof fn law_tokens_split_at_whitespace(x: Seq<char>, w: char, y: Seq<char>)
    requires
        x.len() > 0,
        y.len() > 0,
        forall|i: int| 0 <= i < x.len() ==> !is_ws(#[trigger] x[i]),
        forall|i: int| 0 <= i < y.len() ==> !is_ws(#[trigger] y[i]),
        is_ws(w),
    ensures
        ws_tokens(x + seq![w] + y) == seq![x, y],
{
    lemma_ws_tokens_run(x);
    let p = x + seq![w];
    assert(p.drop_last() =~= x);
    assert(ws_tokens(p) == seq![x]);
    lemma_ws_tokens_after_ws(p, y);
    assert(seq![x].push(y) =~= seq![x, y]);
}

/// A nonempty run of non-whitespace characters is one token.
proof fn lemma_ws_tokens_run(x: Seq<char>)
    requires
        x.len() > 0,
        forall|i: int| 0 <= i < x.len() ==> !is_ws(#[trigger] x[i]),
    ensures
        ws_tokens(x) == seq![x],
    decreases x.len(),
{
    let q = x.drop_last();
    assert(!is_ws(x[x.len() - 1]));
    if q.len() == 0 {
        assert(ws_tokens(q) =~= Seq::<Seq<char>>::empty());
        assert(x =~= seq![x.last()]);
    } else {
        assert forall|i: int| 0 <= i < q.len() implies !is_ws(#[trigger] q[i]) by {
            assert(q[i] == x[i]);
        }
        lemma_ws_tokens_run(q);
        assert(!is_ws(x[x.len() - 2]));
        assert(q.push(x.last()) =~= x);
        assert(seq![q].update(0, q.push(x.last())) =~= seq![x]);
    }
}

/// After a whitespace character, a run of non-whitespace characters is one
/// more token.
proof fn lemma_ws_tokens_after_ws(p: Seq<char>, y: Seq<char>)
    requires
        p.len() > 0,
        is_ws(p.last()),
        y.len() > 0,
        forall|i: int| 0 <= i < y.len() ==> !is_ws(#[trigger] y[i]),
    ensures
        ws_tokens(p + y) == ws_tokens(p).push(y),
    decreases y.len(),
{
    let s = p + y;
    let q = y.drop_last();
    assert(s.drop_last() =~= p + q);
    assert(s.last() == y[y.len() - 1]);
    if q.len() == 0 {
        assert(p + q =~= p);
        assert(s[s.len() - 2] == p.last());
        assert(y =~= seq![y.last()]);
    } else {
        assert forall|i: int| 0 <= i < q.len() implies !is_ws(#[trigger] q[i]) by {
            assert(q[i] == y[i]);
        }
        lemma_ws_tokens_after_ws(p, q);
        assert(s[s.len() - 2] == y[y.len() - 2]);
        let prev = ws_tokens(p).push(q);
        assert(prev.update(prev.len() - 1, q.push(y.last())) =~= ws_tokens(p).push(y)) by {
            assert(q.push(y.last()) =~= y);
        }
    }
}

/// Trimming removes exactly the whitespace around a text that starts and
/// ends with a non-whitespace character.
pub proof fn law_trim_removes_surrounding_whitespace(a: Seq<char>, s: Seq<char>, b: Seq<char>)
    requires
        s.len() > 0,
        !is_ws(s[0]),
        !is_ws(s.last()),
        forall|i: int| 0 <= i < a.len() ==> is_ws(#[trigger] a[i]),
        forall|i: int| 0 <= i < b.len() ==> is_ws(#[trigger] b[i]),
    ensures
        trim(a + s + b) == s,
{
    lemma_trim_start_ws(a, s + b);
    assert(a + s + b =~= a + (s + b));
    lemma_trim_end_ws(s, b);
}

proof fn lemma_trim_start_ws(a: Seq<char>, t: Seq<char>)
    requires
        t.len() > 0,
        !is_ws(t[0]),
        forall|i: int| 0 <= i < a.len() ==> is_ws(#[trigger] a[i]),
    ensures
        trim_start(a + t) == t,
    decreases a.len(),
{
    if a.len() == 0 {
        assert(a + t =~= t);
    } else {
        assert((a + t)[0] == a[0]);
        assert((a + t).drop_first() =~= a.drop_first() + t);
        assert forall|i: int| 0 <= i < a.drop_first().len() implies is_ws(
            #[trigger] a.drop_first()[i],
        ) by {
            assert(a.drop_first()[i] == a[i + 1]);
        }
        lemma_trim_start_ws(a.drop_first(), t);
    }
}

proof fn lemma_trim_end_ws(s: Seq<char>, b: Seq<char>)
    requires
        s.len() > 0,
        !is_ws(s.last()),
        forall|i: int| 0 <= i < b.len() ==> is_ws(#[trigger] b[i]),
    ensures
        trim_end(s + b) == s,
    decreases b.len(),
{
    if b.len() == 0 {
        assert(s + b =~= s);
    } else {
        assert((s + b).last() == b.last());
        assert((s + b).drop_last() =~= s + b.drop_last());
        assert forall|i: int| 0 <= i < b.drop_last().len() implies is_ws(
            #[trigger] b.drop_last()[i],
        ) by {
            assert(b.drop_last()[i] == b[i]);
        }
        lemma_trim_end_ws(s, b.drop_last());
    }
}

} // verus!
