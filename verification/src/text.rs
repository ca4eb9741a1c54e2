//! Character-sequence primitives: copying, matching, replacement, word
//! splitting, joining, separator splitting and trimming, each with an exact
//! specification over `Seq<char>`.
use vstd::prelude::*;

verus! {

/// ASCII whitespace, the separator alphabet used by words, trimming and lines.
pub open spec fn is_space_char(c: char) -> bool {
    c == ' ' || c == '\t' || c == '\n' || c == '\r'
}

/// Executable test for [`is_space_char`].
pub fn is_space(c: char) -> (r: bool)
    ensures
        r == is_space_char(c),
{
    c == ' ' || c == '\t' || c == '\n' || c == '\r'
}

/// The Unicode lowercase mapping of a character, as `char::to_lowercase`
/// yields it: one or more characters.
pub uninterp spec fn lower_chars_of(c: char) -> Seq<char>;

/// Relies on char::to_lowercase: the non-locale Unicode lowercase mapping of
/// the character alone, yielding the character itself when no mapping
/// exists, so never empty.
#[verifier::external_body]
fn char_to_lower(c: char) -> (r: Vec<char>)
    ensures
        r@ == lower_chars_of(c),
        r@.len() >= 1,
{
    c.to_lowercase().collect()
}

/// Whether `a` matches `b`, exactly or (when `ci`) with both folded to
/// lower case first.
pub open spec fn char_matches(a: char, b: char, ci: bool) -> bool {
    if ci {
        lower_chars_of(a) == lower_chars_of(b)
    } else {
        a == b
    }
}

/// Executable test whether two characters share a lowercase fold.
fn fold_eq(a: char, b: char) -> (r: bool)
    ensures
        r == (lower_chars_of(a) == lower_chars_of(b)),
{
    let fa = char_to_lower(a);
    let fb = char_to_lower(b);
    if fa.len() != fb.len() {
        proof {
            assert(fa@.len() != fb@.len());
        }
        return false;
    }
    let mut k: usize = 0;
    while k < fa.len()
        invariant
            0 <= k <= fa.len(),
            fa.len() == fb.len(),
            fa@ == lower_chars_of(a),
            fb@ == lower_chars_of(b),
            forall|j: int| 0 <= j < k ==> fa@[j] == fb@[j],
        decreases fa.len() - k,
    {
        if fa[k] != fb[k] {
            return false;
        }
        k += 1;
    }
    proof {
        assert(fa@ =~= fb@);
    }
    true
}

/// Whether `f` occurs in `s` at position `i` (under `ci` case folding).
pub open spec fn match_at(s: Seq<char>, f: Seq<char>, i: int, ci: bool) -> bool {
    &&& 0 <= i
    &&& i + f.len() <= s.len()
    &&& forall|k: int| 0 <= k < f.len() ==> char_matches(s[i + k], f[k], ci)
}

/// Executable test for [`match_at`].
pub fn window_matches(s: &Vec<char>, i: usize, f: &Vec<char>, ci: bool) -> (r: bool)
    requires
        i <= s.len(),
    ensures
        r == match_at(s@, f@, i as int, ci),
{
    if s.len() - i < f.len() {
        return false;
    }
    let mut k: usize = 0;
    while k < f.len()
        invariant
            0 <= k <= f.len(),
            i + f.len() <= s.len(),
            forall|j: int| 0 <= j < k ==> char_matches(s@[i + j], f@[j], ci),
        decreases f.len() - k,
    {
        let a = s[i + k];
        let b = f[k];
        let same = if ci {
            fold_eq(a, b)
        } else {
            a == b
        };
        if !same {
            return false;
        }
        k += 1;
    }
    true
}

/// Copies `s[a..b]` into a fresh vector.
pub fn copy_range(s: &Vec<char>, a: usize, b: usize) -> (out: Vec<char>)
    requires
        a <= b <= s.len(),
    ensures
        out@ == s@.subrange(a as int, b as int),
{
    let mut out: Vec<char> = Vec::new();
    let mut j: usize = a;
    while j < b
        invariant
            a <= j <= b <= s.len(),
            out@ == s@.subrange(a as int, j as int),
        decreases b - j,
    {
        out.push(s[j]);
        proof {
            assert(out@ =~= s@.subrange(a as int, j + 1 as int));
        }
        j += 1;
    }
    out
}

/// Copies the whole of `s`.
pub fn copy_text(s: &Vec<char>) -> (out: Vec<char>)
    ensures
        out@ == s@,
{
    let out = copy_range(s, 0, s.len());
    proof {
        assert(s@.subrange(0, s@.len() as int) =~= s@);
    }
    out
}

/// Executable equality of two character vectors.
pub fn text_eq(a: &Vec<char>, b: &Vec<char>) -> (r: bool)
    ensures
        r == (a@ == b@),
{
    if a.len() != b.len() {
        proof {
            assert(a@.len() != b@.len());
        }
        return false;
    }
    let r = window_matches(a, 0, b, false);
    proof {
        if r {
            assert(a@ =~= b@);
        } else {
            assert(!match_at(a@, b@, 0, false));
            if a@ == b@ {
                assert(forall|k: int| 0 <= k < b@.len() ==> char_matches(a@[0 + k], b@[k], false));
            }
        }
    }
    r
}

/// Left-to-right, non-overlapping replacement of `f` by `r` in `s`; `ci`
/// selects matching under the Unicode lowercase fold of each character. An
/// empty pattern replaces nothing.
pub open spec fn replace_text_spec(s: Seq<char>, f: Seq<char>, r: Seq<char>, ci: bool) -> Seq<char>
    decreases s.len(),
{
    if f.len() == 0 || s.len() < f.len() {
        s
    } else if match_at(s, f, 0, ci) {
        r + replace_text_spec(s.skip(f.len() as int), f, r, ci)
    } else {
        seq![s[0]] + replace_text_spec(s.skip(1), f, r, ci)
    }
}

fn replace_from(s: &Vec<char>, i: usize, f: &Vec<char>, r: &Vec<char>, ci: bool) -> (out: Vec<
    char,
>)
    requires
        i <= s.len(),
    ensures
        out@ == replace_text_spec(s@.skip(i as int), f@, r@, ci),
    decreases s.len() - i,
{
    proof {
        assert(s@.skip(i as int).len() == s.len() - i);
    }
    if f.len() == 0 || s.len() - i < f.len() {
        let out = copy_range(s, i, s.len());
        proof {
            assert(s@.subrange(i as int, s@.len() as int) =~= s@.skip(i as int));
        }
        out
    } else if window_matches(s, i, f, ci) {
        let mut out = copy_text(r);
        let mut rest = replace_from(s, i + f.len(), f, r, ci);
        out.append(&mut rest);
        proof {
            let suf = s@.skip(i as int);
            assert forall|k: int| 0 <= k < f@.len() implies char_matches(suf[0 + k], f@[k], ci) by {
                assert(suf[k] == s@[i + k]);
            }
            assert(match_at(suf, f@, 0, ci));
            assert(suf.skip(f@.len() as int) =~= s@.skip(i + f@.len()));
        }
        out
    } else {
        let mut out: Vec<char> = Vec::new();
        out.push(s[i]);
        let mut rest = replace_from(s, i + 1, f, r, ci);
        out.append(&mut rest);
        proof {
            let suf = s@.skip(i as int);
            if match_at(suf, f@, 0, ci) {
                assert forall|k: int| 0 <= k < f@.len() implies char_matches(
                    s@[i + k],
                    f@[k],
                    ci,
                ) by {
                    assert(char_matches(suf[0 + k], f@[k], ci));
                    assert(suf[0 + k] == s@[i + k]);
                }
                assert(match_at(s@, f@, i as int, ci));
            }
            assert(suf.skip(1) =~= s@.skip(i + 1));
            assert(seq![suf[0]] =~= seq![s@[i as int]]);
            assert(out@ =~= seq![suf[0]] + replace_text_spec(suf.skip(1), f@, r@, ci));
        }
        out
    }
}

/// Executable replacement satisfying [`replace_text_spec`].
pub fn replace_text(s: &Vec<char>, f: &Vec<char>, r: &Vec<char>, ci: bool) -> (out: Vec<char>)
    ensures
        out@ == replace_text_spec(s@, f@, r@, ci),
{
    let out = replace_from(s, 0, f, r, ci);
    proof {
        assert(s@.skip(0) =~= s@);
    }
    out
}

/// The whitespace-delimited words of `s`, in order, each nonempty and free of
/// whitespace.
pub open spec fn words_spec(s: Seq<char>) -> Seq<Seq<char>>
    decreases s.len(),
{
    if s.len() == 0 {
        Seq::empty()
    } else {
        let prev = words_spec(s.drop_last());
        let c = s.last();
        if is_space_char(c) {
            prev
        } else if s.len() >= 2 && !is_space_char(s[s.len() - 2]) {
            prev.update(prev.len() - 1, prev.last().push(c))
        } else {
            prev.push(seq![c])
        }
    }
}

/// Executable word splitting satisfying [`words_spec`].
pub fn split_words(s: &Vec<char>) -> (out: Vec<Vec<char>>)
    ensures
        out.deep_view() == words_spec(s@),
{
    let mut out: Vec<Vec<char>> = Vec::new();
    let mut i: usize = 0;
    while i < s.len()
        invariant
            0 <= i <= s.len(),
            out.deep_view() == words_spec(s@.take(i as int)),
            out.len() == words_spec(s@.take(i as int)).len(),
            (i > 0 && !is_space_char(s@[i - 1])) ==> out.len() >= 1,
        decreases s.len() - i,
    {
        let c = s[i];
        proof {
            assert(s@.take(i + 1 as int).drop_last() =~= s@.take(i as int));
            assert(s@.take(i + 1 as int).last() == s@[i as int]);
        }
        if is_space(c) {
            // the word list is unchanged by a whitespace character
        } else if i > 0 && !is_space(s[i - 1]) {
            let last = out.len() - 1;
            let mut w = out.pop().unwrap();
            w.push(c);
            out.push(w);
            proof {
                let t = s@.take(i + 1 as int);
                let prev = words_spec(s@.take(i as int));
                assert(t.len() >= 2 && !is_space_char(t[t.len() - 2]));
                assert(out.deep_view() =~~= prev.update(prev.len() - 1, prev.last().push(c)));
            }
        } else {
            let mut w: Vec<char> = Vec::new();
            w.push(c);
            out.push(w);
            proof {
                let prev = words_spec(s@.take(i as int));
                assert(out.deep_view() =~~= prev.push(seq![c]));
            }
        }
        i += 1;
    }
    proof {
        assert(s@.take(s@.len() as int) =~= s@);
    }
    out
}

/// The elements of `ws` joined with the single separator `sep`.
pub open spec fn join_spec(ws: Seq<Seq<char>>, sep: char) -> Seq<char>
    decreases ws.len(),
{
    if ws.len() == 0 {
        Seq::empty()
    } else if ws.len() == 1 {
        ws[0]
    } else {
        join_spec(ws.drop_last(), sep) + seq![sep] + ws.last()
    }
}

/// Executable join satisfying [`join_spec`].
pub fn join_texts(ws: &Vec<Vec<char>>, sep: char) -> (out: Vec<char>)
    ensures
        out@ == join_spec(ws.deep_view(), sep),
{
    let mut out: Vec<char> = Vec::new();
    let mut i: usize = 0;
    while i < ws.len()
        invariant
            0 <= i <= ws.len(),
            out@ == join_spec(ws.deep_view().take(i as int), sep),
        decreases ws.len() - i,
    {
        if i > 0 {
            out.push(sep);
        }
        let mut piece = copy_text(&ws[i]);
        out.append(&mut piece);
        proof {
            let dv = ws.deep_view();
            assert(dv.take(i + 1 as int).drop_last() =~= dv.take(i as int));
            assert(dv.take(i + 1 as int).last() == dv[i as int]);
            assert(dv[i as int] == ws[i as int]@);
            if i == 0 {
                assert(out@ =~= join_spec(dv.take(i + 1 as int), sep));
            } else {
                assert(out@ =~= join_spec(dv.take(i as int), sep) + seq![sep] + dv[i as int]);
            }
        }
        i += 1;
    }
    proof {
        assert(ws.deep_view().take(ws.len() as int) =~= ws.deep_view());
    }
    out
}

/// Splitting `s` at non-overlapping occurrences of `sep`, left to right; the
/// result always has at least one piece, and an empty separator never splits.
pub open spec fn split_spec(s: Seq<char>, sep: Seq<char>) -> Seq<Seq<char>>
    decreases s.len(),
{
    if sep.len() == 0 || s.len() < sep.len() {
        seq![s]
    } else if match_at(s, sep, 0, false) {
        seq![Seq::<char>::empty()] + split_spec(s.skip(sep.len() as int), sep)
    } else {
        let rest = split_spec(s.skip(1), sep);
        seq![seq![s[0]] + rest[0]] + rest.skip(1)
    }
}

/// A split always yields at least one piece.
pub proof fn lemma_split_nonempty(s: Seq<char>, sep: Seq<char>)
    ensures
        split_spec(s, sep).len() >= 1,
    decreases s.len(),
{
    if !(sep.len() == 0 || s.len() < sep.len()) {
        if match_at(s, sep, 0, false) {
            lemma_split_nonempty(s.skip(sep.len() as int), sep);
        } else {
            lemma_split_nonempty(s.skip(1), sep);
        }
    }
}

fn split_from(s: &Vec<char>, i: usize, sep: &Vec<char>) -> (out: Vec<Vec<char>>)
    requires
        i <= s.len(),
    ensures
        out.deep_view() == split_spec(s@.skip(i as int), sep@),
        out.len() >= 1,
    decreases s.len() - i,
{
    proof {
        assert(s@.skip(i as int).len() == s.len() - i);
    }
    if sep.len() == 0 || s.len() - i < sep.len() {
        let piece = copy_range(s, i, s.len());
        let mut out: Vec<Vec<char>> = Vec::new();
        out.push(piece);
        proof {
            assert(s@.subrange(i as int, s@.len() as int) =~= s@.skip(i as int));
            assert(out.deep_view() =~~= seq![s@.skip(i as int)]);
        }
        out
    } else if window_matches(s, i, sep, false) {
        let mut out = split_from(s, i + sep.len(), sep);
        out.insert(0, Vec::new());
        proof {
            let suf = s@.skip(i as int);
            assert forall|k: int| 0 <= k < sep@.len() implies char_matches(
                suf[0 + k],
                sep@[k],
                false,
            ) by {
                assert(suf[k] == s@[i + k]);
            }
            assert(match_at(suf, sep@, 0, false));
            assert(suf.skip(sep@.len() as int) =~= s@.skip(i + sep@.len()));
            assert(out.deep_view() =~~= seq![Seq::<char>::empty()] + split_spec(
                suf.skip(sep@.len() as int),
                sep@,
            ));
        }
        out
    } else {
        let mut out = split_from(s, i + 1, sep);
        let mut first = out.remove(0);
        first.insert(0, s[i]);
        out.insert(0, first);
        proof {
            let suf = s@.skip(i as int);
            if match_at(suf, sep@, 0, false) {
                assert forall|k: int| 0 <= k < sep@.len() implies char_matches(
                    s@[i + k],
                    sep@[k],
                    false,
                ) by {
                    assert(char_matches(suf[0 + k], sep@[k], false));
                    assert(suf[0 + k] == s@[i + k]);
                }
                assert(match_at(s@, sep@, i as int, false));
            }
            assert(suf.skip(1) =~= s@.skip(i + 1));
            let rest = split_spec(suf.skip(1), sep@);
            assert(seq![suf[0]] + rest[0] =~= seq![s@[i as int]] + rest[0]);
            assert(out.deep_view() =~~= seq![seq![suf[0]] + rest[0]] + rest.skip(1));
        }
        out
    }
}

/// Executable separator split satisfying [`split_spec`].
pub fn split_text(s: &Vec<char>, sep: &Vec<char>) -> (out: Vec<Vec<char>>)
    ensures
        out.deep_view() == split_spec(s@, sep@),
        out.len() >= 1,
{
    let out = split_from(s, 0, sep);
    proof {
        assert(s@.skip(0) =~= s@);
    }
    out
}

/// `l` with one trailing carriage return removed, as the line iterator does.
pub open spec fn strip_cr_spec(l: Seq<char>) -> Seq<char> {
    if l.len() > 0 && l.last() == '\r' {
        l.drop_last()
    } else {
        l
    }
}

/// The lines of `s`: pieces between newline characters, each with a trailing
/// carriage return removed.
pub open spec fn lines_spec(s: Seq<char>) -> Seq<Seq<char>> {
    split_spec(s, seq!['\n']).map_values(|l: Seq<char>| strip_cr_spec(l))
}

/// Executable line splitting satisfying [`lines_spec`].
pub fn split_lines(s: &Vec<char>) -> (out: Vec<Vec<char>>)
    ensures
        out.deep_view() == lines_spec(s@),
        out.len() >= 1,
{
    let mut nl: Vec<char> = Vec::new();
    nl.push('\n');
    proof {
        assert(nl@ =~= seq!['\n']);
    }
    let raw = split_from(s, 0, &nl);
    proof {
        assert(s@.skip(0) =~= s@);
    }
    let mut out: Vec<Vec<char>> = Vec::new();
    let mut i: usize = 0;
    while i < raw.len()
        invariant
            0 <= i <= raw.len(),
            out.len() == i,
            raw.deep_view() == split_spec(s@, seq!['\n']),
            forall|j: int|
                0 <= j < i ==> out.deep_view()[j] == strip_cr_spec(raw.deep_view()[j]),
        decreases raw.len() - i,
    {
        let line = &raw[i];
        let stripped = if line.len() > 0 && line[line.len() - 1] == '\r' {
            copy_range(line, 0, line.len() - 1)
        } else {
            copy_text(line)
        };
        proof {
            if line@.len() > 0 && line@.last() == '\r' {
                assert(line@.subrange(0, line@.len() - 1) =~= line@.drop_last());
            }
            assert(stripped@ == strip_cr_spec(raw.deep_view()[i as int]));
        }
        let ghost prev_dv = out.deep_view();
        out.push(stripped);
        proof {
            assert forall|j: int|
                0 <= j < i + 1 implies out.deep_view()[j] == strip_cr_spec(
                raw.deep_view()[j],
            ) by {
                if j < i {
                    assert(out.deep_view()[j] == out@[j].deep_view());
                    assert(out@[j] == out@.drop_last()[j]);
                    assert(prev_dv[j] == strip_cr_spec(raw.deep_view()[j]));
                }
            }
        }
        i += 1;
    }
    proof {
        lemma_split_nonempty(s@, seq!['\n']);
        assert(out.deep_view() =~~= lines_spec(s@));
    }
    out
}

/// `s` without leading whitespace.
pub open spec fn drop_leading_ws(s: Seq<char>) -> Seq<char>
    decreases s.len(),
{
    if s.len() > 0 && is_space_char(s[0]) {
        drop_leading_ws(s.skip(1))
    } else {
        s
    }
}

/// `s` without trailing whitespace.
pub open spec fn drop_trailing_ws(s: Seq<char>) -> Seq<char>
    decreases s.len(),
{
    if s.len() > 0 && is_space_char(s.last()) {
        drop_trailing_ws(s.drop_last())
    } else {
        s
    }
}

/// `s` without leading or trailing whitespace.
pub open spec fn trim_spec(s: Seq<char>) -> Seq<char> {
    drop_trailing_ws(drop_leading_ws(s))
}

proof fn lemma_drop_leading_range(s: Seq<char>, a: int)
    requires
        0 <= a <= s.len(),
        forall|k: int| 0 <= k < a ==> is_space_char(s[k]),
        a == s.len() || !is_space_char(s[a]),
    ensures
        drop_leading_ws(s) == s.skip(a),
    decreases a,
{
    if a == 0 {
        assert(s.skip(0) =~= s);
    } else {
        lemma_drop_leading_range(s.skip(1), a - 1);
        assert(s.skip(1).skip(a - 1) =~= s.skip(a));
    }
}

proof fn lemma_drop_trailing_range(s: Seq<char>, b: int)
    requires
        0 <= b <= s.len(),
        forall|k: int| b <= k < s.len() ==> is_space_char(s[k]),
        b == 0 || !is_space_char(s[b - 1]),
    ensures
        drop_trailing_ws(s) == s.take(b),
    decreases s.len(),
{
    if b == s.len() {
        assert(s.take(b) =~= s);
    } else {
        assert(is_space_char(s.last()));
        lemma_drop_trailing_range(s.drop_last(), b);
        assert(s.drop_last().take(b) =~= s.take(b));
    }
}

/// Executable trimming satisfying [`trim_spec`].
pub fn trim_text(s: &Vec<char>) -> (out: Vec<char>)
    ensures
        out@ == trim_spec(s@),
{
    let mut a: usize = 0;
    while a < s.len() && is_space(s[a])
        invariant
            0 <= a <= s.len(),
            forall|k: int| 0 <= k < a ==> is_space_char(s@[k]),
        decreases s.len() - a,
    {
        a += 1;
    }
    proof {
        lemma_drop_leading_range(s@, a as int);
    }
    let mut b: usize = s.len();
    while b > a && is_space(s[b - 1])
        invariant
            a <= b <= s.len(),
            forall|k: int| b <= k < s.len() ==> is_space_char(s@[k]),
        decreases b,
    {
        b -= 1;
    }
    let out = copy_range(s, a, b);
    proof {
        let mid = s@.skip(a as int);
        assert(forall|k: int| (b - a) <= k < mid.len() ==> is_space_char(mid[k]));
        if b > a {
            assert(!is_space_char(mid[b - a - 1]));
        } else {
            assert(b == a);
        }
        lemma_drop_trailing_range(mid, b - a);
        assert(mid.take(b - a) =~= s@.subrange(a as int, b as int));
    }
    out
}


/// Joining two nonempty word lists equals joining each and putting one
/// separator between.
pub proof fn lemma_join_concat(a: Seq<Seq<char>>, b: Seq<Seq<char>>, sep: char)
    requires
        a.len() > 0,
        b.len() > 0,
    ensures
        join_spec(a + b, sep) == join_spec(a, sep) + seq![sep] + join_spec(b, sep),
    decreases b.len(),
{
    if b.len() == 1 {
        assert((a + b).drop_last() =~= a);
        assert((a + b).last() == b[0]);
        assert((a + b).len() >= 2);
        assert(join_spec(b, sep) == b[0]);
    } else {
        lemma_join_concat(a, b.drop_last(), sep);
        assert((a + b).drop_last() =~= a + b.drop_last());
        assert((a + b).last() == b.last());
        assert(join_spec(a + b, sep) == join_spec(a + b.drop_last(), sep) + seq![sep] + b.last());
        assert(join_spec(a, sep) + seq![sep] + (join_spec(b.drop_last(), sep) + seq![sep]
            + b.last()) =~= (join_spec(a, sep) + seq![sep] + join_spec(b.drop_last(), sep))
            + seq![sep] + b.last());
    }
}

/// Splitting a space-canonical text at any interior word boundary and
/// rejoining the two halves with a single space reproduces the text: when a
/// text equals the single-space join of its words, the two texts a split
/// yields at word index `k`, concatenated with one space, give the original
/// text back, for every `k` strictly between the ends.
pub proof fn lemma_split_words_rejoin(t: Seq<char>, k: int)
    requires
        t == join_spec(words_spec(t), ' '),
        0 < k < words_spec(t).len(),
    ensures
        join_spec(words_spec(t).take(k), ' ') + seq![' '] + join_spec(words_spec(t).skip(k), ' ')
            == t,
{
    let ws = words_spec(t);
    assert(ws =~= ws.take(k) + ws.skip(k));
    lemma_join_concat(ws.take(k), ws.skip(k), ' ');
}

} // verus!
