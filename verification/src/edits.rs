//! Whole-collection text transforms: punctuation cleanup, literal
//! find/replace, and the fixed-list profanity filter, each specified exactly
//! over character sequences.
use vstd::prelude::*;
use crate::text::{copy_range, copy_text, replace_text, replace_text_spec};

verus! {

/// The Unicode lowercase property of a character, as `char::is_lowercase`
/// reports it.
pub uninterp spec fn lowercase_class(c: char) -> bool;

/// Relies on char::is_lowercase: whether the character has the Unicode
/// lowercase property, a function of the character alone.
#[verifier::external_body]
fn char_is_lowercase(c: char) -> (r: bool)
    ensures
        r == lowercase_class(c),
{
    c.is_lowercase()
}

/// The Unicode uppercase mapping of a character, as `char::to_uppercase`
/// yields it: one or more characters.
pub uninterp spec fn upper_chars_of(c: char) -> Seq<char>;

/// Relies on char::to_uppercase: the uppercase mapping of the character
/// alone, yielding the character itself when no mapping exists, so never
/// empty.
#[verifier::external_body]
fn char_to_upper(c: char) -> (r: Vec<char>)
    ensures
        r@ == upper_chars_of(c),
        r@.len() >= 1,
{
    c.to_uppercase().collect()
}

/// One pass of punctuation cleanup: the first character is capitalized if
/// lowercase, a period is appended unless the text already ends in `.`, `?`
/// or `!`, and then one left-to-right replacement pass each of `" ,"` by
/// `","`, `" ."` by `"."`, and `"  "` by `" "`. The passes are not repeated
/// to a fixpoint: three consecutive spaces keep one remaining double space.
pub open spec fn punctuate_spec(t: Seq<char>) -> Seq<char> {
    let t1 = if t.len() > 0 && lowercase_class(t[0]) {
        upper_chars_of(t[0]) + t.skip(1)
    } else {
        t
    };
    let t2 = if t1.len() > 0 && (t1.last() == '.' || t1.last() == '?' || t1.last() == '!') {
        t1
    } else {
        t1.push('.')
    };
    let t3 = replace_text_spec(t2, seq![' ', ','], seq![','], false);
    let t4 = replace_text_spec(t3, seq![' ', '.'], seq!['.'], false);
    replace_text_spec(t4, seq![' ', ' '], seq![' '], false)
}

/// Executable punctuation cleanup satisfying [`punctuate_spec`].
pub fn punctuate_text(t: &Vec<char>) -> (out: Vec<char>)
    ensures
        out@ == punctuate_spec(t@),
{
    let mut cur: Vec<char>;
    if t.len() > 0 && char_is_lowercase(t[0]) {
        cur = char_to_upper(t[0]);
        let mut rest = copy_range(t, 1, t.len());
        cur.append(&mut rest);
        proof {
            assert(t@.subrange(1, t@.len() as int) =~= t@.skip(1));
        }
    } else {
        cur = copy_text(t);
    }
    if !(cur.len() > 0 && (cur[cur.len() - 1] == '.' || cur[cur.len() - 1] == '?' || cur[cur.len()
        - 1] == '!')) {
        cur.push('.');
    }
    let mut pat_sc: Vec<char> = Vec::new();
    pat_sc.push(' ');
    pat_sc.push(',');
    let mut rep_c: Vec<char> = Vec::new();
    rep_c.push(',');
    let mut pat_sd: Vec<char> = Vec::new();
    pat_sd.push(' ');
    pat_sd.push('.');
    let mut rep_d: Vec<char> = Vec::new();
    rep_d.push('.');
    let mut pat_ss: Vec<char> = Vec::new();
    pat_ss.push(' ');
    pat_ss.push(' ');
    let mut rep_s: Vec<char> = Vec::new();
    rep_s.push(' ');
    proof {
        assert(pat_sc@ =~= seq![' ', ',']);
        assert(rep_c@ =~= seq![',']);
        assert(pat_sd@ =~= seq![' ', '.']);
        assert(rep_d@ =~= seq!['.']);
        assert(pat_ss@ =~= seq![' ', ' ']);
        assert(rep_s@ =~= seq![' ']);
    }
    let s3 = replace_text(&cur, &pat_sc, &rep_c, false);
    let s4 = replace_text(&s3, &pat_sd, &rep_d, false);
    let s5 = replace_text(&s4, &pat_ss, &rep_s, false);
    s5
}

/// The replacement token for a filtered word: a literal `"[bleep]"`, or a
/// run of `*` as long as the word.
pub open spec fn filter_rep(w: Seq<char>, bleep: bool) -> Seq<char> {
    if bleep {
        seq!['[', 'b', 'l', 'e', 'e', 'p', ']']
    } else {
        star_run(w.len() as int)
    }
}

/// A run of `n` asterisks.
pub open spec fn star_run(n: int) -> Seq<char>
    decreases n,
{
    if n <= 0 {
        Seq::empty()
    } else {
        star_run(n - 1).push('*')
    }
}

/// The fixed profanity list with, for each word, its leading-capital form —
/// the only case variant the filter handles.
pub open spec fn profanity_pairs() -> Seq<(Seq<char>, Seq<char>)> {
    seq![
        (seq!['f', 'u', 'c', 'k'], seq!['F', 'u', 'c', 'k']),
        (seq!['s', 'h', 'i', 't'], seq!['S', 'h', 'i', 't']),
        (seq!['d', 'a', 'm', 'n'], seq!['D', 'a', 'm', 'n']),
        (seq!['h', 'e', 'l', 'l'], seq!['H', 'e', 'l', 'l']),
        (seq!['a', 's', 's'], seq!['A', 's', 's']),
    ]
}

/// The filter applied for the pair list from position `p` on: for each pair
/// the lowercase form is replaced, then the leading-capital form, both by
/// the token for the lowercase word.
pub open spec fn apply_pairs_from(t: Seq<char>, p: int, bleep: bool) -> Seq<char>
    decreases 5 - p,
{
    if p < 0 || p >= 5 {
        t
    } else {
        let pair = profanity_pairs()[p];
        let rep = filter_rep(pair.0, bleep);
        let t1 = replace_text_spec(t, pair.0, rep, false);
        let t2 = replace_text_spec(t1, pair.1, rep, false);
        apply_pairs_from(t2, p + 1, bleep)
    }
}

/// The whole profanity filter over one text.
pub open spec fn profanity_spec(t: Seq<char>, bleep: bool) -> Seq<char> {
    apply_pairs_from(t, 0, bleep)
}

fn star_vec(n: usize) -> (out: Vec<char>)
    ensures
        out@ == star_run(n as int),
{
    let mut out: Vec<char> = Vec::new();
    let mut i: usize = 0;
    while i < n
        invariant
            0 <= i <= n,
            out@ == star_run(i as int),
        decreases n - i,
    {
        out.push('*');
        i += 1;
    }
    out
}

fn profanity_pair(p: usize) -> (out: (Vec<char>, Vec<char>))
    requires
        p < 5,
    ensures
        out.0@ == profanity_pairs()[p as int].0,
        out.1@ == profanity_pairs()[p as int].1,
{
    let mut w: Vec<char> = Vec::new();
    let mut cw: Vec<char> = Vec::new();
    if p == 0 {
        w.push('f');
        w.push('u');
        w.push('c');
        w.push('k');
        cw.push('F');
        cw.push('u');
        cw.push('c');
        cw.push('k');
    } else if p == 1 {
        w.push('s');
        w.push('h');
        w.push('i');
        w.push('t');
        cw.push('S');
        cw.push('h');
        cw.push('i');
        cw.push('t');
    } else if p == 2 {
        w.push('d');
        w.push('a');
        w.push('m');
        w.push('n');
        cw.push('D');
        cw.push('a');
        cw.push('m');
        cw.push('n');
    } else if p == 3 {
        w.push('h');
        w.push('e');
        w.push('l');
        w.push('l');
        cw.push('H');
        cw.push('e');
        cw.push('l');
        cw.push('l');
    } else {
        w.push('a');
        w.push('s');
        w.push('s');
        cw.push('A');
        cw.push('s');
        cw.push('s');
    }
    proof {
        assert(w@ =~= profanity_pairs()[p as int].0);
        assert(cw@ =~= profanity_pairs()[p as int].1);
    }
    (w, cw)
}

/// Executable profanity filter satisfying [`profanity_spec`].
pub fn filter_profanity_text(t: &Vec<char>, bleep: bool) -> (out: Vec<char>)
    ensures
        out@ == profanity_spec(t@, bleep),
{
    let mut cur = copy_text(t);
    let mut p: usize = 0;
    while p < 5
        invariant
            0 <= p <= 5,
            apply_pairs_from(cur@, p as int, bleep) == profanity_spec(t@, bleep),
        decreases 5 - p,
    {
        let pair = profanity_pair(p);
        let rep: Vec<char> = if bleep {
            let mut b: Vec<char> = Vec::new();
            b.push('[');
            b.push('b');
            b.push('l');
            b.push('e');
            b.push('e');
            b.push('p');
            b.push(']');
            proof {
                assert(b@ =~= seq!['[', 'b', 'l', 'e', 'e', 'p', ']']);
            }
            b
        } else {
            star_vec(pair.0.len())
        };
        proof {
            assert(rep@ == filter_rep(profanity_pairs()[p as int].0, bleep));
        }
        let t1 = replace_text(&cur, &pair.0, &rep, false);
        let t2 = replace_text(&t1, &pair.1, &rep, false);
        cur = t2;
        p += 1;
    }
    cur
}

} // verus!
