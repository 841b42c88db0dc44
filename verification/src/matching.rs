//! Finding and replacing a text as it is written: its characters in order,
//! and, for numbers, with separators such as spaces and dashes between them.
use vstd::prelude::*;
use crate::text::{extend_range, is_number_separator, number_separator};

verus! {

/// Characters that make up a JSON escape: the backslash, and the letters
/// and digits of `\t`, `\n`, `\r`, `\f` and `\u000b`.
pub open spec fn escape_char(c: char) -> bool {
    c == '\\' || c == 'n' || c == 't' || c == 'r' || c == 'f' || c == 'u' || c == '0' || c == 'b'
}

/// Length of `c` as written at the start of `s`: `c` itself, or for a quote
/// also `\"` as JSON writes it; 0 when `s` does not start with it.
pub open spec fn char_len(s: Seq<char>, c: char) -> nat {
    if s.len() >= 2 && c == '"' && s[0] == '\\' && s[1] == '"' {
        2
    } else if s.len() >= 1 && s[0] == c {
        1
    } else {
        0
    }
}

/// Length of a number separator written at the start of `s`: the character
/// itself, or a whitespace control as JSON writes it (`\t`, `\n`, `\r`,
/// `\f`, `\u000b`); 0 when `s` does not start with one.
pub open spec fn gap_len(s: Seq<char>) -> nat {
    if s.len() >= 1 && number_separator(s[0]) {
        1
    } else if s.len() >= 2 && s[0] == '\\' && (s[1] == 't' || s[1] == 'n' || s[1] == 'r' || s[1]
        == 'f') {
        2
    } else if s.len() >= 6 && s[0] == '\\' && s[1] == 'u' && s[2] == '0' && s[3] == '0' && s[4]
        == '0' && s[5] == 'b' {
        6
    } else {
        0
    }
}

/// Length of the text at the start of `s` that spells `p`: each character
/// of `p` in order, as `char_len` reads it, and, when `gaps` holds, number
/// separators between them (never before the first), as `gap_len` reads
/// them. `first` marks that nothing is matched yet.
pub open spec fn match_len(s: Seq<char>, p: Seq<char>, gaps: bool, first: bool) -> Option<nat>
    decreases s.len(),
{
    if p.len() == 0 {
        Some(0)
    } else if char_len(s, p[0]) > 0 {
        let l = char_len(s, p[0]);
        match match_len(s.skip(l as int), p.drop_first(), gaps, false) {
            Some(k) => Some(k + l),
            None => None,
        }
    } else if gaps && !first && gap_len(s) > 0 {
        let g = gap_len(s);
        match match_len(s.skip(g as int), p, gaps, false) {
            Some(k) => Some(k + g),
            None => None,
        }
    } else {
        None
    }
}

/// `p` is spelled in `s` starting at position `i`.
pub open spec fn spelled_at(s: Seq<char>, p: Seq<char>, gaps: bool, i: int) -> bool {
    0 <= i <= s.len() && match_len(s.skip(i), p, gaps, true) is Some
}

/// `p` is spelled somewhere in `s`.
pub open spec fn spelled_in(s: Seq<char>, p: Seq<char>, gaps: bool) -> bool {
    exists|i: int| spelled_at(s, p, gaps, i)
}

/// A match never runs past the text, and spells a non-empty pattern with at
/// least one character.
pub proof fn lemma_match_len_bounds(s: Seq<char>, p: Seq<char>, gaps: bool, first: bool)
    ensures
        match_len(s, p, gaps, first) matches Some(k) ==> k <= s.len() && (p.len() > 0 ==> k >= 1),
    decreases s.len(),
{
    if p.len() > 0 {
        if char_len(s, p[0]) > 0 {
            lemma_match_len_bounds(s.skip(char_len(s, p[0]) as int), p.drop_first(), gaps, false);
        } else if gaps && !first && gap_len(s) > 0 {
            lemma_match_len_bounds(s.skip(gap_len(s) as int), p, gaps, false);
        }
    }
}

/// A match is decided by the characters it consumes: another text that
/// starts with the same characters matches the same way.
pub proof fn lemma_match_prefix(
    x: Seq<char>,
    y: Seq<char>,
    p: Seq<char>,
    gaps: bool,
    first: bool,
    k: nat,
)
    requires
        match_len(x, p, gaps, first) == Some(k),
        k <= y.len(),
        x.take(k as int) == y.take(k as int),
    ensures
        match_len(y, p, gaps, first) == Some(k),
    decreases x.len(),
{
    lemma_match_len_bounds(x, p, gaps, first);
    if p.len() > 0 {
        assert forall|j: int| 0 <= j < k implies #[trigger] x[j] == y[j] by {
            assert(x.take(k as int)[j] == x[j]);
            assert(y.take(k as int)[j] == y[j]);
        }
        let l = char_len(x, p[0]);
        if l > 0 {
            lemma_match_len_bounds(x.skip(l as int), p.drop_first(), gaps, false);
            assert(char_len(y, p[0]) == l);
            assert(x.skip(l as int).take(k - l) =~= y.skip(l as int).take(k - l)) by {
                assert forall|j: int| 0 <= j < k - l implies #[trigger] x.skip(l as int).take(k - l)[j]
                    == y.skip(l as int).take(k - l)[j] by {
                    assert(x[j + l] == y[j + l]);
                }
            }
            lemma_match_prefix(
                x.skip(l as int),
                y.skip(l as int),
                p.drop_first(),
                gaps,
                false,
                (k - l) as nat,
            );
        } else {
            let g = gap_len(x);
            lemma_match_len_bounds(x.skip(g as int), p, gaps, false);
            assert(char_len(y, p[0]) == 0);
            assert(gap_len(y) == g);
            assert(x.skip(g as int).take(k - g) =~= y.skip(g as int).take(k - g)) by {
                assert forall|j: int| 0 <= j < k - g implies #[trigger] x.skip(g as int).take(k - g)[j]
                    == y.skip(g as int).take(k - g)[j] by {
                    assert(x[j + g] == y[j + g]);
                }
            }
            lemma_match_prefix(x.skip(g as int), y.skip(g as int), p, gaps, false, (k - g) as nat);
        }
    }
}

/// Every character a match consumes is a character of the pattern, a
/// character of a JSON escape or, with gaps, a number separator.
pub proof fn lemma_match_chars(x: Seq<char>, p: Seq<char>, gaps: bool, first: bool)
    ensures
        match_len(x, p, gaps, first) matches Some(k) ==> forall|j: int|
            0 <= j < k ==> p.contains(#[trigger] x[j]) || escape_char(x[j]) || (gaps
                && number_separator(x[j])),
    decreases x.len(),
{
    lemma_match_len_bounds(x, p, gaps, first);
    if p.len() > 0 {
        let l = char_len(x, p[0]);
        if l > 0 {
            let rest = x.skip(l as int);
            lemma_match_chars(rest, p.drop_first(), gaps, false);
            if let Some(k) = match_len(x, p, gaps, first) {
                assert forall|j: int| 0 <= j < k implies p.contains(#[trigger] x[j]) || escape_char(
                    x[j],
                ) || (gaps && number_separator(x[j])) by {
                    if j < l {
                        if l == 2 && j == 0 {
                            assert(escape_char(x[j]));
                        } else {
                            assert(x[j] == p[0]);
                        }
                    } else {
                        assert(x[j] == rest[j - l]);
                        if p.drop_first().contains(x[j]) {
                            let m = choose|m: int|
                                0 <= m < p.drop_first().len() && p.drop_first()[m] == x[j];
                            assert(p[m + 1] == x[j]);
                        }
                    }
                }
            }
        } else if gaps && !first && gap_len(x) > 0 {
            let g = gap_len(x);
            let rest = x.skip(g as int);
            lemma_match_chars(rest, p, gaps, false);
            if let Some(k) = match_len(x, p, gaps, first) {
                assert forall|j: int| 0 <= j < k implies p.contains(#[trigger] x[j]) || escape_char(
                    x[j],
                ) || (gaps && number_separator(x[j])) by {
                    if j >= g {
                        assert(x[j] == rest[j - g]);
                    }
                }
            }
        }
    }
}

/// Every spelling of `p` in `s`, from left to right and without overlap,
/// replaced by `rep`.
pub open spec fn replace_spelled(s: Seq<char>, p: Seq<char>, gaps: bool, rep: Seq<char>) -> Seq<
    char,
>
    decreases s.len(),
{
    if p.len() == 0 || s.len() == 0 {
        s
    } else {
        proof {
            lemma_match_len_bounds(s, p, gaps, true);
        }
        match match_len(s, p, gaps, true) {
            Some(k) => rep + replace_spelled(s.skip(k as int), p, gaps, rep),
            None => seq![s[0]] + replace_spelled(s.drop_first(), p, gaps, rep),
        }
    }
}

/// While the output of `replace_spelled` shows no first character of `rep`,
/// it copies the input unchanged.
pub proof fn lemma_replace_prefix(t: Seq<char>, p: Seq<char>, gaps: bool, rep: Seq<char>, m: int)
    requires
        p.len() > 0,
        rep.len() > 0,
        0 <= m <= replace_spelled(t, p, gaps, rep).len(),
        forall|j: int| 0 <= j < m ==> replace_spelled(t, p, gaps, rep)[j] != rep[0],
    ensures
        m <= t.len(),
        replace_spelled(t, p, gaps, rep).take(m) == t.take(m),
    decreases t.len(),
{
    let r = replace_spelled(t, p, gaps, rep);
    if t.len() == 0 {
    } else {
        lemma_match_len_bounds(t, p, gaps, true);
        match match_len(t, p, gaps, true) {
            Some(k) => {
                assert(r == rep + replace_spelled(t.skip(k as int), p, gaps, rep));
                if m > 0 {
                    assert(r[0] == rep[0]);
                    assert(false);
                }
                assert(r.take(m) =~= t.take(m));
            },
            None => {
                let r2 = replace_spelled(t.drop_first(), p, gaps, rep);
                assert(r == seq![t[0]] + r2);
                if m > 0 {
                    assert forall|j: int| 0 <= j < m - 1 implies r2[j] != rep[0] by {
                        assert(r[j + 1] == r2[j]);
                    }
                    lemma_replace_prefix(t.drop_first(), p, gaps, rep, m - 1);
                    assert forall|j: int| 0 <= j < m implies #[trigger] r.take(m)[j] == t.take(m)[j] by {
                        if j > 0 {
                            assert(r.take(m)[j] == r2.take(m - 1)[j - 1]);
                            assert(t.take(m)[j] == t.drop_first().take(m - 1)[j - 1]);
                        }
                    }
                }
                assert(r.take(m) =~= t.take(m));
            },
        }
    }
}

/// A pattern that cannot reach into the replacement text: not empty, free
/// of the replacement's first and last characters, which are neither
/// separators nor part of an escape, and not spelled inside it.
pub open spec fn apart_from(p: Seq<char>, gaps: bool, rep: Seq<char>) -> bool {
    &&& p.len() > 0
    &&& rep.len() > 0
    &&& !p.contains(rep[0])
    &&& !p.contains(rep.last())
    &&& !number_separator(rep[0])
    &&& !number_separator(rep.last())
    &&& !escape_char(rep[0])
    &&& !escape_char(rep.last())
    &&& !spelled_in(rep, p, gaps)
}

proof fn lemma_spelled_shift(rest: Seq<char>, s: Seq<char>, d: int, p: Seq<char>, gaps: bool)
    requires
        0 <= d <= s.len(),
        rest == s.skip(d),
        spelled_in(rest, p, gaps),
    ensures
        spelled_in(s, p, gaps),
{
    let i = choose|i: int| spelled_at(rest, p, gaps, i);
    assert(rest.skip(i) =~= s.skip(i + d));
    assert(spelled_at(s, p, gaps, i + d));
}

/// Replacing the spellings of `q` creates no new spelling of a pattern `p`
/// apart from the replacement, and leaves no spelling of `q` itself.
pub proof fn lemma_replace_no_new_spelling(
    s: Seq<char>,
    q: Seq<char>,
    gq: bool,
    rep: Seq<char>,
    p: Seq<char>,
    gp: bool,
)
    requires
        q.len() > 0,
        apart_from(p, gp, rep),
    ensures
        spelled_in(replace_spelled(s, q, gq, rep), p, gp) ==> spelled_in(s, p, gp) && !(p == q && gp
            == gq),
    decreases s.len(),
{
    let r = replace_spelled(s, q, gq, rep);
    if spelled_in(r, p, gp) && s.len() > 0 {
        let k = choose|k: int| spelled_at(r, p, gp, k);
        lemma_match_len_bounds(s, q, gq, true);
        let c = match_len(r.skip(k), p, gp, true)->0;
        lemma_match_len_bounds(r.skip(k), p, gp, true);
        lemma_match_chars(r.skip(k), p, gp, true);
        match match_len(s, q, gq, true) {
            Some(mq) => {
                let rest = s.skip(mq as int);
                let r2 = replace_spelled(rest, q, gq, rep);
                assert(r == rep + r2);
                if k < rep.len() {
                    if k + c <= rep.len() {
                        assert(r.skip(k).take(c as int) =~= rep.skip(k).take(c as int));
                        lemma_match_prefix(r.skip(k), rep.skip(k), p, gp, true, c);
                        assert(spelled_at(rep, p, gp, k));
                    } else {
                        let j = rep.len() - 1 - k;
                        assert(r.skip(k)[j] == rep.last());
                    }
                } else {
                    assert(r.skip(k) =~= r2.skip(k - rep.len()));
                    assert(spelled_at(r2, p, gp, k - rep.len()));
                    lemma_replace_no_new_spelling(rest, q, gq, rep, p, gp);
                    lemma_spelled_shift(rest, s, mq as int, p, gp);
                }
            },
            None => {
                let rest = s.drop_first();
                let r2 = replace_spelled(rest, q, gq, rep);
                assert(r == seq![s[0]] + r2);
                if k >= 1 {
                    assert(r.skip(k) =~= r2.skip(k - 1));
                    assert(spelled_at(r2, p, gp, k - 1));
                    lemma_replace_no_new_spelling(rest, q, gq, rep, p, gp);
                    assert(rest == s.skip(1));
                    lemma_spelled_shift(rest, s, 1, p, gp);
                } else {
                    assert(r.skip(0) =~= r);
                    let m: int = c - 1;
                    assert forall|j: int| 0 <= j < m implies r2[j] != rep[0] by {
                        assert(r2[j] == r[j + 1]);
                        assert(r.skip(k)[j + 1] == r[j + 1]);
                    }
                    lemma_replace_prefix(rest, q, gq, rep, m);
                    assert(r.take(c as int) =~= s.take(c as int)) by {
                        assert forall|j: int| 0 <= j < c implies #[trigger] r.take(c as int)[j]
                            == s.take(c as int)[j] by {
                            if j > 0 {
                                assert(r2.take(m)[j - 1] == rest.take(m)[j - 1]);
                            }
                        }
                    }
                    lemma_match_prefix(r, s, p, gp, true, c);
                    assert(s.skip(0) =~= s);
                    assert(spelled_at(s, p, gp, 0));
                }
            },
        }
    }
    if s.len() == 0 && spelled_in(r, p, gp) {
        let k = choose|k: int| spelled_at(r, p, gp, k);
        assert(r.skip(k).len() == 0);
    }
}

/// `o` with `d` added to the length it holds.
pub open spec fn shifted(o: Option<nat>, d: int) -> Option<nat> {
    match o {
        Some(k) => Some((k + d) as nat),
        None => None,
    }
}

fn char_len_at(s: &Vec<char>, i: usize, c: char) -> (l: usize)
    requires
        i <= s.len(),
    ensures
        l == char_len(s@.skip(i as int), c),
{
    let ghost t = s@.skip(i as int);
    if s.len() - i >= 2 && c == '"' && s[i] == '\\' && s[i + 1] == '"' {
        assert(t[0] == s@[i as int] && t[1] == s@[i + 1]);
        2
    } else if s.len() - i >= 1 && s[i] == c {
        assert(t[0] == s@[i as int]);
        1
    } else {
        if s.len() - i >= 2 {
            assert(t[0] == s@[i as int] && t[1] == s@[i + 1]);
        }
        if s.len() - i >= 1 {
            assert(t[0] == s@[i as int]);
        }
        0
    }
}

fn gap_len_at(s: &Vec<char>, i: usize) -> (g: usize)
    requires
        i <= s.len(),
    ensures
        g == gap_len(s@.skip(i as int)),
{
    let ghost t = s@.skip(i as int);
    let n = s.len() - i;
    if n >= 1 {
        assert(t[0] == s@[i as int]);
    }
    if n >= 2 {
        assert(t[1] == s@[i + 1]);
    }
    if n >= 6 {
        assert(t[2] == s@[i + 2] && t[3] == s@[i + 3] && t[4] == s@[i + 4] && t[5] == s@[i + 5]);
    }
    if n >= 1 && is_number_separator(s[i]) {
        1
    } else if n >= 2 && s[i] == '\\' && (s[i + 1] == 't' || s[i + 1] == 'n' || s[i + 1] == 'r'
        || s[i + 1] == 'f') {
        2
    } else if n >= 6 && s[i] == '\\' && s[i + 1] == 'u' && s[i + 2] == '0' && s[i + 3] == '0'
        && s[i + 4] == '0' && s[i + 5] == 'b' {
        6
    } else {
        0
    }
}

/// The length of the spelling of `p` that starts at position `i` of `s`.
pub fn spelled_len_at(s: &Vec<char>, p: &Vec<char>, i: usize, gaps: bool) -> (r: Option<usize>)
    requires
        i <= s.len(),
    ensures
        match match_len(s@.skip(i as int), p@, gaps, true) {
            Some(k) => r == Some(k as usize),
            None => r is None,
        },
{
    let mut j = i;
    let mut q: usize = 0;
    let mut first = true;
    assert(p@.skip(0) =~= p@);
    while q < p.len()
        invariant
            i <= j <= s.len(),
            q <= p.len(),
            match_len(s@.skip(i as int), p@, gaps, true) == shifted(
                match_len(s@.skip(j as int), p@.skip(q as int), gaps, first),
                j - i,
            ),
        decreases s.len() - j,
    {
        let ghost sj = s@.skip(j as int);
        let ghost pq = p@.skip(q as int);
        assert(pq.drop_first() =~= p@.skip(q + 1));
        assert(pq[0] == p@[q as int]);
        let l = char_len_at(s, j, p[q]);
        if l > 0 {
            assert(sj.skip(l as int) =~= s@.skip(j + l));
            j = j + l;
            q = q + 1;
            first = false;
        } else if gaps && !first {
            let g = gap_len_at(s, j);
            if g > 0 {
                assert(sj.skip(g as int) =~= s@.skip(j + g));
                j = j + g;
            } else {
                return None;
            }
        } else {
            return None;
        }
    }
    assert(p@.skip(q as int).len() == 0);
    Some(j - i)
}

/// Whether `p` is spelled anywhere in `s`.
pub fn find_spelled(s: &Vec<char>, p: &Vec<char>, gaps: bool) -> (r: bool)
    ensures
        r == spelled_in(s@, p@, gaps),
{
    let mut i: usize = 0;
    while i < s.len()
        invariant
            i <= s.len(),
            forall|k: int| 0 <= k < i ==> !spelled_at(s@, p@, gaps, k),
        decreases s.len() - i,
    {
        if spelled_len_at(s, p, i, gaps).is_some() {
            assert(spelled_at(s@, p@, gaps, i as int));
            return true;
        }
        i = i + 1;
    }
    if spelled_len_at(s, p, i, gaps).is_some() {
        assert(spelled_at(s@, p@, gaps, i as int));
        return true;
    }
    assert forall|k: int| !spelled_at(s@, p@, gaps, k) by {
        if 0 <= k < i {
        }
    }
    false
}

/// Replaces every spelling of `p`, from left to right, by `rep`.
pub fn replace_spelled_text(s: &Vec<char>, p: &Vec<char>, gaps: bool, rep: &Vec<char>) -> (out: Vec<
    char,
>)
    requires
        p.len() > 0,
    ensures
        out@ == replace_spelled(s@, p@, gaps, rep@),
{
    let mut out: Vec<char> = Vec::new();
    let mut i: usize = 0;
    assert(s@.skip(0) =~= s@);
    assert(out@ + replace_spelled(s@, p@, gaps, rep@) =~= replace_spelled(s@, p@, gaps, rep@));
    while i < s.len()
        invariant
            p.len() > 0,
            i <= s.len(),
            replace_spelled(s@, p@, gaps, rep@) == out@ + replace_spelled(
                s@.skip(i as int),
                p@,
                gaps,
                rep@,
            ),
        decreases s.len() - i,
    {
        let ghost rest = s@.skip(i as int);
        proof {
            lemma_match_len_bounds(rest, p@, gaps, true);
        }
        match spelled_len_at(s, p, i, gaps) {
            Some(k) => {
                assert(rest.skip(k as int) =~= s@.skip(i + k));
                extend_range(&mut out, rep, 0, rep.len());
                assert(rep@.subrange(0, rep.len() as int) =~= rep@);
                i = i + k;
            },
            None => {
                assert(rest.drop_first() =~= s@.skip(i + 1));
                assert(rest[0] == s@[i as int]);
                out.push(s[i]);
                i = i + 1;
            },
        }
        assert(replace_spelled(s@, p@, gaps, rep@) =~= out@ + replace_spelled(
            s@.skip(i as int),
            p@,
            gaps,
            rep@,
        ));
    }
    assert(s@.skip(i as int).len() == 0);
    assert(out@ + replace_spelled(s@.skip(i as int), p@, gaps, rep@) =~= out@);
    out
}

} // verus!
