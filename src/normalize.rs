use vstd::prelude::*;
use crate::text::{chars_of, extend_chars, is_white, string_of, white};

verus! {

/// Length of the run of non-whitespace characters that starts `s`.
pub open spec fn word_len(s: Seq<char>) -> nat
    decreases s.len(),
{
    if s.len() == 0 || is_white(s[0]) {
        0
    } else {
        1 + word_len(s.drop_first())
    }
}

/// A word with the constant macros expanded: `TRUE` to `1`, `FALSE` to `0`.
pub open spec fn expand_word(w: Seq<char>) -> Seq<char> {
    if w == seq!['T', 'R', 'U', 'E'] {
        seq!['1']
    } else if w == seq!['F', 'A', 'L', 'S', 'E'] {
        seq!['0']
    } else {
        w
    }
}

/// The text with every whitespace-delimited word expanded by `expand_word`.
pub open spec fn expanded_macros(s: Seq<char>) -> Seq<char>
    decreases s.len(),
{
    if s.len() == 0 {
        seq![]
    } else if is_white(s[0]) {
        seq![s[0]] + expanded_macros(s.drop_first())
    } else if 0 < word_len(s) <= s.len() {
        expand_word(s.take(word_len(s) as int)) + expanded_macros(s.skip(word_len(s) as int))
    } else {
        s
    }
}

proof fn lemma_word_len(s: Seq<char>, k: int)
    requires
        0 <= k <= s.len(),
        forall|m: int| 0 <= m < k ==> !is_white(#[trigger] s[m]),
        k == s.len() || is_white(s[k]),
    ensures
        word_len(s) == k,
    decreases k,
{
    if k > 0 {
        lemma_word_len(s.drop_first(), k - 1);
    }
}

fn push_expansion(out: &mut Vec<char>, v: &Vec<char>, i: usize, j: usize)
    requires
        i <= j <= v@.len(),
    ensures
        final(out)@ == old(out)@ + expand_word(v@.subrange(i as int, j as int)),
{
    let ghost w = v@.subrange(i as int, j as int);
    if j - i == 4 && v[i] == 'T' && v[i + 1] == 'R' && v[i + 2] == 'U' && v[i + 3] == 'E' {
        assert(w =~= seq!['T', 'R', 'U', 'E']);
        out.push('1');
        assert(out@ =~= old(out)@ + seq!['1']);
    } else if j - i == 5 && v[i] == 'F' && v[i + 1] == 'A' && v[i + 2] == 'L' && v[i + 3] == 'S' && v[i + 4] == 'E' {
        assert(w =~= seq!['F', 'A', 'L', 'S', 'E']);
        out.push('0');
        assert(out@ =~= old(out)@ + seq!['0']);
    } else {
        assert(w.len() == 4 ==> (w[0] != 'T' || w[1] != 'R' || w[2] != 'U' || w[3] != 'E'));
        assert(w.len() == 5 ==> (w[0] != 'F' || w[1] != 'A' || w[2] != 'L' || w[3] != 'S' || w[4] != 'E'));
        extend_chars(out, v, i, j);
    }
}

/// Replaces each whitespace-delimited word `TRUE` by `1` and `FALSE` by `0`;
/// everything else is kept as it is.
pub fn macros(text: String) -> (r: String)
    ensures
        r@ == expanded_macros(text@),
{
    let v = chars_of(text.as_str());
    let ghost s = v@;
    let n = v.len();
    let mut out: Vec<char> = Vec::new();
    let mut i: usize = 0;
    assert(s.skip(0) =~= s);
    assert(out@ + s =~= s);
    while i < n
        invariant
            n == v@.len(),
            s == v@,
            i <= n,
            expanded_macros(s) == out@ + expanded_macros(s.skip(i as int)),
        decreases n - i,
    {
        let ghost rest = s.skip(i as int);
        if white(v[i]) {
            assert(rest.drop_first() =~= s.skip(i + 1));
            out.push(v[i]);
            i = i + 1;
        } else {
            let mut j: usize = i;
            while j < n && !white(v[j])
                invariant
                    i <= j <= n,
                    n == v@.len(),
                    forall|m: int| i <= m < j ==> !is_white(#[trigger] v@[m]),
                decreases n - j,
            {
                j = j + 1;
            }
            proof {
                lemma_word_len(rest, j - i);
                assert(rest.take(j - i) =~= s.subrange(i as int, j as int));
                assert(rest.skip(j - i) =~= s.skip(j as int));
            }
            push_expansion(&mut out, &v, i, j);
            i = j;
        }
    }
    assert(s.skip(n as int) =~= Seq::<char>::empty());
    assert(out@ =~= out@ + Seq::<char>::empty());
    string_of(&out)
}

/// A line holding the single word `w`, free of whitespace, expands to
/// `expand_word(w)`: a macro to its value, any other word to itself.
pub proof fn law_single_word_expansion(w: Seq<char>)
    requires
        w.len() > 0,
        forall|m: int| 0 <= m < w.len() ==> !is_white(#[trigger] w[m]),
    ensures
        expanded_macros(w) == expand_word(w),
        w != seq!['T', 'R', 'U', 'E'] && w != seq!['F', 'A', 'L', 'S', 'E'] ==> expanded_macros(w) == w,
{
    lemma_word_len(w, w.len() as int);
    assert(!is_white(w[0]));
    assert(w.take(w.len() as int) =~= w);
    assert(w.skip(w.len() as int) =~= Seq::<char>::empty());
    assert(expanded_macros(Seq::<char>::empty()) == Seq::<char>::empty());
    assert(expanded_macros(w) == expand_word(w) + expanded_macros(Seq::<char>::empty()));
    assert(expand_word(w) + Seq::<char>::empty() =~= expand_word(w));
}

proof fn lemma_word_len_prefix(u: Seq<char>, r: Seq<char>)
    requires
        u.len() > 0,
        is_white(u.last()),
    ensures
        word_len(u + r) == word_len(u),
        word_len(u) < u.len(),
    decreases u.len(),
{
    if !is_white(u[0]) {
        assert((u + r).drop_first() =~= u.drop_first() + r);
        if u.len() > 1 {
            lemma_word_len_prefix(u.drop_first(), r);
        }
    }
}

proof fn lemma_expanded_concat(u: Seq<char>, r: Seq<char>)
    requires
        u.len() == 0 || is_white(u.last()),
    ensures
        expanded_macros(u + r) == expanded_macros(u) + expanded_macros(r),
    decreases u.len(),
{
    if u.len() == 0 {
        assert(u + r =~= r);
        assert(expanded_macros(u) + expanded_macros(r) =~= expanded_macros(r));
    } else if is_white(u[0]) {
        assert((u + r).drop_first() =~= u.drop_first() + r);
        lemma_expanded_concat(u.drop_first(), r);
        assert(seq![u[0]] + (expanded_macros(u.drop_first()) + expanded_macros(r)) =~= (seq![u[0]]
            + expanded_macros(u.drop_first())) + expanded_macros(r));
    } else {
        lemma_word_len_prefix(u, r);
        let k = word_len(u) as int;
        assert(k > 0);
        assert((u + r).take(k) =~= u.take(k));
        assert((u + r).skip(k) =~= u.skip(k) + r);
        lemma_expanded_concat(u.skip(k), r);
        assert(expand_word(u.take(k)) + (expanded_macros(u.skip(k)) + expanded_macros(r)) =~= (expand_word(
            u.take(k),
        ) + expanded_macros(u.skip(k))) + expanded_macros(r));
    }
}

/// Macro expansion works word by word: a whitespace-free word that stands
/// between whitespace or the ends of the text becomes its expansion, and the
/// text on either side is expanded on its own.
pub proof fn law_macro_expansion_by_words(u: Seq<char>, w: Seq<char>, v: Seq<char>)
    requires
        u.len() == 0 || is_white(u.last()),
        w.len() > 0,
        forall|m: int| 0 <= m < w.len() ==> !is_white(#[trigger] w[m]),
        v.len() == 0 || is_white(v[0]),
    ensures
        expanded_macros(u + w + v) == expanded_macros(u) + expand_word(w) + expanded_macros(v),
{
    assert(u + w + v =~= u + (w + v));
    lemma_expanded_concat(u, w + v);
    let x = w + v;
    lemma_word_len(x, w.len() as int);
    assert(!is_white(x[0]));
    assert(x.take(w.len() as int) =~= w);
    assert(x.skip(w.len() as int) =~= v);
    assert(expanded_macros(x) == expand_word(w) + expanded_macros(v));
    assert(expanded_macros(u) + (expand_word(w) + expanded_macros(v)) =~= expanded_macros(u) + expand_word(w)
        + expanded_macros(v));
}

/// The first position at or after `k` holding `c`, or the length of `s`.
pub open spec fn find_char(s: Seq<char>, c: char, k: int) -> int
    decreases s.len() - k,
{
    if k < 0 || k >= s.len() {
        s.len() as int
    } else if s[k] == c {
        k
    } else {
        find_char(s, c, k + 1)
    }
}

pub(crate) proof fn lemma_find_char(s: Seq<char>, c: char, k: int)
    requires
        0 <= k,
    ensures
        k <= find_char(s, c, k) <= s.len() || (k > s.len() && find_char(s, c, k) == s.len()),
        find_char(s, c, k) < s.len() ==> s[find_char(s, c, k)] == c,
        forall|m: int| k <= m < find_char(s, c, k) ==> s[m] != c,
    decreases s.len() - k,
{
    if k < s.len() && s[k] != c {
        lemma_find_char(s, c, k + 1);
    }
}

/// The characters of `t` as single-quoted literals separated by spaces.
pub open spec fn quoted_chars(t: Seq<char>) -> Seq<char>
    decreases t.len(),
{
    if t.len() == 0 {
        seq![]
    } else if t.len() == 1 {
        seq!['\'', t[0], '\'']
    } else {
        quoted_chars(t.drop_last()) + seq![' ', '\'', t.last(), '\'']
    }
}

/// The first position at or after `k` holding a double quote or a newline,
/// or the length of `s`.
pub open spec fn find_stop(s: Seq<char>, k: int) -> int
    decreases s.len() - k,
{
    if k < 0 || k >= s.len() {
        s.len() as int
    } else if s[k] == '"' || s[k] == '\n' {
        k
    } else {
        find_stop(s, k + 1)
    }
}

/// The positions of the two quotes of the first double-quoted span, searching
/// from `k`, whose quotes stand on one line.
pub open spec fn quoted_span(s: Seq<char>, k: int) -> Option<(int, int)>
    decreases s.len() - k,
{
    let a = find_char(s, '"', k);
    if k < 0 || a < k || a >= s.len() {
        None
    } else {
        let b = find_stop(s, a + 1);
        if b <= a || b >= s.len() {
            None
        } else if s[b] == '"' {
            Some((a, b))
        } else {
            quoted_span(s, b + 1)
        }
    }
}

/// The text with its first double-quoted span that lies on one line rewritten
/// into a brace group of character literals; unchanged when there is none.
pub open spec fn expanded_string(s: Seq<char>) -> Seq<char> {
    match quoted_span(s, 0) {
        Some((a, b)) => s.take(a) + seq!['{', ' '] + quoted_chars(s.subrange(a + 1, b)) + seq![' ', '}'] + s.skip(
            b + 1,
        ),
        None => s,
    }
}

proof fn lemma_find_stop(s: Seq<char>, k: int)
    requires
        0 <= k,
    ensures
        k <= find_stop(s, k) <= s.len() || (k > s.len() && find_stop(s, k) == s.len()),
        find_stop(s, k) < s.len() ==> s[find_stop(s, k)] == '"' || s[find_stop(s, k)] == '\n',
        forall|m: int| k <= m < find_stop(s, k) ==> s[m] != '"' && s[m] != '\n',
    decreases s.len() - k,
{
    if k < s.len() && s[k] != '"' && s[k] != '\n' {
        lemma_find_stop(s, k + 1);
    }
}

proof fn lemma_quoted_span(s: Seq<char>, k: int)
    requires
        0 <= k,
    ensures
        quoted_span(s, k) matches Some((a, b)) ==> k <= a < b < s.len() && s[a] == '"' && s[b] == '"'
            && forall|m: int| a < m < b ==> s[m] != '\n',
    decreases s.len() - k,
{
    lemma_find_char(s, '"', k);
    let a = find_char(s, '"', k);
    if a >= k && a < s.len() {
        lemma_find_stop(s, a + 1);
        let b = find_stop(s, a + 1);
        if a < b < s.len() && s[b] != '"' {
            lemma_quoted_span(s, b + 1);
        }
    }
}

fn find_stop_at(v: &Vec<char>, k: usize) -> (r: usize)
    requires
        k <= v@.len(),
    ensures
        r == find_stop(v@, k as int),
{
    let mut i: usize = k;
    while i < v.len() && v[i] != '"' && v[i] != '\n'
        invariant
            k <= i <= v@.len(),
            find_stop(v@, k as int) == find_stop(v@, i as int),
        decreases v@.len() - i,
    {
        i = i + 1;
    }
    i
}

fn find_quote(v: &Vec<char>, k: usize) -> (r: usize)
    requires
        k <= v@.len(),
    ensures
        r == find_char(v@, '"', k as int),
{
    let mut i: usize = k;
    while i < v.len() && v[i] != '"'
        invariant
            k <= i <= v@.len(),
            find_char(v@, '"', k as int) == find_char(v@, '"', i as int),
        decreases v@.len() - i,
    {
        i = i + 1;
    }
    i
}

/// Rewrites the first double-quoted span of a line into a group of character
/// literals: `"ab"` becomes `{ 'a' 'b' }`; the text around it is kept.
pub fn expand_string(text: String) -> (r: String)
    ensures
        r@ == expanded_string(text@),
{
    let v = chars_of(text.as_str());
    let ghost s = v@;
    let n = v.len();
    let mut k: usize = 0;
    let mut a: usize = 0;
    let mut b: usize = 0;
    loop
        invariant
            k <= n,
            n == v@.len(),
            s == v@,
            s == text@,
            quoted_span(s, 0) == quoted_span(s, k as int),
        ensures
            a < b < n,
            n == v@.len(),
            s == v@,
            s == text@,
            quoted_span(s, 0) == Some((a as int, b as int)),
        decreases n - k,
    {
        a = find_quote(&v, k);
        proof {
            lemma_find_char(s, '"', k as int);
        }
        if a >= n {
            return text;
        }
        b = find_stop_at(&v, a + 1);
        proof {
            lemma_find_stop(s, a + 1);
        }
        if b >= n {
            return text;
        }
        if v[b] == '"' {
            assert(quoted_span(s, k as int) == Some((a as int, b as int)));
            break;
        }
        assert(quoted_span(s, k as int) == quoted_span(s, b + 1));
        k = b + 1;
    }
    proof {
        lemma_quoted_span(s, 0);
    }
    let mut out: Vec<char> = Vec::new();
    extend_chars(&mut out, &v, 0, a);
    out.push('{');
    out.push(' ');
    let ghost head = out@;
    let ghost t = s.subrange(a + 1, b as int);
    let mut i: usize = a + 1;
    while i < b
        invariant
            a < i <= b < n,
            n == v@.len(),
            s == v@,
            t == s.subrange(a + 1, b as int),
            out@ == head + quoted_chars(t.take(i - a - 1)),
        decreases b - i,
    {
        let ghost prev = out@;
        assert(t.take(i - a).drop_last() =~= t.take(i - a - 1));
        if i > a + 1 {
            out.push(' ');
        }
        out.push('\'');
        out.push(v[i]);
        out.push('\'');
        i = i + 1;
        if i - a - 1 == 1 {
            assert(out@ =~= head + quoted_chars(t.take(i - a - 1)));
        } else {
            assert(out@ =~= head + quoted_chars(t.take(i - a - 1)));
        }
    }
    assert(t.take(b - a - 1) =~= t);
    out.push(' ');
    out.push('}');
    extend_chars(&mut out, &v, b + 1, n);
    assert(out@ =~= expanded_string(s));
    string_of(&out)
}

/// A text in which no line holds two double quotes is left unchanged by
/// string desugaring.
pub proof fn law_string_desugaring_without_span(s: Seq<char>)
    requires
        forall|i: int, j: int|
            0 <= i < j < s.len() && s[i] == '"' && s[j] == '"' ==> exists|m: int| i < m < j && s[m] == '\n',
    ensures
        expanded_string(s) == s,
{
    lemma_quoted_span(s, 0);
    if let Some((a, b)) = quoted_span(s, 0) {
        let m = choose|m: int| a < m < b && s[m] == '\n';
    }
}

proof fn lemma_quoted_chars_no_quote(t: Seq<char>)
    requires
        forall|m: int| 0 <= m < t.len() ==> t[m] != '"',
    ensures
        forall|m: int| 0 <= m < quoted_chars(t).len() ==> quoted_chars(t)[m] != '"',
    decreases t.len(),
{
    if t.len() > 1 {
        lemma_quoted_chars_no_quote(t.drop_last());
        let p = quoted_chars(t.drop_last());
        let q = seq![' ', '\'', t.last(), '\''];
        assert forall|m: int| 0 <= m < quoted_chars(t).len() implies quoted_chars(t)[m] != '"' by {
            if m < p.len() {
                assert(quoted_chars(t)[m] == p[m]);
            } else {
                assert(quoted_chars(t)[m] == q[m - p.len()]);
            }
        }
    }
}

/// Desugaring a line that holds one double-quoted span leaves no double
/// quote, so desugaring its output again changes nothing.
pub proof fn law_string_desugaring_settles(s: Seq<char>, a: int, b: int)
    requires
        0 <= a < b < s.len(),
        s[a] == '"',
        s[b] == '"',
        forall|m: int| 0 <= m < s.len() && m != a && m != b ==> s[m] != '"',
        forall|m: int| 0 <= m < s.len() ==> s[m] != '\n',
    ensures
        forall|m: int| 0 <= m < expanded_string(s).len() ==> expanded_string(s)[m] != '"',
        expanded_string(expanded_string(s)) == expanded_string(s),
{
    lemma_find_char(s, '"', 0);
    assert(find_char(s, '"', 0) == a);
    lemma_find_stop(s, a + 1);
    assert(find_stop(s, a + 1) == b);
    assert(quoted_span(s, 0) == Some((a, b)));
    let mid = s.subrange(a + 1, b);
    lemma_quoted_chars_no_quote(mid);
    let out = expanded_string(s);
    let p1 = s.take(a) + seq!['{', ' '];
    let p2 = p1 + quoted_chars(mid);
    let p3 = p2 + seq![' ', '}'];
    assert(out == p3 + s.skip(b + 1));
    assert forall|m: int| 0 <= m < out.len() implies out[m] != '"' by {
        if m < a {
            assert(out[m] == s[m]);
        } else if m < p1.len() {
        } else if m < p2.len() {
            assert(out[m] == quoted_chars(mid)[m - p1.len()]);
        } else if m < p3.len() {
        } else {
            assert(out[m] == s[b + 1 + (m - p3.len())]);
        }
    }
    law_string_desugaring_without_span(out);
}

/// Whether `c` is one of the structural symbols `( ) { }`.
pub open spec fn is_bracket(c: char) -> bool {
    c == '(' || c == ')' || c == '{' || c == '}'
}

/// Whether a space belongs between the neighbours `a` and `b`.
pub open spec fn needs_gap(a: char, b: char) -> bool {
    !is_white(a) && !is_white(b) && (is_bracket(a) || is_bracket(b))
}

/// The text with one space inserted between each bracket and a non-whitespace
/// neighbour.
pub open spec fn spaced(s: Seq<char>) -> Seq<char>
    decreases s.len(),
{
    if s.len() <= 1 {
        s
    } else if needs_gap(s[s.len() - 2], s.last()) {
        spaced(s.drop_last()) + seq![' ', s.last()]
    } else {
        spaced(s.drop_last()) + seq![s.last()]
    }
}

/// Separates every bracket symbol `( ) { }` from a non-whitespace neighbour
/// by one space, on each side where they touch.
pub fn expand_bracket(text: String) -> (r: String)
    ensures
        r@ == spaced(text@),
{
    let v = chars_of(text.as_str());
    let ghost s = v@;
    let n = v.len();
    let mut out: Vec<char> = Vec::new();
    let mut i: usize = 0;
    while i < n
        invariant
            i <= n,
            n == v@.len(),
            s == v@,
            out@ == spaced(s.take(i as int)),
        decreases n - i,
    {
        let ghost prev = out@;
        assert(s.take(i + 1).drop_last() =~= s.take(i as int));
        let c = v[i];
        if i > 0 {
            let p = v[i - 1];
            let gap = !white(p) && !white(c) && (p == '(' || p == ')' || p == '{' || p == '}' || c == '('
                || c == ')' || c == '{' || c == '}');
            if gap {
                out.push(' ');
            }
        }
        out.push(c);
        i = i + 1;
        if i == 1 {
            assert(out@ =~= spaced(s.take(i as int)));
        } else {
            assert(out@ =~= spaced(s.take(i as int)));
        }
    }
    assert(s.take(n as int) =~= s);
    string_of(&out)
}

proof fn lemma_spaced_last(s: Seq<char>)
    requires
        s.len() > 0,
    ensures
        spaced(s).len() > 0,
        spaced(s).last() == s.last(),
        spaced(s)[0] == s[0],
    decreases s.len(),
{
    if s.len() > 1 {
        lemma_spaced_last(s.drop_last());
    }
}

/// After bracket spacing no bracket symbol touches a non-whitespace character.
#[verifier::rlimit(60)]
pub proof fn law_brackets_are_spaced(s: Seq<char>)
    ensures
        forall|j: int|
            0 <= j < spaced(s).len() - 1 && (is_bracket(#[trigger] spaced(s)[j]) || is_bracket(spaced(s)[j + 1]))
                ==> is_white(spaced(s)[j]) || is_white(spaced(s)[j + 1]),
    decreases s.len(),
{
    if s.len() > 1 {
        let p = s.drop_last();
        law_brackets_are_spaced(p);
        lemma_spaced_last(p);
        let sp = spaced(p);
        let out = spaced(s);
        let tail = if needs_gap(s[s.len() - 2], s.last()) {
            seq![' ', s.last()]
        } else {
            seq![s.last()]
        };
        assert(out == sp + tail);
        assert(sp.last() == s[s.len() - 2]);
        assert(is_white(' '));
        assert forall|j: int|
            0 <= j < out.len() - 1 && (is_bracket(#[trigger] out[j]) || is_bracket(out[j + 1]))
                implies is_white(out[j]) || is_white(out[j + 1]) by {
            if j < sp.len() - 1 {
                assert(out[j] == sp[j] && out[j + 1] == sp[j + 1]);
            } else if j == sp.len() - 1 {
                assert(out[j] == sp.last());
                assert(out[j + 1] == tail[0]);
            } else {
                assert(out[j] == tail[0]);
            }
        }
    }
}

} // verus!
