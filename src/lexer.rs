use vstd::prelude::*;
use crate::models::{char_token, lemma_group_view, tokens_view, Number, Range, Token, TokenV};
use crate::text::{chars_of, is_white, string_of, white};
use crate::tokenize::{all_digits, decimal_of, digits_val, is_digit, lemma_digits_prefix, parse_number};

verus! {

/// The tokens of the guard/assignment surface of the language.
#[derive(Clone, Debug, PartialEq)]
pub enum LexerToken {
    /// `x <-| `: a boolean guard on the single-letter name.
    BooleanGuard(String),
    /// `name -> `: one option of a guard.
    GuardOption(String),
    /// `name <- `: a binding of the name.
    Assignment(String),
    Token(Token),
    Function(String),
    FunctionLiteral(String),
    Indent,
    Seperator,
    Newline,
    Error,
}

/// `s` without leading and trailing whitespace.
pub open spec fn trimmed(s: Seq<char>) -> Seq<char>
    decreases s.len(),
{
    if s.len() > 0 && is_white(s[0]) {
        trimmed(s.drop_first())
    } else if s.len() > 0 && is_white(s.last()) {
        trimmed(s.drop_last())
    } else {
        s
    }
}

#[verifier::rlimit(40)]
fn trim_chars(v: &Vec<char>) -> (r: Vec<char>)
    ensures
        r@ == trimmed(v@),
{
    let n = v.len();
    let mut lo: usize = 0;
    assert(v@.subrange(0, n as int) =~= v@);
    while lo < n && white(v[lo])
        invariant
            lo <= n,
            n == v@.len(),
            trimmed(v@) == trimmed(v@.subrange(lo as int, n as int)),
        decreases n - lo,
    {
        assert(v@.subrange(lo as int, n as int).drop_first() =~= v@.subrange(lo + 1, n as int));
        lo = lo + 1;
    }
    let mut hi: usize = n;
    while hi > lo && white(v[hi - 1])
        invariant
            lo <= hi <= n,
            n == v@.len(),
            trimmed(v@) == trimmed(v@.subrange(lo as int, hi as int)),
            hi < n ==> lo == n || !is_white(v@[lo as int]),
            lo < n ==> !is_white(v@[lo as int]),
        decreases hi - lo,
    {
        let ghost t = v@.subrange(lo as int, hi as int);
        assert(t[0] == v@[lo as int]);
        assert(t.drop_last() =~= v@.subrange(lo as int, hi - 1));
        hi = hi - 1;
    }
    let mut out: Vec<char> = Vec::new();
    crate::text::extend_chars(&mut out, v, lo, hi);
    proof {
        let t = v@.subrange(lo as int, hi as int);
        if t.len() > 0 {
            assert(t[0] == v@[lo as int]);
            assert(t.last() == v@[hi - 1]);
        }
        assert(out@ =~= t);
    }
    out
}

/// Character tokens for the characters of `s`.
pub open spec fn char_tokens(s: Seq<char>) -> Seq<TokenV>
    decreases s.len(),
{
    if s.len() == 0 {
        Seq::empty()
    } else {
        char_tokens(s.drop_last()).push(TokenV::Char(s.last()))
    }
}

/// A quoted string literal: its characters, quotes excluded, as a group of
/// character tokens.
pub fn string(slice: &str) -> (r: Token)
    requires
        slice@.len() >= 2,
    ensures
        r is Group,
        r->Group_0@.len() == slice@.len() - 2,
        forall|j: int| 0 <= j < slice@.len() - 2 ==> #[trigger] r->Group_0@[j] == Token::Char(slice@[j + 1]),
        r@ == TokenV::Group(char_tokens(slice@.subrange(1, slice@.len() - 1))),
{
    let v = chars_of(slice);
    let n = v.len();
    let mut out: Vec<Token> = Vec::new();
    let mut k: usize = 0;
    assert(v@.subrange(1, 1) =~= Seq::<char>::empty());
    assert(tokens_view(out@) =~= Seq::<TokenV>::empty());
    while k + 2 < n
        invariant
            k + 2 <= n,
            n == v@.len(),
            v@ == slice@,
            out@.len() == k,
            forall|j: int| 0 <= j < k ==> #[trigger] out@[j] == Token::Char(v@[j + 1]),
            tokens_view(out@) == char_tokens(v@.subrange(1, k + 1)),
        decreases n - k,
    {
        let c = v[k + 1];
        let t = char_token(c);
        let ghost prev = out@;
        out.push(t);
        proof {
            crate::models::lemma_char_view(c);
            assert(tokens_view(out@) =~= tokens_view(prev).push(TokenV::Char(c)));
            assert(v@.subrange(1, k + 2).drop_last() =~= v@.subrange(1, k + 1));
        }
        k = k + 1;
    }
    proof {
        lemma_group_view(out);
    }
    Token::Group(out)
}

/// `s` with every occurrence of `c` removed.
pub open spec fn without(s: Seq<char>, c: char) -> Seq<char>
    decreases s.len(),
{
    if s.len() == 0 {
        s
    } else if s.last() == c {
        without(s.drop_last(), c)
    } else {
        without(s.drop_last(), c).push(s.last())
    }
}

/// The name of a backtick-quoted function literal: the text without its
/// backticks.
pub fn container_literal(slice: &str) -> (r: String)
    ensures
        r@ == without(slice@, '`'),
{
    let v = chars_of(slice);
    let mut out: Vec<char> = Vec::new();
    let mut i: usize = 0;
    assert(v@.take(0) =~= Seq::<char>::empty());
    while i < v.len()
        invariant
            i <= v@.len(),
            out@ == without(v@.take(i as int), '`'),
        decreases v@.len() - i,
    {
        assert(v@.take(i + 1).drop_last() =~= v@.take(i as int));
        if v[i] != '`' {
            out.push(v[i]);
        }
        i = i + 1;
    }
    assert(v@.take(v@.len() as int) =~= v@);
    string_of(&out)
}

/// The name of a boolean guard `x <-| `: the trimmed text without its
/// four-character marker ` <-|`.
pub fn boolean_guard(slice: &str) -> (r: String)
    requires
        trimmed(slice@).len() >= 4,
    ensures
        r@ == trimmed(slice@).take(trimmed(slice@).len() - 4),
{
    let v = chars_of(slice);
    let t = trim_chars(&v);
    let mut out: Vec<char> = Vec::new();
    let k = t.len() - 4;
    crate::text::extend_chars(&mut out, &t, 0, k);
    assert(out@ =~= t@.take(k as int));
    string_of(&out)
}

/// The name of a guard option `name -> `: the text without its four-character
/// marker ` -> `.
pub fn guard_option(slice: &str) -> (r: String)
    requires
        slice@.len() >= 4,
    ensures
        r@ == slice@.take(slice@.len() - 4),
{
    let v = chars_of(slice);
    let mut out: Vec<char> = Vec::new();
    let k = v.len() - 4;
    crate::text::extend_chars(&mut out, &v, 0, k);
    assert(out@ =~= v@.take(k as int));
    string_of(&out)
}

/// The name of an assignment `name <- `: the trimmed text without its
/// three-character marker ` <-`.
pub fn assignment(slice: &str) -> (r: String)
    requires
        trimmed(slice@).len() >= 3,
    ensures
        r@ == trimmed(slice@).take(trimmed(slice@).len() - 3),
{
    let v = chars_of(slice);
    let t = trim_chars(&v);
    let mut out: Vec<char> = Vec::new();
    let k = t.len() - 3;
    crate::text::extend_chars(&mut out, &t, 0, k);
    assert(out@ =~= t@.take(k as int));
    string_of(&out)
}

/// The value of the digits `v[lo..hi]`, when there is at least one, they are
/// all digits and the value fits a `usize`.
fn index_at(v: &Vec<char>, lo: usize, hi: usize) -> (r: Option<usize>)
    requires
        lo <= hi <= v@.len(),
    ensures
        r == index_of(v@, lo as int, hi as int),
{
    if lo == hi {
        return None;
    }
    let ghost w = v@.subrange(lo as int, hi as int);
    let mut m: usize = 0;
    let mut i: usize = lo;
    assert(w.take(0) =~= Seq::<char>::empty());
    while i < hi
        invariant
            lo <= i <= hi <= v@.len(),
            w == v@.subrange(lo as int, hi as int),
            m == digits_val(w.take(i - lo)),
            all_digits(w.take(i - lo)),
        decreases hi - i,
    {
        let c = v[i];
        assert(w.take(i - lo + 1).drop_last() =~= w.take(i - lo));
        assert(w[i - lo] == c);
        if c < '0' || c > '9' {
            assert(!is_digit(w[i - lo]));
            return None;
        }
        let d: usize = (c as u32 - '0' as u32) as usize;
        if m > (usize::MAX - d) / 10 {
            proof {
                assert(m * 10 + d > usize::MAX) by (nonlinear_arith)
                    requires
                        m > (usize::MAX - d) / 10,
                        d <= 9,
                ;
                if all_digits(w) {
                    lemma_digits_prefix(w, i - lo + 1);
                }
            }
            return None;
        }
        assert(m * 10 + d <= usize::MAX) by (nonlinear_arith)
            requires
                m <= (usize::MAX - d) / 10,
                d <= 9,
        ;
        m = m * 10 + d;
        i = i + 1;
        assert(all_digits(w.take(i - lo))) by {
            assert forall|j: int| 0 <= j < i - lo implies is_digit(#[trigger] w.take(i - lo)[j]) by {
                if j < i - lo - 1 {
                    assert(w.take(i - lo)[j] == w.take(i - lo - 1)[j]);
                }
            }
        }
    }
    assert(w.take(hi - lo) =~= w);
    Some(m)
}

/// The position of the first `..` in `s`, or the length of `s`.
pub open spec fn dots_at(s: Seq<char>, k: int) -> int
    decreases s.len() - k,
{
    if k < 0 || k + 2 > s.len() {
        s.len() as int
    } else if s[k] == '.' && s[k + 1] == '.' {
        k
    } else {
        dots_at(s, k + 1)
    }
}

/// The number that `s[lo..hi]` spells, when it is a non-empty one that fits
/// a `usize`.
pub open spec fn index_of(s: Seq<char>, lo: int, hi: int) -> Option<usize> {
    let w = s.subrange(lo, hi);
    if w.len() > 0 && all_digits(w) && digits_val(w) <= usize::MAX {
        Some(digits_val(w) as usize)
    } else {
        None
    }
}

/// The parameter that a closed slice `$a..b` stands for: positions `a`
/// through `b`; `None` when a bound is no number that fits a `usize`.
pub open spec fn full_slice(s: Seq<char>) -> Option<Range> {
    let d = dots_at(s, 1);
    if s.len() >= 1 && d + 2 <= s.len() {
        match (index_of(s, 1, d), index_of(s, d + 2, s.len() as int)) {
            (Some(a), Some(b)) => Some(Range::Full(a, b)),
            _ => None,
        }
    } else {
        None
    }
}

fn find_dots(v: &Vec<char>, k: usize) -> (r: usize)
    requires
        k <= v@.len(),
    ensures
        r == dots_at(v@, k as int),
        k <= r <= v@.len(),
        r < v@.len() ==> r + 2 <= v@.len(),
{
    let n = v.len();
    let mut i: usize = k;
    while i < n && n - i >= 2
        invariant
            k <= i <= n,
            n == v@.len(),
            dots_at(v@, k as int) == dots_at(v@, i as int),
        decreases n - i,
    {
        if v[i] == '.' && v[i + 1] == '.' {
            return i;
        }
        i = i + 1;
    }
    n
}

/// A closed slice parameter `$a..b`.
pub fn slice_full(slice: &str) -> (r: Option<Token>)
    ensures
        r matches Some(t) ==> full_slice(slice@) is Some && t@ == TokenV::Parameter(full_slice(slice@)->Some_0),
        r is None ==> full_slice(slice@) is None,
{
    let v = chars_of(slice);
    let n = v.len();
    if n < 1 {
        return None;
    }
    let d = find_dots(&v, 1);
    if d >= n {
        return None;
    }
    match (index_at(&v, 1, d), index_at(&v, d + 2, n)) {
        (Some(a), Some(b)) => Some(Token::Parameter(Range::Full(a, b))),
        _ => None,
    }
}

/// The bound of an open slice `$a..` or `$..b`: the number after the `$`
/// once the dots are taken out.
pub open spec fn open_bound(s: Seq<char>) -> Option<usize> {
    let w = without(s, '.');
    if w.len() >= 1 {
        index_of(w, 1, w.len() as int)
    } else {
        None
    }
}

/// An open slice parameter `$a..`: positions `a` to the bottom of the stack.
pub fn slice_to(slice: &str) -> (r: Option<Token>)
    ensures
        r matches Some(t) ==> open_bound(slice@) is Some && t@ == TokenV::Parameter(Range::To(open_bound(slice@)->Some_0)),
        r is None ==> open_bound(slice@) is None,
{
    let w = chars_of(container_dots(slice).as_str());
    let n = w.len();
    if n < 1 {
        return None;
    }
    match index_at(&w, 1, n) {
        Some(a) => Some(Token::Parameter(Range::To(a))),
        None => None,
    }
}

/// An open slice parameter `$..b`: positions from the top of the stack up to `b`.
pub fn slice_from(slice: &str) -> (r: Option<Token>)
    ensures
        r matches Some(t) ==> open_bound(slice@) is Some && t@ == TokenV::Parameter(Range::From(open_bound(slice@)->Some_0)),
        r is None ==> open_bound(slice@) is None,
{
    let w = chars_of(container_dots(slice).as_str());
    let n = w.len();
    if n < 1 {
        return None;
    }
    match index_at(&w, 1, n) {
        Some(b) => Some(Token::Parameter(Range::From(b))),
        None => None,
    }
}

/// The text without its dots.
fn container_dots(slice: &str) -> (r: String)
    ensures
        r@ == without(slice@, '.'),
{
    let v = chars_of(slice);
    let mut out: Vec<char> = Vec::new();
    let mut i: usize = 0;
    assert(v@.take(0) =~= Seq::<char>::empty());
    while i < v.len()
        invariant
            i <= v@.len(),
            out@ == without(v@.take(i as int), '.'),
        decreases v@.len() - i,
    {
        assert(v@.take(i + 1).drop_last() =~= v@.take(i as int));
        if v[i] != '.' {
            out.push(v[i]);
        }
        i = i + 1;
    }
    assert(v@.take(v@.len() as int) =~= v@);
    string_of(&out)
}

/// Character classes of the runs the guard surface is built from.
pub open spec fn in_class(c: char, class: u8) -> bool {
    if class == 0 {
        ('a' <= c <= 'z') || ('A' <= c <= 'Z')
    } else if class == 1 {
        is_digit(c)
    } else {
        c == ' '
    }
}

/// Length of the run of `class` characters at `k`.
pub open spec fn class_run(s: Seq<char>, k: int, class: u8) -> nat
    decreases s.len() - k,
{
    if 0 <= k < s.len() && in_class(s[k], class) {
        1 + class_run(s, k + 1, class)
    } else {
        0
    }
}

/// Whether the text `lit` stands at position `k` of `s`.
pub open spec fn at(s: Seq<char>, k: int, lit: Seq<char>) -> bool {
    0 <= k && k + lit.len() <= s.len() && s.subrange(k, k + lit.len()) == lit
}

fn of_class(c: char, class: u8) -> (r: bool)
    ensures
        r == in_class(c, class),
{
    if class == 0 {
        ('a' <= c && c <= 'z') || ('A' <= c && c <= 'Z')
    } else if class == 1 {
        '0' <= c && c <= '9'
    } else {
        c == ' '
    }
}

fn run_of(v: &Vec<char>, k: usize, class: u8) -> (r: usize)
    requires
        k <= v@.len(),
    ensures
        r == class_run(v@, k as int, class),
        k + r <= v@.len(),
{
    let n = v.len();
    let mut j: usize = k;
    while j < n && of_class(v[j], class)
        invariant
            k <= j <= n,
            n == v@.len(),
            class_run(v@, k as int, class) == (j - k) + class_run(v@, j as int, class),
        decreases n - j,
    {
        j = j + 1;
    }
    j - k
}

fn matches_at(v: &Vec<char>, k: usize, lit: &Vec<char>) -> (r: bool)
    ensures
        r == at(v@, k as int, lit@),
{
    let n = v.len();
    let m = lit.len();
    if k > n || m > n - k {
        return false;
    }
    let mut i: usize = 0;
    while i < m
        invariant
            i <= m,
            m == lit@.len(),
            n == v@.len(),
            k + m <= n,
            forall|j: int| 0 <= j < i ==> v@[k + j] == lit@[j],
        decreases m - i,
    {
        if v[k + i] != lit[i] {
            assert(v@.subrange(k as int, k + m)[i as int] != lit@[i as int]);
            return false;
        }
        i = i + 1;
    }
    assert(v@.subrange(k as int, k + m) =~= lit@);
    true
}

fn lit(a: char, b: char, c: char, d: char, e: char, m: usize) -> (r: Vec<char>)
    requires
        1 <= m <= 5,
    ensures
        r@ == seq![a, b, c, d, e].take(m as int),
{
    let mut r: Vec<char> = Vec::new();
    r.push(a);
    if m > 1 {
        r.push(b);
    }
    if m > 2 {
        r.push(c);
    }
    if m > 3 {
        r.push(d);
    }
    if m > 4 {
        r.push(e);
    }
    assert(r@ =~= seq![a, b, c, d, e].take(m as int));
    r
}

/// The length of the match of pattern `p` at position `k`, 0 for none. The
/// patterns, in order of priority: boolean guard, guard option, assignment,
/// string, number, character, `TRUE`, `FALSE`, closed slice, slice from a
/// position, slice up to a position, atom, function name, function literal,
/// indentation, separator, newline.
pub open spec fn pattern_len(s: Seq<char>, k: int, p: u8) -> int {
    let n = s.len() as int;
    if p == 0 {
        if 0 <= k < n && in_class(s[k], 0) && at(s, k + 1, seq![' ', '<', '-', '|']) {
            5 + class_run(s, k + 5, 2) as int
        } else {
            0
        }
    } else if p == 1 {
        let l = class_run(s, k, 0) as int;
        if l > 0 && at(s, k + l, seq![' ', '-', '>', ' ']) {
            l + 4
        } else {
            0
        }
    } else if p == 2 {
        let l = class_run(s, k, 0) as int;
        if l > 0 && at(s, k + l, seq![' ', '<', '-']) {
            l + 3 + class_run(s, k + l + 3, 2) as int
        } else {
            0
        }
    } else if p == 3 {
        if 0 <= k < n && s[k] == '"' && crate::normalize::find_char(s, '"', k + 1) < n {
            crate::normalize::find_char(s, '"', k + 1) - k + 1
        } else {
            0
        }
    } else if p == 4 {
        let m: int = if 0 <= k < n && s[k] == '-' { 1 } else { 0 };
        let d = class_run(s, k + m, 1) as int;
        let f = class_run(s, k + m + d + 1, 1) as int;
        if d == 0 {
            0
        } else if at(s, k + m + d, seq!['.']) && f > 0 {
            m + d + 1 + f
        } else {
            m + d
        }
    } else if p == 5 {
        if 0 <= k && k + 3 <= n && s[k] == '\'' && s[k + 1] != '\n' && s[k + 2] == '\'' {
            3
        } else {
            0
        }
    } else if p == 6 {
        if at(s, k, seq!['T', 'R', 'U', 'E']) { 4 } else { 0 }
    } else if p == 7 {
        if at(s, k, seq!['F', 'A', 'L', 'S', 'E']) { 5 } else { 0 }
    } else if p == 8 {
        let a = class_run(s, k + 1, 1) as int;
        let b = class_run(s, k + a + 3, 1) as int;
        if at(s, k, seq!['$']) && a > 0 && at(s, k + 1 + a, seq!['.', '.']) && b > 0 {
            a + b + 3
        } else {
            0
        }
    } else if p == 9 {
        let a = class_run(s, k + 1, 1) as int;
        if at(s, k, seq!['$']) && a > 0 && at(s, k + 1 + a, seq!['.', '.']) {
            a + 3
        } else {
            0
        }
    } else if p == 10 {
        let b = class_run(s, k + 3, 1) as int;
        if at(s, k, seq!['$', '.', '.']) && b > 0 {
            b + 3
        } else {
            0
        }
    } else if p == 11 {
        if 0 <= k && k + 2 <= n && s[k] == ':' && in_class(s[k + 1], 0) { 2 } else { 0 }
    } else if p == 12 {
        class_run(s, k, 0) as int
    } else if p == 13 {
        let l = class_run(s, k + 1, 0) as int;
        if at(s, k, seq!['`']) && l > 0 && at(s, k + 1 + l, seq!['`']) {
            l + 2
        } else {
            0
        }
    } else if p == 14 {
        if at(s, k, seq!['\n', ' ', ' ']) { 3 } else { 0 }
    } else if p == 15 {
        if at(s, k, seq![' ']) { 1 } else { 0 }
    } else if p == 16 {
        if at(s, k, seq!['\n']) { 1 } else { 0 }
    } else {
        0
    }
}

fn pattern_len_at(v: &Vec<char>, k: usize, p: u8) -> (r: usize)
    requires
        k < v@.len(),
    ensures
        r as int == pattern_len(v@, k as int, p),
        k + r <= v@.len(),
{
    let n = v.len();
    if p == 0 {
        if of_class(v[k], 0) && matches_at(v, k + 1, &lit(' ', '<', '-', '|', ' ', 4)) {
            assert(seq![' ', '<', '-', '|', ' '].take(4) =~= seq![' ', '<', '-', '|']);
            5 + run_of(v, k + 5, 2)
        } else {
            assert(seq![' ', '<', '-', '|', ' '].take(4) =~= seq![' ', '<', '-', '|']);
            0
        }
    } else if p == 1 || p == 2 || p == 12 {
        let l = run_of(v, k, 0);
        if p == 12 {
            l
        } else if p == 1 {
            let hit = l > 0 && matches_at(v, k + l, &lit(' ', '-', '>', ' ', ' ', 4));
            assert(seq![' ', '-', '>', ' ', ' '].take(4) =~= seq![' ', '-', '>', ' ']);
            if hit { l + 4 } else { 0 }
        } else {
            let hit = l > 0 && matches_at(v, k + l, &lit(' ', '<', '-', ' ', ' ', 3));
            assert(seq![' ', '<', '-', ' ', ' '].take(3) =~= seq![' ', '<', '-']);
            if hit { l + 3 + run_of(v, k + l + 3, 2) } else { 0 }
        }
    } else if p == 3 {
        if v[k] == '"' {
            let mut q: usize = k + 1;
            while q < n && v[q] != '"'
                invariant
                    k < q <= n,
                    n == v@.len(),
                    crate::normalize::find_char(v@, '"', k + 1) == crate::normalize::find_char(v@, '"', q as int),
                decreases n - q,
            {
                q = q + 1;
            }
            if q < n { q - k + 1 } else { 0 }
        } else {
            0
        }
    } else if p == 4 {
        let m: usize = if v[k] == '-' { 1 } else { 0 };
        let d = run_of(v, k + m, 1);
        if d == 0 {
            0
        } else {
            let e = k + m + d;
            if e < n && v[e] == '.' {
                let f = run_of(v, e + 1, 1);
                assert(v@.subrange(e as int, e + 1) =~= seq!['.']);
                if f > 0 { m + d + 1 + f } else { m + d }
            } else {
                proof {
                    if e < n {
                        assert(v@.subrange(e as int, e + 1)[0] == v@[e as int]);
                    }
                }
                m + d
            }
        }
    } else if p == 5 {
        if n - k >= 3 && v[k] == '\'' && v[k + 1] != '\n' && v[k + 2] == '\'' { 3 } else { 0 }
    } else if p == 6 {
        let hit = matches_at(v, k, &lit('T', 'R', 'U', 'E', ' ', 4));
        assert(seq!['T', 'R', 'U', 'E', ' '].take(4) =~= seq!['T', 'R', 'U', 'E']);
        if hit { 4 } else { 0 }
    } else if p == 7 {
        let hit = matches_at(v, k, &lit('F', 'A', 'L', 'S', 'E', 5));
        assert(seq!['F', 'A', 'L', 'S', 'E'].take(5) =~= seq!['F', 'A', 'L', 'S', 'E']);
        if hit { 5 } else { 0 }
    } else if p == 8 || p == 9 {
        let dollar = matches_at(v, k, &lit('$', ' ', ' ', ' ', ' ', 1));
        assert(seq!['$', ' ', ' ', ' ', ' '].take(1) =~= seq!['$']);
        if !dollar {
            return 0;
        }
        let a = run_of(v, k + 1, 1);
        let dots = a > 0 && matches_at(v, k + 1 + a, &lit('.', '.', ' ', ' ', ' ', 2));
        assert(seq!['.', '.', ' ', ' ', ' '].take(2) =~= seq!['.', '.']);
        if !dots {
            return 0;
        }
        if p == 9 {
            return a + 3;
        }
        let b = run_of(v, k + a + 3, 1);
        if b > 0 { a + b + 3 } else { 0 }
    } else if p == 10 {
        let hit = matches_at(v, k, &lit('$', '.', '.', ' ', ' ', 3));
        assert(seq!['$', '.', '.', ' ', ' '].take(3) =~= seq!['$', '.', '.']);
        if !hit {
            return 0;
        }
        let b = run_of(v, k + 3, 1);
        if b > 0 { b + 3 } else { 0 }
    } else if p == 11 {
        if n - k >= 2 && v[k] == ':' && of_class(v[k + 1], 0) { 2 } else { 0 }
    } else if p == 13 {
        let tick = matches_at(v, k, &lit('`', ' ', ' ', ' ', ' ', 1));
        assert(seq!['`', ' ', ' ', ' ', ' '].take(1) =~= seq!['`']);
        if !tick {
            return 0;
        }
        let l = run_of(v, k + 1, 0);
        let close = l > 0 && matches_at(v, k + 1 + l, &lit('`', ' ', ' ', ' ', ' ', 1));
        if close { l + 2 } else { 0 }
    } else if p == 14 {
        let hit = matches_at(v, k, &lit('\n', ' ', ' ', ' ', ' ', 3));
        assert(seq!['\n', ' ', ' ', ' ', ' '].take(3) =~= seq!['\n', ' ', ' ']);
        if hit { 3 } else { 0 }
    } else if p == 15 {
        let hit = matches_at(v, k, &lit(' ', ' ', ' ', ' ', ' ', 1));
        assert(seq![' ', ' ', ' ', ' ', ' '].take(1) =~= seq![' ']);
        if hit { 1 } else { 0 }
    } else if p == 16 {
        let hit = matches_at(v, k, &lit('\n', ' ', ' ', ' ', ' ', 1));
        assert(seq!['\n', ' ', ' ', ' ', ' '].take(1) =~= seq!['\n']);
        if hit { 1 } else { 0 }
    } else {
        0
    }
}

/// The longest match among patterns `p` and after, starting from `acc`; the
/// earlier pattern wins a tie.
pub open spec fn best_from(s: Seq<char>, k: int, p: u8, acc: (u8, int)) -> (u8, int)
    decreases 17 - p,
{
    if p >= 17 {
        acc
    } else {
        let l = pattern_len(s, k, p);
        best_from(s, k, (p + 1) as u8, if l > acc.1 { (p, l) } else { acc })
    }
}

/// The pattern that matches at `k` and the length of its match; pattern 17,
/// with length 0, when none does.
pub open spec fn pick(s: Seq<char>, k: int) -> (u8, int) {
    best_from(s, k, 0, (17, 0))
}

/// The value of a guard-surface token.
pub enum LexV {
    BooleanGuard(Seq<char>),
    GuardOption(Seq<char>),
    Assignment(Seq<char>),
    Token(TokenV),
    Function(Seq<char>),
    FunctionLiteral(Seq<char>),
    Indent,
    Seperator,
    Newline,
    Error,
}

pub open spec fn lexer_view(t: LexerToken) -> LexV {
    match t {
        LexerToken::BooleanGuard(x) => LexV::BooleanGuard(x@),
        LexerToken::GuardOption(x) => LexV::GuardOption(x@),
        LexerToken::Assignment(x) => LexV::Assignment(x@),
        LexerToken::Token(x) => LexV::Token(x@),
        LexerToken::Function(x) => LexV::Function(x@),
        LexerToken::FunctionLiteral(x) => LexV::FunctionLiteral(x@),
        LexerToken::Indent => LexV::Indent,
        LexerToken::Seperator => LexV::Seperator,
        LexerToken::Newline => LexV::Newline,
        LexerToken::Error => LexV::Error,
    }
}

/// The token that pattern `kind` makes of the `len` characters at `k`.
pub open spec fn token_for(kind: u8, s: Seq<char>, k: int, len: int) -> LexV {
    let sl = s.subrange(k, k + len);
    if kind == 0 {
        LexV::BooleanGuard(s.subrange(k, k + 1))
    } else if kind == 1 {
        LexV::GuardOption(sl.take(len - 4))
    } else if kind == 2 {
        LexV::Assignment(s.subrange(k, k + class_run(s, k, 0)))
    } else if kind == 3 {
        LexV::Token(TokenV::Group(char_tokens(sl.subrange(1, len - 1))))
    } else if kind == 4 {
        match decimal_of(sl) {
            Some(n) => LexV::Token(TokenV::Value(n)),
            None => LexV::Error,
        }
    } else if kind == 5 {
        LexV::Token(TokenV::Char(sl[1]))
    } else if kind == 6 {
        LexV::Token(TokenV::Value(Number { negative: false, magnitude: 1, scale: 0 }))
    } else if kind == 7 {
        LexV::Token(TokenV::Value(Number { negative: false, magnitude: 0, scale: 0 }))
    } else if kind == 8 {
        match full_slice(sl) {
            Some(r) => LexV::Token(TokenV::Parameter(r)),
            None => LexV::Error,
        }
    } else if kind == 9 {
        match open_bound(sl) {
            Some(b) => LexV::Token(TokenV::Parameter(Range::To(b))),
            None => LexV::Error,
        }
    } else if kind == 10 {
        match open_bound(sl) {
            Some(b) => LexV::Token(TokenV::Parameter(Range::From(b))),
            None => LexV::Error,
        }
    } else if kind == 11 {
        LexV::Token(TokenV::Atom(sl.subrange(1, 2)))
    } else if kind == 12 {
        LexV::Function(sl)
    } else if kind == 13 {
        LexV::FunctionLiteral(without(sl, '`'))
    } else if kind == 14 {
        LexV::Indent
    } else if kind == 15 {
        LexV::Seperator
    } else if kind == 16 {
        LexV::Newline
    } else {
        LexV::Error
    }
}

/// The tokens of `s` from position `k`: at each position the longest match,
/// or one character as an error token when nothing matches.
pub open spec fn lexed(s: Seq<char>, k: int) -> Seq<LexV>
    decreases s.len() - k,
{
    if k < 0 || k >= s.len() {
        seq![]
    } else {
        let step = if 0 < pick(s, k).1 <= s.len() - k { pick(s, k).1 } else { 1 };
        seq![token_for(pick(s, k).0, s, k, step)] + lexed(s, k + step)
    }
}

fn pick_at(v: &Vec<char>, k: usize) -> (r: (u8, usize))
    requires
        k < v@.len(),
    ensures
        pick(v@, k as int) == (r.0, r.1 as int),
        k + r.1 <= v@.len(),
{
    let mut best: (u8, usize) = (17, 0);
    let mut p: u8 = 0;
    while p < 17
        invariant
            p <= 17,
            k < v@.len(),
            k + best.1 <= v@.len(),
            pick(v@, k as int) == best_from(v@, k as int, p, (best.0, best.1 as int)),
        decreases 17 - p,
    {
        let l = pattern_len_at(v, k, p);
        if l > best.1 {
            best = (p, l);
        }
        p = p + 1;
    }
    best
}

fn piece_string(v: &Vec<char>, lo: usize, hi: usize) -> (r: String)
    requires
        lo <= hi <= v@.len(),
    ensures
        r@ == v@.subrange(lo as int, hi as int),
{
    let mut piece: Vec<char> = Vec::new();
    crate::text::extend_chars(&mut piece, v, lo, hi);
    assert(piece@ =~= v@.subrange(lo as int, hi as int));
    string_of(&piece)
}

proof fn lemma_best_from(s: Seq<char>, k: int, p: u8, acc: (u8, int))
    requires
        p <= 17,
        acc.0 <= 17,
        acc.0 < 17 ==> acc.1 == pattern_len(s, k, acc.0) && acc.1 > 0,
        acc.0 == 17 ==> acc.1 == 0,
    ensures
        best_from(s, k, p, acc).0 <= 17,
        best_from(s, k, p, acc).0 < 17 ==> best_from(s, k, p, acc).1 == pattern_len(s, k, best_from(s, k, p, acc).0)
            && best_from(s, k, p, acc).1 > 0,
        best_from(s, k, p, acc).0 == 17 ==> best_from(s, k, p, acc).1 == 0,
    decreases 17 - p,
{
    if p < 17 {
        let l = pattern_len(s, k, p);
        lemma_best_from(s, k, (p + 1) as u8, if l > acc.1 { (p, l) } else { acc });
    }
}

fn token_at(v: &Vec<char>, k: usize, kind: u8, len: usize) -> (r: LexerToken)
    requires
        k < k + len <= v@.len(),
        kind <= 17,
        kind < 17 ==> len as int == pattern_len(v@, k as int, kind),
    ensures
        lexer_view(r) == token_for(kind, v@, k as int, len as int),
{
    let n = v.len();
    let sub = piece_string(v, k, k + len);
    let ghost sl = v@.subrange(k as int, k + len);
    if kind == 0 {
        LexerToken::BooleanGuard(piece_string(v, k, k + 1))
    } else if kind == 1 {
        LexerToken::GuardOption(guard_option(sub.as_str()))
    } else if kind == 2 {
        let l = run_of(v, k, 0);
        LexerToken::Assignment(piece_string(v, k, k + l))
    } else if kind == 3 {
        proof {
            crate::normalize::lemma_find_char(v@, '"', k + 1);
        }
        LexerToken::Token(string(sub.as_str()))
    } else if kind == 4 {
        let mut piece: Vec<char> = Vec::new();
        crate::text::extend_chars(&mut piece, v, k, k + len);
        assert(piece@ =~= sl);
        match parse_number(&piece) {
            Some(n) => LexerToken::Token(Token::Value(n)),
            None => LexerToken::Error,
        }
    } else if kind == 5 {
        let c = v[k + 1];
        proof {
            crate::models::lemma_char_view(c);
        }
        LexerToken::Token(char_token(c))
    } else if kind == 6 {
        LexerToken::Token(Token::Value(Number { negative: false, magnitude: 1, scale: 0 }))
    } else if kind == 7 {
        LexerToken::Token(Token::Value(Number { negative: false, magnitude: 0, scale: 0 }))
    } else if kind == 8 {
        match slice_full(sub.as_str()) {
            Some(t) => LexerToken::Token(t),
            None => LexerToken::Error,
        }
    } else if kind == 9 {
        match slice_to(sub.as_str()) {
            Some(t) => LexerToken::Token(t),
            None => LexerToken::Error,
        }
    } else if kind == 10 {
        match slice_from(sub.as_str()) {
            Some(t) => LexerToken::Token(t),
            None => LexerToken::Error,
        }
    } else if kind == 11 {
        let name = piece_string(v, k + 1, k + 2);
        assert(sl.subrange(1, 2) =~= v@.subrange(k + 1, k + 2));
        LexerToken::Token(Token::Atom(name))
    } else if kind == 12 {
        LexerToken::Function(sub)
    } else if kind == 13 {
        LexerToken::FunctionLiteral(container_literal(sub.as_str()))
    } else if kind == 14 {
        LexerToken::Indent
    } else if kind == 15 {
        LexerToken::Seperator
    } else if kind == 16 {
        LexerToken::Newline
    } else {
        LexerToken::Error
    }
}

/// The values of a sequence of guard-surface tokens.
pub open spec fn lexer_views(s: Seq<LexerToken>) -> Seq<LexV> {
    s.map_values(|t: LexerToken| lexer_view(t))
}

/// Splits a text of the guard/assignment surface into tokens: at each
/// position the longest pattern match, the earlier pattern on a tie;
/// a character that starts no match becomes an error token and lexing goes on.
pub fn lex(text: &str) -> (r: Vec<LexerToken>)
    ensures
        lexer_views(r@) == lexed(text@, 0),
{
    let v = chars_of(text);
    let ghost s = v@;
    let n = v.len();
    let mut out: Vec<LexerToken> = Vec::new();
    let mut i: usize = 0;
    assert(forall|x: Seq<LexV>| lexer_views(out@) + x =~= x);
    while i < n
        invariant
            i <= n,
            n == v@.len(),
            s == v@,
            s == text@,
            lexed(s, 0) == lexer_views(out@) + lexed(s, i as int),
        decreases n - i,
    {
        let (kind, l) = pick_at(&v, i);
        proof {
            lemma_best_from(s, i as int, 0, (17, 0));
        }
        let step: usize = if l > 0 { l } else { 1 };
        let t = token_at(&v, i, kind, step);
        let ghost prev = lexer_views(out@);
        out.push(t);
        proof {
            assert(lexer_views(out@) =~= prev.push(lexer_view(t)));
            assert(lexed(s, i as int) == seq![lexer_view(t)] + lexed(s, i + step));
            assert(prev + (seq![lexer_view(t)] + lexed(s, i + step)) =~= prev.push(lexer_view(t)) + lexed(s, i + step));
        }
        i = i + step;
    }
    assert(lexer_views(out@) + lexed(s, n as int) =~= lexer_views(out@));
    out
}

} // verus!
