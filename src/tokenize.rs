use vstd::prelude::*;
use crate::models::{tokens_view, FunctionId, Number, Range, Token, TokenV, WSection};
use crate::normalize::find_char;
use crate::text::{chars_of, string_of};

verus! {

/// The table of built-in functions: a function's identifier is the position of
/// its name.
pub struct Registry {
    pub names: Vec<String>,
}

impl Registry {
    pub open spec fn names_view(&self) -> Seq<Seq<char>> {
        self.names@.map_values(|s: String| s@)
    }
}

/// Why a program text could not be tokenized.
#[derive(Clone, Debug, PartialEq)]
pub enum LexError {
    /// A backtick-quoted function literal names no registered function.
    UnresolvedFunctionLiteral(String),
}

/// The first position of `name` in `names`.
pub open spec fn lookup_from(names: Seq<Seq<char>>, name: Seq<char>, k: int) -> Option<FunctionId>
    decreases names.len() - k,
{
    if k < 0 || k >= names.len() {
        None
    } else if names[k] == name {
        Some(k as usize)
    } else {
        lookup_from(names, name, k + 1)
    }
}

pub open spec fn is_digit(c: char) -> bool {
    '0' <= c <= '9'
}

pub open spec fn all_digits(s: Seq<char>) -> bool {
    forall|i: int| 0 <= i < s.len() ==> is_digit(#[trigger] s[i])
}

/// The value of a string of decimal digits.
pub open spec fn digits_val(s: Seq<char>) -> nat
    decreases s.len(),
{
    if s.len() == 0 {
        0
    } else {
        digits_val(s.drop_last()) * 10 + (s.last() as nat - '0' as nat) as nat
    }
}

/// The literal `-?digits(.digits)?`, when its digits fit the number's fields.
pub open spec fn decimal_of(s: Seq<char>) -> Option<Number> {
    let neg = s.len() > 0 && s[0] == '-';
    let body = if neg { s.drop_first() } else { s };
    let d = find_char(body, '.', 0);
    let ip = body.take(d);
    let fp = if d < body.len() { body.skip(d + 1) } else { Seq::<char>::empty() };
    if ip.len() > 0 && all_digits(ip) && (d == body.len() || (fp.len() > 0 && all_digits(fp)))
        && digits_val(ip + fp) <= u64::MAX && fp.len() <= u32::MAX {
        Some(Number { negative: neg, magnitude: digits_val(ip + fp) as u64, scale: fp.len() as u32 })
    } else {
        None
    }
}

/// `s` with its newline characters taken out.
pub open spec fn strip_newlines(s: Seq<char>) -> Seq<char>
    decreases s.len(),
{
    if s.len() == 0 {
        s
    } else if s.last() == '\n' {
        strip_newlines(s.drop_last())
    } else {
        strip_newlines(s.drop_last()).push(s.last())
    }
}

/// The index that `#digits` names, when it fits a `usize`.
pub open spec fn parameter_index(p: Seq<char>) -> Option<usize> {
    if p.len() > 1 && p[0] == '#' && all_digits(p.drop_first()) && digits_val(p.drop_first()) <= usize::MAX {
        Some(digits_val(p.drop_first()) as usize)
    } else {
        None
    }
}

pub open spec fn is_structural(p: Seq<char>) -> bool {
    p == seq!['('] || p == seq![')'] || p == seq!['{'] || p == seq!['}']
}

/// The token that one space-delimited piece of code stands for, or the name of
/// an unresolved function literal.
pub open spec fn classify(piece: Seq<char>, containers: Seq<Seq<char>>, names: Seq<Seq<char>>) -> Result<TokenV, Seq<char>> {
    let p = strip_newlines(piece);
    if decimal_of(piece) is Some {
        Ok(TokenV::Value(decimal_of(piece)->Some_0))
    } else if containers.contains(p) {
        Ok(TokenV::Container(p))
    } else if parameter_index(p) is Some {
        Ok(TokenV::Parameter(Range::Exact(parameter_index(p)->Some_0)))
    } else if p == seq!['#', 'n'] {
        Ok(TokenV::Parameter(Range::To(0)))
    } else if p.len() > 2 && p[0] == '`' && p.last() == '`' {
        let inner = p.subrange(1, p.len() - 1);
        match lookup_from(names, inner, 0) {
            Some(id) => Ok(TokenV::FunctionLiteral(id)),
            None => Err(inner),
        }
    } else if is_structural(p) {
        Ok(TokenV::Special(p))
    } else if p.len() == 3 && p[0] == '\'' && p[2] == '\'' {
        Ok(TokenV::Char(p[1]))
    } else {
        match lookup_from(names, p, 0) {
            Some(id) => Ok(TokenV::Function(id)),
            None => Ok(TokenV::Atom(piece)),
        }
    }
}

/// `r` with `p` put in front of its tokens.
pub open spec fn prepend(p: Seq<TokenV>, r: Result<Seq<TokenV>, Seq<char>>) -> Result<Seq<TokenV>, Seq<char>> {
    match r {
        Ok(t) => Ok(p + t),
        Err(e) => Err(e),
    }
}

/// The tokens of a line of code: its non-empty space-delimited pieces,
/// classified in order; the first unresolved function literal is the error.
pub open spec fn code_tokens(s: Seq<char>, containers: Seq<Seq<char>>, names: Seq<Seq<char>>) -> Result<Seq<TokenV>, Seq<char>>
    decreases s.len(),
{
    if s.len() == 0 {
        Ok(seq![])
    } else {
        let k = find_char(s, ' ', 0);
        let rest = if k < s.len() { s.skip(k + 1) } else { Seq::<char>::empty() };
        if k == 0 {
            code_tokens(rest, containers, names)
        } else if 0 < k <= s.len() {
            match classify(s.take(k), containers, names) {
                Err(e) => Err(e),
                Ok(t) => prepend(seq![t], code_tokens(rest, containers, names)),
            }
        } else {
            Ok(seq![])
        }
    }
}

/// The names of a list of strings.
pub open spec fn names_of(v: Seq<String>) -> Seq<Seq<char>> {
    v.map_values(|s: String| s@)
}

fn same_chars(a: &Vec<char>, b: &Vec<char>) -> (r: bool)
    ensures
        r == (a@ == b@),
{
    if a.len() != b.len() {
        return false;
    }
    let mut i: usize = 0;
    while i < a.len()
        invariant
            i <= a@.len(),
            a@.len() == b@.len(),
            forall|j: int| 0 <= j < i ==> a@[j] == b@[j],
        decreases a@.len() - i,
    {
        if a[i] != b[i] {
            return false;
        }
        i = i + 1;
    }
    assert(a@ =~= b@);
    true
}

fn position_in(names: &Vec<String>, name: &Vec<char>) -> (r: Option<usize>)
    ensures
        r == lookup_from(names_of(names@), name@, 0),
{
    let ghost ns = names_of(names@);
    let mut k: usize = 0;
    while k < names.len()
        invariant
            k <= names@.len(),
            ns == names_of(names@),
            lookup_from(ns, name@, 0) == lookup_from(ns, name@, k as int),
        decreases names@.len() - k,
    {
        let candidate = chars_of(names[k].as_str());
        if same_chars(&candidate, name) {
            return Some(k);
        }
        k = k + 1;
    }
    None
}

impl Registry {
    /// The identifier of the function called `name`.
    pub fn lookup(&self, name: &str) -> (r: Option<FunctionId>)
        ensures
            r == lookup_from(self.names_view(), name@, 0),
    {
        let v = chars_of(name);
        position_in(&self.names, &v)
    }
}

pub(crate) proof fn lemma_digits_prefix(w: Seq<char>, i: int)
    requires
        0 <= i <= w.len(),
    ensures
        digits_val(w.take(i)) <= digits_val(w),
    decreases w.len(),
{
    if i < w.len() {
        lemma_digits_prefix(w.drop_last(), i);
        assert(w.drop_last().take(i) =~= w.take(i));
    } else {
        assert(w.take(i) =~= w);
    }
}

/// The value of a string of digits, when it is one and fits a `u64`.
fn parse_digits(w: &Vec<char>) -> (r: Option<u64>)
    ensures
        r is Some <==> all_digits(w@) && digits_val(w@) <= u64::MAX,
        r matches Some(m) ==> m == digits_val(w@),
{
    let mut m: u64 = 0;
    let mut i: usize = 0;
    assert(w@.take(0) =~= Seq::<char>::empty());
    while i < w.len()
        invariant
            i <= w@.len(),
            m == digits_val(w@.take(i as int)),
            all_digits(w@.take(i as int)),
        decreases w@.len() - i,
    {
        let c = w[i];
        assert(w@.take(i + 1).drop_last() =~= w@.take(i as int));
        if c < '0' || c > '9' {
            assert(!is_digit(w@[i as int]));
            return None;
        }
        let d: u64 = (c as u32 - '0' as u32) as u64;
        if m > (u64::MAX - d) / 10 {
            proof {
                assert(m * 10 + d > u64::MAX) by (nonlinear_arith)
                    requires
                        m > (u64::MAX - d) / 10,
                        d <= 9,
                ;
                if all_digits(w@) {
                    lemma_digits_prefix(w@, i + 1);
                }
            }
            return None;
        }
        assert(m * 10 + d <= u64::MAX) by (nonlinear_arith)
            requires
                m <= (u64::MAX - d) / 10,
                d <= 9,
        ;
        m = m * 10 + d;
        i = i + 1;
        assert(all_digits(w@.take(i as int))) by {
            assert forall|j: int| 0 <= j < i implies is_digit(#[trigger] w@.take(i as int)[j]) by {
                if j < i - 1 {
                    assert(w@.take(i as int)[j] == w@.take(i - 1)[j]);
                }
            }
        }
    }
    assert(w@.take(w@.len() as int) =~= w@);
    Some(m)
}

/// Parses the decimal literal `-?digits(.digits)?`.
pub fn parse_number(v: &Vec<char>) -> (r: Option<Number>)
    ensures
        r == decimal_of(v@),
{
    let ghost s = v@;
    let n = v.len();
    let neg = n > 0 && v[0] == '-';
    let start: usize = if neg { 1 } else { 0 };
    let ghost body = if neg { s.drop_first() } else { s };
    let mut d: usize = start;
    while d < n && v[d] != '.'
        invariant
            start <= d <= n,
            n == v@.len(),
            forall|j: int| start <= j < d ==> v@[j] != '.',
        decreases n - d,
    {
        d = d + 1;
    }
    proof {
        assert(body =~= s.skip(start as int));
        assert(forall|j: int| 0 <= j < d - start ==> body[j] != '.');
        assert(find_char(body, '.', 0) == d - start) by {
            lemma_find_from(body, '.', 0, d - start);
        }
    }
    let mut digits: Vec<char> = Vec::new();
    crate::text::extend_chars(&mut digits, v, start, d);
    let ilen = d - start;
    let flen: usize = if d < n { n - d - 1 } else { 0 };
    if d < n {
        crate::text::extend_chars(&mut digits, v, d + 1, n);
    }
    let ghost ip = body.take(d - start);
    let ghost fp = if d - start < body.len() { body.skip(d - start + 1) } else { Seq::<char>::empty() };
    assert(ip =~= s.subrange(start as int, d as int));
    proof {
        if d < n {
            assert(fp =~= s.subrange(d + 1, n as int));
        } else {
            assert(fp =~= s.subrange(n as int, n as int));
        }
    }
    assert(digits@ =~= ip + fp);
    if ilen == 0 || (d < n && flen == 0) {
        return None;
    }
    match parse_digits(&digits) {
        None => {
            proof {
                if all_digits(ip) && all_digits(fp) {
                    assert(all_digits(ip + fp));
                }
            }
            None
        },
        Some(m) => {
            if flen > u32::MAX as usize {
                return None;
            }
            proof {
                assert(all_digits(ip)) by {
                    assert forall|j: int| 0 <= j < ip.len() implies is_digit(#[trigger] ip[j]) by {
                        assert(ip[j] == (ip + fp)[j]);
                    }
                }
                assert(all_digits(fp)) by {
                    assert forall|j: int| 0 <= j < fp.len() implies is_digit(#[trigger] fp[j]) by {
                        assert(fp[j] == (ip + fp)[ip.len() + j]);
                    }
                }
            }
            Some(Number { negative: neg, magnitude: m, scale: flen as u32 })
        },
    }
}

proof fn lemma_find_from(s: Seq<char>, c: char, k: int, e: int)
    requires
        0 <= k <= e <= s.len(),
        forall|j: int| k <= j < e ==> s[j] != c,
        e == s.len() || s[e] == c,
    ensures
        find_char(s, c, k) == e,
    decreases e - k,
{
    if k < e {
        lemma_find_from(s, c, k + 1, e);
    }
}

fn strip_newline_chars(v: &Vec<char>) -> (r: Vec<char>)
    ensures
        r@ == strip_newlines(v@),
{
    let mut out: Vec<char> = Vec::new();
    let mut i: usize = 0;
    assert(v@.take(0) =~= Seq::<char>::empty());
    while i < v.len()
        invariant
            i <= v@.len(),
            out@ == strip_newlines(v@.take(i as int)),
        decreases v@.len() - i,
    {
        assert(v@.take(i + 1).drop_last() =~= v@.take(i as int));
        if v[i] != '\n' {
            out.push(v[i]);
        }
        i = i + 1;
    }
    assert(v@.take(v@.len() as int) =~= v@);
    out
}

fn contains_name(names: &Vec<String>, name: &Vec<char>) -> (r: bool)
    ensures
        r == names_of(names@).contains(name@),
{
    let ghost ns = names_of(names@);
    let mut k: usize = 0;
    while k < names.len()
        invariant
            k <= names@.len(),
            ns == names_of(names@),
            forall|j: int| 0 <= j < k ==> ns[j] != name@,
        decreases names@.len() - k,
    {
        let candidate = chars_of(names[k].as_str());
        if same_chars(&candidate, name) {
            assert(ns[k as int] == name@);
            return true;
        }
        k = k + 1;
    }
    false
}

fn is_structural_chars(p: &Vec<char>) -> (r: bool)
    ensures
        r == is_structural(p@),
{
    if p.len() == 1 {
        let c = p[0];
        proof {
            assert(p@ =~= seq![c]);
        }
        c == '(' || c == ')' || c == '{' || c == '}'
    } else {
        proof {
            assert(p@ != seq!['(']);
            assert(seq!['('].len() == 1 && seq![')'].len() == 1 && seq!['{'].len() == 1 && seq!['}'].len() == 1);
        }
        false
    }
}

/// Classifies one space-delimited piece of code against the containers
/// declared so far and the function registry.
pub fn classify_piece(piece: &Vec<char>, containers: &Vec<String>, registry: &Registry) -> (r: Result<Token, LexError>)
    ensures
        r matches Ok(t) ==> classify(piece@, names_of(containers@), registry.names_view()) == Ok::<TokenV, Seq<char>>(t@),
        r matches Err(LexError::UnresolvedFunctionLiteral(name)) ==> classify(piece@, names_of(containers@), registry.names_view()) == Err::<TokenV, Seq<char>>(name@),
{
    if let Some(n) = parse_number(piece) {
        return Ok(Token::Value(n));
    }
    let p = strip_newline_chars(piece);
    if contains_name(containers, &p) {
        return Ok(Token::Container(string_of(&p)));
    }
    let len = p.len();
    if len > 1 && p[0] == '#' {
        let mut digits: Vec<char> = Vec::new();
        crate::text::extend_chars(&mut digits, &p, 1, len);
        assert(digits@ =~= p@.drop_first());
        if let Some(m) = parse_digits(&digits) {
            if m <= usize::MAX as u64 {
                return Ok(Token::Parameter(Range::Exact(m as usize)));
            }
        }
    }
    assert(parameter_index(p@) is None);
    if len == 2 && p[0] == '#' && p[1] == 'n' {
        assert(p@ =~= seq!['#', 'n']);
        return Ok(Token::Parameter(Range::To(0)));
    }
    assert(p@ != seq!['#', 'n'] ) by {
        if p@ == seq!['#', 'n'] {
            assert(p@[0] == '#' && p@[1] == 'n');
        }
    }
    if len > 2 && p[0] == '`' && p[len - 1] == '`' {
        let mut inner: Vec<char> = Vec::new();
        crate::text::extend_chars(&mut inner, &p, 1, len - 1);
        return match position_in(&registry.names, &inner) {
            Some(id) => Ok(Token::FunctionLiteral(id)),
            None => Err(LexError::UnresolvedFunctionLiteral(string_of(&inner))),
        };
    }
    if is_structural_chars(&p) {
        return Ok(Token::Special(string_of(&p)));
    }
    if len == 3 && p[0] == '\'' && p[2] == '\'' {
        let c = p[1];
        let t = Token::Char(c);
        proof {
            crate::models::lemma_char_view(c);
        }
        assert(!is_structural(p@));
        assert(p@[0] != '`');
        assert(decimal_of(piece@) is None);
        return Ok(t);
    }
    match position_in(&registry.names, &p) {
        Some(id) => Ok(Token::Function(id)),
        None => Ok(Token::Atom(string_of(piece))),
    }
}

fn find_space(v: &Vec<char>, k: usize) -> (r: usize)
    requires
        k <= v@.len(),
    ensures
        k <= r <= v@.len(),
        r < v@.len() ==> v@[r as int] == ' ',
        forall|m: int| k <= m < r ==> v@[m] != ' ',
{
    let mut j: usize = k;
    while j < v.len() && v[j] != ' '
        invariant
            k <= j <= v@.len(),
            forall|m: int| k <= m < j ==> v@[m] != ' ',
        decreases v@.len() - j,
    {
        j = j + 1;
    }
    j
}

/// Tokenizes one line of code: each non-empty piece between single spaces
/// becomes a token, classified against the containers declared so far and
/// the registry.
pub fn tokenize_code(code: &Vec<char>, containers: &Vec<String>, registry: &Registry) -> (r: Result<Vec<Token>, LexError>)
    ensures
        r matches Ok(t) ==> code_tokens(code@, names_of(containers@), registry.names_view()) == Ok::<Seq<TokenV>, Seq<char>>(tokens_view(t@)),
        r matches Err(LexError::UnresolvedFunctionLiteral(name)) ==> code_tokens(code@, names_of(containers@), registry.names_view()) == Err::<Seq<TokenV>, Seq<char>>(name@),
{
    let ghost s = code@;
    let ghost cs = names_of(containers@);
    let ghost ns = registry.names_view();
    let n = code.len();
    let mut out: Vec<Token> = Vec::new();
    let mut i: usize = 0;
    assert(s.skip(0) =~= s);
    assert(forall|x: Seq<TokenV>| Seq::<TokenV>::empty() + x =~= x);
    while i < n
        invariant
            i <= n,
            n == code@.len(),
            s == code@,
            cs == names_of(containers@),
            ns == registry.names_view(),
            code_tokens(s, cs, ns) == prepend(tokens_view(out@), code_tokens(s.skip(i as int), cs, ns)),
        decreases n - i,
    {
        let ghost rest = s.skip(i as int);
        let j = find_space(code, i);
        proof {
            lemma_find_from(rest, ' ', 0, j - i);
        }
        let next: usize = if j < n { j + 1 } else { n };
        proof {
            if j < n {
                assert(rest.skip(j - i + 1) =~= s.skip(next as int));
            } else {
                assert(s.skip(next as int) =~= Seq::<char>::empty());
            }
        }
        if j > i {
            let mut piece: Vec<char> = Vec::new();
            crate::text::extend_chars(&mut piece, code, i, j);
            assert(piece@ =~= rest.take(j - i));
            match classify_piece(&piece, containers, registry) {
                Err(e) => {
                    return Err(e);
                },
                Ok(t) => {
                    let ghost prev = tokens_view(out@);
                    out.push(t);
                    proof {
                        assert(tokens_view(out@) =~= prev + seq![t@]);
                        let x = code_tokens(s.skip(next as int), cs, ns);
                        match x {
                            Ok(y) => {
                                assert(prev + (seq![t@] + y) =~= (prev + seq![t@]) + y);
                            },
                            Err(_) => {},
                        }
                    }
                },
            }
        }
        i = next;
    }
    assert(s.skip(n as int) =~= Seq::<char>::empty());
    assert(tokens_view(out@) + Seq::<TokenV>::empty() =~= tokens_view(out@));
    Ok(out)
}

/// Whether a line holds only whitespace.
pub open spec fn is_blank(l: Seq<char>) -> bool {
    forall|i: int| 0 <= i < l.len() ==> crate::text::is_white(#[trigger] l[i])
}

/// The first position at or after `k` where the delimiter ` <- ` starts, or
/// the length of `l`.
pub open spec fn find_arrow(l: Seq<char>, k: int) -> int
    decreases l.len() - k,
{
    if k < 0 || k + 4 > l.len() {
        l.len() as int
    } else if l.subrange(k, k + 4) == seq![' ', '<', '-', ' '] {
        k
    } else {
        find_arrow(l, k + 1)
    }
}

/// The value of a section: the container it binds and its tokens.
pub open spec fn section_view(w: WSection) -> (Option<Seq<char>>, Seq<TokenV>) {
    (
        match w.container {
            Some(c) => Some(c@),
            None => None,
        },
        tokens_view(w.code@),
    )
}

pub open spec fn prepend_section(
    x: (Option<Seq<char>>, Seq<TokenV>),
    r: Result<Seq<(Option<Seq<char>>, Seq<TokenV>)>, Seq<char>>,
) -> Result<Seq<(Option<Seq<char>>, Seq<TokenV>)>, Seq<char>> {
    match r {
        Ok(t) => Ok(seq![x] + t),
        Err(e) => Err(e),
    }
}

/// The sections of a program text: one per non-blank line, in order; a line
/// `name <- code` binds `name`, which the lines after it see as a container.
pub open spec fn sections_from(s: Seq<char>, containers: Seq<Seq<char>>, names: Seq<Seq<char>>) -> Result<
    Seq<(Option<Seq<char>>, Seq<TokenV>)>,
    Seq<char>,
>
    decreases s.len(),
{
    let e = find_char(s, '\n', 0);
    if s.len() == 0 || e < 0 || e > s.len() {
        Ok(seq![])
    } else {
        let line = s.take(e);
        let rest = if e < s.len() { s.skip(e + 1) } else { Seq::<char>::empty() };
        let a = find_arrow(line, 0);
        if is_blank(line) {
            sections_from(rest, containers, names)
        } else if 0 <= a < line.len() {
            let name = line.take(a);
            match code_tokens(line.skip(a + 4), containers, names) {
                Err(x) => Err(x),
                Ok(t) => prepend_section((Some(name), t), sections_from(rest, containers.push(name), names)),
            }
        } else {
            match code_tokens(line, containers, names) {
                Err(x) => Err(x),
                Ok(t) => prepend_section((None, t), sections_from(rest, containers, names)),
            }
        }
    }
}

fn find_line_end(v: &Vec<char>, k: usize) -> (r: usize)
    requires
        k <= v@.len(),
    ensures
        k <= r <= v@.len(),
        r < v@.len() ==> v@[r as int] == '\n',
        forall|m: int| k <= m < r ==> v@[m] != '\n',
{
    let mut j: usize = k;
    while j < v.len() && v[j] != '\n'
        invariant
            k <= j <= v@.len(),
            forall|m: int| k <= m < j ==> v@[m] != '\n',
        decreases v@.len() - j,
    {
        j = j + 1;
    }
    j
}

fn blank(l: &Vec<char>) -> (r: bool)
    ensures
        r == is_blank(l@),
{
    let mut i: usize = 0;
    while i < l.len()
        invariant
            i <= l@.len(),
            forall|m: int| 0 <= m < i ==> crate::text::is_white(#[trigger] l@[m]),
        decreases l@.len() - i,
    {
        if !crate::text::white(l[i]) {
            return false;
        }
        i = i + 1;
    }
    true
}

fn arrow_at(l: &Vec<char>) -> (r: usize)
    ensures
        r == find_arrow(l@, 0),
        r < l@.len() ==> r + 4 <= l@.len(),
{
    let n = l.len();
    let mut k: usize = 0;
    while k < n && n - k >= 4
        invariant
            n == l@.len(),
            k <= n,
            find_arrow(l@, 0) == find_arrow(l@, k as int),
        decreases n - k,
    {
        if l[k] == ' ' && l[k + 1] == '<' && l[k + 2] == '-' && l[k + 3] == ' ' {
            assert(l@.subrange(k as int, k + 4) =~= seq![' ', '<', '-', ' ']);
            return k;
        }
        assert(l@.subrange(k as int, k + 4) != seq![' ', '<', '-', ' ']) by {
            if l@.subrange(k as int, k + 4) == seq![' ', '<', '-', ' '] {
                assert(l@.subrange(k as int, k + 4)[0] == l@[k as int]);
                assert(l@.subrange(k as int, k + 4)[1] == l@[k + 1]);
                assert(l@.subrange(k as int, k + 4)[2] == l@[k + 2]);
                assert(l@.subrange(k as int, k + 4)[3] == l@[k + 3]);
            }
        }
        k = k + 1;
    }
    n
}

/// Tokenizes a program text into sections, one per non-blank line; the names
/// bound by `name <- code` lines are recognised as containers on the lines
/// after them.
#[verifier::rlimit(80)]
pub fn tokenize(text: String, registry: &Registry) -> (r: Result<Vec<WSection>, LexError>)
    ensures
        r matches Ok(w) ==> sections_from(text@, Seq::empty(), registry.names_view()) == Ok::<Seq<(Option<Seq<char>>, Seq<TokenV>)>, Seq<char>>(w@.map_values(|x: WSection| section_view(x))),
        r matches Err(LexError::UnresolvedFunctionLiteral(name)) ==> sections_from(text@, Seq::empty(), registry.names_view()) == Err::<Seq<(Option<Seq<char>>, Seq<TokenV>)>, Seq<char>>(name@),
{
    let v = chars_of(text.as_str());
    let ghost s = v@;
    assert(s == text@);
    let ghost ns = registry.names_view();
    let n = v.len();
    let mut containers: Vec<String> = Vec::new();
    let mut out: Vec<WSection> = Vec::new();
    let mut i: usize = 0;
    assert(s.skip(0) =~= s);
    assert(names_of(containers@) =~= Seq::<Seq<char>>::empty());
    assert(out@.map_values(|x: WSection| section_view(x)) =~= Seq::empty());
    assert(forall|x: Seq<(Option<Seq<char>>, Seq<TokenV>)>| Seq::<(Option<Seq<char>>, Seq<TokenV>)>::empty() + x =~= x);
    while i < n
        invariant
            i <= n,
            n == v@.len(),
            s == v@,
            s == text@,
            ns == registry.names_view(),
            sections_from(s, Seq::empty(), ns) == (match sections_from(s.skip(i as int), names_of(containers@), ns) {
                Ok(t) => Ok(out@.map_values(|x: WSection| section_view(x)) + t),
                Err(e) => Err(e),
            }),
        decreases n - i,
    {
        let ghost rest = s.skip(i as int);
        let ghost cs = names_of(containers@);
        let ghost done = out@.map_values(|x: WSection| section_view(x));
        let e = find_line_end(&v, i);
        proof {
            lemma_find_from(rest, '\n', 0, e - i);
        }
        let next: usize = if e < n { e + 1 } else { n };
        proof {
            if e < n {
                assert(rest.skip(e - i + 1) =~= s.skip(next as int));
            } else {
                assert(s.skip(next as int) =~= Seq::<char>::empty());
                assert(rest.take(e - i) =~= rest);
            }
        }
        let mut line: Vec<char> = Vec::new();
        crate::text::extend_chars(&mut line, &v, i, e);
        assert(line@ =~= rest.take(e - i));
        if !blank(&line) {
            let a = arrow_at(&line);
            let ll = line.len();
            if a < ll {
                let mut name: Vec<char> = Vec::new();
                crate::text::extend_chars(&mut name, &line, 0, a);
                let mut code: Vec<char> = Vec::new();
                crate::text::extend_chars(&mut code, &line, a + 4, ll);
                assert(name@ =~= line@.take(a as int));
                assert(code@ =~= line@.skip(a + 4));
                let tokens = tokenize_code(&code, &containers, registry);
                match tokens {
                    Err(err) => {
                        proof {
                            assert(rest.len() > 0);
                            assert(find_char(rest, '\n', 0) == e - i);
                            assert(rest.take(e - i) == line@);
                            assert(sections_from(rest, cs, ns) == match code_tokens(code@, cs, ns) {
                                Err(x) => Err(x),
                                Ok(_) => sections_from(rest, cs, ns),
                            });
                            assert(sections_from(rest, cs, ns) == Err::<Seq<(Option<Seq<char>>, Seq<TokenV>)>, Seq<char>>(err->UnresolvedFunctionLiteral_0@));
                            assert(sections_from(s, Seq::empty(), ns) == Err::<Seq<(Option<Seq<char>>, Seq<TokenV>)>, Seq<char>>(err->UnresolvedFunctionLiteral_0@));
                        }
                        return Err(err);
                    },
                    Ok(t) => {
                        let sname = string_of(&name);
                        let section = WSection { container: Some(string_of(&name)), code: t };
                        let ghost sv = section_view(section);
                        containers.push(sname);
                        out.push(section);
                        proof {
                            assert(names_of(containers@) =~= cs.push(name@));
                            assert(out@.map_values(|x: WSection| section_view(x)) =~= done + seq![sv]);
                            match sections_from(s.skip(next as int), names_of(containers@), ns) {
                                Ok(y) => {
                                    assert(done + (seq![sv] + y) =~= (done + seq![sv]) + y);
                                },
                                Err(_) => {},
                            }
                        }
                    },
                }
            } else {
                let tokens = tokenize_code(&line, &containers, registry);
                match tokens {
                    Err(err) => {
                        proof {
                            assert(rest.len() > 0);
                            assert(find_char(rest, '\n', 0) == e - i);
                            assert(rest.take(e - i) == line@);
                            assert(sections_from(rest, cs, ns) == match code_tokens(line@, cs, ns) {
                                Err(x) => Err(x),
                                Ok(_) => sections_from(rest, cs, ns),
                            });
                            assert(sections_from(rest, cs, ns) == Err::<Seq<(Option<Seq<char>>, Seq<TokenV>)>, Seq<char>>(err->UnresolvedFunctionLiteral_0@));
                            assert(sections_from(s, Seq::empty(), ns) == Err::<Seq<(Option<Seq<char>>, Seq<TokenV>)>, Seq<char>>(err->UnresolvedFunctionLiteral_0@));
                        }
                        return Err(err);
                    },
                    Ok(t) => {
                        let section = WSection { container: None, code: t };
                        let ghost sv = section_view(section);
                        out.push(section);
                        proof {
                            assert(out@.map_values(|x: WSection| section_view(x)) =~= done + seq![sv]);
                            match sections_from(s.skip(next as int), names_of(containers@), ns) {
                                Ok(y) => {
                                    assert(done + (seq![sv] + y) =~= (done + seq![sv]) + y);
                                },
                                Err(_) => {},
                            }
                        }
                    },
                }
            }
        }
        i = next;
    }
    assert(s.skip(n as int) =~= Seq::<char>::empty());
    assert(out@.map_values(|x: WSection| section_view(x)) + Seq::<(Option<Seq<char>>, Seq<TokenV>)>::empty() =~= out@.map_values(|x: WSection| section_view(x)));
    Ok(out)
}

} // verus!
