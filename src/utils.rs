use vstd::prelude::*;
use crate::models::{copy_token, extend_copies, lemma_group_view, tokens_view, token_view, Range, Token, TokenV, WFuncVariant};

verus! {

/// Whether `t` is the structural symbol `sym`.
pub open spec fn is_special(t: TokenV, sym: Seq<char>) -> bool {
    t is Special && t->Special_0 == sym
}

/// The first position at or after `k` holding the symbol `sym`.
pub open spec fn find_special(s: Seq<TokenV>, sym: Seq<char>, k: int) -> Option<int>
    decreases s.len() - k,
{
    if k < 0 || k >= s.len() {
        None
    } else if is_special(s[k], sym) {
        Some(k)
    } else {
        find_special(s, sym, k + 1)
    }
}

/// How a token changes the nesting depth: closing symbols first.
pub open spec fn depth_step(t: TokenV, open: Seq<char>, close: Seq<char>) -> int {
    if is_special(t, close) {
        -1
    } else if is_special(t, open) {
        1
    } else {
        0
    }
}

/// Scanning from `k` at nesting depth `d`, the position where the depth drops to zero.
pub open spec fn match_from(s: Seq<TokenV>, open: Seq<char>, close: Seq<char>, k: int, d: int) -> Option<int>
    decreases s.len() - k,
{
    if k < 0 || k >= s.len() {
        None
    } else if d + depth_step(s[k], open, close) == 0 {
        Some(k)
    } else {
        match_from(s, open, close, k + 1, d + depth_step(s[k], open, close))
    }
}

/// The position of the symbol that closes the one opened at `x`.
pub open spec fn closing_of(s: Seq<TokenV>, x: int) -> Option<int> {
    match_from(s, seq!['{'], seq!['}'], x + 1, 1)
}

/// Collapses the first brace pair of `s`, its contents grouped the same way,
/// and repeats while an opening brace is left; `None` when an opening brace
/// has no match or a closing brace is left over.
pub open spec fn bundled(s: Seq<TokenV>) -> Option<Seq<TokenV>>
    decreases s.len(),
{
    match find_special(s, seq!['{'], 0) {
        None => if find_special(s, seq!['}'], 0) is None {
            Some(s)
        } else {
            None
        },
        Some(x) => match closing_of(s, x) {
            None => None,
            Some(y) => if 0 <= x < y < s.len() {
                match bundled(s.subrange(x + 1, y)) {
                    None => None,
                    Some(inner) => bundled(s.take(x) + seq![TokenV::Group(inner)] + s.skip(y + 1)),
                }
            } else {
                None
            },
        },
    }
}

proof fn lemma_find_special_bounds(s: Seq<TokenV>, sym: Seq<char>, k: int)
    requires
        0 <= k,
    ensures
        match find_special(s, sym, k) {
            Some(i) => k <= i < s.len() && is_special(s[i], sym),
            None => forall|j: int| k <= j < s.len() ==> !is_special(s[j], sym),
        },
    decreases s.len() - k,
{
    if k < s.len() && !is_special(s[k], sym) {
        lemma_find_special_bounds(s, sym, k + 1);
    }
}

proof fn lemma_match_from_bounds(s: Seq<TokenV>, open: Seq<char>, close: Seq<char>, k: int, d: int)
    requires
        0 <= k,
    ensures
        match match_from(s, open, close, k, d) {
            Some(i) => k <= i < s.len(),
            None => true,
        },
    decreases s.len() - k,
{
    if k < s.len() && d + depth_step(s[k], open, close) != 0 {
        lemma_match_from_bounds(s, open, close, k + 1, d + depth_step(s[k], open, close));
    }
}

fn is_symbol(t: &Token, sym: &String) -> (r: bool)
    ensures
        r == is_special(t@, sym@),
{
    match t {
        Token::Special(value) => *value == *sym,
        _ => false,
    }
}

/// Position of the first token that is the symbol `special`.
pub fn first_special_instance(special: String, arr: &Vec<Token>) -> (r: Option<usize>)
    ensures
        r matches Some(i) ==> find_special(tokens_view(arr@), special@, 0) == Some(i as int),
        r is None ==> find_special(tokens_view(arr@), special@, 0) is None,
{
    let mut i: usize = 0;
    while i < arr.len()
        invariant
            i <= arr@.len(),
            find_special(tokens_view(arr@), special@, 0) == find_special(tokens_view(arr@), special@, i as int),
        decreases arr@.len() - i,
    {
        if is_symbol(&arr[i], &special) {
            return Some(i);
        }
        i = i + 1;
    }
    None
}

/// Position of the closing symbol `tokens.1` that matches the opening one at
/// `initial_pos`, counting nested `tokens.0` / `tokens.1` pairs.
pub fn special_pairs(tokens: (String, String), arr: &Vec<Token>, initial_pos: &usize) -> (r: Option<usize>)
    requires
        *initial_pos < arr@.len(),
    ensures
        r matches Some(j) ==> match_from(tokens_view(arr@), tokens.0@, tokens.1@, *initial_pos + 1, 1) == Some(j as int),
        r is None ==> match_from(tokens_view(arr@), tokens.0@, tokens.1@, *initial_pos + 1, 1) is None,
{
    let ghost s = tokens_view(arr@);
    let n: usize = arr.len();
    let mut depth: usize = 1;
    let mut i: usize = *initial_pos + 1;
    while i < arr.len()
        invariant
            *initial_pos < i <= arr@.len(),
            s == tokens_view(arr@),
            depth >= 1,
            depth <= i - *initial_pos,
            match_from(s, tokens.0@, tokens.1@, *initial_pos + 1, 1) == match_from(s, tokens.0@, tokens.1@, i as int, depth as int),
        decreases arr@.len() - i,
    {
        if is_symbol(&arr[i], &tokens.1) {
            if depth == 1 {
                return Some(i);
            }
            depth = depth - 1;
        } else if is_symbol(&arr[i], &tokens.0) {
            depth = depth + 1;
        }
        i = i + 1;
    }
    None
}

/// Collapses every brace pair into a `Group` token, nested pairs into nested
/// groups.
pub fn bundle_groups(arr: Vec<Token>) -> (r: Vec<Token>)
    requires
        bundled(tokens_view(arr@)) is Some,
    ensures
        tokens_view(r@) == bundled(tokens_view(arr@))->Some_0,
    decreases arr@.len(),
{
    let open = "{".to_owned();
    let close = "}".to_owned();
    proof {
        reveal_strlit("{");
        reveal_strlit("}");
    }
    let mut cur = arr;
    loop
        invariant
            open@ == seq!['{'],
            close@ == seq!['}'],
            bundled(tokens_view(cur@)) is Some,
            bundled(tokens_view(cur@)) == bundled(tokens_view(arr@)),
            cur@.len() <= arr@.len(),
        decreases cur@.len(),
    {
        let ghost s = tokens_view(cur@);
        match first_special_instance(open.clone(), &cur) {
            None => {
                return cur;
            },
            Some(x) => {
                proof {
                    lemma_find_special_bounds(s, seq!['{'], 0);
                    lemma_match_from_bounds(s, seq!['{'], seq!['}'], x + 1, 1);
                }
                match special_pairs((open.clone(), close.clone()), &cur, &x) {
                    None => {
                        return cur;
                    },
                    Some(y) => {
                        let mut inner: Vec<Token> = Vec::new();
                        extend_copies(&mut inner, &cur, x + 1, y);
                        let mut next: Vec<Token> = Vec::new();
                        extend_copies(&mut next, &cur, 0, x);
                        assert(tokens_view(inner@) =~= s.subrange(x + 1, y as int));
                        let grouped = bundle_groups(inner);
                        let ghost gv = tokens_view(grouped@);
                        proof {
                            lemma_group_view(grouped);
                        }
                        next.push(Token::Group(grouped));
                        let n = cur.len();
                        extend_copies(&mut next, &cur, y + 1, n);
                        assert(tokens_view(next@) =~= s.take(x as int) + seq![TokenV::Group(gv)] + s.skip(y + 1));
                        cur = next;
                    },
                }
            },
        }
    }
}

/// Whether a token names a function or a container.
pub open spec fn is_active(t: TokenV) -> bool {
    t is Function || t is Container
}

/// Whether `v` describes the token `t`.
pub open spec fn describes(v: WFuncVariant, t: TokenV) -> bool {
    match v {
        WFuncVariant::Function(f) => t == TokenV::Function(f),
        WFuncVariant::Container(name) => t == TokenV::Container(name@),
    }
}

/// Leading and trailing active symbols of a line, with their positions.
pub type WFuncPair = (Option<(usize, WFuncVariant)>, Option<(usize, WFuncVariant)>);

fn variant_of(t: &Token) -> (r: Option<WFuncVariant>)
    ensures
        r is Some <==> is_active(t@),
        r matches Some(v) ==> describes(v, t@),
{
    match t {
        Token::Function(value) => Some(WFuncVariant::Function(*value)),
        Token::Container(value) => Some(WFuncVariant::Container(value.clone())),
        _ => None,
    }
}

/// The last (`.0`) and the first (`.1`) token that names a function or a container.
pub fn outter_function(arr: &Vec<Token>) -> (r: WFuncPair)
    ensures
        r.0 matches Some((i, v)) ==> i < arr@.len() && describes(v, arr@[i as int]@)
            && forall|j: int| i < j < arr@.len() ==> !is_active(#[trigger] arr@[j]@),
        r.0 is None ==> forall|j: int| 0 <= j < arr@.len() ==> !is_active(#[trigger] arr@[j]@),
        r.1 matches Some((i, v)) ==> i < arr@.len() && describes(v, arr@[i as int]@)
            && forall|j: int| 0 <= j < i ==> !is_active(#[trigger] arr@[j]@),
        r.1 is None ==> forall|j: int| 0 <= j < arr@.len() ==> !is_active(#[trigger] arr@[j]@),
{
    let mut last: Option<(usize, WFuncVariant)> = None;
    let mut i: usize = 0;
    while i < arr.len()
        invariant
            i <= arr@.len(),
            last matches Some((k, v)) ==> k < i && describes(v, arr@[k as int]@)
                && forall|j: int| k < j < i ==> !is_active(#[trigger] arr@[j]@),
            last is None ==> forall|j: int| 0 <= j < i ==> !is_active(#[trigger] arr@[j]@),
        decreases arr@.len() - i,
    {
        if let Some(v) = variant_of(&arr[i]) {
            last = Some((i, v));
        }
        i = i + 1;
    }
    let mut first: Option<(usize, WFuncVariant)> = None;
    let mut k: usize = arr.len();
    while k > 0
        invariant
            k <= arr@.len(),
            first matches Some((p, v)) ==> k <= p < arr@.len() && describes(v, arr@[p as int]@)
                && forall|j: int| k <= j < p ==> !is_active(#[trigger] arr@[j]@),
            first is None ==> forall|j: int| k <= j < arr@.len() ==> !is_active(#[trigger] arr@[j]@),
        decreases k,
    {
        k = k - 1;
        if let Some(v) = variant_of(&arr[k]) {
            first = Some((k, v));
        }
    }
    (last, first)
}

/// The stack values a range selects, bottom-most first; bounds past the
/// stack are cut to it.
pub open spec fn range_values(r: Range, stack: Seq<TokenV>) -> Seq<TokenV> {
    let n = stack.len() as int;
    match r {
        Range::Exact(i) => if i < n {
            seq![stack[n - 1 - i]]
        } else {
            seq![]
        },
        Range::From(i) => if i <= n {
            stack.subrange(n - i, n)
        } else {
            stack
        },
        Range::To(i) => if i <= n {
            stack.subrange(0, n - i)
        } else {
            seq![]
        },
        Range::Full(a, b) => if a <= b && b < n {
            stack.subrange(n - 1 - b, n - a)
        } else if a <= b && a < n {
            stack.subrange(0, n - a)
        } else {
            seq![]
        },
    }
}

/// A body with every parameter replaced by the stack values it selects,
/// nested groups included.
pub open spec fn substituted(body: Seq<TokenV>, stack: Seq<TokenV>) -> Seq<TokenV>
    decreases body,
{
    if body.len() == 0 {
        seq![]
    } else {
        substituted(body.drop_last(), stack) + match body.last() {
            TokenV::Parameter(r) => range_values(r, stack),
            TokenV::Group(g) => seq![TokenV::Group(substituted(g, stack))],
            t => seq![t],
        }
    }
}

/// The number of stack values an invocation claims: one past the highest
/// exact parameter index.
pub open spec fn arity(all: Seq<TokenV>) -> nat
    decreases all.len(),
{
    if all.len() == 0 {
        0
    } else {
        let a = arity(all.drop_last());
        match all.last() {
            TokenV::Parameter(Range::Exact(i)) => if a < i + 1 {
                (i + 1) as nat
            } else {
                a
            },
            _ => a,
        }
    }
}

/// The stack after an invocation: the claimed values removed from the top and
/// the evaluator's result pushed.
pub open spec fn applied(stack: Seq<TokenV>, all: Seq<TokenV>, result: Seq<TokenV>) -> Seq<TokenV> {
    let keep = if arity(all) <= stack.len() {
        stack.len() - arity(all)
    } else {
        0
    };
    stack.take(keep as int) + result
}

/// Appends to `buffer` the stack values that `r` selects.
fn push_range(buffer: &mut Vec<Token>, r: Range, arr: &Vec<Token>)
    ensures
        tokens_view(final(buffer)@) == tokens_view(old(buffer)@) + range_values(r, tokens_view(arr@)),
{
    let n = arr.len();
    let ghost st = tokens_view(arr@);
    match r {
        Range::Exact(i) => {
            if i < n {
                let t = copy_token(&arr[n - 1 - i]);
                let ghost prev = buffer@;
                buffer.push(t);
                assert(tokens_view(buffer@) =~= tokens_view(prev) + range_values(r, st));
            } else {
                assert(range_values(r, st) =~= seq![]);
                assert(tokens_view(buffer@) =~= tokens_view(buffer@) + range_values(r, st));
            }
        },
        Range::From(i) => {
            if i <= n {
                extend_copies(buffer, arr, n - i, n);
            } else {
                extend_copies(buffer, arr, 0, n);
                assert(st.subrange(0, n as int) =~= st);
            }
        },
        Range::To(i) => {
            if i <= n {
                extend_copies(buffer, arr, 0, n - i);
            } else {
                extend_copies(buffer, arr, 0, 0);
                assert(st.subrange(0, 0) =~= seq![]);
            }
        },
        Range::Full(a, b) => {
            if a <= b && b < n {
                extend_copies(buffer, arr, n - 1 - b, n - a);
            } else if a <= b && a < n {
                extend_copies(buffer, arr, 0, n - a);
            } else {
                extend_copies(buffer, arr, 0, 0);
                assert(st.subrange(0, 0) =~= seq![]);
            }
        },
    }
}

/// Replaces each parameter of `function` by the values of `arr` it selects,
/// positions counted from the top of the stack; nested groups are rebuilt.
pub fn map_parameters(function: &Vec<Token>, arr: &Vec<Token>) -> (r: Vec<Token>)
    ensures
        tokens_view(r@) == substituted(tokens_view(function@), tokens_view(arr@)),
    decreases function,
{
    let ghost body = tokens_view(function@);
    let ghost st = tokens_view(arr@);
    let mut buffer: Vec<Token> = Vec::new();
    let mut i: usize = 0;
    while i < function.len()
        invariant
            i <= function@.len(),
            body == tokens_view(function@),
            st == tokens_view(arr@),
            tokens_view(buffer@) == substituted(body.take(i as int), st),
        decreases function@.len() - i,
    {
        let ghost prev = tokens_view(buffer@);
        assert(body.take(i + 1).drop_last() =~= body.take(i as int));
        assert(body.take(i + 1).last() == function@[i as int]@);
        match &function[i] {
            Token::Parameter(r) => {
                push_range(&mut buffer, *r, arr);
                assert(function@[i as int]@ == TokenV::Parameter(*r));
                assert(substituted(body.take(i + 1), st) == prev + range_values(*r, st));
            },
            Token::Group(g) => {
                proof {
                    broadcast use vstd::std_specs::vec::axiom_vec_index_decreases;
                    assert(decreases_to!(*function => function@[i as int]));
                    assert(decreases_to!(function@[i as int] => function@[i as int]->Group_0));
                }
                let inner = map_parameters(g, arr);
                proof {
                    lemma_group_view(inner);
                }
                buffer.push(Token::Group(inner));
                assert(tokens_view(buffer@) =~= prev + seq![TokenV::Group(substituted(tokens_view(g@), st))]);
                proof {
                    lemma_group_view(*g);
                }
                assert(function@[i as int]@ == TokenV::Group(tokens_view(g@)));
                assert(substituted(body.take(i + 1), st) == prev + seq![TokenV::Group(substituted(tokens_view(g@), st))]);
            },
            _ => {
                let t = copy_token(&function[i]);
                buffer.push(t);
                assert(tokens_view(buffer@) =~= prev + seq![function@[i as int]@]);
                assert(substituted(body.take(i + 1), st) == prev + seq![function@[i as int]@]);
            },
        }
        i = i + 1;
    }
    assert(body.take(function@.len() as int) =~= body);
    buffer
}

/// How many values remain of a stack of `n` values once `all` has claimed its arity.
fn kept_len(all: &Vec<Token>, n: usize) -> (r: usize)
    ensures
        r == if arity(tokens_view(all@)) <= n { n - arity(tokens_view(all@)) } else { 0 },
{
    let ghost a = tokens_view(all@);
    let mut cut: usize = 0;
    let mut i: usize = 0;
    while i < all.len()
        invariant
            i <= all@.len(),
            a == tokens_view(all@),
            cut as int == if arity(a.take(i as int)) <= n { arity(a.take(i as int)) as int } else { n as int },
        decreases all@.len() - i,
    {
        assert(a.take(i + 1).drop_last() =~= a.take(i as int));
        match &all[i] {
            Token::Parameter(Range::Exact(x)) => {
                if *x >= n {
                    cut = n;
                } else if cut < *x + 1 {
                    cut = *x + 1;
                }
            },
            _ => {},
        }
        i = i + 1;
    }
    assert(a.take(all@.len() as int) =~= a);
    n - cut
}

/// The stack `arr` with the values that `all_tokens_used` claims removed from
/// its top and `result` pushed in their place.
pub fn splice_result(arr: &Vec<Token>, all_tokens_used: &Vec<Token>, result: Vec<Token>) -> (r: Vec<Token>)
    ensures
        tokens_view(r@) == applied(tokens_view(arr@), tokens_view(all_tokens_used@), tokens_view(result@)),
{
    let keep = kept_len(all_tokens_used, arr.len());
    let mut out: Vec<Token> = Vec::new();
    extend_copies(&mut out, arr, 0, keep);
    let m = result.len();
    extend_copies(&mut out, &result, 0, m);
    assert(tokens_view(result@).subrange(0, m as int) =~= tokens_view(result@));
    assert(tokens_view(arr@).subrange(0, keep as int) =~= tokens_view(arr@).take(keep as int));
    out
}

/// The evaluator of substituted token buffers.
pub trait WEval {
    /// What evaluating a buffer of the given values yields.
    spec fn evaluated(&self, tokens: Seq<TokenV>) -> Seq<TokenV>;

    fn eval(&self, tokens: Vec<Token>) -> (r: Vec<Token>)
        ensures
            tokens_view(r@) == self.evaluated(tokens_view(tokens@)),
    ;
}

/// The evaluator that hands a substituted buffer back unchanged, so that an
/// application splices the substitution itself onto the stack.
pub struct Passthrough;

impl WEval for Passthrough {
    open spec fn evaluated(&self, tokens: Seq<TokenV>) -> Seq<TokenV> {
        tokens
    }

    fn eval(&self, tokens: Vec<Token>) -> (r: Vec<Token>) {
        tokens
    }
}

/// Application of a function body against a stack.
pub trait WFunc {
    /// What the evaluator used by `apply` yields on a buffer.
    spec fn evaluated_by(&self, tokens: Seq<TokenV>) -> Seq<TokenV>;

    /// Substitutes the parameters of `function` from `arr`, evaluates the
    /// result, and replaces the values that `all_tokens_used` claims from the
    /// top of `arr` by what the evaluation yields.
    fn apply(&self, function: &Vec<Token>, arr: &Vec<Token>, all_tokens_used: &Vec<Token>) -> (r: Vec<Token>)
        ensures
            tokens_view(r@) == applied(
                tokens_view(arr@),
                tokens_view(all_tokens_used@),
                self.evaluated_by(substituted(tokens_view(function@), tokens_view(arr@))),
            ),
    ;
}

/// The execution state: the evaluator that substituted bodies are handed to.
pub struct State<E: WEval> {
    pub evaluator: E,
}

impl<E: WEval> WFunc for State<E> {
    open spec fn evaluated_by(&self, tokens: Seq<TokenV>) -> Seq<TokenV> {
        self.evaluator.evaluated(tokens)
    }

    fn apply(&self, function: &Vec<Token>, arr: &Vec<Token>, all_tokens_used: &Vec<Token>) -> (r: Vec<Token>) {
        let buffer = map_parameters(function, arr);
        let result = self.evaluator.eval(buffer);
        splice_result(arr, all_tokens_used, result)
    }
}

/// Whether no brace symbol is left in `s`, inside groups included.
pub open spec fn brace_free(s: Seq<TokenV>) -> bool
    decreases s,
{
    if s.len() == 0 {
        true
    } else {
        brace_free(s.drop_last()) && match s.last() {
            TokenV::Group(g) => brace_free(g),
            t => !is_special(t, seq!['{']) && !is_special(t, seq!['}']),
        }
    }
}

/// Whether every group of `s` is free of brace symbols.
pub open spec fn groups_brace_free(s: Seq<TokenV>) -> bool {
    forall|j: int| 0 <= j < s.len() && (#[trigger] s[j]) is Group ==> brace_free(s[j]->Group_0)
}

proof fn lemma_brace_free_members(s: Seq<TokenV>)
    ensures
        brace_free(s) <==> groups_brace_free(s) && forall|j: int|
            0 <= j < s.len() ==> !is_special(#[trigger] s[j], seq!['{']) && !is_special(s[j], seq!['}']),
    decreases s.len(),
{
    if s.len() > 0 {
        lemma_brace_free_members(s.drop_last());
        assert forall|j: int| 0 <= j < s.len() - 1 implies s.drop_last()[j] == s[j] by {}
    }
}

/// Grouping leaves no brace symbol at any depth, given groups already free
/// of them.
pub proof fn law_grouping_leaves_no_brace(s: Seq<TokenV>)
    requires
        groups_brace_free(s),
        bundled(s) is Some,
    ensures
        brace_free(bundled(s)->Some_0),
    decreases s.len(),
{
    lemma_find_special_bounds(s, seq!['{'], 0);
    match find_special(s, seq!['{'], 0) {
        None => {
            lemma_find_special_bounds(s, seq!['}'], 0);
            lemma_brace_free_members(s);
        },
        Some(x) => {
            let y = closing_of(s, x)->Some_0;
            let mid = s.subrange(x + 1, y);
            assert(groups_brace_free(mid)) by {
                assert forall|j: int| 0 <= j < mid.len() && (#[trigger] mid[j]) is Group implies brace_free(mid[j]->Group_0) by {
                    assert(mid[j] == s[x + 1 + j]);
                }
            }
            law_grouping_leaves_no_brace(mid);
            let inner = bundled(mid)->Some_0;
            let next = s.take(x) + seq![TokenV::Group(inner)] + s.skip(y + 1);
            assert(groups_brace_free(next)) by {
                assert forall|j: int| 0 <= j < next.len() && (#[trigger] next[j]) is Group implies brace_free(next[j]->Group_0) by {
                    if j < x {
                        assert(next[j] == s[j]);
                    } else if j > x {
                        assert(next[j] == s[y + 1 + (j - x - 1)]);
                    }
                }
            }
            law_grouping_leaves_no_brace(next);
        },
    }
}

/// `s` with every group written back as its contents between braces.
pub open spec fn ungrouped(s: Seq<TokenV>) -> Seq<TokenV>
    decreases s,
{
    if s.len() == 0 {
        seq![]
    } else {
        ungrouped(s.drop_last()) + match s.last() {
            TokenV::Group(g) => seq![TokenV::Special(seq!['{'])] + ungrouped(g) + seq![TokenV::Special(seq!['}'])],
            t => seq![t],
        }
    }
}

proof fn lemma_ungrouped_concat(a: Seq<TokenV>, b: Seq<TokenV>)
    ensures
        ungrouped(a + b) == ungrouped(a) + ungrouped(b),
    decreases b.len(),
{
    if b.len() == 0 {
        assert(a + b =~= a);
        assert(ungrouped(a) + ungrouped(b) =~= ungrouped(a));
    } else {
        lemma_ungrouped_concat(a, b.drop_last());
        assert((a + b).drop_last() =~= a + b.drop_last());
        assert((a + b).last() == b.last());
        let tail = match b.last() {
            TokenV::Group(g) => seq![TokenV::Special(seq!['{'])] + ungrouped(g) + seq![TokenV::Special(seq!['}'])],
            t => seq![t],
        };
        assert(ungrouped(a + b) == ungrouped(a + b.drop_last()) + tail);
        assert(ungrouped(b) == ungrouped(b.drop_last()) + tail);
        assert(ungrouped(a) + ungrouped(b.drop_last()) + tail =~= ungrouped(a) + (ungrouped(b.drop_last()) + tail));
    }
}

proof fn lemma_ungrouped_single(t: TokenV)
    ensures
        ungrouped(seq![t]) == match t {
            TokenV::Group(g) => seq![TokenV::Special(seq!['{'])] + ungrouped(g) + seq![TokenV::Special(seq!['}'])],
            u => seq![u],
        },
{
    assert(seq![t].drop_last() =~= Seq::<TokenV>::empty());
    let tail = match t {
        TokenV::Group(g) => seq![TokenV::Special(seq!['{'])] + ungrouped(g) + seq![TokenV::Special(seq!['}'])],
        u => seq![u],
    };
    assert(seq![t].len() == 1 && seq![t].last() == t);
    assert(ungrouped(Seq::<TokenV>::empty()) == Seq::<TokenV>::empty());
    assert(ungrouped(seq![t]) == ungrouped(seq![t].drop_last()) + tail);
    assert(Seq::<TokenV>::empty() + tail =~= tail);
}

proof fn lemma_match_closes(s: Seq<TokenV>, open: Seq<char>, close: Seq<char>, k: int, d: int)
    requires
        0 <= k,
        d >= 1,
    ensures
        match_from(s, open, close, k, d) matches Some(i) ==> is_special(s[i], close),
    decreases s.len() - k,
{
    if k < s.len() && d + depth_step(s[k], open, close) != 0 {
        lemma_match_closes(s, open, close, k + 1, d + depth_step(s[k], open, close));
    }
}

proof fn lemma_ungrouped_flat(s: Seq<TokenV>)
    requires
        forall|j: int| 0 <= j < s.len() ==> !((#[trigger] s[j]) is Group),
    ensures
        ungrouped(s) == s,
    decreases s.len(),
{
    if s.len() > 0 {
        assert forall|j: int| 0 <= j < s.len() - 1 implies !((#[trigger] s.drop_last()[j]) is Group) by {
            assert(s.drop_last()[j] == s[j]);
        }
        lemma_ungrouped_flat(s.drop_last());
        assert(!(s[s.len() - 1] is Group));
        assert(s.drop_last() + seq![s.last()] =~= s);
    }
}

/// Grouping only restructures: writing every group back as its braces gives
/// the tokens grouping started from.
pub proof fn law_grouping_round_trip(s: Seq<TokenV>)
    requires
        bundled(s) is Some,
    ensures
        ungrouped(bundled(s)->Some_0) == ungrouped(s),
    decreases s.len(),
{
    if let Some(x) = find_special(s, seq!['{'], 0) {
        lemma_find_special_bounds(s, seq!['{'], 0);
        let y = closing_of(s, x)->Some_0;
        lemma_match_closes(s, seq!['{'], seq!['}'], x + 1, 1);
        let mid = s.subrange(x + 1, y);
        law_grouping_round_trip(mid);
        let inner = bundled(mid)->Some_0;
        let next = s.take(x) + seq![TokenV::Group(inner)] + s.skip(y + 1);
        law_grouping_round_trip(next);
        lemma_ungrouped_concat(s.take(x) + seq![TokenV::Group(inner)], s.skip(y + 1));
        lemma_ungrouped_concat(s.take(x), seq![TokenV::Group(inner)]);
        lemma_ungrouped_single(TokenV::Group(inner));
        assert(s[x] == TokenV::Special(seq!['{']));
        assert(s[y] == TokenV::Special(seq!['}']));
        lemma_ungrouped_single(s[x]);
        lemma_ungrouped_single(s[y]);
        assert(s =~= s.take(x) + seq![s[x]] + mid + seq![s[y]] + s.skip(y + 1));
        lemma_ungrouped_concat(s.take(x) + seq![s[x]] + mid + seq![s[y]], s.skip(y + 1));
        lemma_ungrouped_concat(s.take(x) + seq![s[x]] + mid, seq![s[y]]);
        lemma_ungrouped_concat(s.take(x) + seq![s[x]], mid);
        lemma_ungrouped_concat(s.take(x), seq![s[x]]);
        assert(ungrouped(next) =~= ungrouped(s));
    }
}

/// Grouping tokens that hold no group loses, adds and reorders nothing:
/// writing the groups back as braces gives the input itself.
pub proof fn law_grouping_round_trip_flat(s: Seq<TokenV>)
    requires
        bundled(s) is Some,
        forall|j: int| 0 <= j < s.len() ==> !((#[trigger] s[j]) is Group),
    ensures
        ungrouped(bundled(s)->Some_0) == s,
{
    law_grouping_round_trip(s);
    lemma_ungrouped_flat(s);
}

proof fn lemma_arity_bounds(all: Seq<TokenV>, m: nat)
    ensures
        (forall|j: int| 0 <= j < all.len() && (#[trigger] all[j]) is Parameter && all[j]->Parameter_0 is Exact
            ==> all[j]->Parameter_0->Exact_0 < m) ==> arity(all) <= m,
        forall|j: int| 0 <= j < all.len() && (#[trigger] all[j]) is Parameter && all[j]->Parameter_0 is Exact
            ==> arity(all) >= all[j]->Parameter_0->Exact_0 + 1,
    decreases all.len(),
{
    if all.len() > 0 {
        lemma_arity_bounds(all.drop_last(), m);
        assert forall|j: int| 0 <= j < all.len() - 1 implies all.drop_last()[j] == all[j] by {}
    }
}

/// An invocation whose highest exact parameter index is `m - 1` claims `m`
/// stack values: with at least `m` values on the stack, exactly the top `m`
/// are replaced by the result; with fewer, all of them are.
pub proof fn law_arity_is_highest_exact_index(all: Seq<TokenV>, m: usize, stack: Seq<TokenV>, result: Seq<TokenV>)
    requires
        m > 0,
        forall|j: int| 0 <= j < all.len() && (#[trigger] all[j]) is Parameter && all[j]->Parameter_0 is Exact
            ==> all[j]->Parameter_0->Exact_0 < m,
        exists|j: int| 0 <= j < all.len() && #[trigger] all[j] == TokenV::Parameter(Range::Exact((m - 1) as usize)),
    ensures
        arity(all) == m,
        stack.len() >= m ==> applied(stack, all, result) == stack.take(stack.len() - m) + result,
        stack.len() < m ==> applied(stack, all, result) == result,
{
    lemma_arity_bounds(all, m as nat);
    let j = choose|j: int| 0 <= j < all.len() && #[trigger] all[j] == TokenV::Parameter(Range::Exact((m - 1) as usize));
    assert(all[j]->Parameter_0->Exact_0 + 1 == m);
    if stack.len() < m {
        assert(stack.take(0) + result =~= result);
    }
}

/// An exact parameter past the bottom of the stack contributes nothing.
pub proof fn law_absent_parameter_is_skipped(i: usize, stack: Seq<TokenV>)
    requires
        i >= stack.len(),
    ensures
        substituted(seq![TokenV::Parameter(Range::Exact(i))], stack) == Seq::<TokenV>::empty(),
{
    let body = seq![TokenV::Parameter(Range::Exact(i))];
    assert(body.drop_last() =~= Seq::<TokenV>::empty());
    assert(substituted(body.drop_last(), stack) == Seq::<TokenV>::empty());
    assert(substituted(body, stack) =~= Seq::<TokenV>::empty());
}

} // verus!
