//! Tokens and the recursive-descent parser for the numeral-arithmetic
//! grammar: operators, parentheses and canonical Roman numerals, with
//! whitespace permitted between tokens and nowhere inside them.

use vstd::prelude::*;
use vstd::string::StrSliceExecFns;
use vstd::string::StringExecFns;
use crate::ast::{AddLink, AddLinkView, AddOp, MulLink, MulLinkView, MulOp, Node, NodeView, Rule,
    UnaryOp, add_links_view, lemma_links_view_index, mul_links_view, node_view, node_wf};
use crate::codec::{int_to_roman, is_canonical_roman, lemma_canonical_len, lemma_place_roman,
    lemma_roman_round_trip,
    is_roman_symbol, scan_chars, scan_value, spec_roman, thousands_chars, hundreds_chars,
    tens_chars, units_chars};

verus! {

/// A syntax error: the position (in characters) where matching failed and
/// the rule that was being matched there.
#[derive(Clone, Copy, Debug, PartialEq, Eq, Structural)]
pub struct SyntaxError {
    pub pos: usize,
    pub expected: Rule,
}

/// Mathematical image of a token.
pub enum TokenView {
    Plus,
    Minus,
    Star,
    Slash,
    Open,
    Close,
    Numeral { text: Seq<char> },
}

/// One token of the surface syntax.
#[derive(Debug, PartialEq)]
pub enum Token {
    Plus,
    Minus,
    Star,
    Slash,
    Open,
    Close,
    Numeral { text: String },
}

impl View for Token {
    type V = TokenView;

    open spec fn view(&self) -> TokenView {
        match self {
            Token::Plus => TokenView::Plus,
            Token::Minus => TokenView::Minus,
            Token::Star => TokenView::Star,
            Token::Slash => TokenView::Slash,
            Token::Open => TokenView::Open,
            Token::Close => TokenView::Close,
            Token::Numeral { text } => TokenView::Numeral { text: text@ },
        }
    }
}

/// A token together with the character position where it starts, kept for
/// error reporting.
#[derive(Debug, PartialEq)]
pub struct Tok {
    pub token: Token,
    pub start: usize,
}

/// The token sequence a vector of positioned tokens stands for.
pub open spec fn toks_views(ts: Seq<Tok>) -> Seq<TokenView> {
    ts.map(|i: int, t: Tok| t.token@)
}

/// Every numeral token spans a canonical Roman numeral.
pub open spec fn token_wf(t: Token) -> bool {
    match t {
        Token::Numeral { text } => is_canonical_roman(text@),
        _ => true,
    }
}

/// The whitespace the grammar ignores between tokens.
pub open spec fn is_space_char(c: char) -> bool {
    c == ' ' || c == '\t' || c == '\n' || c == '\r'
}

/// Length of the longest prefix of `s` made of Roman symbols.
pub open spec fn roman_run_len(s: Seq<char>) -> int
    decreases s.len(),
{
    if s.len() == 0 || !is_roman_symbol(s[0]) {
        0
    } else {
        1 + roman_run_len(s.drop_first())
    }
}

proof fn lemma_roman_run_len_bounds(s: Seq<char>)
    ensures
        0 <= roman_run_len(s) <= s.len(),
        s.len() > 0 && is_roman_symbol(s[0]) ==> roman_run_len(s) >= 1,
    decreases s.len(),
{
    if s.len() > 0 && is_roman_symbol(s[0]) {
        lemma_roman_run_len_bounds(s.drop_first());
    }
}

proof fn lemma_roman_run_len_is(s: Seq<char>, k: int)
    requires
        0 <= k <= s.len(),
        forall|m: int| 0 <= m < k ==> is_roman_symbol(#[trigger] s[m]),
        k == s.len() || !is_roman_symbol(s[k]),
    ensures
        roman_run_len(s) == k,
    decreases k,
{
    if k == 0 {
    } else {
        lemma_roman_run_len_is(s.drop_first(), k - 1);
    }
}

/// The token sequence of `s`, or nothing when `s` holds a character no
/// token can start with, or a run of Roman symbols that is not a canonical
/// numeral. Whitespace between tokens is dropped.
pub open spec fn spec_tokenize(s: Seq<char>) -> Option<Seq<TokenView>>
    decreases s.len(),
    via spec_tokenize_decreases
{
    if s.len() == 0 {
        Some(Seq::empty())
    } else if is_space_char(s[0]) {
        spec_tokenize(s.drop_first())
    } else if s[0] == '+' {
        cons_token(TokenView::Plus, spec_tokenize(s.drop_first()))
    } else if s[0] == '-' {
        cons_token(TokenView::Minus, spec_tokenize(s.drop_first()))
    } else if s[0] == '*' {
        cons_token(TokenView::Star, spec_tokenize(s.drop_first()))
    } else if s[0] == '/' {
        cons_token(TokenView::Slash, spec_tokenize(s.drop_first()))
    } else if s[0] == '(' {
        cons_token(TokenView::Open, spec_tokenize(s.drop_first()))
    } else if s[0] == ')' {
        cons_token(TokenView::Close, spec_tokenize(s.drop_first()))
    } else if is_roman_symbol(s[0]) {
        let k = roman_run_len(s);
        let text = s.subrange(0, k);
        if is_canonical_roman(text) {
            cons_token(TokenView::Numeral { text }, spec_tokenize(s.skip(k)))
        } else {
            None
        }
    } else {
        None
    }
}

#[via_fn]
proof fn spec_tokenize_decreases(s: Seq<char>) {
    lemma_roman_run_len_bounds(s);
}

/// Puts one token in front of a tokenization outcome.
pub open spec fn cons_token(t: TokenView, rest: Option<Seq<TokenView>>) -> Option<
    Seq<TokenView>,
> {
    match rest {
        Some(ts) => Some(seq![t] + ts),
        None => None,
    }
}

/// `s` with leading whitespace dropped.
pub open spec fn sp_ltrim(s: Seq<char>) -> Seq<char>
    decreases s.len(),
{
    if s.len() > 0 && is_space_char(s[0]) {
        sp_ltrim(s.drop_first())
    } else {
        s
    }
}

/// `s` with trailing whitespace dropped.
pub open spec fn sp_rtrim(s: Seq<char>) -> Seq<char>
    decreases s.len(),
{
    if s.len() > 0 && is_space_char(s.last()) {
        sp_rtrim(s.drop_last())
    } else {
        s
    }
}

/// `s` with leading and trailing whitespace dropped: the span a fully
/// consumed match covers, from its first token to its last.
pub open spec fn spec_trim(s: Seq<char>) -> Seq<char> {
    sp_rtrim(sp_ltrim(s))
}

proof fn lemma_ltrim_at(s: Seq<char>, a: int)
    requires
        0 <= a <= s.len(),
        forall|m: int| 0 <= m < a ==> is_space_char(#[trigger] s[m]),
        a == s.len() || !is_space_char(s[a]),
    ensures
        sp_ltrim(s) == s.skip(a),
    decreases a,
{
    if a == 0 {
        assert(s.skip(0) =~= s);
    } else {
        lemma_ltrim_at(s.drop_first(), a - 1);
        assert(s.drop_first().skip(a - 1) =~= s.skip(a));
    }
}

proof fn lemma_rtrim_at(s: Seq<char>, b: int)
    requires
        0 <= b <= s.len(),
        forall|m: int| b <= m < s.len() ==> is_space_char(#[trigger] s[m]),
        b == 0 || !is_space_char(s[b - 1]),
    ensures
        sp_rtrim(s) == s.take(b),
    decreases s.len() - b,
{
    if b == s.len() {
        assert(s.take(b) =~= s);
    } else {
        lemma_rtrim_at(s.drop_last(), b);
        assert(s.drop_last().take(b) =~= s.take(b));
    }
}

/// Exact character comparison of two strings.
fn str_eq(a: &str, b: &str) -> (r: bool)
    ensures
        r == (a@ == b@),
{
    let la = a.unicode_len();
    let lb = b.unicode_len();
    if la != lb {
        return false;
    }
    let mut m: usize = 0;
    while m < la
        invariant
            m <= la,
            la == a@.len(),
            la == b@.len(),
            forall|q: int| 0 <= q < m ==> a@[q] == b@[q],
        decreases la - m,
    {
        if a.get_char(m) != b.get_char(m) {
            return false;
        }
        m = m + 1;
    }
    proof {
        assert(a@ =~= b@);
    }
    true
}

/// The span of `input` from its first to its last non-whitespace character.
fn trim_of(input: &str) -> (t: String)
    ensures
        t@ == spec_trim(input@),
{
    let len = input.unicode_len();
    let mut a: usize = 0;
    while a < len && is_space_exec(input.get_char(a))
        invariant
            a <= len,
            len == input@.len(),
            forall|m: int| 0 <= m < a ==> is_space_char(#[trigger] input@[m]),
        decreases len - a,
    {
        a = a + 1;
    }
    proof {
        lemma_ltrim_at(input@, a as int);
    }
    if a == len {
        proof {
            assert(input@.skip(a as int) =~= Seq::<char>::empty());
        }
        return String::new();
    }
    let mut b: usize = len;
    while b > a && is_space_exec(input.get_char(b - 1))
        invariant
            a <= b <= len,
            len == input@.len(),
            !is_space_char(input@[a as int]),
            forall|m: int| b <= m < len ==> is_space_char(#[trigger] input@[m]),
        decreases b,
    {
        b = b - 1;
    }
    proof {
        let u = input@.skip(a as int);
        lemma_rtrim_at(u, b - a);
        assert(u.take(b - a) =~= input@.subrange(a as int, b as int));
    }
    String::from_str(input.substring_char(a, b))
}

/// Whether `c` is whitespace.
fn is_space_exec(c: char) -> (r: bool)
    ensures
        r == is_space_char(c),
{
    c == ' ' || c == '\t' || c == '\n' || c == '\r'
}

/// Whether `c` is a Roman symbol.
fn is_roman_symbol_exec(c: char) -> (r: bool)
    ensures
        r == is_roman_symbol(c),
{
    c == 'I' || c == 'V' || c == 'X' || c == 'L' || c == 'C' || c == 'D' || c == 'M'
}

/// Splits `input` into tokens, validating each run of Roman symbols as a
/// canonical numeral by decoding it and comparing it with the canonical
/// rendering of its value.
fn tokenize(input: &str) -> (r: Result<Vec<Tok>, SyntaxError>)
    ensures
        r is Ok <==> spec_tokenize(input@) is Some,
        r is Ok ==> spec_tokenize(input@) == Some(toks_views(r->Ok_0@)),
        r is Ok ==> forall|j: int|
            0 <= j < r->Ok_0@.len() ==> token_wf(#[trigger] r->Ok_0@[j].token),
{
    let len = input.unicode_len();
    let mut toks: Vec<Tok> = Vec::new();
    let mut i: usize = 0;
    proof {
        assert(input@.skip(0) =~= input@);
        assert(toks_views(toks@) =~= Seq::<TokenView>::empty());
    }
    while i < len
        invariant
            i <= len,
            len == input@.len(),
            spec_tokenize(input@) == prepend_tokens(
                toks_views(toks@),
                spec_tokenize(input@.skip(i as int)),
            ),
            forall|j: int| 0 <= j < toks@.len() ==> token_wf(#[trigger] toks@[j].token),
        decreases len - i,
    {
        let ghost s_i = input@.skip(i as int);
        proof {
            assert(s_i[0] == input@[i as int]);
            assert(s_i.drop_first() =~= input@.skip(i as int + 1));
        }
        let c = input.get_char(i);
        if is_space_exec(c) {
            i = i + 1;
        } else if c == '+' || c == '-' || c == '*' || c == '/' || c == '(' || c == ')' {
            let token = if c == '+' {
                Token::Plus
            } else if c == '-' {
                Token::Minus
            } else if c == '*' {
                Token::Star
            } else if c == '/' {
                Token::Slash
            } else if c == '(' {
                Token::Open
            } else {
                Token::Close
            };
            let ghost tv = token@;
            let ghost old_toks = toks@;
            toks.push(Tok { token, start: i });
            proof {
                assert(toks_views(toks@) =~= toks_views(old_toks).push(tv));
                lemma_prepend_snoc(toks_views(old_toks), tv, spec_tokenize(input@.skip(i as int + 1)));
                assert(spec_tokenize(s_i) == cons_token(tv, spec_tokenize(input@.skip(i as int + 1))));
                assert(cons_token(tv, spec_tokenize(input@.skip(i as int + 1))) == prepend_tokens(
                    seq![tv],
                    spec_tokenize(input@.skip(i as int + 1)),
                ));
            }
            i = i + 1;
        } else if is_roman_symbol_exec(c) {
            let mut j: usize = i;
            while j < len && is_roman_symbol_exec(input.get_char(j))
                invariant
                    i <= j <= len,
                    len == input@.len(),
                    forall|m: int| i <= m < j ==> is_roman_symbol(#[trigger] input@[m]),
                decreases len - j,
            {
                j = j + 1;
            }
            proof {
                assert(forall|m: int|
                    0 <= m < j - i ==> is_roman_symbol(#[trigger] s_i[m]));
                lemma_roman_run_len_is(s_i, j - i);
            }
            let text = input.substring_char(i, j);
            let ghost run = s_i.subrange(0, j - i);
            proof {
                assert(text@ =~= run);
            }
            if j - i > 15 {
                proof {
                    if is_canonical_roman(run) {
                        let n = choose|n: int| 1 <= n <= 3999 && spec_roman(n) == run;
                        lemma_canonical_len(n);
                    }
                }
                return Err(SyntaxError { pos: i, expected: Rule::roman });
            }
            let v = scan_chars(text);
            if v < 1 || v > 3999 {
                proof {
                    if is_canonical_roman(run) {
                        let n = choose|n: int| 1 <= n <= 3999 && spec_roman(n) == run;
                        lemma_roman_round_trip(n);
                    }
                }
                return Err(SyntaxError { pos: i, expected: Rule::roman });
            }
            match int_to_roman(v as i64) {
                Err(_) => {
                    proof {
                        assert(false);
                    }
                    return Err(SyntaxError { pos: i, expected: Rule::roman });
                },
                Ok(enc) => {
                    if str_eq(text, enc.as_str()) {
                        proof {
                            assert(spec_roman(v as int) == run);
                            assert(is_canonical_roman(run));
                            assert(s_i.skip(j - i) =~= input@.skip(j as int));
                        }
                        let ghost tv = TokenView::Numeral { text: run };
                        let ghost old_toks = toks@;
                        toks.push(
                            Tok { token: Token::Numeral { text: String::from_str(text) }, start: i },
                        );
                        proof {
                            assert(toks_views(toks@) =~= toks_views(old_toks).push(tv));
                            lemma_prepend_snoc(
                                toks_views(old_toks),
                                tv,
                                spec_tokenize(input@.skip(j as int)),
                            );
                            assert(spec_tokenize(s_i) == cons_token(
                                tv,
                                spec_tokenize(input@.skip(j as int)),
                            ));
                            assert(cons_token(tv, spec_tokenize(input@.skip(j as int)))
                                == prepend_tokens(seq![tv], spec_tokenize(input@.skip(j as int))));
                        }
                        i = j;
                    } else {
                        proof {
                            if is_canonical_roman(run) {
                                let n = choose|n: int| 1 <= n <= 3999 && spec_roman(n) == run;
                                lemma_roman_round_trip(n);
                                assert(n == v as int);
                                assert(enc@ == run);
                            }
                        }
                        return Err(SyntaxError { pos: i, expected: Rule::roman });
                    }
                },
            }
        } else {
            return Err(SyntaxError { pos: i, expected: Rule::program });
        }
    }
    proof {
        assert(input@.skip(len as int) =~= Seq::<char>::empty());
        assert(toks_views(toks@) + Seq::<TokenView>::empty() =~= toks_views(toks@));
    }
    Ok(toks)
}

/// Puts an already-tokenized prefix in front of a tokenization outcome.
pub open spec fn prepend_tokens(pre: Seq<TokenView>, rest: Option<Seq<TokenView>>) -> Option<
    Seq<TokenView>,
> {
    match rest {
        Some(ts) => Some(pre + ts),
        None => None,
    }
}

proof fn lemma_prepend_snoc(pre: Seq<TokenView>, t: TokenView, rest: Option<Seq<TokenView>>)
    ensures
        prepend_tokens(pre.push(t), rest) == prepend_tokens(pre, prepend_tokens(seq![t], rest)),
{
    match rest {
        Some(ts) => {
            assert(pre.push(t) + ts =~= pre + (seq![t] + ts));
        },
        None => {},
    }
}


/// Peeks the additive operator at token position `i`.
pub open spec fn add_op_at(ts: Seq<TokenView>, i: int) -> Option<AddOp> {
    if 0 <= i < ts.len() {
        if ts[i] is Plus {
            Some(AddOp::Plus)
        } else if ts[i] is Minus {
            Some(AddOp::Minus)
        } else {
            None
        }
    } else {
        None
    }
}

/// Peeks the multiplicative operator at token position `i`.
pub open spec fn mul_op_at(ts: Seq<TokenView>, i: int) -> Option<MulOp> {
    if 0 <= i < ts.len() {
        if ts[i] is Star {
            Some(MulOp::Times)
        } else if ts[i] is Slash {
            Some(MulOp::Divide)
        } else {
            None
        }
    } else {
        None
    }
}

/// Matches `group := '(' expr ')'` at token position `i`.
pub open spec fn sp_group(ts: Seq<TokenView>, i: int) -> Option<(NodeView, int)>
    decreases ts.len() - i, 0int,
{
    if !(0 <= i < ts.len()) {
        None
    } else if ts[i] is Open {
        match sp_expr(ts, i + 1) {
            Some((body, j)) => if i + 1 <= j < ts.len() && ts[j] is Close {
                Some((NodeView::Group { body: Box::new(body) }, j + 1))
            } else {
                None
            },
            None => None,
        }
    } else {
        None
    }
}

/// Matches `roman | group` at token position `i`.
pub open spec fn sp_primary(ts: Seq<TokenView>, i: int) -> Option<(NodeView, int)>
    decreases ts.len() - i, 1int,
{
    if !(0 <= i < ts.len()) {
        None
    } else if ts[i] is Numeral {
        Some((NodeView::Roman { text: ts[i]->Numeral_text }, i + 1))
    } else {
        sp_group(ts, i)
    }
}

/// Matches `factor := operator_unary? (roman | group)` at position `i`.
pub open spec fn sp_factor(ts: Seq<TokenView>, i: int) -> Option<(NodeView, int)>
    decreases ts.len() - i, 2int,
{
    if !(0 <= i < ts.len()) {
        None
    } else if ts[i] is Plus || ts[i] is Minus {
        let sign = if ts[i] is Minus {
            UnaryOp::Minus
        } else {
            UnaryOp::Plus
        };
        match sp_primary(ts, i + 1) {
            Some((operand, j)) => Some(
                (NodeView::Factor { sign: Some(sign), operand: Box::new(operand) }, j),
            ),
            None => None,
        }
    } else {
        match sp_primary(ts, i) {
            Some((operand, j)) => Some(
                (NodeView::Factor { sign: None, operand: Box::new(operand) }, j),
            ),
            None => None,
        }
    }
}

/// Matches `(operator_mul factor)*` at position `i`.
pub open spec fn sp_strong_more(ts: Seq<TokenView>, i: int) -> Option<(Seq<MulLinkView>, int)>
    decreases ts.len() - i, 3int,
{
    if !(0 <= i <= ts.len()) {
        None
    } else {
        match mul_op_at(ts, i) {
            None => Some((Seq::empty(), i)),
            Some(op) => match sp_factor(ts, i + 1) {
                Some((operand, j)) => if i + 1 < j <= ts.len() {
                    match sp_strong_more(ts, j) {
                        Some((links, k)) => Some((seq![MulLinkView { op, operand }] + links, k)),
                        None => None,
                    }
                } else {
                    None
                },
                None => None,
            },
        }
    }
}

/// Matches `strong_term := factor (operator_mul factor)*` at position `i`.
pub open spec fn sp_strong(ts: Seq<TokenView>, i: int) -> Option<(NodeView, int)>
    decreases ts.len() - i, 4int,
{
    if !(0 <= i <= ts.len()) {
        None
    } else {
        match sp_factor(ts, i) {
            Some((first, j)) => if i < j <= ts.len() {
                match sp_strong_more(ts, j) {
                    Some((links, k)) => Some(
                        (NodeView::StrongTerm { first: Box::new(first), rest: links }, k),
                    ),
                    None => None,
                }
            } else {
                None
            },
            None => None,
        }
    }
}

/// Matches `(operator_add strong_term)*` at position `i`.
pub open spec fn sp_term_more(ts: Seq<TokenView>, i: int) -> Option<(Seq<AddLinkView>, int)>
    decreases ts.len() - i, 5int,
{
    if !(0 <= i <= ts.len()) {
        None
    } else {
        match add_op_at(ts, i) {
            None => Some((Seq::empty(), i)),
            Some(op) => match sp_strong(ts, i + 1) {
                Some((operand, j)) => if i + 1 < j <= ts.len() {
                    match sp_term_more(ts, j) {
                        Some((links, k)) => Some((seq![AddLinkView { op, operand }] + links, k)),
                        None => None,
                    }
                } else {
                    None
                },
                None => None,
            },
        }
    }
}

/// Matches `term := strong_term (operator_add strong_term)*` at position `i`.
pub open spec fn sp_term(ts: Seq<TokenView>, i: int) -> Option<(NodeView, int)>
    decreases ts.len() - i, 6int,
{
    if !(0 <= i <= ts.len()) {
        None
    } else {
        match sp_strong(ts, i) {
            Some((first, j)) => if i < j <= ts.len() {
                match sp_term_more(ts, j) {
                    Some((links, k)) => Some(
                        (NodeView::Term { first: Box::new(first), rest: links }, k),
                    ),
                    None => None,
                }
            } else {
                None
            },
            None => None,
        }
    }
}

/// Matches `expr := term` at position `i`.
pub open spec fn sp_expr(ts: Seq<TokenView>, i: int) -> Option<(NodeView, int)>
    decreases ts.len() - i, 7int,
{
    if !(0 <= i <= ts.len()) {
        None
    } else {
        match sp_term(ts, i) {
            Some((body, j)) => Some((NodeView::Expr { body: Box::new(body) }, j)),
            None => None,
        }
    }
}


/// Well-formedness of a token vector: every numeral is canonical.
pub open spec fn toks_wf(ts: Seq<Tok>) -> bool {
    forall|j: int| 0 <= j < ts.len() ==> token_wf(#[trigger] ts[j].token)
}

/// Puts an already-parsed chain prefix in front of a chain outcome.
pub open spec fn thread_links<T>(pre: Seq<T>, rest: Option<(Seq<T>, int)>) -> Option<
    (Seq<T>, int),
> {
    match rest {
        Some(p) => Some((pre + p.0, p.1)),
        None => None,
    }
}

proof fn lemma_thread_empty<T>(rest: Option<(Seq<T>, int)>)
    ensures
        thread_links(Seq::<T>::empty(), rest) == rest,
{
    match rest {
        Some(p) => {
            assert(Seq::<T>::empty() + p.0 =~= p.0);
        },
        None => {},
    }
}

proof fn lemma_thread_snoc<T>(pre: Seq<T>, t: T, rest: Option<(Seq<T>, int)>)
    ensures
        thread_links(pre.push(t), rest) == thread_links(pre, thread_links(seq![t], rest)),
{
    match rest {
        Some(p) => {
            assert(pre.push(t) + p.0 =~= pre + (seq![t] + p.0));
        },
        None => {},
    }
}

fn add_op_peek(toks: &Vec<Tok>, i: usize) -> (r: Option<AddOp>)
    ensures
        r == add_op_at(toks_views(toks@), i as int),
{
    proof {
        if i < toks@.len() {
            assert(toks_views(toks@)[i as int] == toks@[i as int].token@);
        }
    }
    if i < toks.len() {
        match &toks[i].token {
            Token::Plus => Some(AddOp::Plus),
            Token::Minus => Some(AddOp::Minus),
            _ => None,
        }
    } else {
        None
    }
}

fn mul_op_peek(toks: &Vec<Tok>, i: usize) -> (r: Option<MulOp>)
    ensures
        r == mul_op_at(toks_views(toks@), i as int),
{
    proof {
        if i < toks@.len() {
            assert(toks_views(toks@)[i as int] == toks@[i as int].token@);
        }
    }
    if i < toks.len() {
        match &toks[i].token {
            Token::Star => Some(MulOp::Times),
            Token::Slash => Some(MulOp::Divide),
            _ => None,
        }
    } else {
        None
    }
}

fn err_at(toks: &Vec<Tok>, i: usize, eof: usize, expected: Rule) -> (r: SyntaxError) {
    if i < toks.len() {
        SyntaxError { pos: toks[i].start, expected }
    } else {
        SyntaxError { pos: eof, expected }
    }
}

fn parse_group_at(toks: &Vec<Tok>, i: usize, eof: usize) -> (r: Result<(Node, usize), SyntaxError>)
    requires
        i <= toks@.len(),
        toks_wf(toks@),
    ensures
        r is Ok ==> sp_group(toks_views(toks@), i as int) == Some((r->Ok_0.0@, r->Ok_0.1 as int)),
        r is Ok ==> i < r->Ok_0.1 <= toks@.len(),
        r is Ok ==> node_wf(r->Ok_0.0@),
        r is Err ==> sp_group(toks_views(toks@), i as int) is None,
    decreases toks@.len() - i, 0int,
{
    let ghost ts = toks_views(toks@);
    proof {
        if i < toks@.len() {
            assert(ts[i as int] == toks@[i as int].token@);
        }
    }
    if i >= toks.len() {
        return Err(err_at(toks, i, eof, Rule::group));
    }
    match &toks[i].token {
        Token::Open => {
            let (body, j) = match parse_expr_at(toks, i + 1, eof) {
                Ok(p) => p,
                Err(e) => {
                    return Err(e);
                },
            };
            proof {
                assert(ts[j as int] == toks@[j as int].token@ || j == toks@.len());
            }
            if j < toks.len() {
                proof {
                    assert(ts[j as int] == toks@[j as int].token@);
                }
                match &toks[j].token {
                    Token::Close => Ok((Node::Group { body: Box::new(body) }, j + 1)),
                    _ => Err(err_at(toks, j, eof, Rule::group)),
                }
            } else {
                Err(err_at(toks, j, eof, Rule::group))
            }
        },
        _ => Err(err_at(toks, i, eof, Rule::group)),
    }
}

fn parse_primary_at(toks: &Vec<Tok>, i: usize, eof: usize) -> (r: Result<
    (Node, usize),
    SyntaxError,
>)
    requires
        i <= toks@.len(),
        toks_wf(toks@),
    ensures
        r is Ok ==> sp_primary(toks_views(toks@), i as int) == Some(
            (r->Ok_0.0@, r->Ok_0.1 as int),
        ),
        r is Ok ==> i < r->Ok_0.1 <= toks@.len(),
        r is Ok ==> node_wf(r->Ok_0.0@),
        r is Err ==> sp_primary(toks_views(toks@), i as int) is None,
    decreases toks@.len() - i, 1int,
{
    let ghost ts = toks_views(toks@);
    proof {
        if i < toks@.len() {
            assert(ts[i as int] == toks@[i as int].token@);
        }
    }
    if i >= toks.len() {
        return Err(err_at(toks, i, eof, Rule::factor));
    }
    match &toks[i].token {
        Token::Numeral { text } => {
            let node = Node::Roman { text: text.clone() };
            proof {
                assert(token_wf(toks@[i as int].token));
            }
            Ok((node, i + 1))
        },
        _ => parse_group_at(toks, i, eof),
    }
}

fn parse_factor_at(toks: &Vec<Tok>, i: usize, eof: usize) -> (r: Result<
    (Node, usize),
    SyntaxError,
>)
    requires
        i <= toks@.len(),
        toks_wf(toks@),
    ensures
        r is Ok ==> sp_factor(toks_views(toks@), i as int) == Some(
            (r->Ok_0.0@, r->Ok_0.1 as int),
        ),
        r is Ok ==> i < r->Ok_0.1 <= toks@.len(),
        r is Ok ==> node_wf(r->Ok_0.0@),
        r is Err ==> sp_factor(toks_views(toks@), i as int) is None,
    decreases toks@.len() - i, 2int,
{
    let ghost ts = toks_views(toks@);
    proof {
        if i < toks@.len() {
            assert(ts[i as int] == toks@[i as int].token@);
        }
    }
    if i >= toks.len() {
        return Err(err_at(toks, i, eof, Rule::factor));
    }
    let sign: Option<UnaryOp> = match &toks[i].token {
        Token::Plus => Some(UnaryOp::Plus),
        Token::Minus => Some(UnaryOp::Minus),
        _ => None,
    };
    match sign {
        Some(s) => {
            let (operand, j) = match parse_primary_at(toks, i + 1, eof) {
                Ok(p) => p,
                Err(e) => {
                    return Err(e);
                },
            };
            Ok((Node::Factor { sign: Some(s), operand: Box::new(operand) }, j))
        },
        None => {
            let (operand, j) = match parse_primary_at(toks, i, eof) {
                Ok(p) => p,
                Err(e) => {
                    return Err(e);
                },
            };
            Ok((Node::Factor { sign: None, operand: Box::new(operand) }, j))
        },
    }
}

fn parse_strong_at(toks: &Vec<Tok>, i: usize, eof: usize) -> (r: Result<
    (Node, usize),
    SyntaxError,
>)
    requires
        i <= toks@.len(),
        toks_wf(toks@),
    ensures
        r is Ok ==> sp_strong(toks_views(toks@), i as int) == Some(
            (r->Ok_0.0@, r->Ok_0.1 as int),
        ),
        r is Ok ==> i < r->Ok_0.1 <= toks@.len(),
        r is Ok ==> node_wf(r->Ok_0.0@),
        r is Err ==> sp_strong(toks_views(toks@), i as int) is None,
    decreases toks@.len() - i, 4int,
{
    let ghost ts = toks_views(toks@);
    let tlen: usize = toks.len();
    proof {
        assert(ts.len() == toks@.len());
    }
    let (first, j) = match parse_factor_at(toks, i, eof) {
        Ok(p) => p,
        Err(e) => {
            return Err(e);
        },
    };
    let mut rest: Vec<MulLink> = Vec::new();
    let mut pos = j;
    let mut next = mul_op_peek(toks, pos);
    proof {
        assert(mul_links_view(rest@) =~= Seq::<MulLinkView>::empty());
        lemma_thread_empty(sp_strong_more(ts, j as int));
    }
    while next.is_some()
        invariant
            toks_wf(toks@),
            ts == toks_views(toks@),
            ts.len() == toks@.len(),
            tlen == toks@.len(),
            i <= toks@.len(),
            i < pos <= toks@.len(),
            i < j <= ts.len(),
            sp_factor(ts, i as int) == Some((node_view(first), j as int)),
            node_wf(node_view(first)),
            next == mul_op_at(ts, pos as int),
            sp_strong_more(ts, j as int) == thread_links(
                mul_links_view(rest@),
                sp_strong_more(ts, pos as int),
            ),
            forall|q: int|
                0 <= q < rest@.len() ==> node_wf(node_view(#[trigger] rest@[q].operand)),
        decreases toks@.len() - pos,
    {
        let op = match next {
            Some(o) => o,
            None => {
                proof {
                    assert(false);
                }
                MulOp::Times
            },
        };
        proof {
            assert(pos < toks@.len());
        }
        let (nd, j2) = match parse_factor_at(toks, pos + 1, eof) {
            Ok(p) => p,
            Err(e) => {
                proof {
                    assert(sp_strong_more(ts, pos as int) is None);
                    assert(sp_strong_more(ts, j as int) is None);
                }
                return Err(e);
            },
        };
        let ghost lv = MulLinkView { op, operand: nd@ };
        let ghost old_rest = rest@;
        rest.push(MulLink { op, operand: nd });
        proof {
            lemma_links_view_index(Seq::empty(), old_rest);
            lemma_links_view_index(Seq::empty(), rest@);
            assert(mul_links_view(rest@) =~= mul_links_view(old_rest).push(lv));
            lemma_thread_snoc(mul_links_view(old_rest), lv, sp_strong_more(ts, j2 as int));
            assert(sp_strong_more(ts, pos as int) == thread_links(
                seq![lv],
                sp_strong_more(ts, j2 as int),
            ));
        }
        pos = j2;
        next = mul_op_peek(toks, pos);
    }
    proof {
        assert(sp_strong_more(ts, pos as int) == Some((Seq::<MulLinkView>::empty(), pos as int)));
        assert(mul_links_view(rest@) + Seq::<MulLinkView>::empty() =~= mul_links_view(rest@));
        lemma_links_view_index(Seq::empty(), rest@);
    }
    let node = Node::StrongTerm { first: Box::new(first), rest };
    proof {
        assert(node_wf(node@));
    }
    Ok((node, pos))
}

fn parse_term_at(toks: &Vec<Tok>, i: usize, eof: usize) -> (r: Result<(Node, usize), SyntaxError>)
    requires
        i <= toks@.len(),
        toks_wf(toks@),
    ensures
        r is Ok ==> sp_term(toks_views(toks@), i as int) == Some((r->Ok_0.0@, r->Ok_0.1 as int)),
        r is Ok ==> i < r->Ok_0.1 <= toks@.len(),
        r is Ok ==> node_wf(r->Ok_0.0@),
        r is Err ==> sp_term(toks_views(toks@), i as int) is None,
    decreases toks@.len() - i, 6int,
{
    let ghost ts = toks_views(toks@);
    let tlen: usize = toks.len();
    proof {
        assert(ts.len() == toks@.len());
    }
    let (first, j) = match parse_strong_at(toks, i, eof) {
        Ok(p) => p,
        Err(e) => {
            return Err(e);
        },
    };
    let mut rest: Vec<AddLink> = Vec::new();
    let mut pos = j;
    let mut next = add_op_peek(toks, pos);
    proof {
        assert(add_links_view(rest@) =~= Seq::<AddLinkView>::empty());
        lemma_thread_empty(sp_term_more(ts, j as int));
    }
    while next.is_some()
        invariant
            toks_wf(toks@),
            ts == toks_views(toks@),
            ts.len() == toks@.len(),
            tlen == toks@.len(),
            i <= toks@.len(),
            i < pos <= toks@.len(),
            i < j <= ts.len(),
            sp_strong(ts, i as int) == Some((node_view(first), j as int)),
            node_wf(node_view(first)),
            next == add_op_at(ts, pos as int),
            sp_term_more(ts, j as int) == thread_links(
                add_links_view(rest@),
                sp_term_more(ts, pos as int),
            ),
            forall|q: int|
                0 <= q < rest@.len() ==> node_wf(node_view(#[trigger] rest@[q].operand)),
        decreases toks@.len() - pos,
    {
        let op = match next {
            Some(o) => o,
            None => {
                proof {
                    assert(false);
                }
                AddOp::Plus
            },
        };
        proof {
            assert(pos < toks@.len());
        }
        let (nd, j2) = match parse_strong_at(toks, pos + 1, eof) {
            Ok(p) => p,
            Err(e) => {
                proof {
                    assert(sp_term_more(ts, pos as int) is None);
                    assert(sp_term_more(ts, j as int) is None);
                }
                return Err(e);
            },
        };
        let ghost lv = AddLinkView { op, operand: nd@ };
        let ghost old_rest = rest@;
        rest.push(AddLink { op, operand: nd });
        proof {
            lemma_links_view_index(old_rest, Seq::empty());
            lemma_links_view_index(rest@, Seq::empty());
            assert(add_links_view(rest@) =~= add_links_view(old_rest).push(lv));
            lemma_thread_snoc(add_links_view(old_rest), lv, sp_term_more(ts, j2 as int));
            assert(sp_term_more(ts, pos as int) == thread_links(
                seq![lv],
                sp_term_more(ts, j2 as int),
            ));
        }
        pos = j2;
        next = add_op_peek(toks, pos);
    }
    proof {
        assert(sp_term_more(ts, pos as int) == Some((Seq::<AddLinkView>::empty(), pos as int)));
        assert(add_links_view(rest@) + Seq::<AddLinkView>::empty() =~= add_links_view(rest@));
        lemma_links_view_index(rest@, Seq::empty());
    }
    let node = Node::Term { first: Box::new(first), rest };
    proof {
        assert(node_wf(node@));
    }
    Ok((node, pos))
}

fn parse_expr_at(toks: &Vec<Tok>, i: usize, eof: usize) -> (r: Result<(Node, usize), SyntaxError>)
    requires
        i <= toks@.len(),
        toks_wf(toks@),
    ensures
        r is Ok ==> sp_expr(toks_views(toks@), i as int) == Some((r->Ok_0.0@, r->Ok_0.1 as int)),
        r is Ok ==> i < r->Ok_0.1 <= toks@.len(),
        r is Ok ==> node_wf(r->Ok_0.0@),
        r is Err ==> sp_expr(toks_views(toks@), i as int) is None,
    decreases toks@.len() - i, 7int,
{
    match parse_term_at(toks, i, eof) {
        Ok((body, j)) => Ok((Node::Expr { body: Box::new(body) }, j)),
        Err(e) => Err(e),
    }
}


/// What `Grammar::parse` returns: the rule matched, the exact span the
/// match covers (first token through last), and the subtree for the rules
/// that produce one.
#[derive(Debug, PartialEq)]
pub struct Pair {
    pub rule: Rule,
    pub text: String,
    pub node: Option<Node>,
}

/// Mathematical image of a `Pair`.
pub struct PairView {
    pub rule: Rule,
    pub text: Seq<char>,
    pub node: Option<NodeView>,
}

impl View for Pair {
    type V = PairView;

    open spec fn view(&self) -> PairView {
        PairView {
            rule: self.rule,
            text: self.text@,
            node: match self.node {
                Some(n) => Some(node_view(n)),
                None => None,
            },
        }
    }
}

impl Pair {
    /// The exact substring this match spans.
    pub fn as_str(&self) -> (r: &str)
        ensures
            r@ == self.text@,
    {
        self.text.as_str()
    }
}

/// Every tree a pair carries is well formed.
pub open spec fn pair_wf(p: PairView) -> bool {
    match p.node {
        Some(nv) => node_wf(nv),
        None => true,
    }
}

/// Whether `text` is a thousands-place encoding: M, MM or MMM.
pub open spec fn matches_thousands(text: Seq<char>) -> bool {
    exists|d: int| 1 <= d <= 3 && text == thousands_chars(d)
}

/// Whether `text` is a hundreds-place encoding.
pub open spec fn matches_hundreds(text: Seq<char>) -> bool {
    exists|d: int| 1 <= d <= 9 && text == hundreds_chars(d)
}

/// Whether `text` is a tens-place encoding.
pub open spec fn matches_tens(text: Seq<char>) -> bool {
    exists|d: int| 1 <= d <= 9 && text == tens_chars(d)
}

/// Whether `text` is a units-place encoding.
pub open spec fn matches_units(text: Seq<char>) -> bool {
    exists|d: int| 1 <= d <= 9 && text == units_chars(d)
}

/// The outcome of matching `rule` against the whole of `s`: the tokens of
/// `s` must match the rule exactly, with nothing left over.
pub open spec fn sp_parse(rule: Rule, s: Seq<char>) -> Option<PairView> {
    match spec_tokenize(s) {
        None => None,
        Some(ts) => {
            let text = spec_trim(s);
            match rule {
                Rule::program => match sp_expr(ts, 0) {
                    Some((e, j)) => if j == ts.len() {
                        Some(
                            PairView {
                                rule,
                                text,
                                node: Some(NodeView::Program { body: Box::new(e) }),
                            },
                        )
                    } else {
                        None
                    },
                    None => None,
                },
                Rule::expr => match sp_expr(ts, 0) {
                    Some((e, j)) => if j == ts.len() {
                        Some(PairView { rule, text, node: Some(e) })
                    } else {
                        None
                    },
                    None => None,
                },
                Rule::term => match sp_term(ts, 0) {
                    Some((e, j)) => if j == ts.len() {
                        Some(PairView { rule, text, node: Some(e) })
                    } else {
                        None
                    },
                    None => None,
                },
                Rule::strong_term => match sp_strong(ts, 0) {
                    Some((e, j)) => if j == ts.len() {
                        Some(PairView { rule, text, node: Some(e) })
                    } else {
                        None
                    },
                    None => None,
                },
                Rule::factor => match sp_factor(ts, 0) {
                    Some((e, j)) => if j == ts.len() {
                        Some(PairView { rule, text, node: Some(e) })
                    } else {
                        None
                    },
                    None => None,
                },
                Rule::group => match sp_group(ts, 0) {
                    Some((e, j)) => if j == ts.len() {
                        Some(PairView { rule, text, node: Some(e) })
                    } else {
                        None
                    },
                    None => None,
                },
                Rule::roman => if ts.len() == 1 && ts[0] is Numeral {
                    Some(
                        PairView {
                            rule,
                            text,
                            node: Some(NodeView::Roman { text: ts[0]->Numeral_text }),
                        },
                    )
                } else {
                    None
                },
                Rule::roman_thousands => if ts.len() == 1 && ts[0] is Numeral
                    && matches_thousands(ts[0]->Numeral_text) {
                    Some(PairView { rule, text, node: None })
                } else {
                    None
                },
                Rule::roman_hundreds => if ts.len() == 1 && ts[0] is Numeral && matches_hundreds(
                    ts[0]->Numeral_text,
                ) {
                    Some(PairView { rule, text, node: None })
                } else {
                    None
                },
                Rule::roman_tens => if ts.len() == 1 && ts[0] is Numeral && matches_tens(
                    ts[0]->Numeral_text,
                ) {
                    Some(PairView { rule, text, node: None })
                } else {
                    None
                },
                Rule::roman_units => if ts.len() == 1 && ts[0] is Numeral && matches_units(
                    ts[0]->Numeral_text,
                ) {
                    Some(PairView { rule, text, node: None })
                } else {
                    None
                },
                Rule::operator_add => if ts.len() == 1 && (ts[0] is Plus || ts[0] is Minus) {
                    Some(PairView { rule, text, node: None })
                } else {
                    None
                },
                Rule::operator_mul => if ts.len() == 1 && (ts[0] is Star || ts[0] is Slash) {
                    Some(PairView { rule, text, node: None })
                } else {
                    None
                },
                Rule::operator_unary => if ts.len() == 1 && (ts[0] is Plus || ts[0] is Minus) {
                    Some(PairView { rule, text, node: None })
                } else {
                    None
                },
            }
        },
    }
}

/// Whitespace insensitivity: two inputs that carry the same tokens parse
/// alike under every rule — same success or failure, same rule tag, and
/// structurally equal trees. Only the recorded span can differ.
pub proof fn lemma_whitespace_insensitive(rule: Rule, a: Seq<char>, b: Seq<char>)
    requires
        spec_tokenize(a) == spec_tokenize(b),
    ensures
        sp_parse(rule, a) is Some <==> sp_parse(rule, b) is Some,
        sp_parse(rule, a) is Some ==> sp_parse(rule, a)->0.rule == sp_parse(rule, b)->0.rule,
        sp_parse(rule, a) is Some ==> sp_parse(rule, a)->0.node == sp_parse(rule, b)->0.node,
{
}


/// The grammar: parses an input string against any of its rules. The
/// match must cover the whole input (whitespace aside).
pub struct Grammar;

impl Grammar {
    /// Matches `rule` against all of `input`, producing the matched pair
    /// or the syntax error, exactly as `sp_parse` lays down.
    #[verifier::rlimit(100)]
    pub fn parse(rule: Rule, input: &str) -> (r: Result<Pair, SyntaxError>)
        ensures
            r is Ok <==> sp_parse(rule, input@) is Some,
            r is Ok ==> Some(r->Ok_0@) == sp_parse(rule, input@),
            r is Ok ==> pair_wf(r->Ok_0@),
    {
        let toks = match tokenize(input) {
            Ok(t) => t,
            Err(e) => {
                return Err(e);
            },
        };
        let ghost ts = toks_views(toks@);
        let eof = input.unicode_len();
        let text = trim_of(input);
        proof {
            assert(ts.len() == toks@.len());
            if toks@.len() > 0 {
                assert(ts[0] == toks@[0].token@);
            }
        }
        match rule {
            Rule::program => {
                match parse_expr_at(&toks, 0, eof) {
                    Ok((n, j)) => {
                        if j == toks.len() {
                            Ok(
                                Pair {
                                    rule,
                                    text,
                                    node: Some(Node::Program { body: Box::new(n) }),
                                },
                            )
                        } else {
                            Err(err_at(&toks, j, eof, Rule::program))
                        }
                    },
                    Err(e) => Err(e),
                }
            },
            Rule::expr => {
                match parse_expr_at(&toks, 0, eof) {
                    Ok((n, j)) => {
                        if j == toks.len() {
                            Ok(Pair { rule, text, node: Some(n) })
                        } else {
                            Err(err_at(&toks, j, eof, Rule::expr))
                        }
                    },
                    Err(e) => Err(e),
                }
            },
            Rule::term => {
                match parse_term_at(&toks, 0, eof) {
                    Ok((n, j)) => {
                        if j == toks.len() {
                            Ok(Pair { rule, text, node: Some(n) })
                        } else {
                            Err(err_at(&toks, j, eof, Rule::term))
                        }
                    },
                    Err(e) => Err(e),
                }
            },
            Rule::strong_term => {
                match parse_strong_at(&toks, 0, eof) {
                    Ok((n, j)) => {
                        if j == toks.len() {
                            Ok(Pair { rule, text, node: Some(n) })
                        } else {
                            Err(err_at(&toks, j, eof, Rule::strong_term))
                        }
                    },
                    Err(e) => Err(e),
                }
            },
            Rule::factor => {
                match parse_factor_at(&toks, 0, eof) {
                    Ok((n, j)) => {
                        if j == toks.len() {
                            Ok(Pair { rule, text, node: Some(n) })
                        } else {
                            Err(err_at(&toks, j, eof, Rule::factor))
                        }
                    },
                    Err(e) => Err(e),
                }
            },
            Rule::group => {
                match parse_group_at(&toks, 0, eof) {
                    Ok((n, j)) => {
                        if j == toks.len() {
                            Ok(Pair { rule, text, node: Some(n) })
                        } else {
                            Err(err_at(&toks, j, eof, Rule::group))
                        }
                    },
                    Err(e) => Err(e),
                }
            },
            Rule::roman => {
                if toks.len() == 1 {
                    match &toks[0].token {
                        Token::Numeral { text: numeral } => {
                            proof {
                                assert(token_wf(toks@[0].token));
                            }
                            Ok(Pair { rule, text, node: Some(Node::Roman { text: numeral.clone() }) })
                        },
                        _ => Err(err_at(&toks, 0, eof, Rule::roman)),
                    }
                } else {
                    Err(err_at(&toks, 0, eof, Rule::roman))
                }
            },
            Rule::roman_thousands => {
                match place_digit(&toks, eof, rule) {
                    Ok(v) => {
                        if v >= 1000 && v <= 3000 && v % 1000 == 0 {
                            proof {
                                lemma_place_roman(v as int / 1000);
                                assert(1000 * (v as int / 1000) == v as int);
                            }
                            Ok(Pair { rule, text, node: None })
                        } else {
                            proof {
                                if matches_thousands(ts[0]->Numeral_text) {
                                    let d = choose|d: int|
                                        1 <= d <= 3 && ts[0]->Numeral_text == thousands_chars(d);
                                    lemma_place_roman(d);
                                    lemma_roman_round_trip(1000 * d);
                                }
                            }
                            Err(err_at(&toks, 0, eof, rule))
                        }
                    },
                    Err(e) => Err(e),
                }
            },
            Rule::roman_hundreds => {
                match place_digit(&toks, eof, rule) {
                    Ok(v) => {
                        if v >= 100 && v <= 900 && v % 100 == 0 {
                            proof {
                                lemma_place_roman(v as int / 100);
                                assert(100 * (v as int / 100) == v as int);
                            }
                            Ok(Pair { rule, text, node: None })
                        } else {
                            proof {
                                if matches_hundreds(ts[0]->Numeral_text) {
                                    let d = choose|d: int|
                                        1 <= d <= 9 && ts[0]->Numeral_text == hundreds_chars(d);
                                    lemma_place_roman(d);
                                    lemma_roman_round_trip(100 * d);
                                }
                            }
                            Err(err_at(&toks, 0, eof, rule))
                        }
                    },
                    Err(e) => Err(e),
                }
            },
            Rule::roman_tens => {
                match place_digit(&toks, eof, rule) {
                    Ok(v) => {
                        if v >= 10 && v <= 90 && v % 10 == 0 {
                            proof {
                                lemma_place_roman(v as int / 10);
                                assert(10 * (v as int / 10) == v as int);
                            }
                            Ok(Pair { rule, text, node: None })
                        } else {
                            proof {
                                if matches_tens(ts[0]->Numeral_text) {
                                    let d = choose|d: int|
                                        1 <= d <= 9 && ts[0]->Numeral_text == tens_chars(d);
                                    lemma_place_roman(d);
                                    lemma_roman_round_trip(10 * d);
                                }
                            }
                            Err(err_at(&toks, 0, eof, rule))
                        }
                    },
                    Err(e) => Err(e),
                }
            },
            Rule::roman_units => {
                match place_digit(&toks, eof, rule) {
                    Ok(v) => {
                        if v >= 1 && v <= 9 {
                            proof {
                                lemma_place_roman(v as int);
                            }
                            Ok(Pair { rule, text, node: None })
                        } else {
                            proof {
                                if matches_units(ts[0]->Numeral_text) {
                                    let d = choose|d: int|
                                        1 <= d <= 9 && ts[0]->Numeral_text == units_chars(d);
                                    lemma_place_roman(d);
                                    lemma_roman_round_trip(d);
                                }
                            }
                            Err(err_at(&toks, 0, eof, rule))
                        }
                    },
                    Err(e) => Err(e),
                }
            },
            Rule::operator_add => {
                if toks.len() == 1 {
                    match &toks[0].token {
                        Token::Plus => Ok(Pair { rule, text, node: None }),
                        Token::Minus => Ok(Pair { rule, text, node: None }),
                        _ => Err(err_at(&toks, 0, eof, rule)),
                    }
                } else {
                    Err(err_at(&toks, 0, eof, rule))
                }
            },
            Rule::operator_mul => {
                if toks.len() == 1 {
                    match &toks[0].token {
                        Token::Star => Ok(Pair { rule, text, node: None }),
                        Token::Slash => Ok(Pair { rule, text, node: None }),
                        _ => Err(err_at(&toks, 0, eof, rule)),
                    }
                } else {
                    Err(err_at(&toks, 0, eof, rule))
                }
            },
            Rule::operator_unary => {
                if toks.len() == 1 {
                    match &toks[0].token {
                        Token::Plus => Ok(Pair { rule, text, node: None }),
                        Token::Minus => Ok(Pair { rule, text, node: None }),
                        _ => Err(err_at(&toks, 0, eof, rule)),
                    }
                } else {
                    Err(err_at(&toks, 0, eof, rule))
                }
            },
        }
    }
}

/// Reads the single numeral token a place rule expects and decodes its
/// value by the subtractive scan.
fn place_digit(toks: &Vec<Tok>, eof: usize, rule: Rule) -> (r: Result<i32, SyntaxError>)
    requires
        toks_wf(toks@),
    ensures
        r is Ok ==> toks_views(toks@).len() == 1 && toks_views(toks@)[0] is Numeral,
        r is Ok ==> r->Ok_0 as int == scan_value(toks_views(toks@)[0]->Numeral_text),
        r is Ok ==> 1 <= r->Ok_0 <= 3999 && spec_roman(r->Ok_0 as int) == toks_views(
            toks@,
        )[0]->Numeral_text,
        r is Err ==> !(toks_views(toks@).len() == 1 && toks_views(toks@)[0] is Numeral),
{
    proof {
        assert(toks_views(toks@).len() == toks@.len());
        if toks@.len() > 0 {
            assert(toks_views(toks@)[0] == toks@[0].token@);
        }
    }
    if toks.len() != 1 {
        return Err(err_at(toks, 0, eof, rule));
    }
    match &toks[0].token {
        Token::Numeral { text: numeral } => {
            proof {
                assert(token_wf(toks@[0].token));
                let n = choose|n: int| 1 <= n <= 3999 && spec_roman(n) == numeral@;
                lemma_canonical_len(n);
                lemma_roman_round_trip(n);
            }
            let v = scan_chars(numeral.as_str());
            Ok(v)
        },
        _ => Err(err_at(toks, 0, eof, rule)),
    }
}

} // verus!
