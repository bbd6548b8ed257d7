//! Boolean queries: from infix text to a postfix program.
//!
//! A query is cut at blanks, parentheses are split off the words they touch,
//! and an operator stack turns the token stream into postfix order.

use vstd::prelude::*;
use vstd::multiset::Multiset;
use crate::text::{
    chars_of, delimits, fragments, is_blank, is_paren, lemma_fragments_clean,
    lemma_fragments_single, lemma_texts_push,
    split, string_of, strings_of, texts, trim, trimmed, Delimiter,
};

verus! {

/// What a token of a query stands for.
#[derive(Clone, Copy, Debug, PartialEq, Eq, Structural)]
pub enum Symbol {
    And,
    Or,
    Not,
    Open,
    Close,
    Word,
}

/// The text `AND`.
pub open spec fn and_op() -> Seq<char> {
    seq!['A', 'N', 'D']
}

/// The text `OR`.
pub open spec fn or_op() -> Seq<char> {
    seq!['O', 'R']
}

/// The text `NOT`.
pub open spec fn not_op() -> Seq<char> {
    seq!['N', 'O', 'T']
}

/// The text `(`.
pub open spec fn open_paren() -> Seq<char> {
    seq!['(']
}

/// The text `)`.
pub open spec fn close_paren() -> Seq<char> {
    seq![')']
}

/// The symbol that a token stands for. Operators are matched by case; a token
/// that is neither an operator nor a parenthesis is a word.
pub open spec fn symbol_of(t: Seq<char>) -> Symbol {
    if t == and_op() {
        Symbol::And
    } else if t == or_op() {
        Symbol::Or
    } else if t == not_op() {
        Symbol::Not
    } else if t == open_paren() {
        Symbol::Open
    } else if t == close_paren() {
        Symbol::Close
    } else {
        Symbol::Word
    }
}

/// The text of an operator or a parenthesis; a word has no text of its own.
pub open spec fn symbol_text(s: Symbol) -> Seq<char> {
    match s {
        Symbol::And => and_op(),
        Symbol::Or => or_op(),
        Symbol::Not => not_op(),
        Symbol::Open => open_paren(),
        Symbol::Close => close_paren(),
        Symbol::Word => Seq::empty(),
    }
}

/// How often `c` occurs in `s`.
pub open spec fn occurrences(s: Seq<char>, c: char) -> nat
    decreases s.len(),
{
    if s.len() == 0 {
        0
    } else {
        occurrences(s.drop_last(), c) + if s.last() == c {
            1nat
        } else {
            0nat
        }
    }
}

/// What is left of a token when the parentheses at both ends are taken off,
/// as a token of its own; nothing where nothing is left.
pub open spec fn remainder(t: Seq<char>) -> Seq<Seq<char>> {
    if trimmed(t, Delimiter::Parenthesis).len() > 0 {
        seq![trimmed(t, Delimiter::Parenthesis)]
    } else {
        Seq::empty()
    }
}

/// The tokens that one blank-separated token gives. One without parentheses
/// is kept. Otherwise: one `(` for each `(` in it, then what is left of it
/// when the parentheses at both ends are taken off, if anything is left, then
/// one `)` for each `)`. So the `(` come first wherever they stood in the
/// token, and a parenthesis between two other characters is counted and
/// stays in the word as well.
pub open spec fn exploded_token(t: Seq<char>) -> Seq<Seq<char>> {
    if occurrences(t, '(') + occurrences(t, ')') == 0 {
        seq![t]
    } else {
        Seq::new(occurrences(t, '('), |i: int| open_paren()) + remainder(t) + Seq::new(
            occurrences(t, ')'),
            |i: int| close_paren(),
        )
    }
}

/// The tokens that a sequence of blank-separated tokens gives.
pub open spec fn exploded(tokens: Seq<Seq<char>>) -> Seq<Seq<char>>
    decreases tokens.len(),
{
    if tokens.len() == 0 {
        Seq::empty()
    } else {
        exploded(tokens.drop_last()) + exploded_token(tokens.last())
    }
}

/// The tokens of a query: its fragments between blanks, parentheses split off.
pub open spec fn query_tokens(q: Seq<char>) -> Seq<Seq<char>> {
    exploded(fragments(q, Delimiter::Blank))
}

/// The operator stack and the output of the conversion.
pub struct Shunt {
    /// The operator stack, its top last.
    pub ops: Seq<Symbol>,
    /// The postfix output so far.
    pub out: Seq<Seq<char>>,
}

/// Whether `top`, on top of the operator stack, leaves for the output before
/// the operator `op` is pushed: it is no `(`, and it is `NOT` under another
/// operator, or the same operator as `op`.
pub open spec fn yields(top: Symbol, op: Symbol) -> bool {
    top != Symbol::Open && ((top == Symbol::Not && op != Symbol::Not) || top == op)
}

/// How many operators leave the top of `ops` before `op` is pushed.
pub open spec fn leaving(ops: Seq<Symbol>, op: Symbol) -> nat
    decreases ops.len(),
{
    if ops.len() > 0 && yields(ops.last(), op) {
        1 + leaving(ops.drop_last(), op)
    } else {
        0
    }
}

/// How many symbols lie above the topmost `(` of `ops`; the length of `ops`
/// where it holds no `(`.
pub open spec fn above_open(ops: Seq<Symbol>) -> nat
    decreases ops.len(),
{
    if ops.len() == 0 || ops.last() == Symbol::Open {
        0
    } else {
        1 + above_open(ops.drop_last())
    }
}

/// The texts of a piece of the operator stack in the order in which they are
/// popped: top first.
pub open spec fn unwound(piece: Seq<Symbol>) -> Seq<Seq<char>> {
    Seq::new(piece.len(), |j: int| symbol_text(piece[piece.len() - 1 - j]))
}

/// One step of the conversion, or `None` where a `)` finds no `(`.
pub open spec fn shunt_step(st: Shunt, token: Seq<char>) -> Option<Shunt> {
    let n = st.ops.len() as int;
    match symbol_of(token) {
        Symbol::Word => Some(Shunt { ops: st.ops, out: st.out.push(token) }),
        Symbol::Open => Some(Shunt { ops: st.ops.push(Symbol::Open), out: st.out }),
        Symbol::Close => {
            let k = above_open(st.ops) as int;
            if k == n {
                None
            } else {
                Some(Shunt { ops: st.ops.take(n - k - 1), out: st.out + unwound(st.ops.skip(n - k)) })
            }
        },
        op => {
            let k = leaving(st.ops, op) as int;
            Some(
                Shunt {
                    ops: st.ops.take(n - k).push(op),
                    out: st.out + unwound(st.ops.skip(n - k)),
                },
            )
        },
    }
}

/// The state after all of `tokens`, or `None` where a step fails.
pub open spec fn shunt(tokens: Seq<Seq<char>>) -> Option<Shunt>
    decreases tokens.len(),
{
    if tokens.len() == 0 {
        Some(Shunt { ops: Seq::empty(), out: Seq::empty() })
    } else {
        match shunt(tokens.drop_last()) {
            None => None,
            Some(st) => shunt_step(st, tokens.last()),
        }
    }
}

/// The postfix program of a token stream: the output of the conversion
/// followed by what is left on the operator stack, top first. `None` where a
/// parenthesis has no partner.
pub open spec fn postfix_of_tokens(tokens: Seq<Seq<char>>) -> Option<Seq<Seq<char>>> {
    match shunt(tokens) {
        None => None,
        Some(st) => if st.ops.contains(Symbol::Open) {
            None
        } else {
            Some(st.out + unwound(st.ops))
        },
    }
}

/// The postfix program of a query.
pub open spec fn postfix_of(q: Seq<char>) -> Option<Seq<Seq<char>>> {
    postfix_of_tokens(query_tokens(q))
}

/// The symbol that `token` stands for.
pub fn classify(token: &str) -> (s: Symbol)
    ensures
        s == symbol_of(token@),
{
    let c = chars_of(token);
    if c.len() == 3 && c[0] == 'A' && c[1] == 'N' && c[2] == 'D' {
        assert(c@ =~= and_op());
        Symbol::And
    } else if c.len() == 2 && c[0] == 'O' && c[1] == 'R' {
        assert(c@ =~= or_op());
        Symbol::Or
    } else if c.len() == 3 && c[0] == 'N' && c[1] == 'O' && c[2] == 'T' {
        assert(c@ =~= not_op());
        Symbol::Not
    } else if c.len() == 1 && c[0] == '(' {
        assert(c@ =~= open_paren());
        Symbol::Open
    } else if c.len() == 1 && c[0] == ')' {
        assert(c@ =~= close_paren());
        Symbol::Close
    } else {
        Symbol::Word
    }
}

/// The text of an operator or a parenthesis, as a string.
pub fn symbol_string(s: Symbol) -> (r: String)
    ensures
        r@ == symbol_text(s),
{
    let mut r = String::new();
    match s {
        Symbol::And => {
            r.push('A');
            r.push('N');
            r.push('D');
        },
        Symbol::Or => {
            r.push('O');
            r.push('R');
        },
        Symbol::Not => {
            r.push('N');
            r.push('O');
            r.push('T');
        },
        Symbol::Open => {
            r.push('(');
        },
        Symbol::Close => {
            r.push(')');
        },
        Symbol::Word => {},
    }
    assert(r@ =~= symbol_text(s));
    r
}


/// Popping one more symbol appends its text to what was unwound.
proof fn lemma_unwound_grow(ops: Seq<Symbol>, j: int)
    requires
        0 <= j < ops.len(),
    ensures
        unwound(ops.skip(ops.len() - j - 1)) == unwound(ops.skip(ops.len() - j)).push(
            symbol_text(ops[ops.len() - j - 1]),
        ),
{
    assert(unwound(ops.skip(ops.len() - j - 1)) =~= unwound(ops.skip(ops.len() - j)).push(
        symbol_text(ops[ops.len() - j - 1]),
    ));
}

/// A conversion that has failed on the first `i` tokens fails on all of them.
proof fn lemma_shunt_stays_failed(tokens: Seq<Seq<char>>, i: int)
    requires
        0 <= i <= tokens.len(),
        shunt(tokens.take(i)) is None,
    ensures
        shunt(tokens) is None,
    decreases tokens.len() - i,
{
    if i == tokens.len() {
        assert(tokens.take(i) =~= tokens);
    } else {
        assert(tokens.take(i + 1).drop_last() =~= tokens.take(i));
        lemma_shunt_stays_failed(tokens, i + 1);
    }
}

/// A character that is nowhere in a text occurs in it no times.
pub proof fn lemma_no_occurrence(s: Seq<char>, c: char)
    requires
        forall|k: int| 0 <= k < s.len() ==> #[trigger] s[k] != c,
    ensures
        occurrences(s, c) == 0,
    decreases s.len(),
{
    if s.len() > 0 {
        let t = s.drop_last();
        assert forall|k: int| 0 <= k < t.len() implies #[trigger] t[k] != c by {
            assert(t[k] == s[k]);
        }
        lemma_no_occurrence(t, c);
        assert(s.last() == s[s.len() - 1]);
    }
}

/// A query that is one word is its own postfix program.
pub proof fn lemma_postfix_of_word(w: Seq<char>)
    requires
        w.len() > 0,
        forall|k: int| 0 <= k < w.len() ==> !is_blank(#[trigger] w[k]) && !is_paren(w[k]),
        symbol_of(w) == Symbol::Word,
    ensures
        postfix_of(w) == Some(seq![w]),
{
    assert forall|k: int| 0 <= k < w.len() implies !delimits(Delimiter::Blank, #[trigger] w[k]) by {
        assert(!is_blank(w[k]));
    }
    lemma_fragments_single(w, Delimiter::Blank);
    lemma_no_occurrence(w, '(');
    lemma_no_occurrence(w, ')');
    let tokens = seq![w];
    assert(tokens.drop_last() =~= Seq::<Seq<char>>::empty());
    assert(tokens.last() == w);
    assert(exploded(tokens.drop_last()) =~= Seq::<Seq<char>>::empty());
    assert(exploded(tokens) =~= tokens);
    assert(query_tokens(w) == tokens);
    let start = Shunt { ops: Seq::empty(), out: Seq::empty() };
    assert(shunt(tokens.drop_last()) == Some(start));
    let end = Shunt { ops: Seq::empty(), out: Seq::<Seq<char>>::empty().push(w) };
    assert(shunt_step(start, w) == Some(end));
    assert(shunt(tokens) == Some(end));
    assert(!end.ops.contains(Symbol::Open));
    assert(end.out + unwound(end.ops) =~= seq![w]);
}

/// Whether `t` can stand in a postfix program: it is an operator or a word,
/// and a word is not empty.
pub open spec fn is_program_token(t: Seq<char>) -> bool {
    t.len() > 0 && symbol_of(t) != Symbol::Open && symbol_of(t) != Symbol::Close
}

/// Whether `s` can stand on the operator stack: it is an operator or `(`.
pub open spec fn is_stacked(s: Symbol) -> bool {
    s == Symbol::And || s == Symbol::Or || s == Symbol::Not || s == Symbol::Open
}

/// The text of an operator is a program token, and stands for the operator.
pub proof fn lemma_operator_text(s: Symbol)
    requires
        s == Symbol::And || s == Symbol::Or || s == Symbol::Not,
    ensures
        symbol_of(symbol_text(s)) == s,
        is_program_token(symbol_text(s)),
{
    assert(and_op().len() == 3 && or_op().len() == 2 && not_op().len() == 3);
    assert(and_op()[0] == 'A' && not_op()[0] == 'N');
    assert(open_paren().len() == 1 && close_paren().len() == 1);
}

/// The symbols that leave the stack before an operator is pushed are
/// operators.
proof fn lemma_leaving_operators(ops: Seq<Symbol>, op: Symbol)
    ensures
        leaving(ops, op) <= ops.len(),
        forall|j: int| ops.len() - leaving(ops, op) <= j < ops.len() ==> #[trigger] ops[j] != Symbol::Open,
    decreases ops.len(),
{
    if ops.len() > 0 && yields(ops.last(), op) {
        let rest = ops.drop_last();
        lemma_leaving_operators(rest, op);
        assert forall|j: int| ops.len() - leaving(ops, op) <= j < ops.len() implies #[trigger] ops[j]
            != Symbol::Open by {
            if j < ops.len() - 1 {
                assert(ops[j] == rest[j]);
            }
        }
    }
}

/// The symbols above the topmost `(` of the stack are no `(`, and below them
/// lies a `(` unless they are the whole stack.
proof fn lemma_above_open(ops: Seq<Symbol>)
    ensures
        above_open(ops) <= ops.len(),
        forall|j: int| ops.len() - above_open(ops) <= j < ops.len() ==> #[trigger] ops[j] != Symbol::Open,
        above_open(ops) < ops.len() ==> ops[ops.len() - above_open(ops) - 1] == Symbol::Open,
    decreases ops.len(),
{
    if ops.len() > 0 && ops.last() != Symbol::Open {
        let rest = ops.drop_last();
        lemma_above_open(rest);
        if above_open(ops) < ops.len() {
            assert(ops[ops.len() - above_open(ops) - 1] == rest[rest.len() - above_open(rest) - 1]);
        }
        assert forall|j: int| ops.len() - above_open(ops) <= j < ops.len() implies #[trigger] ops[j]
            != Symbol::Open by {
            if j < ops.len() - 1 {
                assert(ops[j] == rest[j]);
            }
        }
    }
}

/// What is popped off a stack of operators are program tokens.
proof fn lemma_unwound_tokens(piece: Seq<Symbol>)
    requires
        forall|j: int| 0 <= j < piece.len() ==> is_stacked(#[trigger] piece[j]) && piece[j] != Symbol::Open,
    ensures
        forall|j: int| 0 <= j < unwound(piece).len() ==> is_program_token(#[trigger] unwound(piece)[j]),
{
    assert forall|j: int| 0 <= j < unwound(piece).len() implies is_program_token(
        #[trigger] unwound(piece)[j],
    ) by {
        let s = piece[piece.len() - 1 - j];
        assert(is_stacked(s) && s != Symbol::Open);
        lemma_operator_text(s);
    }
}

/// Whether the state holds what it may hold: operators and `(` on the stack,
/// program tokens in the output.
pub open spec fn shunt_clean(st: Shunt) -> bool {
    &&& forall|j: int| 0 <= j < st.ops.len() ==> is_stacked(#[trigger] st.ops[j])
    &&& forall|j: int| 0 <= j < st.out.len() ==> is_program_token(#[trigger] st.out[j])
}

/// A step on a token that is not empty keeps the state clean.
proof fn lemma_shunt_step_clean(st: Shunt, token: Seq<char>)
    requires
        shunt_clean(st),
        token.len() > 0,
    ensures
        shunt_step(st, token) matches Some(next) ==> shunt_clean(next),
{
    let n = st.ops.len() as int;
    match shunt_step(st, token) {
        None => {},
        Some(next) => {
            match symbol_of(token) {
                Symbol::Word => {
                    assert forall|j: int| 0 <= j < next.out.len() implies is_program_token(
                        #[trigger] next.out[j],
                    ) by {
                        if j < st.out.len() {
                            assert(next.out[j] == st.out[j]);
                        }
                    }
                },
                Symbol::Open => {
                    assert forall|j: int| 0 <= j < next.ops.len() implies is_stacked(
                        #[trigger] next.ops[j],
                    ) by {
                        if j < n {
                            assert(next.ops[j] == st.ops[j]);
                        }
                    }
                },
                Symbol::Close => {
                    lemma_above_open(st.ops);
                    let k = above_open(st.ops) as int;
                    let piece = st.ops.skip(n - k);
                    assert forall|j: int| 0 <= j < piece.len() implies is_stacked(
                        #[trigger] piece[j],
                    ) && piece[j] != Symbol::Open by {
                        assert(piece[j] == st.ops[n - k + j]);
                    }
                    lemma_unwound_tokens(piece);
                    assert forall|j: int| 0 <= j < next.ops.len() implies is_stacked(
                        #[trigger] next.ops[j],
                    ) by {
                        assert(next.ops[j] == st.ops[j]);
                    }
                    assert forall|j: int| 0 <= j < next.out.len() implies is_program_token(
                        #[trigger] next.out[j],
                    ) by {
                        if j < st.out.len() {
                            assert(next.out[j] == st.out[j]);
                        } else {
                            assert(next.out[j] == unwound(piece)[j - st.out.len()]);
                        }
                    }
                },
                op => {
                    lemma_leaving_operators(st.ops, op);
                    let k = leaving(st.ops, op) as int;
                    let piece = st.ops.skip(n - k);
                    assert forall|j: int| 0 <= j < piece.len() implies is_stacked(
                        #[trigger] piece[j],
                    ) && piece[j] != Symbol::Open by {
                        assert(piece[j] == st.ops[n - k + j]);
                    }
                    lemma_unwound_tokens(piece);
                    assert(is_stacked(op));
                    assert forall|j: int| 0 <= j < next.ops.len() implies is_stacked(
                        #[trigger] next.ops[j],
                    ) by {
                        if j < n - k {
                            assert(next.ops[j] == st.ops[j]);
                        }
                    }
                    assert forall|j: int| 0 <= j < next.out.len() implies is_program_token(
                        #[trigger] next.out[j],
                    ) by {
                        if j < st.out.len() {
                            assert(next.out[j] == st.out[j]);
                        } else {
                            assert(next.out[j] == unwound(piece)[j - st.out.len()]);
                        }
                    }
                },
            }
        },
    }
}

/// The conversion of tokens that are not empty keeps the state clean.
proof fn lemma_shunt_clean(tokens: Seq<Seq<char>>)
    requires
        forall|i: int| 0 <= i < tokens.len() ==> (#[trigger] tokens[i]).len() > 0,
    ensures
        shunt(tokens) matches Some(st) ==> shunt_clean(st),
    decreases tokens.len(),
{
    if tokens.len() > 0 {
        let front = tokens.drop_last();
        assert forall|i: int| 0 <= i < front.len() implies (#[trigger] front[i]).len() > 0 by {
            assert(front[i] == tokens[i]);
        }
        lemma_shunt_clean(front);
        assert(tokens.last() == tokens[tokens.len() - 1]);
        match shunt(front) {
            None => {},
            Some(st) => {
                lemma_shunt_step_clean(st, tokens.last());
            },
        }
    }
}

/// No token that the splitting of parentheses gives is empty, where none
/// that it is given is.
proof fn lemma_exploded_not_empty(tokens: Seq<Seq<char>>)
    requires
        forall|i: int| 0 <= i < tokens.len() ==> (#[trigger] tokens[i]).len() > 0,
    ensures
        forall|i: int| 0 <= i < exploded(tokens).len() ==> (#[trigger] exploded(tokens)[i]).len() > 0,
    decreases tokens.len(),
{
    if tokens.len() > 0 {
        let front = tokens.drop_last();
        let t = tokens.last();
        assert(t == tokens[tokens.len() - 1]);
        assert forall|i: int| 0 <= i < front.len() implies (#[trigger] front[i]).len() > 0 by {
            assert(front[i] == tokens[i]);
        }
        lemma_exploded_not_empty(front);
        let head = exploded(front);
        let tail = exploded_token(t);
        assert forall|i: int| 0 <= i < tail.len() implies (#[trigger] tail[i]).len() > 0 by {
            if occurrences(t, '(') + occurrences(t, ')') != 0 {
                let a = Seq::new(occurrences(t, '('), |i: int| open_paren());
                let b = remainder(t);
                let c = Seq::new(occurrences(t, ')'), |i: int| close_paren());
                assert(open_paren().len() == 1 && close_paren().len() == 1);
                if i < a.len() {
                    assert(tail[i] == a[i]);
                } else if i < a.len() + b.len() {
                    assert(tail[i] == b[i - a.len()]);
                } else {
                    assert(tail[i] == c[i - a.len() - b.len()]);
                }
            }
        }
        let all = exploded(tokens);
        assert forall|i: int| 0 <= i < all.len() implies (#[trigger] all[i]).len() > 0 by {
            if i < head.len() {
                assert(all[i] == head[i]);
            } else {
                assert(all[i] == tail[i - head.len()]);
            }
        }
    }
}

/// A postfix program holds operators and words only: no parenthesis, and no
/// empty text.
pub proof fn lemma_postfix_tokens(q: Seq<char>)
    ensures
        postfix_of(q) matches Some(program) ==> forall|i: int|
            0 <= i < program.len() ==> is_program_token(#[trigger] program[i]),
{
    let pieces = fragments(q, Delimiter::Blank);
    lemma_fragments_clean(q, Delimiter::Blank);
    lemma_exploded_not_empty(pieces);
    let tokens = query_tokens(q);
    lemma_shunt_clean(tokens);
    match shunt(tokens) {
        None => {},
        Some(st) => {
            if !st.ops.contains(Symbol::Open) {
                assert forall|j: int| 0 <= j < st.ops.len() implies is_stacked(
                    #[trigger] st.ops[j],
                ) && st.ops[j] != Symbol::Open by {
                    assert(st.ops.contains(st.ops[j]));
                }
                lemma_unwound_tokens(st.ops);
                let program = st.out + unwound(st.ops);
                assert forall|i: int| 0 <= i < program.len() implies is_program_token(
                    #[trigger] program[i],
                ) by {
                    if i < st.out.len() {
                        assert(program[i] == st.out[i]);
                    } else {
                        assert(program[i] == unwound(st.ops)[i - st.out.len()]);
                    }
                }
            }
        },
    }
}

/// Whether the token `t` is a parenthesis.
pub open spec fn is_paren_token(t: Seq<char>) -> bool {
    symbol_of(t) == Symbol::Open || symbol_of(t) == Symbol::Close
}

/// The tokens of `ts` that are no parentheses, in their order.
pub open spec fn without_parens(ts: Seq<Seq<char>>) -> Seq<Seq<char>>
    decreases ts.len(),
{
    if ts.len() == 0 {
        Seq::empty()
    } else if is_paren_token(ts.last()) {
        without_parens(ts.drop_last())
    } else {
        without_parens(ts.drop_last()).push(ts.last())
    }
}

/// The words of `ts`, in their order.
pub open spec fn words(ts: Seq<Seq<char>>) -> Seq<Seq<char>>
    decreases ts.len(),
{
    if ts.len() == 0 {
        Seq::empty()
    } else if symbol_of(ts.last()) == Symbol::Word {
        words(ts.drop_last()).push(ts.last())
    } else {
        words(ts.drop_last())
    }
}

/// The texts of the operators on the stack, each as often as it is there.
pub open spec fn stacked_texts(ops: Seq<Symbol>) -> Multiset<Seq<char>>
    decreases ops.len(),
{
    if ops.len() == 0 {
        Multiset::empty()
    } else if ops.last() == Symbol::Open {
        stacked_texts(ops.drop_last())
    } else {
        stacked_texts(ops.drop_last()).insert(symbol_text(ops.last()))
    }
}

/// The words of two runs of tokens, one after the other, are the words of
/// the first and then those of the second.
proof fn lemma_words_concat(a: Seq<Seq<char>>, b: Seq<Seq<char>>)
    ensures
        words(a + b) == words(a) + words(b),
    decreases b.len(),
{
    if b.len() == 0 {
        assert(a + b =~= a);
        assert(words(a) + words(b) =~= words(a));
    } else {
        assert((a + b).drop_last() =~= a + b.drop_last());
        assert((a + b).last() == b.last());
        lemma_words_concat(a, b.drop_last());
        if symbol_of(b.last()) == Symbol::Word {
            assert((words(a) + words(b.drop_last())).push(b.last()) =~= words(a) + words(
                b.drop_last(),
            ).push(b.last()));
        }
    }
}

/// What is popped off a stack of operators holds no word.
proof fn lemma_unwound_words(piece: Seq<Symbol>)
    requires
        forall|j: int| 0 <= j < piece.len() ==> is_stacked(#[trigger] piece[j]) && piece[j] != Symbol::Open,
    ensures
        words(unwound(piece)) == Seq::<Seq<char>>::empty(),
    decreases piece.len(),
{
    let all = unwound(piece);
    if piece.len() > 0 {
        let rest = piece.drop_first();
        assert forall|j: int| 0 <= j < rest.len() implies is_stacked(#[trigger] rest[j]) && rest[j]
            != Symbol::Open by {
            assert(rest[j] == piece[j + 1]);
        }
        lemma_unwound_words(rest);
        assert(all.drop_last() =~= unwound(rest));
        assert(all.last() == symbol_text(piece[0]));
        lemma_operator_text(piece[0]);
    }
}

/// The operators of two pieces of a stack are those of the one and those of
/// the other.
proof fn lemma_stacked_concat(a: Seq<Symbol>, b: Seq<Symbol>)
    ensures
        stacked_texts(a + b) == stacked_texts(a).add(stacked_texts(b)),
    decreases b.len(),
{
    if b.len() == 0 {
        assert(a + b =~= a);
        assert(stacked_texts(a).add(stacked_texts(b)) =~= stacked_texts(a));
    } else {
        assert((a + b).drop_last() =~= a + b.drop_last());
        assert((a + b).last() == b.last());
        lemma_stacked_concat(a, b.drop_last());
        if b.last() != Symbol::Open {
            assert(stacked_texts(a).add(stacked_texts(b.drop_last())).insert(
                symbol_text(b.last()),
            ) =~= stacked_texts(a).add(stacked_texts(b.drop_last()).insert(symbol_text(b.last()))));
        }
    }
}

/// What is popped off a stack of operators are the operators that were on
/// it, each as often.
proof fn lemma_unwound_multiset(piece: Seq<Symbol>)
    requires
        forall|j: int| 0 <= j < piece.len() ==> #[trigger] piece[j] != Symbol::Open,
    ensures
        unwound(piece).to_multiset() == stacked_texts(piece),
    decreases piece.len(),
{
    let all = unwound(piece);
    if piece.len() == 0 {
        assert(all =~= Seq::<Seq<char>>::empty());
        all.to_multiset_ensures();
        assert(all.to_multiset().len() == 0);
        assert(all.to_multiset() =~= Multiset::<Seq<char>>::empty());
    } else {
        let rest = piece.drop_last();
        assert forall|j: int| 0 <= j < rest.len() implies #[trigger] rest[j] != Symbol::Open by {
            assert(rest[j] == piece[j]);
        }
        lemma_unwound_multiset(rest);
        let top = symbol_text(piece.last());
        assert(piece.last() == piece[piece.len() - 1]);
        assert(all =~= seq![top] + unwound(rest));
        vstd::seq_lib::lemma_multiset_commutative(seq![top], unwound(rest));
        assert(seq![top] =~= Seq::<Seq<char>>::empty().push(top));
        vstd::seq_lib::to_multiset_build(Seq::<Seq<char>>::empty(), top);
        Seq::<Seq<char>>::empty().to_multiset_ensures();
        assert(Seq::<Seq<char>>::empty().to_multiset().len() == 0);
        assert(Seq::<Seq<char>>::empty().to_multiset() =~= Multiset::<Seq<char>>::empty());
        assert(all.to_multiset() =~= stacked_texts(rest).insert(top));
    }
}

/// Whether the state `st` holds the tokens `ts` faithfully: the words of the
/// output are the words of `ts` in their order, and output and stack
/// together hold the tokens of `ts` that are no parentheses, each as often.
pub open spec fn shunt_faithful(st: Shunt, ts: Seq<Seq<char>>) -> bool {
    &&& forall|j: int| 0 <= j < st.ops.len() ==> is_stacked(#[trigger] st.ops[j])
    &&& words(st.out) == words(ts)
    &&& st.out.to_multiset().add(stacked_texts(st.ops)) == without_parens(ts).to_multiset()
}

/// A step keeps the state faithful to the tokens that were read.
proof fn lemma_shunt_step_faithful(st: Shunt, ts: Seq<Seq<char>>, token: Seq<char>)
    requires
        shunt_faithful(st, ts),
    ensures
        shunt_step(st, token) matches Some(next) ==> shunt_faithful(next, ts.push(token)),
{
    let n = st.ops.len() as int;
    let read = ts.push(token);
    assert(read.drop_last() =~= ts);
    assert(read.last() == token);
    assert(and_op().len() == 3 && or_op().len() == 2 && not_op().len() == 3);
    assert(open_paren().len() == 1 && close_paren().len() == 1);
    match shunt_step(st, token) {
        None => {},
        Some(next) => {
            match symbol_of(token) {
                Symbol::Word => {
                    assert(next.out.drop_last() =~= st.out);
                    assert(next.out.last() == token);
                    vstd::seq_lib::to_multiset_build(st.out, token);
                    vstd::seq_lib::to_multiset_build(without_parens(ts), token);
                    assert(next.out.to_multiset().add(stacked_texts(next.ops)) =~= without_parens(
                        read,
                    ).to_multiset());
                },
                Symbol::Open => {
                    assert(next.ops.drop_last() =~= st.ops);
                    assert(next.ops.last() == Symbol::Open);
                    assert forall|j: int| 0 <= j < next.ops.len() implies is_stacked(
                        #[trigger] next.ops[j],
                    ) by {
                        if j < n {
                            assert(next.ops[j] == st.ops[j]);
                        }
                    }
                },
                Symbol::Close => {
                    lemma_above_open(st.ops);
                    let k = above_open(st.ops) as int;
                    let piece = st.ops.skip(n - k);
                    let below = st.ops.take(n - k - 1);
                    assert forall|j: int| 0 <= j < piece.len() implies is_stacked(
                        #[trigger] piece[j],
                    ) && piece[j] != Symbol::Open by {
                        assert(piece[j] == st.ops[n - k + j]);
                    }
                    assert forall|j: int| 0 <= j < next.ops.len() implies is_stacked(
                        #[trigger] next.ops[j],
                    ) by {
                        assert(next.ops[j] == st.ops[j]);
                    }
                    lemma_unwound_words(piece);
                    lemma_words_concat(st.out, unwound(piece));
                    assert(words(st.out) + Seq::<Seq<char>>::empty() =~= words(st.out));
                    let opening = seq![Symbol::Open];
                    assert(st.ops =~= (below + opening) + piece);
                    lemma_stacked_concat(below + opening, piece);
                    lemma_stacked_concat(below, opening);
                    assert(opening.drop_last().len() == 0);
                    assert(stacked_texts(opening.drop_last()) =~= Multiset::<Seq<char>>::empty());
                    assert(opening.last() == Symbol::Open);
                    assert(stacked_texts(opening) =~= Multiset::<Seq<char>>::empty());
                    lemma_unwound_multiset(piece);
                    vstd::seq_lib::lemma_multiset_commutative(st.out, unwound(piece));
                    assert(next.out.to_multiset().add(stacked_texts(next.ops)) =~= st.out.to_multiset().add(
                        stacked_texts(st.ops),
                    ));
                },
                op => {
                    lemma_leaving_operators(st.ops, op);
                    let k = leaving(st.ops, op) as int;
                    let piece = st.ops.skip(n - k);
                    let below = st.ops.take(n - k);
                    assert(token == symbol_text(op));
                    assert(is_stacked(op));
                    assert forall|j: int| 0 <= j < piece.len() implies is_stacked(
                        #[trigger] piece[j],
                    ) && piece[j] != Symbol::Open by {
                        assert(piece[j] == st.ops[n - k + j]);
                    }
                    assert forall|j: int| 0 <= j < next.ops.len() implies is_stacked(
                        #[trigger] next.ops[j],
                    ) by {
                        if j < n - k {
                            assert(next.ops[j] == st.ops[j]);
                        }
                    }
                    lemma_unwound_words(piece);
                    lemma_words_concat(st.out, unwound(piece));
                    assert(words(st.out) + Seq::<Seq<char>>::empty() =~= words(st.out));
                    assert(st.ops =~= below + piece);
                    lemma_stacked_concat(below, piece);
                    assert(next.ops.drop_last() =~= below);
                    assert(next.ops.last() == op);
                    lemma_unwound_multiset(piece);
                    vstd::seq_lib::lemma_multiset_commutative(st.out, unwound(piece));
                    vstd::seq_lib::to_multiset_build(without_parens(ts), token);
                    assert(next.out.to_multiset().add(stacked_texts(next.ops)) =~= st.out.to_multiset().add(
                        stacked_texts(st.ops),
                    ).insert(token));
                },
            }
        },
    }
}

/// The conversion keeps the state faithful to the tokens.
proof fn lemma_shunt_faithful(tokens: Seq<Seq<char>>)
    ensures
        shunt(tokens) matches Some(st) ==> shunt_faithful(st, tokens),
    decreases tokens.len(),
{
    if tokens.len() == 0 {
        let none = Seq::<Seq<char>>::empty();
        none.to_multiset_ensures();
        assert(none.to_multiset().len() == 0);
        assert(none.to_multiset() =~= Multiset::<Seq<char>>::empty());
        assert(none.to_multiset().add(stacked_texts(Seq::<Symbol>::empty())) =~= none.to_multiset());
    } else {
        let front = tokens.drop_last();
        lemma_shunt_faithful(front);
        assert(front.push(tokens.last()) =~= tokens);
        match shunt(front) {
            None => {},
            Some(st) => {
                lemma_shunt_step_faithful(st, front, tokens.last());
            },
        }
    }
}

/// A postfix program holds the tokens of the query that are no
/// parentheses, each as often as the query holds it, and so as many; its
/// words are the words of the query in their order.
pub proof fn lemma_postfix_faithful(tokens: Seq<Seq<char>>)
    ensures
        postfix_of_tokens(tokens) matches Some(program) ==> {
            &&& words(program) == words(tokens)
            &&& program.to_multiset() == without_parens(tokens).to_multiset()
            &&& program.len() == without_parens(tokens).len()
        },
{
    lemma_shunt_faithful(tokens);
    match shunt(tokens) {
        None => {},
        Some(st) => {
            if !st.ops.contains(Symbol::Open) {
                assert forall|j: int| 0 <= j < st.ops.len() implies is_stacked(
                    #[trigger] st.ops[j],
                ) && st.ops[j] != Symbol::Open by {
                    assert(st.ops.contains(st.ops[j]));
                }
                let program = st.out + unwound(st.ops);
                lemma_unwound_words(st.ops);
                lemma_words_concat(st.out, unwound(st.ops));
                assert(words(st.out) + Seq::<Seq<char>>::empty() =~= words(st.out));
                lemma_unwound_multiset(st.ops);
                vstd::seq_lib::lemma_multiset_commutative(st.out, unwound(st.ops));
                program.to_multiset_ensures();
                without_parens(tokens).to_multiset_ensures();
            }
        },
    }
}

/// How many `(` of `ts` wait for their `)`; `None` where a `)` of `ts`
/// comes when no `(` waits.
pub open spec fn nesting(ts: Seq<Seq<char>>) -> Option<nat>
    decreases ts.len(),
{
    if ts.len() == 0 {
        Some(0nat)
    } else {
        match nesting(ts.drop_last()) {
            None => None,
            Some(depth) => match symbol_of(ts.last()) {
                Symbol::Open => Some(depth + 1),
                Symbol::Close => if depth == 0 {
                    None
                } else {
                    Some((depth - 1) as nat)
                },
                _ => Some(depth),
            },
        }
    }
}

/// Whether each parenthesis of `ts` has its partner.
pub open spec fn balanced(ts: Seq<Seq<char>>) -> bool {
    nesting(ts) == Some(0nat)
}

/// How many `(` lie on the stack.
pub open spec fn open_count(ops: Seq<Symbol>) -> nat
    decreases ops.len(),
{
    if ops.len() == 0 {
        0
    } else {
        open_count(ops.drop_last()) + if ops.last() == Symbol::Open {
            1nat
        } else {
            0nat
        }
    }
}

/// The `(` of two pieces of a stack are those of the one and of the other.
proof fn lemma_open_count_concat(a: Seq<Symbol>, b: Seq<Symbol>)
    ensures
        open_count(a + b) == open_count(a) + open_count(b),
    decreases b.len(),
{
    if b.len() == 0 {
        assert(a + b =~= a);
    } else {
        assert((a + b).drop_last() =~= a + b.drop_last());
        assert((a + b).last() == b.last());
        lemma_open_count_concat(a, b.drop_last());
    }
}

/// A stack holds a `(` exactly where it counts one.
proof fn lemma_open_count_contains(ops: Seq<Symbol>)
    ensures
        ops.contains(Symbol::Open) <==> open_count(ops) > 0,
    decreases ops.len(),
{
    if ops.len() > 0 {
        let rest = ops.drop_last();
        lemma_open_count_contains(rest);
        assert(ops.last() == ops[ops.len() - 1]);
        if rest.contains(Symbol::Open) {
            let j = choose|j: int| 0 <= j < rest.len() && rest[j] == Symbol::Open;
            assert(ops[j] == Symbol::Open);
        }
        if ops.contains(Symbol::Open) && ops.last() != Symbol::Open {
            let j = choose|j: int| 0 <= j < ops.len() && ops[j] == Symbol::Open;
            assert(rest[j] == Symbol::Open);
        }
    }
}

/// A step fails exactly where a `)` comes and no `(` waits; else the stack
/// holds as many `(` as wait.
proof fn lemma_shunt_step_nesting(st: Shunt, token: Seq<char>)
    ensures
        shunt_step(st, token) is None <==> symbol_of(token) == Symbol::Close && open_count(st.ops)
            == 0,
        shunt_step(st, token) matches Some(next) ==> open_count(next.ops) == match symbol_of(
            token,
        ) {
            Symbol::Open => open_count(st.ops) as int + 1,
            Symbol::Close => open_count(st.ops) as int - 1,
            _ => open_count(st.ops) as int,
        },
{
    let n = st.ops.len() as int;
    match symbol_of(token) {
        Symbol::Word => {},
        Symbol::Open => {
            let next = st.ops.push(Symbol::Open);
            assert(next.drop_last() =~= st.ops);
            assert(next.last() == Symbol::Open);
        },
        Symbol::Close => {
            lemma_above_open(st.ops);
            lemma_open_count_contains(st.ops);
            let k = above_open(st.ops) as int;
            let piece = st.ops.skip(n - k);
            assert forall|j: int| 0 <= j < piece.len() implies #[trigger] piece[j]
                != Symbol::Open by {
                assert(piece[j] == st.ops[n - k + j]);
            }
            lemma_open_count_contains(piece);
            if k == n {
                assert(piece =~= st.ops);
            } else {
                let below = st.ops.take(n - k - 1);
                let opening = seq![Symbol::Open];
                assert(st.ops =~= (below + opening) + piece);
                lemma_open_count_concat(below + opening, piece);
                lemma_open_count_concat(below, opening);
                assert(opening.drop_last().len() == 0);
                assert(open_count(opening.drop_last()) == 0);
                assert(opening.last() == Symbol::Open);
                assert(open_count(opening) == 1);
            }
        },
        op => {
            lemma_leaving_operators(st.ops, op);
            let k = leaving(st.ops, op) as int;
            let piece = st.ops.skip(n - k);
            let below = st.ops.take(n - k);
            assert forall|j: int| 0 <= j < piece.len() implies #[trigger] piece[j]
                != Symbol::Open by {
                assert(piece[j] == st.ops[n - k + j]);
            }
            lemma_open_count_contains(piece);
            assert(st.ops =~= below + piece);
            lemma_open_count_concat(below, piece);
            let next = below.push(op);
            assert(next.drop_last() =~= below);
            assert(next.last() == op);
        },
    }
}

/// The conversion fails exactly where a `)` comes and no `(` waits; else
/// the stack holds as many `(` as wait.
proof fn lemma_shunt_nesting(tokens: Seq<Seq<char>>)
    ensures
        shunt(tokens) is None <==> nesting(tokens) is None,
        shunt(tokens) matches Some(st) ==> nesting(tokens) == Some(open_count(st.ops)),
    decreases tokens.len(),
{
    if tokens.len() > 0 {
        let front = tokens.drop_last();
        lemma_shunt_nesting(front);
        match shunt(front) {
            None => {},
            Some(st) => {
                lemma_shunt_step_nesting(st, tokens.last());
            },
        }
    }
}

/// A token stream has a postfix program exactly where each of its
/// parentheses has its partner.
pub proof fn lemma_postfix_exists(tokens: Seq<Seq<char>>)
    ensures
        postfix_of_tokens(tokens) is Some <==> balanced(tokens),
{
    lemma_shunt_nesting(tokens);
    match shunt(tokens) {
        None => {},
        Some(st) => {
            lemma_open_count_contains(st.ops);
        },
    }
}

/// How often `c` occurs in `chars`.
pub fn count_char(chars: &Vec<char>, c: char) -> (n: usize)
    ensures
        n == occurrences(chars@, c),
{
    let mut n: usize = 0;
    let mut i: usize = 0;
    while i < chars.len()
        invariant
            i <= chars.len(),
            n <= i,
            n == occurrences(chars@.take(i as int), c),
        decreases chars.len() - i,
    {
        assert(chars@.take(i + 1).drop_last() =~= chars@.take(i as int));
        if chars[i] == c {
            n += 1;
        }
        i += 1;
    }
    assert(chars@.take(chars.len() as int) =~= chars@);
    n
}

/// Turns infix boolean queries into postfix programs.
pub struct QueryParser<'a> {
    /// The operators of the query language, for those who want to list
    /// them. The parser itself tells an operator by its text, see
    /// [`symbol_of`], whatever stands here.
    pub operators: &'a [&'a str; 3],
}

impl<'a> QueryParser<'a> {
    /// The texts of the operators that the parser lists.
    pub open spec fn operator_texts(&self) -> Seq<Seq<char>> {
        Seq::new(3, |i: int| self.operators@[i]@)
    }

    /// A parser that lists the operators `AND`, `OR` and `NOT`, in this
    /// order and in upper case.
    pub fn new() -> (qp: Self)
        ensures
            qp.operator_texts() == seq![and_op(), or_op(), not_op()],
    {
        proof {
            reveal_strlit("AND");
            reveal_strlit("OR");
            reveal_strlit("NOT");
        }
        let qp = QueryParser { operators: &["AND", "OR", "NOT"] };
        proof {
            assert(qp.operators@[0]@ =~= and_op());
            assert(qp.operators@[1]@ =~= or_op());
            assert(qp.operators@[2]@ =~= not_op());
            assert(qp.operator_texts() =~= seq![and_op(), or_op(), not_op()]);
        }
        qp
    }

    /// Splits the parentheses off the tokens that hold any. Where no token
    /// is empty, no token that comes out is.
    pub fn tokenize_parenthesis(tokens: Vec<String>) -> (result: Vec<String>)
        ensures
            texts(result@) == exploded(texts(tokens@)),
            (forall|i: int| 0 <= i < tokens@.len() ==> (#[trigger] tokens@[i]@).len() > 0)
                ==> forall|j: int| 0 <= j < result@.len() ==> (#[trigger] result@[j]@).len() > 0,
    {
        let mut result: Vec<String> = Vec::new();
        let mut i: usize = 0;
        let ghost all = texts(tokens@);
        assert(texts(result@) =~= exploded(all.take(0)));
        while i < tokens.len()
            invariant
                i <= tokens.len(),
                all == texts(tokens@),
                texts(result@) == exploded(all.take(i as int)),
            decreases tokens.len() - i,
        {
            let ghost done = texts(result@);
            let ghost t = tokens@[i as int]@;
            assert(all.take(i + 1).drop_last() =~= all.take(i as int));
            assert(all.take(i + 1).last() == t);
            let chars = chars_of(tokens[i].as_str());
            let opens = count_char(&chars, '(');
            let closes = count_char(&chars, ')');
            if opens == 0 && closes == 0 {
                let token = tokens[i].clone();
                proof {
                    lemma_texts_push(result@, token);
                }
                result.push(token);
                assert(texts(result@) =~= done + exploded_token(t));
            } else {
                let mut k: usize = 0;
                assert(texts(result@) =~= done + Seq::new(0nat, |i: int| open_paren()));
                while k < opens
                    invariant
                        k <= opens,
                        texts(result@) == done + Seq::new(k as nat, |i: int| open_paren()),
                    decreases opens - k,
                {
                    let paren = symbol_string(Symbol::Open);
                    proof {
                        lemma_texts_push(result@, paren);
                    }
                    result.push(paren);
                    k += 1;
                    assert(texts(result@) =~= done + Seq::new(k as nat, |i: int| open_paren()));
                }
                let core = trim(&chars, Delimiter::Parenthesis);
                if core.len() > 0 {
                    let word = string_of(&core);
                    proof {
                        lemma_texts_push(result@, word);
                    }
                    result.push(word);
                }
                let ghost front = done + Seq::new(opens as nat, |i: int| open_paren()) + remainder(
                    t,
                );
                assert(texts(result@) =~= front);
                k = 0;
                assert(texts(result@) =~= front + Seq::new(0nat, |i: int| close_paren()));
                while k < closes
                    invariant
                        k <= closes,
                        texts(result@) == front + Seq::new(k as nat, |i: int| close_paren()),
                    decreases closes - k,
                {
                    let paren = symbol_string(Symbol::Close);
                    proof {
                        lemma_texts_push(result@, paren);
                    }
                    result.push(paren);
                    k += 1;
                    assert(texts(result@) =~= front + Seq::new(k as nat, |i: int| close_paren()));
                }
                assert(texts(result@) =~= done + exploded_token(t));
            }
            i += 1;
        }
        assert(all.take(tokens.len() as int) =~= all);
        proof {
            if forall|i: int| 0 <= i < tokens@.len() ==> (#[trigger] tokens@[i]@).len() > 0 {
                assert forall|i: int| 0 <= i < all.len() implies (#[trigger] all[i]).len() > 0 by {
                    assert(all[i] == tokens@[i]@);
                }
                lemma_exploded_not_empty(all);
                assert forall|j: int| 0 <= j < result@.len() implies (#[trigger] result@[j]@).len()
                    > 0 by {
                    assert(texts(result@)[j] == result@[j]@);
                }
            }
        }
        result
    }

    /// The postfix program of `query`; `None` where a parenthesis of the
    /// query has no partner, and only there. The program holds operators and
    /// words only: the tokens of the query that are no parentheses, each as
    /// often as the query holds it, the words in the order of the query.
    pub fn to_postfix(&self, query: &str) -> (r: Option<Vec<String>>)
        ensures
            match r {
                Some(program) => {
                    &&& postfix_of(query@) == Some(texts(program@))
                    &&& forall|i: int|
                        0 <= i < program@.len() ==> is_program_token(#[trigger] program@[i]@)
                    &&& words(texts(program@)) == words(query_tokens(query@))
                    &&& texts(program@).to_multiset() == without_parens(
                        query_tokens(query@),
                    ).to_multiset()
                },
                None => postfix_of(query@) is None,
            },
            r is Some <==> balanced(query_tokens(query@)),
    {
        let chars = chars_of(query);
        let pieces = split(&chars, Delimiter::Blank);
        let words = strings_of(&pieces);
        let tokens = Self::tokenize_parenthesis(words);
        let ghost all = texts(tokens@);
        assert(all == query_tokens(query@));
        let mut ops: Vec<Symbol> = Vec::new();
        let mut res: Vec<String> = Vec::new();
        let mut i: usize = 0;
        assert(texts(res@) =~= Seq::<Seq<char>>::empty());
        while i < tokens.len()
            invariant
                i <= tokens.len(),
                all == texts(tokens@),
                all == query_tokens(query@),
                shunt(all.take(i as int)) == Some(Shunt { ops: ops@, out: texts(res@) }),
            decreases tokens.len() - i,
        {
            let ghost before = Shunt { ops: ops@, out: texts(res@) };
            let ghost token = tokens@[i as int]@;
            let ghost n0 = ops@.len() as int;
            assert(all.take(i + 1).drop_last() =~= all.take(i as int));
            assert(all.take(i + 1).last() == token);
            assert(shunt(all.take(i + 1)) == shunt_step(before, token));
            let symbol = classify(tokens[i].as_str());
            match symbol {
                Symbol::Word => {
                    let word = tokens[i].clone();
                    proof {
                        lemma_texts_push(res@, word);
                    }
                    res.push(word);
                },
                Symbol::Open => {
                    ops.push(Symbol::Open);
                },
                Symbol::Close => {
                    let mut found = false;
                    let ghost mut j: int = 0;
                    assert(before.ops.take(n0) =~= before.ops);
                    assert(before.out + unwound(before.ops.skip(n0)) =~= before.out);
                    while ops.len() > 0 && !found
                        invariant
                            n0 == before.ops.len(),
                            0 <= j,
                            !found ==> j + ops@.len() == n0,
                            !found ==> ops@ == before.ops.take(n0 - j),
                            !found ==> above_open(before.ops) == j + above_open(ops@),
                            !found ==> texts(res@) == before.out + unwound(before.ops.skip(n0 - j)),
                            found ==> shunt_step(before, token) == Some(
                                Shunt { ops: ops@, out: texts(res@) },
                            ),
                            symbol_of(token) == Symbol::Close,
                        decreases ops@.len() + (if found { 0int } else { 1int }),
                    {
                        let ghost held = ops@;
                        let op = ops.pop().unwrap();
                        assert(ops@ =~= held.drop_last());
                        assert(ops@ =~= before.ops.take(n0 - j - 1));
                        if op == Symbol::Open {
                            found = true;
                        } else {
                            let text = symbol_string(op);
                            proof {
                                lemma_texts_push(res@, text);
                                lemma_unwound_grow(before.ops, j);
                                assert(before.out + unwound(before.ops.skip(n0 - j)).push(text@)
                                    =~= (before.out + unwound(before.ops.skip(n0 - j))).push(
                                    text@,
                                ));
                            }
                            res.push(text);
                            proof {
                                j = j + 1;
                            }
                        }
                    }
                    if !found {
                        proof {
                            assert(shunt(all.take(i + 1)) is None);
                            lemma_shunt_stays_failed(all, i + 1);
                            lemma_postfix_exists(all);
                        }
                        return None;
                    }
                },
                _ => {
                    let ghost mut j: int = 0;
                    assert(before.ops.take(n0) =~= before.ops);
                    assert(before.out + unwound(before.ops.skip(n0)) =~= before.out);
                    while ops.len() > 0 && Self::gives_way(ops[ops.len() - 1], symbol)
                        invariant
                            n0 == before.ops.len(),
                            0 <= j,
                            j + ops@.len() == n0,
                            ops@ == before.ops.take(n0 - j),
                            leaving(before.ops, symbol) == j + leaving(ops@, symbol),
                            texts(res@) == before.out + unwound(before.ops.skip(n0 - j)),
                        decreases ops@.len(),
                    {
                        let ghost held = ops@;
                        let op = ops.pop().unwrap();
                        assert(ops@ =~= held.drop_last());
                        assert(ops@ =~= before.ops.take(n0 - j - 1));
                        let text = symbol_string(op);
                        proof {
                            lemma_texts_push(res@, text);
                            lemma_unwound_grow(before.ops, j);
                            assert(before.out + unwound(before.ops.skip(n0 - j)).push(text@) =~= (
                            before.out + unwound(before.ops.skip(n0 - j))).push(text@));
                        }
                        res.push(text);
                        proof {
                            j = j + 1;
                        }
                    }
                    ops.push(symbol);
                },
            }
            i += 1;
        }
        assert(all.take(tokens.len() as int) =~= all);
        let ghost last = Shunt { ops: ops@, out: texts(res@) };
        let ghost n0 = ops@.len() as int;
        let ghost mut j: int = 0;
        assert(last.ops.take(n0) =~= last.ops);
        assert(last.out + unwound(last.ops.skip(n0)) =~= last.out);
        while ops.len() > 0
            invariant
                n0 == last.ops.len(),
                0 <= j,
                j + ops@.len() == n0,
                ops@ == last.ops.take(n0 - j),
                texts(res@) == last.out + unwound(last.ops.skip(n0 - j)),
                forall|m: int| n0 - j <= m < n0 ==> last.ops[m] != Symbol::Open,
                shunt(all) == Some(last),
                all == query_tokens(query@),
            decreases ops@.len(),
        {
            let ghost held = ops@;
            let op = ops.pop().unwrap();
            assert(ops@ =~= held.drop_last());
            assert(ops@ =~= last.ops.take(n0 - j - 1));
            if op == Symbol::Open {
                assert(last.ops[n0 - j - 1] == Symbol::Open);
                proof {
                    lemma_postfix_exists(all);
                }
                return None;
            }
            let text = symbol_string(op);
            proof {
                lemma_texts_push(res@, text);
                lemma_unwound_grow(last.ops, j);
                assert(last.out + unwound(last.ops.skip(n0 - j)).push(text@) =~= (last.out
                    + unwound(last.ops.skip(n0 - j))).push(text@));
            }
            res.push(text);
            proof {
                j = j + 1;
            }
        }
        assert(last.ops.skip(0) =~= last.ops);
        assert(!last.ops.contains(Symbol::Open));
        assert(postfix_of(query@) == Some(texts(res@)));
        proof {
            lemma_postfix_tokens(query@);
            lemma_postfix_exists(all);
            lemma_postfix_faithful(all);
        }
        assert forall|i: int| 0 <= i < res@.len() implies is_program_token(
            #[trigger] res@[i]@,
        ) by {
            let program = postfix_of(query@)->0;
            assert(program == texts(res@));
            assert(is_program_token(program[i]));
            assert(program[i] == res@[i]@);
        }
        Some(res)
    }

    /// Whether `top`, on top of the operator stack, leaves before `op` is pushed.
    fn gives_way(top: Symbol, op: Symbol) -> (b: bool)
        ensures
            b == yields(top, op),
    {
        top != Symbol::Open && ((top == Symbol::Not && op != Symbol::Not) || top == op)
    }
}

} // verus!
