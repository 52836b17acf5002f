//! The shunting-yard parser: rewrites an infix token sequence into postfix
//! (Reverse Polish) order with one explicit operator stack.

use vstd::prelude::*;
use crate::literal::digits_of_chars;
use crate::operator::{priority_of, is_operator_char, operator_of_char};
use crate::token::{Token, TokenView, lemma_deep_view_push};
use crate::tokenizer::{all_digits, tokens_of_chars, lemma_tokenize_single_operator};

verus! {

broadcast use vstd::seq_lib::lemma_seq_skip_nothing;

/// The views of a token sequence, token by token.
pub open spec fn views_of_tokens(s: Seq<Token>) -> Seq<TokenView> {
    s.map(|i: int, t: Token| t@)
}

/// Whether a token may sit on the operator stack: only operators and left
/// parentheses are ever pushed there.
pub open spec fn is_stack_entry(t: TokenView) -> bool {
    t is Operator || t is LeftParenthesis
}

/// Whether every token of `stack` may sit on the operator stack.
pub open spec fn stack_ok(stack: Seq<TokenView>) -> bool {
    forall|j: int| 0 <= j < stack.len() ==> is_stack_entry(#[trigger] stack[j])
}

/// Pops operators of priority greater than or equal to `pr` from the top of
/// `stack`. Returns the popped operators, topmost first, and what is left of
/// the stack. A left parenthesis, an operator of strictly lower priority, or
/// an empty stack stops the popping. Popping on equal priority is what makes
/// operators of one rank group left to right, exponentiation included.
pub open spec fn pop_at_least(stack: Seq<TokenView>, pr: u32) -> (Seq<TokenView>, Seq<TokenView>)
    decreases stack.len(),
{
    if stack.len() == 0 {
        (seq![], stack)
    } else {
        match stack.last() {
            TokenView::Operator(top) => {
                if priority_of(top) >= pr {
                    let (emitted, rest) = pop_at_least(stack.drop_last(), pr);
                    (seq![TokenView::Operator(top)] + emitted, rest)
                } else {
                    (seq![], stack)
                }
            },
            _ => (seq![], stack),
        }
    }
}

/// Pops operators from the top of `stack` until a left parenthesis is popped
/// and discarded, or the stack is exhausted. Returns the popped operators,
/// topmost first, and what is left of the stack.
pub open spec fn pop_until_left_parenthesis(stack: Seq<TokenView>) -> (
    Seq<TokenView>,
    Seq<TokenView>,
)
    decreases stack.len(),
{
    if stack.len() == 0 {
        (seq![], stack)
    } else {
        match stack.last() {
            TokenView::LeftParenthesis => (seq![], stack.drop_last()),
            TokenView::Operator(top) => {
                let (emitted, rest) = pop_until_left_parenthesis(stack.drop_last());
                (seq![TokenView::Operator(top)] + emitted, rest)
            },
            _ => (seq![], stack),
        }
    }
}

/// The postfix order of the remaining infix tokens `ts`, given the operator
/// stack `stack` and the output `out` built so far. When the input is
/// exhausted the stack is drained onto the output, topmost entry first; an
/// unmatched left parenthesis still on the stack is drained with the
/// operators, faithfully to the scan, so only balanced input is guaranteed a
/// postfix output of literals and operators alone.
pub open spec fn parse_from(ts: Seq<TokenView>, stack: Seq<TokenView>, out: Seq<TokenView>) -> Seq<
    TokenView,
>
    decreases ts.len(),
{
    if ts.len() == 0 {
        out + stack.reverse()
    } else {
        match ts[0] {
            TokenView::Literal(ds) => parse_from(ts.drop_first(), stack, out.push(ts[0])),
            TokenView::Operator(op) => {
                let (emitted, rest) = pop_at_least(stack, priority_of(op));
                parse_from(ts.drop_first(), rest.push(ts[0]), out + emitted)
            },
            TokenView::LeftParenthesis => parse_from(ts.drop_first(), stack.push(ts[0]), out),
            TokenView::RightParenthesis => {
                let (emitted, rest) = pop_until_left_parenthesis(stack);
                parse_from(ts.drop_first(), rest, out + emitted)
            },
        }
    }
}

/// The postfix order of the infix token sequence `ts`.
pub open spec fn postfix_of(ts: Seq<TokenView>) -> Seq<TokenView> {
    parse_from(ts, seq![], seq![])
}

/// A literal, an operator, and a literal parse to postfix order: operand,
/// operand, operator.
pub proof fn lemma_postfix_single_operator(la: TokenView, o: TokenView, lb: TokenView)
    requires
        la is Literal,
        lb is Literal,
        o is Operator,
    ensures
        postfix_of(seq![la, o, lb]) == seq![la, lb, o],
{
    let ts = seq![la, o, lb];
    let empty_tokens = Seq::<TokenView>::empty();
    assert(ts.drop_first() =~= seq![o, lb]);
    assert(empty_tokens.push(la) =~= seq![la]);
    assert(postfix_of(ts) == parse_from(seq![o, lb], empty_tokens, seq![la]));
    let pr = priority_of(o->Operator_0);
    assert(pop_at_least(empty_tokens, pr) == (empty_tokens, empty_tokens));
    assert(seq![o, lb].drop_first() =~= seq![lb]);
    assert(empty_tokens.push(o) =~= seq![o]);
    assert(seq![la] + empty_tokens =~= seq![la]);
    assert(parse_from(seq![o, lb], empty_tokens, seq![la]) == parse_from(
        seq![lb],
        seq![o],
        seq![la],
    ));
    assert(seq![lb].drop_first() =~= empty_tokens);
    assert(seq![la].push(lb) =~= seq![la, lb]);
    assert(parse_from(seq![lb], seq![o], seq![la]) == parse_from(
        empty_tokens,
        seq![o],
        seq![la, lb],
    ));
    assert(seq![o].reverse() =~= seq![o]);
    assert(seq![la, lb] + seq![o] =~= seq![la, lb, o]);
}

/// The pipeline on a two-operand expression: a non-empty digit run, one
/// operator character, and a non-empty digit run lex and parse to the
/// postfix sequence operand, operand, operator. Evaluating that postfix
/// form is then a single application of the operator to the two operands.
pub proof fn lemma_single_operator_pipeline(a: Seq<char>, c: char, b: Seq<char>)
    requires
        a.len() > 0,
        b.len() > 0,
        all_digits(a),
        all_digits(b),
        is_operator_char(c),
    ensures
        postfix_of(tokens_of_chars(a + seq![c] + b)) == seq![
            TokenView::Literal(digits_of_chars(a)),
            TokenView::Literal(digits_of_chars(b)),
            TokenView::Operator(operator_of_char(c)),
        ],
{
    lemma_tokenize_single_operator(a, c, b);
    lemma_postfix_single_operator(
        TokenView::Literal(digits_of_chars(a)),
        TokenView::Operator(operator_of_char(c)),
        TokenView::Literal(digits_of_chars(b)),
    );
}

/// Whether the parentheses of `ts` nest properly around `depth` groups
/// already open: every right parenthesis closes an open group, and every
/// group is closed by the end.
pub open spec fn balanced_from(ts: Seq<TokenView>, depth: int) -> bool
    decreases ts.len(),
{
    if ts.len() == 0 {
        depth == 0
    } else {
        match ts[0] {
            TokenView::LeftParenthesis => balanced_from(ts.drop_first(), depth + 1),
            TokenView::RightParenthesis => depth > 0 && balanced_from(ts.drop_first(), depth - 1),
            _ => balanced_from(ts.drop_first(), depth),
        }
    }
}

/// Whether the parentheses of `ts` nest properly.
pub open spec fn balanced(ts: Seq<TokenView>) -> bool {
    balanced_from(ts, 0)
}

/// Whether a token may appear in the postfix output of a balanced
/// expression: a literal or an operator, never a parenthesis.
pub open spec fn is_postfix_entry(t: TokenView) -> bool {
    t is Literal || t is Operator
}

/// Whether `ts` holds only literals and operators.
pub open spec fn no_parentheses(ts: Seq<TokenView>) -> bool {
    forall|i: int| 0 <= i < ts.len() ==> is_postfix_entry(#[trigger] ts[i])
}

/// How many left parentheses the operator stack holds: one for each group
/// of the input that is open at this point of the scan.
pub open spec fn open_count(stack: Seq<TokenView>) -> nat
    decreases stack.len(),
{
    if stack.len() == 0 {
        0
    } else {
        open_count(stack.drop_last()) + if stack.last() is LeftParenthesis {
            1nat
        } else {
            0nat
        }
    }
}

/// A stack without open parentheses holds none anywhere.
proof fn lemma_open_count_zero(stack: Seq<TokenView>)
    requires
        open_count(stack) == 0,
    ensures
        forall|j: int| 0 <= j < stack.len() ==> !(#[trigger] stack[j] is LeftParenthesis),
    decreases stack.len(),
{
    if stack.len() > 0 {
        lemma_open_count_zero(stack.drop_last());
        assert forall|j: int| 0 <= j < stack.len() implies !(#[trigger] stack[j]
            is LeftParenthesis) by {
            if j < stack.len() - 1 {
                assert(stack.drop_last()[j] == stack[j]);
            } else {
                assert(stack[j] == stack.last());
            }
        }
    }
}

/// Popping by priority emits operators only and leaves every open
/// parenthesis on the stack.
proof fn lemma_pop_at_least_properties(stack: Seq<TokenView>, pr: u32)
    requires
        stack_ok(stack),
    ensures
        no_parentheses(pop_at_least(stack, pr).0),
        stack_ok(pop_at_least(stack, pr).1),
        open_count(pop_at_least(stack, pr).1) == open_count(stack),
    decreases stack.len(),
{
    if stack.len() == 0 {
    } else {
        assert(stack[stack.len() - 1] == stack.last());
        assert(is_stack_entry(stack.last()));
        if pops_before(stack, pr) {
            let below = stack.drop_last();
            assert(stack_ok(below)) by {
                assert(forall|j: int| 0 <= j < below.len() ==> below[j] == stack[j]);
            }
            lemma_pop_at_least_properties(below, pr);
            let head = seq![stack.last()];
            let emitted = pop_at_least(below, pr).0;
            assert forall|i: int| 0 <= i < (head + emitted).len() implies is_postfix_entry(
                #[trigger] (head + emitted)[i],
            ) by {
                if i == 0 {
                    assert((head + emitted)[0] == stack.last());
                } else {
                    assert((head + emitted)[i] == emitted[i - 1]);
                }
            }
        }
    }
}

/// Popping to the matching left parenthesis emits operators only and
/// closes exactly one open group.
proof fn lemma_pop_until_properties(stack: Seq<TokenView>)
    requires
        stack_ok(stack),
        open_count(stack) >= 1,
    ensures
        no_parentheses(pop_until_left_parenthesis(stack).0),
        stack_ok(pop_until_left_parenthesis(stack).1),
        open_count(pop_until_left_parenthesis(stack).1) == open_count(stack) - 1,
    decreases stack.len(),
{
    assert(stack.len() > 0);
    assert(stack[stack.len() - 1] == stack.last());
    assert(is_stack_entry(stack.last()));
    let below = stack.drop_last();
    assert(stack_ok(below)) by {
        assert(forall|j: int| 0 <= j < below.len() ==> below[j] == stack[j]);
    }
    if stack.last() is LeftParenthesis {
    } else {
        lemma_pop_until_properties(below);
        let head = seq![stack.last()];
        let emitted = pop_until_left_parenthesis(below).0;
        assert forall|i: int| 0 <= i < (head + emitted).len() implies is_postfix_entry(
            #[trigger] (head + emitted)[i],
        ) by {
            if i == 0 {
                assert((head + emitted)[0] == stack.last());
            } else {
                assert((head + emitted)[i] == emitted[i - 1]);
            }
        }
    }
}

/// The scan of a properly nested remainder emits no parenthesis: the output
/// built so far holds none, the stack holds one open parenthesis for each
/// open group, and every group still closes.
proof fn lemma_parse_from_no_parentheses(ts: Seq<TokenView>, stack: Seq<TokenView>, out: Seq<
    TokenView,
>)
    requires
        balanced_from(ts, open_count(stack) as int),
        stack_ok(stack),
        no_parentheses(out),
    ensures
        no_parentheses(parse_from(ts, stack, out)),
    decreases ts.len(),
{
    if ts.len() == 0 {
        lemma_open_count_zero(stack);
        let drained = stack.reverse();
        assert forall|i: int| 0 <= i < (out + drained).len() implies is_postfix_entry(
            #[trigger] (out + drained)[i],
        ) by {
            if i < out.len() {
                assert((out + drained)[i] == out[i]);
            } else {
                let j = stack.len() - 1 - (i - out.len());
                assert((out + drained)[i] == stack[j]);
                assert(is_stack_entry(stack[j]));
            }
        }
    } else {
        let head = ts[0];
        let rest = ts.drop_first();
        match head {
            TokenView::Literal(ds) => {
                assert forall|i: int| 0 <= i < out.push(head).len() implies is_postfix_entry(
                    #[trigger] out.push(head)[i],
                ) by {
                    if i < out.len() {
                        assert(out.push(head)[i] == out[i]);
                    }
                }
                lemma_parse_from_no_parentheses(rest, stack, out.push(head));
            },
            TokenView::Operator(op) => {
                lemma_pop_at_least_properties(stack, priority_of(op));
                let emitted = pop_at_least(stack, priority_of(op)).0;
                let remaining = pop_at_least(stack, priority_of(op)).1;
                assert forall|i: int| 0 <= i < (out + emitted).len() implies is_postfix_entry(
                    #[trigger] (out + emitted)[i],
                ) by {
                    if i < out.len() {
                        assert((out + emitted)[i] == out[i]);
                    } else {
                        assert((out + emitted)[i] == emitted[i - out.len()]);
                    }
                }
                assert(stack_ok(remaining.push(head))) by {
                    assert(forall|j: int|
                        0 <= j < remaining.len() ==> remaining.push(head)[j] == remaining[j]);
                    assert(remaining.push(head)[remaining.len() as int] == head);
                }
                assert(remaining.push(head).drop_last() =~= remaining);
                lemma_parse_from_no_parentheses(rest, remaining.push(head), out + emitted);
            },
            TokenView::LeftParenthesis => {
                assert(stack_ok(stack.push(head))) by {
                    assert(forall|j: int|
                        0 <= j < stack.len() ==> stack.push(head)[j] == stack[j]);
                    assert(stack.push(head)[stack.len() as int] == head);
                }
                assert(stack.push(head).drop_last() =~= stack);
                lemma_parse_from_no_parentheses(rest, stack.push(head), out);
            },
            TokenView::RightParenthesis => {
                lemma_pop_until_properties(stack);
                let emitted = pop_until_left_parenthesis(stack).0;
                let remaining = pop_until_left_parenthesis(stack).1;
                assert forall|i: int| 0 <= i < (out + emitted).len() implies is_postfix_entry(
                    #[trigger] (out + emitted)[i],
                ) by {
                    if i < out.len() {
                        assert((out + emitted)[i] == out[i]);
                    } else {
                        assert((out + emitted)[i] == emitted[i - out.len()]);
                    }
                }
                lemma_parse_from_no_parentheses(rest, remaining, out + emitted);
            },
        }
    }
}

/// On a properly nested token sequence the parser consumes every
/// parenthesis: the postfix output holds literals and operators alone.
/// Only unbalanced input can carry a leftover left parenthesis into the
/// output.
pub proof fn lemma_parse_balanced_eliminates_parentheses(ts: Seq<TokenView>)
    requires
        balanced(ts),
    ensures
        no_parentheses(postfix_of(ts)),
{
    let empty = Seq::<TokenView>::empty();
    assert(open_count(empty) == 0);
    lemma_parse_from_no_parentheses(ts, empty, empty);
}

/// Whether the top of `stack` is an operator of priority greater than or
/// equal to `pr`: exactly then the shunting-yard scan pops it before pushing
/// an operator of priority `pr`.
pub open spec fn pops_before(stack: Seq<TokenView>, pr: u32) -> bool {
    stack.len() > 0 && match stack.last() {
        TokenView::Operator(top) => priority_of(top) >= pr,
        _ => false,
    }
}

/// The runtime check for `pops_before`.
fn should_pop_at_least(stack: &Vec<Token>, pr: u32) -> (b: bool)
    ensures
        b == pops_before(stack.deep_view(), pr),
{
    if stack.len() == 0 {
        false
    } else {
        match &stack[stack.len() - 1] {
            Token::Operator(top) => top.priority() >= pr,
            _ => false,
        }
    }
}

/// Whether the top of `stack` is an operator token.
fn top_is_operator(stack: &Vec<Token>) -> (b: bool)
    ensures
        b == (stack.deep_view().len() > 0 && stack.deep_view().last() is Operator),
{
    if stack.len() == 0 {
        false
    } else {
        match &stack[stack.len() - 1] {
            Token::Operator(_) => true,
            _ => false,
        }
    }
}

/// Rewrites an infix token sequence into postfix order.
///
/// Literals pass straight through; each operator first forces out the
/// stacked operators that bind at least as tightly, so operators of equal
/// priority leave in left-to-right order — every operator is
/// left-associative, exponentiation included — and parentheses group and
/// are consumed. The scan never fails: a right parenthesis with no matching
/// left parenthesis pops whatever the stack still holds, and an unmatched
/// left parenthesis is drained into the output at the end of the scan.
pub fn parse(tokens: Vec<Token>) -> (ast: Vec<Token>)
    ensures
        ast.deep_view() == postfix_of(tokens.deep_view()),
{
    let ghost input = tokens.deep_view();
    let mut ast: Vec<Token> = Vec::new();
    let mut operator_stack: Vec<Token> = Vec::new();
    proof {
        assert(input =~= views_of_tokens(tokens@));
        assert(ast.deep_view() =~= Seq::<TokenView>::empty());
        assert(operator_stack.deep_view() =~= Seq::<TokenView>::empty());
    }
    for token in iter: tokens.into_iter()
        invariant
            views_of_tokens(iter.seq()) == input,
            stack_ok(operator_stack.deep_view()),
            postfix_of(input) == parse_from(
                views_of_tokens(iter.seq().skip(iter.index())),
                operator_stack.deep_view(),
                ast.deep_view(),
            ),
    {
        let ghost idx = iter.index();
        let ghost rem = views_of_tokens(iter.seq().skip(idx));
        proof {
            assert(0 <= idx < iter.seq().len());
            assert(token == iter.seq()[idx]);
            assert(rem[0] == token@);
            assert(rem.drop_first() =~= views_of_tokens(iter.seq().skip(idx + 1)));
        }
        match token {
            Token::Literal(_) => {
                let ghost pre = ast;
                ast.push(token);
                proof {
                    lemma_deep_view_push(pre, ast, token);
                }
            },
            Token::Operator(operator) => {
                let pr = operator.priority();
                let ghost stack0 = operator_stack.deep_view();
                let ghost out0 = ast.deep_view();
                while should_pop_at_least(&operator_stack, pr)
                    invariant
                        stack_ok(operator_stack.deep_view()),
                        pop_at_least(stack0, pr).1 == pop_at_least(
                            operator_stack.deep_view(),
                            pr,
                        ).1,
                        out0 + pop_at_least(stack0, pr).0 == ast.deep_view() + pop_at_least(
                            operator_stack.deep_view(),
                            pr,
                        ).0,
                    decreases operator_stack.len(),
                {
                    let ghost stack_pre = operator_stack;
                    let ghost ast_pre = ast;
                    let top = operator_stack.pop().unwrap();
                    ast.push(top);
                    proof {
                        assert(operator_stack.deep_view() =~= stack_pre.deep_view().drop_last());
                        lemma_deep_view_push(ast_pre, ast, top);
                        assert(ast.deep_view() + pop_at_least(operator_stack.deep_view(), pr).0
                            =~= ast_pre.deep_view() + pop_at_least(stack_pre.deep_view(), pr).0);
                    }
                }
                proof {
                    assert(pop_at_least(operator_stack.deep_view(), pr).0 =~= Seq::<
                        TokenView,
                    >::empty());
                    assert(ast.deep_view() =~= out0 + pop_at_least(stack0, pr).0);
                    assert(operator_stack.deep_view() == pop_at_least(stack0, pr).1);
                }
                let ghost stack_pre = operator_stack;
                let pushed = Token::Operator(operator);
                operator_stack.push(pushed);
                proof {
                    lemma_deep_view_push(stack_pre, operator_stack, pushed);
                    assert(operator_stack.deep_view() == pop_at_least(stack0, pr).1.push(token@));
                }
            },
            Token::LeftParenthesis => {
                let ghost pre = operator_stack;
                operator_stack.push(token);
                proof {
                    lemma_deep_view_push(pre, operator_stack, token);
                }
            },
            Token::RightParenthesis => {
                let ghost stack0 = operator_stack.deep_view();
                let ghost out0 = ast.deep_view();
                while top_is_operator(&operator_stack)
                    invariant
                        stack_ok(operator_stack.deep_view()),
                        pop_until_left_parenthesis(stack0).1 == pop_until_left_parenthesis(
                            operator_stack.deep_view(),
                        ).1,
                        out0 + pop_until_left_parenthesis(stack0).0 == ast.deep_view()
                            + pop_until_left_parenthesis(operator_stack.deep_view()).0,
                    decreases operator_stack.len(),
                {
                    let ghost stack_pre = operator_stack;
                    let ghost ast_pre = ast;
                    let top = operator_stack.pop().unwrap();
                    ast.push(top);
                    proof {
                        assert(operator_stack.deep_view() =~= stack_pre.deep_view().drop_last());
                        lemma_deep_view_push(ast_pre, ast, top);
                        assert(ast.deep_view() + pop_until_left_parenthesis(
                            operator_stack.deep_view(),
                        ).0 =~= ast_pre.deep_view() + pop_until_left_parenthesis(
                            stack_pre.deep_view(),
                        ).0);
                    }
                }
                proof {
                    assert(pop_until_left_parenthesis(operator_stack.deep_view()).0 =~= Seq::<
                        TokenView,
                    >::empty());
                    assert(ast.deep_view() =~= out0 + pop_until_left_parenthesis(stack0).0);
                }
                if operator_stack.len() > 0 {
                    let ghost stack_pre = operator_stack;
                    // By the stack discipline the top can only be the
                    // matching left parenthesis here; it is discarded.
                    operator_stack.pop();
                    proof {
                        assert(stack_pre.deep_view().last() is LeftParenthesis);
                        assert(operator_stack.deep_view() =~= stack_pre.deep_view().drop_last());
                        assert(operator_stack.deep_view() == pop_until_left_parenthesis(
                            stack0,
                        ).1);
                    }
                }
            },
        }
    }
    // The input is consumed; drain the operator stack, top first.
    let ghost stack0 = operator_stack.deep_view();
    let ghost out0 = ast.deep_view();
    while operator_stack.len() > 0
        invariant
            out0 + stack0.reverse() == ast.deep_view() + operator_stack.deep_view().reverse(),
        decreases operator_stack.len(),
    {
        let ghost stack_pre = operator_stack;
        let ghost ast_pre = ast;
        let top = operator_stack.pop().unwrap();
        ast.push(top);
        proof {
            assert(operator_stack.deep_view() =~= stack_pre.deep_view().drop_last());
            lemma_deep_view_push(ast_pre, ast, top);
            assert(stack_pre.deep_view().reverse() =~= seq![top@]
                + operator_stack.deep_view().reverse());
            assert(ast.deep_view() + operator_stack.deep_view().reverse() =~= ast_pre.deep_view()
                + stack_pre.deep_view().reverse());
        }
    }
    proof {
        assert(operator_stack.deep_view().reverse() =~= Seq::<TokenView>::empty());
        assert(ast.deep_view() =~= out0 + stack0.reverse());
    }
    ast
}

} // verus!
