use vstd::prelude::*;

use crate::parser::{prec_of, BinOp, Error, Expr, Lit};
use crate::tokenizer::{
    self, pull, pull_view, significant_stream, Token, TokenType, TokenValue, TokenValueView,
    TokenView, Tokenizer,
};

verus! {

/// What went wrong in a parse, without the details that come with it.
pub enum ParseErrorKind {
    UnexpectedEndOfFile,
    UnexpectedToken,
    Tokenizer,
}

pub open spec fn error_kind(e: Error) -> ParseErrorKind {
    match e {
        Error::UnexpectedEndOfFile => ParseErrorKind::UnexpectedEndOfFile,
        Error::UnexpectedToken(_) => ParseErrorKind::UnexpectedToken,
        Error::TokenizerError(_) => ParseErrorKind::Tokenizer,
    }
}

/// The binary operator that a token of type `t` stands for, if any.
pub open spec fn binop_of(t: TokenType) -> Option<BinOp> {
    match t {
        TokenType::Plus => Some(BinOp::Add),
        TokenType::Minus => Some(BinOp::Subtract),
        TokenType::Star => Some(BinOp::Multiply),
        TokenType::Slash => Some(BinOp::Divide),
        _ => None,
    }
}

/// The binary operator that the first item stands for, if any.
pub open spec fn leading_binop(items: Seq<Result<TokenView, ()>>) -> Option<BinOp> {
    if items.len() > 0 {
        match items[0] {
            Ok(t) => binop_of(t.typ),
            Err(_) => None,
        }
    } else {
        None
    }
}

/// The primary expression that the first item forms: only an integer literal does.
pub open spec fn leading_primary(items: Seq<Result<TokenView, ()>>) -> Result<
    Expr,
    ParseErrorKind,
> {
    if items.len() == 0 {
        Err(ParseErrorKind::UnexpectedEndOfFile)
    } else {
        match items[0] {
            Err(_) => Err(ParseErrorKind::Tokenizer),
            Ok(t) => match t.value {
                TokenValueView::Integer(v) => if t.typ == TokenType::Number {
                    Ok(Expr::Constant(Lit::Int(v)))
                } else {
                    Err(ParseErrorKind::UnexpectedToken)
                },
                _ => Err(ParseErrorKind::UnexpectedToken),
            },
        }
    }
}

/// The operators and operands that follow, as long as each operator binds at
/// least as tightly as `min`: the operands, the operators, and the number of
/// items they take; or the error met on the way.
#[verifier::opaque]
pub open spec fn run(items: Seq<Result<TokenView, ()>>, min: nat) -> Result<
    (Seq<Expr>, Seq<BinOp>, int),
    ParseErrorKind,
>
    decreases items.len(),
{
    match leading_binop(items) {
        Some(op) => if prec_of(op) >= min {
            match leading_primary(items.drop_first()) {
                Err(e) => Err(e),
                Ok(x) => match run(items.subrange(2, items.len() as int), min) {
                    Err(e) => Err(e),
                    Ok((ls, os, n)) => Ok((seq![x] + ls, seq![op] + os, n + 2)),
                },
            }
        } else {
            Ok((seq![], seq![], 0))
        },
        None => Ok((seq![], seq![], 0)),
    }
}

/// The position of the last of the most loosely binding operators.
pub open spec fn last_loosest(ops: Seq<BinOp>) -> int
    decreases ops.len(),
{
    if ops.len() <= 1 {
        0
    } else {
        let k = last_loosest(ops.drop_last());
        if prec_of(ops.last()) <= prec_of(ops[k]) {
            ops.len() - 1
        } else {
            k
        }
    }
}

/// The tree of `leaves` joined by `ops` (one fewer): the last of the most
/// loosely binding operators is the root, and each side is built the same
/// way, so tighter operators nest deeper and equal ones group to the left.
#[verifier::opaque]
pub open spec fn tree_of(leaves: Seq<Expr>, ops: Seq<BinOp>) -> Expr
    decreases ops.len(),
{
    let k = last_loosest(ops);
    if ops.len() == 0 || !(0 <= k < ops.len()) {
        leaves[0]
    } else {
        Expr::Binary(
            Box::new(tree_of(leaves.subrange(0, k + 1), ops.subrange(0, k))),
            Box::new(tree_of(leaves.subrange(k + 1, leaves.len() as int), ops.subrange(k + 1, ops.len() as int))),
            ops[k],
        )
    }
}

/// The expression at the front of `items` and the number of items it takes.
pub open spec fn parsed(items: Seq<Result<TokenView, ()>>) -> Result<(Expr, int), ParseErrorKind> {
    match leading_primary(items) {
        Err(e) => Err(e),
        Ok(x) => match run(items.drop_first(), 0) {
            Err(e) => Err(e),
            Ok((ls, os, n)) => Ok((tree_of(seq![x] + ls, os), n + 1)),
        },
    }
}

proof fn lemma_last_loosest_bounds(ops: Seq<BinOp>)
    requires
        ops.len() > 0,
    ensures
        0 <= last_loosest(ops) < ops.len(),
        forall|j: int| 0 <= j < ops.len() ==> prec_of(ops[last_loosest(ops)]) <= prec_of(#[trigger] ops[j]),
    decreases ops.len(),
{
    if ops.len() > 1 {
        lemma_last_loosest_bounds(ops.drop_last());
        let k = last_loosest(ops.drop_last());
        assert forall|j: int| 0 <= j < ops.len() implies prec_of(ops[last_loosest(ops)]) <= prec_of(
            #[trigger] ops[j],
        ) by {
            if j < ops.len() - 1 {
                assert(ops.drop_last()[j] == ops[j]);
            }
        }
    }
}

/// Where every operator of `a` binds at least as tightly as `op` and every
/// operator of `b` binds more tightly, `op` is the last of the loosest.
proof fn lemma_last_loosest_split(a: Seq<BinOp>, op: BinOp, b: Seq<BinOp>)
    requires
        forall|j: int| 0 <= j < a.len() ==> prec_of(#[trigger] a[j]) >= prec_of(op),
        forall|j: int| 0 <= j < b.len() ==> prec_of(#[trigger] b[j]) > prec_of(op),
    ensures
        last_loosest(a + seq![op] + b) == a.len(),
    decreases b.len(),
{
    let s = a + seq![op] + b;
    if b.len() == 0 {
        assert(s =~= a.push(op));
        if a.len() > 0 {
            lemma_last_loosest_bounds(a);
            assert(s.drop_last() =~= a);
        }
    } else {
        lemma_last_loosest_split(a, op, b.drop_last());
        assert(s.drop_last() =~= a + seq![op] + b.drop_last());
        assert(s.last() == b.last());
    }
}

/// Joining two trees under an operator that binds no more tightly than the
/// left side's operators and less tightly than the right side's.
proof fn lemma_tree_join(l: Seq<Expr>, a: Seq<BinOp>, op: BinOp, r: Seq<Expr>, b: Seq<BinOp>)
    requires
        l.len() == a.len() + 1,
        r.len() == b.len() + 1,
        forall|j: int| 0 <= j < a.len() ==> prec_of(#[trigger] a[j]) >= prec_of(op),
        forall|j: int| 0 <= j < b.len() ==> prec_of(#[trigger] b[j]) > prec_of(op),
    ensures
        tree_of(l + r, a + seq![op] + b) == Expr::Binary(
            Box::new(tree_of(l, a)),
            Box::new(tree_of(r, b)),
            op,
        ),
{
    reveal(tree_of);    let ops = a + seq![op] + b;
    let leaves = l + r;
    lemma_last_loosest_split(a, op, b);
    let k = a.len() as int;
    assert(leaves.subrange(0, k + 1) =~= l);
    assert(ops.subrange(0, k) =~= a);
    assert(leaves.subrange(k + 1, leaves.len() as int) =~= r);
    assert(ops.subrange(k + 1, ops.len() as int) =~= b);
    assert(ops[k] == op);
}

/// What `run` returns is well-shaped: one operand per operator, two items
/// each, every operator at least `min`, and no further operator of at least
/// `min` directly after.
proof fn lemma_run_shape(items: Seq<Result<TokenView, ()>>, min: nat)
    ensures
        run(items, min) matches Ok((ls, os, n)) ==> {
            &&& ls.len() == os.len()
            &&& n == 2 * os.len()
            &&& 0 <= n <= items.len()
            &&& forall|j: int| 0 <= j < os.len() ==> prec_of(#[trigger] os[j]) >= min
            &&& leading_binop(items.subrange(n, items.len() as int)) matches Some(o) ==> prec_of(o)
                < min
        },
    decreases items.len(),
{
    reveal(run);    if let Some(op) = leading_binop(items) {
        if prec_of(op) >= min {
            if let Ok(x) = leading_primary(items.drop_first()) {
                let rest = items.subrange(2, items.len() as int);
                lemma_run_shape(rest, min);
                if let Ok((ls, os, n)) = run(rest, min) {
                    assert(rest.subrange(n, rest.len() as int) =~= items.subrange(
                        n + 2,
                        items.len() as int,
                    ));
                    let os2 = seq![op] + os;
                    assert forall|j: int| 0 <= j < os2.len() implies prec_of(#[trigger] os2[j])
                        >= min by {
                        if j > 0 {
                            assert(os2[j] == os[j - 1]);
                        }
                    }
                }
            }
        } else {
            assert(items.subrange(0, items.len() as int) =~= items);
        }
    } else {
        assert(items.subrange(0, items.len() as int) =~= items);
    }
}

/// A run at a looser bound goes through the run at a tighter bound and then
/// carries on from where that one stopped.
proof fn lemma_run_split(items: Seq<Result<TokenView, ()>>, min: nat, tighter: nat)
    requires
        min <= tighter,
    ensures
        match run(items, tighter) {
            Ok((ls, os, n)) => {
                &&& 0 <= n <= items.len()
                &&& match run(items.subrange(n, items.len() as int), min) {
                    Ok((ls2, os2, n2)) => run(items, min) == Ok::<
                        (Seq<Expr>, Seq<BinOp>, int),
                        ParseErrorKind,
                    >((ls + ls2, os + os2, n + n2)),
                    Err(e) => run(items, min) == Err::<
                        (Seq<Expr>, Seq<BinOp>, int),
                        ParseErrorKind,
                    >(e),
                }
            },
            Err(e) => run(items, min) == Err::<(Seq<Expr>, Seq<BinOp>, int), ParseErrorKind>(e),
        },
    decreases items.len(),
{
    reveal(run);    lemma_run_shape(items, tighter);
    if let Some(op) = leading_binop(items) {
        if prec_of(op) >= tighter {
            if let Ok(x) = leading_primary(items.drop_first()) {
                let rest = items.subrange(2, items.len() as int);
                lemma_run_split(rest, min, tighter);
                if let Ok((ls, os, n)) = run(rest, tighter) {
                    assert(rest.subrange(n, rest.len() as int) =~= items.subrange(
                        n + 2,
                        items.len() as int,
                    ));
                    if let Ok((ls2, os2, n2)) = run(items.subrange(n + 2, items.len() as int), min) {
                        assert(seq![x] + ls + ls2 =~= seq![x] + (ls + ls2));
                        assert(seq![op] + os + os2 =~= seq![op] + (os + os2));
                    }
                }
            }
        } else {
            assert(items.subrange(0, items.len() as int) =~= items);
            if let Ok((ls2, os2, n2)) = run(items, min) {
                assert(Seq::<Expr>::empty() + ls2 =~= ls2);
                assert(Seq::<BinOp>::empty() + os2 =~= os2);
            }
        }
    } else {
        assert(items.subrange(0, items.len() as int) =~= items);
        if let Ok((ls2, os2, n2)) = run(items, min) {
            assert(Seq::<Expr>::empty() + ls2 =~= ls2);
            assert(Seq::<BinOp>::empty() + os2 =~= os2);
        }
    }
}

/// A run stops at once where no operator of at least `min` comes first.
proof fn lemma_run_stops(items: Seq<Result<TokenView, ()>>, min: nat)
    requires
        leading_binop(items) matches Some(op) ==> prec_of(op) < min,
    ensures
        run(items, min) == Ok::<(Seq<Expr>, Seq<BinOp>, int), ParseErrorKind>(
            (Seq::empty(), Seq::empty(), 0),
        ),
{
    reveal(run);
    assert(Seq::<Expr>::empty() =~= seq![]);
    assert(Seq::<BinOp>::empty() =~= seq![]);
}

/// A run fails where its first operator has no operand.
proof fn lemma_run_operand_error(items: Seq<Result<TokenView, ()>>, min: nat, op: BinOp)
    requires
        leading_binop(items) == Some(op),
        prec_of(op) >= min,
        leading_primary(items.drop_first()) is Err,
    ensures
        run(items, min) == Err::<(Seq<Expr>, Seq<BinOp>, int), ParseErrorKind>(
            leading_primary(items.drop_first())->Err_0,
        ),
{
    reveal(run);
}

/// A run fails where the tighter run after its first operand fails.
proof fn lemma_run_tighter_error(
    items: Seq<Result<TokenView, ()>>,
    min: nat,
    op: BinOp,
    x: Expr,
    tighter: nat,
)
    requires
        leading_binop(items) == Some(op),
        prec_of(op) >= min,
        leading_primary(items.drop_first()) == Ok::<Expr, ParseErrorKind>(x),
        min <= tighter,
        run(items.subrange(2, items.len() as int), tighter) is Err,
    ensures
        run(items, min) == Err::<(Seq<Expr>, Seq<BinOp>, int), ParseErrorKind>(
            run(items.subrange(2, items.len() as int), tighter)->Err_0,
        ),
{
    reveal(run);
    lemma_run_split(items.subrange(2, items.len() as int), min, tighter);
}

/// A single operand is its own tree.
proof fn lemma_tree_single(x: Expr)
    ensures
        tree_of(seq![x], Seq::empty()) == x,
{
    reveal(tree_of);
}

/// One step of folding: an operator that binds at least as tightly as `min`,
/// its operand, and the tighter run after it, followed by the rest of the run.
proof fn lemma_run_step(
    items: Seq<Result<TokenView, ()>>,
    min: nat,
    op: BinOp,
    x: Expr,
    tighter: nat,
)
    requires
        leading_binop(items) == Some(op),
        prec_of(op) >= min,
        leading_primary(items.drop_first()) == Ok::<Expr, ParseErrorKind>(x),
        min <= tighter,
        run(items.subrange(2, items.len() as int), tighter) is Ok,
    ensures
        ({
            let (ls2, os2, n2) = run(items.subrange(2, items.len() as int), tighter)->Ok_0;
            &&& 0 <= n2 <= items.len() - 2
            &&& items.subrange(2, items.len() as int).subrange(n2, items.len() - 2) == items.subrange(
                2 + n2,
                items.len() as int,
            )
            &&& match run(items.subrange(2 + n2, items.len() as int), min) {
                Ok((ls3, os3, n3)) => run(items, min) == Ok::<
                    (Seq<Expr>, Seq<BinOp>, int),
                    ParseErrorKind,
                >((seq![x] + ls2 + ls3, seq![op] + os2 + os3, 2 + n2 + n3)),
                Err(e) => run(items, min) == Err::<(Seq<Expr>, Seq<BinOp>, int), ParseErrorKind>(e),
            }
        }),
{
    reveal(run);    let t = items.subrange(2, items.len() as int);
    lemma_run_split(t, min, tighter);
    let (ls2, os2, n2) = run(t, tighter)->Ok_0;
    assert(t.subrange(n2, items.len() - 2) =~= items.subrange(2 + n2, items.len() as int));
    if let Ok((ls3, os3, n3)) = run(items.subrange(2 + n2, items.len() as int), min) {
        assert(seq![x] + (ls2 + ls3) =~= seq![x] + ls2 + ls3);
        assert(seq![op] + (os2 + os3) =~= seq![op] + os2 + os3);
    }
}

/// One turn of the folding loop in `expr_rhs`: folding the operator `op`
/// and the tighter run after it into what was folded so far keeps the
/// loop's invariant.
proof fn lemma_fold_step(
    items: Seq<Result<TokenView, ()>>,
    min: nat,
    lhs: Expr,
    leaves: Seq<Expr>,
    ops: Seq<BinOp>,
    used: int,
    bound: nat,
    op: BinOp,
    x: Expr,
)
    requires
        0 <= used <= items.len(),
        leaves.len() == ops.len(),
        forall|j: int| 0 <= j < ops.len() ==> prec_of(#[trigger] ops[j]) >= min,
        ops.len() > 0 ==> forall|j: int| 0 <= j < ops.len() ==> prec_of(#[trigger] ops[j]) >= bound,
        ops.len() > 0 ==> (leading_binop(items.subrange(used, items.len() as int)) matches Some(o)
            ==> prec_of(o) <= bound),
        match run(items.subrange(used, items.len() as int), min) {
            Ok((ls2, os2, n2)) => run(items, min) == Ok::<
                (Seq<Expr>, Seq<BinOp>, int),
                ParseErrorKind,
            >((leaves + ls2, ops + os2, used + n2)),
            Err(e) => run(items, min) == Err::<(Seq<Expr>, Seq<BinOp>, int), ParseErrorKind>(e),
        },
        leading_binop(items.subrange(used, items.len() as int)) == Some(op),
        prec_of(op) >= min,
        leading_primary(items.subrange(used, items.len() as int).drop_first()) == Ok::<
            Expr,
            ParseErrorKind,
        >(x),
        run(items.subrange(used + 2, items.len() as int), prec_of(op) + 1) is Ok,
    ensures
        ({
            let (ls2, os2, n2) = run(items.subrange(used + 2, items.len() as int), prec_of(op) + 1)->Ok_0;
            let leaves2 = leaves + seq![x] + ls2;
            let ops2 = ops + seq![op] + os2;
            let used2 = used + 2 + n2;
            &&& 0 <= n2
            &&& 0 <= used2 <= items.len()
            &&& items.subrange(used + 2, items.len() as int).subrange(n2, items.len() - used - 2)
                == items.subrange(used2, items.len() as int)
            &&& n2 == 0 ==> tree_of(seq![x] + ls2, os2) == x
            &&& leaves2.len() == ops2.len()
            &&& tree_of(seq![lhs] + leaves2, ops2) == Expr::Binary(
                Box::new(tree_of(seq![lhs] + leaves, ops)),
                Box::new(tree_of(seq![x] + ls2, os2)),
                op,
            )
            &&& forall|j: int| 0 <= j < ops2.len() ==> prec_of(#[trigger] ops2[j]) >= min
            &&& forall|j: int| 0 <= j < ops2.len() ==> prec_of(#[trigger] ops2[j]) >= prec_of(op)
            &&& leading_binop(items.subrange(used2, items.len() as int)) matches Some(o) ==> prec_of(
                o,
            ) <= prec_of(op)
            &&& match run(items.subrange(used2, items.len() as int), min) {
                Ok((ls3, os3, n3)) => run(items, min) == Ok::<
                    (Seq<Expr>, Seq<BinOp>, int),
                    ParseErrorKind,
                >((leaves2 + ls3, ops2 + os3, used2 + n3)),
                Err(e) => run(items, min) == Err::<(Seq<Expr>, Seq<BinOp>, int), ParseErrorKind>(e),
            }
        }),
{
    let s_items = items.subrange(used, items.len() as int);
    let t_items = items.subrange(used + 2, items.len() as int);
    let p = prec_of(op);
    assert(t_items =~= s_items.subrange(2, s_items.len() as int));
    lemma_run_shape(t_items, p + 1);
    lemma_run_step(s_items, min, op, x, p + 1);
    let (ls2, os2, n2) = run(t_items, p + 1)->Ok_0;
    let used2 = used + 2 + n2;
    assert(t_items.subrange(n2, items.len() - used - 2) =~= items.subrange(used2, items.len() as int));
    if n2 == 0 {
        lemma_tree_single(x);
        assert(seq![x] + ls2 =~= seq![x]);
        assert(os2 =~= Seq::<BinOp>::empty());
    }
    lemma_tree_join(seq![lhs] + leaves, ops, op, seq![x] + ls2, os2);
    assert(seq![lhs] + leaves + (seq![x] + ls2) =~= seq![lhs] + (leaves + seq![x] + ls2));
    let ops2 = ops + seq![op] + os2;
    assert forall|j: int| 0 <= j < ops2.len() implies prec_of(#[trigger] ops2[j]) >= p by {
        if j < ops.len() {
            assert(ops2[j] == ops[j]);
        } else if j > ops.len() {
            assert(ops2[j] == os2[j - ops.len() - 1]);
        }
    }
    if let Ok((ls3, os3, n3)) = run(items.subrange(used2, items.len() as int), min) {
        assert(leaves + (seq![x] + ls2 + ls3) =~= leaves + seq![x] + ls2 + ls3);
        assert(ops + (seq![op] + os2 + os3) =~= ops + seq![op] + os2 + os3);
    }
}

/// Parses expressions from a stream of tokens, with one token of lookahead.
pub struct Parser<'a> {
    tokens: Tokenizer<'a>,
    current: Option<Result<Token, tokenizer::Error>>,
}

impl<'a> View for Parser<'a> {
    type V = Seq<Result<TokenView, ()>>;

    /// The items not consumed yet: the lookahead, then the rest of the stream,
    /// without the tokens that cover whitespace.
    closed spec fn view(&self) -> Seq<Result<TokenView, ()>> {
        match pull_view(self.current) {
            Some(x) => seq![x] + significant_stream(self.tokens@),
            None => seq![],
        }
    }
}

impl<'a> Parser<'a> {
    pub closed spec fn wf(&self) -> bool {
        &&& self.tokens.wf()
        &&& 0 <= self.tokens@.pos <= self.tokens@.bytes.len()
        &&& self.current is None ==> pull(self.tokens@).1 is None
        &&& self.current matches Some(Err(_)) ==> self.tokens@.failed
    }

    /// The tokenizer's error that stands as the lookahead, if any.
    pub closed spec fn lookahead_error(&self) -> Option<tokenizer::Error> {
        match self.current {
            Some(Err(e)) => Some(e),
            _ => None,
        }
    }

    pub fn new(tokens: Tokenizer<'a>) -> (r: Parser<'a>)
        requires
            tokens.wf(),
        ensures
            r.wf(),
            r@ == significant_stream(tokens@),
    {
        let mut tokens = tokens;
        let first = tokens.next_significant();
        Parser { tokens, current: first }
    }

    /// Parses one expression: a primary expression followed by any number of
    /// binary operators, each with its right-hand operand.
    pub fn expr(&mut self) -> (r: Result<Expr, Error>)
        requires
            old(self).wf(),
        ensures
            final(self).wf(),
            match parsed(old(self)@) {
                Ok((e, n)) => r == Ok::<Expr, Error>(e) && final(self)@ == old(self)@.subrange(
                    n,
                    old(self)@.len() as int,
                ),
                Err(k) => r matches Err(e) && error_kind(e) == k,
            },
            old(self).lookahead_error() matches Some(e) ==> r == Err::<Expr, Error>(
                Error::TokenizerError(e),
            ),
    {
        let ghost items = self@;
        let primary = match self.primary_expr() {
            Ok(p) => p,
            Err(e) => return Err(e),
        };
        let r = self.expr_rhs(primary, 0);
        proof {
            if let Ok((ls, os, n)) = run(items.drop_first(), 0) {
                lemma_run_shape(items.drop_first(), 0);
                assert(items.drop_first().subrange(n, items.drop_first().len() as int)
                    =~= items.subrange(n + 1, items.len() as int));
            }
        }
        r
    }

    /// Folds the operators that bind at least as tightly as `precedence`, and
    /// their operands, into `lhs`.
    #[verifier::rlimit(40)]
    fn expr_rhs(&mut self, lhs: Expr, precedence: usize) -> (r: Result<Expr, Error>)
        requires
            old(self).wf(),
        ensures
            final(self).wf(),
            match run(old(self)@, precedence as nat) {
                Ok((ls, os, n)) => r == Ok::<Expr, Error>(tree_of(seq![lhs] + ls, os))
                    && final(self)@ == old(self)@.subrange(n, old(self)@.len() as int),
                Err(k) => r matches Err(e) && error_kind(e) == k,
            },
        decreases old(self)@.len(),
    {
        let ghost items = self@;
        let ghost min = precedence as nat;
        let ghost mut leaves: Seq<Expr> = seq![];
        let ghost mut ops: Seq<BinOp> = seq![];
        let ghost mut used: int = 0;
        let ghost mut bound: nat = 0;
        let mut acc = lhs;
        proof {
            lemma_tree_single(lhs);
            assert(seq![lhs] + leaves =~= seq![lhs]);
            assert(items.subrange(0, items.len() as int) =~= items);
            if let Ok((ls, os, n)) = run(items, min) {
                assert(Seq::<Expr>::empty() + ls =~= ls);
                assert(Seq::<BinOp>::empty() + os =~= os);
            }
        }
        loop
            invariant
                self.wf(),
                0 <= used <= items.len(),
                self@ == items.subrange(used, items.len() as int),
                leaves.len() == ops.len(),
                items == old(self)@,
                min == precedence as nat,
                acc == tree_of(seq![lhs] + leaves, ops),
                forall|j: int| 0 <= j < ops.len() ==> prec_of(#[trigger] ops[j]) >= min,
                ops.len() > 0 ==> forall|j: int| 0 <= j < ops.len() ==> prec_of(#[trigger] ops[j])
                    >= bound,
                ops.len() > 0 ==> (leading_binop(self@) matches Some(o) ==> prec_of(o) <= bound),
                match run(self@, min) {
                    Ok((ls2, os2, n2)) => run(items, min) == Ok::<
                        (Seq<Expr>, Seq<BinOp>, int),
                        ParseErrorKind,
                    >((leaves + ls2, ops + os2, used + n2)),
                    Err(e) => run(items, min) == Err::<
                        (Seq<Expr>, Seq<BinOp>, int),
                        ParseErrorKind,
                    >(e),
                },
            decreases self@.len(),
        {
            let ghost s_items = self@;
            let binop = match self.peek_binop() {
                Some(op) => op,
                None => {
                    proof {
                        lemma_run_stops(self@, min);
                        assert(leaves + Seq::<Expr>::empty() =~= leaves);
                        assert(ops + Seq::<BinOp>::empty() =~= ops);
                        assert(run(items, min) == Ok::<
                            (Seq<Expr>, Seq<BinOp>, int),
                            ParseErrorKind,
                        >((leaves, ops, used)));
                        assert(acc == tree_of(seq![lhs] + leaves, ops));
                        assert(self@ == items.subrange(used, items.len() as int));
                    }
                    return Ok(acc);
                },
            };
            let binop_precedence = binop.precedence();
            assert(binop_precedence == prec_of(binop));
            if binop_precedence < precedence {
                proof {
                    lemma_run_stops(self@, min);
                    assert(leaves + Seq::<Expr>::empty() =~= leaves);
                    assert(ops + Seq::<BinOp>::empty() =~= ops);
                }
                return Ok(acc);
            }
            let ghost p = prec_of(binop);
            // Consume the binop
            self.next();
            // Parse the next primary expression
            let mut rhs = match self.primary_expr() {
                Ok(e) => e,
                Err(e) => {
                    proof {
                        lemma_run_operand_error(s_items, min, binop);
                    }
                    return Err(e);
                },
            };
            let ghost x = rhs;
            let ghost t_items = self@;
            proof {
                assert(t_items =~= items.subrange(used + 2, items.len() as int));
                assert(t_items =~= s_items.subrange(2, s_items.len() as int));
            }
            if let Some(next_binop) = self.peek_binop() {
                // There's another binary operator, does it bind more strongly?
                let next_precedence = next_binop.precedence();
                if next_precedence > binop_precedence {
                    // It does. Parse the right-side of this operator
                    rhs = match self.expr_rhs(rhs, binop_precedence + 1) {
                        Ok(e) => e,
                        Err(e) => {
                            proof {
                                lemma_run_tighter_error(s_items, min, binop, x, p + 1);
                            }
                            return Err(e);
                        },
                    };
                } else {
                    proof {
                        lemma_run_stops(t_items, p + 1);
                    }
                }
            } else {
                proof {
                    lemma_run_stops(t_items, p + 1);
                }
            }
            proof {
                lemma_fold_step(items, min, lhs, leaves, ops, used, bound, binop, x);
                let (ls2, os2, n2) = run(t_items, p + 1)->Ok_0;
                if n2 == 0 {
                    assert(t_items.subrange(0, t_items.len() as int) =~= t_items);
                }
                assert(self@ == items.subrange(used + 2 + n2, items.len() as int));
                leaves = leaves + seq![x] + ls2;
                ops = ops + seq![binop] + os2;
                used = used + 2 + n2;
                bound = p;
            }
            // Merge lhs/rhs
            acc = Expr::binary(acc, rhs, binop);
        }
    }

    fn peek_binop(&self) -> (r: Option<BinOp>)
        requires
            self.wf(),
        ensures
            r == leading_binop(self@),
    {
        match &self.current {
            Some(Ok(t)) => match t.typ() {
                TokenType::Plus => Some(BinOp::Add),
                TokenType::Minus => Some(BinOp::Subtract),
                TokenType::Star => Some(BinOp::Multiply),
                TokenType::Slash => Some(BinOp::Divide),
                _ => None,
            },
            _ => None,
        }
    }

    fn primary_expr(&mut self) -> (r: Result<Expr, Error>)
        requires
            old(self).wf(),
        ensures
            final(self).wf(),
            match leading_primary(old(self)@) {
                Ok(x) => r == Ok::<Expr, Error>(x) && final(self)@ == old(self)@.drop_first(),
                Err(k) => r matches Err(e) && error_kind(e) == k,
            },
            old(self).lookahead_error() matches Some(e) ==> r == Err::<Expr, Error>(
                Error::TokenizerError(e),
            ),
    {
        if let Some(Err(_)) = &self.current {
            // The parse ends here, so the error is moved out of the lookahead.
            return match self.current.take() {
                Some(Err(e)) => Err(Error::TokenizerError(e)),
                _ => Err(Error::UnexpectedEndOfFile),
            };
        }
        let t = match self.cur() {
            Ok(t) => t,
            Err(e) => return Err(e),
        };
        match t.typ() {
            TokenType::Number => self.literal(),
            _ => Err(Error::UnexpectedToken(t.clone())),
        }
    }

    fn literal(&mut self) -> (r: Result<Expr, Error>)
        requires
            old(self).wf(),
            old(self)@.len() > 0,
            old(self)@[0] matches Ok(t) && t.typ == TokenType::Number,
        ensures
            final(self).wf(),
            match leading_primary(old(self)@) {
                Ok(x) => r == Ok::<Expr, Error>(x) && final(self)@ == old(self)@.drop_first(),
                Err(k) => r matches Err(e) && error_kind(e) == k,
            },
    {
        let result = match self.cur() {
            Ok(t) => match t.value() {
                TokenValue::Integer(i) => Ok(Expr::constant(*i)),
                _ => Err(Error::UnexpectedToken(t.clone())),
            },
            Err(e) => Err(e),
        };
        if result.is_ok() {
            self.next();
        }
        result
    }

    fn cur(&self) -> (r: Result<&Token, Error>)
        requires
            self.wf(),
        ensures
            self@.len() == 0 ==> r == Err::<&Token, Error>(Error::UnexpectedEndOfFile),
            self@.len() > 0 ==> match self@[0] {
                Ok(tv) => r matches Ok(t) && t@ == tv,
                Err(_) => r matches Err(e) && e is TokenizerError,
            },
    {
        match &self.current {
            Some(Ok(t)) => Ok(t),
            Some(Err(e)) => Err(Error::TokenizerError(e.clone())),
            None => Err(Error::UnexpectedEndOfFile),
        }
    }

    fn next(&mut self)
        requires
            old(self).wf(),
        ensures
            final(self).wf(),
            old(self)@.len() > 0 ==> final(self)@ == old(self)@.drop_first(),
            old(self)@.len() == 0 ==> final(self)@ == old(self)@,
    {
        self.current = self.tokens.next_significant();
    }
}

} // verus!
