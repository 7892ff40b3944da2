use vstd::prelude::*;

use crate::scope::{
    lemma_inner_view,
    lemma_views_index,
    lemma_views_push,
    scoped_views,
    ScopeElement,
    Scoped,
};
use crate::token::{Lexeme, Operator, Token};

verus! {

/// A value, a variable or a nested scope: what implicit multiplication joins.
pub open spec fn is_atom(e: Scoped) -> bool {
    match e {
        Scoped::Scope(_) => true,
        Scoped::Token(Lexeme::Value(_)) => true,
        Scoped::Token(Lexeme::Variable(_)) => true,
        _ => false,
    }
}

pub open spec fn is_blank(e: Scoped) -> bool {
    e == Scoped::Token(Lexeme::Whitespace)
}

pub open spec fn times() -> Scoped {
    Scoped::Token(Lexeme::Operator(Operator::Multiplication))
}

/// Whether the first element of `s[k..]` that is not whitespace is `^`.
pub open spec fn power_follows(s: Seq<Scoped>, k: int) -> bool
    decreases s.len() - k,
{
    if k < 0 || k >= s.len() {
        false
    } else if is_blank(s[k]) {
        power_follows(s, k + 1)
    } else {
        s[k] == Scoped::Token(Lexeme::Operator(Operator::Exponentiation))
    }
}

/// The nested scope `(a × b)`.
pub open spec fn product(a: Scoped, b: Scoped) -> Scoped {
    Scoped::Scope(seq![a, times(), b])
}

/// `e` as output: whitespace is dropped.
pub open spec fn emit(e: Scoped) -> Seq<Scoped> {
    if is_blank(e) {
        seq![]
    } else {
        seq![e]
    }
}

/// The rewrite of `s[i..]` with `held` the element before position `i`, not
/// yet written. Two atoms in a row are joined by a multiplication: written
/// out flat when `^` comes next (so the power binds to the second atom only),
/// else fused into one nested scope that is held in turn.
pub open spec fn implicit_from(s: Seq<Scoped>, i: int, held: Scoped) -> Seq<Scoped>
    decreases s.len() - i,
{
    if i < 0 || i >= s.len() {
        emit(held)
    } else if is_atom(held) && is_atom(s[i]) {
        if power_follows(s, i + 1) {
            seq![held, times()] + implicit_from(s, i + 1, s[i])
        } else {
            implicit_from(s, i + 1, product(held, s[i]))
        }
    } else {
        emit(held) + implicit_from(s, i + 1, s[i])
    }
}

/// The top-level scope with implicit multiplications made explicit and its
/// whitespace removed.
pub open spec fn implicit(s: Seq<Scoped>) -> Seq<Scoped> {
    if s.len() == 0 {
        seq![]
    } else {
        implicit_from(s, 1, s[0])
    }
}

/// Whether `e` is an operator token.
pub open spec fn is_operator(e: Scoped) -> bool {
    e matches Scoped::Token(Lexeme::Operator(_))
}

/// The last element of `s` that is not whitespace.
pub open spec fn last_solid(s: Seq<Scoped>) -> Option<Scoped>
    decreases s.len(),
{
    if s.len() == 0 {
        None
    } else {
        match last_solid(s.drop_first()) {
            Some(y) => Some(y),
            None => if is_blank(s[0]) {
                None
            } else {
                Some(s[0])
            },
        }
    }
}

proof fn lemma_none_blank(s: Seq<Scoped>)
    ensures
        last_solid(s) is None ==> forall|k: int| 0 <= k < s.len() ==> #[trigger] is_blank(s[k]),
    decreases s.len(),
{
    if s.len() > 0 {
        lemma_none_blank(s.drop_first());
        if last_solid(s) is None {
            assert forall|k: int| 0 <= k < s.len() implies #[trigger] is_blank(s[k]) by {
                if k > 0 {
                    assert(s[k] == s.drop_first()[k - 1]);
                }
            }
        }
    }
}

proof fn lemma_blank_tail(s: Seq<Scoped>, i: int, held: Scoped)
    requires
        0 <= i,
        forall|k: int| i <= k < s.len() ==> #[trigger] is_blank(s[k]),
    ensures
        implicit_from(s, i, held) == emit(held),
    decreases s.len() - i,
{
    if i < s.len() {
        lemma_blank_tail(s, i + 1, s[i]);
        assert(is_blank(s[i]));
        assert(emit(held) + emit(s[i]) =~= emit(held));
    }
}

proof fn lemma_implicit_last(s: Seq<Scoped>, i: int, held: Scoped, x: Scoped)
    requires
        0 <= i < s.len(),
        last_solid(s.subrange(i, s.len() as int)) == Some(x),
        is_operator(x),
    ensures
        implicit_from(s, i, held).len() > 0,
        implicit_from(s, i, held).last() == x,
    decreases s.len() - i,
{
    let tail = s.subrange(i, s.len() as int);
    assert(tail.drop_first() =~= s.subrange(i + 1, s.len() as int));
    if last_solid(s.subrange(i + 1, s.len() as int)) is Some {
        lemma_implicit_last(s, i + 1, s[i], x);
        lemma_implicit_last(s, i + 1, product(held, s[i]), x);
    } else {
        lemma_none_blank(s.subrange(i + 1, s.len() as int));
        assert forall|k: int| i + 1 <= k < s.len() implies #[trigger] is_blank(s[k]) by {
            assert(s[k] == s.subrange(i + 1, s.len() as int)[k - i - 1]);
        }
        lemma_blank_tail(s, i + 1, s[i]);
        assert(s[i] == tail[0]);
    }
}

/// The implicit-multiplication pass keeps a final operator last.
pub proof fn lemma_implicit_trailing(s: Seq<Scoped>, x: Scoped)
    requires
        last_solid(s) == Some(x),
        is_operator(x),
    ensures
        implicit(s).len() > 0,
        implicit(s).last() == x,
{
    assert(s.drop_first() =~= s.subrange(1, s.len() as int));
    if last_solid(s.subrange(1, s.len() as int)) is Some {
        lemma_implicit_last(s, 1, s[0], x);
    } else {
        lemma_none_blank(s.subrange(1, s.len() as int));
        assert forall|k: int| 1 <= k < s.len() implies #[trigger] is_blank(s[k]) by {
            assert(s[k] == s.subrange(1, s.len() as int)[k - 1]);
        }
        lemma_blank_tail(s, 1, s[0]);
    }
}

impl ScopeElement {
    fn is_atom_element(&self) -> (r: bool)
        ensures
            r == is_atom(self@),
    {
        match self {
            ScopeElement::InnerScope(_) => true,
            ScopeElement::Token(Token::Value(_)) => true,
            ScopeElement::Token(Token::Variable(_)) => true,
            _ => false,
        }
    }

    fn is_blank_element(&self) -> (r: bool)
        ensures
            r == is_blank(self@),
    {
        match self {
            ScopeElement::Token(Token::Whitespace) => true,
            _ => false,
        }
    }
}

fn power_follows_at(scope: &Vec<ScopeElement>, k: usize) -> (r: bool)
    ensures
        r == power_follows(scoped_views(scope@), k as int),
{
    let ghost sv = scoped_views(scope@);
    proof {
        lemma_views_index(scope@, scope@.len());
    }
    let mut j = k;
    while j < scope.len()
        invariant
            k <= j,
            sv == scoped_views(scope@),
            sv.len() == scope@.len(),
            forall|i: int| 0 <= i < sv.len() ==> #[trigger] sv[i] == scope@[i]@,
            power_follows(sv, k as int) == power_follows(sv, j as int),
        decreases scope.len() - j,
    {
        if !scope[j].is_blank_element() {
            return match &scope[j] {
                ScopeElement::Token(Token::Operator(Operator::Exponentiation)) => true,
                _ => false,
            };
        }
        j = j + 1;
    }
    false
}

fn multiplication() -> (r: ScopeElement)
    ensures
        r@ == times(),
{
    ScopeElement::Token(Token::Operator(Operator::Multiplication))
}

/// Makes the implicit multiplications of a top-level scope explicit
/// (`2x` means `2 × x`) and drops its whitespace. Nested scopes are left as
/// they are.
pub fn implicit_multiplication(scope: &Vec<ScopeElement>) -> (r: Vec<ScopeElement>)
    ensures
        scoped_views(r@) == implicit(scoped_views(scope@)),
{
    let ghost sv = scoped_views(scope@);
    proof {
        lemma_views_index(scope@, scope@.len());
        lemma_views_index(Seq::<ScopeElement>::empty(), 0);
    }
    let mut out: Vec<ScopeElement> = Vec::new();
    if scope.len() == 0 {
        return out;
    }
    let mut held = scope[0].duplicate();
    let mut i: usize = 1;
    while i < scope.len()
        invariant
            1 <= i <= scope.len(),
            sv == scoped_views(scope@),
            sv.len() == scope@.len(),
            forall|m: int| 0 <= m < sv.len() ==> #[trigger] sv[m] == scope@[m]@,
            implicit(sv) == scoped_views(out@) + implicit_from(sv, i as int, held@),
        decreases scope.len() - i,
    {
        let ghost prior = scoped_views(out@);
        let ghost rest = implicit_from(sv, i + 1, sv[i as int]);
        let ghost h = held@;
        if held.is_atom_element() && scope[i].is_atom_element() {
            if power_follows_at(scope, i + 1) {
                let m = multiplication();
                proof {
                    lemma_views_push(out@, held);
                    lemma_views_push(out@.push(held), m);
                }
                out.push(held);
                out.push(m);
                held = scope[i].duplicate();
                assert(prior + (seq![h, times()] + rest) =~= scoped_views(out@) + rest);
            } else {
                let right = scope[i].duplicate();
                let joined = vec![held, multiplication(), right];
                proof {
                    lemma_views_index(joined@, 3);
                    assert(scoped_views(joined@) =~= seq![h, times(), right@]);
                    lemma_inner_view(joined);
                }
                held = ScopeElement::InnerScope(joined);
            }
        } else {
            if !held.is_blank_element() {
                proof {
                    lemma_views_push(out@, held);
                }
                out.push(held);
                assert(prior + (emit(h) + rest) =~= scoped_views(out@) + rest);
            } else {
                assert(prior + (emit(h) + rest) =~= scoped_views(out@) + rest);
            }
            held = scope[i].duplicate();
        }
        i = i + 1;
    }
    if !held.is_blank_element() {
        proof {
            lemma_views_push(out@, held);
        }
        out.push(held);
    }
    assert(scoped_views(out@) =~= implicit(sv));
    out
}

} // verus!
