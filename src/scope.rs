use vstd::prelude::*;

use crate::lexer::{lexemes, prepend};
use crate::token::{FormulaError, Lexeme, Token};

verus! {

broadcast use vstd::std_specs::vec::group_vec_axioms, vstd::seq::group_seq_axioms;

/// A bracket level of a formula: its tokens, with each bracketed group
/// replaced by a nested scope. Brackets themselves do not appear.
pub enum Scoped {
    Token(Lexeme),
    Scope(Seq<Scoped>),
}

/// An element of a scope: a token or a nested scope.
#[derive(Debug, PartialEq)]
pub enum ScopeElement {
    Token(Token),
    InnerScope(Vec<ScopeElement>),
}

impl View for ScopeElement {
    type V = Scoped;

    open spec fn view(&self) -> Scoped
        decreases self, 0nat,
    {
        match self {
            ScopeElement::Token(t) => Scoped::Token(t@),
            ScopeElement::InnerScope(v) => Scoped::Scope(scoped_views_upto(v@, v@.len())),
        }
    }
}

/// The views of the first `n` elements of `v`.
pub open spec fn scoped_views_upto(v: Seq<ScopeElement>, n: nat) -> Seq<Scoped>
    decreases v, n,
{
    if n == 0 || n > v.len() {
        Seq::empty()
    } else {
        scoped_views_upto(v, (n - 1) as nat).push(v[n - 1].view())
    }
}

/// The view of each element.
pub open spec fn scoped_views(v: Seq<ScopeElement>) -> Seq<Scoped> {
    scoped_views_upto(v, v.len())
}

pub proof fn lemma_views_index(v: Seq<ScopeElement>, n: nat)
    requires
        n <= v.len(),
    ensures
        scoped_views_upto(v, n).len() == n,
        forall|i: int| 0 <= i < n ==> #[trigger] scoped_views_upto(v, n)[i] == v[i]@,
    decreases n,
{
    assert(scoped_views_upto(v, 0) == Seq::<Scoped>::empty());
    if n > 0 {
        lemma_views_index(v, (n - 1) as nat);
        assert(scoped_views_upto(v, n) == scoped_views_upto(v, (n - 1) as nat).push(v[n - 1].view()));
    }
}

pub proof fn lemma_inner_view(v: Vec<ScopeElement>)
    ensures
        ScopeElement::InnerScope(v)@ == Scoped::Scope(scoped_views(v@)),
{
}

pub proof fn lemma_views_push(v: Seq<ScopeElement>, e: ScopeElement)
    ensures
        scoped_views(v.push(e)) == scoped_views(v).push(e@),
{
    lemma_views_index(v.push(e), v.len() + 1);
    lemma_views_index(v, v.len());
    assert(scoped_views(v.push(e)) =~= scoped_views(v).push(e@));
}

impl ScopeElement {
    /// An element equal to this one, nested scopes included.
    pub fn duplicate(&self) -> (r: ScopeElement)
        ensures
            r@ == self@,
        decreases self,
    {
        match self {
            ScopeElement::Token(t) => ScopeElement::Token(t.duplicate()),
            ScopeElement::InnerScope(v) => {
                let mut out: Vec<ScopeElement> = Vec::new();
                let mut k: usize = 0;
                while k < v.len()
                    invariant
                        k <= v.len(),
                        *self == ScopeElement::InnerScope(*v),
                        scoped_views(out@) == scoped_views_upto(v@, k as nat),
                    decreases v.len() - k,
                {
                    proof {
                        lemma_element_decreases(*self, k as int);
                        assert(decreases_to!(*self => v[k as int]));
                    }
                    let e = v[k].duplicate();
                    proof {
                        lemma_views_push(out@, e);
                        assert(scoped_views_upto(v@, (k + 1) as nat) == scoped_views_upto(
                            v@,
                            k as nat,
                        ).push(v@[k as int].view()));
                    }
                    out.push(e);
                    k = k + 1;
                }
                proof {
                    lemma_inner_view(out);
                }
                ScopeElement::InnerScope(out)
            },
        }
    }
}

proof fn lemma_element_decreases(e: ScopeElement, k: int)
    ensures
        e is InnerScope && 0 <= k < e->InnerScope_0.len() ==> decreases_to!(e => e->InnerScope_0[k]),
{
    if let ScopeElement::InnerScope(v) = e {
        if 0 <= k < v.len() {
            assert(decreases_to!(e => v));
            assert(decreases_to!(v => v[k]));
        }
    }
}

pub open spec fn bracket_delta(t: Lexeme) -> int {
    match t {
        Lexeme::OpeningBracket => 1,
        Lexeme::ClosingBracket => -1,
        _ => 0,
    }
}

/// Scanning from `i` at bracket depth `d`, the first position below `hi`
/// where the depth comes back to zero; `hi` if there is none.
pub open spec fn close_index(t: Seq<Lexeme>, i: int, hi: int, d: int) -> int
    decreases hi - i,
{
    if i >= hi {
        hi
    } else if d + bracket_delta(t[i]) == 0 {
        i
    } else {
        close_index(t, i + 1, hi, d + bracket_delta(t[i]))
    }
}

pub proof fn lemma_close_index_bound(t: Seq<Lexeme>, i: int, hi: int, d: int)
    requires
        i <= hi,
    ensures
        i <= close_index(t, i, hi, d) <= hi,
    decreases hi - i,
{
    if i < hi && d + bracket_delta(t[i]) != 0 {
        lemma_close_index_bound(t, i + 1, hi, d + bracket_delta(t[i]));
    }
}

/// The scope tree of the tokens `t[lo..hi]`: a bracketed group becomes a
/// nested scope; a closing bracket without its opening one, or an opening
/// one that is never closed, is `UnmatchedBrackets`.
pub open spec fn group(t: Seq<Lexeme>, lo: int, hi: int) -> Result<Seq<Scoped>, FormulaError>
    decreases hi - lo,
{
    if lo >= hi {
        Ok(seq![])
    } else {
        match t[lo] {
            Lexeme::ClosingBracket => Err(FormulaError::UnmatchedBrackets),
            Lexeme::OpeningBracket => {
                let j = close_index(t, lo + 1, hi, 1);
                proof {
                    lemma_close_index_bound(t, lo + 1, hi, 1);
                }
                if j >= hi {
                    Err(FormulaError::UnmatchedBrackets)
                } else {
                    match group(t, lo + 1, j) {
                        Err(e) => Err(e),
                        Ok(inner) => prepend(seq![Scoped::Scope(inner)], group(t, j + 1, hi)),
                    }
                }
            },
            x => prepend(seq![Scoped::Token(x)], group(t, lo + 1, hi)),
        }
    }
}

/// The bracket depth at the end of `t[lo..hi]`: openings minus closings.
pub open spec fn depth(t: Seq<Lexeme>, lo: int, hi: int) -> int
    decreases hi - lo,
{
    if hi <= lo {
        0
    } else {
        depth(t, lo, hi - 1) + bracket_delta(t[hi - 1])
    }
}

/// The brackets of `t[lo..hi]` pair up: no prefix closes more than it
/// opens, and the whole closes all it opens.
pub open spec fn balanced(t: Seq<Lexeme>, lo: int, hi: int) -> bool {
    &&& depth(t, lo, hi) == 0
    &&& forall|k: int| lo <= k <= hi ==> #[trigger] depth(t, lo, k) >= 0
}

proof fn lemma_depth_split(t: Seq<Lexeme>, lo: int, m: int, hi: int)
    requires
        lo <= m <= hi,
    ensures
        depth(t, lo, hi) == depth(t, lo, m) + depth(t, m, hi),
    decreases hi - m,
{
    if m < hi {
        lemma_depth_split(t, lo, m, hi - 1);
    }
}

/// Between an opening bracket at `lo` and its partner found by
/// `close_index`, the depth stays positive; at the partner it is back at zero.
proof fn lemma_close_index_depth(t: Seq<Lexeme>, lo: int, i: int, hi: int, d: int)
    requires
        lo < i <= hi,
        d == depth(t, lo, i),
        forall|k: int| lo + 1 <= k <= i ==> #[trigger] depth(t, lo, k) >= 1,
    ensures
        ({
            let j = close_index(t, i, hi, d);
            &&& forall|k: int| lo + 1 <= k <= j ==> #[trigger] depth(t, lo, k) >= 1
            &&& j < hi ==> depth(t, lo, j + 1) == 0
        }),
    decreases hi - i,
{
    if i < hi {
        assert(depth(t, lo, i + 1) == d + bracket_delta(t[i]));
        if d + bracket_delta(t[i]) != 0 {
            lemma_close_index_depth(t, lo, i + 1, hi, d + bracket_delta(t[i]));
        }
    }
}

/// The bracket stage succeeds on `t[lo..hi]` exactly when its brackets pair
/// up, and its only error is `UnmatchedBrackets`.
pub proof fn lemma_group_balanced(t: Seq<Lexeme>, lo: int, hi: int)
    requires
        0 <= lo <= hi <= t.len(),
    ensures
        group(t, lo, hi) is Ok <==> balanced(t, lo, hi),
        group(t, lo, hi) is Err ==> group(t, lo, hi) == Err::<Seq<Scoped>, FormulaError>(
            FormulaError::UnmatchedBrackets,
        ),
    decreases hi - lo,
{
    if lo < hi {
        assert(depth(t, lo, lo) == 0);
        assert(depth(t, lo, lo + 1) == bracket_delta(t[lo]));
        match t[lo] {
            Lexeme::ClosingBracket => {
                assert(depth(t, lo, lo + 1) < 0);
            },
            Lexeme::OpeningBracket => {
                let j = close_index(t, lo + 1, hi, 1);
                lemma_close_index_bound(t, lo + 1, hi, 1);
                lemma_close_index_depth(t, lo, lo + 1, hi, 1);
                if j >= hi {
                    assert(depth(t, lo, hi) >= 1);
                } else {
                    lemma_depth_split(t, lo, j, j + 1);
                    assert(depth(t, lo, j) == 1);
                    assert forall|k: int| lo + 1 <= k <= j implies #[trigger] depth(t, lo + 1, k)
                        >= 0 by {
                        lemma_depth_split(t, lo, lo + 1, k);
                    }
                    lemma_depth_split(t, lo, lo + 1, j);
                    lemma_group_balanced(t, lo + 1, j);
                    lemma_group_balanced(t, j + 1, hi);
                    assert forall|k: int| j + 1 <= k <= hi implies depth(t, lo, k) == depth(
                        t,
                        j + 1,
                        k,
                    ) by {
                        lemma_depth_split(t, lo, j + 1, k);
                    }
                    if balanced(t, j + 1, hi) {
                        assert forall|k: int| lo <= k <= hi implies #[trigger] depth(t, lo, k)
                            >= 0 by {
                            if k >= j + 1 {
                                assert(depth(t, j + 1, k) >= 0);
                            }
                        }
                    }
                    if balanced(t, lo, hi) {
                        assert forall|k: int| j + 1 <= k <= hi implies #[trigger] depth(
                            t,
                            j + 1,
                            k,
                        ) >= 0 by {
                            assert(depth(t, lo, k) >= 0);
                        }
                    }
                }
            },
            _ => {
                lemma_group_balanced(t, lo + 1, hi);
                assert forall|k: int| lo + 1 <= k <= hi implies depth(t, lo, k) == depth(
                    t,
                    lo + 1,
                    k,
                ) by {
                    lemma_depth_split(t, lo, lo + 1, k);
                }
                if balanced(t, lo + 1, hi) {
                    assert forall|k: int| lo <= k <= hi implies #[trigger] depth(t, lo, k)
                        >= 0 by {
                        if k >= lo + 1 {
                            assert(depth(t, lo + 1, k) >= 0);
                        }
                    }
                }
                if balanced(t, lo, hi) {
                    assert forall|k: int| lo + 1 <= k <= hi implies #[trigger] depth(t, lo + 1, k)
                        >= 0 by {
                        assert(depth(t, lo, k) >= 0);
                    }
                }
            },
        }
    }
}

/// The last token of `t[lo..hi]` that is not whitespace.
pub open spec fn last_token(t: Seq<Lexeme>, lo: int, hi: int) -> Option<Lexeme>
    decreases hi - lo,
{
    if lo >= hi {
        None
    } else {
        match last_token(t, lo + 1, hi) {
            Some(y) => Some(y),
            None => if t[lo] == Lexeme::Whitespace {
                None
            } else {
                Some(t[lo])
            },
        }
    }
}

proof fn lemma_close_index_closing(t: Seq<Lexeme>, i: int, hi: int, d: int)
    requires
        0 <= i,
        hi <= t.len(),
        d >= 1,
    ensures
        close_index(t, i, hi, d) < hi ==> t[close_index(t, i, hi, d)] == Lexeme::ClosingBracket,
    decreases hi - i,
{
    if i < hi && d + bracket_delta(t[i]) != 0 {
        lemma_close_index_closing(t, i + 1, hi, d + bracket_delta(t[i]));
    }
}

proof fn lemma_last_token_split(t: Seq<Lexeme>, lo: int, m: int, hi: int)
    requires
        lo <= m,
        last_token(t, m, hi) is Some,
    ensures
        last_token(t, lo, hi) == last_token(t, m, hi),
    decreases m - lo,
{
    if lo < m {
        lemma_last_token_split(t, lo + 1, m, hi);
    }
}

proof fn lemma_group_blank(t: Seq<Lexeme>, lo: int, hi: int)
    requires
        0 <= lo <= hi <= t.len(),
        last_token(t, lo, hi) is None,
    ensures
        group(t, lo, hi) matches Ok(g) && crate::implicit::last_solid(g) is None,
    decreases hi - lo,
{
    if lo < hi {
        lemma_group_blank(t, lo + 1, hi);
        let g = group(t, lo + 1, hi)->Ok_0;
        assert((seq![Scoped::Token(t[lo])] + g).drop_first() =~= g);
    }
}

/// The bracket stage keeps a final operator last among the elements that
/// are not whitespace.
pub proof fn lemma_group_last(t: Seq<Lexeme>, lo: int, hi: int, x: Lexeme)
    requires
        0 <= lo <= hi <= t.len(),
        group(t, lo, hi) is Ok,
        last_token(t, lo, hi) == Some(x),
        x is Operator,
    ensures
        crate::implicit::last_solid(group(t, lo, hi)->Ok_0) == Some(Scoped::Token(x)),
    decreases hi - lo,
{
    match t[lo] {
        Lexeme::OpeningBracket => {
            let j = close_index(t, lo + 1, hi, 1);
            lemma_close_index_bound(t, lo + 1, hi, 1);
            lemma_close_index_closing(t, lo + 1, hi, 1);
            if last_token(t, j + 1, hi) is None {
                assert(last_token(t, j, hi) == Some(t[j]));
                lemma_last_token_split(t, lo, j, hi);
            } else {
                lemma_last_token_split(t, lo, j + 1, hi);
                lemma_group_last(t, j + 1, hi, x);
                let g = group(t, j + 1, hi)->Ok_0;
                let inner = group(t, lo + 1, j)->Ok_0;
                assert((seq![Scoped::Scope(inner)] + g).drop_first() =~= g);
            }
        },
        _ => {
            let g = group(t, lo + 1, hi)->Ok_0;
            assert((seq![Scoped::Token(t[lo])] + g).drop_first() =~= g);
            if last_token(t, lo + 1, hi) is Some {
                lemma_last_token_split(t, lo, lo + 1, hi);
                lemma_group_last(t, lo + 1, hi, x);
            } else {
                lemma_group_blank(t, lo + 1, hi);
            }
        },
    }
}

/// The scope tree of a whole token sequence.
pub open spec fn scopes(t: Seq<Lexeme>) -> Result<Seq<Scoped>, FormulaError> {
    group(t, 0, t.len() as int)
}

fn find_close(t: &Vec<Token>, i: usize, hi: usize) -> (r: usize)
    requires
        1 <= i <= hi <= t.len(),
    ensures
        r == close_index(lexemes(t@), i as int, hi as int, 1),
{
    let ghost l = lexemes(t@);
    let mut j = i;
    let mut d: usize = 1;
    while j < hi
        invariant
            1 <= i <= j <= hi <= t.len(),
            1 <= d <= j - i + 1,
            l == lexemes(t@),
            close_index(l, i as int, hi as int, 1) == close_index(l, j as int, hi as int, d as int),
        decreases hi - j,
    {
        match &t[j] {
            Token::OpeningBracket => {
                d = d + 1;
            },
            Token::ClosingBracket => {
                if d == 1 {
                    return j;
                }
                d = d - 1;
            },
            _ => {},
        }
        j = j + 1;
    }
    hi
}

fn group_range(t: &Vec<Token>, lo: usize, hi: usize) -> (r: Result<Vec<ScopeElement>, FormulaError>)
    requires
        lo <= hi <= t.len(),
    ensures
        match group(lexemes(t@), lo as int, hi as int) {
            Ok(g) => r matches Ok(v) && scoped_views(v@) == g,
            Err(e) => r matches Err(e2) && e2 == e,
        },
    decreases hi - lo,
{
    let ghost l = lexemes(t@);
    let mut out: Vec<ScopeElement> = Vec::new();
    let mut i = lo;
    while i < hi
        invariant
            lo <= i <= hi <= t.len(),
            l == lexemes(t@),
            group(l, lo as int, hi as int) == prepend(scoped_views(out@), group(l, i as int, hi as int)),
        decreases hi - i,
    {
        match &t[i] {
            Token::ClosingBracket => {
                return Err(FormulaError::UnmatchedBrackets);
            },
            Token::OpeningBracket => {
                let j = find_close(t, i + 1, hi);
                proof {
                    lemma_close_index_bound(l, i + 1, hi as int, 1);
                }
                if j >= hi {
                    return Err(FormulaError::UnmatchedBrackets);
                }
                match group_range(t, i + 1, j) {
                    Err(e) => {
                        return Err(e);
                    },
                    Ok(inner) => {
                        let e = ScopeElement::InnerScope(inner);
                        proof {
                            lemma_inner_view(inner);
                            lemma_views_push(out@, e);
                            crate::lexer::lemma_prepend_push(
                                scoped_views(out@),
                                e@,
                                group(l, j + 1, hi as int),
                            );
                        }
                        out.push(e);
                        i = j + 1;
                    },
                }
            },
            tok => {
                let e = ScopeElement::Token(tok.duplicate());
                proof {
                    lemma_views_push(out@, e);
                    crate::lexer::lemma_prepend_push(
                        scoped_views(out@),
                        e@,
                        group(l, i + 1, hi as int),
                    );
                }
                out.push(e);
                i = i + 1;
            },
        }
    }
    assert(scoped_views(out@) + seq![] =~= scoped_views(out@));
    Ok(out)
}

/// Groups a token sequence by its brackets.
pub fn build_scopes(tokens: &Vec<Token>) -> (r: Result<Vec<ScopeElement>, FormulaError>)
    ensures
        match scopes(lexemes(tokens@)) {
            Ok(g) => r matches Ok(v) && scoped_views(v@) == g,
            Err(e) => r matches Err(e2) && e2 == e,
        },
{
    group_range(tokens, 0, tokens.len())
}

} // verus!
