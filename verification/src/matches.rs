//! The rule-match record and its parts.

use vstd::prelude::*;

verus! {

/// Identifier of an equivalence class, issued by the graph.
#[derive(Clone, Copy, PartialEq, Eq, Structural, Debug)]
pub struct Id(pub u32);

/// A pattern variable.
#[derive(Clone, Copy, PartialEq, Eq, Structural, Debug)]
pub struct Var(pub u32);

/// An assignment of pattern variables to equivalence classes.
#[derive(Debug, Clone, PartialEq, Eq)]
pub struct Subst {
    pub vec: Vec<(Var, Id)>,
}

/// A derivation artifact that accompanies a match when proofs are produced.
#[derive(Debug, Clone, PartialEq, Eq)]
pub struct PatternAst {
    pub nodes: Vec<u32>,
}

/// What a match record holds, as mathematical values.
pub struct MatchView {
    pub eclass: Id,
    pub substs: Seq<Seq<(Var, Id)>>,
    pub ast: Option<Seq<u32>>,
}

/// The matches of one rule at one equivalence class, as the matcher hands
/// them over.
#[derive(Debug, Clone, PartialEq, Eq)]
pub struct SearchMatches {
    /// The class that the matches were found in.
    pub eclass: Id,
    /// One substitution per match.
    pub substs: Vec<Subst>,
    /// The derivation artifact, if any.
    pub ast: Option<PatternAst>,
}

impl View for Subst {
    type V = Seq<(Var, Id)>;

    open spec fn view(&self) -> Seq<(Var, Id)> {
        self.vec@
    }
}

impl View for PatternAst {
    type V = Seq<u32>;

    open spec fn view(&self) -> Seq<u32> {
        self.nodes@
    }
}

/// The views of a sequence of substitutions.
pub open spec fn substs_view(substs: Seq<Subst>) -> Seq<Seq<(Var, Id)>> {
    Seq::new(substs.len(), |i: int| substs[i]@)
}

/// The view of an optional derivation artifact.
pub open spec fn ast_view(ast: Option<PatternAst>) -> Option<Seq<u32>> {
    match ast {
        Some(a) => Some(a@),
        None => None,
    }
}

impl View for SearchMatches {
    type V = MatchView;

    open spec fn view(&self) -> MatchView {
        MatchView { eclass: self.eclass, substs: substs_view(self.substs@), ast: ast_view(self.ast) }
    }
}

/// The views of a sequence of match records.
pub open spec fn matches_view(ms: Seq<SearchMatches>) -> Seq<MatchView> {
    Seq::new(ms.len(), |i: int| ms[i]@)
}

impl Subst {
    /// A copy with the same bindings in the same order.
    pub fn duplicate(&self) -> (copy: Subst)
        ensures
            copy@ == self@,
    {
        let mut vec: Vec<(Var, Id)> = Vec::new();
        let mut i: usize = 0;
        while i < self.vec.len()
            invariant
                i <= self.vec.len(),
                vec@ == self.vec@.take(i as int),
            decreases self.vec.len() - i,
        {
            vec.push(self.vec[i]);
            i += 1;
        }
        Subst { vec }
    }
}

impl PatternAst {
    /// A copy with the same nodes in the same order.
    pub fn duplicate(&self) -> (copy: PatternAst)
        ensures
            copy@ == self@,
    {
        let mut nodes: Vec<u32> = Vec::new();
        let mut i: usize = 0;
        while i < self.nodes.len()
            invariant
                i <= self.nodes.len(),
                nodes@ == self.nodes@.take(i as int),
            decreases self.nodes.len() - i,
        {
            nodes.push(self.nodes[i]);
            i += 1;
        }
        PatternAst { nodes }
    }
}

/// Copies a list of substitutions.
pub fn duplicate_substs(substs: &Vec<Subst>) -> (copy: Vec<Subst>)
    ensures
        substs_view(copy@) == substs_view(substs@),
{
    let mut copy: Vec<Subst> = Vec::new();
    let mut i: usize = 0;
    while i < substs.len()
        invariant
            i <= substs.len(),
            copy.len() == i,
            forall|j: int| 0 <= j < i ==> (#[trigger] copy[j])@ == substs[j]@,
        decreases substs.len() - i,
    {
        copy.push(substs[i].duplicate());
        i += 1;
    }
    assert(substs_view(copy@) =~= substs_view(substs@));
    copy
}

/// Copies an optional derivation artifact.
pub fn duplicate_ast(ast: &Option<PatternAst>) -> (copy: Option<PatternAst>)
    ensures
        ast_view(copy) == ast_view(*ast),
{
    match ast {
        Some(a) => Some(a.duplicate()),
        None => None,
    }
}

impl SearchMatches {
    /// The number of substitutions that the record holds.
    pub fn substitution_count(&self) -> (n: usize)
        ensures
            n == self@.substs.len(),
    {
        self.substs.len()
    }
}

/// The same items in the opposite order.
pub fn reversed<T>(v: Vec<T>) -> (r: Vec<T>)
    ensures
        r.len() == v.len(),
        forall|j: int| 0 <= j < r.len() ==> r[j] == v[v.len() - 1 - j],
{
    let mut v = v;
    let ghost orig = v@;
    let mut r: Vec<T> = Vec::new();
    while v.len() > 0
        invariant
            v.len() + r.len() == orig.len(),
            v@ == orig.take(v.len() as int),
            forall|j: int| 0 <= j < r.len() ==> r[j] == orig[orig.len() - 1 - j],
        decreases v.len(),
    {
        let item = v.pop();
        match item {
            Some(x) => {
                r.push(x);
            },
            None => {},
        }
    }
    r
}

} // verus!
