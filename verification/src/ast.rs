//! The pattern syntax tree: one executable node type, its mathematical
//! counterpart, and the deep view connecting the two.

use vstd::prelude::*;

verus! {

/// The one way parsing can fail: the pattern string is not well formed
/// (empty, an unterminated class or group, or a dangling quantifier).
#[derive(Debug, PartialEq, Eq)]
pub enum GrepError {
    InvalidPattern,
}

/// One matchable unit of a pattern.
///
/// `Start` and `End` are ordinary sentinel nodes kept at the boundaries of a
/// node sequence, so the matcher can treat anchors uniformly. An
/// `Alternation` owns one node sequence per branch and the capture-group id
/// assigned when its opening parenthesis was parsed; `BackReference(n)`
/// demands a literal repeat of whatever group `n` captured.
#[derive(Debug, PartialEq, Eq)]
pub enum Pattern {
    Literal(char),
    Digit,
    Chars,
    PositiveCharGroup(Vec<char>),
    NegativeCharGroup(Vec<char>),
    Start,
    End,
    OneOrMore(Box<Pattern>),
    ZeroOrOne(Box<Pattern>),
    Wildcard,
    Alternation { alternations: Vec<Vec<Pattern>>, id: usize },
    BackReference(usize),
}

/// The mathematical shape of a pattern node: `Pattern` with every vector
/// replaced by a `Seq` and every machine integer widened to `int`.
pub ghost enum SpecPattern {
    Literal(char),
    Digit,
    Chars,
    PositiveCharGroup(Seq<char>),
    NegativeCharGroup(Seq<char>),
    Start,
    End,
    OneOrMore(Box<SpecPattern>),
    ZeroOrOne(Box<SpecPattern>),
    Wildcard,
    Alternation { alternations: Seq<Seq<SpecPattern>>, id: int },
    BackReference(int),
}

/// Deep view of one node.
pub open spec fn pattern_view(p: Pattern) -> SpecPattern
    decreases p,
{
    match p {
        Pattern::Literal(c) => SpecPattern::Literal(c),
        Pattern::Digit => SpecPattern::Digit,
        Pattern::Chars => SpecPattern::Chars,
        Pattern::PositiveCharGroup(values) => SpecPattern::PositiveCharGroup(values@),
        Pattern::NegativeCharGroup(values) => SpecPattern::NegativeCharGroup(values@),
        Pattern::Start => SpecPattern::Start,
        Pattern::End => SpecPattern::End,
        Pattern::OneOrMore(child) => SpecPattern::OneOrMore(Box::new(pattern_view(*child))),
        Pattern::ZeroOrOne(child) => SpecPattern::ZeroOrOne(Box::new(pattern_view(*child))),
        Pattern::Wildcard => SpecPattern::Wildcard,
        Pattern::Alternation { alternations, id } => SpecPattern::Alternation {
            alternations: branches_view(alternations@),
            id: id as int,
        },
        Pattern::BackReference(n) => SpecPattern::BackReference(n as int),
    }
}

/// Deep view of a node sequence.
pub open spec fn patterns_view(s: Seq<Pattern>) -> Seq<SpecPattern>
    decreases s,
{
    if s.len() == 0 {
        Seq::empty()
    } else {
        seq![pattern_view(s[0])] + patterns_view(s.drop_first())
    }
}

/// Deep view of a list of branches.
pub open spec fn branches_view(s: Seq<Vec<Pattern>>) -> Seq<Seq<SpecPattern>>
    decreases s,
{
    if s.len() == 0 {
        Seq::empty()
    } else {
        seq![patterns_view(s[0]@)] + branches_view(s.drop_first())
    }
}

/// `patterns_view` is the pointwise deep view: it keeps the length and maps
/// each node through `pattern_view`.
pub broadcast proof fn lemma_patterns_view(s: Seq<Pattern>)
    ensures
        (#[trigger] patterns_view(s)).len() == s.len(),
        forall|i: int| 0 <= i < s.len() ==> patterns_view(s)[i] == pattern_view(s[i]),
    decreases s,
{
    if s.len() > 0 {
        lemma_patterns_view(s.drop_first());
    }
}

/// `branches_view` is the pointwise deep view of a list of branches.
pub broadcast proof fn lemma_branches_view(s: Seq<Vec<Pattern>>)
    ensures
        (#[trigger] branches_view(s)).len() == s.len(),
        forall|i: int| 0 <= i < s.len() ==> branches_view(s)[i] == patterns_view(s[i]@),
    decreases s,
{
    if s.len() > 0 {
        lemma_branches_view(s.drop_first());
    }
}

/// The deep view distributes over `push`.
pub proof fn lemma_patterns_view_push(s: Seq<Pattern>, p: Pattern)
    ensures
        patterns_view(s.push(p)) == patterns_view(s).push(pattern_view(p)),
{
    lemma_patterns_view(s.push(p));
    lemma_patterns_view(s);
    assert(patterns_view(s.push(p)) =~= patterns_view(s).push(pattern_view(p)));
}

/// The deep view distributes over `drop_last`.
pub proof fn lemma_patterns_view_drop_last(s: Seq<Pattern>)
    requires
        s.len() > 0,
    ensures
        patterns_view(s.drop_last()) == patterns_view(s).drop_last(),
{
    lemma_patterns_view(s.drop_last());
    lemma_patterns_view(s);
    assert(patterns_view(s.drop_last()) =~= patterns_view(s).drop_last());
}

/// The deep view of a branch list distributes over `push`.
pub proof fn lemma_branches_view_push(s: Seq<Vec<Pattern>>, b: Vec<Pattern>)
    ensures
        branches_view(s.push(b)) == branches_view(s).push(patterns_view(b@)),
{
    lemma_branches_view(s.push(b));
    lemma_branches_view(s);
    assert(branches_view(s.push(b)) =~= branches_view(s).push(patterns_view(b@)));
}

impl View for Pattern {
    type V = SpecPattern;

    open spec fn view(&self) -> SpecPattern {
        pattern_view(*self)
    }
}

/// A compiled pattern: the top-level node sequence, with any `^` / `$`
/// anchors already in place as `Start` / `End` sentinel nodes.
#[derive(Debug, PartialEq, Eq)]
pub struct Regexp {
    pub patterns: Vec<Pattern>,
}

impl View for Regexp {
    type V = Seq<SpecPattern>;

    open spec fn view(&self) -> Seq<SpecPattern> {
        patterns_view(self.patterns@)
    }
}

} // verus!
