//! The backtracking matcher, in two layers.
//!
//! The spec layer defines exactly which span and capture table a node
//! sequence yields on a line, as a recursive search with an explicit step
//! budget (`fuel`); greedy choices, the order alternation branches and
//! boundaries are tried in, and capture scoping are all part of the
//! definition. The exec layer mirrors it and is proved to return precisely
//! what the spec layer says.

use vstd::prelude::*;
use vstd::std_specs::vec::vec_index;

use crate::ast::Pattern;
use crate::ast::Regexp;
use crate::ast::SpecPattern;
use crate::ast::branches_view;
use crate::ast::pattern_view;
use crate::ast::patterns_view;
use crate::parser::char_at;

verus! {

/// A capture table: group id to the half-open span of the line the group
/// matched, newest entries last, each key at most once.
pub type SpecCaps = Seq<(int, (int, int))>;

/// The span captured for group `k`, if any.
pub open spec fn caps_get(caps: SpecCaps, k: int) -> Option<(int, int)>
    decreases caps.len(),
{
    if caps.len() == 0 {
        None
    } else if caps[0].0 == k {
        Some(caps[0].1)
    } else {
        caps_get(caps.drop_first(), k)
    }
}

/// Record `k -> v`, replacing the previous entry for `k` if there is one.
pub open spec fn caps_insert(caps: SpecCaps, k: int, v: (int, int)) -> SpecCaps
    decreases caps.len(),
{
    if caps.len() == 0 {
        seq![(k, v)]
    } else if caps[0].0 == k {
        seq![(k, v)] + caps.drop_first()
    } else {
        seq![caps[0]] + caps_insert(caps.drop_first(), k, v)
    }
}

/// Record every entry of `other` in order, each overwriting as `caps_insert`
/// does.
pub open spec fn caps_extend(caps: SpecCaps, other: SpecCaps) -> SpecCaps
    decreases other.len(),
{
    if other.len() == 0 {
        caps
    } else {
        caps_extend(caps_insert(caps, other[0].0, other[0].1), other.drop_first())
    }
}

/// One match attempt: where it began, the scan cursor, the line in view
/// (alternation truncates it), and the captures recorded so far.
pub ghost struct SpecMatchContext {
    pub start: int,
    pub cur: int,
    pub line: Seq<char>,
    pub caps: SpecCaps,
}

/// What the engine calls `\w`: the result of `char::is_alphanumeric`,
/// a fixed function of the character alone.
pub uninterp spec fn is_alphanumeric_char(c: char) -> bool;

/// Relies on `char::is_alphanumeric`: the result depends on the character
/// alone, so it is named by `is_alphanumeric_char` and nothing more is
/// assumed of it.
#[verifier::external_body]
fn char_is_alphanumeric(c: char) -> (r: bool)
    ensures
        r == is_alphanumeric_char(c),
{
    c.is_alphanumeric()
}

/// What the engine calls `\d`: an ASCII decimal digit.
pub open spec fn is_digit_char(c: char) -> bool {
    '0' <= c && c <= '9'
}

/// A fresh attempt at offset `start` of `line`: no input consumed, no
/// captures.
pub open spec fn ctx_new(start: int, line: Seq<char>) -> SpecMatchContext {
    SpecMatchContext { start, cur: start, line, caps: Seq::empty() }
}

/// The character under the cursor, if the cursor is inside the line.
pub open spec fn ctx_first_char(ctx: SpecMatchContext) -> Option<char> {
    if 0 <= ctx.cur < ctx.line.len() {
        Some(ctx.line[ctx.cur])
    } else {
        None
    }
}

/// The context after consuming `count` characters.
pub open spec fn ctx_advance(ctx: SpecMatchContext, count: int) -> SpecMatchContext {
    SpecMatchContext { start: ctx.start, cur: ctx.cur + count, line: ctx.line, caps: ctx.caps }
}

/// The budgeted backtracking search: consume `nodes` against `ctx.line`
/// from `ctx.cur` on, returning the matched span (from `ctx.start` to the
/// final cursor) and the capture table of the successful path, `None` when
/// no path succeeds or the step budget runs out.
///
/// Greedy order is part of the definition: a quantifier first tries to
/// consume more, an alternation tries its branches in order and, per branch,
/// every boundary for the branch's sub-match from the longest down.
pub open spec fn smatch_here(fuel: nat, nodes: Seq<SpecPattern>, ctx: SpecMatchContext) -> Option<
    ((int, int), SpecCaps),
>
    decreases fuel,
{
    if fuel == 0 {
        None
    } else if nodes.len() == 0 {
        Some(((ctx.start, ctx.cur), ctx.caps))
    } else {
        let rem = nodes.drop_first();
        let fc = ctx_first_char(ctx);
        match nodes[0] {
            SpecPattern::Literal(c) => if fc == Some(c) {
                smatch_here((fuel - 1) as nat, rem, ctx_advance(ctx, 1))
            } else {
                None
            },
            SpecPattern::Digit => if fc is Some && is_digit_char(fc.unwrap()) {
                smatch_here((fuel - 1) as nat, rem, ctx_advance(ctx, 1))
            } else {
                None
            },
            SpecPattern::Chars => if fc is Some && is_alphanumeric_char(fc.unwrap()) {
                smatch_here((fuel - 1) as nat, rem, ctx_advance(ctx, 1))
            } else {
                None
            },
            SpecPattern::PositiveCharGroup(values) => if fc is Some && values.contains(
                fc.unwrap(),
            ) {
                smatch_here((fuel - 1) as nat, rem, ctx_advance(ctx, 1))
            } else {
                None
            },
            SpecPattern::NegativeCharGroup(values) => if fc is Some && !values.contains(
                fc.unwrap(),
            ) {
                smatch_here((fuel - 1) as nat, rem, ctx_advance(ctx, 1))
            } else {
                None
            },
            SpecPattern::Wildcard => if fc is Some {
                smatch_here((fuel - 1) as nat, rem, ctx_advance(ctx, 1))
            } else {
                None
            },
            SpecPattern::BackReference(id) => match caps_get(ctx.caps, id) {
                None => None,
                Some((s, e)) => if 0 <= s && s <= e && e <= ctx.line.len() && ctx.cur + (e - s)
                    <= ctx.line.len() && ctx.line.subrange(ctx.cur, ctx.cur + (e - s))
                    == ctx.line.subrange(s, e) {
                    smatch_here((fuel - 1) as nat, rem, ctx_advance(ctx, e - s))
                } else {
                    None
                },
            },
            SpecPattern::OneOrMore(inner) => match smatch_here(
                (fuel - 1) as nat,
                seq![*inner] + nodes,
                ctx,
            ) {
                Some(r) => Some(r),
                None => smatch_here((fuel - 1) as nat, seq![*inner] + rem, ctx),
            },
            SpecPattern::ZeroOrOne(inner) => match smatch_here(
                (fuel - 1) as nat,
                seq![*inner] + rem,
                ctx,
            ) {
                Some(r) => Some(r),
                None => smatch_here((fuel - 1) as nat, rem, ctx),
            },
            SpecPattern::Alternation { alternations, id } => smatch_alt(
                (fuel - 1) as nat,
                alternations,
                0,
                ctx.line.len() as int,
                id,
                rem,
                ctx,
            ),
            SpecPattern::End => if fc is None {
                Some(((ctx.start, ctx.cur), ctx.caps))
            } else {
                None
            },
            SpecPattern::Start => None,
        }
    }
}

/// The alternation search: branch `bi` against every boundary from `end`
/// down to the cursor, then the next branch afresh. A branch match runs on
/// the line truncated at the boundary, starting from the cursor with an
/// empty capture table; on success the group's span is recorded under `id`,
/// the branch's own captures are merged over it, and the remaining outer
/// nodes continue from the new cursor. The first combination whose outer
/// continuation also succeeds wins.
pub open spec fn smatch_alt(
    fuel: nat,
    branches: Seq<Seq<SpecPattern>>,
    bi: int,
    end: int,
    id: int,
    rem: Seq<SpecPattern>,
    ctx: SpecMatchContext,
) -> Option<((int, int), SpecCaps)>
    decreases fuel,
{
    if fuel == 0 {
        None
    } else if bi >= branches.len() {
        None
    } else if end < ctx.cur {
        smatch_alt((fuel - 1) as nat, branches, bi + 1, ctx.line.len() as int, id, rem, ctx)
    } else {
        let bctx = ctx_new(ctx.cur, ctx.line.take(end));
        match smatch_here((fuel - 1) as nat, branches[bi], bctx) {
            None => smatch_alt((fuel - 1) as nat, branches, bi, end - 1, id, rem, ctx),
            Some((bsp, btab)) => {
                let nctx = SpecMatchContext {
                    start: ctx.start,
                    cur: ctx.cur + (bsp.1 - bsp.0),
                    line: ctx.line,
                    caps: caps_extend(caps_insert(ctx.caps, id, bsp), btab),
                };
                match smatch_here((fuel - 1) as nat, rem, nctx) {
                    Some((osp, otab)) => Some(((ctx.start, osp.1), otab)),
                    None => smatch_alt((fuel - 1) as nat, branches, bi, end - 1, id, rem, ctx),
                }
            },
        }
    }
}

/// The step budget every match attempt starts with: generous enough that no
/// input of reasonable size runs out, while keeping every search finite.
pub const MATCH_FUEL: u64 = 1000000;

/// One match attempt at offset `start`, with the full budget.
pub open spec fn smatch_at(nodes: Seq<SpecPattern>, line: Seq<char>, start: int) -> Option<
    ((int, int), SpecCaps),
>  {
    smatch_here(MATCH_FUEL as nat, nodes, ctx_new(start, line))
}

/// The leftmost search: try offsets `idx`, `idx + 1`, ... up to (but not
/// including) the line length; the first offset whose attempt succeeds
/// wins.
pub open spec fn spec_search_from(nodes: Seq<SpecPattern>, line: Seq<char>, idx: int) -> Option<
    (int, int),
>
    decreases line.len() - idx,
{
    if idx >= line.len() {
        None
    } else {
        match smatch_at(nodes, line, idx) {
            Some((sp, _)) => Some(sp),
            None => spec_search_from(nodes, line, idx + 1),
        }
    }
}

/// What matching a compiled pattern against a line returns: if the node
/// sequence opens with the `Start` sentinel only offset 0 is attempted,
/// otherwise the leftmost offset whose attempt succeeds wins.
pub open spec fn spec_matches(nodes: Seq<SpecPattern>, line: Seq<char>) -> Option<(int, int)> {
    if nodes.len() > 0 && nodes[0] is Start {
        match smatch_here(MATCH_FUEL as nat, nodes.drop_first(), ctx_new(0, line)) {
            Some((sp, _)) => Some(sp),
            None => None,
        }
    } else {
        spec_search_from(nodes, line, 0)
    }
}

/// A context the exec matcher can run in: the attempt began at or before
/// the cursor, and the cursor is inside the line.
pub open spec fn ctx_wf(ctx: SpecMatchContext) -> bool {
    0 <= ctx.start <= ctx.cur <= ctx.line.len()
}

/// A successful match runs from exactly where the attempt began to a final
/// cursor between the current one and the end of the line.
pub proof fn lemma_smatch_here_wf(fuel: nat, nodes: Seq<SpecPattern>, ctx: SpecMatchContext)
    requires
        ctx_wf(ctx),
        smatch_here(fuel, nodes, ctx) is Some,
    ensures
        ({
            let (sp, tab) = smatch_here(fuel, nodes, ctx).unwrap();
            sp.0 == ctx.start && ctx.cur <= sp.1 <= ctx.line.len()
        }),
    decreases fuel,
{
    if fuel == 0 || nodes.len() == 0 {
    } else {
        let rem = nodes.drop_first();
        match nodes[0] {
            SpecPattern::OneOrMore(inner) => {
                if smatch_here((fuel - 1) as nat, seq![*inner] + nodes, ctx) is Some {
                    lemma_smatch_here_wf((fuel - 1) as nat, seq![*inner] + nodes, ctx);
                } else {
                    lemma_smatch_here_wf((fuel - 1) as nat, seq![*inner] + rem, ctx);
                }
            },
            SpecPattern::ZeroOrOne(inner) => {
                if smatch_here((fuel - 1) as nat, seq![*inner] + rem, ctx) is Some {
                    lemma_smatch_here_wf((fuel - 1) as nat, seq![*inner] + rem, ctx);
                } else {
                    lemma_smatch_here_wf((fuel - 1) as nat, rem, ctx);
                }
            },
            SpecPattern::Alternation { alternations, id } => {
                lemma_smatch_alt_wf(
                    (fuel - 1) as nat,
                    alternations,
                    0,
                    ctx.line.len() as int,
                    id,
                    rem,
                    ctx,
                );
            },
            SpecPattern::BackReference(gid) => {
                if smatch_here(fuel, nodes, ctx) is Some {
                    let (s, e) = caps_get(ctx.caps, gid).unwrap();
                    lemma_smatch_here_wf((fuel - 1) as nat, rem, ctx_advance(ctx, e - s));
                }
            },
            _ => {
                if smatch_here(fuel, nodes, ctx) is Some && ctx_first_char(ctx) is Some {
                    lemma_smatch_here_wf((fuel - 1) as nat, rem, ctx_advance(ctx, 1));
                }
            },
        }
    }
}

/// The alternation search respects the same bounds whenever the boundary is
/// inside the line.
pub proof fn lemma_smatch_alt_wf(
    fuel: nat,
    branches: Seq<Seq<SpecPattern>>,
    bi: int,
    end: int,
    id: int,
    rem: Seq<SpecPattern>,
    ctx: SpecMatchContext,
)
    requires
        ctx_wf(ctx),
        end <= ctx.line.len(),
        smatch_alt(fuel, branches, bi, end, id, rem, ctx) is Some,
    ensures
        ({
            let (sp, tab) = smatch_alt(fuel, branches, bi, end, id, rem, ctx).unwrap();
            sp.0 == ctx.start && ctx.cur <= sp.1 <= ctx.line.len()
        }),
    decreases fuel,
{
    if fuel == 0 || bi >= branches.len() {
    } else if end < ctx.cur {
        lemma_smatch_alt_wf(
            (fuel - 1) as nat,
            branches,
            bi + 1,
            ctx.line.len() as int,
            id,
            rem,
            ctx,
        );
    } else {
        let bctx = ctx_new(ctx.cur, ctx.line.take(end));
        match smatch_here((fuel - 1) as nat, branches[bi], bctx) {
            None => {
                lemma_smatch_alt_wf((fuel - 1) as nat, branches, bi, end - 1, id, rem, ctx);
            },
            Some((bsp, btab)) => {
                lemma_smatch_here_wf((fuel - 1) as nat, branches[bi], bctx);
                let nctx = SpecMatchContext {
                    start: ctx.start,
                    cur: ctx.cur + (bsp.1 - bsp.0),
                    line: ctx.line,
                    caps: caps_extend(caps_insert(ctx.caps, id, bsp), btab),
                };
                match smatch_here((fuel - 1) as nat, rem, nctx) {
                    Some(_) => {
                        lemma_smatch_here_wf((fuel - 1) as nat, rem, nctx);
                    },
                    None => {
                        lemma_smatch_alt_wf(
                            (fuel - 1) as nat,
                            branches,
                            bi,
                            end - 1,
                            id,
                            rem,
                            ctx,
                        );
                    },
                }
            },
        }
    }
}

/// The integer image of a machine-word capture table.
pub open spec fn caps_view(s: Seq<(usize, (usize, usize))>) -> SpecCaps {
    Seq::new(s.len(), |i: int| (s[i].0 as int, (s[i].1.0 as int, s[i].1.1 as int)))
}

/// The view of a successful exec match result.
pub open spec fn match_result_view(
    r: Option<((usize, usize), Vec<(usize, (usize, usize))>)>,
) -> Option<((int, int), SpecCaps)> {
    match r {
        None => None,
        Some((sp, tab)) => Some(((sp.0 as int, sp.1 as int), caps_view(tab@))),
    }
}

/// Inserting a key found first at position `at` updates that entry in place.
proof fn lemma_caps_insert_at(caps: SpecCaps, k: int, v: (int, int), at: int)
    requires
        0 <= at < caps.len(),
        caps[at].0 == k,
        forall|j: int| 0 <= j < at ==> caps[j].0 != k,
    ensures
        caps_insert(caps, k, v) == caps.update(at, (k, v)),
    decreases caps.len(),
{
    if at == 0 {
        assert(caps_insert(caps, k, v) =~= caps.update(0, (k, v)));
    } else {
        lemma_caps_insert_at(caps.drop_first(), k, v, at - 1);
        assert(caps_insert(caps, k, v) =~= caps.update(at, (k, v)));
    }
}

/// Inserting a key that is absent appends the entry.
proof fn lemma_caps_insert_missing(caps: SpecCaps, k: int, v: (int, int))
    requires
        forall|j: int| 0 <= j < caps.len() ==> caps[j].0 != k,
    ensures
        caps_insert(caps, k, v) == caps.push((k, v)),
    decreases caps.len(),
{
    if caps.len() > 0 {
        lemma_caps_insert_missing(caps.drop_first(), k, v);
        assert(caps_insert(caps, k, v) =~= caps.push((k, v)));
    } else {
        assert(caps_insert(caps, k, v) =~= caps.push((k, v)));
    }
}

/// Executable mirror of `caps_get`.
fn caps_lookup(caps: &[(usize, (usize, usize))], k: usize) -> (r: Option<(usize, usize)>)
    ensures
        match r {
            Some(v) => caps_get(caps_view(caps@), k as int) == Some((v.0 as int, v.1 as int)),
            None => caps_get(caps_view(caps@), k as int) is None,
        },
    decreases caps@.len(),
{
    if caps.len() == 0 {
        None
    } else {
        let entry = *vstd::slice::slice_index_get(caps, 0);
        if entry.0 == k {
            Some(entry.1)
        } else {
            let rest = vstd::slice::slice_subrange(caps, 1, caps.len());
            proof {
                assert(caps_view(rest@) =~= caps_view(caps@).drop_first());
            }
            caps_lookup(rest, k)
        }
    }
}

/// Executable mirror of `caps_insert`, updating the table in place.
fn caps_put(caps: &mut Vec<(usize, (usize, usize))>, k: usize, v: (usize, usize))
    ensures
        caps_view(final(caps)@) == caps_insert(
            caps_view(old(caps)@),
            k as int,
            (v.0 as int, v.1 as int),
        ),
{
    let n = caps.len();
    let mut i: usize = 0;
    while i < n
        invariant
            n == caps@.len(),
            i <= n,
            caps@ == old(caps)@,
            forall|j: int| 0 <= j < i ==> caps@[j].0 != k,
        decreases n - i,
    {
        if vec_index(caps, i).0 == k {
            let ghost before = caps@;
            caps[i] = (k, v);
            proof {
                lemma_caps_insert_at(caps_view(before), k as int, (v.0 as int, v.1 as int), i as int);
                assert(caps_view(caps@) =~= caps_view(before).update(
                    i as int,
                    (k as int, (v.0 as int, v.1 as int)),
                ));
            }
            return ;
        }
        i += 1;
    }
    let ghost before = caps@;
    caps.push((k, v));
    proof {
        lemma_caps_insert_missing(caps_view(before), k as int, (v.0 as int, v.1 as int));
        assert(caps_view(caps@) =~= caps_view(before).push((k as int, (v.0 as int, v.1 as int))));
    }
}

/// Executable mirror of `caps_extend`: record every entry of `other` in
/// order.
fn caps_append(caps: &mut Vec<(usize, (usize, usize))>, other: &Vec<(usize, (usize, usize))>)
    ensures
        caps_view(final(caps)@) == caps_extend(caps_view(old(caps)@), caps_view(other@)),
{
    let n = other.len();
    let mut i: usize = 0;
    proof {
        assert(caps_view(other@).skip(0) =~= caps_view(other@));
    }
    while i < n
        invariant
            n == other@.len(),
            i <= n,
            caps_extend(caps_view(old(caps)@), caps_view(other@)) == caps_extend(
                caps_view(caps@),
                caps_view(other@).skip(i as int),
            ),
        decreases n - i,
    {
        let ghost cur = caps_view(caps@);
        let ghost remaining = caps_view(other@).skip(i as int);
        let entry = *vec_index(other, i);
        caps_put(caps, entry.0, entry.1);
        proof {
            assert(remaining[0] == caps_view(other@)[i as int]);
            assert(remaining.drop_first() =~= caps_view(other@).skip(i as int + 1));
        }
        i += 1;
    }
    proof {
        assert(caps_view(other@).skip(n as int) =~= Seq::<(int, (int, int))>::empty());
    }
}

/// A copy of a capture table.
fn caps_clone(caps: &Vec<(usize, (usize, usize))>) -> (r: Vec<(usize, (usize, usize))>)
    ensures
        r@ == caps@,
{
    let n = caps.len();
    let mut out: Vec<(usize, (usize, usize))> = Vec::new();
    let mut i: usize = 0;
    while i < n
        invariant
            n == caps@.len(),
            i <= n,
            out@ =~= caps@.take(i as int),
        decreases n - i,
    {
        out.push(*vec_index(caps, i));
        i += 1;
    }
    proof {
        assert(caps@.take(n as int) =~= caps@);
    }
    out
}

/// A copy of a character class.
fn clone_chars(values: &Vec<char>) -> (r: Vec<char>)
    ensures
        r@ == values@,
{
    let n = values.len();
    let mut out: Vec<char> = Vec::new();
    let mut i: usize = 0;
    while i < n
        invariant
            n == values@.len(),
            i <= n,
            out@ =~= values@.take(i as int),
        decreases n - i,
    {
        out.push(*vec_index(values, i));
        i += 1;
    }
    proof {
        assert(values@.take(n as int) =~= values@);
    }
    out
}

impl Pattern {
    /// A structural copy with the same view.
    fn pclone(&self) -> (r: Pattern)
        ensures
            r@ == self@,
        decreases *self,
    {
        broadcast use crate::ast::lemma_patterns_view, crate::ast::lemma_branches_view;

        match self {
            Pattern::Literal(c) => Pattern::Literal(*c),
            Pattern::Digit => Pattern::Digit,
            Pattern::Chars => Pattern::Chars,
            Pattern::PositiveCharGroup(values) => Pattern::PositiveCharGroup(clone_chars(values)),
            Pattern::NegativeCharGroup(values) => Pattern::NegativeCharGroup(clone_chars(values)),
            Pattern::Start => Pattern::Start,
            Pattern::End => Pattern::End,
            Pattern::OneOrMore(child) => Pattern::OneOrMore(Box::new((&**child).pclone())),
            Pattern::ZeroOrOne(child) => Pattern::ZeroOrOne(Box::new((&**child).pclone())),
            Pattern::Wildcard => Pattern::Wildcard,
            Pattern::Alternation { alternations, id } => {
                let n = alternations.len();
                let mut out: Vec<Vec<Pattern>> = Vec::new();
                let mut i: usize = 0;
                while i < n
                    invariant
                        n == alternations@.len(),
                        i <= n,
                        branches_view(out@) =~= branches_view(alternations@.take(i as int)),
                        *self matches Pattern::Alternation { alternations: alts, id: id2 } && alts
                            == *alternations,
                    decreases n - i,
                {
                    let branch = vec_index(alternations, i);
                    let m = branch.len();
                    let mut bout: Vec<Pattern> = Vec::new();
                    let mut j: usize = 0;
                    while j < m
                        invariant
                            m == branch@.len(),
                            j <= m,
                            branch == &alternations@[i as int],
                            i < alternations@.len() == n,
                            patterns_view(bout@) =~= patterns_view(branch@.take(j as int)),
                            *self matches Pattern::Alternation { alternations: alts, id: id2 }
                                && alts == *alternations,
                        decreases m - j,
                    {
                        let elem = vec_index(branch, j);
                        proof {
                            assert(decreases_to!(*self => *alternations));
                            assert(decreases_to!(*alternations => alternations@));
                            assert(decreases_to!(alternations@ => alternations@[i as int]));
                            assert(decreases_to!(alternations@[i as int] => alternations@[i as int]@));
                            assert(decreases_to!(alternations@[i as int]@ => alternations@[i as int]@[j as int]));
                        }
                        let ghost bout_before = bout@;
                        bout.push(elem.pclone());
                        proof {
                            crate::ast::lemma_patterns_view_push(bout_before, bout@.last());
                            assert(branch@.take(j as int + 1) =~= branch@.take(j as int).push(
                                branch@[j as int],
                            ));
                            crate::ast::lemma_patterns_view_push(
                                branch@.take(j as int),
                                branch@[j as int],
                            );
                            assert(patterns_view(bout@) =~= patterns_view(
                                branch@.take(j as int + 1),
                            ));
                        }
                        j += 1;
                    }
                    proof {
                        assert(branch@.take(m as int) =~= branch@);
                    }
                    let ghost out_before = out@;
                    out.push(bout);
                    proof {
                        crate::ast::lemma_branches_view_push(out_before, out@.last());
                        assert(alternations@.take(i as int + 1) =~= alternations@.take(
                            i as int,
                        ).push(alternations@[i as int]));
                        crate::ast::lemma_branches_view_push(
                            alternations@.take(i as int),
                            alternations@[i as int],
                        );
                        assert(branches_view(out@) =~= branches_view(
                            alternations@.take(i as int + 1),
                        ));
                    }
                    i += 1;
                }
                proof {
                    assert(alternations@.take(n as int) =~= alternations@);
                }
                Pattern::Alternation { alternations: out, id: *id }
            },
            Pattern::BackReference(gid) => Pattern::BackReference(*gid),
        }
    }
}

/// One node followed by a node list, as a fresh list: the expansion step of
/// the quantifier nodes.
fn concat_pattern(item: &Pattern, items: &[Pattern]) -> (r: Vec<Pattern>)
    ensures
        patterns_view(r@) == seq![pattern_view(*item)] + patterns_view(items@),
{
    broadcast use crate::ast::lemma_patterns_view;

    let n = items.len();
    let mut out: Vec<Pattern> = Vec::new();
    out.push(item.pclone());
    let mut i: usize = 0;
    while i < n
        invariant
            n == items@.len(),
            i <= n,
            patterns_view(out@) =~= seq![pattern_view(*item)] + patterns_view(
                items@.take(i as int),
            ),
        decreases n - i,
    {
        let ghost before = out@;
        out.push(vstd::slice::slice_index_get(items, i).pclone());
        proof {
            crate::ast::lemma_patterns_view_push(before, out@.last());
            assert(items@.take(i as int + 1) =~= items@.take(i as int).push(items@[i as int]));
            crate::ast::lemma_patterns_view_push(items@.take(i as int), items@[i as int]);
            assert(patterns_view(out@) =~= seq![pattern_view(*item)] + patterns_view(
                items@.take(i as int + 1),
            ));
        }
        i += 1;
    }
    proof {
        assert(items@.take(n as int) =~= items@);
    }
    out
}

/// Per-attempt matcher state: the offset the attempt began at, the scan
/// cursor, the line in view, and the captured spans. Derived contexts are
/// fresh values; a failed branch never leaks state into a sibling.
struct MatchContext<'a> {
    start_index: usize,
    current_index: usize,
    input_line: &'a [char],
    back_references: Vec<(usize, (usize, usize))>,
}

impl<'a> View for MatchContext<'a> {
    type V = SpecMatchContext;

    closed spec fn view(&self) -> SpecMatchContext {
        SpecMatchContext {
            start: self.start_index as int,
            cur: self.current_index as int,
            line: self.input_line@,
            caps: caps_view(self.back_references@),
        }
    }
}

impl<'a> MatchContext<'a> {
    /// A fresh attempt at `start_index`, with nothing consumed or captured.
    fn new(start_index: usize, input_line: &'a [char]) -> (r: Self)
        requires
            start_index <= input_line@.len(),
        ensures
            r@ == ctx_new(start_index as int, input_line@),
            ctx_wf(r@),
    {
        let r = MatchContext {
            start_index,
            current_index: start_index,
            input_line,
            back_references: Vec::new(),
        };
        proof {
            assert(caps_view(r.back_references@) =~= Seq::<(int, (int, int))>::empty());
        }
        r
    }

    /// The character under the cursor, if any remains.
    fn first_char(&self) -> (r: Option<char>)
        ensures
            r == ctx_first_char(self@),
    {
        if self.current_index < self.input_line.len() {
            Some(char_at(self.input_line, self.current_index))
        } else {
            None
        }
    }

    /// The same attempt with `count` more characters consumed.
    fn nth_char(&self, count: usize) -> (r: Self)
        requires
            self.current_index + count <= self.input_line@.len(),
        ensures
            r@ == ctx_advance(self@, count as int),
    {
        // The slice length bounds the new cursor, so the sum fits in usize.
        let line_len = self.input_line.len();
        proof {
            assert(self.current_index + count <= line_len);
        }
        MatchContext {
            start_index: self.start_index,
            current_index: self.current_index + count,
            input_line: self.input_line,
            back_references: caps_clone(&self.back_references),
        }
    }

    /// The same attempt with one more character consumed.
    fn next_char(&self) -> (r: Self)
        requires
            self.current_index + 1 <= self.input_line@.len(),
        ensures
            r@ == ctx_advance(self@, 1),
    {
        self.nth_char(1)
    }

    /// The same attempt with the span `pos` recorded for group `id`.
    fn with_back_reference(self, id: usize, pos: (usize, usize)) -> (r: Self)
        ensures
            r@ == (SpecMatchContext {
                caps: caps_insert(self@.caps, id as int, (pos.0 as int, pos.1 as int)),
                ..self@
            }),
    {
        let mut r = self;
        caps_put(&mut r.back_references, id, pos);
        r
    }

    /// A copy of this attempt's state.
    fn ctx_clone(&self) -> (r: Self)
        ensures
            r@ == self@,
    {
        MatchContext {
            start_index: self.start_index,
            current_index: self.current_index,
            input_line: self.input_line,
            back_references: caps_clone(&self.back_references),
        }
    }
}

/// Whether `line[at .. at + len]` and `line[from .. from + len]` hold the
/// same characters.
fn spans_equal(line: &[char], at: usize, from: usize, len: usize) -> (r: bool)
    requires
        at + len <= line@.len(),
        from + len <= line@.len(),
    ensures
        r == (line@.subrange(at as int, at + len) == line@.subrange(from as int, from + len)),
{
    let n = line.len();
    let mut k: usize = 0;
    while k < len
        invariant
            n == line@.len(),
            at + len <= line@.len(),
            from + len <= line@.len(),
            k <= len,
            forall|j: int| 0 <= j < k ==> line@[at + j] == #[trigger] line@[from + j],
        decreases len - k,
    {
        if char_at(line, at + k) != char_at(line, from + k) {
            proof {
                assert(line@.subrange(at as int, at + len)[k as int] != line@.subrange(
                    from as int,
                    from + len,
                )[k as int]);
            }
            return false;
        }
        k += 1;
    }
    proof {
        assert forall|j: int| 0 <= j < len implies #[trigger] line@.subrange(at as int, at + len)[j]
            == line@.subrange(from as int, from + len)[j] by {
            assert(line@[at + j] == line@[from + j]);
        }
        assert(line@.subrange(at as int, at + len) =~= line@.subrange(from as int, from + len));
    }
    true
}

/// Executable mirror of `smatch_here`: consume `patterns` against the line
/// in `context`, returning the span and capture table `smatch_here` defines.
fn match_here<'a>(patterns: &[Pattern], context: MatchContext<'a>, fuel: u64) -> (r: Option<
    ((usize, usize), Vec<(usize, (usize, usize))>),
>)
    requires
        ctx_wf(context@),
    ensures
        match_result_view(r) == smatch_here(fuel as nat, patterns_view(patterns@), context@),
    decreases fuel,
{
    broadcast use crate::ast::lemma_patterns_view, crate::ast::lemma_branches_view;

    if fuel == 0 {
        return None;
    }
    if patterns.len() == 0 {
        proof {
            assert(patterns_view(patterns@).len() == 0);
        }
        return Some(((context.start_index, context.current_index), context.back_references));
    }
    let node = vstd::slice::slice_index_get(patterns, 0);
    let rem = vstd::slice::slice_subrange(patterns, 1, patterns.len());
    proof {
        assert(rem@ =~= patterns@.drop_first());
        assert(patterns_view(patterns@.drop_first()) =~= patterns_view(patterns@).drop_first());
        assert(patterns_view(patterns@)[0] == pattern_view(patterns@[0]));
    }
    let fc = context.first_char();
    match node {
        Pattern::Literal(c) => {
            match fc {
                Some(ch) => {
                    if ch == *c {
                        match_here(rem, context.next_char(), fuel - 1)
                    } else {
                        None
                    }
                },
                None => None,
            }
        },
        Pattern::Digit => {
            match fc {
                Some(ch) => {
                    if '0' <= ch && ch <= '9' {
                        match_here(rem, context.next_char(), fuel - 1)
                    } else {
                        None
                    }
                },
                None => None,
            }
        },
        Pattern::Chars => {
            match fc {
                Some(ch) => {
                    if char_is_alphanumeric(ch) {
                        match_here(rem, context.next_char(), fuel - 1)
                    } else {
                        None
                    }
                },
                None => None,
            }
        },
        Pattern::PositiveCharGroup(values) => {
            match fc {
                Some(ch) => {
                    if crate::parser::slice_contains_char(values.as_slice(), ch) {
                        match_here(rem, context.next_char(), fuel - 1)
                    } else {
                        None
                    }
                },
                None => None,
            }
        },
        Pattern::NegativeCharGroup(values) => {
            match fc {
                Some(ch) => {
                    if !crate::parser::slice_contains_char(values.as_slice(), ch) {
                        match_here(rem, context.next_char(), fuel - 1)
                    } else {
                        None
                    }
                },
                None => None,
            }
        },
        Pattern::Wildcard => {
            match fc {
                Some(_) => match_here(rem, context.next_char(), fuel - 1),
                None => None,
            }
        },
        Pattern::BackReference(gid) => {
            match caps_lookup(context.back_references.as_slice(), *gid) {
                None => None,
                Some((s, e)) => {
                    let line_len = context.input_line.len();
                    if s <= e && e <= line_len && e - s <= line_len - context.current_index {
                        if spans_equal(context.input_line, context.current_index, s, e - s) {
                            proof {
                                assert(context.input_line@.subrange(
                                    context.current_index as int,
                                    context.current_index + (e - s),
                                ) == context.input_line@.subrange(s as int, s + (e - s)));
                                assert(context.input_line@.subrange(s as int, s + (e - s))
                                    =~= context.input_line@.subrange(s as int, e as int));
                            }
                            match_here(rem, context.nth_char(e - s), fuel - 1)
                        } else {
                            proof {
                                assert(context.input_line@.subrange(s as int, s + (e - s))
                                    =~= context.input_line@.subrange(s as int, e as int));
                            }
                            None
                        }
                    } else {
                        None
                    }
                },
            }
        },
        Pattern::OneOrMore(child) => {
            let expanded = concat_pattern(child, patterns);
            let greedy = match_here(expanded.as_slice(), context.ctx_clone(), fuel - 1);
            match greedy {
                Some(r) => Some(r),
                None => {
                    let lazy = concat_pattern(child, rem);
                    match_here(lazy.as_slice(), context, fuel - 1)
                },
            }
        },
        Pattern::ZeroOrOne(child) => {
            let one = concat_pattern(child, rem);
            let taken = match_here(one.as_slice(), context.ctx_clone(), fuel - 1);
            match taken {
                Some(r) => Some(r),
                None => match_here(rem, context, fuel - 1),
            }
        },
        Pattern::Alternation { alternations, id } => {
            let line_len = context.input_line.len();
            match_alt(alternations, 0, line_len, *id, rem, &context, fuel - 1)
        },
        Pattern::End => {
            match fc {
                None => Some(
                    ((context.start_index, context.current_index), context.back_references),
                ),
                Some(_) => None,
            }
        },
        Pattern::Start => None,
    }
}

/// Executable mirror of `smatch_alt`: branch `bi` of the group against every
/// boundary from `end` down to the cursor, then the next branch afresh.
fn match_alt<'a>(
    branches: &Vec<Vec<Pattern>>,
    bi: usize,
    end: usize,
    id: usize,
    rem: &[Pattern],
    context: &MatchContext<'a>,
    fuel: u64,
) -> (r: Option<((usize, usize), Vec<(usize, (usize, usize))>)>)
    requires
        ctx_wf(context@),
        end <= context@.line.len(),
    ensures
        match_result_view(r) == smatch_alt(
            fuel as nat,
            branches_view(branches@),
            bi as int,
            end as int,
            id as int,
            patterns_view(rem@),
            context@,
        ),
    decreases fuel, 0int,
{
    broadcast use crate::ast::lemma_patterns_view, crate::ast::lemma_branches_view;

    if fuel == 0 {
        return None;
    }
    if bi >= branches.len() {
        return None;
    }
    if end < context.current_index {
        let line_len = context.input_line.len();
        return match_alt(branches, bi + 1, line_len, id, rem, context, fuel - 1);
    }
    let branch_line = vstd::slice::slice_subrange(context.input_line, 0, end);
    let branch_context = MatchContext::new(context.current_index, branch_line);
    proof {
        assert(branch_line@ =~= context.input_line@.take(end as int));
        assert(branch_context@ == ctx_new(context@.cur, context@.line.take(end as int)));
    }
    let branch = vec_index(branches, bi);
    match match_here(branch.as_slice(), branch_context, fuel - 1) {
        None => match_alt_prev(branches, bi, end, id, rem, context, fuel - 1),
        Some((bsp, btab)) => {
            proof {
                lemma_smatch_here_wf(
                    (fuel - 1) as nat,
                    patterns_view(branch@),
                    ctx_new(context@.cur, context@.line.take(end as int)),
                );
            }
            let adv = bsp.1 - bsp.0;
            let mut next_context = context.nth_char(adv).with_back_reference(id, bsp);
            caps_append(&mut next_context.back_references, &btab);
            proof {
                assert(next_context@ == (SpecMatchContext {
                    start: context@.start,
                    cur: context@.cur + (bsp.1 as int - bsp.0 as int),
                    line: context@.line,
                    caps: caps_extend(
                        caps_insert(context@.caps, id as int, (bsp.0 as int, bsp.1 as int)),
                        caps_view(btab@),
                    ),
                }));
            }
            match match_here(rem, next_context, fuel - 1) {
                Some((osp, otab)) => Some(((context.start_index, osp.1), otab)),
                None => match_alt_prev(branches, bi, end, id, rem, context, fuel - 1),
            }
        },
    }
}

/// The alternation search one boundary earlier: `smatch_alt` at `end - 1`,
/// which steps to the next branch once the boundary falls below the cursor.
fn match_alt_prev<'a>(
    branches: &Vec<Vec<Pattern>>,
    bi: usize,
    end: usize,
    id: usize,
    rem: &[Pattern],
    context: &MatchContext<'a>,
    fuel: u64,
) -> (r: Option<((usize, usize), Vec<(usize, (usize, usize))>)>)
    requires
        ctx_wf(context@),
        end <= context@.line.len(),
    ensures
        match_result_view(r) == smatch_alt(
            fuel as nat,
            branches_view(branches@),
            bi as int,
            end as int - 1,
            id as int,
            patterns_view(rem@),
            context@,
        ),
    decreases fuel, 1int,
{
    broadcast use crate::ast::lemma_branches_view;

    if fuel == 0 {
        return None;
    }
    if end == 0 {
        if bi >= branches.len() {
            return None;
        }
        let line_len = context.input_line.len();
        match_alt(branches, bi + 1, line_len, id, rem, context, fuel - 1)
    } else {
        match_alt(branches, bi, end - 1, id, rem, context, fuel)
    }
}

/// Within one leftmost search, every offset before the winning one was
/// attempted and failed.
proof fn lemma_search_leftmost(nodes: Seq<SpecPattern>, line: Seq<char>, idx: int, s: int, e: int)
    requires
        0 <= idx <= line.len(),
        spec_search_from(nodes, line, idx) == Some((s, e)),
    ensures
        idx <= s,
        forall|s2: int| idx <= s2 < s ==> smatch_at(nodes, line, s2) is None,
    decreases line.len() - idx,
{
    if idx < line.len() {
        match smatch_at(nodes, line, idx) {
            Some(_) => {
                lemma_smatch_here_wf(MATCH_FUEL as nat, nodes, ctx_new(idx, line));
            },
            None => {
                lemma_search_leftmost(nodes, line, idx + 1, s, e);
            },
        }
    }
}

/// The match is leftmost: for an unanchored pattern, if matching a line
/// yields the span `(s, e)`, then no offset smaller than `s` admits a match
/// of the pattern on that line.
pub proof fn lemma_leftmost_match(nodes: Seq<SpecPattern>, line: Seq<char>, s: int, e: int)
    requires
        !(nodes.len() > 0 && nodes[0] is Start),
        spec_matches(nodes, line) == Some((s, e)),
    ensures
        forall|s2: int| 0 <= s2 < s ==> smatch_at(nodes, line, s2) is None,
{
    lemma_search_leftmost(nodes, line, 0, s, e);
}

/// The characters of a string, as a vector.
pub(crate) fn str_to_chars(s: &str) -> (r: Vec<char>)
    ensures
        r@ == s@,
{
    let n = s.unicode_len();
    let mut out: Vec<char> = Vec::new();
    let mut i: usize = 0;
    while i < n
        invariant
            n == s@.len(),
            i <= n,
            out@ =~= s@.take(i as int),
        decreases n - i,
    {
        out.push(s.get_char(i));
        i += 1;
    }
    proof {
        assert(s@.take(n as int) =~= s@);
    }
    out
}

impl Regexp {
    /// Search `input_line` for this pattern exactly as `spec_matches`
    /// describes: only offset 0 is attempted when the node sequence opens
    /// with the `Start` sentinel, otherwise the leftmost offset whose
    /// attempt succeeds wins.
    #[verifier::loop_isolation(false)]
    pub fn matches(&self, input_line: &str) -> (r: Option<(usize, usize)>)
        ensures
            match r {
                Some(sp) => spec_matches(self@, input_line@) == Some((sp.0 as int, sp.1 as int)),
                None => spec_matches(self@, input_line@) is None,
            },
            r is Some && !(self@.len() > 0 && self@[0] is Start) ==> forall|s2: int|
                0 <= s2 < r.unwrap().0 ==> smatch_at(self@, input_line@, s2) is None,
    {
        broadcast use crate::ast::lemma_patterns_view;

        let line = str_to_chars(input_line);
        let line_len = line.len();
        let anchored = self.patterns.len() > 0 && matches!(
            vec_index(&self.patterns, 0),
            Pattern::Start
        );
        if anchored {
            let rest = vstd::slice::slice_subrange(
                self.patterns.as_slice(),
                1,
                self.patterns.len(),
            );
            proof {
                assert(rest@ =~= self.patterns@.drop_first());
                assert(patterns_view(self.patterns@.drop_first()) =~= patterns_view(
                    self.patterns@,
                ).drop_first());
            }
            let ctx = MatchContext::new(0, line.as_slice());
            match match_here(rest, ctx, MATCH_FUEL) {
                Some((sp, _)) => Some(sp),
                None => None,
            }
        } else {
            let mut start_idx: usize = 0;
            while start_idx < line_len
                invariant
                    start_idx <= line_len,
                    spec_search_from(self@, line@, 0) == spec_search_from(
                        self@,
                        line@,
                        start_idx as int,
                    ),
                decreases line_len - start_idx,
            {
                let ctx = MatchContext::new(start_idx, line.as_slice());
                match match_here(self.patterns.as_slice(), ctx, MATCH_FUEL) {
                    Some((sp, _)) => {
                        proof {
                            lemma_leftmost_match(self@, input_line@, sp.0 as int, sp.1 as int);
                        }
                        return Some(sp);
                    },
                    None => {
                        start_idx += 1;
                    },
                }
            }
            None
        }
    }
}

} // verus!
