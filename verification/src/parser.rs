//! The pattern parser, in two layers.
//!
//! The spec layer (`spec_parse` and its helpers) is a recursive definition of
//! exactly which node sequence a pattern string denotes, or `None` when the
//! pattern is invalid. The exec layer mirrors it and is proved to return
//! precisely what the spec layer says, with the capture-group counter
//! threaded through as an explicit mutable value.

use vstd::prelude::*;
use vstd::slice::slice_index_get;
use vstd::slice::slice_subrange;
use vstd::slice::slice_to_vec;

use crate::ast::GrepError;
use crate::ast::Pattern;
use crate::ast::Regexp;
use crate::ast::SpecPattern;
use crate::ast::branches_view;
use crate::ast::pattern_view;
use crate::ast::patterns_view;

verus! {

/// The first position `at >= from` with `s[at] == c`.
pub open spec fn find_from(s: Seq<char>, from: int, c: char) -> Option<int>
    decreases s.len() - from,
{
    if from >= s.len() {
        None
    } else if s[from] == c {
        Some(from)
    } else {
        find_from(s, from + 1, c)
    }
}

/// Scan of a group body, one character per step, starting just after the
/// opening parenthesis with `depth == 1`. Returns the boundaries of each
/// top-level branch (split at `|` where the nesting depth is exactly 1)
/// together with the index of the closing parenthesis, or `None` when the
/// group never closes.
pub open spec fn scan_group(
    s: Seq<char>,
    at: int,
    depth: int,
    seg_start: int,
    bounds: Seq<(int, int)>,
) -> Option<(Seq<(int, int)>, int)>
    decreases s.len() - at,
{
    if at >= s.len() {
        None
    } else if s[at] == '(' {
        scan_group(s, at + 1, depth + 1, seg_start, bounds)
    } else if s[at] == ')' {
        if depth == 1 {
            Some((bounds.push((seg_start, at)), at))
        } else {
            scan_group(s, at + 1, depth - 1, seg_start, bounds)
        }
    } else if s[at] == '|' && depth == 1 {
        scan_group(s, at + 1, depth, at + 1, bounds.push((seg_start, at)))
    } else {
        scan_group(s, at + 1, depth, seg_start, bounds)
    }
}

/// The slice `s[lo..hi]`, with both ends clamped so the result is always
/// strictly shorter than a nonempty `s`. The parser only applies it to
/// branch boundaries found by `scan_group`, which always lie strictly
/// inside `s`, so there the clamp is the identity; it exists to make
/// termination of the parsing functions evident.
pub open spec fn branch_slice(s: Seq<char>, lo: int, hi: int) -> Seq<char> {
    let l = if 0 <= lo && lo <= s.len() {
        lo
    } else {
        0
    };
    let h = if l <= hi && hi <= s.len() - 1 {
        hi
    } else {
        l
    };
    s.subrange(l, h)
}

/// Parse each branch of a group in order, threading the capture-group
/// counter left to right.
pub open spec fn spec_parse_branches(s: Seq<char>, bounds: Seq<(int, int)>, counter: int) -> Option<
    (Seq<Seq<SpecPattern>>, int),
>
    decreases s.len() + 1, 0int, bounds.len(),
{
    if s.len() == 0 {
        None
    } else if bounds.len() == 0 {
        Some((Seq::empty(), counter))
    } else {
        let branch = branch_slice(s, bounds[0].0, bounds[0].1);
        match spec_parse_regexp(branch, counter) {
            None => None,
            Some((pats, c2)) => match spec_parse_branches(s, bounds.drop_first(), c2) {
                None => None,
                Some((rest, c3)) => Some((seq![pats] + rest, c3)),
            },
        }
    }
}

/// One primitive token at the head of `s`: the node it denotes, the number
/// of characters it occupies, and the capture-group counter after it.
pub open spec fn spec_parse_token(s: Seq<char>, counter: int) -> Option<(int, SpecPattern, int)>
    decreases s.len() + 1, 1int, 0int,
{
    if s.len() == 0 {
        None
    } else if s.len() >= 2 && s[0] == '\\' && s[1] == 'd' {
        Some((2, SpecPattern::Digit, counter))
    } else if s.len() >= 2 && s[0] == '\\' && s[1] == 'w' {
        Some((2, SpecPattern::Chars, counter))
    } else if s.len() >= 2 && s[0] == '\\' && '1' <= s[1] && s[1] <= '9' {
        Some((2, SpecPattern::BackReference(s[1] as int - '0' as int), counter))
    } else if s[0] == '.' {
        Some((1, SpecPattern::Wildcard, counter))
    } else if s[0] == '[' {
        match find_from(s, 1, ']') {
            None => None,
            Some(rb) => {
                let body = s.subrange(1, rb);
                if body.contains('[') {
                    None
                } else if body.len() > 0 && body[0] == '^' {
                    Some((rb + 1, SpecPattern::NegativeCharGroup(body.drop_first()), counter))
                } else {
                    Some((rb + 1, SpecPattern::PositiveCharGroup(body), counter))
                }
            },
        }
    } else if s[0] == '(' {
        match scan_group(s, 1, 1, 1, Seq::empty()) {
            None => None,
            Some((bounds, close)) => match spec_parse_branches(s, bounds, counter + 1) {
                None => None,
                Some((branches, c2)) => Some(
                    (
                        close + 1,
                        SpecPattern::Alternation { alternations: branches, id: counter },
                        c2,
                    ),
                ),
            },
        }
    } else {
        Some((1, SpecPattern::Literal(s[0]), counter))
    }
}

/// One iteration of the parsing loop: wrap the previous node under a leading
/// `+` and then a leading `?` (each at most once per iteration), stop on an
/// empty remainder, otherwise take one token and continue.
///
/// A token always occupies between 1 and `s2.len()` characters
/// (`lemma_counter_token`), so the clamp on `adv` is the identity; like
/// `branch_slice` it only makes termination evident.
pub open spec fn spec_parse_loop(s: Seq<char>, pats: Seq<SpecPattern>, counter: int) -> Option<
    (Seq<SpecPattern>, int),
>
    decreases s.len() + 1, 2int, 0int,
{
    let plus: Option<(Seq<char>, Seq<SpecPattern>)> = if s.len() > 0 && s[0] == '+' {
        if pats.len() == 0 {
            None
        } else {
            Some((s.drop_first(), pats.drop_last().push(SpecPattern::OneOrMore(Box::new(pats.last())))))
        }
    } else {
        Some((s, pats))
    };
    match plus {
        None => None,
        Some((s1, pats1)) => {
            let question: Option<(Seq<char>, Seq<SpecPattern>)> = if s1.len() > 0 && s1[0] == '?' {
                if pats1.len() == 0 {
                    None
                } else {
                    Some(
                        (
                            s1.drop_first(),
                            pats1.drop_last().push(SpecPattern::ZeroOrOne(Box::new(pats1.last()))),
                        ),
                    )
                }
            } else {
                Some((s1, pats1))
            };
            match question {
                None => None,
                Some((s2, pats2)) => {
                    if s2.len() == 0 {
                        Some((pats2, counter))
                    } else {
                        match spec_parse_token(s2, counter) {
                            None => None,
                            Some((consumed, node, c2)) => {
                                let adv = if 1 <= consumed && consumed <= s2.len() {
                                    consumed
                                } else {
                                    1
                                };
                                spec_parse_loop(s2.skip(adv), pats2.push(node), c2)
                            },
                        }
                    }
                },
            }
        },
    }
}

/// The node sequence a whole pattern (or group branch) denotes: strip a
/// leading `^` and a trailing `$`, parse the body, reject an empty result,
/// and re-attach the anchors as sentinel nodes.
pub open spec fn spec_parse_regexp(s: Seq<char>, counter: int) -> Option<(Seq<SpecPattern>, int)>
    decreases s.len() + 1, 3int, 0int,
{
    let s1 = if s.len() > 0 && s[0] == '^' {
        s.drop_first()
    } else {
        s
    };
    let anchored_start = s.len() > 0 && s[0] == '^';
    let s2 = if s1.len() > 0 && s1.last() == '$' {
        s1.drop_last()
    } else {
        s1
    };
    let anchored_end = s1.len() > 0 && s1.last() == '$';
    match spec_parse_loop(s2, Seq::empty(), counter) {
        None => None,
        Some((pats, c2)) => {
            if pats.len() == 0 {
                None
            } else {
                let with_start = if anchored_start {
                    seq![SpecPattern::Start] + pats
                } else {
                    pats
                };
                let with_end = if anchored_end {
                    with_start.push(SpecPattern::End)
                } else {
                    with_start
                };
                Some((with_end, c2))
            }
        },
    }
}

/// `find_from` returns the first occurrence at or after `from`, if any.
pub proof fn lemma_find_from(s: Seq<char>, from: int, c: char)
    ensures
        match find_from(s, from, c) {
            Some(at) => from <= at < s.len() && s[at] == c && (forall|j: int|
                from <= j < at ==> s[j] != c),
            None => forall|j: int| from <= j < s.len() ==> s[j] != c,
        },
    decreases s.len() - from,
{
    if from < s.len() && s[from] != c {
        lemma_find_from(s, from + 1, c);
    }
}

/// Total width of a list of branch boundaries.
pub open spec fn seg_sum(bounds: Seq<(int, int)>) -> int
    decreases bounds.len(),
{
    if bounds.len() == 0 {
        0
    } else {
        (bounds[0].1 - bounds[0].0) + seg_sum(bounds.drop_first())
    }
}

proof fn lemma_seg_sum_push(bounds: Seq<(int, int)>, p: (int, int))
    ensures
        seg_sum(bounds.push(p)) == seg_sum(bounds) + (p.1 - p.0),
    decreases bounds.len(),
{
    if bounds.len() == 0 {
        assert(bounds.push(p).drop_first() =~= Seq::empty());
        assert(seg_sum(Seq::<(int, int)>::empty()) == 0);
        assert(bounds.push(p)[0] == p);
    } else {
        assert(bounds.push(p).drop_first() =~= bounds.drop_first().push(p));
        assert(bounds.push(p)[0] == bounds[0]);
        lemma_seg_sum_push(bounds.drop_first(), p);
    }
}

/// A successful group scan closes at a `)` inside the string, keeps the
/// boundaries already accumulated, and appends consecutive segments covering
/// `seg_start..close`; in particular the widths of the appended segments sum
/// to `close - seg_start - (number of appended segments - 1)`.
proof fn lemma_scan_group(s: Seq<char>, at: int, depth: int, seg_start: int, bounds: Seq<(int, int)>)
    requires
        0 <= seg_start <= at,
        scan_group(s, at, depth, seg_start, bounds) is Some,
    ensures
        ({
            let (bs, close) = scan_group(s, at, depth, seg_start, bounds).unwrap();
            &&& at <= close < s.len()
            &&& bs.len() > bounds.len()
            &&& (forall|i: int| 0 <= i < bounds.len() ==> bs[i] == bounds[i])
            &&& (forall|i: int|
                bounds.len() <= i < bs.len() ==> seg_start <= #[trigger] bs[i].0 <= bs[i].1 <= close)
            &&& seg_sum(bs) == seg_sum(bounds) + (close - seg_start) - (bs.len() - bounds.len() - 1)
        }),
    decreases s.len() - at,
{
    let (bs, close) = scan_group(s, at, depth, seg_start, bounds).unwrap();
    if s[at] == '(' {
        lemma_scan_group(s, at + 1, depth + 1, seg_start, bounds);
    } else if s[at] == ')' {
        if depth == 1 {
            lemma_seg_sum_push(bounds, (seg_start, at));
        } else {
            lemma_scan_group(s, at + 1, depth - 1, seg_start, bounds);
        }
    } else if s[at] == '|' && depth == 1 {
        lemma_seg_sum_push(bounds, (seg_start, at));
        lemma_scan_group(s, at + 1, depth, at + 1, bounds.push((seg_start, at)));
    } else {
        lemma_scan_group(s, at + 1, depth, seg_start, bounds);
    }
}

/// On success the capture-group counter never moves backwards, and a token
/// that occupies `consumed` characters advances it by less than `consumed`.
proof fn lemma_counter_token(s: Seq<char>, counter: int)
    requires
        spec_parse_token(s, counter) is Some,
    ensures
        ({
            let (consumed, node, c2) = spec_parse_token(s, counter).unwrap();
            1 <= consumed <= s.len() && counter <= c2 <= counter + consumed - 1
        }),
    decreases s.len() + 1, 1int, 0int,
{
    let (consumed, node, c2) = spec_parse_token(s, counter).unwrap();
    if s.len() >= 2 && s[0] == '\\' && (s[1] == 'd' || s[1] == 'w' || ('1' <= s[1] && s[1]
        <= '9')) {
    } else if s[0] == '.' {
    } else if s[0] == '[' {
        lemma_find_from(s, 1, ']');
    } else if s[0] == '(' {
        let (bounds, close) = scan_group(s, 1, 1, 1, Seq::empty()).unwrap();
        lemma_scan_group(s, 1, 1, 1, Seq::empty());
        lemma_counter_branches(s, bounds, counter + 1);
        assert(seg_sum(Seq::<(int, int)>::empty()) == 0);
    }
}

/// Parsing the branches of a group advances the counter by at most the total
/// width of the branches.
proof fn lemma_counter_branches(s: Seq<char>, bounds: Seq<(int, int)>, counter: int)
    requires
        spec_parse_branches(s, bounds, counter) is Some,
        forall|i: int| 0 <= i < bounds.len() ==> 0 <= #[trigger] bounds[i].0 <= bounds[i].1 <= s.len() - 1,
    ensures
        ({
            let (branches, c2) = spec_parse_branches(s, bounds, counter).unwrap();
            counter <= c2 <= counter + seg_sum(bounds) && branches.len() == bounds.len()
        }),
    decreases s.len() + 1, 0int, bounds.len(),
{
    if s.len() == 0 || bounds.len() == 0 {
    } else {
        let branch = branch_slice(s, bounds[0].0, bounds[0].1);
        assert(branch.len() == bounds[0].1 - bounds[0].0);
        let (pats, c2) = spec_parse_regexp(branch, counter).unwrap();
        lemma_counter_regexp(branch, counter);
        lemma_counter_branches(s, bounds.drop_first(), c2);
    }
}

/// One pass of the parsing loop advances the counter by at most the number of
/// characters it consumes.
proof fn lemma_counter_loop(s: Seq<char>, pats: Seq<SpecPattern>, counter: int)
    requires
        spec_parse_loop(s, pats, counter) is Some,
    ensures
        ({
            let (out, c2) = spec_parse_loop(s, pats, counter).unwrap();
            counter <= c2 <= counter + s.len()
        }),
    decreases s.len() + 1, 2int, 0int,
{
    let s1 = if s.len() > 0 && s[0] == '+' {
        s.drop_first()
    } else {
        s
    };
    let pats1 = if s.len() > 0 && s[0] == '+' {
        pats.drop_last().push(SpecPattern::OneOrMore(Box::new(pats.last())))
    } else {
        pats
    };
    let s2 = if s1.len() > 0 && s1[0] == '?' {
        s1.drop_first()
    } else {
        s1
    };
    let pats2 = if s1.len() > 0 && s1[0] == '?' {
        pats1.drop_last().push(SpecPattern::ZeroOrOne(Box::new(pats1.last())))
    } else {
        pats1
    };
    if s2.len() > 0 {
        let (consumed, node, c2) = spec_parse_token(s2, counter).unwrap();
        lemma_counter_token(s2, counter);
        lemma_counter_loop(s2.skip(consumed), pats2.push(node), c2);
    }
}

/// Parsing a whole pattern advances the counter by at most its length.
proof fn lemma_counter_regexp(s: Seq<char>, counter: int)
    requires
        spec_parse_regexp(s, counter) is Some,
    ensures
        ({
            let (pats, c2) = spec_parse_regexp(s, counter).unwrap();
            counter <= c2 <= counter + s.len()
        }),
    decreases s.len() + 1, 3int, 0int,
{
    let s1 = if s.len() > 0 && s[0] == '^' {
        s.drop_first()
    } else {
        s
    };
    let s2 = if s1.len() > 0 && s1.last() == '$' {
        s1.drop_last()
    } else {
        s1
    };
    lemma_counter_loop(s2, Seq::empty(), counter);
}

/// What a pattern string means: its node sequence, with capture-group ids
/// numbered from 1 in the order the opening parentheses appear, or `None`
/// when the pattern is invalid.
pub open spec fn spec_parse(pattern: Seq<char>) -> Option<Seq<SpecPattern>> {
    match spec_parse_regexp(pattern, 1) {
        None => None,
        Some((pats, _)) => Some(pats),
    }
}

/// The integer image of a list of machine-word boundaries.
pub open spec fn bounds_view(bounds: Seq<(usize, usize)>) -> Seq<(int, int)> {
    Seq::new(bounds.len(), |i: int| (bounds[i].0 as int, bounds[i].1 as int))
}

/// Relies on std slice indexing: returns exactly the element at `i`.
///
/// vstd's generic slice read equates the result with the sequence element but
/// loses the fact that a `char` so read is a valid Unicode scalar value,
/// which every fact about a constructed node needs; returning the character
/// by value restores it.
#[verifier::external_body]
pub(crate) fn char_at(s: &[char], i: usize) -> (c: char)
    requires
        i < s@.len(),
    ensures
        c == s@[i as int],
{
    s[i]
}

fn find_char_from(input: &[char], from: usize, c: char) -> (r: Option<usize>)
    ensures
        match r {
            Some(at) => find_from(input@, from as int, c) == Some(at as int) && at < input@.len(),
            None => find_from(input@, from as int, c) is None,
        },
    decreases input@.len() - from,
{
    if from >= input.len() {
        None
    } else if char_at(input, from) == c {
        Some(from)
    } else {
        find_char_from(input, from + 1, c)
    }
}

pub(crate) fn slice_contains_char(s: &[char], c: char) -> (r: bool)
    ensures
        r == s@.contains(c),
{
    let n = s.len();
    let mut i: usize = 0;
    while i < n
        invariant
            i <= n == s@.len(),
            forall|j: int| 0 <= j < i ==> s@[j] != c,
        decreases n - i,
    {
        if char_at(s, i) == c {
            assert(s@.contains(c)) by {
                assert(s@[i as int] == c);
            }
            return true;
        }
        i += 1;
    }
    false
}

/// Executable mirror of `scan_group`, one recursive call per character.
fn scan_group_at(input: &[char], at: usize, depth: usize, seg_start: usize, bounds: Vec<(usize, usize)>) -> (r:
    Option<(Vec<(usize, usize)>, usize)>)
    requires
        1 <= depth <= at,
    ensures
        match r {
            Some((bs, close)) => scan_group(
                input@,
                at as int,
                depth as int,
                seg_start as int,
                bounds_view(bounds@),
            ) == Some((bounds_view(bs@), close as int)) && close < input@.len(),
            None => scan_group(
                input@,
                at as int,
                depth as int,
                seg_start as int,
                bounds_view(bounds@),
            ) is None,
        },
    decreases input@.len() - at,
{
    if at >= input.len() {
        None
    } else {
        let c = char_at(input, at);
        if c == '(' {
            scan_group_at(input, at + 1, depth + 1, seg_start, bounds)
        } else if c == ')' {
            if depth == 1 {
                let mut bs = bounds;
                bs.push((seg_start, at));
                proof {
                    assert(bounds_view(bs@) =~= bounds_view(bounds@).push(
                        (seg_start as int, at as int),
                    ));
                }
                Some((bs, at))
            } else {
                scan_group_at(input, at + 1, depth - 1, seg_start, bounds)
            }
        } else if c == '|' && depth == 1 {
            let mut bs = bounds;
            bs.push((seg_start, at));
            proof {
                assert(bounds_view(bs@) =~= bounds_view(bounds@).push(
                    (seg_start as int, at as int),
                ));
            }
            scan_group_at(input, at + 1, depth, at + 1, bs)
        } else {
            scan_group_at(input, at + 1, depth, seg_start, bounds)
        }
    }
}

proof fn lemma_seg_sum_nonneg(bounds: Seq<(int, int)>)
    requires
        forall|i: int| 0 <= i < bounds.len() ==> #[trigger] bounds[i].0 <= bounds[i].1,
    ensures
        seg_sum(bounds) >= 0,
        bounds.len() > 0 ==> seg_sum(bounds) >= bounds[0].1 - bounds[0].0,
    decreases bounds.len(),
{
    if bounds.len() > 0 {
        lemma_seg_sum_nonneg(bounds.drop_first());
    }
}

/// Parse every branch of a group in order, threading the group counter.
fn parse_branches(input: &[char], bounds: &[(usize, usize)], counter: &mut usize) -> (r: Result<
    Vec<Vec<Pattern>>,
    GrepError,
>)
    requires
        input@.len() > 0,
        forall|i: int|
            0 <= i < bounds@.len() ==> #[trigger] bounds@[i].0 <= bounds@[i].1 && bounds@[i].1
                < input@.len(),
        *old(counter) + seg_sum(bounds_view(bounds@)) <= usize::MAX,
    ensures
        match spec_parse_branches(input@, bounds_view(bounds@), *old(counter) as int) {
            Some((brs, c2)) => r matches Ok(v) && branches_view(v@) == brs && *final(counter)
                as int == c2,
            None => r is Err,
        },
    decreases input@.len() + 1, 0int, bounds@.len(),
{
    broadcast use crate::ast::lemma_patterns_view, crate::ast::lemma_branches_view;

    if bounds.len() == 0 {
        proof {
            assert(bounds_view(bounds@) =~= Seq::<(int, int)>::empty());
            assert(branches_view(Seq::<Vec<Pattern>>::empty()) =~= Seq::<Seq<SpecPattern>>::empty());
        }
        Ok(Vec::new())
    } else {
        proof {
            lemma_seg_sum_nonneg(bounds_view(bounds@));
            lemma_seg_sum_nonneg(bounds_view(bounds@).drop_first());
            assert(bounds_view(bounds@).drop_first() =~= bounds_view(bounds@.drop_first()));
        }
        let pair = *slice_index_get(bounds, 0);
        let branch = slice_subrange(input, pair.0, pair.1);
        proof {
            assert(branch@ =~= branch_slice(input@, pair.0 as int, pair.1 as int));
        }
        let ghost c_before = *counter as int;
        match Regexp::parse(branch, counter) {
            Err(e) => Err(e),
            Ok(re) => {
                proof {
                    lemma_counter_regexp(branch@, c_before);
                }
                let rest_bounds = slice_subrange(bounds, 1, bounds.len());
                proof {
                    assert(bounds_view(rest_bounds@) =~= bounds_view(bounds@).drop_first());
                }
                match parse_branches(input, rest_bounds, counter) {
                    Err(e) => Err(e),
                    Ok(rest_branches) => {
                        let mut out = rest_branches;
                        out.insert(0, re.patterns);
                        proof {
                            let (brs, c2) = spec_parse_branches(
                                input@,
                                bounds_view(bounds@),
                                *old(counter) as int,
                            ).unwrap();
                            assert(branches_view(out@) =~= brs);
                        }
                        Ok(out)
                    },
                }
            },
        }
    }
}

impl Pattern {
    /// Parse one primitive token from the head of `input`; on success return
    /// the unconsumed remainder together with the node, exactly as
    /// `spec_parse_token` describes.
    #[verifier::rlimit(60)]
    fn parse<'a>(input: &'a [char], counter: &mut usize) -> (r: Result<
        (&'a [char], Pattern),
        GrepError,
    >)
        requires
            *old(counter) + input@.len() <= usize::MAX,
        ensures
            match spec_parse_token(input@, *old(counter) as int) {
                Some((consumed, node, c2)) => r matches Ok(p) && p.1@ == node && p.0@ == input@.skip(
                    consumed,
                ) && *final(counter) as int == c2,
                None => r is Err,
            },
        decreases input@.len() + 1, 1int, 0int,
    {
        broadcast use crate::ast::lemma_patterns_view, crate::ast::lemma_branches_view;

        let n = input.len();
        if n == 0 {
            return Err(GrepError::InvalidPattern);
        }
        let c0 = char_at(input, 0);
        if n >= 2 && c0 == '\\' {
            let c1 = char_at(input, 1);
            if c1 == 'd' {
                let rest = slice_subrange(input, 2, n);
                proof {
                    assert(rest@ =~= input@.skip(2));
                }
                return Ok((rest, Pattern::Digit));
            }
            if c1 == 'w' {
                let rest = slice_subrange(input, 2, n);
                proof {
                    assert(rest@ =~= input@.skip(2));
                }
                return Ok((rest, Pattern::Chars));
            }
            if '1' <= c1 && c1 <= '9' {
                let rest = slice_subrange(input, 2, n);
                proof {
                    assert(rest@ =~= input@.skip(2));
                }
                return Ok((rest, Pattern::BackReference((c1 as u32 - 48) as usize)));
            }
        }
        if c0 == '.' {
            let rest = slice_subrange(input, 1, n);
            proof {
                assert(rest@ =~= input@.skip(1));
            }
            return Ok((rest, Pattern::Wildcard));
        }
        if c0 == '[' {
            match find_char_from(input, 1, ']') {
                None => {
                    return Err(GrepError::InvalidPattern);
                },
                Some(rb) => {
                    proof {
                        lemma_find_from(input@, 1, ']');
                    }
                    let body = slice_subrange(input, 1, rb);
                    if slice_contains_char(body, '[') {
                        return Err(GrepError::InvalidPattern);
                    }
                    let rest = slice_subrange(input, rb + 1, n);
                    proof {
                        assert(rest@ =~= input@.skip(rb + 1));
                    }
                    if body.len() > 0 && char_at(body, 0) == '^' {
                        let values = slice_to_vec(slice_subrange(body, 1, body.len()));
                        proof {
                            assert(values@ =~= input@.subrange(1, rb as int).drop_first());
                        }
                        return Ok((rest, Pattern::NegativeCharGroup(values)));
                    } else {
                        let values = slice_to_vec(body);
                        return Ok((rest, Pattern::PositiveCharGroup(values)));
                    }
                },
            }
        }
        if c0 == '(' {
            match scan_group_at(input, 1, 1, 1, Vec::new()) {
                None => {
                    proof {
                        assert(bounds_view(Seq::<(usize, usize)>::empty()) =~= Seq::<
                            (int, int),
                        >::empty());
                    }
                    return Err(GrepError::InvalidPattern);
                },
                Some((bounds, close)) => {
                    proof {
                        assert(bounds_view(Seq::<(usize, usize)>::empty()) =~= Seq::<
                            (int, int),
                        >::empty());
                        lemma_scan_group(input@, 1, 1, 1, Seq::empty());
                        assert(seg_sum(Seq::<(int, int)>::empty()) == 0);
                    }
                    let id = *counter;
                    *counter = *counter + 1;
                    let ghost c1 = *counter as int;
                    proof {
                        let bs = bounds_view(bounds@);
                        let close_g = close as int;
                        assert forall|i: int|
                            0 <= i < bounds@.len() implies #[trigger] bounds@[i].0 <= bounds@[i].1
                            && bounds@[i].1 < input@.len() by {
                            assert(bs[i] == (bounds@[i].0 as int, bounds@[i].1 as int));
                            assert(1 <= bs[i].0 <= bs[i].1 <= close_g);
                        }
                        assert(seg_sum(bs) == (close_g - 1) - (bs.len() - 1));
                        assert(c1 + seg_sum(bs) <= usize::MAX);
                    }
                    match parse_branches(input, bounds.as_slice(), counter) {
                        Err(e) => {
                            return Err(e);
                        },
                        Ok(branches) => {
                            let rest = slice_subrange(input, close + 1, n);
                            proof {
                                assert(rest@ =~= input@.skip(close + 1));
                            }
                            return Ok(
                                (rest, Pattern::Alternation { alternations: branches, id }),
                            );
                        },
                    }
                },
            }
        }
        let rest = slice_subrange(input, 1, n);
        proof {
            assert(rest@ =~= input@.skip(1));
        }
        Ok((rest, Pattern::Literal(c0)))
    }
}

/// Executable mirror of `spec_parse_loop`: wrap under a leading `+`, then a
/// leading `?`, stop on an empty remainder, otherwise take one token and
/// recurse.
fn parse_loop(rest: &[char], pats: Vec<Pattern>, counter: &mut usize) -> (r: Result<
    Vec<Pattern>,
    GrepError,
>)
    requires
        *old(counter) + rest@.len() <= usize::MAX,
    ensures
        match spec_parse_loop(rest@, patterns_view(pats@), *old(counter) as int) {
            Some((out, c2)) => r matches Ok(v) && patterns_view(v@) == out && *final(counter)
                as int == c2,
            None => r is Err,
        },
    decreases rest@.len() + 1, 2int, 0int,
{
    let ghost rest_in = rest@;
    let ghost pats_in = pats@;
    let ghost c_in = *old(counter) as int;
    let mut rest = rest;
    let mut pats = pats;
    if rest.len() > 0 && char_at(rest, 0) == '+' {
        if pats.len() == 0 {
            proof {
                crate::ast::lemma_patterns_view(pats_in);
            }
            return Err(GrepError::InvalidPattern);
        }
        let prev = pats.pop().unwrap();
        pats.push(Pattern::OneOrMore(Box::new(prev)));
        rest = slice_subrange(rest, 1, rest.len());
        proof {
            assert(rest@ =~= rest_in.drop_first());
            let wrapped = Pattern::OneOrMore(Box::new(pats_in.last()));
            assert(pats@ == pats_in.drop_last().push(wrapped));
            crate::ast::lemma_patterns_view_push(pats_in.drop_last(), wrapped);
            crate::ast::lemma_patterns_view_drop_last(pats_in);
            crate::ast::lemma_patterns_view(pats_in);
        }
    }
    let ghost rest1 = rest@;
    let ghost pats1 = pats@;
    if rest.len() > 0 && char_at(rest, 0) == '?' {
        if pats.len() == 0 {
            proof {
                crate::ast::lemma_patterns_view(pats1);
            }
            return Err(GrepError::InvalidPattern);
        }
        let prev = pats.pop().unwrap();
        pats.push(Pattern::ZeroOrOne(Box::new(prev)));
        rest = slice_subrange(rest, 1, rest.len());
        proof {
            assert(rest@ =~= rest1.drop_first());
            let wrapped = Pattern::ZeroOrOne(Box::new(pats1.last()));
            assert(pats@ == pats1.drop_last().push(wrapped));
            crate::ast::lemma_patterns_view_push(pats1.drop_last(), wrapped);
            crate::ast::lemma_patterns_view_drop_last(pats1);
            crate::ast::lemma_patterns_view(pats1);
        }
    }
    if rest.len() == 0 {
        return Ok(pats);
    }
    let ghost rest2 = rest@;
    let ghost pats2 = pats@;
    match Pattern::parse(rest, counter) {
        Err(e) => Err(e),
        Ok((next, node)) => {
            proof {
                lemma_counter_token(rest2, c_in);
                let (consumed, nd, c2) = spec_parse_token(rest2, c_in).unwrap();
                assert(next@ =~= rest2.skip(consumed));
                crate::ast::lemma_patterns_view_push(pats2, node);
            }
            pats.push(node);
            parse_loop(next, pats, counter)
        },
    }
}

impl Regexp {
    /// Parse a whole pattern (or one branch of a group): strip the anchors,
    /// run the token loop, and reassemble, exactly as `spec_parse_regexp`
    /// describes.
    pub(crate) fn parse(input: &[char], counter: &mut usize) -> (r: Result<Regexp, GrepError>)
        requires
            *old(counter) + input@.len() <= usize::MAX,
        ensures
            match spec_parse_regexp(input@, *old(counter) as int) {
                Some((pats, c2)) => r matches Ok(re) && re@ == pats && *final(counter) as int
                    == c2,
                None => r is Err,
            },
        decreases input@.len() + 1, 3int, 0int,
{
        let ghost c_init = *old(counter) as int;
        let n = input.len();
        let start_anchor = n > 0 && char_at(input, 0) == '^';
        let body_start: usize = if start_anchor {
            1
        } else {
            0
        };
        let end_anchor = n > body_start && char_at(input, n - 1) == '$';
        let body_end: usize = if end_anchor {
            n - 1
        } else {
            n
        };
        let body = slice_subrange(input, body_start, body_end);
        proof {
            let s1 = if input@.len() > 0 && input@[0] == '^' {
                input@.drop_first()
            } else {
                input@
            };
            let s2 = if s1.len() > 0 && s1.last() == '$' {
                s1.drop_last()
            } else {
                s1
            };
            assert(body@ =~= s2);
            assert(patterns_view(Seq::<Pattern>::empty()) =~= Seq::<SpecPattern>::empty());
        }
        match parse_loop(body, Vec::new(), counter) {
            Err(e) => Err(e),
            Ok(pats) => {
                proof {
                    crate::ast::lemma_patterns_view(pats@);
                }
                if pats.len() == 0 {
                    return Err(GrepError::InvalidPattern);
                }
                let mut patterns = pats;
                let ghost pats_done = patterns_view(patterns@);
                if start_anchor {
                    patterns.insert(0, Pattern::Start);
                    proof {
                        crate::ast::lemma_patterns_view(patterns@);
                        assert(patterns_view(patterns@) =~= seq![SpecPattern::Start] + pats_done);
                    }
                }
                let ghost with_start = patterns_view(patterns@);
                let ghost before_end = patterns@;
                if end_anchor {
                    patterns.push(Pattern::End);
                    proof {
                        crate::ast::lemma_patterns_view_push(before_end, Pattern::End);
                        assert(patterns_view(patterns@) == with_start.push(SpecPattern::End));
                    }
                }
                Ok(Regexp { patterns })
            },
        }
    }
}

} // verus!
