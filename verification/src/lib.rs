//! A small regular-expression engine: a recursive-descent parser that turns a
//! pattern string into a sequence of nodes, and a backtracking matcher that
//! searches a line of text for the leftmost span satisfying the pattern.
//!
//! Supported syntax: literal characters, `\d` (ASCII digit), `\w`
//! (alphanumeric), `.` (any character), `[...]` / `[^...]` character classes,
//! `^` / `$` anchors, greedy `+` and `?` quantifiers, parenthesized
//! alternation groups with nesting, and numbered backreferences `\1`..`\9`.

use vstd::prelude::*;

pub mod ast;
pub mod matcher;
pub mod parser;

pub use ast::GrepError;
pub use ast::Pattern;
pub use ast::Regexp;
pub use ast::SpecPattern;
pub use ast::branches_view;
pub use ast::pattern_view;
pub use ast::patterns_view;
pub use matcher::MATCH_FUEL;
pub use matcher::SpecCaps;
pub use matcher::SpecMatchContext;
pub use matcher::is_alphanumeric_char;
pub use matcher::is_digit_char;
pub use matcher::lemma_leftmost_match;
pub use matcher::smatch_at;
pub use matcher::smatch_here;
pub use matcher::spec_matches;
pub use matcher::spec_search_from;
pub use parser::spec_parse;

verus! {

/// Compile a pattern string, or report why it is invalid.
///
/// The pattern is invalid (and `GrepError::InvalidPattern` is returned)
/// exactly when `spec_parse` says so: an empty pattern or group branch, an
/// unterminated character class or group, a `[` inside a class, or a
/// quantifier with no atom before it.
pub fn re_parse(input_pattern: &str) -> (r: Result<Regexp, GrepError>)
    requires
        input_pattern@.len() < usize::MAX,
    ensures
        match spec_parse(input_pattern@) {
            Some(nodes) => r matches Ok(re) && re@ == nodes,
            None => r == Err::<Regexp, GrepError>(GrepError::InvalidPattern),
        },
{
    let chars = matcher::str_to_chars(input_pattern);
    let mut counter: usize = 1;
    match Regexp::parse(chars.as_slice(), &mut counter) {
        Ok(re) => Ok(re),
        Err(_) => Err(GrepError::InvalidPattern),
    }
}

/// Compile `input_pattern` and search `input_line` with it in one step,
/// returning the leftmost matched span as half-open character offsets.
///
/// The pattern must be well formed; `re_parse` tells the two cases apart.
pub fn match_pattern(input_line: &str, input_pattern: &str) -> (r: Option<(usize, usize)>)
    requires
        input_pattern@.len() < usize::MAX,
        spec_parse(input_pattern@) is Some,
    ensures
        match r {
            Some(sp) => spec_matches(spec_parse(input_pattern@).unwrap(), input_line@) == Some(
                (sp.0 as int, sp.1 as int),
            ),
            None => spec_matches(spec_parse(input_pattern@).unwrap(), input_line@) is None,
        },
        ({
            let nodes = spec_parse(input_pattern@).unwrap();
            r is Some && !(nodes.len() > 0 && nodes[0] is Start) ==> forall|s2: int|
                0 <= s2 < r.unwrap().0 ==> smatch_at(nodes, input_line@, s2) is None
        }),
{
    let re = match re_parse(input_pattern) {
        Ok(re) => re,
        Err(_) => {
            proof {
                assert(false);
            }
            return None;
        },
    };
    re.matches(input_line)
}

} // verus!
