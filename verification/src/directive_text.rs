//! Filter specifications from directive text such as
//! `"mycrate::module=trace,warn"`.
//!
//! The text is parsed by `tracing_subscriber`; this module turns what the
//! parser found into a [`FilterSpec`].

use vstd::prelude::*;
use vstd::utf8::encode_utf8;
use tracing_subscriber::filter::{ParseError, Targets};
use crate::filter::{DirectiveView, FilterSpec, FilterSpecView};
use crate::level::LevelFilter;

verus! {

/// The error of `tracing_subscriber`'s directive parser.
#[verifier::external_type_specification]
#[verifier::external_body]
pub struct ExParseError(ParseError);

/// What `tracing_subscriber` finds in a directive text: `None` where it
/// rejects the text, else the directives with their level names, the one
/// without a target first.
pub uninterp spec fn parsed_targets(text: Seq<char>) -> Option<Seq<(Option<Seq<char>>, Seq<char>)>>;

/// The contents of one parsed directive.
pub open spec fn pair_view(pair: (Option<String>, String)) -> (Option<Seq<char>>, Seq<char>) {
    (
        match pair.0 {
            None => None,
            Some(target) => Some(target@),
        },
        pair.1@,
    )
}

/// The contents of a list of parsed directives.
pub open spec fn pairs_view(pairs: Seq<(Option<String>, String)>) -> Seq<
    (Option<Seq<char>>, Seq<char>),
> {
    Seq::new(pairs.len(), |k: int| pair_view(pairs[k]))
}

/// Parses directive text with `Targets::from_str` of `tracing_subscriber`
/// and hands out what the parsed filter holds: its default level, from
/// `Targets::default_level`, as a directive without a target, then the
/// pairs of `Targets::iter`. Levels come as the names that `LevelFilter`
/// displays, which are the six lower-case level names.
///
/// Trusted: that the parser accepts a text or not, and what it finds,
/// depends on the text alone.
#[verifier::external_body]
fn parse_targets(text: &str) -> (r: Result<Vec<(Option<String>, String)>, ParseError>)
    ensures
        r is Ok <==> parsed_targets(text@) is Some,
        r matches Ok(pairs) ==> parsed_targets(text@) == Some(pairs_view(pairs@)),
        r matches Ok(pairs) ==> forall|k: int|
            0 <= k < pairs@.len() ==> LevelFilter::spec_from_name((#[trigger] pairs@[k]).1@) is Some,
{
    match text.parse::<Targets>() {
        Ok(targets) => Ok(
            targets.default_level().map(|level| (None, level.to_string())).into_iter().chain(
                targets.iter().map(|(target, level)| (Some(target.to_string()), level.to_string())),
            ).collect(),
        ),
        Err(e) => Err(e),
    }
}

/// Why a directive text gave no filter.
#[derive(Clone, Copy, Debug, PartialEq, Eq, Structural)]
pub enum DirectiveError {
    /// The parser rejected the text.
    Malformed,
}

/// The directive that a parsed pair stands for, if its level name is one of
/// the six.
pub open spec fn directive_of_pair(pair: (Option<Seq<char>>, Seq<char>)) -> Option<DirectiveView> {
    match LevelFilter::spec_from_name(pair.1) {
        None => None,
        Some(level) => Some(
            DirectiveView {
                target: match pair.0 {
                    None => None,
                    Some(target) => Some(encode_utf8(target)),
                },
                level,
            },
        ),
    }
}

/// The filter that a list of parsed directives stands for: everything is
/// off by default, and the directives are added in order. `None` where a
/// level name is not one of the six.
pub open spec fn spec_from_pairs(pairs: Seq<(Option<Seq<char>>, Seq<char>)>) -> Option<
    FilterSpecView,
>
    decreases pairs.len(),
{
    if pairs.len() == 0 {
        Some(FilterSpecView { default_level: LevelFilter::Off, directives: Seq::empty() })
    } else {
        match (spec_from_pairs(pairs.drop_last()), directive_of_pair(pairs.last())) {
            (Some(spec), Some(d)) => Some(spec.with_directive(d)),
            _ => None,
        }
    }
}

/// A list whose level names are all known stands for a filter.
pub proof fn lemma_known_levels_give_filter(pairs: Seq<(Option<Seq<char>>, Seq<char>)>)
    requires
        forall|k: int| 0 <= k < pairs.len() ==> LevelFilter::spec_from_name((#[trigger] pairs[k]).1) is Some,
    ensures
        spec_from_pairs(pairs) is Some,
    decreases pairs.len(),
{
    if pairs.len() > 0 {
        let front = pairs.drop_last();
        assert forall|k: int| 0 <= k < front.len() implies LevelFilter::spec_from_name(
            (#[trigger] front[k]).1,
        ) is Some by {
            assert(front[k] == pairs[k]);
        }
        lemma_known_levels_give_filter(front);
        assert(LevelFilter::spec_from_name(pairs[pairs.len() - 1].1) is Some);
    }
}

fn clone_target(target: &Option<String>) -> (r: Option<String>)
    ensures
        r == *target,
{
    match target {
        None => None,
        Some(s) => Some(s.clone()),
    }
}

impl FilterSpec {
    /// Builds the filter that a list of parsed directives stands for:
    /// everything off by default, the directives added in order. `None`
    /// where a level name is not one of the six lower-case names.
    pub fn from_pairs(pairs: &Vec<(Option<String>, String)>) -> (r: Option<FilterSpec>)
        ensures
            match r {
                Some(spec) => spec.wf() && spec_from_pairs(pairs_view(pairs@)) == Some(spec@),
                None => spec_from_pairs(pairs_view(pairs@)) is None,
            },
    {
        let ghost all = pairs_view(pairs@);
        let mut spec = FilterSpec::new(LevelFilter::Off);
        let mut i: usize = 0;
        assert(all.take(0) =~= Seq::empty());
        while i < pairs.len()
            invariant
                i <= pairs.len(),
                all == pairs_view(pairs@),
                spec.wf(),
                spec_from_pairs(all.take(i as int)) == Some(spec@),
            decreases pairs.len() - i,
        {
            let ghost front = all.take(i as int);
            let ghost next = all.take(i + 1);
            proof {
                assert(next.drop_last() =~= front);
                assert(next.last() == all[i as int]);
                assert(all[i as int] == pair_view(pairs@[i as int]));
            }
            let level = match LevelFilter::from_name(pairs[i].1.as_str()) {
                Some(level) => level,
                None => {
                    proof {
                        lemma_unknown_level_gives_none(all, i as int);
                    }
                    return None;
                },
            };
            let target = clone_target(&pairs[i].0);
            spec = spec.with_directive(target, level);
            i += 1;
        }
        assert(all.take(pairs@.len() as int) =~= all);
        Some(spec)
    }

    /// Parses directive text. The text gives a filter exactly when
    /// `tracing_subscriber` accepts it; the filter holds what the parser
    /// found, with everything else off.
    pub fn parse(text: &str) -> (r: Result<FilterSpec, DirectiveError>)
        ensures
            r is Ok <==> parsed_targets(text@) is Some,
            r matches Ok(spec) ==> spec.wf() && spec_from_pairs(parsed_targets(text@)->0) == Some(
                spec@,
            ),
            r matches Err(e) ==> e == DirectiveError::Malformed,
    {
        match parse_targets(text) {
            Err(_) => Err(DirectiveError::Malformed),
            Ok(pairs) => {
                proof {
                    let all = pairs_view(pairs@);
                    assert forall|k: int| 0 <= k < all.len() implies LevelFilter::spec_from_name(
                        (#[trigger] all[k]).1,
                    ) is Some by {
                        assert(all[k] == pair_view(pairs@[k]));
                    }
                    lemma_known_levels_give_filter(all);
                }
                match FilterSpec::from_pairs(&pairs) {
                    Some(spec) => Ok(spec),
                    None => Err(DirectiveError::Malformed),
                }
            },
        }
    }
}

/// A list with an unknown level name stands for no filter.
pub proof fn lemma_unknown_level_gives_none(pairs: Seq<(Option<Seq<char>>, Seq<char>)>, k: int)
    requires
        0 <= k < pairs.len(),
        LevelFilter::spec_from_name(pairs[k].1) is None,
    ensures
        spec_from_pairs(pairs) is None,
    decreases pairs.len(),
{
    if k < pairs.len() - 1 {
        let front = pairs.drop_last();
        assert(front[k] == pairs[k]);
        lemma_unknown_level_gives_none(front, k);
    }
}

} // verus!
