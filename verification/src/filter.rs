//! Filter specifications: a default threshold and per-target directives.
//!
//! A directive applies to every target that begins with its prefix. Where
//! several directives apply, the one with the longest prefix decides; where
//! none applies, the default threshold decides.

use vstd::prelude::*;
use vstd::utf8::encode_utf8;
use crate::level::{Level, LevelFilter};

verus! {

/// The mathematical content of one directive: the UTF-8 bytes of its target
/// prefix, if it has one, and its threshold.
pub struct DirectiveView {
    pub target: Option<Seq<u8>>,
    pub level: LevelFilter,
}

impl DirectiveView {
    /// Whether the directive applies to a target.
    pub open spec fn matches(self, target: Seq<u8>) -> bool {
        match self.target {
            None => true,
            Some(prefix) => prefix.is_prefix_of(target),
        }
    }

    /// How specific the directive is: 0 without a prefix, else one more than
    /// the prefix's length.
    pub open spec fn specificity(self) -> nat {
        match self.target {
            None => 0,
            Some(prefix) => prefix.len() + 1,
        }
    }
}

/// The mathematical content of a filter specification.
pub struct FilterSpecView {
    pub default_level: LevelFilter,
    pub directives: Seq<DirectiveView>,
}

impl FilterSpecView {
    /// No two directives name the same target.
    pub open spec fn wf(self) -> bool {
        forall|i: int, j: int|
            0 <= i < j < self.directives.len() ==> (#[trigger] self.directives[i]).target != (
            #[trigger] self.directives[j]).target
    }

    /// Whether directive `i` applies to `target` and is strictly more
    /// specific than every other directive that applies.
    pub open spec fn governs(self, i: int, target: Seq<u8>) -> bool {
        &&& 0 <= i < self.directives.len()
        &&& self.directives[i].matches(target)
        &&& forall|j: int|
            0 <= j < self.directives.len() && j != i && (#[trigger] self.directives[j]).matches(
                target,
            ) ==> self.directives[j].specificity() < self.directives[i].specificity()
    }

    /// The threshold in force for `target`: that of the governing directive,
    /// or the default where no directive governs.
    pub open spec fn threshold(self, target: Seq<u8>) -> LevelFilter {
        if exists|i: int| self.governs(i, target) {
            self.directives[choose|i: int| self.governs(i, target)].level
        } else {
            self.default_level
        }
    }

    /// Whether an event of `level` at `target` is enabled.
    pub open spec fn evaluate(self, target: Seq<u8>, level: Level) -> bool {
        self.threshold(target).spec_permits(level)
    }

    /// Whether some directive names exactly `target`.
    pub open spec fn names(self, target: Option<Seq<u8>>) -> bool {
        exists|i: int| 0 <= i < self.directives.len() && (#[trigger] self.directives[i]).target == target
    }

    /// The position of the directive that names exactly `target`.
    pub open spec fn position(self, target: Option<Seq<u8>>) -> int {
        choose|i: int| 0 <= i < self.directives.len() && (#[trigger] self.directives[i]).target == target
    }

    /// The specification with `d` added: it takes the place of the directive
    /// with the same target, or goes to the end where there is none.
    pub open spec fn with_directive(self, d: DirectiveView) -> FilterSpecView {
        if self.names(d.target) {
            FilterSpecView {
                default_level: self.default_level,
                directives: self.directives.update(self.position(d.target), d),
            }
        } else {
            FilterSpecView { default_level: self.default_level, directives: self.directives.push(d) }
        }
    }
}

/// At most one directive governs a target.
pub proof fn lemma_governs_unique(spec: FilterSpecView, i: int, j: int, target: Seq<u8>)
    requires
        spec.governs(i, target),
        spec.governs(j, target),
    ensures
        i == j,
{
}

/// Where a directive governs, it sets the threshold.
pub proof fn lemma_threshold_governed(spec: FilterSpecView, i: int, target: Seq<u8>)
    requires
        spec.governs(i, target),
    ensures
        spec.threshold(target) == spec.directives[i].level,
{
    let k = choose|k: int| spec.governs(k, target);
    lemma_governs_unique(spec, i, k, target);
}

/// Where no directive applies, the default sets the threshold.
pub proof fn lemma_threshold_default(spec: FilterSpecView, target: Seq<u8>)
    requires
        forall|j: int| 0 <= j < spec.directives.len() ==> !(#[trigger] spec.directives[j]).matches(target),
    ensures
        spec.threshold(target) == spec.default_level,
{
}

/// What decides the threshold of a well-formed specification: where no
/// directive applies to the target, the default; else the one directive that
/// applies and is more specific than every other that applies.
pub proof fn law_most_specific_directive_decides(spec: FilterSpecView, target: Seq<u8>)
    requires
        spec.wf(),
    ensures
        (forall|j: int| 0 <= j < spec.directives.len() ==> !(#[trigger] spec.directives[j]).matches(target))
            ==> spec.threshold(target) == spec.default_level,
        (exists|j: int| 0 <= j < spec.directives.len() && (#[trigger] spec.directives[j]).matches(target))
            ==> exists|i: int| #[trigger]
            spec.governs(i, target) && spec.threshold(target) == spec.directives[i].level,
{
    if exists|j: int| 0 <= j < spec.directives.len() && (#[trigger] spec.directives[j]).matches(target) {
        let k = choose|j: int| 0 <= j < spec.directives.len() && (#[trigger] spec.directives[j]).matches(target);
        lemma_best_below(spec, spec.directives.len() as int, k, target);
        let b = choose|b: int| best_below(spec, spec.directives.len() as int, b, target);
        assert(spec.governs(b, target));
        lemma_threshold_governed(spec, b, target);
    }
}

/// Directive `b` applies and is strictly more specific than every other
/// directive among the first `n` that applies.
pub open spec fn best_below(spec: FilterSpecView, n: int, b: int, target: Seq<u8>) -> bool {
    &&& 0 <= b < n <= spec.directives.len()
    &&& spec.directives[b].matches(target)
    &&& forall|j: int|
        0 <= j < n && j != b && (#[trigger] spec.directives[j]).matches(target)
            ==> spec.directives[j].specificity() < spec.directives[b].specificity()
}

/// Two directives that apply to one target and are equally specific name
/// the same target.
pub proof fn lemma_tie_same_target(a: DirectiveView, b: DirectiveView, target: Seq<u8>)
    requires
        a.matches(target),
        b.matches(target),
        a.specificity() == b.specificity(),
    ensures
        a.target == b.target,
{
    match (a.target, b.target) {
        (Some(p), Some(q)) => {
            assert(p =~= q);
        },
        _ => {},
    }
}

proof fn lemma_best_below(spec: FilterSpecView, n: int, k: int, target: Seq<u8>)
    requires
        spec.wf(),
        0 <= k < n <= spec.directives.len(),
        spec.directives[k].matches(target),
    ensures
        exists|b: int| best_below(spec, n, b, target),
    decreases n,
{
    let last = n - 1;
    if exists|k2: int| 0 <= k2 < last && (#[trigger] spec.directives[k2]).matches(target) {
        let k2 = choose|k2: int| 0 <= k2 < last && (#[trigger] spec.directives[k2]).matches(target);
        lemma_best_below(spec, last, k2, target);
        let b = choose|b: int| best_below(spec, last, b, target);
        if spec.directives[last].matches(target) {
            if spec.directives[last].specificity() == spec.directives[b].specificity() {
                lemma_tie_same_target(spec.directives[last], spec.directives[b], target);
            }
            if spec.directives[last].specificity() > spec.directives[b].specificity() {
                assert(best_below(spec, n, last, target));
            } else {
                assert(best_below(spec, n, b, target));
            }
        } else {
            assert(best_below(spec, n, b, target));
        }
    } else {
        assert(k == last);
        assert(best_below(spec, n, last, target));
    }
}

/// One rule of a filter: a threshold for the targets that begin with the
/// prefix, or for every target where there is no prefix.
#[derive(Debug)]
pub struct Directive {
    pub target: Option<String>,
    pub level: LevelFilter,
}

impl View for Directive {
    type V = DirectiveView;

    open spec fn view(&self) -> DirectiveView {
        DirectiveView {
            target: match self.target {
                None => None,
                Some(s) => Some(encode_utf8(s@)),
            },
            level: self.level,
        }
    }
}

/// Whether `prefix` is the beginning of `whole`.
pub fn starts_with(whole: &[u8], prefix: &[u8]) -> (r: bool)
    ensures
        r == prefix@.is_prefix_of(whole@),
{
    if prefix.len() > whole.len() {
        return false;
    }
    let mut i: usize = 0;
    while i < prefix.len()
        invariant
            i <= prefix.len() <= whole.len(),
            forall|k: int| 0 <= k < i ==> prefix@[k] == whole@[k],
        decreases prefix.len() - i,
    {
        if prefix[i] != whole[i] {
            assert(whole@.subrange(0, prefix@.len() as int)[i as int] == whole@[i as int]);
            return false;
        }
        i += 1;
    }
    assert(prefix@ =~= whole@.subrange(0, prefix@.len() as int));
    true
}

/// Whether two byte strings are the same.
pub fn same_bytes(a: &[u8], b: &[u8]) -> (r: bool)
    ensures
        r == (a@ == b@),
{
    if a.len() != b.len() {
        return false;
    }
    let mut i: usize = 0;
    while i < a.len()
        invariant
            i <= a.len() == b.len(),
            forall|k: int| 0 <= k < i ==> a@[k] == b@[k],
        decreases a.len() - i,
    {
        if a[i] != b[i] {
            return false;
        }
        i += 1;
    }
    assert(a@ =~= b@);
    true
}

impl Directive {
    /// Whether the directive applies to a target, given as UTF-8 bytes.
    pub fn matches(&self, target: &[u8]) -> (r: bool)
        ensures
            r == self@.matches(target@),
    {
        match &self.target {
            None => true,
            Some(prefix) => starts_with(target, prefix.as_str().as_bytes()),
        }
    }

    /// Whether the directive names exactly `target`.
    pub fn names(&self, target: &Option<String>) -> (r: bool)
        ensures
            r == (self@.target == match *target {
                None => None,
                Some(s) => Some(encode_utf8(s@)),
            }),
    {
        match (&self.target, target) {
            (None, None) => true,
            (Some(a), Some(b)) => same_bytes(a.as_str().as_bytes(), b.as_str().as_bytes()),
            _ => false,
        }
    }

    /// Whether this directive is strictly more specific than `other`.
    pub fn more_specific_than(&self, other: &Directive) -> (r: bool)
        ensures
            r == (self@.specificity() > other@.specificity()),
    {
        match (&self.target, &other.target) {
            (None, _) => false,
            (Some(_), None) => true,
            (Some(a), Some(b)) => a.as_str().as_bytes().len() > b.as_str().as_bytes().len(),
        }
    }
}

/// A parsed filter: a default threshold and directives that override it for
/// the targets they name. It does not change once it is installed.
#[derive(Debug)]
pub struct FilterSpec {
    default_level: LevelFilter,
    directives: Vec<Directive>,
}

impl View for FilterSpec {
    type V = FilterSpecView;

    closed spec fn view(&self) -> FilterSpecView {
        FilterSpecView {
            default_level: self.default_level,
            directives: Seq::new(self.directives@.len(), |i: int| self.directives@[i]@),
        }
    }
}

impl FilterSpec {
    /// No two directives name the same target.
    pub open spec fn wf(&self) -> bool {
        self@.wf()
    }

    /// A specification with a default threshold and no directive.
    pub fn new(default_level: LevelFilter) -> (r: FilterSpec)
        ensures
            r.wf(),
            r@.default_level == default_level,
            r@.directives == Seq::<DirectiveView>::empty(),
    {
        let r = FilterSpec { default_level, directives: Vec::new() };
        assert(r@.directives =~= Seq::<DirectiveView>::empty());
        r
    }

    /// The threshold for targets that no directive applies to.
    pub fn default_level(&self) -> (r: LevelFilter)
        ensures
            r == self@.default_level,
    {
        self.default_level
    }

    /// The number of directives.
    pub fn len(&self) -> (r: usize)
        ensures
            r == self@.directives.len(),
    {
        self.directives.len()
    }

    /// Adds a directive. One that names a target already present takes the
    /// place of the earlier directive; any other goes to the end.
    pub fn with_directive(self, target: Option<String>, level: LevelFilter) -> (r: FilterSpec)
        requires
            self.wf(),
        ensures
            r.wf(),
            r@ == self@.with_directive((Directive { target, level })@),
    {
        let ghost before = self@;
        let ghost d = (Directive { target, level })@;
        let added = Directive { target, level };
        let mut spec = self;
        let mut i: usize = 0;
        while i < spec.directives.len()
            invariant
                i <= spec.directives.len(),
                spec@ == before,
                before == self@,
                before.wf(),
                added@ == d,
                d == (Directive { target, level })@,
                forall|k: int| 0 <= k < i ==> (#[trigger] before.directives[k]).target != d.target,
            decreases spec.directives.len() - i,
        {
            if spec.directives[i].names(&added.target) {
                proof {
                    assert(before.directives[i as int].target == d.target);
                    assert(before.names(d.target));
                    let p = before.position(d.target);
                    assert(p == i);
                }
                spec.directives[i] = added;
                proof {
                    assert(spec@.directives =~= before.directives.update(i as int, d));
                    assert(spec@.wf()) by {
                        assert forall|a: int, b: int| 0 <= a < b < spec@.directives.len() implies (
                        #[trigger] spec@.directives[a]).target != (
                        #[trigger] spec@.directives[b]).target by {
                            if a == i {
                                assert(before.directives[b].target != before.directives[i as int].target);
                            } else if b == i {
                                assert(before.directives[a].target != before.directives[i as int].target);
                            } else {
                                assert(before.directives[a].target != before.directives[b].target);
                            }
                        }
                    }
                }
                return spec;
            }
            i += 1;
        }
        proof {
            assert(!before.names(d.target));
        }
        spec.directives.push(added);
        proof {
            assert(spec@.directives =~= before.directives.push(d));
            assert(spec@.wf()) by {
                assert forall|a: int, b: int| 0 <= a < b < spec@.directives.len() implies (
                #[trigger] spec@.directives[a]).target != (#[trigger] spec@.directives[b]).target by {
                    if b == before.directives.len() {
                        assert(before.directives[a].target != d.target);
                    } else {
                        assert(before.directives[a].target != before.directives[b].target);
                    }
                }
            }
        }
        spec
    }

    /// The threshold in force for a target: that of the most specific
    /// directive that applies, or the default where none applies.
    pub fn threshold_for(&self, target: &str) -> (r: LevelFilter)
        requires
            self.wf(),
        ensures
            r == self@.threshold(encode_utf8(target@)),
    {
        let bytes = target.as_bytes();
        let ghost t = encode_utf8(target@);
        let ghost spec = self@;
        let mut best: Option<usize> = None;
        let mut i: usize = 0;
        while i < self.directives.len()
            invariant
                i <= self.directives.len(),
                spec == self@,
                spec.wf(),
                bytes@ == t,
                match best {
                    None => forall|j: int| 0 <= j < i ==> !(#[trigger] spec.directives[j]).matches(t),
                    Some(b) => best_below(spec, i as int, b as int, t),
                },
            decreases self.directives.len() - i,
        {
            let current = &self.directives[i];
            assert(current@ == spec.directives[i as int]);
            if current.matches(bytes) {
                match best {
                    None => {
                        best = Some(i);
                    },
                    Some(b) => {
                        assert(self.directives[b as int]@ == spec.directives[b as int]);
                        if current.more_specific_than(&self.directives[b]) {
                            best = Some(i);
                        } else {
                            proof {
                                if spec.directives[i as int].specificity() == spec.directives[b as int].specificity() {
                                    lemma_tie_same_target(
                                        spec.directives[i as int],
                                        spec.directives[b as int],
                                        t,
                                    );
                                }
                            }
                        }
                    },
                }
            }
            i += 1;
        }
        match best {
            None => {
                proof {
                    lemma_threshold_default(spec, t);
                }
                self.default_level
            },
            Some(b) => {
                proof {
                    assert(spec.governs(b as int, t));
                    lemma_threshold_governed(spec, b as int, t);
                    assert(self.directives[b as int]@ == spec.directives[b as int]);
                }
                self.directives[b].level
            },
        }
    }

    /// Whether an event of `level` at `target` is enabled.
    pub fn evaluate(&self, target: &str, level: Level) -> (r: bool)
        requires
            self.wf(),
        ensures
            r == self@.evaluate(encode_utf8(target@), level),
    {
        self.threshold_for(target).permits(level)
    }
}

} // verus!
