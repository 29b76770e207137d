//! Project configuration.
use vstd::prelude::*;
use crate::path;
use crate::sorted;
use crate::sorted::{KeyOrder, SortedMap};
use crate::text;

verus! {

/// What happens to a mention of an existing file that is not a link.
#[derive(Clone, Copy, Debug, PartialEq, Eq, Structural)]
pub enum BarePathPolicy {
    Disabled,
    Warn,
    Deny,
}

/// What happens to a reference to a file that does not exist.
#[derive(Clone, Copy, Debug, PartialEq, Eq, Structural)]
pub enum StaleReferencePolicy {
    Disabled,
    Hint,
    Warn,
    Deny,
}

/// What happens to a fenced code block without a language tag.
#[derive(Clone, Copy, Debug, PartialEq, Eq, Structural)]
pub enum CodeBlockLanguagePolicy {
    Disabled,
    Hint,
    Warn,
    Deny,
}

/// The renderer whose heading anchors count.
#[derive(Clone, Copy, Debug, PartialEq, Eq, Structural)]
pub enum FragmentAlgorithm {
    Github,
    Gitlab,
    Vscode,
}

/// Whether a link has to name its predicate.
#[derive(Clone, Copy, Debug, PartialEq, Eq, Structural)]
pub enum PredicatePolicy {
    Optional,
    Required,
}

/// How connected the documents have to be.
#[derive(Clone, Copy, Debug, PartialEq, Eq, Structural)]
pub enum ConnectivityPolicy {
    Off,
    NoOrphans,
    NoIslands,
    Reachable,
}

/// The configurable rules.
pub struct Policy {
    pub bare_paths: BarePathPolicy,
    pub stale_references: StaleReferencePolicy,
    pub code_block_language: CodeBlockLanguagePolicy,
    pub multiple_h1: bool,
    pub skipped_heading_level: bool,
    pub image_empty_alt: bool,
    pub fragments: Option<FragmentAlgorithm>,
    pub predicates: PredicatePolicy,
    pub backlinks: bool,
    pub connectivity: ConnectivityPolicy,
    /// Workspace-relative paths of the documents that connectivity starts from.
    pub roots: Vec<String>,
}

/// A project's configuration.
pub struct Config {
    pub policy: Policy,
    /// Alias names and the directories outside the workspace that they stand for.
    pub external: SortedMap<String>,
    /// Names of well-known files that are never references.
    pub artifacts: SortedMap<()>,
    /// Forward predicates and their inverses.
    pub predicates: SortedMap<String>,
}

impl Config {
    /// The opposite member of the pair that a predicate belongs to: the inverse
    /// of a forward predicate, else the first forward predicate whose inverse it is.
    pub open spec fn opposite(self, predicate: Seq<u8>) -> Option<Seq<u8>> {
        if self.predicates@.contains_key(predicate) {
            Some(text::utf8(self.predicates@[predicate]@))
        } else {
            forward_of(self.predicates.keys(), self.predicates.values(), predicate)
        }
    }

    /// The opposite member of a predicate's pair.
    pub fn opposite_of(&self, predicate: &str) -> (r: Option<&str>)
        ensures
            match r {
                Some(o) => self.opposite(text::utf8(predicate@)) == Some(text::utf8(o@)),
                None => self.opposite(text::utf8(predicate@)) is None,
            },
    {
        if let Some(inverse) = self.predicates.get(predicate) {
            return Some(inverse.as_str());
        }
        let n = self.predicates.len();
        let mut i: usize = 0;
        let ghost keys = self.predicates.keys();
        let ghost values = self.predicates.values();
        assert(keys.skip(0) =~= keys);
        assert(values.skip(0) =~= values);
        while i < n
            invariant
                i <= n,
                n == keys.len(),
                n == values.len(),
                !self.predicates@.contains_key(text::utf8(predicate@)),
                keys == self.predicates.keys(),
                values == self.predicates.values(),
                forward_of(keys, values, text::utf8(predicate@)) == forward_of(
                    keys.skip(i as int),
                    values.skip(i as int),
                    text::utf8(predicate@),
                ),
            decreases n - i,
        {
            let inverse = self.predicates.value_at(i);
            proof {
                assert(keys.skip(i as int)[0] == keys[i as int]);
                assert(values.skip(i as int)[0] == values[i as int]);
                assert(keys.skip(i as int).drop_first() =~= keys.skip(i + 1));
                assert(values.skip(i as int).drop_first() =~= values.skip(i + 1));
            }
            if text::same(inverse.as_str(), predicate) {
                return Some(self.predicates.key_at(i));
            }
            i += 1;
        }
        None
    }

    /// Whether a predicate is in the vocabulary, in either direction.
    pub fn is_known_predicate(&self, predicate: &str) -> (r: bool)
        ensures
            r == self.opposite(text::utf8(predicate@)) is Some,
    {
        self.opposite_of(predicate).is_some()
    }
}

/// The pairs of a vocabulary, in order.
pub open spec fn vocabulary(config: Config) -> Seq<(Seq<u8>, Seq<u8>)> {
    Seq::new(
        config.predicates.keys().len(),
        |i: int| (config.predicates.keys()[i], text::utf8(config.predicates.values()[i]@)),
    )
}

/// Compare the vocabularies of two configurations.
pub fn same_vocabulary(a: &Config, b: &Config) -> (r: bool)
    ensures
        r == (vocabulary(*a) == vocabulary(*b)),
{
    let n = a.predicates.len();
    if n != b.predicates.len() {
        assert(vocabulary(*a).len() != vocabulary(*b).len());
        return false;
    }
    let mut i: usize = 0;
    while i < n
        invariant
            i <= n,
            n == a.predicates.keys().len(),
            n == b.predicates.keys().len(),
            forall|j: int| 0 <= j < i ==> #[trigger] vocabulary(*a)[j] == vocabulary(*b)[j],
        decreases n - i,
    {
        let same = text::same(a.predicates.key_at(i), b.predicates.key_at(i)) && text::same(
            a.predicates.value_at(i).as_str(),
            b.predicates.value_at(i).as_str(),
        );
        if !same {
            assert(vocabulary(*a)[i as int] != vocabulary(*b)[i as int]);
            return false;
        }
        i += 1;
    }
    assert(vocabulary(*a) =~= vocabulary(*b));
    true
}

/// Configurations with one vocabulary know the same predicates.
pub proof fn lemma_same_vocabulary(a: Config, b: Config, p: Seq<u8>)
    requires
        vocabulary(a) == vocabulary(b),
    ensures
        a.opposite(p) == b.opposite(p),
{
    broadcast use sorted::lemma_values_len;

    let n = vocabulary(a).len();
    assert(n == vocabulary(b).len());
    assert forall|i: int| 0 <= i < n implies a.predicates.keys()[i] == b.predicates.keys()[i]
        && text::utf8((#[trigger] a.predicates.values()[i])@) == text::utf8(
        b.predicates.values()[i]@,
    ) by {
        assert(vocabulary(a)[i] == vocabulary(b)[i]);
    }
    assert forall|i: int| 0 <= i < n implies (#[trigger] a.predicates.keys()[i])
        == b.predicates.keys()[i] by {
        assert(vocabulary(a)[i] == vocabulary(b)[i]);
    }
    assert(a.predicates.keys() =~= b.predicates.keys());
    lemma_forward_of(
        a.predicates.keys(),
        a.predicates.values(),
        b.predicates.values(),
        p,
    );
}

proof fn lemma_forward_of(keys: Seq<Seq<u8>>, x: Seq<String>, y: Seq<String>, p: Seq<u8>)
    requires
        x.len() == y.len(),
        forall|i: int| 0 <= i < x.len() ==> text::utf8((#[trigger] x[i])@) == text::utf8(y[i]@),
    ensures
        forward_of(keys, x, p) == forward_of(keys, y, p),
    decreases keys.len(),
{
    if keys.len() > 0 && x.len() > 0 {
        assert(text::utf8(x[0]@) == text::utf8(y[0]@));
        assert forall|i: int| 0 <= i < x.drop_first().len() implies text::utf8(
            (#[trigger] x.drop_first()[i])@,
        ) == text::utf8(y.drop_first()[i]@) by {
            assert(x.drop_first()[i] == x[i + 1]);
        }
        lemma_forward_of(keys.drop_first(), x.drop_first(), y.drop_first(), p);
    }
}

/// The first key whose value is `predicate`.
pub open spec fn forward_of(
    keys: Seq<Seq<u8>>,
    values: Seq<String>,
    predicate: Seq<u8>,
) -> Option<Seq<u8>>
    decreases keys.len(),
{
    if keys.len() == 0 || values.len() == 0 {
        None
    } else if text::utf8(values[0]@) == predicate {
        Some(keys[0])
    } else {
        forward_of(keys.drop_first(), values.drop_first(), predicate)
    }
}

/// Whether a configuration is what holds where none is written.
pub open spec fn is_default(c: Config) -> bool {
    &&& c.policy.bare_paths == BarePathPolicy::Warn
    &&& c.policy.stale_references == StaleReferencePolicy::Warn
    &&& c.policy.code_block_language == CodeBlockLanguagePolicy::Disabled
    &&& !c.policy.multiple_h1
    &&& !c.policy.skipped_heading_level
    &&& !c.policy.image_empty_alt
    &&& c.policy.fragments is None
    &&& c.policy.predicates == PredicatePolicy::Optional
    &&& c.policy.backlinks
    &&& c.policy.connectivity == ConnectivityPolicy::Off
    &&& path::texts(c.policy.roots@) == seq![text::utf8("README.md"@)]
    &&& c.external@ == Map::<Seq<u8>, String>::empty()
    &&& c.artifacts@ == Map::<Seq<u8>, ()>::empty()
    &&& forall|p: Seq<u8>| #[trigger]
        c.predicates@.contains_key(p) <==> p == text::utf8("references"@) || p == text::utf8(
            "supersedes"@,
        )
    &&& text::utf8(c.predicates@[text::utf8("references"@)]@) == text::utf8("referenced_by"@)
    &&& text::utf8(c.predicates@[text::utf8("supersedes"@)]@) == text::utf8("superseded_by"@)
}

impl Default for Config {
    fn default() -> (r: Config)
        ensures
            is_default(r),
    {
        let mut roots: Vec<String> = Vec::new();
        roots.push(text::owned("README.md"));
        let mut predicates: SortedMap<String> = SortedMap::new(KeyOrder::Bytes);
        predicates.insert(text::owned("references"), text::owned("referenced_by"));
        predicates.insert(text::owned("supersedes"), text::owned("superseded_by"));
        proof {
            assert(path::texts(roots@) =~= seq![text::utf8("README.md"@)]);
            if text::utf8("references"@) == text::utf8("supersedes"@) {
                text::lemma_utf8_injective("references"@, "supersedes"@);
                reveal_strlit("references");
                reveal_strlit("supersedes");
                assert("references"@[0] == 'r' && "supersedes"@[0] == 's');
            }
        }
        Config {
            policy: Policy {
                bare_paths: BarePathPolicy::Warn,
                stale_references: StaleReferencePolicy::Warn,
                code_block_language: CodeBlockLanguagePolicy::Disabled,
                multiple_h1: false,
                skipped_heading_level: false,
                image_empty_alt: false,
                fragments: None,
                predicates: PredicatePolicy::Optional,
                backlinks: true,
                connectivity: ConnectivityPolicy::Off,
                roots,
            },
            external: SortedMap::new(KeyOrder::Bytes),
            artifacts: SortedMap::new(KeyOrder::Bytes),
            predicates,
        }
    }
}

} // verus!
