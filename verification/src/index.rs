//! Ordering keys for tree nodes: a single code point or a category range.

use vstd::prelude::*;
use vstd::string::StringExecFns;
use crate::lex::lex_lt;
use crate::lex::lex_le;
use crate::lex::str_cmp;
use crate::lex::str_le;
use crate::lex::lemma_lex_lt_irreflexive;
use crate::lex::lemma_lex_lt_asymmetric;
use crate::lex::lemma_lex_lt_transitive;
use crate::lex::lemma_lex_lt_connected;

verus! {

/// Failure to construct an ordering key.
#[derive(Clone, Copy, Debug, PartialEq, Eq, Structural)]
pub enum IndexError {
    /// The end of a category range precedes its start.
    MalformedIndex,
}

/// Index used to sort code categories.
///
/// A `Leaf` holds the lexicographic position of a single code; a
/// `Category` holds the start and end of the lexicographic span of a
/// category. The order compares starts first; on equal starts a leaf
/// precedes a category, and two categories are ordered by their ends.
#[derive(Debug)]
pub enum Index {
    Leaf(String),
    Category(String, String),
}

impl Index {
    /// Start of the span this key covers.
    pub open spec fn start(self) -> Seq<char> {
        match self {
            Index::Leaf(p) => p@,
            Index::Category(s, _) => s@,
        }
    }

    /// End of the span this key covers (the point itself for a leaf).
    pub open spec fn end(self) -> Seq<char> {
        match self {
            Index::Leaf(p) => p@,
            Index::Category(_, e) => e@,
        }
    }

    /// Range validity: the end of the span does not precede its start.
    pub open spec fn wf(self) -> bool {
        lex_le(self.start(), self.end())
    }

    /// Equality of keys up to the characters they hold.
    pub open spec fn same(self, other: Index) -> bool {
        match (self, other) {
            (Index::Leaf(a), Index::Leaf(b)) => a@ == b@,
            (Index::Category(s1, e1), Index::Category(s2, e2)) => s1@ == s2@ && e1@ == e2@,
            _ => false,
        }
    }

    /// The total order on keys: the start decides first; on equal starts
    /// a leaf precedes a category, and categories are ordered by end.
    pub open spec fn before(self, other: Index) -> bool {
        ||| lex_lt(self.start(), other.start())
        ||| (self.start() == other.start() && match (self, other) {
            (Index::Leaf(_), Index::Leaf(_)) => false,
            (Index::Leaf(_), Index::Category(_, _)) => true,
            (Index::Category(_, _), Index::Leaf(_)) => false,
            (Index::Category(_, e1), Index::Category(_, e2)) => lex_lt(e1@, e2@),
        })
    }

    /// Construct the key of a single code point.
    pub fn make_leaf(start: &str) -> (r: Self)
        ensures
            r is Leaf,
            r.start() == start@,
            r.end() == start@,
            r.wf(),
    {
        Self::Leaf(String::from_str(start))
    }

    /// Construct the key of a category range; rejected when the end
    /// precedes the start.
    pub fn make_category(start: &str, end: &str) -> (r: Result<Self, IndexError>)
        ensures
            lex_le(start@, end@) ==> (r matches Ok(ix) && ix is Category && ix.start() == start@
                && ix.end() == end@ && ix.wf()),
            !lex_le(start@, end@) ==> r == Err::<Index, IndexError>(IndexError::MalformedIndex),
    {
        if str_le(start, end) {
            Ok(Self::Category(String::from_str(start), String::from_str(end)))
        } else {
            Err(IndexError::MalformedIndex)
        }
    }
}

/// The key order is never reflexive: equal keys do not compare strictly.
pub proof fn lemma_index_lt_irreflexive(a: Index, b: Index)
    requires
        a.same(b),
    ensures
        !a.before(b),
{
    lemma_lex_lt_irreflexive(a.start());
    match (a, b) {
        (Index::Category(_, e1), Index::Category(_, e2)) => {
            lemma_lex_lt_irreflexive(e1@);
        },
        _ => {},
    }
}

/// The key order is asymmetric: two keys never precede each other.
pub proof fn lemma_index_lt_asymmetric(a: Index, b: Index)
    requires
        a.before(b),
    ensures
        !b.before(a),
{
    if lex_lt(a.start(), b.start()) {
        lemma_lex_lt_asymmetric(a.start(), b.start());
        lemma_lex_lt_irreflexive(a.start());
    } else {
        lemma_lex_lt_irreflexive(a.start());
        match (a, b) {
            (Index::Category(_, e1), Index::Category(_, e2)) => {
                lemma_lex_lt_asymmetric(e1@, e2@);
            },
            _ => {},
        }
    }
}

/// The key order is connected: keys that do not compare either way hold
/// the same characters.
pub proof fn lemma_index_lt_connected(a: Index, b: Index)
    requires
        !a.before(b),
        !b.before(a),
    ensures
        a.same(b),
{
    lemma_lex_lt_connected(a.start(), b.start());
    match (a, b) {
        (Index::Category(_, e1), Index::Category(_, e2)) => {
            lemma_lex_lt_connected(e1@, e2@);
        },
        _ => {},
    }
}

/// The key order is transitive.
pub proof fn lemma_index_lt_transitive(a: Index, b: Index, c: Index)
    requires
        a.before(b),
        b.before(c),
    ensures
        a.before(c),
{
    if lex_lt(a.start(), b.start()) && lex_lt(b.start(), c.start()) {
        lemma_lex_lt_transitive(a.start(), b.start(), c.start());
    }
    if a.start() == b.start() && b.start() == c.start() {
        match (a, b, c) {
            (Index::Category(_, e1), Index::Category(_, e2), Index::Category(_, e3)) => {
                if lex_lt(e1@, e2@) && lex_lt(e2@, e3@) {
                    lemma_lex_lt_transitive(e1@, e2@, e3@);
                }
            },
            _ => {},
        }
    }
}

/// Compare two keys in the total order.
pub fn index_cmp(a: &Index, b: &Index) -> (r: core::cmp::Ordering)
    ensures
        r == core::cmp::Ordering::Less <==> a.before(*b),
        r == core::cmp::Ordering::Equal <==> a.same(*b),
        r == core::cmp::Ordering::Greater <==> b.before(*a),
{
    match (a, b) {
        (Index::Leaf(p1), Index::Leaf(p2)) => str_cmp(p1.as_str(), p2.as_str()),
        (Index::Leaf(p1), Index::Category(s2, _)) => {
            proof {
                lemma_lex_lt_irreflexive(p1@);
                lemma_lex_lt_irreflexive(s2@);
                if lex_lt(p1@, s2@) {
                    lemma_lex_lt_asymmetric(p1@, s2@);
                }
                if lex_lt(s2@, p1@) {
                    lemma_lex_lt_asymmetric(s2@, p1@);
                }
            }
            match str_cmp(p1.as_str(), s2.as_str()) {
                core::cmp::Ordering::Equal => core::cmp::Ordering::Less,
                o => o,
            }
        },
        (Index::Category(s1, _), Index::Leaf(p2)) => {
            proof {
                lemma_lex_lt_irreflexive(s1@);
                lemma_lex_lt_irreflexive(p2@);
                if lex_lt(s1@, p2@) {
                    lemma_lex_lt_asymmetric(s1@, p2@);
                }
                if lex_lt(p2@, s1@) {
                    lemma_lex_lt_asymmetric(p2@, s1@);
                }
            }
            match str_cmp(s1.as_str(), p2.as_str()) {
                core::cmp::Ordering::Equal => core::cmp::Ordering::Greater,
                o => o,
            }
        },
        (Index::Category(s1, e1), Index::Category(s2, e2)) => {
            proof {
                lemma_lex_lt_irreflexive(s1@);
                lemma_lex_lt_irreflexive(s2@);
                lemma_lex_lt_irreflexive(e1@);
                lemma_lex_lt_irreflexive(e2@);
                if lex_lt(s1@, s2@) {
                    lemma_lex_lt_asymmetric(s1@, s2@);
                }
                if lex_lt(s2@, s1@) {
                    lemma_lex_lt_asymmetric(s2@, s1@);
                }
            }
            match str_cmp(s1.as_str(), s2.as_str()) {
                core::cmp::Ordering::Equal => str_cmp(e1.as_str(), e2.as_str()),
                o => o,
            }
        },
    }
}

impl PartialEq for Index {
    fn eq(&self, other: &Index) -> (r: bool) {
        matches!(index_cmp(self, other), core::cmp::Ordering::Equal)
    }
}

impl vstd::std_specs::cmp::PartialEqSpecImpl for Index {
    open spec fn obeys_eq_spec() -> bool {
        true
    }

    open spec fn eq_spec(&self, other: &Index) -> bool {
        self.same(*other)
    }
}

impl PartialOrd for Index {
    fn partial_cmp(&self, other: &Index) -> (r: Option<core::cmp::Ordering>) {
        Some(index_cmp(self, other))
    }
}

impl vstd::std_specs::cmp::PartialOrdSpecImpl for Index {
    open spec fn obeys_partial_cmp_spec() -> bool {
        true
    }

    open spec fn partial_cmp_spec(&self, other: &Index) -> Option<core::cmp::Ordering> {
        if self.same(*other) {
            Some(core::cmp::Ordering::Equal)
        } else if self.before(*other) {
            Some(core::cmp::Ordering::Less)
        } else {
            Some(core::cmp::Ordering::Greater)
        }
    }
}

} // verus!
