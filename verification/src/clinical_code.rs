//! The deduplicating repository of canonical code records, accessed through
//! lightweight, non-owning references.

use vstd::prelude::*;
use vstd::string::StringExecFns;
use crate::lex::str_cmp;

verus! {

/// Failure of a lookup against a store or a tree.
#[derive(Clone, Copy, Debug, PartialEq, Eq, Structural)]
pub enum CodeError {
    /// The reference does not belong to the store it was dereferenced
    /// against.
    CodeNotFound,
    /// The requested group tag is not defined in the tree.
    GroupNotFound,
}

/// Ghost mirror of a code record: the characters of its spelling and of
/// its description.
pub ghost struct CodeV {
    pub name: Seq<char>,
    pub docs: Seq<char>,
}

/// An immutable clinical code record: the canonical code spelling and its
/// free-text description.
#[derive(Debug)]
pub struct ClinicalCode {
    name: String,
    docs: String,
}

impl View for ClinicalCode {
    type V = CodeV;

    closed spec fn view(&self) -> CodeV {
        CodeV { name: self.name@, docs: self.docs@ }
    }
}

impl ClinicalCode {
    /// Build a record from its spelling and description.
    pub fn new(name: String, docs: String) -> (r: Self)
        ensures
            r@.name == name@,
            r@.docs == docs@,
    {
        ClinicalCode { name, docs }
    }

    /// The canonical code spelling (e.g. "A01.0").
    pub fn name(&self) -> (r: &String)
        ensures
            r@ == self@.name,
    {
        &self.name
    }

    /// The free-text description of the code.
    pub fn docs(&self) -> (r: &String)
        ensures
            r@ == self@.docs,
    {
        &self.docs
    }
}

/// Opaque, cheaply copyable handle into one specific store instance: the
/// position of the record it names.
#[derive(Clone, Copy, Debug, PartialEq, Eq, Structural)]
pub struct ClinicalCodeRef {
    id: usize,
}

impl ClinicalCodeRef {
    /// The position this handle names.
    pub closed spec fn id_spec(self) -> int {
        self.id as int
    }
}

/// Whether some record in `s` carries the spelling `name`.
pub open spec fn store_contains_name(s: Seq<CodeV>, name: Seq<char>) -> bool {
    exists|i: int| 0 <= i < s.len() && (#[trigger] s[i]).name == name
}

/// The position of the record carrying `name`.
pub open spec fn store_index_of(s: Seq<CodeV>, name: Seq<char>) -> int {
    choose|i: int| 0 <= i < s.len() && (#[trigger] s[i]).name == name
}

/// No two records of `s` share a spelling.
pub open spec fn store_wf(s: Seq<CodeV>) -> bool {
    forall|i: int, j: int|
        0 <= i < j < s.len() ==> (#[trigger] s[i]).name != (#[trigger] s[j]).name
}

/// Owns all interned records; never holds two records with the same
/// spelling, and grows monotonically.
pub struct ClinicalCodeStore {
    codes: Vec<ClinicalCode>,
}

impl View for ClinicalCodeStore {
    type V = Seq<CodeV>;

    closed spec fn view(&self) -> Seq<CodeV> {
        self.codes@.map_values(|c: ClinicalCode| c@)
    }
}

impl ClinicalCodeStore {
    /// Spellings are pairwise distinct.
    pub open spec fn wf(self) -> bool {
        store_wf(self@)
    }

    /// Create an empty store.
    pub fn new() -> (r: Self)
        ensures
            r@ =~= Seq::<CodeV>::empty(),
            r.wf(),
    {
        ClinicalCodeStore { codes: Vec::new() }
    }

    /// How many records the store holds.
    pub fn len(&self) -> (r: usize)
        ensures
            r == self@.len(),
    {
        self.codes.len()
    }

    /// Intern a record: return the reference of the record already
    /// carrying this spelling if there is one, otherwise append a new
    /// record and return its reference. The only mutating operation.
    pub fn intern(&mut self, name: &str, docs: &str) -> (r: ClinicalCodeRef)
        requires
            old(self).wf(),
        ensures
            final(self).wf(),
            0 <= r.id_spec() < final(self)@.len(),
            final(self)@[r.id_spec()].name == name@,
            store_contains_name(old(self)@, name@) ==> final(self)@ == old(self)@,
            !store_contains_name(old(self)@, name@) ==> r.id_spec() == old(self)@.len(),
            !store_contains_name(old(self)@, name@) ==> final(self)@.len() == old(self)@.len() + 1,
            !store_contains_name(old(self)@, name@) ==> final(self)@ =~= old(self)@.push(
                CodeV { name: name@, docs: docs@ },
            ),
    {
        let n = self.codes.len();
        let mut i: usize = 0;
        while i < n
            invariant
                i <= n,
                n == self@.len(),
                store_wf(self@),
                forall|j: int| 0 <= j < i ==> (#[trigger] self@[j]).name != name@,
                self == old(self),
            decreases n - i,
        {
            if matches!(str_cmp(self.codes[i].name.as_str(), name), core::cmp::Ordering::Equal) {
                return ClinicalCodeRef { id: i };
            }
            i = i + 1;
        }
        self.codes.push(ClinicalCode { name: String::from_str(name), docs: String::from_str(docs) });
        proof {
            let oldv = old(self)@;
            assert(self@ =~= oldv.push(CodeV { name: name@, docs: docs@ }));
            assert forall|a: int, b: int| 0 <= a < b < self@.len() implies (
            #[trigger] self@[a]).name != (#[trigger] self@[b]).name by {
                if b < oldv.len() {
                    assert(self@[a] == oldv[a] && self@[b] == oldv[b]);
                } else {
                    assert(self@[b].name == name@);
                    assert(self@[a] == oldv[a]);
                }
            }
        }
        ClinicalCodeRef { id: n }
    }

    /// Dereference a handle: the record it names, or `CodeNotFound` when
    /// the handle does not point into this store.
    pub fn clinical_code_from(&self, code_ref: &ClinicalCodeRef) -> (r: Result<
        &ClinicalCode,
        CodeError,
    >)
        ensures
            r is Ok <==> code_ref.id_spec() < self@.len(),
            r matches Ok(c) ==> c@ == self@[code_ref.id_spec()],
            r matches Err(e) ==> e == CodeError::CodeNotFound,
    {
        if code_ref.id < self.codes.len() {
            Ok(&self.codes[code_ref.id])
        } else {
            Err(CodeError::CodeNotFound)
        }
    }
}

} // verus!
