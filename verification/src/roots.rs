//! The root certificates that clients trust.

use crate::der;
use crate::der::Der;
use shin::client::config::{Error as ConfigError, OwnedTrustAnchor, TrustStore};
use vstd::prelude::*;

verus! {

#[verifier::external_type_specification]
pub struct ExOwnedTrustAnchor(OwnedTrustAnchor);

#[verifier::external_type_specification]
#[verifier::external_body]
pub struct ExTrustStore(TrustStore);

/// The fields of a root certificate: subject, public key, and name constraints if
/// it has any, the last two without their outermost header.
pub struct Fields {
    pub subject: &'static [u8],
    pub spki: &'static [u8],
    pub name_constraints: Option<&'static [u8]>,
}

/// A root by its fields.
#[verifier::ext_equal]
pub struct Root {
    pub subject: Seq<u8>,
    pub spki: Seq<u8>,
    pub name_constraints: Option<Seq<u8>>,
}

impl View for Fields {
    type V = Root;

    open spec fn view(&self) -> Root {
        Root {
            subject: self.subject@,
            spki: self.spki@,
            name_constraints: match self.name_constraints {
                Some(constraints) => Some(constraints@),
                None => None,
            },
        }
    }
}

/// The root number `index`, if there are so many.
pub uninterp spec fn root_at(index: int) -> Option<Root>;

/// That `TrustStore::new` can come to this.
pub uninterp spec fn store_made(
    anchors: Seq<OwnedTrustAnchor>,
    result: Result<TrustStore, ConfigError>,
) -> bool;

/// `webpki_roots::TLS_SERVER_ROOTS`: a root of the table, which is fixed when the
/// crate is compiled.
#[verifier::external_body]
fn root_fields(index: usize) -> (fields: Option<Fields>)
    ensures
        match fields {
            Some(fields) => root_at(index as int) == Some(fields@),
            None => root_at(index as int) is None,
        },
{
    let anchor = webpki_roots::TLS_SERVER_ROOTS.get(index)?;
    Some(
        Fields {
            subject: anchor.subject.as_ref(),
            spki: anchor.subject_public_key_info.as_ref(),
            name_constraints: match &anchor.name_constraints {
                Some(value) => Some(value.as_ref()),
                None => None,
            },
        },
    )
}

/// `webpki_roots::TLS_SERVER_ROOTS`: how many roots the table has.
#[verifier::external_body]
fn root_count() -> (count: usize)
    ensures
        forall|index: int| 0 <= index ==> (#[trigger] root_at(index) is Some <==> index < count),
{
    webpki_roots::TLS_SERVER_ROOTS.len()
}

/// `OwnedTrustAnchor::from_der_fields`: copies the fields of a root and puts their
/// header back in front of the public key and of the name constraints. What is
/// stated of the header is stated of fields below 4 GiB.
#[verifier::external_body]
fn anchor_of(fields: Fields) -> (anchor: OwnedTrustAnchor)
    ensures
        describes(anchor, fields@),
{
    OwnedTrustAnchor::from_der_fields(fields.subject, fields.spki, fields.name_constraints)
}

/// `OwnedTrustAnchor::unconstrained`: an anchor without name constraints.
#[verifier::external_body]
fn unconstrained(subject_der: Vec<u8>, spki_der: Vec<u8>) -> (anchor: OwnedTrustAnchor)
    ensures
        anchor.subject_der@ == subject_der@,
        anchor.spki_der@ == spki_der@,
        anchor.name_constraints_der is None,
{
    OwnedTrustAnchor::unconstrained(subject_der, spki_der)
}

/// `TrustStore::new`: checks anchors and indexes them. There have to be some, and
/// 256 at most; which of them pass is the engine's own matter.
#[verifier::external_body]
fn store_of(anchors: Vec<OwnedTrustAnchor>) -> (store: Result<TrustStore, ConfigError>)
    ensures
        store_made(anchors@, store),
        store is Ok ==> 0 < anchors@.len() <= 256,
{
    TrustStore::new(anchors)
}

/// That a field was given its header back.
pub open spec fn wrapped(value: Seq<u8>, inner: Seq<u8>) -> bool {
    inner.len() <= u32::MAX ==> value == der::sequence(inner)
}

/// That an anchor is this root.
pub open spec fn describes(anchor: OwnedTrustAnchor, root: Root) -> bool {
    &&& anchor.subject_der@ == root.subject
    &&& wrapped(anchor.spki_der@, root.spki)
    &&& match (anchor.name_constraints_der, root.name_constraints) {
        (Some(value), Some(inner)) => wrapped(value@, inner),
        (None, None) => true,
        _ => false,
    }
}

/// That these anchors are all roots from number `at` on, in order.
pub open spec fn left_from(at: int, anchors: Seq<OwnedTrustAnchor>) -> bool {
    &&& forall|i: int| 0 <= i ==> (#[trigger] root_at(at + i) is Some <==> i < anchors.len())
    &&& forall|i: int|
        0 <= i < anchors.len() ==> describes(#[trigger] anchors[i], root_at(at + i)->0)
}

/// The roots, one after the other.
#[derive(Clone, Debug)]
pub struct Roots {
    index: usize,
}

impl Default for Roots {
    fn default() -> (roots: Roots)
        ensures
            roots.wf(),
            roots.at() == 0,
    {
        Roots::new()
    }
}

impl Roots {
    /// Which root is next.
    pub closed spec fn at(self) -> int {
        self.index as int
    }

    /// That all roots before the next are there.
    pub closed spec fn wf(self) -> bool {
        forall|i: int| 0 <= i < self.index ==> #[trigger] root_at(i) is Some
    }

    /// All roots.
    pub fn new() -> (roots: Self)
        ensures
            roots.wf(),
            roots.at() == 0,
    {
        Roots { index: 0 }
    }

    /// The next root.
    pub fn next(&mut self) -> (anchor: Option<OwnedTrustAnchor>)
        requires
            old(self).wf(),
        ensures
            final(self).wf(),
            match (root_at(old(self).at()), anchor) {
                (Some(root), Some(anchor)) => describes(anchor, root) && final(self).at()
                    == old(self).at() + 1,
                (None, None) => final(self).at() == old(self).at(),
                _ => false,
            },
    {
        match root_fields(self.index) {
            Some(fields) => {
                let count: usize = root_count();
                assert(root_at(self.index as int) is Some);
                self.index = self.index + 1;
                Some(anchor_of(fields))
            },
            None => None,
        }
    }

    /// How many roots are left.
    pub fn len(&self) -> (count: usize)
        requires
            self.wf(),
        ensures
            forall|i: int| 0 <= i ==> (#[trigger] root_at(self.at() + i) is Some <==> i < count),
    {
        let count: usize = root_count();
        assert(root_at(count as int) is None);
        count - self.index
    }

    /// A store of the roots that are left, to be shared by endpoints.
    pub fn into_store(self) -> (store: Result<TrustStore, ConfigError>)
        requires
            self.wf(),
        ensures
            exists|anchors: Seq<OwnedTrustAnchor>| #[trigger]
                store_made(anchors, store) && left_from(self.at(), anchors) && (store is Ok ==> 0
                    < anchors.len() <= 256),
    {
        let anchors = self.collect();
        let ghost all = anchors@;
        let store = store_of(anchors);
        assert(store_made(all, store));
        store
    }

    /// The roots that are left.
    fn collect(self) -> (anchors: Vec<OwnedTrustAnchor>)
        requires
            self.wf(),
        ensures
            left_from(self.at(), anchors@),
    {
        let ghost start = self.at();
        let mut roots = self;
        let count: usize = roots.len();
        let mut anchors: Vec<OwnedTrustAnchor> = Vec::new();
        let mut taken: usize = 0;
        while taken < count
            invariant
                roots.wf(),
                taken <= count,
                taken == anchors@.len(),
                roots.at() == start + taken,
                forall|i: int| 0 <= i ==> (#[trigger] root_at(start + i) is Some <==> i < count),
                forall|i: int|
                    0 <= i < anchors@.len() ==> describes(
                        #[trigger] anchors@[i],
                        root_at(start + i)->0,
                    ),
            decreases count - taken,
        {
            assert(root_at(start + taken as int) is Some);
            match roots.next() {
                Some(anchor) => anchors.push(anchor),
                None => {},
            }
            taken = taken + 1;
        }
        anchors
    }
}

/// The roots as anchors without name constraints.
pub struct WebpkiRoots;

impl WebpkiRoots {
    /// All roots.
    pub fn anchors() -> (anchors: Vec<OwnedTrustAnchor>)
        ensures
            forall|i: int| 0 <= i ==> (#[trigger] root_at(i) is Some <==> i < anchors@.len()),
            forall|i: int|
                0 <= i < anchors@.len() ==> (#[trigger] anchors@[i]).subject_der@ == (root_at(
                    i,
                )->0).subject && anchors@[i].spki_der@ == der::sequence((root_at(i)->0).spki)
                    && anchors@[i].name_constraints_der is None,
    {
        let count: usize = root_count();
        let mut anchors: Vec<OwnedTrustAnchor> = Vec::new();
        let mut index: usize = 0;
        while index < count
            invariant
                index <= count,
                index == anchors@.len(),
                forall|i: int| 0 <= i ==> (#[trigger] root_at(i) is Some <==> i < count),
                forall|i: int|
                    0 <= i < anchors@.len() ==> (#[trigger] anchors@[i]).subject_der@ == (root_at(
                        i,
                    )->0).subject && anchors@[i].spki_der@ == der::sequence((root_at(i)->0).spki)
                        && anchors@[i].name_constraints_der is None,
            decreases count - index,
        {
            match root_fields(index) {
                Some(fields) => {
                    let mut subject: Vec<u8> = Vec::new();
                    subject.extend_from_slice(fields.subject);
                    assert(subject@ =~= fields.subject@);
                    anchors.push(unconstrained(subject, Der::wrap_sequence(fields.spki)));
                },
                None => {},
            }
            index = index + 1;
        }
        anchors
    }
}

} // verus!
