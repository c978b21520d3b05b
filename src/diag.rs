//! Diagnostics, and packs of diagnostics attributed to crates.
use crate::ident::{Kid, Span};
use vstd::prelude::*;

verus! {

/// How serious a diagnostic is.
#[derive(Clone, Copy, PartialEq, Eq, Debug)]
pub enum Severity {
    Bug,
    Error,
    Warning,
    Note,
    Help,
}

/// A span of a source file together with an explanation.
#[derive(Clone, Debug, PartialEq, Eq)]
pub struct Label {
    pub file_id: usize,
    pub span: Span,
    pub message: String,
}

/// A message with a severity, a primary label, and zero or more secondary labels.
#[derive(Clone, Debug, PartialEq, Eq)]
pub struct Diagnostic {
    pub severity: Severity,
    pub message: String,
    pub primary: Label,
    pub secondary: Vec<Label>,
}

impl Diagnostic {
    /// An error with the given message and primary label, and no secondary labels.
    pub fn new_error(message: String, primary: Label) -> (r: Diagnostic)
        ensures
            r.severity == Severity::Error,
            r.message == message,
            r.primary == primary,
            r.secondary@.len() == 0,
    {
        Diagnostic { severity: Severity::Error, message, primary, secondary: Vec::new() }
    }
}

/// The crates a diagnostic is about: rarely more than two, so held inline.
#[verifier::external_body]
#[derive(Debug)]
pub struct Kids {
    inner: smallvec::SmallVec<[Kid; 2]>,
}

/// The crates held by `v`, in order.
pub uninterp spec fn kids_of(v: Kids) -> Seq<Kid>;

/// Relies on smallvec's `SmallVec::new`: a vector holding nothing.
#[verifier::external_body]
fn kids_new() -> (r: Kids)
    ensures
        kids_of(r) == Seq::<Kid>::empty(),
{
    Kids { inner: smallvec::SmallVec::new() }
}

/// Relies on smallvec's `SmallVec::is_empty`: true exactly when the length is zero.
#[verifier::external_body]
fn kids_is_empty(v: &Kids) -> (r: bool)
    ensures
        r == (kids_of(*v).len() == 0),
{
    v.inner.is_empty()
}

/// Relies on smallvec's `SmallVec::push`: the item is appended at the end.
#[verifier::external_body]
fn kids_push(v: &mut Kids, k: Kid)
    requires
        kids_of(*old(v)).len() < usize::MAX,
    ensures
        kids_of(*final(v)) == kids_of(*old(v)).push(k),
{
    v.inner.push(k)
}

/// Relies on smallvec's `SmallVec::to_vec`: a copy of the items, in order.
#[verifier::external_body]
fn kids_to_vec(v: &Kids) -> (r: Vec<Kid>)
    ensures
        r@ == kids_of(*v),
{
    v.inner.to_vec()
}

/// A diagnostic together with the crates it is about.
#[derive(Debug)]
pub struct Diag {
    pub diag: Diagnostic,
    pub kids: Kids,
}

impl Diag {
    /// A diagnostic attributed to no crate.
    pub fn new(diag: Diagnostic) -> (r: Diag)
        ensures
            r.diag == diag,
            kids_of(r.kids).len() == 0,
    {
        Diag { diag, kids: kids_new() }
    }

    /// A diagnostic about the crate `kid`.
    pub fn with_kid(diag: Diagnostic, kid: Kid) -> (r: Diag)
        ensures
            r.diag == diag,
            kids_of(r.kids) == seq![kid],
    {
        let mut kids = kids_new();
        kids_push(&mut kids, kid);
        proof {
            assert(kids_of(kids) =~= seq![kid]);
        }
        Diag { diag, kids }
    }

    /// The crates this diagnostic is about, in order.
    pub fn kids(&self) -> (r: Vec<Kid>)
        ensures
            r@ == kids_of(self.kids),
    {
        kids_to_vec(&self.kids)
    }
}

/// An ordered collection of diagnostics. While it still holds a default
/// crate, the first diagnostic pushed without attribution is attributed to
/// that crate, and the default is then used up.
pub struct Pack {
    diags: Vec<Diag>,
    kid: Option<Kid>,
}

impl Pack {
    /// The diagnostics held, in the order they were pushed.
    pub closed spec fn diags(&self) -> Seq<Diag> {
        self.diags@
    }

    /// The crate that the next unattributed diagnostic will be attributed to.
    pub closed spec fn default_kid(&self) -> Option<Kid> {
        self.kid
    }

    /// An empty pack with no default crate.
    pub fn new() -> (r: Pack)
        ensures
            r.diags().len() == 0,
            r.default_kid() is None,
    {
        Pack { diags: Vec::new(), kid: None }
    }

    /// An empty pack whose first unattributed diagnostic goes to `kid`.
    pub fn with_kid(kid: Kid) -> (r: Pack)
        ensures
            r.diags().len() == 0,
            r.default_kid() == Some(kid),
    {
        Pack { diags: Vec::new(), kid: Some(kid) }
    }

    /// A pack holding the single diagnostic `d`, with no default crate.
    pub fn from_diag(d: Diag) -> (r: Pack)
        ensures
            r.diags() == seq![d],
            r.default_kid() is None,
    {
        let mut diags: Vec<Diag> = Vec::new();
        diags.push(d);
        proof {
            assert(diags@ =~= seq![d]);
        }
        Pack { diags, kid: None }
    }

    /// Appends `diag`. If it names no crate and the pack still holds a
    /// default crate, the diagnostic is attributed to it and the default is
    /// cleared.
    pub fn push(&mut self, diag: Diag)
        ensures
            old(self).default_kid() is Some && kids_of(diag.kids).len() == 0 ==> {
                &&& final(self).diags() == old(self).diags().push(
                    Diag { diag: diag.diag, kids: final(self).diags().last().kids },
                )
                &&& kids_of(final(self).diags().last().kids) == seq![
                    old(self).default_kid()->Some_0,
                ]
                &&& final(self).default_kid() is None
            },
            !(old(self).default_kid() is Some && kids_of(diag.kids).len() == 0) ==> {
                &&& final(self).diags() == old(self).diags().push(diag)
                &&& final(self).default_kid() == old(self).default_kid()
            },
    {
        let mut diag = diag;
        if kids_is_empty(&diag.kids) {
            if let Some(kid) = self.kid.take() {
                kids_push(&mut diag.kids, kid);
                proof {
                    assert(kids_of(diag.kids) =~= seq![kid]);
                }
            }
        }
        self.diags.push(diag);
    }

    /// True when no diagnostic has been pushed.
    pub fn is_empty(&self) -> (r: bool)
        ensures
            r == (self.diags().len() == 0),
    {
        self.diags.len() == 0
    }

    /// Hands out the diagnostics in the order they were pushed.
    pub fn into_diags(self) -> (r: Vec<Diag>)
        ensures
            r@ == self.diags(),
    {
        self.diags
    }
}

} // verus!
