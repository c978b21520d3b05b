//! Crate identities, source spans, and the total order used to sort and search them.
use std::cmp::Ordering;
use vstd::prelude::*;

verus! {

/// A byte range `start..end` in some source text.
#[derive(Clone, Copy, PartialEq, Eq, Debug)]
pub struct Span {
    pub start: u32,
    pub end: u32,
}

/// A value paired with the span of source text it was read from.
#[derive(Clone, Debug, PartialEq, Eq)]
pub struct Spanned<T> {
    pub value: T,
    pub span: Span,
}

/// A crate name plus a version requirement, in the requirement's canonical
/// text form (`*` matches any version).
#[derive(Clone, Debug, PartialEq, Eq)]
pub struct CrateId {
    pub name: String,
    pub version: String,
}

/// A crate identity with the span it was declared at.
pub type Skrate = Spanned<CrateId>;

/// The unique identifier of a resolved package in a dependency graph.
#[derive(Clone, Debug, PartialEq, Eq)]
pub struct Kid {
    pub repr: String,
}

/// The requirement text that matches every version.
pub open spec fn any_version() -> Seq<char> {
    "*"@
}

impl CrateId {
    /// An identity that matches every version of the named crate.
    pub fn any(name: &str) -> (r: CrateId)
        ensures
            r.name@ == name@,
            r.version@ == any_version(),
    {
        CrateId { name: String::from_str(name), version: String::from_str("*") }
    }
}

/// Lexicographic comparison of `a` and `b` from position `i` on, by code point:
/// negative, zero or positive.
pub open spec fn cmp_from(a: Seq<char>, b: Seq<char>, i: int) -> int
    decreases a.len() - i,
{
    if i < 0 || i >= a.len() {
        if i >= 0 && i < b.len() { -1 } else { 0 }
    } else if i >= b.len() {
        1
    } else if a[i] != b[i] {
        if (a[i] as u32) < (b[i] as u32) { -1 } else { 1 }
    } else {
        cmp_from(a, b, i + 1)
    }
}

/// Lexicographic order of two strings by code point.
pub open spec fn seq_cmp(a: Seq<char>, b: Seq<char>) -> int {
    cmp_from(a, b, 0)
}

/// The order of crate identities: by name, then by version requirement.
pub open spec fn id_cmp(a: CrateId, b: CrateId) -> int {
    if seq_cmp(a.name@, b.name@) != 0 {
        seq_cmp(a.name@, b.name@)
    } else {
        seq_cmp(a.version@, b.version@)
    }
}

/// Two identities are equal when name and requirement are.
pub open spec fn id_eq(a: CrateId, b: CrateId) -> bool {
    a.name@ == b.name@ && a.version@ == b.version@
}

/// Every element is at most every later one.
pub open spec fn sorted_ids(s: Seq<Skrate>) -> bool {
    forall|i: int, j: int| 0 <= i < j < s.len() ==> id_cmp(#[trigger] s[i].value, #[trigger] s[j].value) <= 0
}

proof fn lemma_cmp_from_facts(a: Seq<char>, b: Seq<char>, i: int)
    requires
        0 <= i,
    ensures
        -1 <= cmp_from(a, b, i) <= 1,
        cmp_from(a, b, i) == -cmp_from(b, a, i),
        cmp_from(a, b, i) == 0 <==> (a.len() <= i && b.len() <= i) || (a.len() == b.len()
            && a.subrange(i, a.len() as int) =~= b.subrange(i, b.len() as int)),
    decreases a.len() - i,
{
    if i < a.len() && i < b.len() {
        if a[i] == b[i] {
            lemma_cmp_from_facts(a, b, i + 1);
            if a.len() == b.len() {
                let sa = a.subrange(i, a.len() as int);
                let sb = b.subrange(i, b.len() as int);
                if sa =~= sb {
                    assert(a.subrange(i + 1, a.len() as int) =~= sa.subrange(1, sa.len() as int));
                    assert(b.subrange(i + 1, b.len() as int) =~= sb.subrange(1, sb.len() as int));
                } else if cmp_from(a, b, i + 1) == 0 {
                    if a.len() <= i + 1 {
                    } else {
                        assert forall|k: int| 0 <= k < sa.len() implies sa[k] == sb[k] by {
                            if k > 0 {
                                assert(a.subrange(i + 1, a.len() as int)[k - 1] == sa[k]);
                                assert(b.subrange(i + 1, b.len() as int)[k - 1] == sb[k]);
                            }
                        }
                    }
                }
            }
        } else {
            assert(a.subrange(i, a.len() as int)[0] != b.subrange(i, b.len() as int)[0]);
            assert((a[i] as u32) != (b[i] as u32)) by {
                vstd::utf8::char_is_scalar(a[i]);
                vstd::utf8::char_is_scalar(b[i]);
                vstd::utf8::char_u32_cast(a[i], a[i] as u32);
                vstd::utf8::char_u32_cast(b[i], b[i] as u32);
            }
        }
    } else if i < a.len() || i < b.len() {
        if a.len() == b.len() {
        }
    }
}

proof fn lemma_cmp_from_trans(a: Seq<char>, b: Seq<char>, c: Seq<char>, i: int)
    requires
        0 <= i,
        cmp_from(a, b, i) <= 0,
        cmp_from(b, c, i) <= 0,
    ensures
        cmp_from(a, c, i) <= 0,
        cmp_from(a, b, i) < 0 || cmp_from(b, c, i) < 0 ==> cmp_from(a, c, i) < 0,
    decreases a.len() - i,
{
    if i < a.len() && i < b.len() && i < c.len() && a[i] == b[i] && b[i] == c[i] {
        lemma_cmp_from_trans(a, b, c, i + 1);
    }
}

/// `seq_cmp` is a total order on strings: antisymmetric, with zero meaning equal.
pub proof fn lemma_seq_cmp(a: Seq<char>, b: Seq<char>)
    ensures
        -1 <= seq_cmp(a, b) <= 1,
        seq_cmp(a, b) == -seq_cmp(b, a),
        seq_cmp(a, b) == 0 <==> a == b,
{
    lemma_cmp_from_facts(a, b, 0);
    if a.len() == b.len() && a.subrange(0, a.len() as int) =~= b.subrange(0, b.len() as int) {
        assert(a =~= a.subrange(0, a.len() as int));
        assert(b =~= b.subrange(0, b.len() as int));
    }
    if a == b {
        assert(a.subrange(0, a.len() as int) =~= b.subrange(0, b.len() as int));
    }
}

/// `seq_cmp` is transitive.
pub proof fn lemma_seq_cmp_trans(a: Seq<char>, b: Seq<char>, c: Seq<char>)
    requires
        seq_cmp(a, b) <= 0,
        seq_cmp(b, c) <= 0,
    ensures
        seq_cmp(a, c) <= 0,
        seq_cmp(a, b) < 0 || seq_cmp(b, c) < 0 ==> seq_cmp(a, c) < 0,
{
    lemma_cmp_from_trans(a, b, c, 0);
}

/// `id_cmp` is a total order: antisymmetric, zero exactly on equal identities,
/// and transitive.
pub proof fn lemma_id_cmp(a: CrateId, b: CrateId)
    ensures
        id_cmp(a, b) == -id_cmp(b, a),
        id_cmp(a, b) == 0 <==> id_eq(a, b),
{
    lemma_seq_cmp(a.name@, b.name@);
    lemma_seq_cmp(a.version@, b.version@);
}

/// Transitivity of `id_cmp`.
pub proof fn lemma_id_cmp_trans(a: CrateId, b: CrateId, c: CrateId)
    requires
        id_cmp(a, b) <= 0,
        id_cmp(b, c) <= 0,
    ensures
        id_cmp(a, c) <= 0,
        id_cmp(a, b) < 0 || id_cmp(b, c) < 0 ==> id_cmp(a, c) < 0,
{
    lemma_id_cmp(a, b);
    lemma_id_cmp(b, c);
    lemma_id_cmp(a, c);
    lemma_seq_cmp(a.name@, b.name@);
    lemma_seq_cmp(b.name@, c.name@);
    lemma_seq_cmp(a.name@, c.name@);
    if seq_cmp(a.name@, b.name@) <= 0 && seq_cmp(b.name@, c.name@) <= 0 {
        lemma_seq_cmp_trans(a.name@, b.name@, c.name@);
    }
    if seq_cmp(a.name@, b.name@) == 0 && seq_cmp(b.name@, c.name@) == 0 {
        lemma_seq_cmp_trans(a.version@, b.version@, c.version@);
    }
}

/// Compares two strings by code point.
pub fn compare_str(a: &str, b: &str) -> (r: Ordering)
    ensures
        (r == Ordering::Less) == (seq_cmp(a@, b@) < 0),
        (r == Ordering::Equal) == (seq_cmp(a@, b@) == 0),
        (r == Ordering::Greater) == (seq_cmp(a@, b@) > 0),
{
    proof {
        lemma_cmp_from_facts(a@, b@, 0);
    }
    let la = a.unicode_len();
    let lb = b.unicode_len();
    let mut i: usize = 0;
    while i < la && i < lb
        invariant
            la == a@.len(),
            lb == b@.len(),
            i <= la,
            i <= lb,
            cmp_from(a@, b@, 0) == cmp_from(a@, b@, i as int),
        decreases la - i,
    {
        let ca = a.get_char(i);
        let cb = b.get_char(i);
        if ca != cb {
            proof {
                lemma_cmp_from_facts(a@, b@, i as int);
            }
            if (ca as u32) < (cb as u32) {
                return Ordering::Less;
            } else {
                return Ordering::Greater;
            }
        }
        i = i + 1;
    }
    if la < lb {
        Ordering::Less
    } else if lb < la {
        Ordering::Greater
    } else {
        Ordering::Equal
    }
}

/// Compares two crate identities: by name, then by version requirement.
pub fn compare_ids(a: &CrateId, b: &CrateId) -> (r: Ordering)
    ensures
        (r == Ordering::Less) == (id_cmp(*a, *b) < 0),
        (r == Ordering::Equal) == (id_cmp(*a, *b) == 0),
        (r == Ordering::Greater) == (id_cmp(*a, *b) > 0),
{
    match compare_str(a.name.as_str(), b.name.as_str()) {
        Ordering::Equal => compare_str(a.version.as_str(), b.version.as_str()),
        other => other,
    }
}

} // verus!
