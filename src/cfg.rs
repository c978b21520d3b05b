//! The ban policy: raw lists of denied, allowed and skipped crates, and their
//! validation into sorted, conflict-free lists.
use crate::diag::{Diagnostic, Label, Severity};
use crate::ident::{
    compare_ids, id_cmp, id_eq, lemma_id_cmp, lemma_id_cmp_trans, sorted_ids, CrateId, Skrate,
    Spanned,
};
use rayon::slice::ParallelSliceMut;
use std::cmp::Ordering;
use vstd::prelude::*;

verus! {

broadcast use vstd::seq_lib::group_to_multiset_ensures;

/// How severe a finding of a check is.
#[derive(Clone, Copy, PartialEq, Eq, Structural, Debug)]
pub enum LintLevel {
    Allow,
    Warn,
    Deny,
}

/// How the graphs of duplicate crates are highlighted.
#[derive(Clone, Copy, PartialEq, Eq, Structural, Debug)]
pub enum GraphHighlight {
    /// Highlights the path to a duplicate dependency with the fewest number
    /// of total edges, which tends to make it the best candidate for removing
    SimplestPath,
    /// Highlights the path to the duplicate dependency with the lowest version
    LowestVersion,
    /// Highlights with all of the other configs
    All,
}

impl GraphHighlight {
    /// True when the simplest path is highlighted.
    pub fn simplest(self) -> (r: bool)
        ensures
            r == (self == GraphHighlight::SimplestPath || self == GraphHighlight::All),
    {
        match self {
            GraphHighlight::SimplestPath | GraphHighlight::All => true,
            GraphHighlight::LowestVersion => false,
        }
    }

    /// True when the path to the lowest version is highlighted.
    pub fn lowest_version(self) -> (r: bool)
        ensures
            r == (self == GraphHighlight::LowestVersion || self == GraphHighlight::All),
    {
        match self {
            GraphHighlight::LowestVersion | GraphHighlight::All => true,
            GraphHighlight::SimplestPath => false,
        }
    }
}

/// The highlight mode used when none is configured.
pub fn highlight() -> (r: GraphHighlight)
    ensures
        r == GraphHighlight::All,
{
    GraphHighlight::All
}

/// A crate whose transitive dependencies are exempt from the checks, down to
/// `depth` levels if given.
#[derive(Clone, Debug, PartialEq, Eq)]
pub struct TreeSkip {
    pub id: CrateId,
    pub depth: Option<usize>,
}

/// The ban policy as written by the user: unsorted and unchecked.
pub struct Config {
    /// How to handle multiple versions of the same crate
    pub multiple_versions: LintLevel,
    /// How the duplicate graphs are highlighted
    pub highlight: GraphHighlight,
    /// The crates that will cause us to emit failures
    pub deny: Vec<Spanned<CrateId>>,
    /// If specified, means only the listed crates are allowed
    pub allow: Vec<Spanned<CrateId>>,
    /// If specified, disregards the crate completely
    pub skip: Vec<Spanned<CrateId>>,
    /// If specified, disregards the crate's transitive dependencies
    /// down to a certain depth
    pub skip_tree: Vec<Spanned<TreeSkip>>,
}

impl Default for Config {
    fn default() -> (r: Config)
        ensures
            r.multiple_versions == LintLevel::Warn,
            r.highlight == GraphHighlight::All,
            r.deny@.len() == 0,
            r.allow@.len() == 0,
            r.skip@.len() == 0,
            r.skip_tree@.len() == 0,
    {
        Config {
            multiple_versions: LintLevel::Warn,
            highlight: GraphHighlight::All,
            deny: Vec::new(),
            allow: Vec::new(),
            skip: Vec::new(),
            skip_tree: Vec::new(),
        }
    }
}

/// A validated ban policy: `denied`, `allowed` and `skipped` are sorted by
/// crate identity, and no identity stands in two of them.
pub struct ValidConfig {
    pub file_id: usize,
    pub multiple_versions: LintLevel,
    pub highlight: GraphHighlight,
    pub denied: Vec<Skrate>,
    pub allowed: Vec<Skrate>,
    pub skipped: Vec<Skrate>,
    pub tree_skipped: Vec<Spanned<TreeSkip>>,
}

/// Some entry of `r` has the identity `x`.
pub open spec fn has_match(x: CrateId, r: Set<Skrate>) -> bool {
    exists|y: Skrate| r.contains(y) && id_eq(x, y.value)
}

/// Some entry of `l` has the identity of some entry of `r`.
pub open spec fn conflicts(l: Set<Skrate>, r: Set<Skrate>) -> bool {
    exists|x: Skrate| l.contains(x) && has_match(x.value, r)
}

/// The text of the label that marks an entry of category `cat`.
pub open spec fn marked_as(cat: Seq<char>) -> Seq<char> {
    "marked as `"@ + cat + "`"@
}

/// The message of a conflict between an entry of `earlier` and a later entry of `later`.
pub open spec fn conflict_message(earlier: Seq<char>, later: Seq<char>) -> Seq<char> {
    "a crate was specified in both `"@ + earlier + "` and `"@ + later + "`"@
}

/// `l` marks the span of `s` in `file` as belonging to category `cat`.
pub open spec fn is_label(l: Label, file: usize, s: Skrate, cat: Seq<char>) -> bool {
    l.file_id == file && l.span == s.span && l.message@ == marked_as(cat)
}

/// `d` is the error for entry `a` of category `acat` conflicting with entry `b`
/// of category `bcat`: the entry whose span starts later is the primary label,
/// the other one the single secondary label, and the message names the
/// earlier entry's category first.
pub open spec fn is_conflict_diag(
    d: Diagnostic,
    file: usize,
    a: Skrate,
    acat: Seq<char>,
    b: Skrate,
    bcat: Seq<char>,
) -> bool {
    &&& d.severity == Severity::Error
    &&& d.secondary@.len() == 1
    &&& if a.span.start > b.span.start {
        &&& d.message@ == conflict_message(bcat, acat)
        &&& is_label(d.primary, file, a, acat)
        &&& is_label(d.secondary@[0], file, b, bcat)
    } else {
        &&& d.message@ == conflict_message(acat, bcat)
        &&& is_label(d.primary, file, b, bcat)
        &&& is_label(d.secondary@[0], file, a, acat)
    }
}

/// `d` reports a conflict between some entry of `l` and an entry of `r` with the same identity.
pub open spec fn explained(
    d: Diagnostic,
    file: usize,
    l: Set<Skrate>,
    lcat: Seq<char>,
    r: Set<Skrate>,
    rcat: Seq<char>,
) -> bool {
    exists|x: Skrate, y: Skrate|
        l.contains(x) && r.contains(y) && id_eq(x.value, y.value) && is_conflict_diag(
            d,
            file,
            x,
            lcat,
            y,
            rcat,
        )
}

/// Some diagnostic of `ds` reports entry `x` against an entry of `r` with the same identity.
pub open spec fn reported(
    ds: Seq<Diagnostic>,
    file: usize,
    x: Skrate,
    lcat: Seq<char>,
    r: Set<Skrate>,
    rcat: Seq<char>,
) -> bool {
    exists|k: int, y: Skrate|
        #![trigger ds[k], r.contains(y)]
        0 <= k < ds.len() && r.contains(y) && id_eq(x.value, y.value) && is_conflict_diag(
            ds[k],
            file,
            x,
            lcat,
            y,
            rcat,
        )
}

/// Every entry of `l` that has a match in `r` is reported in `ds`.
pub open spec fn complete(
    ds: Seq<Diagnostic>,
    file: usize,
    l: Set<Skrate>,
    lcat: Seq<char>,
    r: Set<Skrate>,
    rcat: Seq<char>,
) -> bool {
    forall|x: Skrate| #[trigger]
        l.contains(x) && has_match(x.value, r) ==> reported(ds, file, x, lcat, r, rcat)
}

/// Some identity stands in two of `deny`, `allow` and `skip`.
pub open spec fn any_conflict(cfg: Config) -> bool {
    conflicts(cfg.deny@.to_set(), cfg.allow@.to_set()) || conflicts(
        cfg.deny@.to_set(),
        cfg.skip@.to_set(),
    ) || conflicts(cfg.allow@.to_set(), cfg.skip@.to_set())
}

/// What validating `cfg` read from `file` yields: an error exactly when some
/// identity stands in two categories, listing every such conflict and nothing
/// else; otherwise the three lists sorted, with the same entries, and the rest
/// carried over.
pub open spec fn validation_outcome(
    cfg: Config,
    file: usize,
    r: Result<ValidConfig, Vec<Diagnostic>>,
) -> bool {
    let d = cfg.deny@.to_set();
    let a = cfg.allow@.to_set();
    let s = cfg.skip@.to_set();
    &&& (r is Err <==> any_conflict(cfg))
    &&& r matches Ok(v) ==> {
        &&& v.file_id == file
        &&& v.multiple_versions == cfg.multiple_versions
        &&& v.highlight == cfg.highlight
        &&& sorted_ids(v.denied@)
        &&& sorted_ids(v.allowed@)
        &&& sorted_ids(v.skipped@)
        &&& v.denied@.to_multiset() == cfg.deny@.to_multiset()
        &&& v.allowed@.to_multiset() == cfg.allow@.to_multiset()
        &&& v.skipped@.to_multiset() == cfg.skip@.to_multiset()
        &&& v.tree_skipped@ == cfg.skip_tree@
    }
    &&& r matches Err(ds) ==> {
        &&& complete(ds@, file, d, "deny"@, a, "allow"@)
        &&& complete(ds@, file, d, "deny"@, s, "skip"@)
        &&& complete(ds@, file, a, "allow"@, s, "skip"@)
        &&& forall|k: int|
            0 <= k < ds@.len() ==> explained(#[trigger] ds@[k], file, d, "deny"@, a, "allow"@)
                || explained(ds@[k], file, d, "deny"@, s, "skip"@) || explained(
                ds@[k],
                file,
                a,
                "allow"@,
                s,
                "skip"@,
            )
    }
}

/// Relies on rayon's `ParallelSliceMut::par_sort_by`: it permutes the slice
/// into ascending order of the comparator, here the total order `compare_ids`.
#[verifier::external_body]
fn par_sort_ids(v: &mut Vec<Skrate>)
    ensures
        final(v)@.to_multiset() == old(v)@.to_multiset(),
        sorted_ids(final(v)@),
{
    v.par_sort_by(|a, b| compare_ids(&a.value, &b.value))
}

/// Binary search of the sorted `v` for an entry with identity `key`.
pub fn find_match(v: &Vec<Skrate>, key: &CrateId) -> (r: Option<usize>)
    requires
        sorted_ids(v@),
    ensures
        r matches Some(j) ==> j < v@.len() && id_eq(v@[j as int].value, *key),
        r is None ==> forall|j: int| 0 <= j < v@.len() ==> !id_eq(#[trigger] v@[j].value, *key),
{
    let mut lo: usize = 0;
    let mut hi: usize = v.len();
    while lo < hi
        invariant
            lo <= hi <= v@.len(),
            sorted_ids(v@),
            forall|j: int| 0 <= j < lo ==> id_cmp(#[trigger] v@[j].value, *key) < 0,
            forall|j: int| hi <= j < v@.len() ==> id_cmp(#[trigger] v@[j].value, *key) > 0,
        decreases hi - lo,
    {
        let mid = lo + (hi - lo) / 2;
        match compare_ids(&v[mid].value, key) {
            Ordering::Less => {
                proof {
                    assert forall|j: int| 0 <= j <= mid implies id_cmp(
                        #[trigger] v@[j].value,
                        *key,
                    ) < 0 by {
                        if j < mid {
                            lemma_id_cmp_trans(v@[j].value, v@[mid as int].value, *key);
                        }
                    }
                }
                lo = mid + 1;
            },
            Ordering::Greater => {
                proof {
                    assert forall|j: int| mid <= j < v@.len() implies id_cmp(
                        #[trigger] v@[j].value,
                        *key,
                    ) > 0 by {
                        lemma_id_cmp(v@[mid as int].value, *key);
                        lemma_id_cmp(v@[j].value, *key);
                        if j > mid {
                            lemma_id_cmp_trans(*key, v@[mid as int].value, v@[j].value);
                            lemma_id_cmp(*key, v@[j].value);
                        }
                    }
                }
                hi = mid;
            },
            Ordering::Equal => {
                proof {
                    lemma_id_cmp(v@[mid as int].value, *key);
                }
                return Some(mid);
            },
        }
    }
    proof {
        assert forall|j: int| 0 <= j < v@.len() implies !id_eq(#[trigger] v@[j].value, *key) by {
            lemma_id_cmp(v@[j].value, *key);
        }
    }
    None
}

/// The label that marks `s` in `file` as belonging to category `cat`.
fn marked_label(s: &Skrate, cat: &str, file: usize) -> (r: Label)
    ensures
        is_label(r, file, *s, cat@),
{
    let mut message = String::from_str("marked as `");
    message.append(cat);
    message.append("`");
    Label { file_id: file, span: s.span, message }
}

/// The conflict error for `first` of category `fcat` against `second` of category `scat`.
pub fn conflict_diag(first: &Skrate, fcat: &str, second: &Skrate, scat: &str, file: usize) -> (r:
    Diagnostic)
    ensures
        is_conflict_diag(r, file, *first, fcat@, *second, scat@),
{
    let flabel = marked_label(first, fcat, file);
    let slabel = marked_label(second, scat, file);
    // The entry declared last is the primary label: the earlier one was fine
    // until this one was added.
    let (primary, secondary, earlier, later) = if first.span.start > second.span.start {
        (flabel, slabel, scat, fcat)
    } else {
        (slabel, flabel, fcat, scat)
    };
    let mut message = String::from_str("a crate was specified in both `");
    message.append(earlier);
    message.append("` and `");
    message.append(later);
    message.append("`");
    let mut d = Diagnostic::new_error(message, primary);
    d.secondary.push(secondary);
    d
}

proof fn lemma_reported_grows(
    ds1: Seq<Diagnostic>,
    ds2: Seq<Diagnostic>,
    file: usize,
    x: Skrate,
    lcat: Seq<char>,
    r: Set<Skrate>,
    rcat: Seq<char>,
)
    requires
        ds1.len() <= ds2.len(),
        forall|k: int| 0 <= k < ds1.len() ==> ds2[k] == ds1[k],
        reported(ds1, file, x, lcat, r, rcat),
    ensures
        reported(ds2, file, x, lcat, r, rcat),
{
    let (k, y) = choose|k: int, y: Skrate|
        #![trigger ds1[k], r.contains(y)]
        0 <= k < ds1.len() && r.contains(y) && id_eq(x.value, y.value) && is_conflict_diag(
            ds1[k],
            file,
            x,
            lcat,
            y,
            rcat,
        );
    assert(ds2[k] == ds1[k]);
}

proof fn lemma_complete_grows(
    ds1: Seq<Diagnostic>,
    ds2: Seq<Diagnostic>,
    file: usize,
    l: Set<Skrate>,
    lcat: Seq<char>,
    r: Set<Skrate>,
    rcat: Seq<char>,
)
    requires
        ds1.len() <= ds2.len(),
        forall|k: int| 0 <= k < ds1.len() ==> ds2[k] == ds1[k],
        complete(ds1, file, l, lcat, r, rcat),
    ensures
        complete(ds2, file, l, lcat, r, rcat),
{
    assert forall|x: Skrate| #[trigger]
        l.contains(x) && has_match(x.value, r) implies reported(ds2, file, x, lcat, r, rcat) by {
        lemma_reported_grows(ds1, ds2, file, x, lcat, r, rcat);
    }
}

proof fn lemma_same_set(a: Seq<Skrate>, b: Seq<Skrate>)
    requires
        a.to_multiset() == b.to_multiset(),
    ensures
        a.to_set() == b.to_set(),
{
    assert forall|x: Skrate| a.to_set().contains(x) == b.to_set().contains(x) by {
        assert(a.contains(x) <==> a.to_multiset().count(x) > 0);
        assert(b.contains(x) <==> b.to_multiset().count(x) > 0);
    }
    assert(a.to_set() =~= b.to_set());
}

/// Appends to `diags` one conflict error for each entry of `left` whose
/// identity also stands in the sorted `right`.
fn check_pair(
    left: &Vec<Skrate>,
    lcat: &str,
    right: &Vec<Skrate>,
    rcat: &str,
    file: usize,
    diags: &mut Vec<Diagnostic>,
)
    requires
        sorted_ids(right@),
    ensures
        final(diags)@.len() >= old(diags)@.len(),
        forall|k: int| 0 <= k < old(diags)@.len() ==> final(diags)@[k] == old(diags)@[k],
        forall|k: int|
            old(diags)@.len() <= k < final(diags)@.len() ==> explained(
                #[trigger] final(diags)@[k],
                file,
                left@.to_set(),
                lcat@,
                right@.to_set(),
                rcat@,
            ),
        complete(final(diags)@, file, left@.to_set(), lcat@, right@.to_set(), rcat@),
        final(diags)@.len() > old(diags)@.len() <==> conflicts(left@.to_set(), right@.to_set()),
{
    let ghost start = diags@;
    let ghost lset = left@.to_set();
    let ghost rset = right@.to_set();
    let mut i: usize = 0;
    while i < left.len()
        invariant
            i <= left@.len(),
            sorted_ids(right@),
            lset == left@.to_set(),
            rset == right@.to_set(),
            diags@.len() >= start.len(),
            forall|k: int| 0 <= k < start.len() ==> diags@[k] == start[k],
            forall|k: int|
                start.len() <= k < diags@.len() ==> explained(
                    #[trigger] diags@[k],
                    file,
                    lset,
                    lcat@,
                    rset,
                    rcat@,
                ),
            forall|m: int|
                0 <= m < i && has_match(#[trigger] left@[m].value, rset) ==> reported(
                    diags@,
                    file,
                    left@[m],
                    lcat@,
                    rset,
                    rcat@,
                ),
            forall|m: int|
                0 <= m < i && has_match(#[trigger] left@[m].value, rset) ==> diags@.len()
                    > start.len(),
            diags@.len() > start.len() ==> conflicts(lset, rset),
        decreases left@.len() - i,
    {
        assert(left@.contains(left@[i as int]));
        match find_match(right, &left[i].value) {
            Some(j) => {
                let d = conflict_diag(&left[i], lcat, &right[j], rcat, file);
                let ghost before = diags@;
                diags.push(d);
                proof {
                    assert(right@.contains(right@[j as int]));
                    assert(lset.contains(left@[i as int]));
                    assert(rset.contains(right@[j as int]));
                    assert(explained(d, file, lset, lcat@, rset, rcat@));
                    assert(diags@[before.len() as int] == d);
                    assert(reported(diags@, file, left@[i as int], lcat@, rset, rcat@));
                    assert forall|m: int|
                        0 <= m < i && has_match(#[trigger] left@[m].value, rset) implies reported(
                        diags@,
                        file,
                        left@[m],
                        lcat@,
                        rset,
                        rcat@,
                    ) by {
                        lemma_reported_grows(before, diags@, file, left@[m], lcat@, rset, rcat@);
                    }
                    assert(has_match(left@[i as int].value, rset));
                }
            },
            None => {
                proof {
                    assert(!has_match(left@[i as int].value, rset));
                }
            },
        }
        i = i + 1;
    }
    proof {
        assert forall|x: Skrate| #[trigger]
            lset.contains(x) && has_match(x.value, rset) implies reported(
            diags@,
            file,
            x,
            lcat@,
            rset,
            rcat@,
        ) by {
            let m = choose|m: int| 0 <= m < left@.len() && left@[m] == x;
            assert(has_match(left@[m].value, rset));
        }
        if conflicts(lset, rset) {
            let x = choose|x: Skrate| lset.contains(x) && has_match(x.value, rset);
            let m = choose|m: int| 0 <= m < left@.len() && left@[m] == x;
            assert(has_match(left@[m].value, rset));
        }
    }
}

impl Config {
    /// Sorts the three lists and checks that no crate identity stands in two
    /// of them. Every conflict is reported; the error holds them all.
    pub fn validate(self, cfg_file: usize) -> (r: Result<ValidConfig, Vec<Diagnostic>>)
        ensures
            validation_outcome(self, cfg_file, r),
    {
        let ghost cfg = self;
        let Config { multiple_versions, highlight, deny, allow, skip, skip_tree } = self;
        let mut denied = deny;
        par_sort_ids(&mut denied);
        let mut allowed = allow;
        par_sort_ids(&mut allowed);
        let mut skipped = skip;
        par_sort_ids(&mut skipped);
        proof {
            lemma_same_set(denied@, cfg.deny@);
            lemma_same_set(allowed@, cfg.allow@);
            lemma_same_set(skipped@, cfg.skip@);
        }
        let mut diagnostics: Vec<Diagnostic> = Vec::new();
        check_pair(&denied, "deny", &allowed, "allow", cfg_file, &mut diagnostics);
        let ghost ds1 = diagnostics@;
        check_pair(&denied, "deny", &skipped, "skip", cfg_file, &mut diagnostics);
        let ghost ds2 = diagnostics@;
        check_pair(&allowed, "allow", &skipped, "skip", cfg_file, &mut diagnostics);
        proof {
            let ds = diagnostics@;
            let d = cfg.deny@.to_set();
            let a = cfg.allow@.to_set();
            let s = cfg.skip@.to_set();
            lemma_complete_grows(ds1, ds, cfg_file, d, "deny"@, a, "allow"@);
            lemma_complete_grows(ds2, ds, cfg_file, d, "deny"@, s, "skip"@);
            assert forall|k: int| 0 <= k < ds.len() implies explained(
                #[trigger] ds[k],
                cfg_file,
                d,
                "deny"@,
                a,
                "allow"@,
            ) || explained(ds[k], cfg_file, d, "deny"@, s, "skip"@) || explained(
                ds[k],
                cfg_file,
                a,
                "allow"@,
                s,
                "skip"@,
            ) by {
                if k < ds1.len() {
                    assert(ds[k] == ds2[k]);
                    assert(ds2[k] == ds1[k]);
                } else if k < ds2.len() {
                    assert(ds[k] == ds2[k]);
                }
            }
        }
        if diagnostics.len() > 0 {
            Err(diagnostics)
        } else {
            Ok(
                ValidConfig {
                    file_id: cfg_file,
                    multiple_versions,
                    highlight,
                    denied,
                    allowed,
                    skipped,
                    tree_skipped: skip_tree,
                },
            )
        }
    }
}

/// A crate denied by entry `x` and allowed by entry `y`, where `y` is the only
/// allowed entry with that identity, makes validation fail; one of the
/// errors has as primary label the span of the two that starts later, and
/// the other span as secondary label.
pub proof fn lemma_deny_allow_conflict_reported(
    cfg: Config,
    file: usize,
    r: Result<ValidConfig, Vec<Diagnostic>>,
    x: Skrate,
    y: Skrate,
)
    requires
        validation_outcome(cfg, file, r),
        cfg.deny@.contains(x),
        cfg.allow@.contains(y),
        id_eq(x.value, y.value),
        forall|z: Skrate| cfg.allow@.contains(z) && id_eq(z.value, y.value) ==> z == y,
    ensures
        r is Err,
        exists|k: int|
            0 <= k < r->Err_0@.len() && {
                let d = #[trigger] r->Err_0@[k];
                &&& d.primary.span.start == if x.span.start > y.span.start {
                    x.span.start
                } else {
                    y.span.start
                }
                &&& d.primary.span == if x.span.start > y.span.start {
                    x.span
                } else {
                    y.span
                }
                &&& d.secondary@[0].span == if x.span.start > y.span.start {
                    y.span
                } else {
                    x.span
                }
            },
{
    let d = cfg.deny@.to_set();
    let a = cfg.allow@.to_set();
    assert(a.contains(y));
    assert(d.contains(x));
    assert(has_match(x.value, a));
    assert(conflicts(d, a));
    let ds = r->Err_0@;
    assert(complete(ds, file, d, "deny"@, a, "allow"@));
    assert(reported(ds, file, x, "deny"@, a, "allow"@));
    let (k, w) = choose|k: int, w: Skrate|
        #![trigger ds[k], a.contains(w)]
        0 <= k < ds.len() && a.contains(w) && id_eq(x.value, w.value) && is_conflict_diag(
            ds[k],
            file,
            x,
            "deny"@,
            w,
            "allow"@,
        );
    assert(cfg.allow@.contains(w));
    assert(w == y);
    assert(ds[k] == r->Err_0@[k]);
}

} // verus!
