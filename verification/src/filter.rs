//! Selection of the records a run manages, by glob patterns over the
//! record names.
//!
//! Pattern compilation and matching are globset's; everything around them —
//! eager validation, the invert rule, the selection order — is decided and
//! proved here.

use vstd::prelude::*;
use crate::record::DnsRecord;

verus! {

#[verifier::external_type_specification]
#[verifier::external_body]
pub struct ExGlobSet(globset::GlobSet);

/// Whether `globset::Glob::new` accepts a pattern and the one-pattern set
/// built from it compiles: a function of the pattern text alone.
pub uninterp spec fn glob_ok(p: Seq<char>) -> bool;

/// What `globset::GlobSet::is_match` answers for a one-pattern set: a
/// function of the pattern text and the matched name alone.
pub uninterp spec fn glob_matches(p: Seq<char>, name: Seq<char>) -> bool;

/// A compiled glob pattern, remembering the text it was compiled from.
/// Built only by `compile_glob`, so the set always holds exactly the one
/// pattern of the remembered text; the fields stay private to keep that so.
pub struct GlobPattern {
    set: globset::GlobSet,
    text: Ghost<Seq<char>>,
}

impl GlobPattern {
    /// The pattern text this matcher was compiled from.
    pub closed spec fn text(self) -> Seq<char> {
        self.text@
    }
}

/// Relies on `globset::Glob::new` and `globset::GlobSetBuilder::build`,
/// which accept or refuse a pattern by its text alone and hand every
/// compilation failure back as an error (an oversized pattern is refused,
/// not a panic; only inputs near the machine's whole memory could still
/// abort, as any allocation can).
#[verifier::external_body]
fn glob_build_set(p: &str) -> (r: Option<globset::GlobSet>)
    ensures
        r is Some <==> glob_ok(p@),
{
    let glob = match globset::Glob::new(p) {
        Ok(g) => g,
        Err(_) => return None,
    };
    let mut builder = globset::GlobSetBuilder::new();
    builder.add(glob);
    match builder.build() {
        Ok(s) => Some(s),
        Err(_) => None,
    }
}

/// Compile one pattern, keeping its text alongside the compiled set.
fn compile_glob(p: &str) -> (r: Option<GlobPattern>)
    ensures
        r is Some <==> glob_ok(p@),
        r matches Some(g) ==> g.text() == p@,
{
    match glob_build_set(p) {
        Some(s) => Some(GlobPattern { set: s, text: Ghost(p@) }),
        None => None,
    }
}

/// Relies on `globset::GlobSet::is_match`: whether a name matches is a
/// function of the set's pattern texts and the name alone, and `g`'s set
/// holds exactly the one pattern compiled from the text `g` remembers.
#[verifier::external_body]
fn glob_is_match(g: &GlobPattern, name: &str) -> (r: bool)
    ensures
        r == glob_matches(g.text(), name@),
{
    g.set.is_match(name)
}

/// Which records a run manages: an ordered pattern list and the invert
/// flag.
pub struct FilterSpec {
    pub patterns: Vec<String>,
    /// With invert set (the configured default) the patterns are an
    /// exclude list; without it, an include list.
    pub invert: bool,
}

pub open spec fn pattern_views(ps: Seq<String>) -> Seq<Seq<char>> {
    ps.map_values(|p: String| p@)
}

/// Whether any of the patterns matches the name.
pub open spec fn name_matched(pats: Seq<Seq<char>>, name: Seq<char>) -> bool {
    exists|i: int| 0 <= i < pats.len() && glob_matches(pats[i], name)
}

/// The selection rule for one record.
pub open spec fn keep_record(pats: Seq<Seq<char>>, invert: bool, r: DnsRecord) -> bool {
    name_matched(pats, r.name@) != invert
}

/// The working subset: the records kept by the rule, in their given order.
pub open spec fn selected_of(records: Seq<DnsRecord>, pats: Seq<Seq<char>>, invert: bool) -> Seq<
    DnsRecord,
> {
    records.filter(|r: DnsRecord| keep_record(pats, invert, r))
}

pub open spec fn all_globs_ok(pats: Seq<Seq<char>>) -> bool {
    forall|i: int| 0 <= i < pats.len() ==> glob_ok(#[trigger] pats[i])
}

/// What filtering decides for the run.
pub enum FilterScreen {
    /// The working subset, with the listing total and the count filtered
    /// away, for reporting.
    Selected { records: Vec<DnsRecord>, total: usize, excluded: usize },
    /// The pattern at this index does not compile: misconfiguration,
    /// fatal, raised before any record is examined.
    InvalidPattern { index: usize },
    /// Every record was filtered away; benign, the run stops before any
    /// write.
    AllFiltered,
}

/// What `filter_records` decides, for every input: without a filter the
/// records pass unchanged; with one, the first pattern that does not
/// compile is fatal; otherwise the invert rule selects the working subset,
/// and an empty subset ends the run benignly.
pub open spec fn filter_decision(
    records: Seq<DnsRecord>,
    fspec: Option<&FilterSpec>,
    r: FilterScreen,
) -> bool {
    match fspec {
        None => r matches FilterScreen::Selected { records: v, total, excluded } && v@ == records
            && total == records.len() && excluded == 0,
        Some(fs) => {
            let pats = pattern_views(fs.patterns@);
            if all_globs_ok(pats) {
                let sel = selected_of(records, pats, fs.invert);
                if sel.len() == 0 {
                    r == FilterScreen::AllFiltered
                } else {
                    r matches FilterScreen::Selected { records: v, total, excluded } && v@ == sel
                        && total == records.len() && excluded == records.len() - sel.len()
                }
            } else {
                r matches FilterScreen::InvalidPattern { index } && 0 <= index < pats.len()
                    && !glob_ok(pats[index as int]) && (forall|j: int|
                    0 <= j < index ==> glob_ok(#[trigger] pats[j]))
            }
        },
    }
}

/// Apply the filter: no spec keeps everything; otherwise every pattern is
/// compiled first (the first invalid one is fatal), and each record is kept
/// or dropped by the invert rule, in order.
pub fn filter_records(records: Vec<DnsRecord>, fspec: Option<&FilterSpec>) -> (r: FilterScreen)
    ensures
        filter_decision(records@, fspec, r),
{
    let fs = match fspec {
        None => {
            let total = records.len();
            return FilterScreen::Selected { records, total, excluded: 0 };
        },
        Some(fs) => fs,
    };
    let ghost pats = pattern_views(fs.patterns@);
    let mut matchers: Vec<GlobPattern> = Vec::new();
    let mut pi: usize = 0;
    while pi < fs.patterns.len()
        invariant
            fspec == Some(fs),
            pi <= fs.patterns@.len(),
            pats == pattern_views(fs.patterns@),
            matchers@.len() == pi,
            forall|j: int| 0 <= j < pi ==> glob_ok(#[trigger] fs.patterns@[j]@),
            forall|j: int| 0 <= j < pi ==> (#[trigger] matchers@[j]).text() == fs.patterns@[j]@,
        decreases fs.patterns@.len() - pi,
    {
        let p = &fs.patterns[pi];
        match compile_glob(p.as_str()) {
            Some(g) => {
                matchers.push(g);
            },
            None => {
                proof {
                    assert(fspec == Some(fs));
                    assert(pats.len() == fs.patterns@.len());
                    assert(forall|j: int| 0 <= j < pats.len() ==> pats[j] == fs.patterns@[j]@);
                    assert(!glob_ok(pats[pi as int]));
                    assert(!all_globs_ok(pats));
                }
                return FilterScreen::InvalidPattern { index: pi };
            },
        }
        pi = pi + 1;
    }
    proof {
        assert(forall|j: int| 0 <= j < pats.len() ==> pats[j] == fs.patterns@[j]@);
    }
    let total = records.len();
    let ghost orig = records@;
    let mut rest = records;
    let mut kept: Vec<DnsRecord> = Vec::new();
    let mut excluded: usize = 0;
    proof {
        assert(orig.take(0) =~= Seq::<DnsRecord>::empty());
        assert(selected_of(orig.take(0), pats, fs.invert) =~= Seq::<DnsRecord>::empty());
        assert(orig.skip(0) =~= orig);
    }
    while rest.len() > 0
        invariant
            pats == pattern_views(fs.patterns@),
            forall|j: int| 0 <= j < matchers@.len() ==> (#[trigger] matchers@[j]).text()
                == pats[j],
            matchers@.len() == pats.len(),
            rest@.len() <= orig.len(),
            total == orig.len(),
            rest@ == orig.skip(orig.len() - rest@.len()),
            kept@ == selected_of(orig.take(orig.len() - rest@.len()), pats, fs.invert),
            kept@.len() + excluded == orig.len() - rest@.len(),
        decreases rest@.len(),
    {
        let ghost k = orig.len() - rest@.len();
        let rec = rest.remove(0);
        proof {
            assert(rec == orig[k]);
            assert(rest@ =~= orig.skip(k + 1));
            assert(orig.take(k + 1) =~= orig.take(k).push(orig[k]));
            orig.take(k).lemma_filter_push(
                orig[k],
                |r: DnsRecord| keep_record(pats, fs.invert, r),
            );
        }
        let mut matched = false;
        let mut mi: usize = 0;
        while mi < matchers.len()
            invariant
                forall|j: int| 0 <= j < matchers@.len() ==> (#[trigger] matchers@[j]).text()
                    == pats[j],
                matchers@.len() == pats.len(),
                mi <= pats.len(),
                matched == exists|j: int| 0 <= j < mi && glob_matches(#[trigger] pats[j], rec.name@),
            decreases pats.len() - mi,
        {
            if glob_is_match(&matchers[mi], rec.name.as_str()) {
                matched = true;
            }
            mi = mi + 1;
        }
        proof {
            assert(matched == name_matched(pats, rec.name@));
        }
        let keep = if fs.invert {
            !matched
        } else {
            matched
        };
        if keep {
            kept.push(rec);
        } else {
            excluded = excluded + 1;
        }
    }
    proof {
        assert(orig.take(orig.len() as int) =~= orig);
    }
    if kept.len() == 0 {
        FilterScreen::AllFiltered
    } else {
        FilterScreen::Selected { records: kept, total, excluded }
    }
}

/// Every record a filter keeps is one of the records it was given.
proof fn lemma_filter_from_input(records: Seq<DnsRecord>, pred: spec_fn(DnsRecord) -> bool)
    ensures
        forall|i: int|
            0 <= i < records.filter(pred).len() ==> records.contains(
                #[trigger] records.filter(pred)[i],
            ),
    decreases records.len(),
{
    if records.len() > 0 {
        let t = records.drop_last();
        lemma_filter_from_input(t, pred);
        assert forall|i: int| 0 <= i < records.filter(pred).len() implies records.contains(
            #[trigger] records.filter(pred)[i],
        ) by {
            let x = records.filter(pred)[i];
            assert(records =~= t.push(records.last()));
            t.lemma_filter_push(records.last(), pred);
            if i < t.filter(pred).len() {
                assert(t.contains(x));
                let j = choose|j: int| 0 <= j < t.len() && t[j] == x;
                assert(records[j] == x);
            } else {
                assert(x == records.last());
                assert(records[records.len() - 1] == x);
            }
        }
    }
}

/// With invert set (the default) a record whose name matches none of the
/// patterns is kept and one whose name matches any pattern is excluded;
/// without invert the rule is the exact dual.
pub proof fn lemma_invert_semantics(pats: Seq<Seq<char>>, r: DnsRecord)
    ensures
        keep_record(pats, true, r) <==> !name_matched(pats, r.name@),
        keep_record(pats, false, r) <==> name_matched(pats, r.name@),
{
}

/// Filtering is pure selection: the working subset is a function of the
/// records and the filter alone, every selected record is one of the input
/// records and satisfies the rule, and the subset of any prefix of the
/// input is a prefix of the subset — the input order is kept.
pub proof fn lemma_filter_pure_selection(
    records: Seq<DnsRecord>,
    pats: Seq<Seq<char>>,
    invert: bool,
)
    ensures
        forall|i: int| 0 <= i < selected_of(records, pats, invert).len() ==> records.contains(
            #[trigger] selected_of(records, pats, invert)[i],
        ),
        forall|i: int| 0 <= i < selected_of(records, pats, invert).len() ==> keep_record(
            pats,
            invert,
            #[trigger] selected_of(records, pats, invert)[i],
        ),
        forall|k: int|
            0 <= k <= records.len() ==> (#[trigger] selected_of(
                records.take(k),
                pats,
                invert,
            )).is_prefix_of(selected_of(records, pats, invert)),
{
    let pred = |r: DnsRecord| keep_record(pats, invert, r);
    lemma_filter_from_input(records, pred);
    broadcast use vstd::seq_lib::group_filter_ensures;
    assert forall|k: int|
        0 <= k <= records.len() implies (#[trigger] selected_of(
        records.take(k),
        pats,
        invert,
    )).is_prefix_of(selected_of(records, pats, invert)) by {
        assert(records =~= records.take(k) + records.skip(k));
        Seq::<DnsRecord>::filter_distributes_over_add(records.take(k), records.skip(k), pred);
    }
}

} // verus!
