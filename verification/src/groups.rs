//! Grouping: the accepted duplicates are gathered under their originals,
//! producing the duplicate-group list that hash verification works on.

use vstd::prelude::*;
use crate::record::FileRecord;
use crate::record::FileRecordView;
use crate::record::Filter;
use crate::record::filter_accepts;
use crate::record::filter_accepts_spec;
use crate::classify::Classification;
use crate::classify::views;

verus! {

/// One duplicate group: an original and the candidate duplicates gathered
/// under its normalized name.
pub struct DupGroup {
    pub original: FileRecord,
    pub duplicates: Vec<FileRecord>,
}

/// The mathematical shape of a duplicate group.
#[verifier::ext_equal]
pub struct DupGroupView {
    pub original: FileRecordView,
    pub duplicates: Seq<FileRecordView>,
}

impl View for DupGroup {
    type V = DupGroupView;

    open spec fn view(&self) -> DupGroupView {
        DupGroupView { original: self.original@, duplicates: views(self.duplicates@) }
    }
}

/// The views of a sequence of groups.
pub open spec fn group_views(s: Seq<DupGroup>) -> Seq<DupGroupView> {
    s.map_values(|g: DupGroup| g@)
}

/// Acceptance of a duplicate into `o`'s group: the filter accepts its
/// display name and it shares `o`'s normalized name.
pub open spec fn belongs_to(o: FileRecordView, f: Option<Filter>) -> spec_fn(FileRecordView) -> bool {
    |d: FileRecordView| filter_accepts_spec(f, d.name) && d.name_undup == o.name_undup
}

/// The duplicates accepted into `o`'s group, in input order.
pub open spec fn group_dups_spec(
    dups: Seq<FileRecordView>,
    o: FileRecordView,
    f: Option<Filter>,
) -> Seq<FileRecordView> {
    dups.filter(belongs_to(o, f))
}

/// The duplicate groups: one per original that gathers at least one
/// accepted duplicate, in the originals' order.
pub open spec fn build_groups_spec(
    origs: Seq<FileRecordView>,
    dups: Seq<FileRecordView>,
    f: Option<Filter>,
) -> Seq<DupGroupView>
    decreases origs.len(),
{
    if origs.len() == 0 {
        Seq::empty()
    } else {
        let rest = build_groups_spec(origs.drop_last(), dups, f);
        let g = DupGroupView {
            original: origs.last(),
            duplicates: group_dups_spec(dups, origs.last(), f),
        };
        if g.duplicates.len() > 0 {
            rest.push(g)
        } else {
            rest
        }
    }
}

/// Filtering a sequence extended by one element.
proof fn lemma_filter_push<A>(s: Seq<A>, pred: spec_fn(A) -> bool, x: A)
    ensures
        s.push(x).filter(pred) == if pred(x) {
            s.filter(pred).push(x)
        } else {
            s.filter(pred)
        },
{
    reveal(Seq::filter);
    assert(s.push(x).drop_last() =~= s);
    assert(s.push(x).last() == x);
}

/// Gathers the accepted duplicates of one original, in input order.
fn collect_group_dups(c: &Classification, o: &FileRecord, f: &Option<Filter>) -> (ds: Vec<
    FileRecord,
>)
    ensures
        views(ds@) == group_dups_spec(c@.duplicates, o@, *f),
{
    let ghost dupsv = c@.duplicates;
    let mut ds: Vec<FileRecord> = Vec::new();
    let mut j: usize = 0;
    proof {
        assert(dupsv.take(0) =~= Seq::<FileRecordView>::empty());
        reveal(Seq::filter);
        assert(views(ds@) =~= group_dups_spec(dupsv.take(0), o@, *f));
    }
    while j < c.duplicates.len()
        invariant
            j <= c.duplicates@.len(),
            dupsv == c@.duplicates,
            dupsv.len() == c.duplicates@.len(),
            views(ds@) == group_dups_spec(dupsv.take(j as int), o@, *f),
        decreases c.duplicates@.len() - j,
    {
        let ghost pre = ds@;
        let d = &c.duplicates[j];
        let accepted = filter_accepts(f, d.name.as_str());
        if accepted && d.name_undup == o.name_undup {
            ds.push(d.clone());
        }
        j = j + 1;
        proof {
            assert(dupsv.take(j as int) =~= dupsv.take(j - 1).push(dupsv[j - 1]));
            lemma_filter_push(dupsv.take(j - 1), belongs_to(o@, *f), dupsv[j - 1]);
            assert(belongs_to(o@, *f)(dupsv[j - 1]) == (filter_accepts_spec(*f, d@.name)
                && d@.name_undup == o@.name_undup));
            if belongs_to(o@, *f)(dupsv[j - 1]) {
                assert(views(ds@) =~= views(pre).push(d@));
            }
        }
    }
    proof {
        assert(dupsv.take(c.duplicates@.len() as int) =~= dupsv);
    }
    ds
}

/// Applies the name filter to the duplicates and groups what it accepts
/// under the matching originals. Originals left with no accepted duplicate
/// contribute no group.
pub fn build_groups(c: &Classification, f: &Option<Filter>) -> (groups: Vec<DupGroup>)
    ensures
        group_views(groups@) == build_groups_spec(c@.originals, c@.duplicates, *f),
{
    let ghost origs = c@.originals;
    let mut groups: Vec<DupGroup> = Vec::new();
    let mut i: usize = 0;
    proof {
        assert(origs.take(0) =~= Seq::<FileRecordView>::empty());
        assert(group_views(groups@) =~= build_groups_spec(origs.take(0), c@.duplicates, *f));
    }
    while i < c.originals.len()
        invariant
            i <= c.originals@.len(),
            origs == c@.originals,
            origs.len() == c.originals@.len(),
            group_views(groups@) == build_groups_spec(origs.take(i as int), c@.duplicates, *f),
        decreases c.originals@.len() - i,
    {
        let ghost pre = groups@;
        let o = &c.originals[i];
        let ds = collect_group_dups(c, o, f);
        if ds.len() > 0 {
            groups.push(DupGroup { original: o.clone(), duplicates: ds });
        }
        i = i + 1;
        proof {
            assert(origs.take(i as int).drop_last() =~= origs.take(i - 1));
            assert(origs.take(i as int).last() == origs[i - 1]);
            if group_dups_spec(c@.duplicates, origs[i - 1], *f).len() > 0 {
                assert(group_views(groups@) =~= group_views(pre).push(
                    DupGroupView {
                        original: origs[i - 1],
                        duplicates: group_dups_spec(c@.duplicates, origs[i - 1], *f),
                    },
                ));
            }
        }
    }
    proof {
        assert(origs.take(c.originals@.len() as int) =~= origs);
    }
    groups
}

} // verus!
