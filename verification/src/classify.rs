//! The name/size classifier: partitions file records into a canonical
//! "originals" table (one per normalized name) and a set of duplicates.
//!
//! Records are folded into the state one at a time; each step is the
//! atomic lookup-decide-update of one record under its normalized-name key.
//! A caller that collects records concurrently hands them to this fold one
//! by one (a message-passing reduction), so the per-key decision sequence
//! is serialized exactly as the step function states.

use vstd::prelude::*;
use vstd::multiset::Multiset;
use crate::record::FileRecord;
use crate::record::FileRecordView;

verus! {

/// The views of a sequence of records.
pub open spec fn views(s: Seq<FileRecord>) -> Seq<FileRecordView> {
    s.map_values(|r: FileRecord| r@)
}

/// True when some original already holds this normalized name.
pub open spec fn has_original(origs: Seq<FileRecordView>, key: Seq<char>) -> bool {
    exists|i: int| 0 <= i < origs.len() && origs[i].name_undup == key
}

/// The index of the original holding this normalized name.
pub open spec fn original_index(origs: Seq<FileRecordView>, key: Seq<char>) -> int {
    choose|i: int| 0 <= i < origs.len() && origs[i].name_undup == key
}

/// No two originals share a normalized name.
pub open spec fn distinct_keys(origs: Seq<FileRecordView>) -> bool {
    forall|i: int, j: int|
        0 <= i < j < origs.len() ==> origs[i].name_undup != origs[j].name_undup
}

/// The classifier's state: the current originals and the duplicates found
/// so far.
pub struct Classification {
    pub originals: Vec<FileRecord>,
    pub duplicates: Vec<FileRecord>,
}

/// The mathematical shape of the classifier's state.
#[verifier::ext_equal]
pub struct ClassificationView {
    pub originals: Seq<FileRecordView>,
    pub duplicates: Seq<FileRecordView>,
}

impl View for Classification {
    type V = ClassificationView;

    open spec fn view(&self) -> ClassificationView {
        ClassificationView {
            originals: views(self.originals@),
            duplicates: views(self.duplicates@),
        }
    }
}

impl ClassificationView {
    /// The state before any record was seen.
    pub open spec fn empty() -> ClassificationView {
        ClassificationView { originals: Seq::empty(), duplicates: Seq::empty() }
    }
}

/// One classification step. For a record `r`:
/// - no original holds `r`'s normalized name: `r` becomes its original;
/// - the existing original has a different size: the two files merely share
///   a name, the state is left unchanged;
/// - `r`'s display name is strictly shorter: `r` takes the existing
///   original's place and the displaced record becomes a duplicate;
/// - otherwise `r` is a duplicate of the existing original.
pub open spec fn classify_step(st: ClassificationView, r: FileRecordView) -> ClassificationView {
    if !has_original(st.originals, r.name_undup) {
        ClassificationView { originals: st.originals.push(r), duplicates: st.duplicates }
    } else {
        let i = original_index(st.originals, r.name_undup);
        let ex = st.originals[i];
        if ex.size != r.size {
            st
        } else if r.name.len() < ex.name.len() {
            ClassificationView {
                originals: st.originals.update(i, r),
                duplicates: st.duplicates.push(ex),
            }
        } else {
            ClassificationView { originals: st.originals, duplicates: st.duplicates.push(r) }
        }
    }
}

/// The reassignment announced by one step, if any: the new original's
/// display name paired with the displaced original's display name.
pub open spec fn reassignment_event(st: ClassificationView, r: FileRecordView) -> Option<
    (Seq<char>, Seq<char>),
> {
    if has_original(st.originals, r.name_undup) {
        let ex = st.originals[original_index(st.originals, r.name_undup)];
        if ex.size == r.size && r.name.len() < ex.name.len() {
            Some((r.name, ex.name))
        } else {
            None
        }
    } else {
        None
    }
}

/// The state after folding a whole sequence of records, in order.
pub open spec fn classify_all(st: ClassificationView, rs: Seq<FileRecordView>) -> ClassificationView
    decreases rs.len(),
{
    if rs.len() == 0 {
        st
    } else {
        classify_all(classify_step(st, rs[0]), rs.drop_first())
    }
}

/// Every reassignment announced while folding a whole sequence, in order.
pub open spec fn reassign_log(st: ClassificationView, rs: Seq<FileRecordView>) -> Seq<
    (Seq<char>, Seq<char>),
>
    decreases rs.len(),
{
    if rs.len() == 0 {
        Seq::empty()
    } else {
        let rest = reassign_log(classify_step(st, rs[0]), rs.drop_first());
        match reassignment_event(st, rs[0]) {
            Some(e) => seq![e] + rest,
            None => rest,
        }
    }
}

/// The views of a sequence of reassignment log entries.
pub open spec fn log_views(s: Seq<(String, String)>) -> Seq<(Seq<char>, Seq<char>)> {
    s.map_values(|p: (String, String)| (p.0@, p.1@))
}

/// With distinct keys, the original holding a key sits at exactly one index.
proof fn lemma_original_index_is(origs: Seq<FileRecordView>, key: Seq<char>, i: int)
    requires
        distinct_keys(origs),
        0 <= i < origs.len(),
        origs[i].name_undup == key,
    ensures
        original_index(origs, key) == i,
{
    let j = original_index(origs, key);
    assert(0 <= j < origs.len() && origs[j].name_undup == key);
}

impl Classification {
    /// The state is well formed when no two originals share a key.
    pub open spec fn wf(self) -> bool {
        distinct_keys(self@.originals)
    }

    /// The empty classification.
    pub fn new() -> (c: Classification)
        ensures
            c@ == ClassificationView::empty(),
            c.wf(),
    {
        let c = Classification { originals: Vec::new(), duplicates: Vec::new() };
        proof {
            assert(c@ =~= ClassificationView::empty());
        }
        c
    }

    /// Finds the index of the original holding this normalized name.
    fn find_original(&self, key: &String) -> (idx: Option<usize>)
        ensures
            match idx {
                Some(i) => i < self@.originals.len() && self@.originals[i as int].name_undup
                    == key@,
                None => !has_original(self@.originals, key@),
            },
    {
        let mut i: usize = 0;
        while i < self.originals.len()
            invariant
                i <= self@.originals.len(),
                forall|j: int| 0 <= j < i ==> self@.originals[j].name_undup != key@,
            decreases self@.originals.len() - i,
        {
            if self.originals[i].name_undup == *key {
                return Some(i);
            }
            i = i + 1;
        }
        None
    }

    /// Applies one classification step for `r`, returning the reassignment
    /// it announces, if any.
    pub fn classify_record(&mut self, r: FileRecord) -> (ev: Option<(String, String)>)
        requires
            old(self).wf(),
        ensures
            final(self)@ == classify_step(old(self)@, r@),
            final(self).wf(),
            (match ev {
                Some(e) => reassignment_event(old(self)@, r@) == Some((e.0@, e.1@)),
                None => reassignment_event(old(self)@, r@) is None,
            }),
    {
        let ghost st = self@;
        match self.find_original(&r.name_undup) {
            None => {
                self.originals.push(r);
                proof {
                    assert(self@.originals =~= st.originals.push(r@));
                    assert(self@ =~= classify_step(st, r@));
                }
                None
            },
            Some(i) => {
                proof {
                    lemma_original_index_is(st.originals, r@.name_undup, i as int);
                }
                if self.originals[i].size != r.size {
                    proof {
                        assert(self@ =~= classify_step(st, r@));
                    }
                    None
                } else if r.name.as_str().unicode_len()
                    < self.originals[i].name.as_str().unicode_len() {
                    let ev = Some((r.name.clone(), self.originals[i].name.clone()));
                    self.originals.push(r);
                    let ex = self.originals.swap_remove(i);
                    self.duplicates.push(ex);
                    proof {
                        assert(self@.originals =~= st.originals.update(i as int, r@));
                        assert(self@.duplicates =~= st.duplicates.push(st.originals[i as int]));
                        assert(self@ =~= classify_step(st, r@));
                        assert forall|a: int, b: int|
                            0 <= a < b < self@.originals.len() implies self@.originals[a].name_undup
                            != self@.originals[b].name_undup by {
                            assert(st.originals[a].name_undup != st.originals[b].name_undup);
                        }
                    }
                    ev
                } else {
                    self.duplicates.push(r);
                    proof {
                        assert(self@.duplicates =~= st.duplicates.push(r@));
                        assert(self@ =~= classify_step(st, r@));
                    }
                    None
                }
            },
        }
    }
}

/// Folds every record into an empty classification, in input order, and
/// collects the reassignment log. The choice among equal-length display
/// names falls to whichever record arrives first; a strictly shorter name
/// always wins regardless of order.
pub fn dedup_name_size(files: &Vec<FileRecord>) -> (res: (Classification, Vec<(String, String)>))
    ensures
        res.0@ == classify_all(ClassificationView::empty(), views(files@)),
        res.0.wf(),
        log_views(res.1@) == reassign_log(ClassificationView::empty(), views(files@)),
{
    let ghost rs = views(files@);
    let mut c = Classification::new();
    let mut log: Vec<(String, String)> = Vec::new();
    let mut i: usize = 0;
    proof {
        assert(rs.skip(0) =~= rs);
    }
    while i < files.len()
        invariant
            i <= files.len(),
            rs == views(files@),
            rs.len() == files@.len(),
            c.wf(),
            classify_all(c@, rs.skip(i as int)) == classify_all(ClassificationView::empty(), rs),
            log_views(log@) + reassign_log(c@, rs.skip(i as int)) == reassign_log(
                ClassificationView::empty(),
                rs,
            ),
        decreases files@.len() - i,
    {
        let ghost st = c@;
        let ghost tail = rs.skip(i as int);
        let r = files[i].clone();
        proof {
            assert(tail[0] == rs[i as int]);
            assert(tail.drop_first() =~= rs.skip(i as int + 1));
            assert(r@ == rs[i as int]);
        }
        let ev = c.classify_record(r);
        match ev {
            Some(e) => {
                let ghost lg = log@;
                log.push(e);
                proof {
                    assert(log_views(log@) =~= log_views(lg).push((e.0@, e.1@)));
                    assert(seq![(e.0@, e.1@)] + reassign_log(c@, tail.drop_first()) =~= reassign_log(
                        st,
                        tail,
                    ));
                    assert(log_views(lg).push((e.0@, e.1@)) + reassign_log(c@, tail.drop_first())
                        =~= log_views(lg) + reassign_log(st, tail));
                }
            },
            None => {
                proof {
                    assert(reassign_log(c@, tail.drop_first()) =~= reassign_log(st, tail));
                }
            },
        }
        i = i + 1;
    }
    proof {
        assert(rs.skip(files@.len() as int) =~= Seq::<FileRecordView>::empty());
        assert(log_views(log@) + reassign_log(c@, Seq::empty()) =~= log_views(log@));
    }
    (c, log)
}

/// Sizes are coherent in a record sequence when records sharing a
/// normalized name share a size.
pub open spec fn size_coherent(s: Seq<FileRecordView>) -> bool {
    forall|i: int, j: int|
        0 <= i < s.len() && 0 <= j < s.len() && s[i].name_undup == s[j].name_undup ==> s[i].size
            == s[j].size
}

/// Size coherence carries over to any sequence drawn from a coherent one.
proof fn lemma_size_coherent_from(a: Seq<FileRecordView>, b: Seq<FileRecordView>)
    requires
        size_coherent(b),
        forall|i: int| 0 <= i < a.len() ==> b.contains(#[trigger] a[i]),
    ensures
        size_coherent(a),
{
    assert forall|i: int, j: int|
        0 <= i < a.len() && 0 <= j < a.len() && a[i].name_undup == a[j].name_undup implies a[i].size
        == a[j].size by {
        let bi = choose|k: int| 0 <= k < b.len() && b[k] == a[i];
        let bj = choose|k: int| 0 <= k < b.len() && b[k] == a[j];
        assert(b[bi].size == b[bj].size);
    }
}

/// The fold moves each record into exactly one side: together, originals
/// and duplicates grow by exactly the records folded in.
proof fn lemma_partition_fold(st: ClassificationView, rs: Seq<FileRecordView>)
    requires
        size_coherent(st.originals + rs),
    ensures
        ({
            let c = classify_all(st, rs);
            c.originals.to_multiset().add(c.duplicates.to_multiset())
                == st.originals.to_multiset().add(st.duplicates.to_multiset()).add(rs.to_multiset())
        }),
    decreases rs.len(),
{
    broadcast use vstd::seq_lib::group_to_multiset_ensures;
    broadcast use vstd::multiset::group_multiset_axioms;

    let a = st.originals;
    let d = st.duplicates;
    if rs.len() == 0 {
        assert(rs.to_multiset() =~= Multiset::<FileRecordView>::empty());
        assert(a.to_multiset().add(d.to_multiset()).add(rs.to_multiset()) =~= a.to_multiset().add(
            d.to_multiset(),
        ));
    } else {
        let r = rs[0];
        let rest = rs.drop_first();
        let st2 = classify_step(st, r);
        assert(rs =~= rest.insert(0, r));
        vstd::seq_lib::to_multiset_insert(rest, 0, r);
        assert((a + rs)[a.len() as int] == r);
        if !has_original(a, r.name_undup) {
            assert forall|i: int| 0 <= i < (st2.originals + rest).len() implies (a + rs).contains(
                #[trigger] (st2.originals + rest)[i],
            ) by {
                if i < a.len() + 1 {
                    assert((a + rs)[if i < a.len() { i } else { a.len() as int }] == (st2.originals
                        + rest)[i]);
                } else {
                    assert((a + rs)[i] == (st2.originals + rest)[i]);
                }
            }
            lemma_size_coherent_from(st2.originals + rest, a + rs);
            lemma_partition_fold(st2, rest);
            assert(st2.originals.to_multiset() =~= a.to_multiset().insert(r));
            assert(a.to_multiset().insert(r).add(d.to_multiset()).add(rest.to_multiset())
                =~= a.to_multiset().add(d.to_multiset()).add(rest.to_multiset().insert(r)));
        } else {
            let i = original_index(a, r.name_undup);
            let ex = a[i];
            assert((a + rs)[i] == ex);
            assert(ex.size == r.size);
            if r.name.len() < ex.name.len() {
                assert forall|k: int| 0 <= k < (st2.originals + rest).len() implies (a
                    + rs).contains(#[trigger] (st2.originals + rest)[k]) by {
                    if k < a.len() {
                        if k == i {
                            assert((a + rs)[a.len() as int] == (st2.originals + rest)[k]);
                        } else {
                            assert((a + rs)[k] == (st2.originals + rest)[k]);
                        }
                    } else {
                        assert((a + rs)[k + 1] == (st2.originals + rest)[k]);
                    }
                }
                lemma_size_coherent_from(st2.originals + rest, a + rs);
                lemma_partition_fold(st2, rest);
                vstd::seq_lib::to_multiset_update(a, i, r);
                assert(a.to_multiset().count(ex) > 0);
                assert(a.to_multiset().insert(r).remove(ex).add(
                    d.to_multiset().insert(ex),
                ).add(rest.to_multiset()) =~= a.to_multiset().add(d.to_multiset()).add(
                    rest.to_multiset().insert(r),
                ));
            } else {
                assert forall|k: int| 0 <= k < (st2.originals + rest).len() implies (a
                    + rs).contains(#[trigger] (st2.originals + rest)[k]) by {
                    if k < a.len() {
                        assert((a + rs)[k] == (st2.originals + rest)[k]);
                    } else {
                        assert((a + rs)[k + 1] == (st2.originals + rest)[k]);
                    }
                }
                lemma_size_coherent_from(st2.originals + rest, a + rs);
                lemma_partition_fold(st2, rest);
                assert(st2.duplicates.to_multiset() =~= d.to_multiset().insert(r));
                assert(a.to_multiset().add(d.to_multiset().insert(r)).add(rest.to_multiset())
                    =~= a.to_multiset().add(d.to_multiset()).add(rest.to_multiset().insert(r)));
            }
        }
    }
}

/// Classification partitions its input. When records that share a
/// normalized name share a size, every input record ends up in exactly one
/// of the two output collections: originals and duplicates together hold
/// precisely the input records.
pub proof fn lemma_classification_partitions(rs: Seq<FileRecordView>)
    ensures
        size_coherent(rs) ==> ({
            let c = classify_all(ClassificationView::empty(), rs);
            c.originals.to_multiset().add(c.duplicates.to_multiset()) == rs.to_multiset()
        }),
{
    broadcast use vstd::seq_lib::group_to_multiset_ensures;
    broadcast use vstd::multiset::group_multiset_axioms;

    if size_coherent(rs) {
        let st = ClassificationView::empty();
        assert(st.originals + rs =~= rs);
        lemma_partition_fold(st, rs);
        assert(st.originals.to_multiset() =~= Multiset::<FileRecordView>::empty());
        assert(st.duplicates.to_multiset() =~= Multiset::<FileRecordView>::empty());
        let c = classify_all(st, rs);
        assert(st.originals.to_multiset().add(st.duplicates.to_multiset()).add(rs.to_multiset())
            =~= rs.to_multiset());
    }
}

/// `d` has an original among `origs` sharing both its normalized name and
/// its size.
pub open spec fn covered_by(origs: Seq<FileRecordView>, d: FileRecordView) -> bool {
    exists|i: int|
        0 <= i < origs.len() && origs[i].name_undup == d.name_undup && origs[i].size == d.size
}

/// Every duplicate has, at the same time, an original that holds its
/// normalized name and its size.
pub open spec fn dup_covered(st: ClassificationView) -> bool {
    forall|j: int|
        0 <= j < st.duplicates.len() ==> covered_by(st.originals, #[trigger] st.duplicates[j])
}

/// One step never ties a duplicate to an original of another size.
proof fn lemma_dup_covered_step(st: ClassificationView, r: FileRecordView)
    requires
        dup_covered(st),
    ensures
        dup_covered(classify_step(st, r)),
{
    let st2 = classify_step(st, r);
    assert forall|j: int| 0 <= j < st2.duplicates.len() implies covered_by(
        st2.originals,
        #[trigger] st2.duplicates[j],
    ) by {
        if !has_original(st.originals, r.name_undup) {
            let d = st2.duplicates[j];
            assert(d == st.duplicates[j]);
            assert(covered_by(st.originals, d));
            let w = choose|i: int|
                0 <= i < st.originals.len() && st.originals[i].name_undup == d.name_undup
                    && st.originals[i].size == d.size;
            assert(st2.originals[w] == st.originals[w]);
            assert(st2.originals[w].name_undup == d.name_undup && st2.originals[w].size == d.size);
        } else {
            let i = original_index(st.originals, r.name_undup);
            let ex = st.originals[i];
            assert(0 <= i < st.originals.len() && ex.name_undup == r.name_undup);
            if ex.size == r.size && r.name.len() < ex.name.len() {
                let d = st2.duplicates[j];
                if j < st.duplicates.len() {
                    assert(d == st.duplicates[j]);
                    assert(covered_by(st.originals, d));
                    let w = choose|k: int|
                        0 <= k < st.originals.len() && st.originals[k].name_undup == d.name_undup
                            && st.originals[k].size == d.size;
                    if w == i {
                        assert(st2.originals[i] == r);
                        assert(st2.originals[i].name_undup == d.name_undup && st2.originals[i].size
                            == d.size);
                    } else {
                        assert(st2.originals[w] == st.originals[w]);
                        assert(st2.originals[w].name_undup == d.name_undup && st2.originals[w].size
                            == d.size);
                    }
                } else {
                    assert(d == ex);
                    assert(st2.originals[i] == r);
                    assert(st2.originals[i].name_undup == d.name_undup && st2.originals[i].size
                        == d.size);
                }
            } else if ex.size == r.size {
                let d = st2.duplicates[j];
                if j < st.duplicates.len() {
                    assert(d == st.duplicates[j]);
                    assert(covered_by(st.originals, d));
                } else {
                    assert(d == r);
                    assert(st2.originals[i].name_undup == d.name_undup && st2.originals[i].size
                        == d.size);
                }
            } else {
                let d = st2.duplicates[j];
                assert(d == st.duplicates[j]);
                assert(covered_by(st.originals, d));
            }
        }
    }
}

/// The fold keeps every duplicate covered by a same-size original.
proof fn lemma_dup_covered_fold(st: ClassificationView, rs: Seq<FileRecordView>)
    requires
        dup_covered(st),
    ensures
        dup_covered(classify_all(st, rs)),
    decreases rs.len(),
{
    if rs.len() > 0 {
        lemma_dup_covered_step(st, rs[0]);
        lemma_dup_covered_fold(classify_step(st, rs[0]), rs.drop_first());
    }
}

/// Records of different sizes are never tied to one another: every
/// duplicate agrees in normalized name and in size with the original that
/// holds its key.
pub proof fn lemma_duplicates_match_original_size(rs: Seq<FileRecordView>)
    ensures
        dup_covered(classify_all(ClassificationView::empty(), rs)),
{
    lemma_dup_covered_fold(ClassificationView::empty(), rs);
}

/// Folding records that all share the single original's normalized name
/// and size keeps exactly one original: one of the contenders, with the
/// shortest display name seen (the earliest of them on a length tie).
proof fn lemma_one_key_fold(st: ClassificationView, rs: Seq<FileRecordView>)
    requires
        st.originals.len() == 1,
        forall|i: int|
            0 <= i < rs.len() ==> (#[trigger] rs[i]).name_undup == st.originals[0].name_undup
                && rs[i].size == st.originals[0].size,
    ensures
        classify_all(st, rs).originals.len() == 1,
        classify_all(st, rs).originals[0] == st.originals[0] || rs.contains(
            classify_all(st, rs).originals[0],
        ),
        classify_all(st, rs).originals[0].name.len() <= st.originals[0].name.len(),
        forall|i: int|
            0 <= i < rs.len() ==> classify_all(st, rs).originals[0].name.len() <= (
            #[trigger] rs[i]).name.len(),
    decreases rs.len(),
{
    if rs.len() > 0 {
        let r = rs[0];
        let o = st.originals[0];
        assert(has_original(st.originals, r.name_undup));
        assert(original_index(st.originals, r.name_undup) == 0);
        let st2 = classify_step(st, r);
        assert(st2.originals.len() == 1);
        assert(st2.originals[0] == if r.name.len() < o.name.len() {
            r
        } else {
            o
        });
        let rest = rs.drop_first();
        assert(forall|i: int|
            0 <= i < rest.len() ==> (#[trigger] rest[i]).name_undup == st2.originals[0].name_undup
                && rest[i].size == st2.originals[0].size);
        lemma_one_key_fold(st2, rest);
        let w = classify_all(st, rs).originals[0];
        if w == st2.originals[0] {
            assert(w == o || w == r);
            if w == r {
                assert(rs.contains(w));
            }
        } else {
            let j = choose|j: int| 0 <= j < rest.len() && rest[j] == w;
            assert(rs[j + 1] == w);
            assert(rs.contains(w));
        }
        assert forall|i: int| 0 <= i < rs.len() implies w.name.len() <= (
        #[trigger] rs[i]).name.len() by {
            if i == 0 {
                assert(w.name.len() <= st2.originals[0].name.len());
            } else {
                assert(rest[i - 1] == rs[i]);
            }
        }
    }
}

/// Among records sharing one normalized name and one size, the record with
/// the strictly shortest display name becomes the original, whatever the
/// arrival order; all the others become duplicates.
pub proof fn lemma_shortest_name_wins(rs: Seq<FileRecordView>, k: int)
    requires
        rs.len() > 0,
        0 <= k < rs.len(),
        forall|i: int|
            0 <= i < rs.len() ==> (#[trigger] rs[i]).name_undup == rs[0].name_undup && rs[i].size
                == rs[0].size,
        forall|i: int|
            0 <= i < rs.len() && i != k ==> rs[k].name.len() < (#[trigger] rs[i]).name.len(),
    ensures
        classify_all(ClassificationView::empty(), rs).originals == seq![rs[k]],
{
    let st0 = ClassificationView::empty();
    let r0 = rs[0];
    assert(!has_original(st0.originals, r0.name_undup));
    let st1 = classify_step(st0, r0);
    assert(st1.originals =~= seq![r0]);
    let rest = rs.drop_first();
    assert(forall|i: int|
        0 <= i < rest.len() ==> (#[trigger] rest[i]).name_undup == st1.originals[0].name_undup
            && rest[i].size == st1.originals[0].size);
    lemma_one_key_fold(st1, rest);
    let c = classify_all(st0, rs);
    let w = c.originals[0];
    let j = if w == r0 {
        0int
    } else {
        let jj = choose|jj: int| 0 <= jj < rest.len() && rest[jj] == w;
        assert(rs[jj + 1] == w);
        jj + 1
    };
    assert(0 <= j < rs.len() && rs[j] == w);
    assert(w.name.len() <= rs[k].name.len()) by {
        if k == 0 {
            assert(w.name.len() <= st1.originals[0].name.len());
        } else {
            assert(rest[k - 1] == rs[k]);
        }
    }
    if j != k {
        assert(rs[k].name.len() < rs[j].name.len());
        assert(false);
    }
    assert(c.originals =~= seq![rs[k]]);
}

} // verus!
