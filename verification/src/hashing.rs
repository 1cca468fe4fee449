//! The hash verifier: candidate duplicates are confirmed or rejected by
//! comparing a 64-bit content hash against their original's. File bytes are
//! handed in by the caller (None where a file could not be read); the hash
//! itself comes from the seahash crate behind a trusted specification.

use vstd::prelude::*;
use crate::record::FileRecord;
use crate::record::FileRecordView;
use crate::classify::views;
use crate::groups::DupGroup;
use crate::groups::DupGroupView;
use crate::groups::group_views;

verus! {

/// First seed word of the fixed content-hash seed.
pub const HASH_SEED_A: u64 = 0xBA647A7A;

/// Second seed word of the fixed content-hash seed.
pub const HASH_SEED_B: u64 = 0x16F11FE89B0D677C;

/// Third seed word of the fixed content-hash seed.
pub const HASH_SEED_C: u64 = 0xB480A793D8E6C86C;

/// Fourth seed word of the fixed content-hash seed.
pub const HASH_SEED_D: u64 = 0x6FE2E5AAF078EBC9;

/// The value seahash gives for these bytes under these four seed words.
pub uninterp spec fn seahash_of(data: Seq<u8>, a: u64, b: u64, c: u64, d: u64) -> u64;

/// Relies on seahash::hash_seeded: the 64-bit hash is a function of the
/// buffer's bytes and the four seed words alone.
pub assume_specification [ seahash::hash_seeded ](
    buf: &[u8],
    a: u64,
    b: u64,
    c: u64,
    d: u64,
) -> (r: u64)
    ensures
        r == seahash_of(buf@, a, b, c, d),
;

/// The content hash of a file's bytes under the fixed seeds.
pub open spec fn content_hash_spec(data: Seq<u8>) -> u64 {
    seahash_of(data, HASH_SEED_A, HASH_SEED_B, HASH_SEED_C, HASH_SEED_D)
}

/// Hashes one file's bytes with the fixed seeds.
pub fn content_hash(data: &[u8]) -> (h: u64)
    ensures
        h == content_hash_spec(data@),
{
    seahash::hash_seeded(data, HASH_SEED_A, HASH_SEED_B, HASH_SEED_C, HASH_SEED_D)
}

/// A duplicate's contents confirm it when they could be read and hash to
/// the original's hash; unreadable contents never confirm.
pub open spec fn content_matches(c: Option<Vec<u8>>, orig_hash: u64) -> bool {
    match c {
        Some(b) => content_hash_spec(b@) == orig_hash,
        None => false,
    }
}

/// Decides whether one duplicate's contents (None when its file could not
/// be read) confirm it against the original's hash.
pub fn check_dup_hash(dup_content: &Option<Vec<u8>>, orig_hash: u64) -> (r: bool)
    ensures
        r == content_matches(*dup_content, orig_hash),
{
    match dup_content {
        Some(data) => content_hash(data.as_slice()) == orig_hash,
        None => false,
    }
}

/// The duplicates whose contents confirm them, in order. `cs` holds one
/// contents entry per duplicate, aligned by position.
pub open spec fn kept_dups(
    dups: Seq<FileRecordView>,
    cs: Seq<Option<Vec<u8>>>,
    orig_hash: u64,
) -> Seq<FileRecordView>
    decreases dups.len(),
{
    if dups.len() == 0 {
        Seq::empty()
    } else {
        let rest = kept_dups(dups.drop_last(), cs.drop_last(), orig_hash);
        if content_matches(cs[dups.len() - 1], orig_hash) {
            rest.push(dups.last())
        } else {
            rest
        }
    }
}

/// The duplicates whose contents do not confirm them, in order.
pub open spec fn rejected_dups(
    dups: Seq<FileRecordView>,
    cs: Seq<Option<Vec<u8>>>,
    orig_hash: u64,
) -> Seq<FileRecordView>
    decreases dups.len(),
{
    if dups.len() == 0 {
        Seq::empty()
    } else {
        let rest = rejected_dups(dups.drop_last(), cs.drop_last(), orig_hash);
        if content_matches(cs[dups.len() - 1], orig_hash) {
            rest
        } else {
            rest.push(dups.last())
        }
    }
}

/// Each duplicate is either kept or rejected.
pub proof fn lemma_kept_rejected_lens(
    dups: Seq<FileRecordView>,
    cs: Seq<Option<Vec<u8>>>,
    orig_hash: u64,
)
    ensures
        kept_dups(dups, cs, orig_hash).len() + rejected_dups(dups, cs, orig_hash).len()
            == dups.len(),
    decreases dups.len(),
{
    if dups.len() > 0 {
        lemma_kept_rejected_lens(dups.drop_last(), cs.drop_last(), orig_hash);
    }
}

/// Extending a group's duplicates and contents by one entry.
proof fn lemma_kept_rejected_snoc(
    dups: Seq<FileRecordView>,
    cs: Seq<Option<Vec<u8>>>,
    d: FileRecordView,
    c: Option<Vec<u8>>,
    orig_hash: u64,
)
    requires
        dups.len() == cs.len(),
    ensures
        kept_dups(dups.push(d), cs.push(c), orig_hash) == if content_matches(c, orig_hash) {
            kept_dups(dups, cs, orig_hash).push(d)
        } else {
            kept_dups(dups, cs, orig_hash)
        },
        rejected_dups(dups.push(d), cs.push(c), orig_hash) == if content_matches(c, orig_hash) {
            rejected_dups(dups, cs, orig_hash)
        } else {
            rejected_dups(dups, cs, orig_hash).push(d)
        },
{
    assert(dups.push(d).drop_last() =~= dups);
    assert(cs.push(c).drop_last() =~= cs);
    assert(dups.push(d).last() == d);
    assert(cs.push(c)[dups.push(d).len() - 1] == c);
}

/// Verifies one group against contents read from disk: `orig_content`
/// holds the original's bytes (None when its file could not be read) and
/// `dup_contents` one entry per duplicate, in order. When the original is
/// unreadable the group is left untouched and nothing is rejected;
/// otherwise exactly the duplicates whose contents do not confirm them are
/// removed from the group and returned.
pub fn check_group_hashes(
    group: &mut DupGroup,
    orig_content: &Option<Vec<u8>>,
    dup_contents: &Vec<Option<Vec<u8>>>,
) -> (rejected: Vec<FileRecord>)
    requires
        dup_contents@.len() == old(group)@.duplicates.len(),
    ensures
        final(group)@.original == old(group)@.original,
        (match *orig_content {
            None => final(group)@ == old(group)@ && rejected@.len() == 0,
            Some(b) => {
                &&& final(group)@.duplicates == kept_dups(
                    old(group)@.duplicates,
                    dup_contents@,
                    content_hash_spec(b@),
                )
                &&& views(rejected@) == rejected_dups(
                    old(group)@.duplicates,
                    dup_contents@,
                    content_hash_spec(b@),
                )
            },
        }),
{
    let orig_hash: u64;
    match orig_content {
        None => {
            return Vec::new();
        },
        Some(b) => {
            orig_hash = content_hash(b.as_slice());
        },
    }
    let ghost dv = group@.duplicates;
    let ghost cs = dup_contents@;
    let mut kept: Vec<FileRecord> = Vec::new();
    let mut rejected: Vec<FileRecord> = Vec::new();
    let mut j: usize = 0;
    proof {
        assert(dv.take(0) =~= Seq::<FileRecordView>::empty());
        assert(cs.take(0) =~= Seq::<Option<Vec<u8>>>::empty());
    }
    while j < group.duplicates.len()
        invariant
            j <= group.duplicates@.len(),
            dv == group@.duplicates,
            cs == dup_contents@,
            cs.len() == dv.len(),
            dv.len() == group.duplicates@.len(),
            group@ == old(group)@,
            views(kept@) == kept_dups(dv.take(j as int), cs.take(j as int), orig_hash),
            views(rejected@) == rejected_dups(dv.take(j as int), cs.take(j as int), orig_hash),
        decreases group.duplicates@.len() - j,
    {
        let ghost kpre = kept@;
        let ghost rpre = rejected@;
        let d = group.duplicates[j].clone();
        if check_dup_hash(&dup_contents[j], orig_hash) {
            kept.push(d);
        } else {
            rejected.push(d);
        }
        j = j + 1;
        proof {
            assert(dv.take(j as int) =~= dv.take(j - 1).push(dv[j - 1]));
            assert(cs.take(j as int) =~= cs.take(j - 1).push(cs[j - 1]));
            lemma_kept_rejected_snoc(dv.take(j - 1), cs.take(j - 1), dv[j - 1], cs[j - 1], orig_hash);
            if content_matches(cs[j - 1], orig_hash) {
                assert(views(kept@) =~= views(kpre).push(dv[j - 1]));
            } else {
                assert(views(rejected@) =~= views(rpre).push(dv[j - 1]));
            }
        }
    }
    proof {
        assert(dv.take(dv.len() as int) =~= dv);
        assert(cs.take(cs.len() as int) =~= cs);
    }
    group.duplicates = kept;
    rejected
}

/// One group after verification against the given contents: untouched when
/// the original was unreadable, otherwise only the confirming duplicates
/// remain.
pub open spec fn verified_group(
    g: DupGroupView,
    oc: Option<Vec<u8>>,
    cs: Seq<Option<Vec<u8>>>,
) -> DupGroupView {
    match oc {
        None => g,
        Some(b) => DupGroupView {
            original: g.original,
            duplicates: kept_dups(g.duplicates, cs, content_hash_spec(b@)),
        },
    }
}

/// How many duplicates verification against these contents rejects.
pub open spec fn group_discards(
    g: DupGroupView,
    oc: Option<Vec<u8>>,
    cs: Seq<Option<Vec<u8>>>,
) -> nat {
    match oc {
        None => 0,
        Some(b) => rejected_dups(g.duplicates, cs, content_hash_spec(b@)).len(),
    }
}

/// All groups after verification, with the groups left empty pruned away.
/// `cs` holds, per group, the original's contents and the duplicates'
/// contents.
pub open spec fn verify_all(
    gs: Seq<DupGroupView>,
    cs: Seq<(Option<Vec<u8>>, Vec<Option<Vec<u8>>>)>,
) -> Seq<DupGroupView>
    decreases gs.len(),
{
    if gs.len() == 0 {
        Seq::empty()
    } else {
        let rest = verify_all(gs.drop_last(), cs.drop_last());
        let g2 = verified_group(gs.last(), cs[gs.len() - 1].0, cs[gs.len() - 1].1@);
        if g2.duplicates.len() > 0 {
            rest.push(g2)
        } else {
            rest
        }
    }
}

/// The total count of rejected duplicates across all groups.
pub open spec fn total_discards(
    gs: Seq<DupGroupView>,
    cs: Seq<(Option<Vec<u8>>, Vec<Option<Vec<u8>>>)>,
) -> nat
    decreases gs.len(),
{
    if gs.len() == 0 {
        0
    } else {
        total_discards(gs.drop_last(), cs.drop_last()) + group_discards(
            gs.last(),
            cs[gs.len() - 1].0,
            cs[gs.len() - 1].1@,
        )
    }
}

/// The total count of duplicates held by a group list.
pub open spec fn total_dup_len(gs: Seq<DupGroupView>) -> nat
    decreases gs.len(),
{
    if gs.len() == 0 {
        0
    } else {
        total_dup_len(gs.drop_last()) + gs.last().duplicates.len()
    }
}

/// No more duplicates are rejected than exist.
proof fn lemma_total_discards_le(
    gs: Seq<DupGroupView>,
    cs: Seq<(Option<Vec<u8>>, Vec<Option<Vec<u8>>>)>,
)
    requires
        cs.len() == gs.len(),
        forall|i: int| 0 <= i < gs.len() ==> (#[trigger] cs[i]).1@.len() == gs[i].duplicates.len(),
    ensures
        total_discards(gs, cs) <= total_dup_len(gs),
    decreases gs.len(),
{
    if gs.len() > 0 {
        lemma_total_discards_le(gs.drop_last(), cs.drop_last());
        let g = gs.last();
        let oc = cs[gs.len() - 1].0;
        let dcs = cs[gs.len() - 1].1@;
        if oc is Some {
            lemma_kept_rejected_lens(g.duplicates, dcs, content_hash_spec(oc.unwrap()@));
        }
    }
}

/// A prefix of the groups never holds more duplicates than all of them.
proof fn lemma_total_dup_len_take(gs: Seq<DupGroupView>, i: int)
    requires
        0 <= i <= gs.len(),
    ensures
        total_dup_len(gs.take(i)) <= total_dup_len(gs),
    decreases gs.len(),
{
    if i == gs.len() {
        assert(gs.take(i) =~= gs);
    } else {
        assert(gs.drop_last().take(i) =~= gs.take(i));
        lemma_total_dup_len_take(gs.drop_last(), i);
    }
}

/// Clones a record list, record by record.
fn clone_records(v: &Vec<FileRecord>) -> (r: Vec<FileRecord>)
    ensures
        r@ == v@,
{
    let mut r: Vec<FileRecord> = Vec::new();
    let mut i: usize = 0;
    while i < v.len()
        invariant
            i <= v@.len(),
            r@ == v@.take(i as int),
        decreases v@.len() - i,
    {
        r.push(v[i].clone());
        i = i + 1;
        proof {
            assert(v@.take(i as int) =~= v@.take(i - 1).push(v@[i - 1]));
        }
    }
    proof {
        assert(v@.take(v@.len() as int) =~= v@);
    }
    r
}

impl Clone for DupGroup {
    fn clone(&self) -> (r: Self)
        ensures
            r@ == self@,
    {
        DupGroup { original: self.original.clone(), duplicates: clone_records(&self.duplicates) }
    }
}

/// Verifies every group against its contents and prunes the groups left
/// with no duplicates. Returns the surviving groups and the total count of
/// rejected duplicates.
pub fn check_hashes(
    groups: Vec<DupGroup>,
    contents: &Vec<(Option<Vec<u8>>, Vec<Option<Vec<u8>>>)>,
) -> (res: (Vec<DupGroup>, usize))
    requires
        contents@.len() == groups@.len(),
        forall|i: int|
            0 <= i < groups@.len() ==> (#[trigger] contents@[i]).1@.len() == group_views(
                groups@,
            )[i].duplicates.len(),
        total_dup_len(group_views(groups@)) <= usize::MAX,
    ensures
        group_views(res.0@) == verify_all(group_views(groups@), contents@),
        res.1 == total_discards(group_views(groups@), contents@),
{
    let ghost gvs = group_views(groups@);
    let ghost cvs = contents@;
    let mut result: Vec<DupGroup> = Vec::new();
    let mut discarded: usize = 0;
    let mut i: usize = 0;
    proof {
        assert(gvs.take(0) =~= Seq::<DupGroupView>::empty());
        assert(cvs.take(0) =~= Seq::<(Option<Vec<u8>>, Vec<Option<Vec<u8>>>)>::empty());
    }
    while i < groups.len()
        invariant
            i <= groups@.len(),
            gvs == group_views(groups@),
            cvs == contents@,
            gvs.len() == groups@.len(),
            cvs.len() == gvs.len(),
            forall|k: int|
                0 <= k < gvs.len() ==> (#[trigger] cvs[k]).1@.len() == gvs[k].duplicates.len(),
            total_dup_len(gvs) <= usize::MAX,
            group_views(result@) == verify_all(gvs.take(i as int), cvs.take(i as int)),
            discarded == total_discards(gvs.take(i as int), cvs.take(i as int)),
        decreases groups@.len() - i,
    {
        let ghost respre = result@;
        let mut g = groups[i].clone();
        proof {
            assert(g@ == gvs[i as int]);
        }
        let rejected = check_group_hashes(&mut g, &contents[i].0, &contents[i].1);
        proof {
            lemma_total_discards_le(gvs.take(i + 1), cvs.take(i + 1));
            lemma_total_dup_len_take(gvs, i + 1);
            assert(gvs.take(i + 1).drop_last() =~= gvs.take(i as int));
            assert(cvs.take(i + 1).drop_last() =~= cvs.take(i as int));
            assert(gvs.take(i + 1).last() == gvs[i as int]);
            assert(cvs.take(i + 1)[i as int] == cvs[i as int]);
            assert(g@ =~= verified_group(gvs[i as int], cvs[i as int].0, cvs[i as int].1@));
            assert(rejected@.len() == group_discards(
                gvs[i as int],
                cvs[i as int].0,
                cvs[i as int].1@,
            ));
        }
        discarded = discarded + rejected.len();
        if g.duplicates.len() > 0 {
            result.push(g);
            proof {
                assert(group_views(result@) =~= group_views(respre).push(
                    verified_group(gvs[i as int], cvs[i as int].0, cvs[i as int].1@),
                ));
            }
        }
        i = i + 1;
    }
    proof {
        assert(gvs.take(gvs.len() as int) =~= gvs);
        assert(cvs.take(cvs.len() as int) =~= cvs);
    }
    (result, discarded)
}

/// The per-duplicate contents a first pass keeps: the entries whose bytes
/// confirmed their duplicate, in order.
pub open spec fn kept_contents(cs: Seq<Option<Vec<u8>>>, orig_hash: u64) -> Seq<Option<Vec<u8>>>
    decreases cs.len(),
{
    if cs.len() == 0 {
        Seq::empty()
    } else {
        let rest = kept_contents(cs.drop_last(), orig_hash);
        if content_matches(cs.last(), orig_hash) {
            rest.push(cs.last())
        } else {
            rest
        }
    }
}

/// Hash verification is idempotent on a group: a second pass, over the
/// duplicates the first pass kept and the same bytes for each of them,
/// keeps them all and rejects none.
pub proof fn lemma_check_hashes_idempotent(
    dups: Seq<FileRecordView>,
    cs: Seq<Option<Vec<u8>>>,
    orig_hash: u64,
)
    requires
        dups.len() == cs.len(),
    ensures
        kept_dups(dups, cs, orig_hash).len() == kept_contents(cs, orig_hash).len(),
        kept_dups(kept_dups(dups, cs, orig_hash), kept_contents(cs, orig_hash), orig_hash)
            == kept_dups(dups, cs, orig_hash),
        rejected_dups(kept_dups(dups, cs, orig_hash), kept_contents(cs, orig_hash), orig_hash)
            == Seq::<FileRecordView>::empty(),
    decreases dups.len(),
{
    if dups.len() == 0 {
        assert(kept_dups(dups, cs, orig_hash) =~= Seq::<FileRecordView>::empty());
    } else {
        lemma_check_hashes_idempotent(dups.drop_last(), cs.drop_last(), orig_hash);
        let k = kept_dups(dups, cs, orig_hash);
        let kc = kept_contents(cs, orig_hash);
        let kp = kept_dups(dups.drop_last(), cs.drop_last(), orig_hash);
        let kcp = kept_contents(cs.drop_last(), orig_hash);
        if content_matches(cs.last(), orig_hash) {
            assert(k == kp.push(dups.last()));
            assert(kc == kcp.push(cs.last()));
            assert(k.drop_last() =~= kp);
            assert(kc.drop_last() =~= kcp);
            assert(kc[k.len() - 1] == cs.last());
            assert(kept_dups(k, kc, orig_hash) =~= kp.push(dups.last()));
            assert(rejected_dups(k, kc, orig_hash) =~= Seq::<FileRecordView>::empty());
        }
    }
}

} // verus!
