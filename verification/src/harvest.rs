use vstd::prelude::*;

use vstd::utf8::encode_utf8;

use crate::errors::HarvestError;
use crate::ids::{hex_to_bytes, is_hex40, ObjectId};
use crate::objects::{
    assoc_find, blob_pairs_view, commit_pairs_view, lemma_assoc_find_hits,
    lemma_assoc_find_misses,
};
use vstd::string::StringSliceAdditionalSpecFns;

verus! {

/// One harvested record: the `.SRCINFO` text and the committer epoch.
#[derive(Clone, Debug, PartialEq, Eq, Hash)]
pub struct FetchedSrcInfo {
    pub srcinfo_text: String,
    pub committed_at: i64,
}

/// The content map without its first entry stored under `k`.
pub open spec fn assoc_remove(m: Seq<(Seq<u8>, Seq<char>)>, k: Seq<u8>) -> Seq<
    (Seq<u8>, Seq<char>),
>
    decreases m.len(),
{
    if m.len() == 0 {
        Seq::empty()
    } else if m.first().0 == k {
        m.drop_first()
    } else {
        seq![m.first()] + assoc_remove(m.drop_first(), k)
    }
}

/// The assembled batch: one entry per requested commit id, at the same
/// index.  A commit absent from the extraction map yields the absence
/// marker; a present commit takes its blob's text out of the content map
/// — consuming the entry, as each blob belongs to exactly one tree — or
/// empty text when the blob did not come back.
pub open spec fn batch_assemble(
    ids: Seq<Seq<u8>>,
    commits: Seq<(Seq<u8>, (Seq<u8>, int))>,
    blobs: Seq<(Seq<u8>, Seq<char>)>,
) -> Seq<Option<(Seq<char>, int)>>
    decreases ids.len(),
{
    if ids.len() == 0 {
        Seq::empty()
    } else {
        match assoc_find(commits, ids.first()) {
            None => seq![None] + batch_assemble(ids.drop_first(), commits, blobs),
            Some((blob, t)) => {
                let text = match assoc_find(blobs, blob) {
                    Some(tx) => tx,
                    None => Seq::empty(),
                };
                seq![Some((text, t))] + batch_assemble(
                    ids.drop_first(),
                    commits,
                    assoc_remove(blobs, blob),
                )
            },
        }
    }
}

/// Converts the caller's forty-hex commit ids, rejecting any malformed id
/// before a single byte goes over the wire.
pub fn parse_commit_ids(commits: &Vec<String>) -> (r: Result<Vec<ObjectId>, HarvestError>)
    ensures
        r is Ok <==> (forall|i: int|
            0 <= i < commits@.len() ==> is_hex40(encode_utf8((#[trigger] commits@[i])@))),
        r matches Ok(v) ==> v@.len() == commits@.len() && (forall|i: int|
            0 <= i < v@.len() ==> (#[trigger] v@[i]).wf() && v@[i]@ == hex_to_bytes(
                encode_utf8(commits@[i]@),
            )),
        r matches Err(e) ==> e is MalformedInputId,
{
    let mut out: Vec<ObjectId> = Vec::new();
    let mut i: usize = 0;
    while i < commits.len()
        invariant
            i <= commits@.len(),
            out@.len() == i,
            forall|j: int| 0 <= j < i ==> is_hex40(encode_utf8((#[trigger] commits@[j])@)),
            forall|j: int|
                0 <= j < i ==> (#[trigger] out@[j]).wf() && out@[j]@ == hex_to_bytes(
                    encode_utf8(commits@[j]@),
                ),
        decreases commits@.len() - i,
    {
        let ghost old_out = out@;
        match ObjectId::from_hex(commits[i].as_str().as_bytes()) {
            Ok(id) => {
                assert(is_hex40(encode_utf8(commits@[i as int]@)));
                assert(id.wf() && id@ == hex_to_bytes(encode_utf8(commits@[i as int]@)));
                out.push(id);
                assert(forall|j: int| 0 <= j < i ==> out@[j] == old_out[j]);
            },
            Err(e) => {
                assert(!is_hex40(encode_utf8(commits@[i as int]@)));
                return Err(e);
            },
        }
        i = i + 1;
    }
    Ok(out)
}


/// The blob ids named by the extraction map, first appearances only, in
/// order: `acc` holds the ids already taken.
pub open spec fn dedup_ids_acc(s: Seq<Seq<u8>>, acc: Seq<Seq<u8>>) -> Seq<Seq<u8>>
    decreases s.len(),
{
    if s.len() == 0 {
        acc
    } else if acc.contains(s.first()) {
        dedup_ids_acc(s.drop_first(), acc)
    } else {
        dedup_ids_acc(s.drop_first(), acc.push(s.first()))
    }
}

/// The `want` set of the second round trip: each `.SRCINFO` blob id the
/// extraction map names, exactly once.
pub open spec fn unique_blob_ids_of(commits: Seq<(Seq<u8>, (Seq<u8>, int))>) -> Seq<Seq<u8>> {
    dedup_ids_acc(commits.map_values(|c: (Seq<u8>, (Seq<u8>, int))| c.1.0), Seq::empty())
}

/// Collects the blob ids of the extraction map, each distinct id once, in
/// first-appearance order: the second round trip requests exactly these.
pub fn unique_blob_ids(commits: &Vec<(ObjectId, (ObjectId, i64))>) -> (r: Vec<ObjectId>)
    requires
        forall|i: int| 0 <= i < commits@.len() ==> (#[trigger] commits@[i]).1.0.wf(),
    ensures
        r@.map_values(|id: ObjectId| id@) == unique_blob_ids_of(commit_pairs_view(commits@)),
        forall|i: int| 0 <= i < r@.len() ==> (#[trigger] r@[i]).wf(),
{
    let ghost sv = commit_pairs_view(commits@).map_values(
        |c: (Seq<u8>, (Seq<u8>, int))| c.1.0,
    );
    let mut out: Vec<ObjectId> = Vec::new();
    let mut i: usize = 0;
    proof {
        assert(sv.skip(0) =~= sv);
        assert(out@.map_values(|id: ObjectId| id@) =~= Seq::<Seq<u8>>::empty());
    }
    while i < commits.len()
        invariant
            i <= commits@.len(),
            sv == commit_pairs_view(commits@).map_values(
                |c: (Seq<u8>, (Seq<u8>, int))| c.1.0,
            ),
            forall|k: int| 0 <= k < commits@.len() ==> (#[trigger] commits@[k]).1.0.wf(),
            forall|k: int| 0 <= k < out@.len() ==> (#[trigger] out@[k]).wf(),
            unique_blob_ids_of(commit_pairs_view(commits@)) == dedup_ids_acc(
                sv.skip(i as int),
                out@.map_values(|id: ObjectId| id@),
            ),
        decreases commits@.len() - i,
    {
        let ghost old_out = out@.map_values(|id: ObjectId| id@);
        proof {
            assert(sv.skip(i as int).first() == sv[i as int]);
            assert(sv.skip(i as int).drop_first() =~= sv.skip(i + 1));
            assert(sv[i as int] == commits@[i as int].1.0@);
        }
        let blob = &commits[i].1.0;
        let mut seen = false;
        let mut j: usize = 0;
        while j < out.len()
            invariant
                j <= out@.len(),
                i < commits@.len(),
                blob@ == commits@[i as int].1.0@,
                old_out == out@.map_values(|id: ObjectId| id@),
                seen ==> old_out.contains(commits@[i as int].1.0@),
                !seen ==> forall|k: int| 0 <= k < j ==> old_out[k] != commits@[i as int].1.0@,
            decreases out@.len() - j,
        {
            assert(old_out[j as int] == out@[j as int]@);
            if out[j].eq_id(blob) {
                assert(old_out[j as int] == commits@[i as int].1.0@);
                seen = true;
                j = out.len();
            } else {
                assert(old_out[j as int] != commits@[i as int].1.0@);
                j = j + 1;
            }
        }
        if !seen {
            assert(!old_out.contains(sv[i as int]));
            out.push(blob.duplicate());
            assert(out@.map_values(|id: ObjectId| id@) =~= old_out.push(sv[i as int]));
        } else {
            assert(old_out.contains(sv[i as int]));
        }
        i = i + 1;
    }
    proof {
        assert(sv.skip(commits@.len() as int) =~= Seq::<Seq<u8>>::empty());
    }
    out
}

/// Looks a commit id up in the extraction map.  Mirrors `assoc_find`.
fn find_commit_exec(commits: &Vec<(ObjectId, (ObjectId, i64))>, key: &ObjectId) -> (r: Option<
    (ObjectId, i64),
>)
    ensures
        match r {
            Some(p) => assoc_find(commit_pairs_view(commits@), key@) == Some((p.0@, p.1 as int)),
            None => assoc_find(commit_pairs_view(commits@), key@) is None,
        },
{
    let ghost cv = commit_pairs_view(commits@);
    let mut i: usize = 0;
    while i < commits.len()
        invariant
            i <= commits@.len(),
            cv == commit_pairs_view(commits@),
            forall|j: int| 0 <= j < i ==> (#[trigger] cv[j]).0 != key@,
        decreases commits@.len() - i,
    {
        if commits[i].0.eq_id(key) {
            assert(cv[i as int].0 == key@);
            proof {
                lemma_assoc_find_hits(cv, key@, i as int);
            }
            return Some((commits[i].1.0.duplicate(), commits[i].1.1));
        }
        assert(cv[i as int].0 != key@);
        i = i + 1;
    }
    proof {
        lemma_assoc_find_misses(cv, key@);
    }
    None
}

/// Assembles the harvest batch: one output entry per requested commit id,
/// at the same index, in the callers' order.  A commit absent from the
/// extraction map yields the absence marker, never an error; a present
/// commit whose blob text did not come back yields empty text with its
/// epoch.  Each blob entry serves one commit and is consumed.
pub fn fetch_srcinfo_batch(
    ids: &Vec<ObjectId>,
    commits: &Vec<(ObjectId, (ObjectId, i64))>,
    blobs: Vec<(ObjectId, String)>,
) -> (r: Vec<Option<FetchedSrcInfo>>)
    ensures
        r@.len() == ids@.len(),
        r@.map_values(
            |o: Option<FetchedSrcInfo>|
                match o {
                    Some(f) => Some((f.srcinfo_text@, f.committed_at as int)),
                    None => None,
                },
        ) == batch_assemble(
            ids@.map_values(|id: ObjectId| id@),
            commit_pairs_view(commits@),
            blob_pairs_view(blobs@),
        ),
{
    let ghost idv = ids@.map_values(|id: ObjectId| id@);
    let ghost cv = commit_pairs_view(commits@);
    let ghost bv0 = blob_pairs_view(blobs@);
    let mut blobs = blobs;
    let mut out: Vec<Option<FetchedSrcInfo>> = Vec::new();
    let mut i: usize = 0;
    proof {
        assert(idv.skip(0) =~= idv);
        assert(out@.map_values(
            |o: Option<FetchedSrcInfo>|
                match o {
                    Some(f) => Some((f.srcinfo_text@, f.committed_at as int)),
                    None => None::<(Seq<char>, int)>,
                },
        ) + batch_assemble(idv.skip(0), cv, blob_pairs_view(blobs@)) =~= batch_assemble(
            idv,
            cv,
            bv0,
        ));
    }
    while i < ids.len()
        invariant
            i <= ids@.len(),
            idv == ids@.map_values(|id: ObjectId| id@),
            cv == commit_pairs_view(commits@),
            batch_assemble(idv, cv, bv0) == out@.map_values(
                |o: Option<FetchedSrcInfo>|
                    match o {
                        Some(f) => Some((f.srcinfo_text@, f.committed_at as int)),
                        None => None::<(Seq<char>, int)>,
                    },
            ) + batch_assemble(idv.skip(i as int), cv, blob_pairs_view(blobs@)),
            out@.len() == i,
        decreases ids@.len() - i,
    {
        let ghost old_out = out@.map_values(
            |o: Option<FetchedSrcInfo>|
                match o {
                    Some(f) => Some((f.srcinfo_text@, f.committed_at as int)),
                    None => None::<(Seq<char>, int)>,
                },
        );
        let ghost old_bv = blob_pairs_view(blobs@);
        proof {
            assert(idv.skip(i as int).first() == idv[i as int]);
            assert(idv.skip(i as int).drop_first() =~= idv.skip(i + 1));
        }
        match find_commit_exec(commits, &ids[i]) {
            Some((blob, t)) => {
                let text = take_blob_exec(&mut blobs, &blob);
                out.push(Some(FetchedSrcInfo { srcinfo_text: text, committed_at: t }));
                proof {
                    let ghost entry = Some(
                        (
                            match assoc_find(old_bv, blob@) {
                                Some(tx) => tx,
                                None => Seq::<char>::empty(),
                            },
                            t as int,
                        ),
                    );
                    assert(out@.map_values(
                        |o: Option<FetchedSrcInfo>|
                            match o {
                                Some(f) => Some((f.srcinfo_text@, f.committed_at as int)),
                                None => None::<(Seq<char>, int)>,
                            },
                    ) =~= old_out.push(entry));
                    assert(old_out + (seq![entry] + batch_assemble(
                        idv.skip(i + 1),
                        cv,
                        blob_pairs_view(blobs@),
                    )) =~= old_out.push(entry) + batch_assemble(
                        idv.skip(i + 1),
                        cv,
                        blob_pairs_view(blobs@),
                    ));
                }
            },
            None => {
                out.push(None);
                proof {
                    assert(out@.map_values(
                        |o: Option<FetchedSrcInfo>|
                            match o {
                                Some(f) => Some((f.srcinfo_text@, f.committed_at as int)),
                                None => None::<(Seq<char>, int)>,
                            },
                    ) =~= old_out.push(None::<(Seq<char>, int)>));
                    assert(old_out + (seq![None::<(Seq<char>, int)>] + batch_assemble(
                        idv.skip(i + 1),
                        cv,
                        old_bv,
                    )) =~= old_out.push(None::<(Seq<char>, int)>) + batch_assemble(
                        idv.skip(i + 1),
                        cv,
                        old_bv,
                    ));
                }
            },
        }
        i = i + 1;
    }
    proof {
        assert(idv.skip(ids@.len() as int) =~= Seq::<Seq<u8>>::empty());
        assert(out@.map_values(
            |o: Option<FetchedSrcInfo>|
                match o {
                    Some(f) => Some((f.srcinfo_text@, f.committed_at as int)),
                    None => None::<(Seq<char>, int)>,
                },
        ) + batch_assemble(
            idv.skip(ids@.len() as int),
            cv,
            blob_pairs_view(blobs@),
        ) =~= out@.map_values(
            |o: Option<FetchedSrcInfo>|
                match o {
                    Some(f) => Some((f.srcinfo_text@, f.committed_at as int)),
                    None => None::<(Seq<char>, int)>,
                },
        ));
    }
    out
}

/// Takes the first content entry stored under `key` out of the map,
/// handing back its text, or empty text when the map has none.
fn take_blob_exec(blobs: &mut Vec<(ObjectId, String)>, key: &ObjectId) -> (r: String)
    ensures
        ({
            let old_bv = blob_pairs_view(old(blobs)@);
            &&& r@ == (match assoc_find(old_bv, key@) {
                Some(tx) => tx,
                None => Seq::<char>::empty(),
            })
            &&& blob_pairs_view(final(blobs)@) == assoc_remove(old_bv, key@)
        }),
{
    let ghost bv = blob_pairs_view(blobs@);
    let mut i: usize = 0;
    while i < blobs.len()
        invariant
            i <= blobs@.len(),
            blobs == old(blobs),
            bv == blob_pairs_view(blobs@),
            forall|j: int| 0 <= j < i ==> (#[trigger] bv[j]).0 != key@,
        decreases blobs@.len() - i,
    {
        if blobs[i].0.eq_id(key) {
            assert(bv[i as int].0 == key@);
            let entry = blobs.remove(i);
            proof {
                lemma_assoc_find_hits(bv, key@, i as int);
                lemma_assoc_remove_hits(bv, key@, i as int);
                assert(blob_pairs_view(final(blobs)@) =~= bv.remove(i as int));
            }
            return entry.1;
        }
        assert(bv[i as int].0 != key@);
        i = i + 1;
    }
    proof {
        lemma_assoc_find_misses(bv, key@);
        lemma_assoc_remove_misses(bv, key@);
    }
    String::new()
}

/// When `k` first occurs at `i`, removal deletes exactly that entry.
proof fn lemma_assoc_remove_hits(m: Seq<(Seq<u8>, Seq<char>)>, k: Seq<u8>, i: int)
    requires
        0 <= i < m.len(),
        m[i].0 == k,
        forall|j: int| 0 <= j < i ==> (#[trigger] m[j]).0 != k,
    ensures
        assoc_remove(m, k) == m.remove(i),
    decreases i,
{
    if i == 0 {
        assert(m.drop_first() =~= m.remove(0));
    } else {
        lemma_assoc_remove_hits(m.drop_first(), k, i - 1);
        assert(seq![m.first()] + m.drop_first().remove(i - 1) =~= m.remove(i));
    }
}

/// When `k` is absent, removal changes nothing.
proof fn lemma_assoc_remove_misses(m: Seq<(Seq<u8>, Seq<char>)>, k: Seq<u8>)
    requires
        forall|j: int| 0 <= j < m.len() ==> (#[trigger] m[j]).0 != k,
    ensures
        assoc_remove(m, k) == m,
    decreases m.len(),
{
    if m.len() == 0 {
        assert(assoc_remove(m, k) =~= m);
    } else {
        lemma_assoc_remove_misses(m.drop_first(), k);
        assert(seq![m.first()] + m.drop_first() =~= m);
    }
}

} // verus!
