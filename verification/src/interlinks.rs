//! Interlink vectors: how one follows from another, and their packed form.

use crate::pow::{find_level_fault, level_fault, level_view, ChainHeader, HeaderView};
use crate::text::join2;
use sigma_ser::ScorexSerializable;
use vstd::prelude::*;

verus! {

/// The ids of a list, each as its bytes.
pub open spec fn ids_view(ids: Seq<[u8; 32]>) -> Seq<Seq<u8>> {
    Seq::new(ids.len(), |i: int| ids[i]@)
}

/// The highest level that a header reaches by a hit that is not zero: the
/// target is below 2^256.
pub const TOP_LEVEL: i32 = 256;

/// The interlinks that follow where the header before has the given id and
/// reaches the given level: the id takes the places of that many lowest
/// levels, and the first place stays as it is.
pub open spec fn raised(id: Seq<u8>, before: Seq<Seq<u8>>, level: int) -> Seq<Seq<u8>> {
    if level <= 0 {
        before
    } else if before.len() > level {
        before.take(before.len() - level) + Seq::new(level as nat, |i: int| id)
    } else {
        before.take(1) + Seq::new(level as nat, |i: int| id)
    }
}

/// Raises interlinks by the level that the header before reaches.
pub fn raise(id: &[u8; 32], before: &Vec<[u8; 32]>, level: i32) -> (r: Vec<[u8; 32]>)
    requires
        before@.len() > 0,
        0 <= level <= TOP_LEVEL,
    ensures
        ids_view(r@) == raised(id@, ids_view(before@), level as int),
{
    let level: usize = level as usize;
    let kept: usize = if before.len() > level {
        before.len() - level
    } else {
        1
    };
    let mut out: Vec<[u8; 32]> = Vec::new();
    let mut i: usize = 0;
    while i < kept
        invariant
            i <= kept <= before@.len(),
            out@ =~= before@.take(i as int),
        decreases kept - i,
    {
        out.push(before[i]);
        i = i + 1;
    }
    let mut j: usize = 0;
    while j < level
        invariant
            j <= level,
            kept <= before@.len(),
            out@ =~= before@.take(kept as int) + Seq::new(j as nat, |n: int| *id),
        decreases level - j,
    {
        out.push(*id);
        j = j + 1;
    }
    proof {
        let view = ids_view(before@);
        if level == 0 {
            assert(ids_view(out@) =~= view);
        } else {
            assert(ids_view(out@) =~= view.take(kept as int) + Seq::new(level as nat, |n: int| id@));
        }
    }
    out
}

// ------------------------------------------------------------------ packing

/// The runs of equal ids of a vector, each as the id and its length.
pub open spec fn runs(ids: Seq<Seq<u8>>) -> Seq<(Seq<u8>, nat)>
    decreases ids.len(),
{
    if ids.len() == 0 {
        Seq::empty()
    } else {
        let before = runs(ids.drop_last());
        if before.len() > 0 && before.last().0 == ids.last() {
            before.drop_last().push((ids.last(), before.last().1 + 1))
        } else {
            before.push((ids.last(), 1))
        }
    }
}

/// Whether a vector can be packed: a run is counted in one byte, and so are
/// the runs. The outside arithmetic is taken as checked for overflow.
pub open spec fn packable(ids: Seq<Seq<u8>>) -> bool {
    &&& runs(ids).len() <= 256
    &&& forall|i: int| 0 <= i < runs(ids).len() ==> (#[trigger] runs(ids)[i]).1 <= 255
}

/// The fields that a packed vector takes in a block extension: for each run,
/// in order, a key of the interlink prefix and its number, and a value of its
/// length and its id.
pub open spec fn packed(ids: Seq<Seq<u8>>) -> Seq<(Seq<u8>, Seq<u8>)> {
    Seq::new(
        runs(ids).len(),
        |i: int| (seq![1u8, i as u8], seq![runs(ids)[i].1 as u8] + runs(ids)[i].0),
    )
}

/// The fields of an extension, key and value as their bytes.
pub open spec fn extension_view(fields: Seq<([u8; 2], Vec<u8>)>) -> Seq<(Seq<u8>, Seq<u8>)> {
    Seq::new(fields.len(), |i: int| (fields[i].0@, fields[i].1@))
}

/// Calls `ergo_nipopow::NipopowAlgos::pack_interlinks`.
///
/// Claimed: there is one field for each run of equal ids, in order.
#[verifier::external_body]
fn pack_interlinks(ids: &Vec<[u8; 32]>) -> (r: Vec<([u8; 2], Vec<u8>)>)
    requires
        ids@.len() > 0,
        packable(ids_view(ids@)),
    ensures
        extension_view(r@) == packed(ids_view(ids@)),
{
    let ids = ids.iter().map(|id| ergo_chain_types::BlockId((*id).into())).collect();
    ergo_nipopow::NipopowAlgos::pack_interlinks(ids)
}

/// The serialized proof that the interlinks stand in an extension of the
/// given fields; none where no proof is found.
pub uninterp spec fn interlinks_proof(fields: Seq<(Seq<u8>, Seq<u8>)>) -> Option<Seq<u8>>;

/// Calls `ergo_nipopow::NipopowAlgos::proof_for_interlink_vector` on the
/// extension that `ergo_chain_types::ExtensionCandidate::new` makes of the
/// fields, and serializes the proof.
///
/// Claimed: the bytes of the proof, or that there is none, depend on the
/// fields alone.
#[verifier::external_body]
fn proof_for_interlinks(fields: &Vec<([u8; 2], Vec<u8>)>) -> (r: Option<Vec<u8>>)
    requires
        forall|i: int| 0 <= i < fields@.len() ==> (#[trigger] fields@[i]).1@.len() <= 64,
    ensures
        (match r {
            Some(bytes) => Some(bytes@),
            None => None,
        }) == interlinks_proof(extension_view(fields@)),
{
    let extension = ergo_chain_types::ExtensionCandidate::new(fields.clone()).ok()?;
    let proof = ergo_nipopow::NipopowAlgos::proof_for_interlink_vector(&extension)?;
    proof.scorex_serialize_bytes().ok()
}

/// Whether two ids are the same.
pub(crate) fn same_id(a: &[u8; 32], b: &[u8; 32]) -> (r: bool)
    ensures
        r == (a@ == b@),
{
    let mut i: usize = 0;
    while i < 32
        invariant
            i <= 32,
            forall|j: int| 0 <= j < i ==> a@[j] == b@[j],
        decreases 32 - i,
    {
        if a[i] != b[i] {
            return false;
        }
        i = i + 1;
    }
    assert(a@ =~= b@);
    true
}

/// The last run of a vector ends in its last id, no run is empty, and there
/// are at most as many runs, none longer, than ids.
proof fn lemma_runs(ids: Seq<Seq<u8>>)
    ensures
        ids.len() > 0 ==> runs(ids).len() > 0 && runs(ids).last().0 == ids.last(),
        runs(ids).len() <= ids.len(),
        forall|i: int| 0 <= i < runs(ids).len() ==> 1 <= (#[trigger] runs(ids)[i]).1 <= ids.len(),
        forall|i: int|
            0 <= i < runs(ids).len() ==> ids.contains((#[trigger] runs(ids)[i]).0),
    decreases ids.len(),
{
    if ids.len() > 0 {
        let past = ids.drop_last();
        lemma_runs(past);
        assert forall|i: int| 0 <= i < runs(ids).len() implies ids.contains(
            (#[trigger] runs(ids)[i]).0,
        ) by {
            if i < runs(ids).len() - 1 {
                assert(past.contains(runs(past)[i].0));
                let j = choose|j: int| 0 <= j < past.len() && past[j] == runs(past)[i].0;
                assert(ids[j] == runs(ids)[i].0);
            } else {
                assert(ids[ids.len() - 1] == ids.last());
            }
        }
    }
}

/// Whether a vector can be packed.
fn is_packable(ids: &Vec<[u8; 32]>) -> (r: bool)
    ensures
        r == packable(ids_view(ids@)),
{
    let ghost view = ids_view(ids@);
    let mut count: u64 = 0;
    let mut last: u64 = 0;
    let mut fits: bool = true;
    let mut i: usize = 0;
    assert(view.take(0) =~= Seq::empty());
    while i < ids.len()
        invariant
            i <= ids@.len(),
            view == ids_view(ids@),
            count == runs(view.take(i as int)).len(),
            count > 0 ==> last == runs(view.take(i as int)).last().1,
            count <= i,
            last <= i,
            i > 0 ==> count > 0,
            fits == (forall|j: int|
                0 <= j < runs(view.take(i as int)).len() ==> (#[trigger] runs(
                    view.take(i as int),
                )[j]).1 <= 255),
        decreases ids@.len() - i,
    {
        let ghost past = view.take(i as int);
        let ghost now = view.take(i + 1);
        assert(now.drop_last() =~= past);
        assert(now.last() == ids@[i as int]@);
        proof {
            lemma_runs(past);
        }
        if i > 0 && same_id(&ids[i], &ids[i - 1]) {
            assert(past.last() == ids@[i - 1]@);
            last = last + 1;
        } else {
            assert(i > 0 ==> past.last() == ids@[i - 1]@);
            last = 1;
            count = count + 1;
        }
        let ghost fitted = fits;
        if last > 255 {
            fits = false;
        }
        proof {
            let n = runs(now).len() - 1;
            if fitted && last <= 255 {
                assert forall|j: int| 0 <= j < runs(now).len() implies (#[trigger] runs(now)[j]).1
                    <= 255 by {
                    if j < n {
                        assert(runs(past)[j].1 <= 255);
                    }
                }
            } else if last > 255 {
                assert(runs(now)[n].1 > 255);
            } else {
                let j = choose|j: int| 0 <= j < runs(past).len() && (#[trigger] runs(past)[j]).1 > 255;
                if j < n {
                    assert(runs(now)[j].1 > 255);
                } else {
                    assert(runs(now)[n].1 > 255);
                }
            }
        }
        i = i + 1;
    }
    assert(view.take(i as int) =~= view);
    fits && count <= 256
}

// -------------------------------------------------------------------- steps

/// A level that interlinks can be raised by, or the note of why there is none.
///
/// A negative level stands for more ids than a list can hold. Above the top
/// level so many ids of one header come out that they cannot be packed.
pub open spec fn usable_level(level: Result<i32, Seq<char>>) -> Result<i32, Seq<char>> {
    match level {
        Err(e) => Err("update_interlinks: "@ + e),
        Ok(level) => if level < 0 {
            Err("capacity overflow"@)
        } else if level <= TOP_LEVEL {
            Ok(level)
        } else {
            Err("attempt to add with overflow"@)
        },
    }
}

/// A level that interlinks can be raised by, or the note of why there is
/// none.
pub fn check_level(level: &Result<i32, String>) -> (r: Result<i32, String>)
    ensures
        level_view(r) == usable_level(level_view(*level)),
{
    match level {
        Err(e) => Err(join2("update_interlinks: ", e.as_str())),
        Ok(level) => if *level < 0 {
            Err("capacity overflow".to_owned())
        } else if *level <= TOP_LEVEL {
            Ok(*level)
        } else {
            Err("attempt to add with overflow".to_owned())
        },
    }
}

/// The interlinks behind a header with the given level and interlinks, or the
/// note of what keeps them from being worked out. The level of the first block
/// has no part in it.
pub open spec fn next_interlinks(
    prev: HeaderView,
    level: Result<i32, Seq<char>>,
    before: Seq<Seq<u8>>,
) -> Result<Seq<Seq<u8>>, Seq<char>> {
    if prev.height == 1 {
        Ok(seq![prev.id])
    } else {
        match level_fault(prev) {
            Some(note) => Err(note),
            None => match usable_level(level) {
                Err(e) => Err(e),
                Ok(level) => Ok(raised(prev.id, before, level as int)),
            },
        }
    }
}

/// What a list of ids or a note says.
pub open spec fn links_view(r: Result<Vec<[u8; 32]>, String>) -> Result<Seq<Seq<u8>>, Seq<char>> {
    match r {
        Ok(ids) => Ok(ids_view(ids@)),
        Err(e) => Err(e@),
    }
}

/// Works out the interlinks behind a header with the given level and
/// interlinks.
pub fn follow_interlinks(
    prev: &ChainHeader,
    level: &Result<i32, String>,
    before: &Vec<[u8; 32]>,
) -> (r: Result<Vec<[u8; 32]>, String>)
    requires
        before@.len() > 0,
    ensures
        links_view(r) == next_interlinks(prev@, level_view(*level), ids_view(before@)),
{
    if prev.height == 1 {
        let ids: Vec<[u8; 32]> = vec![prev.id];
        assert(ids_view(ids@) =~= seq![prev@.id]);
        return Ok(ids);
    }
    match find_level_fault(prev) {
        Some(note) => return Err(note),
        None => {},
    }
    match check_level(level) {
        Ok(level) => Ok(raise(&prev.id, before, level)),
        Err(e) => Err(e),
    }
}

/// The proof that belongs to interlinks, or the note of what keeps it from
/// being made; `missing` is the note where none is found.
pub open spec fn links_proof(ids: Seq<Seq<u8>>, missing: Seq<char>) -> Result<
    Seq<u8>,
    Seq<char>,
> {
    if !packable(ids) {
        Err("attempt to add with overflow"@)
    } else {
        match interlinks_proof(packed(ids)) {
            Some(proof) => Ok(proof),
            None => Err(missing),
        }
    }
}

/// Packs interlinks and makes the proof that belongs to them.
pub fn prove_interlinks(ids: &Vec<[u8; 32]>, missing: &str) -> (r: Result<Vec<u8>, String>)
    requires
        ids@.len() > 0,
    ensures
        (match r {
            Ok(proof) => Ok(proof@),
            Err(e) => Err(e@),
        }) == links_proof(ids_view(ids@), missing@),
{
    if !is_packable(ids) {
        return Err("attempt to add with overflow".to_owned());
    }
    let fields: Vec<([u8; 2], Vec<u8>)> = pack_interlinks(ids);
    proof {
        let view = ids_view(ids@);
        lemma_runs(view);
        assert(extension_view(fields@).len() == fields@.len());
        assert forall|i: int| 0 <= i < fields@.len() implies (#[trigger] fields@[i]).1@.len()
            <= 64 by {
            assert(extension_view(fields@)[i].1 == packed(view)[i].1);
            assert(view.contains(runs(view)[i].0));
            assert(runs(view)[i].0.len() == 32);
        }
    }
    match proof_for_interlinks(&fields) {
        Some(proof) => Ok(proof),
        None => Err(missing.to_owned()),
    }
}

// --------------------------------------------------------------------- laws

/// The ids that a run stands for, run after run.
pub open spec fn expanded(rs: Seq<(Seq<u8>, nat)>) -> Seq<Seq<u8>>
    decreases rs.len(),
{
    if rs.len() == 0 {
        Seq::empty()
    } else {
        expanded(rs.drop_last()) + Seq::new(rs.last().1, |i: int| rs.last().0)
    }
}

/// The runs of a vector stand for the vector.
proof fn lemma_runs_expand(ids: Seq<Seq<u8>>)
    ensures
        expanded(runs(ids)) == ids,
    decreases ids.len(),
{
    if ids.len() > 0 {
        let past = ids.drop_last();
        let before = runs(past);
        let now = runs(ids);
        lemma_runs_expand(past);
        lemma_runs(past);
        assert(past.push(ids.last()) =~= ids);
        if before.len() > 0 && before.last().0 == ids.last() {
            assert(now.drop_last() =~= before.drop_last());
            assert(expanded(now) =~= expanded(before).push(ids.last()));
        } else {
            assert(now.drop_last() =~= before);
            assert(expanded(now) =~= expanded(before).push(ids.last()));
        }
    }
}

/// Packing loses nothing: two vectors that can be packed and pack to the same
/// fields are the same.
pub proof fn law_packing_tells_apart(a: Seq<Seq<u8>>, b: Seq<Seq<u8>>)
    requires
        packable(a),
        packable(b),
        packed(a) == packed(b),
    ensures
        a == b,
{
    let ra = runs(a);
    let rb = runs(b);
    assert(ra.len() == packed(a).len() && rb.len() == packed(b).len());
    assert forall|i: int| 0 <= i < ra.len() implies ra[i] == rb[i] by {
        let va = packed(a)[i].1;
        let vb = packed(b)[i].1;
        assert(va == vb);
        assert(va[0] == ra[i].1 as u8 && vb[0] == rb[i].1 as u8);
        assert(va.skip(1) =~= ra[i].0);
        assert(vb.skip(1) =~= rb[i].0);
        assert(ra[i].1 <= 255 && rb[i].1 <= 255);
    }
    assert(ra =~= rb);
    lemma_runs_expand(a);
    lemma_runs_expand(b);
}

/// Where interlinks can be worked out they are not empty and no longer than
/// one place for each level and one for the first block; behind a header that
/// is not the first block they begin as before, and they end in the id of
/// that header as often as its level says.
pub proof fn law_interlinks(
    prev: HeaderView,
    level: Result<i32, Seq<char>>,
    before: Seq<Seq<u8>>,
)
    requires
        0 < before.len() <= TOP_LEVEL + 1,
    ensures
        next_interlinks(prev, level, before) matches Ok(ids) ==> {
            &&& 0 < ids.len() <= TOP_LEVEL + 1
            &&& prev.height != 1 ==> ids[0] == before[0]
            &&& prev.height != 1 ==> (level matches Ok(level) && forall|i: int|
                ids.len() - level <= i < ids.len() ==> ids[i] == prev.id)
        },
{
}

/// Raised interlinks end in the id of the header as often as its level says;
/// before that they are what they were. They grow only where the level takes
/// more places than they have behind the first, which always stays.
pub proof fn law_raised(id: Seq<u8>, before: Seq<Seq<u8>>, level: int)
    requires
        before.len() > 0,
        level >= 0,
    ensures
        ({
            let after = raised(id, before, level);
            &&& after.len() == if before.len() > level {
                before.len() as int
            } else {
                level + 1
            }
            &&& forall|i: int| 0 <= i < after.len() - level ==> #[trigger] after[i] == before[i]
            &&& forall|i: int| after.len() - level <= i < after.len() ==> #[trigger] after[i] == id
        }),
{
}

/// The runs of a vector stand for it one after another; none is empty, and
/// neighbours have different ids.
pub proof fn law_runs(ids: Seq<Seq<u8>>)
    ensures
        expanded(runs(ids)) == ids,
        forall|i: int| 0 <= i < runs(ids).len() ==> (#[trigger] runs(ids)[i]).1 > 0,
        forall|i: int, j: int|
            0 <= i < runs(ids).len() && j == i + 1 && j < runs(ids).len() ==> (#[trigger] runs(
                ids,
            )[i]).0 != (#[trigger] runs(ids)[j]).0,
    decreases ids.len(),
{
    lemma_runs(ids);
    lemma_runs_expand(ids);
    if ids.len() > 0 {
        let past = ids.drop_last();
        law_runs(past);
        let before = runs(past);
        let now = runs(ids);
        assert forall|i: int, j: int| 0 <= i < now.len() && j == i + 1 && j < now.len() implies (
        #[trigger] now[i]).0 != (#[trigger] now[j]).0 by {
            assert(now[i].0 == before[i].0);
            if j < before.len() {
                assert(before[i].0 != before[j].0);
                assert(now[j].0 == before[j].0);
            } else {
                assert(before[i] == before.last());
            }
        }
    }
}

/// A vector is packed run by run, in order: the key is the byte 1 and the
/// number of the run, the value the length of the run in one byte and the id
/// behind it. It can be packed where there are at most 256 runs, of at most 255
/// ids each.
pub proof fn law_packed(ids: Seq<Seq<u8>>)
    ensures
        packed(ids).len() == runs(ids).len(),
        packable(ids) <==> runs(ids).len() <= 256 && forall|i: int|
            0 <= i < runs(ids).len() ==> (#[trigger] runs(ids)[i]).1 <= 255,
        packable(ids) ==> forall|i: int|
            0 <= i < runs(ids).len() ==> {
                let (key, value) = #[trigger] packed(ids)[i];
                &&& key.len() == 2 && key[0] == 1 && key[1] == i
                &&& value.len() == runs(ids)[i].0.len() + 1
                &&& value[0] == runs(ids)[i].1
                &&& value.skip(1) == runs(ids)[i].0
            },
{
    if packable(ids) {
        assert forall|i: int| 0 <= i < runs(ids).len() implies {
            let (key, value) = #[trigger] packed(ids)[i];
            &&& key.len() == 2 && key[0] == 1 && key[1] == i
            &&& value.len() == runs(ids)[i].0.len() + 1
            &&& value[0] == runs(ids)[i].1
            &&& value.skip(1) == runs(ids)[i].0
        } by {
            assert(runs(ids)[i].1 <= 255);
            assert(packed(ids)[i].1.skip(1) =~= runs(ids)[i].0);
        }
    }
}

/// Behind the first block the interlinks are its id alone. Behind any other
/// header they are those before it, raised by its level, where it has one from 0
/// to 256; what keeps its level from being used is the note otherwise.
pub proof fn law_next_interlinks(
    prev: HeaderView,
    level: Result<i32, Seq<char>>,
    before: Seq<Seq<u8>>,
)
    ensures
        prev.height == 1 ==> (next_interlinks(prev, level, before) matches Ok(ids) && ids.len() == 1
            && ids[0] == prev.id),
        prev.height != 1 ==> match level_fault(prev) {
            Some(note) => next_interlinks(prev, level, before) == Err::<Seq<Seq<u8>>, Seq<char>>(
                note,
            ),
            None => next_interlinks(prev, level, before) == match level {
                Err(e) => Err::<Seq<Seq<u8>>, Seq<char>>("update_interlinks: "@ + e),
                Ok(level) => if 0 <= level <= 256 {
                    Ok(raised(prev.id, before, level as int))
                } else if level < 0 {
                    Err("capacity overflow"@)
                } else {
                    Err("attempt to add with overflow"@)
                },
            },
        },
{
}

/// The proof that belongs to interlinks is the one for their packed form; there
/// is none where they cannot be packed or none is found.
pub proof fn law_links_proof(ids: Seq<Seq<u8>>, missing: Seq<char>)
    ensures
        links_proof(ids, missing) matches Ok(bytes) ==> packable(ids) && interlinks_proof(
            packed(ids),
        ) == Some(bytes),
        links_proof(ids, missing) is Ok <==> packable(ids) && interlinks_proof(packed(ids)) is Some,
        packable(ids) && links_proof(ids, missing) is Err ==> links_proof(ids, missing)->Err_0
            == missing,
        !packable(ids) ==> links_proof(ids, missing) == Err::<Seq<u8>, Seq<char>>(
            "attempt to add with overflow"@,
        ),
{
}

} // verus!
