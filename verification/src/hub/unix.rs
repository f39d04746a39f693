//! Which local sockets a hub opens and closes: one for each band that it relays in.
use crate::crypto::BandId;
use crate::hex;
use crate::hub::federation;
use crate::hub::frame::band_hex;
use crate::octets::same_bytes;
use vstd::prelude::*;

verus! {

/// The name of a band's socket.
pub fn socket_name(band: &BandId) -> (s: String)
    ensures
        s@ == hex::hex_of(band@) + ".sock"@,
{
    let mut s = band_hex(band);
    s.append(".sock");
    s
}

fn lists(bands: &[BandId], band: &BandId) -> (r: bool)
    ensures
        r == federation::id_views(bands@).contains(band@),
{
    let mut i: usize = 0;
    while i < bands.len()
        invariant
            i <= bands@.len(),
            forall|k: int| 0 <= k < i ==> #[trigger] federation::id_views(bands@)[k] != band@,
        decreases bands@.len() - i,
    {
        assert(federation::id_views(bands@)[i as int] == bands@[i as int]@);
        if same_bytes(bands[i].as_slice(), band.as_slice()) {
            return true;
        }
        i = i + 1;
    }
    false
}

/// The bands of one list that are not in another, in their order.
pub open spec fn missing(of: Seq<Seq<u8>>, from: Seq<Seq<u8>>) -> Seq<Seq<u8>>
    decreases of.len(),
{
    if of.len() == 0 {
        Seq::empty()
    } else if from.contains(of.last()) {
        missing(of.drop_last(), from)
    } else {
        missing(of.drop_last(), from).push(of.last())
    }
}

fn not_in(of: &[BandId], from: &[BandId]) -> (out: Vec<BandId>)
    ensures
        federation::id_views(out@) == missing(
            federation::id_views(of@),
            federation::id_views(from@),
        ),
{
    let ghost all = federation::id_views(of@);
    let mut out: Vec<BandId> = Vec::new();
    let mut i: usize = 0;
    assert(all.take(0) =~= Seq::empty());
    assert(federation::id_views(out@) =~= Seq::empty());
    while i < of.len()
        invariant
            i <= of@.len(),
            all == federation::id_views(of@),
            federation::id_views(out@) == missing(
                all.take(i as int),
                federation::id_views(from@),
            ),
        decreases of@.len() - i,
    {
        let ghost before = out@;
        assert(all.take(i + 1).drop_last() =~= all.take(i as int));
        assert(all.take(i + 1).last() == of@[i as int]@);
        if !lists(from, &of[i]) {
            out.push(of[i]);
            assert(federation::id_views(out@) =~= federation::id_views(before).push(
                of@[i as int]@,
            ));
        }
        i = i + 1;
    }
    assert(all.take(i as int) =~= all);
    out
}

/// The sockets to open and to close so that there is one for each band: those of bands that
/// have none, and those whose bands are gone.
pub fn reconcile(want: &[BandId], active: &[BandId]) -> (r: (Vec<BandId>, Vec<BandId>))
    ensures
        federation::id_views(r.0@) == missing(
            federation::id_views(want@),
            federation::id_views(active@),
        ),
        federation::id_views(r.1@) == missing(
            federation::id_views(active@),
            federation::id_views(want@),
        ),
{
    (not_in(want, active), not_in(active, want))
}

/// Once the sockets to open are opened and those to close are closed, there is one for each band
/// that is wanted, and for no other.
pub proof fn lemma_reconciled(want: Seq<Seq<u8>>, active: Seq<Seq<u8>>, band: Seq<u8>)
    ensures
        want.contains(band) <==> missing(want, active).contains(band) || active.contains(band)
            && !missing(active, want).contains(band),
        missing(want, active).contains(band) ==> !active.contains(band),
        missing(active, want).contains(band) ==> active.contains(band) && !want.contains(band),
{
    lemma_missing_exact(want, active, band);
    lemma_missing_exact(active, want, band);
}

/// A band is missing from a list exactly if it is not in it.
pub proof fn lemma_missing_exact(of: Seq<Seq<u8>>, from: Seq<Seq<u8>>, band: Seq<u8>)
    ensures
        missing(of, from).contains(band) <==> of.contains(band) && !from.contains(band),
    decreases of.len(),
{
    if of.len() > 0 {
        let front = of.drop_last();
        let before = missing(front, from);
        let after = missing(of, from);
        lemma_missing_exact(front, from, band);
        assert(of[of.len() - 1] == of.last());
        if of.contains(band) {
            let i = of.index_of(band);
            if i < front.len() {
                assert(front[i] == band);
            }
        }
        if front.contains(band) {
            assert(of[front.index_of(band)] == band);
        }
        if !from.contains(of.last()) {
            assert(after[after.len() - 1] == of.last());
            if before.contains(band) {
                assert(after[before.index_of(band)] == band);
            }
            if after.contains(band) {
                let i = after.index_of(band);
                if i < before.len() {
                    assert(before[i] == band);
                }
            }
        }
    }
}

} // verus!
