//! Reed-Solomon erasure coding of groups of equally long shards.

use crate::text::{decimal, push_str, push_usize, string};
use crate::turbine::error::TurbineError;
use vstd::prelude::*;

verus! {

/// The bytes of each shard.
pub open spec fn shard_bytes(shards: Seq<Vec<u8>>) -> Seq<Seq<u8>> {
    Seq::new(shards.len(), |i: int| shards[i]@)
}

/// The bytes of each shard that is there.
pub open spec fn known_bytes(shards: Seq<Option<Vec<u8>>>) -> Seq<Option<Seq<u8>>> {
    Seq::new(
        shards.len(),
        |i: int|
            match shards[i] {
                Some(v) => Some(v@),
                None => None,
            },
    )
}

/// How many shards are there.
pub open spec fn present(shards: Seq<Option<Seq<u8>>>) -> nat
    decreases shards.len(),
{
    if shards.len() == 0 {
        0
    } else {
        present(shards.drop_last()) + if shards.last() is Some {
            1nat
        } else {
            0nat
        }
    }
}

/// The field has 256 elements, one for each shard.
pub open spec fn code_exists(data: nat, parity: nat) -> bool {
    0 < data && 0 < parity && data + parity <= 256
}

/// All shards have the same length, and it is not zero.
pub open spec fn equally_long(shards: Seq<Seq<u8>>) -> bool {
    forall|i: int|
        0 <= i < shards.len() ==> (#[trigger] shards[i]).len() > 0 && shards[i].len()
            == shards[0].len()
}

/// All shards that are there have the same length, and it is not zero.
pub open spec fn known_equally_long(shards: Seq<Option<Seq<u8>>>) -> bool {
    forall|i: int, j: int|
        0 <= i < shards.len() && 0 <= j < shards.len() && #[trigger] shards[i] is Some
            && #[trigger] shards[j] is Some ==> shards[i]->0.len() > 0 && shards[i]->0.len()
            == shards[j]->0.len()
}

/// What is there is part of `full`.
pub open spec fn part_of(shards: Seq<Option<Seq<u8>>>, full: Seq<Seq<u8>>) -> bool {
    shards.len() == full.len() && forall|i: int|
        0 <= i < shards.len() && #[trigger] shards[i] is Some ==> shards[i]->0 == full[i]
}

/// Every place is filled and what was there stays; if what was there is part of an encoding
/// of so many data shards and so many parity shards, all is as in the encoding.
pub open spec fn rebuilds(
    before: Seq<Option<Seq<u8>>>,
    data: nat,
    parity: nat,
    after: Seq<Seq<u8>>,
) -> bool {
    &&& after.len() == before.len()
    &&& part_of(before, after)
    &&& forall|d: Seq<Seq<u8>>|
        d.len() == data && part_of(before, d + #[trigger] rs_parity(d, parity)) ==> after == d
            + rs_parity(d, parity)
}

/// The parity shards that `ReedSolomon::encode` computes for the data shards.
pub uninterp spec fn rs_parity(data: Seq<Seq<u8>>, parity: nat) -> Seq<Seq<u8>>;

/// All shards as `ReedSolomon::reconstruct` leaves them, for a code with `data` data shards.
pub uninterp spec fn rs_rebuilt(shards: Seq<Option<Seq<u8>>>, data: nat) -> Seq<Seq<u8>>;

/// `ReedSolomon::new` and `ReedSolomon::encode`: succeeds if the code exists, there is a
/// place for every shard, and all places are equally long and not empty; then the data
/// shards stay, and the parity shards, equally long, depend on the data shards and their
/// own number alone. On an error nothing is written. The text of the error is the crate's.
#[verifier::external_body]
fn reed_solomon_encode(data_shards: usize, parity_shards: usize, shards: &mut Vec<Vec<u8>>) -> (r:
    Result<(), String>)
    requires
        data_shards + parity_shards <= usize::MAX,
    ensures
        r is Ok <==> {
            &&& code_exists(data_shards as nat, parity_shards as nat)
            &&& old(shards)@.len() == data_shards + parity_shards
            &&& equally_long(shard_bytes(old(shards)@))
        },
        r is Ok ==> {
            let data = shard_bytes(old(shards)@).take(data_shards as int);
            let parity = rs_parity(data, parity_shards as nat);
            &&& shard_bytes(final(shards)@) == data + parity
            &&& parity.len() == parity_shards
            &&& equally_long(data + parity)
        },
        r is Err ==> shard_bytes(final(shards)@) == shard_bytes(old(shards)@),
{
    let rs = reed_solomon_erasure::galois_8::ReedSolomon::new(data_shards, parity_shards).map_err(
        |e| e.to_string(),
    )?;
    rs.encode(shards).map_err(|e| e.to_string())
}

/// `ReedSolomon::new` and `ReedSolomon::reconstruct`: succeeds if the code exists, there
/// is a place for every shard, the shards that are there are equally long and not empty,
/// and there are at least as many of them as data shards; then every place is filled,
/// what was there stays, and what is filled in depends on what was there alone. In
/// particular the shards of an encoding come back whole. On an error nothing is written.
/// The text of the error is the crate's.
#[verifier::external_body]
fn reed_solomon_reconstruct(
    data_shards: usize,
    parity_shards: usize,
    shards: &mut [Option<Vec<u8>>],
) -> (r: Result<(), String>)
    requires
        data_shards + parity_shards <= usize::MAX,
    ensures
        r is Ok <==> {
            &&& code_exists(data_shards as nat, parity_shards as nat)
            &&& old(shards)@.len() == data_shards + parity_shards
            &&& known_equally_long(known_bytes(old(shards)@))
            &&& present(known_bytes(old(shards)@)) >= data_shards
        },
        r is Ok ==> {
            let before = known_bytes(old(shards)@);
            let after = rs_rebuilt(before, data_shards as nat);
            &&& known_bytes(final(shards)@) == Seq::new(after.len(), |i: int| Some(after[i]))
            &&& rebuilds(before, data_shards as nat, parity_shards as nat, after)
        },
        r is Err ==> known_bytes(final(shards)@) == known_bytes(old(shards)@),
{
    let rs = reed_solomon_erasure::galois_8::ReedSolomon::new(data_shards, parity_shards).map_err(
        |e| e.to_string(),
    )?;
    rs.reconstruct(shards).map_err(|e| e.to_string())
}

/// A Reed-Solomon code: so many data shards, so many parity shards.
pub struct ErasureCoder {
    data_shards: usize,
    parity_shards: usize,
}

/// The number of parity shards at a FEC rate: that percentage of the data shards, but one
/// at least.
pub open spec fn parity_for_rate(data_shards: nat, percent: nat) -> nat {
    if data_shards * percent / 100 < 1 {
        1
    } else {
        data_shards * percent / 100
    }
}

pub open spec fn count_text(before: Seq<char>, want: nat, between: Seq<char>, have: nat) -> Seq<
    char,
> {
    before + decimal(want) + between + decimal(have)
}

impl ErasureCoder {
    pub closed spec fn data_count(&self) -> nat {
        self.data_shards as nat
    }

    pub closed spec fn parity_count(&self) -> nat {
        self.parity_shards as nat
    }

    pub fn new(data_shards: usize, parity_shards: usize) -> (r: Self)
        ensures
            r.data_count() == data_shards,
            r.parity_count() == parity_shards,
    {
        ErasureCoder { data_shards, parity_shards }
    }

    /// Create from a FEC rate percentage. E.g. 33% means ~33% parity shreds.
    pub fn from_fec_rate(data_shards: usize, fec_rate_percent: u32) -> (r: Self)
        requires
            data_shards * fec_rate_percent <= u64::MAX,
        ensures
            r.data_count() == data_shards,
            r.parity_count() == parity_for_rate(
                data_shards as nat,
                fec_rate_percent as nat,
            ) as usize,
            data_shards * fec_rate_percent < 200 ==> r.parity_count() == 1,
            100 <= data_shards * fec_rate_percent < 100 * usize::MAX ==> r.parity_count()
                == data_shards * fec_rate_percent / 100,
    {
        let product: u64 = data_shards as u64 * fec_rate_percent as u64;
        let share: u64 = product / 100;
        let parity_shards: usize = if share < 1 {
            1
        } else {
            share as usize
        };
        ErasureCoder { data_shards, parity_shards }
    }

    pub fn data_shards(&self) -> (r: usize)
        ensures
            r == self.data_count(),
    {
        self.data_shards
    }

    pub fn parity_shards(&self) -> (r: usize)
        ensures
            r == self.parity_count(),
    {
        self.parity_shards
    }

    /// Encode: takes `data_shards` shards, all of the same length, and returns
    /// `parity_shards` parity shards.
    pub fn encode(&self, data: &[Vec<u8>]) -> (r: Result<Vec<Vec<u8>>, TurbineError>)
        requires
            self.data_count() + self.parity_count() <= usize::MAX,
        ensures
            data@.len() != self.data_count() ==> (r matches Err(TurbineError::ErasureCoding(s))
                && s@ == count_text(
                "expected "@,
                self.data_count(),
                " data shards, got "@,
                data@.len(),
            )),
            data@.len() == self.data_count() && data@.len() == 0 ==> (r matches Ok(p) && p@.len()
                == 0),
            data@.len() == self.data_count() && data@.len() > 0 ==> {
                &&& r is Ok <==> code_exists(self.data_count(), self.parity_count())
                    && equally_long(shard_bytes(data@))
                &&& r is Err ==> r->Err_0 is ErasureCoding
                &&& r matches Ok(p) ==> {
                    &&& shard_bytes(p@) == rs_parity(shard_bytes(data@), self.parity_count())
                    &&& p@.len() == self.parity_count()
                    &&& forall|i: int| 0 <= i < p@.len() ==> (#[trigger] p@[i])@.len()
                        == data@[0]@.len()
                }
            },
    {
        if data.len() != self.data_shards {
            let mut text: String = string("expected ");
            push_usize(&mut text, self.data_shards);
            push_str(&mut text, " data shards, got ");
            push_usize(&mut text, data.len());
            return Err(TurbineError::ErasureCoding(text));
        }
        let mut parity: Vec<Vec<u8>> = Vec::new();
        if data.len() == 0 {
            return Ok(parity);
        }
        let shard_len: usize = data[0].len();
        let mut all: Vec<Vec<u8>> = Vec::new();
        let mut i: usize = 0;
        while i < self.data_shards
            invariant
                i <= self.data_shards == data@.len(),
                all@.len() == i,
                forall|k: int| 0 <= k < i ==> (#[trigger] all@[k])@ == data@[k]@,
            decreases self.data_shards - i,
        {
            all.push(vstd::slice::slice_to_vec(data[i].as_slice()));
            i = i + 1;
        }
        let mut j: usize = 0;
        while j < self.parity_shards
            invariant
                j <= self.parity_shards,
                self.data_shards + self.parity_shards <= usize::MAX,
                all@.len() == self.data_shards + j,
                self.data_shards == data@.len(),
                forall|k: int| 0 <= k < self.data_shards ==> (#[trigger] all@[k])@ == data@[k]@,
                forall|k: int|
                    self.data_shards <= k < all@.len() ==> (#[trigger] all@[k])@.len() == shard_len,
            decreases self.parity_shards - j,
        {
            let blank: Vec<u8> = vec![0u8; shard_len];
            all.push(blank);
            j = j + 1;
        }
        let ghost full = shard_bytes(all@);
        proof {
            assert(full.take(self.data_shards as int) =~= shard_bytes(data@));
            assert(equally_long(full) <==> equally_long(shard_bytes(data@))) by {
                assert(full[0] == data@[0]@);
                if equally_long(shard_bytes(data@)) {
                    assert(shard_bytes(data@)[0].len() > 0);
                    assert forall|k: int| 0 <= k < full.len() implies (#[trigger] full[k]).len() > 0
                        && full[k].len() == full[0].len() by {
                        if k < self.data_shards {
                            assert(full[k] == shard_bytes(data@)[k]);
                        }
                    }
                }
                if equally_long(full) {
                    assert forall|k: int| 0 <= k < data@.len() implies (#[trigger] shard_bytes(
                        data@,
                    )[k]).len() > 0 && shard_bytes(data@)[k].len() == shard_bytes(data@)[0].len() by {
                        assert(shard_bytes(data@)[k] == full[k]);
                        assert(shard_bytes(data@)[0] == full[0]);
                    }
                }
            }
        }
        match reed_solomon_encode(self.data_shards, self.parity_shards, &mut all) {
            Ok(()) => {
                let ghost coded = shard_bytes(all@);
                let ghost whole = all@;
                assert(coded == shard_bytes(data@) + rs_parity(
                    shard_bytes(data@),
                    self.parity_shards as nat,
                ));
                assert(coded.len() == all@.len());
                parity = all.split_off(self.data_shards);
                proof {
                    let p = rs_parity(shard_bytes(data@), self.parity_shards as nat);
                    assert forall|k: int| 0 <= k < parity@.len() implies (#[trigger] parity@[k])@
                        == p[k] by {
                        assert(coded[self.data_shards + k] == whole[self.data_shards + k]@);
                    }
                    assert(shard_bytes(parity@) =~= p);
                    assert forall|k: int| 0 <= k < parity@.len() implies (#[trigger] parity@[k])@.len()
                        == data@[0]@.len() by {
                        assert(coded[self.data_shards + k] == parity@[k]@);
                        assert(coded[0] == shard_bytes(data@)[0]);
                    }
                }
                Ok(parity)
            },
            Err(e) => Err(TurbineError::ErasureCoding(e)),
        }
    }

    /// Recover missing shards. Input is data + parity shards with None for missing ones.
    pub fn recover(&self, shards: &mut [Option<Vec<u8>>]) -> (r: Result<(), TurbineError>)
        requires
            self.data_count() + self.parity_count() <= usize::MAX,
        ensures
            ({
                let before = known_bytes(old(shards)@);
                let total = self.data_count() + self.parity_count();
                if before.len() != total {
                    r matches Err(TurbineError::ErasureCoding(s)) && s@ == count_text(
                        "expected "@,
                        total,
                        " total shards, got "@,
                        before.len(),
                    )
                } else if present(before) < self.data_count() {
                    r matches Err(TurbineError::InsufficientShreds { have, need }) && have
                        == present(before) && need == self.data_count()
                } else {
                    &&& r is Ok <==> code_exists(self.data_count(), self.parity_count())
                        && known_equally_long(before)
                    &&& r is Err ==> r->Err_0 is ErasureCoding
                    &&& r is Ok ==> {
                        let after = rs_rebuilt(before, self.data_count());
                        &&& known_bytes(final(shards)@) == Seq::new(
                            after.len(),
                            |i: int| Some(after[i]),
                        )
                        &&& rebuilds(before, self.data_count(), self.parity_count(), after)
                    }
                }
            }),
            r is Err ==> known_bytes(final(shards)@) == known_bytes(old(shards)@),
    {
        let total: usize = self.data_shards + self.parity_shards;
        let len: usize = shards.len();
        if len != total {
            let mut text: String = string("expected ");
            push_usize(&mut text, total);
            push_str(&mut text, " total shards, got ");
            push_usize(&mut text, len);
            return Err(TurbineError::ErasureCoding(text));
        }
        let ghost before = known_bytes(shards@);
        let mut have: usize = 0;
        let mut i: usize = 0;
        assert(before.take(0) =~= Seq::empty());
        while i < len
            invariant
                i <= len == shards@.len(),
                shards@ == old(shards)@,
                before == known_bytes(shards@),
                have == present(before.take(i as int)),
                have <= i,
            decreases len - i,
        {
            assert(before.take(i + 1).drop_last() =~= before.take(i as int));
            if shards[i].is_some() {
                have = have + 1;
            }
            i = i + 1;
        }
        assert(before.take(len as int) =~= before);
        if have < self.data_shards {
            return Err(TurbineError::InsufficientShreds { have, need: self.data_shards });
        }
        match reed_solomon_reconstruct(self.data_shards, self.parity_shards, shards) {
            Ok(()) => Ok(()),
            Err(e) => Err(TurbineError::ErasureCoding(e)),
        }
    }
}

/// What was lost of an encoding comes back, if enough of it is left to rebuild it.
pub proof fn lost_shards_come_back(
    data: Seq<Seq<u8>>,
    parity: nat,
    before: Seq<Option<Seq<u8>>>,
    after: Seq<Seq<u8>>,
)
    requires
        part_of(before, data + rs_parity(data, parity)),
        rebuilds(before, data.len(), parity, after),
    ensures
        after.take(data.len() as int) == data,
        after.skip(data.len() as int) == rs_parity(data, parity),
{
    assert(after == data + rs_parity(data, parity));
    assert(after.take(data.len() as int) =~= data);
    assert(after.skip(data.len() as int) =~= rs_parity(data, parity));
}

/// As many shards are present as are there: adding one that is there adds one, and adding a gap
/// adds none.
pub proof fn present_counts_what_is_there(shards: Seq<Option<Seq<u8>>>, shard: Seq<u8>)
    ensures
        present(Seq::empty()) == 0,
        present(shards.push(Some(shard))) == present(shards) + 1,
        present(shards.push(None)) == present(shards),
        present(shards) <= shards.len(),
    decreases shards.len(),
{
    assert(shards.push(Some(shard)).drop_last() =~= shards);
    assert(shards.push(None).drop_last() =~= shards);
    if shards.len() > 0 {
        present_counts_what_is_there(shards.drop_last(), shard);
    }
}

} // verus!
