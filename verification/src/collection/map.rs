//! The resumable codec for associative containers.
//!
//! A map is a sequence whose slots are key/value pairs: a length header,
//! then each entry's key before its value.  A suspension mid-value retains
//! the already-decoded key in the partial accumulator until the value
//! completes, and the pair is appended atomically — exactly the behaviour
//! of the pair codec driven by the sequence codec.
//!
//! Entries are encoded in the order the container holds them, and decoded
//! entries are appended in wire order.  Whether duplicate keys are
//! collapsed is the container's policy, not the codec's: the
//! insertion-ordered container here preserves them.

use vstd::prelude::*;

use crate::codec::{Decode, Encode, Format, round_trips};
use crate::collection::seq::{lemma_seq_round_trips, SeqDecode, SeqEncode};
use crate::intrinsic::pair::{lemma_pair_round_trips, PairDecode, PairEncode};

verus! {

/// The resumable encoder for an insertion-ordered map held as a run of
/// key/value entries.
pub type MapEncode<F, EK, EV> = SeqEncode<F, PairEncode<EK, EV>, Vec<(<EK as Encode>::Data, <EV as Encode>::Data)>>;

/// The resumable decoder for an insertion-ordered map held as a run of
/// key/value entries.
pub type MapDecode<F, DK, DV> = SeqDecode<F, PairDecode<DK, DV>, Vec<(<DK as Decode>::Data, <DV as Decode>::Data)>>;

/// The round-trip law for maps: whenever the key pair and the value pair
/// each agree, so does the map pair, under any format.
pub proof fn lemma_map_round_trips<F: Format, EK: Encode, EV: Encode, DK: Decode<Data = <EK as Encode>::Data>, DV: Decode<Data = <EV as Encode>::Data>>()
    requires
        round_trips::<EK, DK>(),
        round_trips::<EV, DV>(),
    ensures
        round_trips::<MapEncode<F, EK, EV>, MapDecode<F, DK, DV>>(),
{
    lemma_pair_round_trips::<EK, EV, DK, DV>();
    lemma_seq_round_trips::<F, PairEncode<EK, EV>, PairDecode<DK, DV>, Vec<(<EK as Encode>::Data, <EV as Encode>::Data)>>();
}

} // verus!
