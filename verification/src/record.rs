//! The index row of a key and its byte layout.
//!
//! A row is one byte string: an optional literal `DELETED`, an optional
//! literal `HASH` followed by exactly 32 hexadecimal digits, then the volume
//! identifiers separated by commas. It is read by position, never by
//! splitting on a class of characters.

use crate::bytes::{
    contains_byte, extend, free_of, has_prefix, join, join_with, lemma_join_front, lemma_join_split,
    lemma_split_join, lemma_split_pieces, literal, same, split, split_on, tail, to_vec, views,
    window,
};
use crate::encoding::{all_lower_hex, is_hex_text};
use vstd::prelude::*;

verus! {

/// The separator between volume identifiers.
pub const COMMA: u8 = 0x2c;

/// The length of a content hash written out.
pub const HASH_LEN: usize = 32;

/// Whether a key is there, unlinked, or gone.
#[derive(Clone, Copy, PartialEq, Eq, Debug, Structural)]
pub enum Deleted {
    /// The key is live.
    No,
    /// The key is unlinked: readers no longer see it, its bytes may still be
    /// on the volumes.
    Soft,
    /// The key has no row. This state exists in memory only.
    Hard,
}

/// Why a row cannot be written or read.
#[derive(Clone, Copy, PartialEq, Eq, Debug, Structural)]
pub enum RecordError {
    /// A record that stands for a missing row was to be written.
    HardDelete,
    /// `HASH` is followed by fewer than 32 bytes.
    TruncatedHash,
    /// `HASH` is followed by something other than 32 lower-case hexadecimal digits.
    MalformedHash,
    /// A live row names no volume.
    NoVolumes,
    /// A volume identifier is empty.
    EmptyVolume,
    /// A volume is named twice.
    DuplicateVolume,
}

/// What the index holds for a key.
#[derive(Clone, PartialEq, Eq, Debug)]
pub struct Record {
    /// The volumes that hold the key, in the order in which they were chosen.
    pub volumes: Vec<Vec<u8>>,
    /// Whether the key is live, unlinked or gone.
    pub deleted: Deleted,
    /// The MD5 of the content in lower-case hexadecimal, if known.
    pub hash: Option<Vec<u8>>,
}

/// A record as a mathematical value.
pub struct RecordView {
    pub volumes: Seq<Seq<u8>>,
    pub deleted: Deleted,
    pub hash: Option<Seq<u8>>,
}

impl View for Record {
    type V = RecordView;

    open spec fn view(&self) -> RecordView {
        RecordView {
            volumes: views(self.volumes@),
            deleted: self.deleted,
            hash: match self.hash {
                Some(h) => Some(h@),
                None => None,
            },
        }
    }
}

/// The literal `DELETED`.
pub open spec fn deleted_tag() -> Seq<u8> {
    seq![0x44u8, 0x45u8, 0x4cu8, 0x45u8, 0x54u8, 0x45u8, 0x44u8]
}

/// The literal `HASH`.
pub open spec fn hash_tag() -> Seq<u8> {
    seq![0x48u8, 0x41u8, 0x53u8, 0x48u8]
}

/// A volume identifier is not empty and holds no comma.
pub open spec fn valid_volume_id(id: Seq<u8>) -> bool {
    id.len() > 0 && !id.contains(COMMA)
}

impl RecordView {
    /// The invariants of the data model: every volume identifier is valid, no
    /// volume is named twice, a hash is 32 lower-case hexadecimal digits, and
    /// a live record names at least one volume.
    pub open spec fn wf(self) -> bool {
        &&& forall|i: int| 0 <= i < self.volumes.len() ==> valid_volume_id(#[trigger] self.volumes[i])
        &&& self.volumes.no_duplicates()
        &&& (self.hash matches Some(h) ==> h.len() == HASH_LEN && all_lower_hex(h))
        &&& (self.deleted == Deleted::No ==> self.volumes.len() > 0)
    }

    /// A record without a hash is written as its volume list alone, so that
    /// list must not itself begin with a literal of the layout.
    pub open spec fn unambiguous(self) -> bool {
        self.hash is None ==> {
            let list = join(self.volumes, COMMA);
            &&& !hash_tag().is_prefix_of(list)
            &&& (self.deleted == Deleted::No ==> !deleted_tag().is_prefix_of(list))
        }
    }

    /// The record that differs from this one in its state only.
    pub open spec fn with_state(self, deleted: Deleted) -> RecordView {
        RecordView { deleted, ..self }
    }
}

/// The record that stands for a missing row: no volume, no hash.
pub open spec fn absent_view() -> RecordView {
    RecordView { volumes: Seq::empty(), deleted: Deleted::Hard, hash: None }
}

/// The row of a record that is live or unlinked.
pub open spec fn encode(r: RecordView) -> Seq<u8> {
    let tag = if r.deleted == Deleted::Soft {
        deleted_tag()
    } else {
        Seq::empty()
    };
    let hash = match r.hash {
        Some(h) => hash_tag() + h,
        None => Seq::empty(),
    };
    tag + hash + join(r.volumes, COMMA)
}

/// The volume list of a row: nothing for an empty list, else the pieces
/// between commas.
pub open spec fn decode_volumes(list: Seq<u8>) -> Seq<Seq<u8>> {
    if list.len() == 0 {
        Seq::empty()
    } else {
        split(list, COMMA)
    }
}

/// Whether some identifier of the list is empty.
pub open spec fn has_empty(volumes: Seq<Seq<u8>>) -> bool {
    exists|i: int| 0 <= i < volumes.len() && (#[trigger] volumes[i]).len() == 0
}

/// The record that a row stands for, or why it stands for none.
pub open spec fn decode(row: Seq<u8>) -> Result<RecordView, RecordError> {
    let soft = deleted_tag().is_prefix_of(row);
    let rest = if soft {
        row.skip(7)
    } else {
        row
    };
    let hashed = hash_tag().is_prefix_of(rest);
    if hashed && rest.len() < 4 + HASH_LEN {
        Err(RecordError::TruncatedHash)
    } else if hashed && !all_lower_hex(rest.subrange(4, 4 + HASH_LEN as int)) {
        Err(RecordError::MalformedHash)
    } else {
        let volumes = decode_volumes(
            if hashed {
                rest.skip(4 + HASH_LEN as int)
            } else {
                rest
            },
        );
        if !soft && volumes.len() == 0 {
            Err(RecordError::NoVolumes)
        } else if has_empty(volumes) {
            Err(RecordError::EmptyVolume)
        } else if !volumes.no_duplicates() {
            Err(RecordError::DuplicateVolume)
        } else {
            Ok(
                RecordView {
                    volumes,
                    deleted: if soft {
                        Deleted::Soft
                    } else {
                        Deleted::No
                    },
                    hash: if hashed {
                        Some(rest.subrange(4, 4 + HASH_LEN as int))
                    } else {
                        None
                    },
                },
            )
        }
    }
}

/// A joined list is empty only if it has no piece or a single empty one.
proof fn lemma_join_nonempty(parts: Seq<Seq<u8>>, sep: u8)
    requires
        parts.len() >= 1,
        parts[0].len() > 0,
    ensures
        join(parts, sep).len() > 0,
{
    if parts.len() >= 2 {
        lemma_join_front(parts, sep);
    }
}

/// Reading a written row gives the record back.
///
/// This holds of every well-formed record that is live or unlinked and whose
/// row is unambiguous; a record with a hash always is.
pub proof fn lemma_round_trip(r: RecordView)
    requires
        r.wf(),
        r.deleted != Deleted::Hard,
        r.unambiguous(),
    ensures
        decode(encode(r)) == Ok::<RecordView, RecordError>(r),
{
    let list = join(r.volumes, COMMA);
    let hash = match r.hash {
        Some(h) => hash_tag() + h,
        None => Seq::<u8>::empty(),
    };
    let row = encode(r);
    let soft = deleted_tag().is_prefix_of(row);
    if r.deleted == Deleted::Soft {
        assert(row == deleted_tag() + hash + list);
        assert(deleted_tag() =~= row.subrange(0, 7));
        assert(row.skip(7) =~= hash + list);
    } else {
        assert(row =~= hash + list);
        if r.hash is Some {
            if soft {
                assert(row.subrange(0, 7)[0] == row[0]);
                assert(row[0] == hash_tag()[0]);
            }
        }
    }
    assert(soft == (r.deleted == Deleted::Soft));
    let rest = hash + list;
    let hashed = hash_tag().is_prefix_of(rest);
    match r.hash {
        Some(h) => {
            assert(hash_tag() =~= rest.subrange(0, 4));
            assert(rest.subrange(4, 36) =~= h);
            assert(rest.skip(36) =~= list);
        },
        None => {
            assert(rest =~= list);
        },
    }
    assert(hashed == (r.hash is Some));
    if r.volumes.len() == 0 {
        assert(list.len() == 0);
        assert(decode_volumes(list) =~= r.volumes);
    } else {
        assert(valid_volume_id(r.volumes[0]));
        lemma_join_nonempty(r.volumes, COMMA);
        assert(free_of(r.volumes, COMMA)) by {
            assert forall|i: int| 0 <= i < r.volumes.len() implies !(#[trigger] r.volumes[i]).contains(
                COMMA,
            ) by {
                assert(valid_volume_id(r.volumes[i]));
            }
        }
        lemma_split_join(r.volumes, COMMA);
    }
    assert(decode_volumes(list) == r.volumes);
    assert(!has_empty(r.volumes)) by {
        if has_empty(r.volumes) {
            let i = choose|i: int| 0 <= i < r.volumes.len() && (#[trigger] r.volumes[i]).len() == 0;
            assert(valid_volume_id(r.volumes[i]));
        }
    }
}

/// A row that can be read stands for a well-formed record that is live or
/// unlinked.
pub proof fn lemma_decoded_wf(row: Seq<u8>)
    requires
        decode(row) is Ok,
    ensures
        decode(row)->Ok_0.wf(),
        decode(row)->Ok_0.deleted != Deleted::Hard,
{
    let r = decode(row)->Ok_0;
    let soft = deleted_tag().is_prefix_of(row);
    let rest = if soft {
        row.skip(7)
    } else {
        row
    };
    let hashed = hash_tag().is_prefix_of(rest);
    let list = if hashed {
        rest.skip(4 + HASH_LEN as int)
    } else {
        rest
    };
    assert(r.volumes == decode_volumes(list));
    if list.len() > 0 {
        lemma_split_pieces(list, COMMA);
    }
    assert forall|i: int| 0 <= i < r.volumes.len() implies valid_volume_id(
        #[trigger] r.volumes[i],
    ) by {
        assert(!has_empty(r.volumes));
        assert(!r.volumes[i].contains(COMMA));
    }
}

/// A row that can be read is the row of the record that it stands for,
/// and that record's row is unambiguous.
pub proof fn lemma_row_of_decoded(row: Seq<u8>)
    requires
        decode(row) is Ok,
    ensures
        encode(decode(row)->Ok_0) == row,
        decode(row)->Ok_0.unambiguous(),
{
    let r = decode(row)->Ok_0;
    let soft = deleted_tag().is_prefix_of(row);
    let rest = if soft {
        row.skip(7)
    } else {
        row
    };
    let hashed = hash_tag().is_prefix_of(rest);
    let list = if hashed {
        rest.skip(4 + HASH_LEN as int)
    } else {
        rest
    };
    assert(r.volumes == decode_volumes(list));
    if list.len() > 0 {
        lemma_join_split(list, COMMA);
    }
    assert(join(r.volumes, COMMA) == list);
    if hashed {
        assert(rest =~= hash_tag() + rest.subrange(4, 4 + HASH_LEN as int) + list);
    }
    if soft {
        assert(row =~= deleted_tag() + rest);
    }
    assert(encode(r) =~= row);
}

/// The literal `DELETED`.
fn deleted_literal() -> (out: &'static [u8])
    ensures
        out@ == deleted_tag(),
{
    proof {
        reveal_strlit("DELETED");
    }
    let out = literal("DELETED");
    assert(out@ =~= deleted_tag());
    out
}

/// The literal `HASH`.
fn hash_literal() -> (out: &'static [u8])
    ensures
        out@ == hash_tag(),
{
    proof {
        reveal_strlit("HASH");
    }
    let out = literal("HASH");
    assert(out@ =~= hash_tag());
    out
}

/// Whether some identifier of the list is empty.
fn any_empty(volumes: &Vec<Vec<u8>>) -> (r: bool)
    ensures
        r == has_empty(views(volumes@)),
{
    let mut i: usize = 0;
    while i < volumes.len()
        invariant
            i <= volumes.len(),
            forall|j: int| 0 <= j < i ==> (#[trigger] views(volumes@)[j]).len() != 0,
        decreases volumes.len() - i,
    {
        if volumes[i].len() == 0 {
            assert(views(volumes@)[i as int].len() == 0);
            return true;
        }
        i += 1;
    }
    false
}

/// Whether every identifier of the list is valid.
pub fn all_valid(volumes: &[Vec<u8>]) -> (r: bool)
    ensures
        r == (forall|i: int|
            0 <= i < volumes@.len() ==> valid_volume_id(#[trigger] views(volumes@)[i])),
{
    let mut i: usize = 0;
    while i < volumes.len()
        invariant
            i <= volumes.len(),
            forall|j: int| 0 <= j < i ==> valid_volume_id(#[trigger] views(volumes@)[j]),
        decreases volumes.len() - i,
    {
        if volumes[i].len() == 0 || contains_byte(volumes[i].as_slice(), COMMA) {
            assert(!valid_volume_id(views(volumes@)[i as int]));
            return false;
        }
        i += 1;
    }
    true
}

/// Whether no volume is named twice.
pub fn all_distinct(volumes: &[Vec<u8>]) -> (r: bool)
    ensures
        r == views(volumes@).no_duplicates(),
{
    let ghost ids = views(volumes@);
    let mut i: usize = 0;
    while i < volumes.len()
        invariant
            i <= volumes.len(),
            ids == views(volumes@),
            forall|a: int, b: int| 0 <= a < i && a < b < ids.len() ==> ids[a] != ids[b],
        decreases volumes.len() - i,
    {
        let mut j: usize = i + 1;
        while j < volumes.len()
            invariant
                i < j <= volumes.len(),
                ids == views(volumes@),
                forall|b: int| i < b < j ==> ids[i as int] != ids[b],
            decreases volumes.len() - j,
        {
            if same(volumes[i].as_slice(), volumes[j].as_slice()) {
                assert(ids[i as int] == ids[j as int]);
                return false;
            }
            j += 1;
        }
        i += 1;
    }
    assert forall|a: int, b: int| 0 <= a < ids.len() && 0 <= b < ids.len() && a != b implies ids[a]
        != ids[b] by {
        if a < b {
        } else {
            assert(ids[b] != ids[a]);
        }
    }
    true
}

impl RecordError {
    /// The status that answers a request on a key whose row stands for no
    /// record, or whose record has no row: 500.
    pub fn status(&self) -> (status: u16)
        ensures
            status == crate::http::INTERNAL_ERROR,
    {
        crate::http::INTERNAL_ERROR
    }
}

impl Record {
    /// The record that stands for a missing row.
    pub fn absent() -> (r: Record)
        ensures
            r@ == absent_view(),
    {
        let r = Record { volumes: Vec::new(), deleted: Deleted::Hard, hash: None };
        assert(r@.volumes =~= Seq::empty());
        r
    }

    /// Reads a row.
    ///
    /// Succeeds exactly on the rows that stand for a record, with that
    /// record; otherwise says what is wrong with the row.
    pub fn from_bytes(data: &[u8]) -> (r: Result<Record, RecordError>)
        ensures
            match r {
                Ok(rec) => decode(data@) == Ok::<RecordView, RecordError>(rec@),
                Err(e) => decode(data@) == Err::<RecordView, RecordError>(e),
            },
    {
        let soft = has_prefix(data, deleted_literal());
        let rest = if soft {
            tail(data, 7)
        } else {
            data
        };
        let hashed = has_prefix(rest, hash_literal());
        if hashed && rest.len() < 4 + HASH_LEN {
            return Err(RecordError::TruncatedHash);
        }
        if hashed && !is_hex_text(window(rest, 4, 4 + HASH_LEN)) {
            return Err(RecordError::MalformedHash);
        }
        let list = if hashed {
            tail(rest, 4 + HASH_LEN)
        } else {
            rest
        };
        let volumes = if list.len() == 0 {
            Vec::new()
        } else {
            split_on(list, COMMA)
        };
        assert(views(volumes@) =~= decode_volumes(list@));
        if !soft && volumes.len() == 0 {
            return Err(RecordError::NoVolumes);
        }
        if any_empty(&volumes) {
            return Err(RecordError::EmptyVolume);
        }
        if !all_distinct(volumes.as_slice()) {
            return Err(RecordError::DuplicateVolume);
        }
        let hash = if hashed {
            Some(to_vec(window(rest, 4, 4 + HASH_LEN)))
        } else {
            None
        };
        Ok(
            Record {
                volumes,
                deleted: if soft {
                    Deleted::Soft
                } else {
                    Deleted::No
                },
                hash,
            },
        )
    }

    /// Reads what the index returned for a key: a missing row stands for the
    /// absent record, a row for what it holds.
    pub fn load(row: Option<&[u8]>) -> (r: Result<Record, RecordError>)
        ensures
            match row {
                None => r matches Ok(rec) && rec@ == absent_view(),
                Some(data) => match r {
                    Ok(rec) => decode(data@) == Ok::<RecordView, RecordError>(rec@),
                    Err(e) => decode(data@) == Err::<RecordView, RecordError>(e),
                },
            },
    {
        match row {
            None => Ok(Record::absent()),
            Some(data) => Record::from_bytes(data),
        }
    }

    /// Writes the row of a record.
    ///
    /// Refuses the record that stands for a missing row, and no other.
    pub fn to_bytes(&self) -> (r: Result<Vec<u8>, RecordError>)
        ensures
            match r {
                Ok(row) => self.deleted != Deleted::Hard && row@ == encode(self@),
                Err(e) => self.deleted == Deleted::Hard && e == RecordError::HardDelete,
            },
    {
        if self.deleted == Deleted::Hard {
            return Err(RecordError::HardDelete);
        }
        let mut row: Vec<u8> = Vec::new();
        if self.deleted == Deleted::Soft {
            extend(&mut row, deleted_literal());
        }
        match &self.hash {
            Some(h) => {
                extend(&mut row, hash_literal());
                extend(&mut row, h.as_slice());
            },
            None => {},
        }
        let list = join_with(self.volumes.as_slice(), COMMA);
        extend(&mut row, list.as_slice());
        assert(row@ =~= encode(self@));
        Ok(row)
    }

    /// Whether the record keeps the invariants of the data model.
    pub fn is_well_formed(&self) -> (r: bool)
        ensures
            r == self@.wf(),
    {
        if !all_valid(self.volumes.as_slice()) || !all_distinct(self.volumes.as_slice()) {
            return false;
        }
        match &self.hash {
            Some(h) => {
                if h.len() != HASH_LEN || !is_hex_text(h.as_slice()) {
                    return false;
                }
            },
            None => {},
        }
        !(self.deleted == Deleted::No && self.volumes.len() == 0)
    }
}

} // verus!
