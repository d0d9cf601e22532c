//! The resource index and the assets that are extracted from the archives
//! it describes.

use bytes::Bytes;
use vstd::prelude::*;
use vstd::string::StringExecFns;
use vstd::utf8::valid_utf8;

use crate::error::{fails_with, BMError, BMResult, Fault};
use crate::table::NameTable;
use crate::wire::{
    bad_name, bad_name_text, field_text, name_at, name_fault_at, truncated, truncated_text,
    u16_le, u32_le, uppercase, uppercase_of, Cursor, NAME_LEN,
};

verus! {

/// The number that a resource index starts with.
pub const INDEX_MAGIC: u32 = 0x07040100;

/// A cheaply cloneable, immutable byte buffer of the `bytes` crate.
#[verifier::external_type_specification]
#[verifier::external_body]
pub struct ExBytes(Bytes);

/// The bytes that a buffer holds.
pub uninterp spec fn payload_of(b: Bytes) -> Seq<u8>;

/// `Bytes::copy_from_slice` makes a buffer that holds a copy of `data`.
pub assume_specification[ Bytes::copy_from_slice ](data: &[u8]) -> (b: Bytes)
    ensures
        payload_of(b) == data@,
;

/// `Bytes` as a slice, through `AsRef`, is the bytes that the buffer holds.
pub assume_specification[ <Bytes as AsRef<[u8]>>::as_ref ](b: &Bytes) -> (s: &[u8])
    ensures
        s@ == payload_of(*b),
;

/// The message for an index that does not start with `INDEX_MAGIC`.
pub open spec fn index_magic_text() -> Seq<char> {
    "Invalid magic ID for TIM3ResourceMap"@
}

/// The message for an archive that the index does not list.
pub open spec fn no_record_text(key: Seq<char>) -> Seq<char> {
    "No record in resource map found for "@ + key
}

/// The first thing wrong with the fixed part of an index, which ends with
/// the number of archives.
pub open spec fn index_header_fault(data: Seq<u8>) -> Option<Fault> {
    if data.len() < 4 {
        Some(truncated())
    } else if u32_le(data, 0) != INDEX_MAGIC {
        Some(Fault(index_magic_text()))
    } else if data.len() < 6 {
        Some(truncated())
    } else {
        None
    }
}

/// The number of archives that an index lists.
pub open spec fn archive_count(data: Seq<u8>) -> int {
    u16_le(data, 4)
}

/// The number of records of the archive entry that starts at `at`.
pub open spec fn entry_records(data: Seq<u8>, at: int) -> int {
    u16_le(data, at + 13)
}

/// Where the archive entry that starts at `at` ends.
pub open spec fn entry_end(data: Seq<u8>, at: int) -> int {
    at + 15 + 8 * entry_records(data, at)
}

/// Where archive entry `k` of an index starts.
pub open spec fn entry_start(data: Seq<u8>, k: nat) -> int
    decreases k,
{
    if k == 0 {
        6
    } else {
        entry_end(data, entry_start(data, (k - 1) as nat))
    }
}

/// What is wrong with the archive entry that starts at `at`.
pub open spec fn entry_fault(data: Seq<u8>, at: int) -> Option<Fault> {
    if name_fault_at(data, at) is Some {
        name_fault_at(data, at)
    } else if at + 15 > data.len() || entry_end(data, at) > data.len() {
        Some(truncated())
    } else {
        None
    }
}

/// The key of the archive entry that starts at `at`: its name in upper case.
pub open spec fn entry_key(data: Seq<u8>, at: int) -> Seq<char> {
    uppercase_of(name_at(data, at))
}

/// The record offsets of the archive entry that starts at `at`, in file
/// order. Each follows a 4-byte hash of the record's name.
pub open spec fn entry_offsets(data: Seq<u8>, at: int) -> Seq<u32> {
    offsets_upto(data, at, entry_records(data, at) as nat)
}

/// The first `n` record offsets of the archive entry that starts at `at`.
pub open spec fn offsets_upto(data: Seq<u8>, at: int, n: nat) -> Seq<u32> {
    Seq::new(n, |j: int| u32_le(data, at + 19 + 8 * j) as u32)
}

/// The first thing wrong among the first `k` archive entries.
pub open spec fn first_entry_fault(data: Seq<u8>, k: nat) -> Option<Fault>
    decreases k,
{
    if k == 0 {
        None
    } else {
        match first_entry_fault(data, (k - 1) as nat) {
            Some(fault) => Some(fault),
            None => entry_fault(data, entry_start(data, (k - 1) as nat)),
        }
    }
}

/// The index that the first `k` archive entries make. A later entry
/// replaces an earlier one of the same key.
pub open spec fn index_upto(data: Seq<u8>, k: nat) -> Map<Seq<char>, Seq<u32>>
    decreases k,
{
    if k == 0 {
        Map::empty()
    } else {
        let at = entry_start(data, (k - 1) as nat);
        index_upto(data, (k - 1) as nat).insert(entry_key(data, at), entry_offsets(data, at))
    }
}

/// The index that `data` holds, or the first thing wrong with it.
pub open spec fn parsed_index(data: Seq<u8>) -> Result<Map<Seq<char>, Seq<u32>>, Fault> {
    match index_header_fault(data) {
        Some(fault) => Err(fault),
        None => match first_entry_fault(data, archive_count(data) as nat) {
            Some(fault) => Err(fault),
            None => Ok(index_upto(data, archive_count(data) as nat)),
        },
    }
}

/// A fault among the first entries is the fault of any longer run.
proof fn lemma_first_entry_fault_stays(data: Seq<u8>, n: nat, m: nat)
    requires
        n <= m,
        first_entry_fault(data, n) is Some,
    ensures
        first_entry_fault(data, m) == first_entry_fault(data, n),
    decreases m,
{
    if n < m {
        lemma_first_entry_fault_stays(data, n, (m - 1) as nat);
    }
}

/// The assets of a store: their names in the order of first arrival, and
/// the payload under each name.
pub struct Assets {
    pub names: Seq<Seq<char>>,
    pub payloads: Map<Seq<char>, Seq<u8>>,
}

impl Assets {
    /// No assets.
    pub open spec fn empty() -> Assets {
        Assets { names: Seq::empty(), payloads: Map::empty() }
    }

    /// The assets after `payload` has been stored under `name`, in place of
    /// what was stored under it.
    pub open spec fn with(self, name: Seq<char>, payload: Seq<u8>) -> Assets {
        Assets {
            names: if self.names.contains(name) {
                self.names
            } else {
                self.names.push(name)
            },
            payloads: self.payloads.insert(name, payload),
        }
    }
}

/// What is wrong with the archive record at `at`.
pub open spec fn record_fault(data: Seq<u8>, at: int) -> Option<Fault> {
    if name_fault_at(data, at) is Some {
        name_fault_at(data, at)
    } else if at + 15 > data.len() || at + 15 + u16_le(data, at + 13) > data.len() {
        Some(truncated())
    } else {
        None
    }
}

/// The payload of the archive record at `at`.
pub open spec fn record_payload(data: Seq<u8>, at: int) -> Seq<u8> {
    data.subrange(at + 15, at + 15 + u16_le(data, at + 13))
}

/// The outcome of extracting the records at `offsets`, in that order, from
/// the archive `data` into `start`: the assets when extraction ended, and
/// what ended it early, if anything did. Records before a faulty one stay
/// extracted.
pub open spec fn extraction(data: Seq<u8>, offsets: Seq<u32>, start: Assets) -> (
    Assets,
    Option<Fault>,
)
    decreases offsets.len(),
{
    if offsets.len() == 0 {
        (start, None)
    } else {
        let (assets, fault) = extraction(data, offsets.drop_last(), start);
        let at = offsets.last() as int;
        if fault is Some {
            (assets, fault)
        } else if record_fault(data, at) is Some {
            (assets, record_fault(data, at))
        } else {
            (assets.with(name_at(data, at), record_payload(data, at)), None)
        }
    }
}

/// A fault among the first records ends the extraction of any longer run.
proof fn lemma_extraction_stops(data: Seq<u8>, offsets: Seq<u32>, start: Assets, n: int)
    requires
        0 <= n <= offsets.len(),
        extraction(data, offsets.take(n), start).1 is Some,
    ensures
        extraction(data, offsets, start) == extraction(data, offsets.take(n), start),
    decreases offsets.len(),
{
    if n < offsets.len() {
        assert(offsets.drop_last().take(n) =~= offsets.take(n));
        lemma_extraction_stops(data, offsets.drop_last(), start, n);
    } else {
        assert(offsets.take(n) =~= offsets);
    }
}

/// What ends an extraction early is input that ends too early or a name
/// that is not UTF-8.
proof fn lemma_extraction_faults(data: Seq<u8>, offsets: Seq<u32>, start: Assets)
    ensures
        extraction(data, offsets, start).1 matches Some(fault) ==> fault == truncated() || fault
            == bad_name(),
    decreases offsets.len(),
{
    if offsets.len() > 0 {
        lemma_extraction_faults(data, offsets.drop_last(), start);
    }
}

/// The index of the archives and the assets extracted so far.
#[derive(Debug)]
pub struct TIM3ResourceMap {
    offsets: NameTable<Vec<u32>>,
    files: NameTable<Bytes>,
}

impl TIM3ResourceMap {
    /// The index: for each archive key, the offsets of its records.
    pub closed spec fn index(&self) -> Map<Seq<char>, Seq<u32>> {
        self.offsets@.map_values(|v: Vec<u32>| v@)
    }

    /// The assets extracted so far.
    pub closed spec fn assets(&self) -> Assets {
        Assets {
            names: self.files.names(),
            payloads: self.files@.map_values(|b: Bytes| payload_of(b)),
        }
    }

    /// No name occurs twice, and the names are those of the payloads.
    pub closed spec fn wf(&self) -> bool {
        &&& self.offsets.wf()
        &&& self.files.wf()
    }

    /// Whether `r` is what parsing the index `data` has to give.
    pub open spec fn parses(data: Seq<u8>, r: BMResult<TIM3ResourceMap>) -> bool {
        match parsed_index(data) {
            Ok(index) => r matches Ok(m) && m.wf() && m.index() == index && m.assets()
                == Assets::empty(),
            Err(fault) => fails_with(r, fault),
        }
    }

    /// Reads the record offsets of one archive entry, past its name.
    fn entry_offsets(stream: &mut Cursor, Ghost(at): Ghost<int>) -> (r: BMResult<Vec<u32>>)
        requires
            old(stream).pos == at + 13,
            name_fault_at(old(stream).data@, at) is None,
        ensures
            final(stream).data == old(stream).data,
            match r {
                Ok(offsets) => entry_fault(old(stream).data@, at) is None && offsets@
                    == entry_offsets(old(stream).data@, at) && final(stream).pos == entry_end(
                    old(stream).data@,
                    at,
                ),
                Err(e) => entry_fault(old(stream).data@, at) is Some && fails_with(
                    r,
                    entry_fault(old(stream).data@, at).unwrap(),
                ),
            },
    {
        let count = stream.u16_le()?;
        let mut offsets: Vec<u32> = Vec::new();
        let mut j: u16 = 0;
        while j < count
            invariant
                j <= count,
                count == entry_records(old(stream).data@, at),
                stream.data == old(stream).data,
                stream.pos == at + 15 + 8 * j,
                stream.pos <= stream.data@.len(),
                name_fault_at(stream.data@, at) is None,
                offsets@ == offsets_upto(stream.data@, at, j as nat),
            decreases count - j,
        {
            stream.u32_le()?;
            let offset = stream.u32_le()?;
            offsets.push(offset);
            assert(offsets@ =~= offsets_upto(stream.data@, at, (j + 1) as nat));
            j = j + 1;
        }
        Ok(offsets)
    }

    /// Parses a resource index. No asset is extracted yet.
    pub fn new(data: &[u8]) -> (r: BMResult<TIM3ResourceMap>)
        ensures
            Self::parses(data@, r),
    {
        let mut stream = Cursor::new(data, 0);
        let magic = stream.u32_le()?;
        if magic != INDEX_MAGIC {
            return Err(BMError::loading("Invalid magic ID for TIM3ResourceMap"));
        }
        let count = stream.u16_le()?;
        let mut offsets: NameTable<Vec<u32>> = NameTable::new();
        let files: NameTable<Bytes> = NameTable::new();
        let mut k: u16 = 0;
        assert(offsets@.map_values(|v: Vec<u32>| v@) =~= index_upto(data@, 0));
        while k < count
            invariant
                k <= count,
                count == archive_count(data@),
                index_header_fault(data@) is None,
                stream.data == data,
                stream.pos == entry_start(data@, k as nat),
                first_entry_fault(data@, k as nat) is None,
                offsets.wf(),
                offsets@.map_values(|v: Vec<u32>| v@) == index_upto(data@, k as nat),
            decreases count - k,
        {
            let ghost at = stream.pos as int;
            let ghost before = offsets@;
            proof {
                if entry_fault(data@, at) is Some {
                    lemma_first_entry_fault_stays(data@, (k + 1) as nat, count as nat);
                }
            }
            let name = stream.name()?;
            let key = uppercase(name.as_str());
            let entry = Self::entry_offsets(&mut stream, Ghost(at))?;
            let ghost listed = entry@;
            offsets.insert(key, entry);
            assert(offsets@.map_values(|v: Vec<u32>| v@) =~= before.map_values(
                |v: Vec<u32>| v@,
            ).insert(key@, listed));
            k = k + 1;
        }
        let map = TIM3ResourceMap { offsets, files };
        assert(map.assets().payloads =~= Map::<Seq<char>, Seq<u8>>::empty());
        Ok(map)
    }

    /// Whether a store with `index` and the assets `before` has to end with
    /// the assets `after` and the answer `r` when the records listed under
    /// `key` are extracted from the archive `data`.
    pub open spec fn extracts(
        index: Map<Seq<char>, Seq<u32>>,
        before: Assets,
        key: Seq<char>,
        data: Seq<u8>,
        after: Assets,
        r: BMResult<()>,
    ) -> bool {
        if !index.contains_key(key) {
            after == before && fails_with(r, Fault(no_record_text(key)))
        } else {
            let (assets, fault) = extraction(data, index[key], before);
            after == assets && match fault {
                None => r is Ok,
                Some(f) => fails_with(r, f),
            }
        }
    }

    /// Extracts the records of the archive that the index lists under
    /// `key`, which is matched as it stands, from the archive's bytes.
    pub fn extract(&mut self, key: &str, data: &[u8]) -> (r: BMResult<()>)
        requires
            old(self).wf(),
        ensures
            final(self).wf(),
            final(self).index() == old(self).index(),
            Self::extracts(
                old(self).index(),
                old(self).assets(),
                key@,
                data@,
                final(self).assets(),
                r,
            ),
    {
        let offsets = match self.offsets.get(key) {
            Some(offsets) => offsets,
            None => {
                let msg = String::from_str("No record in resource map found for ").concat(key);
                return Err(BMError::LoadingError { msg });
            },
        };
        let ghost start = self.assets();
        let mut i: usize = 0;
        assert(offsets@.take(0) =~= Seq::<u32>::empty());
        while i < offsets.len()
            invariant
                i <= offsets@.len(),
                self.wf(),
                self.index() == old(self).index(),
                self.index().contains_key(key@),
                offsets@ == self.index()[key@],
                start == old(self).assets(),
                extraction(data@, offsets@.take(i as int), start) == (self.assets(), None::<Fault>),
            decreases offsets@.len() - i,
        {
            let at = offsets[i] as usize;
            let ghost files_before = self.files@;
            proof {
                assert(offsets@.take(i + 1).drop_last() =~= offsets@.take(i as int));
                assert(offsets@.take(i + 1).last() == offsets@[i as int]);
                if record_fault(data@, at as int) is Some {
                    lemma_extraction_stops(data@, offsets@, start, i + 1);
                }
            }
            let mut stream = Cursor::new(data, at);
            let name = stream.name()?;
            let size = stream.u16_le()?;
            let payload = stream.take(size as usize)?;
            let ghost stored = name@;
            let buffer = Bytes::copy_from_slice(payload);
            self.files.insert(name, buffer);
            assert(self.files@.map_values(|b: Bytes| payload_of(b)) =~= files_before.map_values(
                |b: Bytes| payload_of(b),
            ).insert(stored, payload@));
            i = i + 1;
        }
        assert(offsets@.take(i as int) =~= offsets@);
        Ok(())
    }

    /// Extracts the records of the archive called `name` from the archive's
    /// bytes. The index is searched for the upper-case form of `name`.
    pub fn add_archive(&mut self, name: &str, data: &[u8]) -> (r: BMResult<()>)
        requires
            old(self).wf(),
        ensures
            final(self).wf(),
            final(self).index() == old(self).index(),
            Self::extracts(
                old(self).index(),
                old(self).assets(),
                uppercase_of(name@),
                data@,
                final(self).assets(),
                r,
            ),
    {
        let key = uppercase(name);
        self.extract(key.as_str(), data)
    }

    /// The record offsets that the index lists under `key`, which is
    /// matched as it stands, in the order of the index file.
    pub fn offsets(&self, key: &str) -> (r: Option<&Vec<u32>>)
        requires
            self.wf(),
        ensures
            match r {
                Some(offsets) => self.index().contains_key(key@) && offsets@ == self.index()[key@],
                None => !self.index().contains_key(key@),
            },
    {
        self.offsets.get(key)
    }

    /// The names of the assets, in the order of their first arrival.
    pub fn keys(&self) -> (names: Vec<String>)
        ensures
            names@.len() == self.assets().names.len(),
            forall|i: int| 0 <= i < names@.len() ==> (#[trigger] names@[i])@ == self.assets().names[i],
    {
        let mut names: Vec<String> = Vec::new();
        let mut i: usize = 0;
        while i < self.files.len()
            invariant
                i <= self.files.names().len(),
                names@.len() == i,
                forall|j: int| 0 <= j < i ==> (#[trigger] names@[j])@ == self.files.names()[j],
            decreases self.files.names().len() - i,
        {
            names.push(self.files.name_at(i).clone());
            i = i + 1;
        }
        names
    }

    /// The payload of the asset called `key`, which is matched as it stands.
    pub fn get(&self, key: &str) -> (r: Option<&Bytes>)
        requires
            self.wf(),
        ensures
            match r {
                Some(b) => self.assets().payloads.contains_key(key@) && payload_of(*b)
                    == self.assets().payloads[key@],
                None => !self.assets().payloads.contains_key(key@),
            },
    {
        self.files.get(key)
    }

    /// The listed names are exactly the names that have a payload, each once.
    pub proof fn lemma_names_are_keys(&self)
        requires
            self.wf(),
        ensures
            self.assets().names.no_duplicates(),
            forall|name: Seq<char>|
                self.assets().names.contains(name) <==> self.assets().payloads.contains_key(name),
    {
    }
}

/// An extraction says that the index has no record for the archive if and
/// only if the index does not list the key: no other failure carries that
/// message.
pub proof fn lemma_missing_archive_is_told_apart(
    index: Map<Seq<char>, Seq<u32>>,
    before: Assets,
    key: Seq<char>,
    data: Seq<u8>,
    after: Assets,
    r: BMResult<()>,
)
    requires
        TIM3ResourceMap::extracts(index, before, key, data, after, r),
    ensures
        (r matches Err(e) && e.message() == no_record_text(key)) <==> !index.contains_key(key),
{
    reveal_strlit("No record in resource map found for ");
    reveal_strlit("failed to fill whole buffer");
    reveal_strlit("invalid utf-8 sequence in name field");
    assert(no_record_text(key)[0] == 'N');
    assert(truncated_text()[0] == 'f');
    assert(bad_name_text()[0] == 'i');
    if index.contains_key(key) {
        lemma_extraction_faults(data, index[key], before);
    }
}

/// Parsing the same index twice gives the same answer: both parses fail,
/// or both give the same archives with the same offsets in the same order.
pub proof fn lemma_index_parsing_repeats(
    data: Seq<u8>,
    first: BMResult<TIM3ResourceMap>,
    second: BMResult<TIM3ResourceMap>,
)
    requires
        TIM3ResourceMap::parses(data, first),
        TIM3ResourceMap::parses(data, second),
    ensures
        first is Ok <==> second is Ok,
        first is Ok ==> first->Ok_0.index() == second->Ok_0.index(),
{
}

/// An archive entry that no later entry replaces keeps its offsets in the
/// order in which the index file lists them.
pub proof fn lemma_index_keeps_file_order(data: Seq<u8>, n: nat, k: nat)
    requires
        k < n,
        forall|later: nat|
            k < later < n ==> entry_key(data, entry_start(data, later)) != entry_key(
                data,
                entry_start(data, k),
            ),
    ensures
        index_upto(data, n).contains_key(entry_key(data, entry_start(data, k))),
        index_upto(data, n)[entry_key(data, entry_start(data, k))] == entry_offsets(
            data,
            entry_start(data, k),
        ),
        forall|j: int|
            0 <= j < entry_records(data, entry_start(data, k)) ==> entry_offsets(
                data,
                entry_start(data, k),
            )[j] == u32_le(data, entry_start(data, k) + 19 + 8 * j) as u32,
    decreases n,
{
    if k + 1 < n {
        lemma_index_keeps_file_order(data, (n - 1) as nat, k);
        assert(entry_key(data, entry_start(data, (n - 1) as nat)) != entry_key(
            data,
            entry_start(data, k),
        ));
    }
}

/// A record as it is written into an archive: its padded name field and
/// its payload.
pub struct Record {
    pub field: Seq<u8>,
    pub payload: Seq<u8>,
}

/// Whether the archive `data` holds `record` at offset `at`: the name
/// field, the payload's length in 16 bits, and the payload.
pub open spec fn holds_record(data: Seq<u8>, at: int, record: Record) -> bool {
    &&& record.field.len() == NAME_LEN
    &&& valid_utf8(record.field)
    &&& record.payload.len() <= u16::MAX
    &&& 0 <= at
    &&& at + 15 + record.payload.len() <= data.len()
    &&& data.subrange(at, at + 13) == record.field
    &&& u16_le(data, at + 13) == record.payload.len()
    &&& data.subrange(at + 15, at + 15 + record.payload.len()) == record.payload
}

/// Whether no record listed after record `i` has the name of record `i`.
pub open spec fn last_of_its_name(records: Seq<Record>, i: int) -> bool {
    forall|j: int|
        i < j < records.len() ==> field_text((#[trigger] records[j]).field) != field_text(
            records[i].field,
        )
}

/// Whether the assets hold the record: its name is listed, and its payload
/// is stored under its name.
pub open spec fn keeps(assets: Assets, record: Record) -> bool {
    &&& assets.names.contains(field_text(record.field))
    &&& assets.payloads.contains_key(field_text(record.field))
    &&& assets.payloads[field_text(record.field)] == record.payload
}

/// Extraction gives back what was written: from an archive that holds each
/// record at the offset listed for it, every record is extracted, and the
/// payload stored under a record's name is the payload written with it,
/// unless a record listed later has the same name.
pub proof fn lemma_extraction_round_trip(
    data: Seq<u8>,
    offsets: Seq<u32>,
    records: Seq<Record>,
    start: Assets,
)
    requires
        offsets.len() == records.len(),
        forall|i: int| 0 <= i < offsets.len() ==> holds_record(data, offsets[i] as int, records[i]),
    ensures
        extraction(data, offsets, start).1 is None,
        forall|i: int|
            0 <= i < records.len() && last_of_its_name(records, i) ==> keeps(
                extraction(data, offsets, start).0,
                #[trigger] records[i],
            ),
    decreases offsets.len(),
{
    if offsets.len() > 0 {
        let n = offsets.len() - 1;
        let earlier = records.drop_last();
        lemma_extraction_round_trip(data, offsets.drop_last(), earlier, start);
        let before = extraction(data, offsets.drop_last(), start).0;
        let assets = extraction(data, offsets, start).0;
        let added = field_text(records[n].field);
        assert(holds_record(data, offsets[n] as int, records[n]));
        assert(name_at(data, offsets[n] as int) == added);
        assert(record_payload(data, offsets[n] as int) == records[n].payload);
        assert(assets == before.with(added, records[n].payload));
        assert forall|i: int|
            0 <= i < records.len() && last_of_its_name(records, i) implies keeps(
            assets,
            #[trigger] records[i],
        ) by {
            let name = field_text(records[i].field);
            if i < n {
                assert(earlier[i] == records[i]);
                assert(last_of_its_name(earlier, i)) by {
                    assert forall|j: int| i < j < earlier.len() implies field_text(
                        (#[trigger] earlier[j]).field,
                    ) != field_text(earlier[i].field) by {
                        assert(earlier[j] == records[j]);
                    }
                }
                assert(keeps(before, earlier[i]));
                assert(field_text(records[n].field) != name);
                let at = choose|at: int| 0 <= at < before.names.len() && before.names[at] == name;
                if !before.names.contains(added) {
                    assert(before.names.push(added)[at] == name);
                }
            } else {
                if !before.names.contains(name) {
                    assert(before.names.push(name)[before.names.len() as int] == name);
                }
            }
        }
    }
}

/// The same for a store: where the index lists the offsets of the records
/// that an archive holds, extracting the archive succeeds and stores each
/// payload as it was written.
pub proof fn lemma_store_round_trip(
    index: Map<Seq<char>, Seq<u32>>,
    before: Assets,
    key: Seq<char>,
    data: Seq<u8>,
    records: Seq<Record>,
    after: Assets,
    r: BMResult<()>,
    i: int,
)
    requires
        index.contains_key(key),
        index[key].len() == records.len(),
        forall|k: int| 0 <= k < records.len() ==> holds_record(data, index[key][k] as int, records[k]),
        TIM3ResourceMap::extracts(index, before, key, data, after, r),
        0 <= i < records.len(),
        last_of_its_name(records, i),
    ensures
        r is Ok,
        keeps(after, records[i]),
{
    lemma_extraction_round_trip(data, index[key], records, before);
    assert(keeps(extraction(data, index[key], before).0, records[i]));
}

} // verus!
