//! Ledger-header files: gzip streams of XDR records, one record per ledger.
//!
//! A [`LedgerEntry`] holds as plain values what this library reads or changes
//! of a ledger-header record. The XDR codec, gzip and SHA-256 are those of
//! `stellar_xdr`, `flate2` and `sha2`; what they return is named below.

use flate2::read::GzDecoder;
use flate2::write::GzEncoder;
use flate2::Compression;
use sha2::{Digest, Sha256};
use std::io::{Cursor, Read, Write};
use stellar_xdr::curr as xdr;
use stellar_xdr::curr::{Frame, Limited, Limits, ReadXdr, WriteXdr};
use vstd::prelude::*;
use vstd::slice::slice_subrange;

verus! {

//=============================================================================
// Entries
//=============================================================================

/// The header of one ledger.
pub struct LedgerHeader {
    pub previous_ledger_hash: [u8; 32],
    pub tx_set_hash: [u8; 32],
    pub tx_set_result_hash: [u8; 32],
    pub ledger_seq: u32,
    /// The XDR of the header with the four fields above at their defaults.
    pub rest: Vec<u8>,
}

/// One record of a ledger-header file: a header and the hash claimed for it.
pub struct LedgerEntry {
    pub hash: [u8; 32],
    pub header: LedgerHeader,
}

#[verifier::ext_equal]
pub struct HeaderView {
    pub previous_ledger_hash: Seq<u8>,
    pub tx_set_hash: Seq<u8>,
    pub tx_set_result_hash: Seq<u8>,
    pub ledger_seq: u32,
    pub rest: Seq<u8>,
}

#[verifier::ext_equal]
pub struct EntryView {
    pub hash: Seq<u8>,
    pub header: HeaderView,
}

impl View for LedgerHeader {
    type V = HeaderView;

    open spec fn view(&self) -> HeaderView {
        HeaderView {
            previous_ledger_hash: self.previous_ledger_hash@,
            tx_set_hash: self.tx_set_hash@,
            tx_set_result_hash: self.tx_set_result_hash@,
            ledger_seq: self.ledger_seq,
            rest: self.rest@,
        }
    }
}

impl View for LedgerEntry {
    type V = EntryView;

    open spec fn view(&self) -> EntryView {
        EntryView { hash: self.hash@, header: self.header@ }
    }
}

/// The entries of a file, each by its view.
pub open spec fn views(entries: Seq<LedgerEntry>) -> Seq<EntryView> {
    entries.map_values(|e: LedgerEntry| e@)
}

/// Thirty-two times the byte `b`.
pub open spec fn filled(b: u8) -> Seq<u8> {
    Seq::new(32, |i: int| b)
}

/// Thirty-two times the byte `b`.
pub fn filled_bytes(b: u8) -> (r: [u8; 32])
    ensures
        r@ == filled(b),
{
    let r: [u8; 32] = [b;32];
    assert(r@ =~= filled(b));
    r
}

impl HeaderView {
    /// `rest` decodes as a header, so this header has an encoding.
    pub open spec fn encodable(self) -> bool {
        header_from_xdr(self.rest) is Some
    }

    /// `rest` is the XDR of a header whose four named fields are at their
    /// defaults: the form that reading a file gives.
    pub open spec fn valid(self) -> bool {
        header_from_xdr(self.rest) == Some(
            HeaderView {
                previous_ledger_hash: filled(0),
                tx_set_hash: filled(0),
                tx_set_result_hash: filled(0),
                ledger_seq: 0,
                rest: self.rest,
            },
        )
    }
}

/// Every entry has an encoding.
pub open spec fn all_encodable(entries: Seq<EntryView>) -> bool {
    forall|i: int| 0 <= i < entries.len() ==> (#[trigger] entries[i]).header.encodable()
}

/// Every entry is in the form that reading gives.
pub open spec fn all_valid(entries: Seq<EntryView>) -> bool {
    forall|i: int| 0 <= i < entries.len() ==> (#[trigger] entries[i]).header.valid()
}

/// Why a ledger-header file could not be read or written.
#[derive(Clone, Copy, Debug, PartialEq, Eq, Structural)]
pub enum LedgerError {
    /// The file is no complete gzip stream.
    NotGzip,
    /// The decompressed bytes are not a run of framed ledger-header records.
    BadRecord,
    /// An entry's `rest` is no ledger header.
    BadHeader,
}

//=============================================================================
// Outside functions
//=============================================================================

#[verifier::external_type_specification]
#[verifier::external_body]
pub struct ExXdrError(xdr::Error);

#[verifier::external_type_specification]
#[verifier::external_body]
pub struct ExIoError(std::io::Error);

/// What `flate2::read::GzDecoder` decompresses `data` to, if it can.
pub uninterp spec fn gunzip(data: Seq<u8>) -> Option<Seq<u8>>;

/// What `flate2::write::GzEncoder` compresses `data` to at the default level.
pub uninterp spec fn gzip(data: Seq<u8>) -> Seq<u8>;

/// The SHA-256 digest that `sha2` computes of `data`.
pub uninterp spec fn sha256(data: Seq<u8>) -> Seq<u8>;

/// What `LedgerHeader::from_xdr` of `stellar_xdr` decodes `bytes` to, if it can.
pub uninterp spec fn header_from_xdr(bytes: Seq<u8>) -> Option<HeaderView>;

/// What `LedgerHeader::to_xdr` of `stellar_xdr` encodes `header` to.
pub uninterp spec fn header_xdr(header: HeaderView) -> Seq<u8>;

/// What `Frame::<LedgerHeaderHistoryEntry>::read_xdr` of `stellar_xdr` reads at
/// the start of `bytes`, if it can: the entry, and how many bytes it took.
pub uninterp spec fn ledger_frame(bytes: Seq<u8>) -> Option<(EntryView, nat)>;

/// `data` starts with the two identification bytes of a gzip stream.
pub open spec fn has_gzip_magic(data: Seq<u8>) -> bool {
    data.len() >= 2 && data[0] == 0x1f && data[1] == 0x8b
}

/// Decompresses the first gzip member of `data` with `flate2`'s `GzDecoder`.
///
/// Trusted: the outcome depends on `data` alone, and a stream that does not
/// start with the gzip identification bytes is refused.
#[verifier::external_body]
fn gunzip_bytes(data: &[u8]) -> (r: Result<Vec<u8>, std::io::Error>)
    ensures
        match r {
            Ok(bytes) => gunzip(data@) == Some(bytes@),
            Err(_) => gunzip(data@) is None,
        },
        r is Ok ==> has_gzip_magic(data@),
{
    let mut bytes = Vec::new();
    GzDecoder::new(data).read_to_end(&mut bytes)?;
    Ok(bytes)
}

/// Compresses `data` with `flate2`'s `GzEncoder` at the default level.
///
/// Trusted: the outcome depends on `data` alone, compressing into memory never
/// fails, and `GzDecoder` gives `data` back.
#[verifier::external_body]
pub(crate) fn gzip_bytes(data: &[u8]) -> (r: Vec<u8>)
    ensures
        r@ == gzip(data@),
        gunzip(r@) == Some(data@),
{
    let mut encoder = GzEncoder::new(Vec::new(), Compression::default());
    encoder.write_all(data).expect("writing to memory");
    encoder.finish().expect("writing to memory")
}

/// The digest of `data` by `sha2`'s `Sha256::digest`.
///
/// Trusted: it depends on `data` alone.
#[verifier::external_body]
fn sha256_bytes(data: &[u8]) -> (r: [u8; 32])
    ensures
        r@ == sha256(data@),
{
    Sha256::digest(data).into()
}

/// Encodes a header with `stellar_xdr`'s `LedgerHeader::to_xdr`, the header
/// being what `LedgerHeader::from_xdr` makes of `rest` with the four named
/// fields put back.
///
/// Trusted: `rest` alone decides whether there is an encoding, and the encoding
/// depends on the fields of `header` alone.
#[verifier::external_body]
fn header_to_xdr(header: &LedgerHeader) -> (r: Result<Vec<u8>, xdr::Error>)
    ensures
        r is Ok <==> header_from_xdr(header.rest@) is Some,
        r matches Ok(bytes) ==> bytes@ == header_xdr(header@),
{
    let mut h = xdr::LedgerHeader::from_xdr(&header.rest, Limits::none())?;
    h.previous_ledger_hash = xdr::Hash(header.previous_ledger_hash);
    h.scp_value.tx_set_hash = xdr::Hash(header.tx_set_hash);
    h.tx_set_result_hash = xdr::Hash(header.tx_set_result_hash);
    h.ledger_seq = header.ledger_seq;
    h.to_xdr(Limits::none())
}

/// Encodes an entry with `stellar_xdr`'s `LedgerHeaderHistoryEntry::to_xdr`.
///
/// Trusted: the encoding is the hash, the header's encoding and the four zero
/// bytes of the empty extension; and `Frame::read_xdr` reads a valid entry back
/// from its encoding behind a record mark, whatever follows.
#[verifier::external_body]
fn entry_to_xdr(entry: &LedgerEntry) -> (r: Result<Vec<u8>, xdr::Error>)
    ensures
        r is Ok <==> header_from_xdr(entry.header.rest@) is Some,
        r matches Ok(bytes) ==> bytes@ == entry_xdr(entry@),
        r matches Ok(bytes) ==> entry@.header.valid() ==> forall|tail: Seq<u8>|
            #[trigger] ledger_frame(framed(bytes@) + tail) == Some(
                (entry@, framed(bytes@).len()),
            ),
{
    let mut h = xdr::LedgerHeader::from_xdr(&entry.header.rest, Limits::none())?;
    h.previous_ledger_hash = xdr::Hash(entry.header.previous_ledger_hash);
    h.scp_value.tx_set_hash = xdr::Hash(entry.header.tx_set_hash);
    h.tx_set_result_hash = xdr::Hash(entry.header.tx_set_result_hash);
    h.ledger_seq = entry.header.ledger_seq;
    let ext = xdr::LedgerHeaderHistoryEntryExt::V0;
    xdr::LedgerHeaderHistoryEntry { hash: xdr::Hash(entry.hash), header: h, ext }.to_xdr(Limits::none())
}

/// Reads one framed record at the start of `bytes` with `stellar_xdr`'s
/// `Frame::read_xdr`, which is what its record iterator does at each step.
///
/// Trusted: the outcome depends on `bytes` alone; what is read is at least the
/// four-byte mark and no more than `bytes`; and `rest` is the header's encoding
/// with the named fields moved out.
#[verifier::external_body]
fn read_frame(bytes: &[u8]) -> (r: Result<(LedgerEntry, usize), xdr::Error>)
    ensures
        match r {
            Ok((entry, n)) => ledger_frame(bytes@) == Some((entry@, n as nat)),
            Err(_) => ledger_frame(bytes@) is None,
        },
        r matches Ok((entry, n)) ==> 4 <= n <= bytes@.len() && entry@.header.valid(),
{
    let mut reader = Limited::new(Cursor::new(bytes), Limits::none());
    let mut e = Frame::<xdr::LedgerHeaderHistoryEntry>::read_xdr(&mut reader)?.0;
    let header = LedgerHeader {
        previous_ledger_hash: std::mem::take(&mut e.header.previous_ledger_hash).0,
        tx_set_hash: std::mem::take(&mut e.header.scp_value.tx_set_hash).0,
        tx_set_result_hash: std::mem::take(&mut e.header.tx_set_result_hash).0,
        ledger_seq: std::mem::take(&mut e.header.ledger_seq),
        rest: e.header.to_xdr(Limits::none())?,
    };
    Ok((LedgerEntry { hash: e.hash.0, header }, reader.inner.position() as usize))
}

//=============================================================================
// The file format
//=============================================================================

/// The XDR of an entry.
pub open spec fn entry_xdr(entry: EntryView) -> Seq<u8> {
    entry.hash + header_xdr(entry.header) + seq![0u8, 0u8, 0u8, 0u8]
}

/// The four bytes of `n`, the most significant first.
pub open spec fn big_endian(n: u32) -> Seq<u8> {
    seq![
        (n / 0x100_0000) as u8,
        ((n / 0x1_0000) % 0x100) as u8,
        ((n / 0x100) % 0x100) as u8,
        (n % 0x100) as u8,
    ]
}

/// The record mark of a record of `len` bytes: its length in the low bits, and
/// the top bit, which says that the record has no further fragment.
pub open spec fn record_mark(len: nat) -> u32 {
    ((len % 0x1_0000_0000) as u32) | 0x8000_0000u32
}

/// A record behind its mark.
pub open spec fn framed(record: Seq<u8>) -> Seq<u8> {
    big_endian(record_mark(record.len())) + record
}

/// The decompressed contents of a ledger-header file that holds `entries`.
pub open spec fn framed_entries(entries: Seq<EntryView>) -> Seq<u8>
    decreases entries.len(),
{
    if entries.len() == 0 {
        Seq::empty()
    } else {
        framed_entries(entries.drop_last()) + framed(entry_xdr(entries.last()))
    }
}

/// The entries that `bytes` holds, if it is a run of framed records.
pub open spec fn parsed_entries(bytes: Seq<u8>) -> Option<Seq<EntryView>>
    decreases bytes.len(),
{
    if bytes.len() == 0 {
        Some(Seq::empty())
    } else {
        match ledger_frame(bytes) {
            Some((entry, n)) if 0 < n <= bytes.len() => match parsed_entries(bytes.skip(n as int)) {
                Some(tail) => Some(seq![entry] + tail),
                None => None,
            },
            _ => None,
        }
    }
}

/// The entries that a ledger-header file holds, if it can be read.
pub open spec fn parsed_file(data: Seq<u8>) -> Option<Seq<EntryView>> {
    match gunzip(data) {
        Some(bytes) => parsed_entries(bytes),
        None => None,
    }
}

/// The hash that an entry with this header should claim.
pub open spec fn header_hash(header: HeaderView) -> Seq<u8> {
    sha256(header_xdr(header))
}

/// An entry with this header that claims the right hash.
pub open spec fn rehashed(header: HeaderView) -> EntryView {
    EntryView { hash: header_hash(header), header }
}

//=============================================================================
// Reading and writing
//=============================================================================

/// The entries that decompressed ledger-header contents hold.
pub fn parse_ledger_entries(bytes: &[u8]) -> (r: Result<Vec<LedgerEntry>, LedgerError>)
    ensures
        match r {
            Ok(entries) => parsed_entries(bytes@) == Some(views(entries@)) && all_valid(
                views(entries@),
            ),
            Err(e) => e == LedgerError::BadRecord && parsed_entries(bytes@) is None,
        },
{
    let mut entries: Vec<LedgerEntry> = Vec::new();
    let mut at: usize = 0;
    proof {
        assert(bytes@.skip(0) =~= bytes@);
        assert forall|tail: Seq<EntryView>| #[trigger] (views(entries@) + tail) == tail by {
            assert(views(entries@) + tail =~= tail);
        }
    }
    while at < bytes.len()
        invariant
            at <= bytes.len(),
            all_valid(views(entries@)),
            parsed_entries(bytes@) == match parsed_entries(bytes@.skip(at as int)) {
                Some(tail) => Some(views(entries@) + tail),
                None => None,
            },
        decreases bytes.len() - at,
    {
        let left: &[u8] = slice_subrange(bytes, at, bytes.len());
        assert(left@ =~= bytes@.skip(at as int));
        match read_frame(left) {
            Ok((entry, n)) => {
                proof {
                    assert(left@.skip(n as int) =~= bytes@.skip(at + n));
                    assert forall|tail: Seq<EntryView>|
                        views(entries@) + (seq![entry@] + tail) == #[trigger] (views(
                            entries@.push(entry),
                        ) + tail) by {
                        assert(views(entries@.push(entry)) =~= views(entries@).push(entry@));
                        assert(views(entries@) + (seq![entry@] + tail) =~= views(entries@).push(
                            entry@,
                        ) + tail);
                    }
                    assert(views(entries@.push(entry)) =~= views(entries@).push(entry@));
                }
                entries.push(entry);
                at = at + n;
            },
            Err(_) => {
                return Err(LedgerError::BadRecord);
            },
        }
    }
    proof {
        assert(bytes@.skip(at as int) =~= Seq::<u8>::empty());
        assert(views(entries@) + Seq::<EntryView>::empty() =~= views(entries@));
    }
    Ok(entries)
}

/// The entries of a ledger-header file with the contents `data`.
pub fn read_and_parse_ledger_file(data: &[u8]) -> (r: Result<Vec<LedgerEntry>, LedgerError>)
    ensures
        match r {
            Ok(entries) => parsed_file(data@) == Some(views(entries@)) && all_valid(
                views(entries@),
            ),
            Err(LedgerError::NotGzip) => gunzip(data@) is None,
            Err(LedgerError::BadRecord) => gunzip(data@) is Some && parsed_file(data@) is None,
            Err(LedgerError::BadHeader) => false,
        },
        !has_gzip_magic(data@) ==> r == Err::<Vec<LedgerEntry>, LedgerError>(LedgerError::NotGzip),
{
    match gunzip_bytes(data) {
        Ok(bytes) => parse_ledger_entries(bytes.as_slice()),
        Err(_) => Err(LedgerError::NotGzip),
    }
}

/// Whatever follows `data`, reading starts with `entries` and goes on behind them.
spec fn parses_as(data: Seq<u8>, entries: Seq<EntryView>) -> bool {
    forall|tail: Seq<u8>| #[trigger]
        parsed_entries(data + tail) == match parsed_entries(tail) {
            Some(rest) => Some(entries + rest),
            None => None,
        }
}

proof fn lemma_parses_as_push(
    data: Seq<u8>,
    entries: Seq<EntryView>,
    frame: Seq<u8>,
    entry: EntryView,
)
    requires
        parses_as(data, entries),
        frame.len() > 0,
        forall|tail: Seq<u8>| #[trigger]
            ledger_frame(frame + tail) == Some((entry, frame.len())),
    ensures
        parses_as(data + frame, entries.push(entry)),
{
    assert forall|tail: Seq<u8>| #[trigger]
        parsed_entries((data + frame) + tail) == match parsed_entries(tail) {
            Some(rest) => Some(entries.push(entry) + rest),
            None => None,
        } by {
        assert((data + frame) + tail =~= data + (frame + tail));
        assert((frame + tail).skip(frame.len() as int) =~= tail);
        assert(ledger_frame(frame + tail) == Some((entry, frame.len())));
        if let Some(rest) = parsed_entries(tail) {
            assert(entries + (seq![entry] + rest) =~= entries.push(entry) + rest);
        }
    }
}

/// The record mark of a record of `len` bytes.
fn mark_bytes(len: usize) -> (r: [u8; 4])
    ensures
        r@ == big_endian(record_mark(len as nat)),
{
    let wide: u64 = len as u64;
    assert(wide as u32 == wide % 0x1_0000_0000) by (bit_vector);
    let mark: u32 = (wide as u32) | 0x8000_0000;
    let r: [u8; 4] = [
        (mark / 0x100_0000) as u8,
        ((mark / 0x1_0000) % 0x100) as u8,
        ((mark / 0x100) % 0x100) as u8,
        (mark % 0x100) as u8,
    ];
    assert(r@ =~= big_endian(mark));
    r
}

/// The decompressed contents of a ledger-header file that holds `entries`.
pub fn frame_ledger_entries(entries: &[LedgerEntry]) -> (r: Result<Vec<u8>, LedgerError>)
    ensures
        match r {
            Ok(data) => all_encodable(views(entries@)) && data@ == framed_entries(views(entries@)),
            Err(e) => e == LedgerError::BadHeader && !all_encodable(views(entries@)),
        },
        r matches Ok(data) ==> all_valid(views(entries@)) ==> parsed_entries(data@) == Some(
            views(entries@),
        ),
        r matches Ok(data) ==> all_valid(views(entries@)) ==> forall|tail: Seq<u8>| #[trigger]
            parsed_entries(data@ + tail) == match parsed_entries(tail) {
                Some(more) => Some(views(entries@) + more),
                None => None,
            },
{
    let ghost all = views(entries@);
    let mut data: Vec<u8> = Vec::new();
    let mut i: usize = 0;
    proof {
        assert forall|tail: Seq<u8>| #[trigger]
            parsed_entries(data@ + tail) == match parsed_entries(tail) {
                Some(rest) => Some(all.take(0) + rest),
                None => None,
            } by {
            assert(data@ + tail =~= tail);
            if let Some(rest) = parsed_entries(tail) {
                assert(all.take(0) + rest =~= rest);
            }
        }
        assert(all.take(0) =~= Seq::<EntryView>::empty());
    }
    while i < entries.len()
        invariant
            i <= entries.len(),
            all == views(entries@),
            all_encodable(all.take(i as int)),
            data@ == framed_entries(all.take(i as int)),
            all_valid(all) ==> parses_as(data@, all.take(i as int)),
        decreases entries.len() - i,
    {
        let ghost before = data@;
        let entry = &entries[i];
        assert(all[i as int] == entry@);
        match entry_to_xdr(entry) {
            Ok(record) => {
                let mark: [u8; 4] = mark_bytes(record.len());
                data.extend_from_slice(mark.as_slice());
                data.extend_from_slice(record.as_slice());
                proof {
                    assert(data@ =~= before + framed(record@));
                    let next = all.take(i + 1);
                    assert(next =~= all.take(i as int).push(entry@));
                    assert(next.drop_last() =~= all.take(i as int));
                    if all_valid(all) {
                        lemma_parses_as_push(before, all.take(i as int), framed(record@), entry@);
                    }
                }
            },
            Err(_) => {
                assert(!all[i as int].header.encodable());
                return Err(LedgerError::BadHeader);
            },
        }
        i = i + 1;
    }
    proof {
        assert(all.take(i as int) =~= all);
        if all_valid(all) {
            assert(data@ + Seq::<u8>::empty() =~= data@);
            assert(all + Seq::<EntryView>::empty() =~= all);
            assert(parsed_entries(data@ + Seq::<u8>::empty()) == Some(
                all + Seq::<EntryView>::empty(),
            ));
        }
    }
    Ok(data)
}

/// The contents of a ledger-header file that holds `entries`.
///
/// Reading the file gives the entries back.
pub fn write_ledger_header_entries_to_file(entries: &[LedgerEntry]) -> (r: Result<
    Vec<u8>,
    LedgerError,
>)
    ensures
        match r {
            Ok(data) => all_encodable(views(entries@)) && data@ == gzip(
                framed_entries(views(entries@)),
            ),
            Err(e) => e == LedgerError::BadHeader && !all_encodable(views(entries@)),
        },
        r matches Ok(data) ==> gunzip(data@) == Some(framed_entries(views(entries@))),
        r matches Ok(data) ==> all_valid(views(entries@)) ==> parsed_file(data@) == Some(
            views(entries@),
        ),
{
    match frame_ledger_entries(entries) {
        Ok(data) => Ok(gzip_bytes(data.as_slice())),
        Err(e) => Err(e),
    }
}

/// Makes the hash claimed for an entry the SHA-256 digest of its header's XDR.
///
/// An entry whose header has no encoding is left as it is.
pub fn recompute_entry_hash(entry: &mut LedgerEntry) -> (r: Result<(), LedgerError>)
    ensures
        match r {
            Ok(_) => old(entry)@.header.encodable() && final(entry)@ == rehashed(
                old(entry)@.header,
            ),
            Err(e) => e == LedgerError::BadHeader && !old(entry)@.header.encodable()
                && *final(entry) == *old(entry),
        },
        r is Ok <==> header_from_xdr(old(entry).header.rest@) is Some,
        r is Ok ==> final(entry).hash@ == sha256(header_xdr(old(entry).header@)),
        final(entry).header == old(entry).header,
{
    match header_to_xdr(&entry.header) {
        Ok(bytes) => {
            entry.hash = sha256_bytes(bytes.as_slice());
            Ok(())
        },
        Err(_) => Err(LedgerError::BadHeader),
    }
}

//=============================================================================
// Laws
//=============================================================================

/// An entry is seen as what its fields hold.
pub proof fn law_entry_view(entry: LedgerEntry)
    ensures
        entry@.hash == entry.hash@,
        entry@.header.previous_ledger_hash == entry.header.previous_ledger_hash@,
        entry@.header.tx_set_hash == entry.header.tx_set_hash@,
        entry@.header.tx_set_result_hash == entry.header.tx_set_result_hash@,
        entry@.header.ledger_seq == entry.header.ledger_seq,
        entry@.header.rest == entry.header.rest@,
{
}

/// The mark of a record is four bytes that give its length, the greatest first, with the
/// top bit set.
pub proof fn law_record_mark(record: Seq<u8>)
    requires
        record.len() < 0x8000_0000,
    ensures
        framed(record).len() == record.len() + 4,
        framed(record)[0] * 0x100_0000 + framed(record)[1] * 0x1_0000 + framed(record)[2] * 0x100
            + framed(record)[3] == 0x8000_0000 + record.len(),
        framed(record).skip(4) == record,
{
    let n = record.len() as u32;
    assert(n < 0x8000_0000u32 ==> (n | 0x8000_0000u32) == n + 0x8000_0000) by (bit_vector);
    let mark = record_mark(record.len());
    assert(mark == 0x8000_0000 + record.len());
    assert(framed(record).skip(4) =~= record);
}

/// Bytes without a whole record at their start are refused, unless there are none: a
/// file of no bytes holds no entry.
pub proof fn law_bad_record_is_refused(bytes: Seq<u8>)
    ensures
        bytes.len() == 0 ==> parsed_entries(bytes) == Some(Seq::<EntryView>::empty()),
        bytes.len() > 0 && ledger_frame(bytes) is None ==> parsed_entries(bytes) is None,
        parsed_entries(bytes) matches Some(entries) ==> (entries.len() == 0 <==> bytes.len() == 0),
{
}

/// What follows a record decides with it: the file is refused with what follows, and
/// else holds the entry of the record and then those that follow.
pub proof fn law_record_by_record(bytes: Seq<u8>, entry: EntryView, n: nat)
    requires
        ledger_frame(bytes) == Some((entry, n)),
        0 < n <= bytes.len(),
    ensures
        parsed_entries(bytes) is Some <==> parsed_entries(bytes.skip(n as int)) is Some,
        parsed_entries(bytes) matches Some(entries) ==> entries.len() > 0 && entries[0] == entry
            && parsed_entries(bytes.skip(n as int)) == Some(entries.drop_first()),
{
    if let Some(more) = parsed_entries(bytes.skip(n as int)) {
        assert((seq![entry] + more).drop_first() =~= more);
    }
}

/// The frames of some entries and then others are those of the one and of the other.
pub proof fn law_frames_in_order(a: Seq<EntryView>, b: Seq<EntryView>, entry: EntryView)
    ensures
        framed_entries(a + b) == framed_entries(a) + framed_entries(b),
        framed_entries(seq![entry]) == framed(
            entry.hash + header_xdr(entry.header) + seq![0u8, 0u8, 0u8, 0u8],
        ),
    decreases b.len(),
{
    let one = seq![entry];
    assert(one.drop_last() =~= Seq::<EntryView>::empty());
    reveal_with_fuel(framed_entries, 2);
    assert(framed_entries(one) =~= framed(entry_xdr(entry)));
    if b.len() == 0 {
        assert(a + b =~= a);
        assert(framed_entries(a) + framed_entries(b) =~= framed_entries(a));
    } else {
        law_frames_in_order(a, b.drop_last(), entry);
        assert((a + b).drop_last() =~= a + b.drop_last());
        assert(framed_entries(a + b) =~= framed_entries(a) + framed_entries(b));
    }
}

/// A filled hash is thirty-two times its byte.
pub proof fn law_filled(byte: u8, i: int)
    requires
        0 <= i < 32,
    ensures
        filled(byte).len() == 32,
        filled(byte)[i] == byte,
{
}

/// A file can be read if, and only if, it is a gzip stream of records.
pub proof fn law_parsed_file(data: Seq<u8>)
    ensures
        gunzip(data) is None ==> parsed_file(data) is None,
        gunzip(data) matches Some(bytes) ==> parsed_file(data) == parsed_entries(bytes),
{
}

/// Entries can be written if, and only if, the rest of each header is one; those in the
/// form that reading gives can.
pub proof fn law_encodable(entries: Seq<EntryView>)
    ensures
        all_encodable(entries) <==> forall|i: int|
            0 <= i < entries.len() ==> header_from_xdr((#[trigger] entries[i]).header.rest) is Some,
        all_valid(entries) ==> all_encodable(entries),
{
    assert(forall|i: int|
        0 <= i < entries.len() ==> (#[trigger] entries[i]).header.encodable() == header_from_xdr(
            entries[i].header.rest,
        ) is Some);
    assert(forall|i: int|
        0 <= i < entries.len() && (#[trigger] entries[i]).header.valid()
            ==> entries[i].header.encodable());
}

/// An entry claims the SHA-256 digest of its header once its hash is computed anew, and
/// keeps its header.
pub proof fn law_rehashed(header: HeaderView)
    ensures
        rehashed(header).hash == sha256(header_xdr(header)),
        rehashed(header).header == header,
        header_hash(header) == sha256(header_xdr(header)),
{
}

} // verus!
