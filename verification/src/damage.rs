//! What each kind of corruption does to a file.

use crate::kinds::Kind;
use crate::ledger;
use crate::ledger::{
    filled_bytes, gzip_bytes, read_and_parse_ledger_file, recompute_entry_hash, write_ledger_header_entries_to_file,
    EntryView, HeaderView, LedgerEntry, LedgerError,
};
use crate::text;
use crate::text::{ascii, same_text};
use vstd::prelude::*;

verus! {

//=============================================================================
// Ledger-header entries
//=============================================================================

/// A header field that other files of the archive must agree with.
#[derive(Clone, Copy, Debug, PartialEq, Eq, Structural)]
pub enum CrossFileField {
    /// The hash of the transaction set, checked against the transactions file.
    TxSet,
    /// The hash of the results, checked against the results file.
    TxResult,
}

/// `header` with the field `field` wrong.
pub open spec fn with_wrong_field(header: HeaderView, field: CrossFileField) -> HeaderView {
    match field {
        CrossFileField::TxSet => HeaderView { tx_set_hash: ledger::filled(0xDE), ..header },
        CrossFileField::TxResult => HeaderView {
            tx_set_result_hash: ledger::filled(0xDE),
            ..header
        },
    }
}

/// `header` as the successor of a ledger with the hash `hash`.
pub open spec fn linked_to(header: HeaderView, hash: Seq<u8>) -> HeaderView {
    HeaderView { previous_ledger_hash: hash, ..header }
}

/// `entries` with the field `field` wrong in each, every entry but the first
/// linked to the one before it, and every hash right.
pub open spec fn cross_file_damaged(entries: Seq<EntryView>, field: CrossFileField) -> Seq<
    EntryView,
>
    decreases entries.len(),
{
    if entries.len() == 0 {
        Seq::empty()
    } else {
        let before = cross_file_damaged(entries.drop_last(), field);
        let header = with_wrong_field(entries.last().header, field);
        if entries.len() == 1 {
            before.push(ledger::rehashed(header))
        } else {
            before.push(ledger::rehashed(linked_to(header, before.last().hash)))
        }
    }
}

/// What `kind` makes of the entries of a ledger-header file. `None` where `kind`
/// is not about entries, or there are too few of them.
pub open spec fn damaged_entries(kind: Kind, entries: Seq<EntryView>) -> Option<Seq<EntryView>> {
    match kind {
        Kind::LedgerHeaderHash => if entries.len() > 0 {
            Some(entries.update(0, EntryView { hash: ledger::filled(0xDE), ..entries[0] }))
        } else {
            Some(entries)
        },
        Kind::DropLedger => if entries.len() > 1 {
            Some(entries.remove(entries.len() as int / 2))
        } else {
            None
        },
        Kind::TxsetHash => Some(cross_file_damaged(entries, CrossFileField::TxSet)),
        Kind::ResultHash => Some(cross_file_damaged(entries, CrossFileField::TxResult)),
        Kind::IntraChain => if entries.len() > 1 {
            Some(
                entries.update(
                    1,
                    ledger::rehashed(linked_to(entries[1].header, ledger::filled(0xAB))),
                ),
            )
        } else {
            None
        },
        Kind::CrossChain => if entries.len() > 0 {
            Some(
                entries.update(
                    0,
                    ledger::rehashed(linked_to(entries[0].header, ledger::filled(0xCD))),
                ),
            )
        } else {
            Some(entries)
        },
        _ => None,
    }
}

/// Every entry whose hash `kind` recomputes has an encoding.
pub open spec fn rehashable(kind: Kind, entries: Seq<EntryView>) -> bool {
    match kind {
        Kind::TxsetHash | Kind::ResultHash => ledger::all_encodable(entries),
        Kind::IntraChain => entries.len() > 1 ==> entries[1].header.encodable(),
        Kind::CrossChain => entries.len() > 0 ==> entries[0].header.encodable(),
        _ => true,
    }
}

/// Makes the field `field` wrong in every entry, and keeps the hashes and the
/// links between the entries right.
pub fn corrupt_entries_cross_file_hash(
    entries: Vec<LedgerEntry>,
    field: CrossFileField,
) -> (r: Result<Vec<LedgerEntry>, LedgerError>)
    ensures
        match r {
            Ok(damaged) => ledger::all_encodable(ledger::views(entries@)) && ledger::views(damaged@)
                == cross_file_damaged(ledger::views(entries@), field),
            Err(e) => e == LedgerError::BadHeader && !ledger::all_encodable(
                ledger::views(entries@),
            ),
        },
{
    let ghost all = ledger::views(entries@);
    let mut damaged = entries;
    let n: usize = damaged.len();
    let mut i: usize = 0;
    assert(ledger::views(damaged@).take(0) =~= cross_file_damaged(all.take(0), field));
    while i < n
        invariant
            i <= n,
            n == damaged.len(),
            n == all.len(),
            all == ledger::views(entries@),
            ledger::all_encodable(all.take(i as int)),
            forall|k: int| i <= k < n ==> (#[trigger] damaged@[k])@ == all[k],
            ledger::views(damaged@).take(i as int) == cross_file_damaged(
                all.take(i as int),
                field,
            ),
        decreases n - i,
    {
        let ghost done = ledger::views(damaged@).take(i as int);
        let ghost before = damaged@;
        assert(damaged@[i as int]@ == all[i as int]);
        match field {
            CrossFileField::TxSet => {
                damaged[i].header.tx_set_hash = filled_bytes(0xDE);
            },
            CrossFileField::TxResult => {
                damaged[i].header.tx_set_result_hash = filled_bytes(0xDE);
            },
        }
        if i > 0 {
            let previous: [u8; 32] = damaged[i - 1].hash;
            damaged[i].header.previous_ledger_hash = previous;
        }
        let ghost header = damaged@[i as int]@.header;
        match recompute_entry_hash(&mut damaged[i]) {
            Ok(_) => {},
            Err(_) => {
                assert(!all[i as int].header.encodable());
                return Err(LedgerError::BadHeader);
            },
        }
        proof {
            let wrong = with_wrong_field(all[i as int].header, field);
            if i > 0 {
                assert(done.last() == before[i - 1]@);
                assert(header =~= linked_to(wrong, done.last().hash));
            } else {
                assert(header =~= wrong);
            }
            let next = all.take(i + 1);
            assert(next.drop_last() =~= all.take(i as int));
            assert(ledger::views(damaged@).take(i + 1) =~= done.push(ledger::rehashed(header)));
        }
        i = i + 1;
    }
    assert(all.take(n as int) =~= all);
    assert(ledger::views(damaged@).take(n as int) =~= ledger::views(damaged@));
    Ok(damaged)
}

/// What `kind` makes of the entries of a ledger-header file.
pub fn damage_entries(kind: Kind, entries: Vec<LedgerEntry>) -> (r: Result<
    Option<Vec<LedgerEntry>>,
    LedgerError,
>)
    ensures
        match r {
            Ok(Some(damaged)) => damaged_entries(kind, ledger::views(entries@)) == Some(
                ledger::views(damaged@),
            ),
            Ok(None) => damaged_entries(kind, ledger::views(entries@)) is None,
            Err(e) => e == LedgerError::BadHeader,
        },
        r is Err <==> !rehashable(kind, ledger::views(entries@)),
{
    let ghost all = ledger::views(entries@);
    let n: usize = entries.len();
    let mut damaged = entries;
    match kind {
        Kind::LedgerHeaderHash => {
            if n > 0 {
                damaged[0].hash = filled_bytes(0xDE);
                assert(ledger::views(damaged@) =~= all.update(
                    0,
                    EntryView { hash: ledger::filled(0xDE), ..all[0] },
                ));
            }
            Ok(Some(damaged))
        },
        Kind::DropLedger => {
            if n > 1 {
                let _ = damaged.remove(n / 2);
                assert(ledger::views(damaged@) =~= all.remove(all.len() as int / 2));
                Ok(Some(damaged))
            } else {
                Ok(None)
            }
        },
        Kind::TxsetHash => match corrupt_entries_cross_file_hash(damaged, CrossFileField::TxSet) {
            Ok(wrong) => Ok(Some(wrong)),
            Err(e) => Err(e),
        },
        Kind::ResultHash => match corrupt_entries_cross_file_hash(
            damaged,
            CrossFileField::TxResult,
        ) {
            Ok(wrong) => Ok(Some(wrong)),
            Err(e) => Err(e),
        },
        Kind::IntraChain => {
            if n > 1 {
                damaged[1].header.previous_ledger_hash = filled_bytes(0xAB);
                let ghost header = damaged@[1]@.header;
                assert(header =~= linked_to(all[1].header, ledger::filled(0xAB)));
                match recompute_entry_hash(&mut damaged[1]) {
                    Ok(_) => {},
                    Err(e) => {
                        return Err(e);
                    },
                }
                assert(ledger::views(damaged@) =~= all.update(1, ledger::rehashed(header)));
                Ok(Some(damaged))
            } else {
                Ok(None)
            }
        },
        Kind::CrossChain => {
            if n > 0 {
                damaged[0].header.previous_ledger_hash = filled_bytes(0xCD);
                let ghost header = damaged@[0]@.header;
                assert(header =~= linked_to(all[0].header, ledger::filled(0xCD)));
                match recompute_entry_hash(&mut damaged[0]) {
                    Ok(_) => {},
                    Err(e) => {
                        return Err(e);
                    },
                }
                assert(ledger::views(damaged@) =~= all.update(0, ledger::rehashed(header)));
            }
            Ok(Some(damaged))
        },
        _ => Ok(None),
    }
}

/// Damaged entries of a file can be written and read like those they come from.
proof fn lemma_damaged_entries_valid(kind: Kind, entries: Seq<EntryView>)
    requires
        ledger::all_valid(entries),
    ensures
        rehashable(kind, entries),
        damaged_entries(kind, entries) matches Some(damaged) ==> ledger::all_valid(damaged),
        ledger::all_encodable(entries),
{
    lemma_cross_file_damaged_valid(entries, CrossFileField::TxSet);
    lemma_cross_file_damaged_valid(entries, CrossFileField::TxResult);
    if let Some(damaged) = damaged_entries(kind, entries) {
        assert forall|i: int| 0 <= i < damaged.len() implies (#[trigger] damaged[i]).header.valid() by {
            if kind == Kind::DropLedger {
                let mid = entries.len() as int / 2;
                assert(damaged[i] == entries[if i < mid { i } else { i + 1 }]);
            } else if kind != Kind::TxsetHash && kind != Kind::ResultHash {
                assert(entries[i].header.valid());
            }
        }
    }
}

proof fn lemma_cross_file_damaged_valid(entries: Seq<EntryView>, field: CrossFileField)
    requires
        ledger::all_valid(entries),
    ensures
        ledger::all_valid(cross_file_damaged(entries, field)),
        cross_file_damaged(entries, field).len() == entries.len(),
    decreases entries.len(),
{
    if entries.len() > 0 {
        lemma_cross_file_damaged_valid(entries.drop_last(), field);
        assert(entries.last().header.valid());
    }
}

/// The contents of a ledger-header file that held `data` once `kind` was applied
/// to its entries. `None` where the file cannot be read, or has too few entries.
pub open spec fn damaged_ledger_file(kind: Kind, data: Seq<u8>) -> Option<Seq<u8>> {
    match ledger::parsed_file(data) {
        Some(entries) => match damaged_entries(kind, entries) {
            Some(damaged) => Some(ledger::gzip(ledger::framed_entries(damaged))),
            None => None,
        },
        None => None,
    }
}

/// Applies `kind` to the entries of a ledger-header file.
///
/// Reading what comes out gives the damaged entries.
pub fn damage_ledger_file(kind: Kind, data: &[u8]) -> (r: Option<Vec<u8>>)
    ensures
        match r {
            Some(out) => damaged_ledger_file(kind, data@) == Some(out@) && ledger::parsed_file(out@)
                == damaged_entries(kind, ledger::parsed_file(data@)->0),
            None => damaged_ledger_file(kind, data@) is None,
        },
{
    match read_and_parse_ledger_file(data) {
        Ok(entries) => {
            proof {
                lemma_damaged_entries_valid(kind, ledger::views(entries@));
            }
            match damage_entries(kind, entries) {
                Ok(Some(damaged)) => {
                    proof {
                        lemma_valid_is_encodable(ledger::views(damaged@));
                    }
                    match write_ledger_header_entries_to_file(damaged.as_slice()) {
                        Ok(out) => Some(out),
                        Err(_) => None,
                    }
                },
                _ => None,
            }
        },
        Err(_) => None,
    }
}

proof fn lemma_valid_is_encodable(entries: Seq<EntryView>)
    requires
        ledger::all_valid(entries),
    ensures
        ledger::all_encodable(entries),
{
    assert forall|i: int| 0 <= i < entries.len() implies (#[trigger] entries[i]).header.encodable() by {
        assert(entries[i].header.valid());
    }
}

/// The cross-file field with this name.
pub open spec fn field_named(name: Seq<char>) -> Option<CrossFileField> {
    if name == "tx_set"@ {
        Some(CrossFileField::TxSet)
    } else if name == "result"@ {
        Some(CrossFileField::TxResult)
    } else {
        None
    }
}

/// The file holds at least one entry.
pub open spec fn has_entries(data: Seq<u8>) -> bool {
    ledger::parsed_file(data) matches Some(entries) && entries.len() > 0
}

/// `entries` with the field `field` wrong; as they are where no field is given.
pub open spec fn with_field_damaged(entries: Seq<EntryView>, field: Option<CrossFileField>) -> Seq<
    EntryView,
> {
    match field {
        Some(f) => cross_file_damaged(entries, f),
        None => entries,
    }
}

/// What comes of making the field named `field` wrong in a file that held `data`.
pub open spec fn cross_file_result(
    data: Seq<u8>,
    field: Seq<char>,
    r: Result<Vec<u8>, LedgerError>,
) -> bool {
    match r {
        Ok(out) => ledger::parsed_file(data) is Some && ({
            let damaged = with_field_damaged(
                ledger::parsed_file(data)->0,
                field_named(field),
            );
            out@ == ledger::gzip(ledger::framed_entries(damaged)) && ledger::parsed_file(out@)
                == Some(damaged)
        }),
        Err(LedgerError::NotGzip) => ledger::gunzip(data) is None,
        Err(LedgerError::BadRecord) => ledger::gunzip(data) is Some && ledger::parsed_file(
            data,
        ) is None,
        Err(LedgerError::BadHeader) => false,
    }
}

/// Makes the cross-file field named `field` (`"tx_set"` or `"result"`) wrong in
/// every entry of a ledger-header file, while each entry's own hash and the links
/// between the entries are kept right: the file reads well, and the mismatch
/// shows only against the transactions or results file. Another name is in order for
/// a file without entries, which is written as it was read.
pub fn corrupt_ledger_cross_file_hash(data: &[u8], field: &str) -> (r: Result<
    Vec<u8>,
    LedgerError,
>)
    requires
        field_named(field@) is Some || !has_entries(data@),
    ensures
        cross_file_result(data@, field@, r),
{
    match read_and_parse_ledger_file(data) {
        Ok(entries) => {
            proof {
                lemma_valid_is_encodable(ledger::views(entries@));
                lemma_cross_file_damaged_valid(ledger::views(entries@), CrossFileField::TxSet);
                lemma_cross_file_damaged_valid(ledger::views(entries@), CrossFileField::TxResult);
            }
            let damaged: Result<Vec<LedgerEntry>, LedgerError> = match parse_field(field) {
                Some(wrong) => corrupt_entries_cross_file_hash(entries, wrong),
                None => Ok(entries),
            };
            match damaged {
                Ok(damaged) => {
                    proof {
                        lemma_valid_is_encodable(ledger::views(damaged@));
                    }
                    write_ledger_header_entries_to_file(damaged.as_slice())
                },
                Err(e) => Err(e),
            }
        },
        Err(e) => Err(e),
    }
}

/// As [`corrupt_ledger_cross_file_hash`]; `None` where the file has entries and `field`
/// is the name of no field.
pub fn corrupt_if_field_known(data: &[u8], field: &str) -> (r: Option<
    Result<Vec<u8>, LedgerError>,
>)
    ensures
        match r {
            Some(result) => cross_file_result(data@, field@, result) && (field_named(field@) is Some
                || !has_entries(data@)),
            None => field_named(field@) is None && has_entries(data@),
        },
{
    if parse_field(field).is_none() {
        if let Ok(entries) = read_and_parse_ledger_file(data) {
            if entries.len() > 0 {
                return None;
            }
        }
    }
    Some(corrupt_ledger_cross_file_hash(data, field))
}

/// The cross-file field with this name.
fn parse_field(name: &str) -> (r: Option<CrossFileField>)
    ensures
        r == field_named(name@),
{
    if same_text(name, "tx_set") {
        Some(CrossFileField::TxSet)
    } else if same_text(name, "result") {
        Some(CrossFileField::TxResult)
    } else {
        None
    }
}

//=============================================================================
// Whole files
//=============================================================================

/// What stands in a bucket that is no gzip stream.
pub const NOT_GZIP: &'static str = "not gzip at all";

/// What a bucket with the wrong contents decompresses to.
pub const WRONG_CONTENT: &'static str = "valid gzip wrong content";

/// What stands in a root state file that is no JSON.
pub const NOT_JSON: &'static str = "{ invalid json }}}";

/// The archive-relative path of the root state file.
pub const ROOT_STATE: &'static str = ".well-known/stellar-history.json";

/// `data` with every bit inverted.
pub open spec fn flipped(data: Seq<u8>) -> Seq<u8> {
    Seq::new(data.len(), |i: int| data[i] ^ 0xffu8)
}

/// What `kind` puts in place of a file whatever it held, where it does so.
pub open spec fn replacement(kind: Kind) -> Option<Seq<u8>> {
    match kind {
        Kind::Truncate => Some(Seq::empty()),
        Kind::InvalidGzip => Some(text::ascii_bytes(NOT_GZIP@)),
        Kind::BucketHash => Some(ledger::gzip(text::ascii_bytes(WRONG_CONTENT@))),
        Kind::WellKnown => Some(text::ascii_bytes(NOT_JSON@)),
        _ => None,
    }
}

/// What `kind` makes of a file that held `data`, for a kind that reads the file
/// it damages. `None` where the file is not fit for it.
pub open spec fn damaged_contents(kind: Kind, data: Seq<u8>) -> Option<Seq<u8>> {
    if kind == Kind::ByteFlip {
        Some(flipped(data))
    } else {
        damaged_ledger_file(kind, data)
    }
}

/// Inverts every bit of `data`.
pub fn flip_bytes(data: &[u8]) -> (r: Vec<u8>)
    ensures
        r@ == flipped(data@),
{
    let mut r: Vec<u8> = Vec::new();
    let mut i: usize = 0;
    while i < data.len()
        invariant
            i <= data.len(),
            r@ == flipped(data@).take(i as int),
        decreases data.len() - i,
    {
        r.push(data[i] ^ 0xffu8);
        assert(r@ =~= flipped(data@).take(i + 1));
        i = i + 1;
    }
    r
}

/// What `kind` puts in place of a file whatever it held, where it does so.
pub fn replacement_bytes(kind: Kind) -> (r: Option<Vec<u8>>)
    ensures
        match r {
            Some(out) => replacement(kind) == Some(out@),
            None => replacement(kind) is None,
        },
        kind == Kind::BucketHash ==> r is Some && ledger::gunzip(r->0@) == Some(
            text::ascii_bytes(WRONG_CONTENT@),
        ),
{
    match kind {
        Kind::Truncate => Some(Vec::new()),
        Kind::InvalidGzip => Some(ascii(NOT_GZIP)),
        Kind::BucketHash => Some(gzip_bytes(ascii(WRONG_CONTENT).as_slice())),
        Kind::WellKnown => Some(ascii(NOT_JSON)),
        _ => None,
    }
}

/// What `kind` makes of a file that held `data`, for a kind that reads the file
/// it damages.
///
/// What it makes of a ledger-header file can be read again, and holds the
/// damaged entries.
pub fn damage_contents(kind: Kind, data: &[u8]) -> (r: Option<Vec<u8>>)
    ensures
        match r {
            Some(out) => damaged_contents(kind, data@) == Some(out@),
            None => damaged_contents(kind, data@) is None,
        },
        kind != Kind::ByteFlip && r is Some ==> ledger::parsed_file(r->0@) == damaged_entries(
            kind,
            ledger::parsed_file(data@)->0,
        ),
{
    match kind {
        Kind::ByteFlip => Some(flip_bytes(data)),
        _ => damage_ledger_file(kind, data),
    }
}

//=============================================================================
// Laws
//=============================================================================

/// Each entry of a file claims the digest of its own header.
pub open spec fn hashes_right(entries: Seq<EntryView>) -> bool {
    forall|i: int| 0 <= i < entries.len() ==> hash_right(#[trigger] entries[i])
}

/// The entry claims the digest of its own header.
pub open spec fn hash_right(entry: EntryView) -> bool {
    entry.hash == ledger::header_hash(entry.header)
}

/// Each entry but the first names the hash of the one before it.
pub open spec fn chained(entries: Seq<EntryView>) -> bool {
    forall|i: int| 0 < i < entries.len() ==> link_right(entries, i)
}

/// The entry at `i` names the hash of the one before it.
pub open spec fn link_right(entries: Seq<EntryView>, i: int) -> bool {
    entries[i].header.previous_ledger_hash == entries[i - 1].hash
}

/// The entry at `i` is for the ledger after that of the entry before it.
pub open spec fn follows(entries: Seq<EntryView>, i: int) -> bool {
    entries[i].header.ledger_seq == entries[i - 1].header.ledger_seq + 1
}

/// The ledgers of a file are consecutive.
pub open spec fn complete(entries: Seq<EntryView>) -> bool {
    forall|i: int| 0 < i < entries.len() ==> follows(entries, i)
}

/// The header apart from the link to the previous ledger and the field `field`.
pub open spec fn other_fields(header: HeaderView, field: CrossFileField) -> HeaderView {
    linked_to(with_wrong_field(header, field), ledger::filled(0))
}

/// The field `field` of a header.
pub open spec fn field_of(header: HeaderView, field: CrossFileField) -> Seq<u8> {
    match field {
        CrossFileField::TxSet => header.tx_set_hash,
        CrossFileField::TxResult => header.tx_set_result_hash,
    }
}

/// A wrong cross-file field is wrong in every entry and nothing else shows it:
/// as many entries, every hash right, every link right, the first link and all
/// other fields as they were.
pub proof fn law_cross_file_damage_is_consistent(entries: Seq<EntryView>, field: CrossFileField)
    ensures
        cross_file_damaged(entries, field).len() == entries.len(),
        hashes_right(cross_file_damaged(entries, field)),
        chained(cross_file_damaged(entries, field)),
        entries.len() > 0 ==> cross_file_damaged(entries, field)[0].header.previous_ledger_hash
            == entries[0].header.previous_ledger_hash,
        forall|i: int|
            0 <= i < entries.len() ==> {
                let damaged = (#[trigger] cross_file_damaged(entries, field)[i]).header;
                field_of(damaged, field) == ledger::filled(0xDE) && other_fields(damaged, field)
                    == other_fields(entries[i].header, field)
            },
    decreases entries.len(),
{
    if entries.len() > 0 {
        let before = entries.drop_last();
        law_cross_file_damage_is_consistent(before, field);
        let damaged = cross_file_damaged(entries, field);
        let init = cross_file_damaged(before, field);
        assert forall|i: int| 0 < i < damaged.len() implies link_right(damaged, i) by {
            if i < init.len() {
                assert(link_right(init, i));
            }
        }
        assert forall|i: int| 0 <= i < damaged.len() implies hash_right(#[trigger] damaged[i]) by {
            if i < init.len() {
                assert(hash_right(init[i]));
            }
        }
        assert forall|i: int| 0 <= i < entries.len() implies {
            let d = (#[trigger] damaged[i]).header;
            field_of(d, field) == ledger::filled(0xDE) && other_fields(d, field) == other_fields(
                entries[i].header,
                field,
            )
        } by {
            if i < init.len() {
                assert(damaged[i] == init[i]);
                assert(before[i] == entries[i]);
            }
        }
    }
}

/// A wrong claimed hash is all that is wrong: the first entry no longer claims
/// the digest of its header, its header and the other entries are as they were.
/// Left out: a header whose digest is the wrong hash itself.
pub proof fn law_wrong_hash_shows(entries: Seq<EntryView>)
    requires
        entries.len() > 0,
        ledger::header_hash(entries[0].header) != ledger::filled(0xDE),
    ensures
        damaged_entries(Kind::LedgerHeaderHash, entries) matches Some(damaged) && {
            &&& damaged.len() == entries.len()
            &&& !hash_right(damaged[0])
            &&& damaged[0].header == entries[0].header
            &&& damaged.drop_first() == entries.drop_first()
        },
{
    let damaged = damaged_entries(Kind::LedgerHeaderHash, entries)->0;
    assert(damaged.drop_first() =~= entries.drop_first());
}

/// Of two entries of consecutive ledgers the later has the greater number.
proof fn lemma_complete_distance(entries: Seq<EntryView>, i: int, j: int)
    requires
        complete(entries),
        0 <= i <= j < entries.len(),
    ensures
        entries[j].header.ledger_seq == entries[i].header.ledger_seq + (j - i),
    decreases j - i,
{
    if i < j {
        lemma_complete_distance(entries, i, j - 1);
        assert(follows(entries, j));
    }
}

/// Dropping an entry of a file of consecutive ledgers leaves a gap: the ledger in
/// the middle is in no entry any more, every other entry is as it was, and from
/// three entries on the ledgers that are left are not consecutive.
pub proof fn law_dropped_ledger_is_missing(entries: Seq<EntryView>)
    requires
        entries.len() > 1,
        complete(entries),
    ensures
        damaged_entries(Kind::DropLedger, entries) matches Some(damaged) && {
            let mid = entries.len() as int / 2;
            &&& damaged.len() == entries.len() - 1
            &&& damaged.take(mid) == entries.take(mid)
            &&& damaged.skip(mid) == entries.skip(mid + 1)
            &&& forall|i: int|
                0 <= i < damaged.len() ==> (#[trigger] damaged[i]).header.ledger_seq
                    != entries[mid].header.ledger_seq
            &&& entries.len() > 2 ==> !complete(damaged)
        },
{
    let damaged = damaged_entries(Kind::DropLedger, entries)->0;
    let mid = entries.len() as int / 2;
    assert(damaged.take(mid) =~= entries.take(mid));
    assert(damaged.skip(mid) =~= entries.skip(mid + 1));
    assert forall|i: int| 0 <= i < damaged.len() implies (#[trigger] damaged[i]).header.ledger_seq
        != entries[mid].header.ledger_seq by {
        if i < mid {
            assert(damaged[i] == entries[i]);
            lemma_complete_distance(entries, i, mid);
        } else {
            assert(damaged[i] == entries[i + 1]);
            lemma_complete_distance(entries, mid, i + 1);
        }
    }
    if entries.len() > 2 {
        assert(damaged[mid] == entries[mid + 1]);
        assert(damaged[mid - 1] == entries[mid - 1]);
        lemma_complete_distance(entries, mid - 1, mid + 1);
        assert(!follows(damaged, mid));
    }
}

/// A broken link inside a file: the second entry no longer names the hash of the
/// first, every hash is right, and the other entries are as they were.
/// Left out: a first entry that claims the hash put in the link.
pub proof fn law_broken_link_shows(entries: Seq<EntryView>)
    requires
        entries.len() > 1,
        hashes_right(entries),
        entries[0].hash != ledger::filled(0xAB),
    ensures
        damaged_entries(Kind::IntraChain, entries) matches Some(damaged) && {
            &&& damaged.len() == entries.len()
            &&& !link_right(damaged, 1)
            &&& hashes_right(damaged)
            &&& damaged[0] == entries[0]
            &&& damaged.skip(2) == entries.skip(2)
            &&& linked_to(damaged[1].header, entries[1].header.previous_ledger_hash)
                == entries[1].header
        },
{
    let damaged = damaged_entries(Kind::IntraChain, entries)->0;
    assert(damaged.skip(2) =~= entries.skip(2));
    assert forall|i: int| 0 <= i < damaged.len() implies hash_right(#[trigger] damaged[i]) by {
        assert(hash_right(entries[i]));
    }
}

/// A broken link to the file before: the first entry no longer names the hash it
/// named, every hash is right, and the other entries are as they were.
/// Left out: a first entry that already named the hash put in the link.
pub proof fn law_broken_boundary_shows(entries: Seq<EntryView>)
    requires
        entries.len() > 0,
        hashes_right(entries),
        entries[0].header.previous_ledger_hash != ledger::filled(0xCD),
    ensures
        damaged_entries(Kind::CrossChain, entries) matches Some(damaged) && {
            &&& damaged.len() == entries.len()
            &&& damaged[0].header.previous_ledger_hash != entries[0].header.previous_ledger_hash
            &&& hashes_right(damaged)
            &&& damaged.drop_first() == entries.drop_first()
            &&& linked_to(damaged[0].header, entries[0].header.previous_ledger_hash)
                == entries[0].header
        },
{
    let damaged = damaged_entries(Kind::CrossChain, entries)->0;
    assert(damaged.drop_first() =~= entries.drop_first());
    assert(damaged[0].header.previous_ledger_hash == ledger::filled(0xCD));
    assert forall|i: int| 0 <= i < damaged.len() implies hash_right(#[trigger] damaged[i]) by {
        assert(hash_right(entries[i]));
    }
}

/// Inverting twice gives the file back, and inverting once leaves no byte as it
/// was: the identification bytes of a gzip stream are lost.
pub proof fn law_flip_undoes_itself(data: Seq<u8>)
    ensures
        flipped(flipped(data)) == data,
        flipped(data).len() == data.len(),
        forall|i: int| 0 <= i < data.len() ==> #[trigger] flipped(data)[i] != data[i],
        ledger::has_gzip_magic(data) ==> !ledger::has_gzip_magic(flipped(data)),
{
    assert(forall|x: u8| #![auto] (x ^ 0xffu8) ^ 0xffu8 == x && x ^ 0xffu8 != x) by (bit_vector);
    assert(flipped(flipped(data)) =~= data);
}

/// An emptied file and a bucket that is no gzip stream lack the identification
/// bytes of one.
pub proof fn law_replacement_is_no_gzip(kind: Kind)
    requires
        kind == Kind::Truncate || kind == Kind::InvalidGzip,
    ensures
        replacement(kind) matches Some(data) && !ledger::has_gzip_magic(data),
{
    reveal_strlit("not gzip at all");
    assert(NOT_GZIP@[0] == 'n');
    assert('n' as u8 != 0x1f);
}

/// A transaction-set corruption makes the transaction-set hash wrong in every entry and
/// leaves the result hash, and a result corruption the other way round. Of the rest only
/// the links and hashes change: each entry claims the digest of its header, and each but
/// the first names the hash that the one before it claims.
pub proof fn law_kind_damages_its_field(entries: Seq<EntryView>, i: int)
    requires
        0 <= i < entries.len(),
    ensures
        damaged_entries(Kind::TxsetHash, entries) matches Some(d) && {
            &&& d.len() == entries.len()
            &&& d[i].header.tx_set_hash == ledger::filled(0xDE)
            &&& d[i].header.tx_set_result_hash == entries[i].header.tx_set_result_hash
            &&& d[i].header.ledger_seq == entries[i].header.ledger_seq
            &&& d[i].header.rest == entries[i].header.rest
            &&& d[i].hash == ledger::sha256(ledger::header_xdr(d[i].header))
            &&& i == 0 ==> d[i].header.previous_ledger_hash
                == entries[i].header.previous_ledger_hash
            &&& i > 0 ==> d[i].header.previous_ledger_hash == d[i - 1].hash
        },
        damaged_entries(Kind::ResultHash, entries) matches Some(d) && {
            &&& d.len() == entries.len()
            &&& d[i].header.tx_set_result_hash == ledger::filled(0xDE)
            &&& d[i].header.tx_set_hash == entries[i].header.tx_set_hash
            &&& d[i].header.ledger_seq == entries[i].header.ledger_seq
            &&& d[i].header.rest == entries[i].header.rest
            &&& d[i].hash == ledger::sha256(ledger::header_xdr(d[i].header))
            &&& i == 0 ==> d[i].header.previous_ledger_hash
                == entries[i].header.previous_ledger_hash
            &&& i > 0 ==> d[i].header.previous_ledger_hash == d[i - 1].hash
        },
{
    lemma_cross_file_entry(entries, CrossFileField::TxSet, i);
    lemma_cross_file_entry(entries, CrossFileField::TxResult, i);
}

/// An entry with a wrong cross-file field.
proof fn lemma_cross_file_entry(entries: Seq<EntryView>, field: CrossFileField, i: int)
    requires
        0 <= i < entries.len(),
    ensures
        ({
            let d = cross_file_damaged(entries, field);
            let header = with_wrong_field(entries[i].header, field);
            &&& d.len() == entries.len()
            &&& d[i] == ledger::rehashed(d[i].header)
            &&& i == 0 ==> d[i].header == header
            &&& i > 0 ==> d[i].header == linked_to(header, d[i - 1].hash)
        }),
    decreases entries.len(),
{
    law_cross_file_damage_is_consistent(entries, field);
    let init = entries.drop_last();
    law_cross_file_damage_is_consistent(init, field);
    if i < init.len() {
        lemma_cross_file_entry(init, field, i);
        assert(cross_file_damaged(entries, field)[i] == cross_file_damaged(init, field)[i]);
    }
}

/// What each of the other kinds makes of the entries of a file, entry by entry and field
/// by field. A wrong claimed hash is that of the first entry alone. A dropped ledger is
/// the middle one of at least two. A broken link is that of the second of at least two
/// entries, or, to the file before, that of the first; the entry claims the digest of
/// its header. Kinds that are not about entries make nothing of them.
pub proof fn law_entries_by_kind(entries: Seq<EntryView>, i: int)
    requires
        0 <= i < entries.len(),
    ensures
        damaged_entries(Kind::LedgerHeaderHash, entries) matches Some(d) && {
            &&& d.len() == entries.len()
            &&& d[i].header == entries[i].header
            &&& d[i].hash == if i == 0 {
                ledger::filled(0xDE)
            } else {
                entries[i].hash
            }
        },
        damaged_entries(Kind::DropLedger, entries) is Some <==> entries.len() > 1,
        damaged_entries(Kind::DropLedger, entries) matches Some(d) ==> {
            &&& d.len() == entries.len() - 1
            &&& i < entries.len() as int / 2 ==> d[i] == entries[i]
            &&& i > entries.len() as int / 2 ==> d[i - 1] == entries[i]
        },
        damaged_entries(Kind::IntraChain, entries) is Some <==> entries.len() > 1,
        damaged_entries(Kind::IntraChain, entries) matches Some(d) ==> {
            &&& d.len() == entries.len()
            &&& i != 1 ==> d[i] == entries[i]
            &&& i == 1 ==> link_damaged(d[i], entries[i], 0xAB)
        },
        damaged_entries(Kind::CrossChain, entries) matches Some(d) && {
            &&& d.len() == entries.len()
            &&& i != 0 ==> d[i] == entries[i]
            &&& i == 0 ==> link_damaged(d[i], entries[i], 0xCD)
        },
        damaged_entries(Kind::DeleteFile, entries) is None,
        damaged_entries(Kind::Truncate, entries) is None,
        damaged_entries(Kind::ByteFlip, entries) is None,
        damaged_entries(Kind::InvalidGzip, entries) is None,
        damaged_entries(Kind::BucketHash, entries) is None,
        damaged_entries(Kind::WellKnown, entries) is None,
{
}

/// The entry names a hash of `byte` over and over for its predecessor, claims the digest
/// of its header, and is as it was in all else.
pub open spec fn link_damaged(after: EntryView, before: EntryView, byte: u8) -> bool {
    &&& after.header.previous_ledger_hash == Seq::new(32, |k: int| byte)
    &&& after.header.tx_set_hash == before.header.tx_set_hash
    &&& after.header.tx_set_result_hash == before.header.tx_set_result_hash
    &&& after.header.ledger_seq == before.header.ledger_seq
    &&& after.header.rest == before.header.rest
    &&& after.hash == ledger::sha256(ledger::header_xdr(after.header))
}

/// A file without entries has nothing to damage: it is left without entries where the
/// kind asks for none, and is not fit for those that ask for two.
pub proof fn law_no_entries_to_damage()
    ensures
        ({
            let none = Seq::<EntryView>::empty();
            &&& damaged_entries(Kind::LedgerHeaderHash, none) == Some(none)
            &&& damaged_entries(Kind::TxsetHash, none) == Some(none)
            &&& damaged_entries(Kind::ResultHash, none) == Some(none)
            &&& damaged_entries(Kind::CrossChain, none) == Some(none)
            &&& damaged_entries(Kind::DropLedger, none) is None
            &&& damaged_entries(Kind::IntraChain, none) is None
        }),
{
}

/// When a file is damaged, and what then stands in it. A byte flip needs only a file that
/// can be read; a kind about entries needs a ledger-header file, and for a dropped ledger
/// or a broken link inside, one with more than one entry. The entries that are left are
/// framed and compressed.
pub proof fn law_damage_owed(data: Seq<u8>)
    ensures
        damaged_contents(Kind::ByteFlip, data) is Some,
        damaged_contents(Kind::LedgerHeaderHash, data) is Some <==> ledger::parsed_file(
            data,
        ) is Some,
        damaged_contents(Kind::TxsetHash, data) is Some <==> ledger::parsed_file(data) is Some,
        damaged_contents(Kind::ResultHash, data) is Some <==> ledger::parsed_file(data) is Some,
        damaged_contents(Kind::CrossChain, data) is Some <==> ledger::parsed_file(data) is Some,
        damaged_contents(Kind::DropLedger, data) is Some <==> (ledger::parsed_file(data) matches
            Some(entries) && entries.len() > 1),
        damaged_contents(Kind::IntraChain, data) is Some <==> (ledger::parsed_file(data) matches
            Some(entries) && entries.len() > 1),
        forall|kind: Kind|
            kind != Kind::ByteFlip ==> (#[trigger] damaged_contents(kind, data) matches Some(out)
                ==> ledger::parsed_file(data) is Some && damaged_entries(
                kind,
                ledger::parsed_file(data)->0,
            ) is Some && out == ledger::gzip(
                ledger::framed_entries(damaged_entries(kind, ledger::parsed_file(data)->0)->0),
            )),
{
}

/// Flipping inverts every bit: a byte and what it becomes add up to one of all ones.
pub proof fn law_flip_inverts(data: Seq<u8>, i: int)
    requires
        0 <= i < data.len(),
    ensures
        damaged_contents(Kind::ByteFlip, data) matches Some(out) && out.len() == data.len()
            && out[i] + data[i] == 255,
{
    let x = data[i];
    assert((x ^ 0xffu8) + x == 255) by (bit_vector);
}

/// What stands in a file that is replaced whatever it held, and for which kinds.
pub proof fn law_replacements()
    ensures
        replacement(Kind::Truncate) == Some(Seq::<u8>::empty()),
        replacement(Kind::InvalidGzip) == Some(text::ascii_bytes("not gzip at all"@)),
        replacement(Kind::BucketHash) == Some(
            ledger::gzip(text::ascii_bytes("valid gzip wrong content"@)),
        ),
        replacement(Kind::WellKnown) == Some(text::ascii_bytes("{ invalid json }}}"@)),
        forall|kind: Kind| #[trigger]
            replacement(kind) is Some ==> kind == Kind::Truncate || kind == Kind::InvalidGzip
                || kind == Kind::BucketHash || kind == Kind::WellKnown,
{
}

/// Making the field of a name wrong in a file makes that field wrong in every entry that
/// is read from it afterwards, and leaves the other as it was.
pub proof fn law_named_field_is_wrong(
    data: Seq<u8>,
    field: Seq<char>,
    r: Result<Vec<u8>, LedgerError>,
    i: int,
)
    requires
        cross_file_result(data, field, r),
        r is Ok,
        ledger::parsed_file(data) matches Some(entries) && 0 <= i < entries.len(),
        field == "tx_set"@ || field == "result"@,
    ensures
        ({
            let before = ledger::parsed_file(data)->0;
            ledger::parsed_file(r->Ok_0@) matches Some(after) && {
                &&& after.len() == before.len()
                &&& after[i].header.ledger_seq == before[i].header.ledger_seq
                &&& after[i].header.rest == before[i].header.rest
                &&& after[i].hash == ledger::sha256(ledger::header_xdr(after[i].header))
                &&& i == 0 ==> after[i].header.previous_ledger_hash
                    == before[i].header.previous_ledger_hash
                &&& i > 0 ==> after[i].header.previous_ledger_hash == after[i - 1].hash
                &&& field == "tx_set"@ ==> after[i].header.tx_set_hash == ledger::filled(0xDE)
                    && after[i].header.tx_set_result_hash == before[i].header.tx_set_result_hash
                &&& field == "result"@ ==> after[i].header.tx_set_result_hash == ledger::filled(0xDE)
                    && after[i].header.tx_set_hash == before[i].header.tx_set_hash
            }
        }),
{
    reveal_strlit("tx_set");
    reveal_strlit("result");
    assert("tx_set"@[0] != "result"@[0]);
    law_kind_damages_its_field(ledger::parsed_file(data)->0, i);
}

/// A file gets a wrong field unless it cannot be read, and what is refused tells why.
pub proof fn law_cross_file_owed(
    data: Seq<u8>,
    field: Seq<char>,
    r: Result<Vec<u8>, LedgerError>,
)
    requires
        cross_file_result(data, field, r),
    ensures
        r is Ok <==> ledger::parsed_file(data) is Some,
        ledger::parsed_file(data) matches Some(entries) ==> entries.len() == 0
            ==> (ledger::parsed_file(r->Ok_0@) matches Some(after) && after.len() == 0),
        r is Err && r->Err_0 == LedgerError::NotGzip <==> ledger::gunzip(data) is None,
        r is Err && r->Err_0 == LedgerError::BadRecord <==> (ledger::gunzip(data) matches Some(
            bytes,
        ) && ledger::parsed_entries(bytes) is None),
{
}

/// The fields that can be made wrong have these names, and no other has one; a file has
/// entries if, and only if, at least one can be read from it.
pub proof fn law_field_names(name: Seq<char>, data: Seq<u8>)
    ensures
        field_named(name) == Some(CrossFileField::TxSet) <==> name == "tx_set"@,
        field_named(name) == Some(CrossFileField::TxResult) <==> name == "result"@,
        field_named(name) is None <==> name != "tx_set"@ && name != "result"@,
        has_entries(data) <==> ledger::parsed_file(data) is Some && ledger::parsed_file(
            data,
        )->0.len() >= 1,
{
    reveal_strlit("tx_set");
    reveal_strlit("result");
    assert("tx_set"@[0] != "result"@[0]);
}

/// Which entries need an encoding of their header for a corruption: those whose hash is
/// computed anew, and no others.
pub proof fn law_rehashable(entries: Seq<EntryView>)
    ensures
        rehashable(Kind::TxsetHash, entries) <==> forall|i: int|
            0 <= i < entries.len() ==> ledger::header_from_xdr(
                (#[trigger] entries[i]).header.rest,
            ) is Some,
        rehashable(Kind::ResultHash, entries) <==> rehashable(Kind::TxsetHash, entries),
        entries.len() > 1 ==> (rehashable(Kind::IntraChain, entries) <==> ledger::header_from_xdr(
            entries[1].header.rest,
        ) is Some),
        entries.len() > 0 ==> (rehashable(Kind::CrossChain, entries) <==> ledger::header_from_xdr(
            entries[0].header.rest,
        ) is Some),
        entries.len() <= 1 ==> rehashable(Kind::IntraChain, entries),
        entries.len() == 0 ==> rehashable(Kind::CrossChain, entries),
        rehashable(Kind::LedgerHeaderHash, entries),
        rehashable(Kind::DropLedger, entries),
{
    assert(forall|i: int|
        0 <= i < entries.len() ==> (#[trigger] entries[i]).header.encodable()
            == ledger::header_from_xdr(entries[i].header.rest) is Some);
}

} // verus!
