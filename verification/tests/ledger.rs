use flate2::read::GzDecoder;
use flate2::write::GzEncoder;
use flate2::Compression;
use sha2::{Digest, Sha256};
use std::io::{Read, Write};
use stellar_archivist::damage::{
    corrupt_entries_cross_file_hash, corrupt_if_field_known, corrupt_ledger_cross_file_hash,
    damage_contents,
    damage_entries, flip_bytes, replacement_bytes, CrossFileField,
};
use stellar_archivist::kinds::Kind;
use stellar_archivist::ledger::{
    filled_bytes, frame_ledger_entries, parse_ledger_entries, read_and_parse_ledger_file,
    recompute_entry_hash, write_ledger_header_entries_to_file, LedgerEntry, LedgerError,
    LedgerHeader,
};
use stellar_xdr::curr as xdr;
use stellar_xdr::curr::{Limits, ReadXdr, WriteXdr};

fn rest() -> Vec<u8> {
    let header = xdr::LedgerHeader {
        ledger_version: 22,
        base_fee: 100,
        ..Default::default()
    };
    header.to_xdr(Limits::none()).unwrap()
}

/// The header as `stellar_xdr` has it.
fn xdr_header(header: &LedgerHeader) -> xdr::LedgerHeader {
    let mut h = xdr::LedgerHeader::from_xdr(&header.rest, Limits::none()).unwrap();
    h.previous_ledger_hash = xdr::Hash(header.previous_ledger_hash);
    h.scp_value.tx_set_hash = xdr::Hash(header.tx_set_hash);
    h.tx_set_result_hash = xdr::Hash(header.tx_set_result_hash);
    h.ledger_seq = header.ledger_seq;
    h
}

fn digest(header: &LedgerHeader) -> [u8; 32] {
    Sha256::digest(xdr_header(header).to_xdr(Limits::none()).unwrap()).into()
}

/// `n` entries of consecutive ledgers, each linked to the one before.
fn chain(first: u32, n: u32) -> Vec<LedgerEntry> {
    let mut entries: Vec<LedgerEntry> = Vec::new();
    for i in 0..n {
        let previous = match entries.last() {
            Some(e) => e.hash,
            None => [9; 32],
        };
        let header = LedgerHeader {
            previous_ledger_hash: previous,
            tx_set_hash: [i as u8; 32],
            tx_set_result_hash: [100 + i as u8; 32],
            ledger_seq: first + i,
            rest: rest(),
        };
        let hash = digest(&header);
        entries.push(LedgerEntry { hash, header });
    }
    entries
}

fn gz(bytes: &[u8]) -> Vec<u8> {
    let mut e = GzEncoder::new(Vec::new(), Compression::default());
    e.write_all(bytes).unwrap();
    e.finish().unwrap()
}

fn ungz(data: &[u8]) -> Vec<u8> {
    let mut out = Vec::new();
    GzDecoder::new(data).read_to_end(&mut out).unwrap();
    out
}

/// The frames of `entries`, written without the library.
fn frames(entries: &[LedgerEntry]) -> Vec<u8> {
    let mut data = Vec::new();
    for e in entries {
        let record = xdr::LedgerHeaderHistoryEntry {
            hash: xdr::Hash(e.hash),
            header: xdr_header(&e.header),
            ext: xdr::LedgerHeaderHistoryEntryExt::V0,
        }
        .to_xdr(Limits::none())
        .unwrap();
        data.extend_from_slice(&(record.len() as u32 | 0x8000_0000).to_be_bytes());
        data.extend_from_slice(&record);
    }
    data
}

fn assert_same(a: &[LedgerEntry], b: &[LedgerEntry]) {
    assert_eq!(a.len(), b.len());
    for i in 0..a.len() {
        assert_eq!(a[i].hash, b[i].hash);
        assert_eq!(a[i].header.previous_ledger_hash, b[i].header.previous_ledger_hash);
        assert_eq!(a[i].header.tx_set_hash, b[i].header.tx_set_hash);
        assert_eq!(a[i].header.tx_set_result_hash, b[i].header.tx_set_result_hash);
        assert_eq!(a[i].header.ledger_seq, b[i].header.ledger_seq);
        assert_eq!(a[i].header.rest, b[i].header.rest);
    }
}

fn damaged(kind: Kind, entries: Vec<LedgerEntry>) -> Vec<LedgerEntry> {
    damage_entries(kind, entries).unwrap().unwrap()
}

#[test]
fn a_file_is_read_entry_by_entry() {
    let entries = chain(1, 3);
    let data = gz(&frames(&entries));
    assert_same(&read_and_parse_ledger_file(&data).unwrap(), &entries);
}

#[test]
fn a_file_is_written_as_framed_xdr() {
    let entries = chain(64, 4);
    assert_eq!(frame_ledger_entries(&entries).unwrap(), frames(&entries));
    let data = write_ledger_header_entries_to_file(&entries).unwrap();
    assert_eq!(ungz(&data), frames(&entries));
    assert_eq!(data, gz(&frames(&entries)));
}

#[test]
fn what_was_written_is_read_again() {
    for n in [0, 1, 2, 64] {
        let entries = chain(1, n);
        let data = write_ledger_header_entries_to_file(&entries).unwrap();
        assert_same(&read_and_parse_ledger_file(&data).unwrap(), &entries);
    }
}

#[test]
fn what_is_no_gzip_stream_is_refused() {
    let cut = gz(&frames(&chain(1, 1)));
    for data in [&b""[..], &b"not gzip at all"[..], &cut[..cut.len() - 9]] {
        assert_eq!(read_and_parse_ledger_file(data).err(), Some(LedgerError::NotGzip));
    }
}

#[test]
fn what_is_no_run_of_records_is_refused() {
    let whole = frames(&chain(1, 2));
    let mut no_mark = whole.clone();
    no_mark[0] = 0;
    for bytes in [&whole[..whole.len() - 1], &no_mark[..], &b"ab"[..]] {
        assert_eq!(parse_ledger_entries(bytes).err(), Some(LedgerError::BadRecord));
        assert_eq!(
            read_and_parse_ledger_file(&gz(bytes)).err(),
            Some(LedgerError::BadRecord)
        );
    }
    assert_eq!(parse_ledger_entries(b"").unwrap().len(), 0);
}

#[test]
fn an_entry_without_a_header_is_not_written() {
    let mut entries = chain(1, 2);
    entries[1].header.rest = vec![1, 2, 3];
    assert_eq!(
        write_ledger_header_entries_to_file(&entries).err(),
        Some(LedgerError::BadHeader)
    );
    let before = entries[1].hash;
    assert_eq!(recompute_entry_hash(&mut entries[1]), Err(LedgerError::BadHeader));
    assert_eq!(entries[1].hash, before);
    assert_eq!(
        corrupt_entries_cross_file_hash(entries, CrossFileField::TxSet).err(),
        Some(LedgerError::BadHeader)
    );
}

#[test]
fn the_hash_is_the_digest_of_the_header() {
    let mut entries = chain(7, 1);
    let right = entries[0].hash;
    entries[0].hash = [0; 32];
    recompute_entry_hash(&mut entries[0]).unwrap();
    assert_eq!(entries[0].hash, right);
    entries[0].header.ledger_seq = 8;
    recompute_entry_hash(&mut entries[0]).unwrap();
    assert_ne!(entries[0].hash, right);
    assert_eq!(entries[0].hash, digest(&entries[0].header));
}

#[test]
fn a_wrong_cross_file_hash_shows_nowhere_else() {
    for field in [CrossFileField::TxSet, CrossFileField::TxResult] {
        let before = chain(1, 5);
        let after = corrupt_entries_cross_file_hash(chain(1, 5), field).unwrap();
        assert_eq!(after.len(), before.len());
        for i in 0..after.len() {
            let (a, b) = (&after[i].header, &before[i].header);
            assert_eq!(after[i].hash, digest(a));
            if i == 0 {
                assert_eq!(a.previous_ledger_hash, b.previous_ledger_hash);
            } else {
                assert_eq!(a.previous_ledger_hash, after[i - 1].hash);
            }
            let (set, result) = match field {
                CrossFileField::TxSet => ([0xDE; 32], b.tx_set_result_hash),
                CrossFileField::TxResult => (b.tx_set_hash, [0xDE; 32]),
            };
            assert_eq!(a.tx_set_hash, set);
            assert_eq!(a.tx_set_result_hash, result);
            assert_eq!((a.ledger_seq, &a.rest), (b.ledger_seq, &b.rest));
        }
    }
}

#[test]
fn a_file_gets_a_wrong_cross_file_hash_by_name() {
    let data = gz(&frames(&chain(1, 3)));
    let set = read_and_parse_ledger_file(&corrupt_ledger_cross_file_hash(&data, "tx_set").unwrap());
    let expected = corrupt_entries_cross_file_hash(chain(1, 3), CrossFileField::TxSet).unwrap();
    assert_same(&set.unwrap(), &expected);
    let result =
        read_and_parse_ledger_file(&corrupt_ledger_cross_file_hash(&data, "result").unwrap());
    let expected = corrupt_entries_cross_file_hash(chain(1, 3), CrossFileField::TxResult).unwrap();
    assert_same(&result.unwrap(), &expected);
    assert_eq!(
        corrupt_ledger_cross_file_hash(b"x", "result").err(),
        Some(LedgerError::NotGzip)
    );
    assert_eq!(
        corrupt_ledger_cross_file_hash(&gz(b"x"), "tx_set").err(),
        Some(LedgerError::BadRecord)
    );
}

#[test]
fn an_unknown_field_is_in_order_only_without_entries() {
    let none = gz(&frames(&[]));
    let out = corrupt_ledger_cross_file_hash(&none, "fee").unwrap();
    assert_eq!(read_and_parse_ledger_file(&out).unwrap().len(), 0);
    assert!(corrupt_if_field_known(&none, "fee").unwrap().is_ok());
    assert_eq!(
        corrupt_if_field_known(b"x", "fee").unwrap().err(),
        Some(LedgerError::NotGzip)
    );
    let some = gz(&frames(&chain(1, 2)));
    assert!(corrupt_if_field_known(&some, "fee").is_none());
    assert_eq!(
        corrupt_if_field_known(&some, "result").unwrap(),
        corrupt_ledger_cross_file_hash(&some, "result")
    );
}

#[test]
fn a_wrong_claimed_hash_is_all_that_is_wrong() {
    let mut expected = chain(1, 3);
    expected[0].hash = [0xDE; 32];
    assert_same(&damaged(Kind::LedgerHeaderHash, chain(1, 3)), &expected);
    assert_eq!(damaged(Kind::LedgerHeaderHash, Vec::new()).len(), 0);
}

#[test]
fn the_middle_ledger_is_dropped() {
    let seqs = |entries: Vec<LedgerEntry>| -> Vec<u32> {
        entries.iter().map(|e| e.header.ledger_seq).collect()
    };
    assert_eq!(seqs(damaged(Kind::DropLedger, chain(1, 5))), vec![1, 2, 4, 5]);
    assert_eq!(seqs(damaged(Kind::DropLedger, chain(1, 2))), vec![1]);
    assert!(damage_entries(Kind::DropLedger, chain(1, 1)).unwrap().is_none());
}

#[test]
fn a_link_inside_a_file_is_broken() {
    let before = chain(1, 4);
    let after = damaged(Kind::IntraChain, chain(1, 4));
    assert_eq!(after[1].header.previous_ledger_hash, [0xAB; 32]);
    assert_eq!(after[1].hash, digest(&after[1].header));
    assert_same(&after[..1], &before[..1]);
    assert_same(&after[2..], &before[2..]);
    assert!(damage_entries(Kind::IntraChain, chain(1, 1)).unwrap().is_none());
}

#[test]
fn a_link_between_files_is_broken() {
    let before = chain(1, 3);
    let after = damaged(Kind::CrossChain, chain(1, 3));
    assert_eq!(after[0].header.previous_ledger_hash, [0xCD; 32]);
    assert_eq!(after[0].hash, digest(&after[0].header));
    assert_same(&after[1..], &before[1..]);
    assert_eq!(damaged(Kind::CrossChain, Vec::new()).len(), 0);
}

#[test]
fn only_entries_that_are_rehashed_need_a_header() {
    let broken = |at: usize| {
        let mut entries = chain(1, 2);
        entries[at].header.rest = Vec::new();
        entries
    };
    assert!(damage_entries(Kind::IntraChain, broken(0)).is_ok());
    assert_eq!(
        damage_entries(Kind::IntraChain, broken(1)).err(),
        Some(LedgerError::BadHeader)
    );
    assert_eq!(
        damage_entries(Kind::CrossChain, broken(0)).err(),
        Some(LedgerError::BadHeader)
    );
    assert!(damage_entries(Kind::DropLedger, broken(0)).is_ok());
    assert!(damage_entries(Kind::Truncate, broken(0)).unwrap().is_none());
}

#[test]
fn a_damaged_file_holds_the_damaged_entries() {
    let data = gz(&frames(&chain(1, 4)));
    for kind in [
        Kind::LedgerHeaderHash,
        Kind::DropLedger,
        Kind::TxsetHash,
        Kind::ResultHash,
        Kind::IntraChain,
        Kind::CrossChain,
    ] {
        let out = damage_contents(kind, &data).unwrap();
        let expected = damaged(kind, chain(1, 4));
        assert_same(&read_and_parse_ledger_file(&out).unwrap(), &expected);
        assert_eq!(ungz(&out), frames(&expected));
        assert!(damage_contents(kind, b"not gzip at all").is_none());
    }
    assert!(damage_contents(Kind::DropLedger, &gz(&frames(&chain(1, 1)))).is_none());
}

#[test]
fn flipping_twice_gives_the_file_back() {
    assert_eq!(flip_bytes(&[0x1f, 0x8b, 0, 255]), vec![0xe0, 0x74, 255, 0]);
    let data = gz(b"some file");
    let once = damage_contents(Kind::ByteFlip, &data).unwrap();
    assert!(once.iter().zip(&data).all(|(a, b)| a != b));
    assert_eq!(read_and_parse_ledger_file(&once).err(), Some(LedgerError::NotGzip));
    assert_eq!(flip_bytes(&once), data);
}

#[test]
fn replacements_are_fixed() {
    assert_eq!(replacement_bytes(Kind::Truncate), Some(Vec::new()));
    assert_eq!(replacement_bytes(Kind::InvalidGzip), Some(b"not gzip at all".to_vec()));
    assert_eq!(replacement_bytes(Kind::WellKnown), Some(b"{ invalid json }}}".to_vec()));
    let bucket = replacement_bytes(Kind::BucketHash).unwrap();
    assert_eq!(ungz(&bucket), b"valid gzip wrong content".to_vec());
    assert_eq!(bucket, gz(b"valid gzip wrong content"));
    assert_eq!(replacement_bytes(Kind::DeleteFile), None);
    assert_eq!(replacement_bytes(Kind::ByteFlip), None);
}

#[test]
fn filled_is_one_byte_over_and_over() {
    assert_eq!(filled_bytes(0xAB), [0xAB; 32]);
}
