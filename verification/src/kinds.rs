//! The menu of corruptions.

use crate::text;
use vstd::prelude::*;

verus! {

/// One way to damage an archive.
#[derive(Clone, Copy, Debug, PartialEq, Eq, Structural)]
pub enum Kind {
    /// Remove a file.
    DeleteFile,
    /// Empty an XDR file.
    Truncate,
    /// Invert every byte of an XDR file.
    ByteFlip,
    /// Replace a bucket by bytes that are no gzip stream.
    InvalidGzip,
    /// Replace a bucket by a gzip stream of other contents.
    BucketHash,
    /// Make the hash claimed for the first entry of a ledger file wrong.
    LedgerHeaderHash,
    /// Take an entry out of the middle of a ledger file.
    DropLedger,
    /// Make the transaction-set hashes of a ledger file wrong.
    TxsetHash,
    /// Make the result hashes of a ledger file wrong.
    ResultHash,
    /// Break the link between the first two entries of a ledger file.
    IntraChain,
    /// Break the link from the last ledger file to the one before it.
    CrossChain,
    /// Replace the root state file by invalid JSON.
    WellKnown,
}

/// The names of all kinds.
pub const ALL_KINDS: [&'static str; 12] = [
    "delete-file",
    "truncate",
    "byte-flip",
    "invalid-gzip",
    "bucket-hash",
    "ledger-header-hash",
    "drop-ledger",
    "txset-hash",
    "result-hash",
    "intra-chain",
    "cross-chain",
    "well-known",
];

impl Kind {
    /// The name of this kind.
    pub open spec fn text(self) -> Seq<char> {
        match self {
            Kind::DeleteFile => "delete-file"@,
            Kind::Truncate => "truncate"@,
            Kind::ByteFlip => "byte-flip"@,
            Kind::InvalidGzip => "invalid-gzip"@,
            Kind::BucketHash => "bucket-hash"@,
            Kind::LedgerHeaderHash => "ledger-header-hash"@,
            Kind::DropLedger => "drop-ledger"@,
            Kind::TxsetHash => "txset-hash"@,
            Kind::ResultHash => "result-hash"@,
            Kind::IntraChain => "intra-chain"@,
            Kind::CrossChain => "cross-chain"@,
            Kind::WellKnown => "well-known"@,
        }
    }

    /// The kind with this name.
    pub open spec fn named(name: Seq<char>) -> Option<Kind> {
        if exists|k: Kind| name == #[trigger] k.text() {
            Some(choose|k: Kind| name == #[trigger] k.text())
        } else {
            None
        }
    }

    /// The name of this kind.
    pub fn name(self) -> (r: &'static str)
        ensures
            r@ == self.text(),
    {
        match self {
            Kind::DeleteFile => "delete-file",
            Kind::Truncate => "truncate",
            Kind::ByteFlip => "byte-flip",
            Kind::InvalidGzip => "invalid-gzip",
            Kind::BucketHash => "bucket-hash",
            Kind::LedgerHeaderHash => "ledger-header-hash",
            Kind::DropLedger => "drop-ledger",
            Kind::TxsetHash => "txset-hash",
            Kind::ResultHash => "result-hash",
            Kind::IntraChain => "intra-chain",
            Kind::CrossChain => "cross-chain",
            Kind::WellKnown => "well-known",
        }
    }

    /// The kind with the name `name`.
    pub fn parse(name: &str) -> (r: Option<Kind>)
        ensures
            r == Kind::named(name@),
            r == Some(Kind::DeleteFile) <==> name@ == "delete-file"@,
            r == Some(Kind::Truncate) <==> name@ == "truncate"@,
            r == Some(Kind::ByteFlip) <==> name@ == "byte-flip"@,
            r == Some(Kind::InvalidGzip) <==> name@ == "invalid-gzip"@,
            r == Some(Kind::BucketHash) <==> name@ == "bucket-hash"@,
            r == Some(Kind::LedgerHeaderHash) <==> name@ == "ledger-header-hash"@,
            r == Some(Kind::DropLedger) <==> name@ == "drop-ledger"@,
            r == Some(Kind::TxsetHash) <==> name@ == "txset-hash"@,
            r == Some(Kind::ResultHash) <==> name@ == "result-hash"@,
            r == Some(Kind::IntraChain) <==> name@ == "intra-chain"@,
            r == Some(Kind::CrossChain) <==> name@ == "cross-chain"@,
            r == Some(Kind::WellKnown) <==> name@ == "well-known"@,
    {
        proof {
            lemma_names_distinct();
            law_kind_of_name(name@);
        }
        if text::same_text(name, "delete-file") {
            assert(name@ == Kind::DeleteFile.text());
            Some(Kind::DeleteFile)
        } else if text::same_text(name, "truncate") {
            assert(name@ == Kind::Truncate.text());
            Some(Kind::Truncate)
        } else if text::same_text(name, "byte-flip") {
            assert(name@ == Kind::ByteFlip.text());
            Some(Kind::ByteFlip)
        } else if text::same_text(name, "invalid-gzip") {
            assert(name@ == Kind::InvalidGzip.text());
            Some(Kind::InvalidGzip)
        } else if text::same_text(name, "bucket-hash") {
            assert(name@ == Kind::BucketHash.text());
            Some(Kind::BucketHash)
        } else if text::same_text(name, "ledger-header-hash") {
            assert(name@ == Kind::LedgerHeaderHash.text());
            Some(Kind::LedgerHeaderHash)
        } else if text::same_text(name, "drop-ledger") {
            assert(name@ == Kind::DropLedger.text());
            Some(Kind::DropLedger)
        } else if text::same_text(name, "txset-hash") {
            assert(name@ == Kind::TxsetHash.text());
            Some(Kind::TxsetHash)
        } else if text::same_text(name, "result-hash") {
            assert(name@ == Kind::ResultHash.text());
            Some(Kind::ResultHash)
        } else if text::same_text(name, "intra-chain") {
            assert(name@ == Kind::IntraChain.text());
            Some(Kind::IntraChain)
        } else if text::same_text(name, "cross-chain") {
            assert(name@ == Kind::CrossChain.text());
            Some(Kind::CrossChain)
        } else if text::same_text(name, "well-known") {
            assert(name@ == Kind::WellKnown.text());
            Some(Kind::WellKnown)
        } else {
            None
        }
    }
}

/// No two kinds share a name, and none has the empty name.
pub proof fn lemma_names_distinct()
    ensures
        forall|a: Kind| (#[trigger] a.text()).len() > 0,
        forall|a: Kind, b: Kind| #[trigger] a.text() == #[trigger] b.text() ==> a == b,
{
    reveal_strlit("delete-file");
    reveal_strlit("truncate");
    reveal_strlit("byte-flip");
    reveal_strlit("invalid-gzip");
    reveal_strlit("bucket-hash");
    reveal_strlit("ledger-header-hash");
    reveal_strlit("drop-ledger");
    reveal_strlit("txset-hash");
    reveal_strlit("result-hash");
    reveal_strlit("intra-chain");
    reveal_strlit("cross-chain");
    reveal_strlit("well-known");
    assert forall|a: Kind, b: Kind| #[trigger] a.text() == #[trigger] b.text() implies a == b by {
        assert(a.text().len() == b.text().len());
        assert(a.text()[0] == b.text()[0]);
        assert(a.text()[1] == b.text()[1]);
    }
}

/// The names of the kinds that `arg` asks for: all of them for `all`, else those
/// between its commas.
pub open spec fn asked_kinds(arg: Seq<char>) -> Seq<Seq<char>> {
    if arg == "all"@ {
        Seq::new(12, |i: int| ALL_KINDS[i]@)
    } else {
        text::all_trimmed(text::comma_parts(arg))
    }
}

/// The names of the kinds that `arg` asks for.
pub fn kinds_asked_for(arg: &str) -> (r: Vec<String>)
    ensures
        text::texts(r@) == asked_kinds(arg@),
{
    if text::same_text(arg, "all") {
        let mut r: Vec<String> = Vec::new();
        let mut i: usize = 0;
        while i < 12
            invariant
                i <= 12,
                r@.len() == i,
                forall|k: int| 0 <= k < i ==> (#[trigger] r@[k])@ == ALL_KINDS[k]@,
            decreases 12 - i,
        {
            r.push(ALL_KINDS[i].to_owned());
            i = i + 1;
        }
        assert(text::texts(r@) =~= Seq::new(12, |i: int| ALL_KINDS[i]@));
        r
    } else {
        text::comma_list(arg)
    }
}

/// The kind at a position of the menu.
spec fn kind_at(n: int) -> Kind {
    if n == 0 {
        Kind::DeleteFile
    } else if n == 1 {
        Kind::Truncate
    } else if n == 2 {
        Kind::ByteFlip
    } else if n == 3 {
        Kind::InvalidGzip
    } else if n == 4 {
        Kind::BucketHash
    } else if n == 5 {
        Kind::LedgerHeaderHash
    } else if n == 6 {
        Kind::DropLedger
    } else if n == 7 {
        Kind::TxsetHash
    } else if n == 8 {
        Kind::ResultHash
    } else if n == 9 {
        Kind::IntraChain
    } else if n == 10 {
        Kind::CrossChain
    } else {
        Kind::WellKnown
    }
}

/// The position of a kind on the menu.
spec fn position(kind: Kind) -> int {
    match kind {
        Kind::DeleteFile => 0,
        Kind::Truncate => 1,
        Kind::ByteFlip => 2,
        Kind::InvalidGzip => 3,
        Kind::BucketHash => 4,
        Kind::LedgerHeaderHash => 5,
        Kind::DropLedger => 6,
        Kind::TxsetHash => 7,
        Kind::ResultHash => 8,
        Kind::IntraChain => 9,
        Kind::CrossChain => 10,
        Kind::WellKnown => 11,
    }
}

/// The menu is the list of the names of all kinds, none twice: each name on it is
/// that of a kind, each kind is on it, and a kind is found again by its name.
pub proof fn law_menu(kind: Kind, i: int, j: int)
    requires
        0 <= i < 12,
        0 <= j < 12,
    ensures
        Kind::named(kind.text()) == Some(kind),
        Kind::named(ALL_KINDS[i]@) is Some,
        ALL_KINDS[i]@ == ALL_KINDS[j]@ ==> i == j,
        exists|k: int| 0 <= k < 12 && (#[trigger] ALL_KINDS[k])@ == kind.text(),
{
    lemma_names_distinct();
    assert forall|n: int| 0 <= n < 12 implies (#[trigger] ALL_KINDS[n])@ == kind_at(n).text() by {}
    assert(ALL_KINDS[i]@ == kind_at(i).text());
    assert(ALL_KINDS[j]@ == kind_at(j).text());
    assert(ALL_KINDS[position(kind)]@ == kind.text());
}

/// Which name is that of which kind; no other name is that of any.
pub proof fn law_kind_of_name(name: Seq<char>)
    ensures
        Kind::named(name) == Some(Kind::DeleteFile) <==> name == "delete-file"@,
        Kind::named(name) == Some(Kind::Truncate) <==> name == "truncate"@,
        Kind::named(name) == Some(Kind::ByteFlip) <==> name == "byte-flip"@,
        Kind::named(name) == Some(Kind::InvalidGzip) <==> name == "invalid-gzip"@,
        Kind::named(name) == Some(Kind::BucketHash) <==> name == "bucket-hash"@,
        Kind::named(name) == Some(Kind::LedgerHeaderHash) <==> name == "ledger-header-hash"@,
        Kind::named(name) == Some(Kind::DropLedger) <==> name == "drop-ledger"@,
        Kind::named(name) == Some(Kind::TxsetHash) <==> name == "txset-hash"@,
        Kind::named(name) == Some(Kind::ResultHash) <==> name == "result-hash"@,
        Kind::named(name) == Some(Kind::IntraChain) <==> name == "intra-chain"@,
        Kind::named(name) == Some(Kind::CrossChain) <==> name == "cross-chain"@,
        Kind::named(name) == Some(Kind::WellKnown) <==> name == "well-known"@,
        Kind::named(name) matches Some(kind) ==> kind.text() == name,
{
    lemma_names_distinct();
    law_menu(Kind::DeleteFile, 0, 0);
    law_menu(Kind::Truncate, 0, 0);
    law_menu(Kind::ByteFlip, 0, 0);
    law_menu(Kind::InvalidGzip, 0, 0);
    law_menu(Kind::BucketHash, 0, 0);
    law_menu(Kind::LedgerHeaderHash, 0, 0);
    law_menu(Kind::DropLedger, 0, 0);
    law_menu(Kind::TxsetHash, 0, 0);
    law_menu(Kind::ResultHash, 0, 0);
    law_menu(Kind::IntraChain, 0, 0);
    law_menu(Kind::CrossChain, 0, 0);
    law_menu(Kind::WellKnown, 0, 0);
    assert(Kind::named(name) matches Some(kind) ==> kind.text() == name);
}

/// Asking for all kinds asks for the whole menu, in its order, and so for every kind;
/// asking otherwise asks for what stands between the commas, each without the white
/// space around it.
pub proof fn law_asked_kinds(arg: Seq<char>, kind: Kind, i: int)
    ensures
        arg == "all"@ ==> asked_kinds(arg).len() == 12 && asked_kinds(arg).contains(kind.text()),
        arg == "all"@ && 0 <= i < 12 ==> asked_kinds(arg)[i] == ALL_KINDS[i]@,
        arg != "all"@ ==> asked_kinds(arg).len() == text::comma_parts(arg).len(),
        arg != "all"@ && 0 <= i < text::comma_parts(arg).len() ==> asked_kinds(arg)[i]
            == text::trimmed(text::comma_parts(arg)[i]),
{
    law_menu(kind, 0, 0);
    if arg == "all"@ {
        let k = choose|k: int| 0 <= k < 12 && (#[trigger] ALL_KINDS[k])@ == kind.text();
        assert(asked_kinds(arg)[k] == kind.text());
    }
}

/// The order of the menu, which decides what a seed picks from it.
pub proof fn law_menu_order()
    ensures
        ALL_KINDS[0]@ == Kind::DeleteFile.text(),
        ALL_KINDS[1]@ == Kind::Truncate.text(),
        ALL_KINDS[2]@ == Kind::ByteFlip.text(),
        ALL_KINDS[3]@ == Kind::InvalidGzip.text(),
        ALL_KINDS[4]@ == Kind::BucketHash.text(),
        ALL_KINDS[5]@ == Kind::LedgerHeaderHash.text(),
        ALL_KINDS[6]@ == Kind::DropLedger.text(),
        ALL_KINDS[7]@ == Kind::TxsetHash.text(),
        ALL_KINDS[8]@ == Kind::ResultHash.text(),
        ALL_KINDS[9]@ == Kind::IntraChain.text(),
        ALL_KINDS[10]@ == Kind::CrossChain.text(),
        ALL_KINDS[11]@ == Kind::WellKnown.text(),
{
}

} // verus!
