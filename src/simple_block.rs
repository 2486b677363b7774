use vstd::prelude::*;
use vstd::utf8::encode_utf8;
use crate::codec::{
    begins_at, enc_bytes, enc_opt_str, enc_str, opt_str_view, read_opt_str, read_str, read_zigzag, lemma_begins_split, opt_view, lemma_varint_injective, enc_opt_bytes, lemma_subrange_join, push_bytes, push_opt_bytes, push_varint, push_zigzag,
    read_bytes, read_opt_bytes, read_u64, varint, zigzag,
};
use crate::error::ChainError;
use crate::utilities::{sha3_256_hash, sha3_256_of};

verus! {

/// The amount paid to the owner of a node for each block it mines.
pub const MINING_PAYOUT: i32 = 25;

/// The content of a transaction.
pub struct TransactionView {
    pub from: Option<Seq<char>>,
    pub to: Seq<char>,
    pub amount: i32,
}

/// The encoding of a transaction: the optional sender (tag byte, then the
/// string), the recipient, then the amount.
pub open spec fn transaction_bytes(t: TransactionView) -> Seq<u8> {
    enc_opt_str(t.from) + enc_str(t.to) + varint(zigzag(t.amount))
}

impl TransactionView {
    /// Each string is short enough for its length to be written.
    pub open spec fn fits(self) -> bool {
        &&& (self.from is Some ==> encode_utf8(self.from->0).len() <= u64::MAX)
        &&& encode_utf8(self.to).len() <= u64::MAX
    }
}

/// A toy payment that becomes the payload of a record. A transaction with no
/// sender is a payout issued by the system to a miner.
pub struct SimpleTransaction {
    from: Option<String>,
    to: String,
    amount: i32,
}

impl View for SimpleTransaction {
    type V = TransactionView;

    closed spec fn view(&self) -> TransactionView {
        TransactionView {
            from: match self.from {
                None => None,
                Some(f) => Some(f@),
            },
            to: self.to@,
            amount: self.amount,
        }
    }
}

impl SimpleTransaction {
    pub fn new(from: String, to: String, amount: i32) -> (r: Self)
        ensures
            r@ == (TransactionView { from: Some(from@), to: to@, amount }),
    {
        Self { from: Some(from), to, amount }
    }

    /// A payout of `MINING_PAYOUT` to `to`, with no sender.
    pub fn new_mining(to: String) -> (r: Self)
        ensures
            r@ == (TransactionView { from: None, to: to@, amount: MINING_PAYOUT }),
    {
        Self { from: None, to, amount: MINING_PAYOUT }
    }

    /// The deterministic byte encoding of the transaction.
    pub fn serialize(&self) -> (r: Vec<u8>)
        ensures
            r@ == transaction_bytes(self@),
    {
        let mut out: Vec<u8> = Vec::new();
        match &self.from {
            None => {
                out.push(0u8);
            },
            Some(f) => {
                out.push(1u8);
                push_bytes(&mut out, f.as_str().as_bytes());
            },
        }
        push_bytes(&mut out, self.to.as_str().as_bytes());
        push_zigzag(&mut out, self.amount);
        proof {
            let t = self@;
            assert(out@ == enc_opt_str(t.from) + enc_str(t.to) + varint(zigzag(t.amount)));
        }
        out
    }

    /// Decodes a transaction from exactly the bytes of its encoding; the
    /// encoding of a transaction decodes to that transaction.
    pub fn deserialize(bytes: &[u8]) -> (r: Result<SimpleTransaction, ChainError>)
        ensures
            match r {
                Ok(t) => transaction_bytes(t@) == bytes@,
                Err(e) => e == ChainError::Codec,
            },
            forall|tv: TransactionView| tv.fits() && #[trigger] transaction_bytes(tv) == bytes@ ==> r is Ok
                && r->Ok_0@ == tv,
    {
        proof {
            assert forall|tv: TransactionView| #[trigger] transaction_bytes(tv) == bytes@ implies {
                &&& begins_at(bytes@, 0, enc_opt_str(tv.from))
                &&& begins_at(bytes@, enc_opt_str(tv.from).len() as int, enc_str(tv.to))
                &&& begins_at(bytes@, (enc_opt_str(tv.from) + enc_str(tv.to)).len() as int, varint(zigzag(tv.amount)))
                &&& bytes@.len() == (enc_opt_str(tv.from) + enc_str(tv.to)).len() + varint(zigzag(tv.amount)).len()
            } by {
                let a = enc_opt_str(tv.from);
                let b = enc_str(tv.to);
                let c = varint(zigzag(tv.amount));
                assert(bytes@.subrange(0, bytes@.len() as int) =~= bytes@);
                lemma_begins_split(bytes@, 0, a + b, c);
                lemma_begins_split(bytes@, 0, a, b);
            }
        }
        let (from, off1) = read_opt_str(bytes, 0)?;
        let (to, off2) = read_str(bytes, off1)?;
        let (amount, off3) = read_zigzag(bytes, off2)?;
        if off3 != bytes.len() {
            return Err(ChainError::Codec);
        }
        let t = SimpleTransaction { from, to, amount };
        proof {
            lemma_subrange_join(bytes@, 0, off1 as int, off2 as int);
            lemma_subrange_join(bytes@, 0, off2 as int, off3 as int);
            assert(bytes@.subrange(0, off3 as int) =~= bytes@);
            assert(t@.from == opt_str_view(t.from));
            assert(transaction_bytes(t@) =~= bytes@);
        }
        Ok(t)
    }
}


/// The content of a record.
pub struct RecordView {
    pub id: Seq<u8>,
    pub data: Seq<u8>,
}

/// The encoding of a record: its identifier, then its payload.
pub open spec fn record_bytes(r: RecordView) -> Seq<u8> {
    enc_bytes(r.id) + enc_bytes(r.data)
}

impl RecordView {
    /// Each byte string is short enough for its length to be written.
    pub open spec fn fits(self) -> bool {
        self.id.len() <= u64::MAX && self.data.len() <= u64::MAX
    }
}

/// The encodings of records, one after another, in order.
pub open spec fn records_body(rs: Seq<RecordView>) -> Seq<u8>
    decreases rs.len(),
{
    if rs.len() == 0 {
        Seq::empty()
    } else {
        records_body(rs.drop_last()) + record_bytes(rs.last())
    }
}

/// The encoding of an ordered sequence of records: the count, then each one.
pub open spec fn records_bytes(rs: Seq<RecordView>) -> Seq<u8> {
    varint(rs.len() as nat) + records_body(rs)
}

/// A content-addressed payload: the identifier is the digest of the data.
pub struct SimpleRecord {
    id: Vec<u8>,
    data: Vec<u8>,
}

impl View for SimpleRecord {
    type V = RecordView;

    closed spec fn view(&self) -> RecordView {
        RecordView { id: self.id@, data: self.data@ }
    }
}

impl SimpleRecord {
    /// A record over `data`, identified by the digest of `data`.
    pub fn new(data: Vec<u8>) -> (r: Self)
        ensures
            r@.data == data@,
            r@.id == sha3_256_of(data@),
    {
        let mut rec = Self { id: Vec::new(), data };
        rec.id = rec.hash();
        rec
    }

    /// The digest of the payload.
    pub fn hash(&self) -> (r: Vec<u8>)
        ensures
            r@ == sha3_256_of(self@.data),
    {
        sha3_256_hash(self.data.as_slice())
    }

    /// The deterministic byte encoding of the record.
    pub fn serialize(&self) -> (r: Vec<u8>)
        ensures
            r@ == record_bytes(self@),
    {
        let mut out: Vec<u8> = Vec::new();
        self.push_encoding(&mut out);
        out
    }

    /// Appends the encoding of the record to `out`.
    fn push_encoding(&self, out: &mut Vec<u8>)
        ensures
            final(out)@ == old(out)@ + record_bytes(self@),
    {
        push_bytes(out, self.id.as_slice());
        push_bytes(out, self.data.as_slice());
        proof {
            assert(old(out)@ + enc_bytes(self.id@) + enc_bytes(self.data@) == old(out)@ + record_bytes(self@));
        }
    }

    /// Reads a record from `bytes` at `pos`: the record and the position
    /// after it.
    fn read_from(bytes: &[u8], pos: usize) -> (r: Result<(SimpleRecord, usize), ChainError>)
        requires
            pos <= bytes@.len(),
        ensures
            match r {
                Ok((rec, next)) => pos < next <= bytes@.len() && bytes@.subrange(pos as int, next as int)
                    == record_bytes(rec@),
                Err(e) => e == ChainError::Codec,
            },
            forall|rv: RecordView|
                rv.fits() && #[trigger] begins_at(bytes@, pos as int, record_bytes(rv)) ==> r is Ok
                    && r->Ok_0.0@ == rv && r->Ok_0.1 == pos + record_bytes(rv).len(),
    {
        proof {
            assert forall|rv: RecordView| rv.fits() && #[trigger] begins_at(bytes@, pos as int, record_bytes(rv)) implies begins_at(
                bytes@,
                pos as int,
                enc_bytes(rv.id),
            ) && begins_at(bytes@, pos + enc_bytes(rv.id).len(), enc_bytes(rv.data)) by {
                lemma_begins_split(bytes@, pos as int, enc_bytes(rv.id), enc_bytes(rv.data));
            }
        }
        let (id, off1) = read_bytes(bytes, pos)?;
        let (data, off2) = read_bytes(bytes, off1)?;
        proof {
            lemma_subrange_join(bytes@, pos as int, off1 as int, off2 as int);
        }
        Ok((SimpleRecord { id, data }, off2))
    }

    /// Decodes a record from exactly the bytes of its encoding. The
    /// identifier is taken as it stands and not checked against the data.
    pub fn deserialize(bytes: &[u8]) -> (r: Result<SimpleRecord, ChainError>)
        ensures
            match r {
                Ok(rec) => record_bytes(rec@) == bytes@,
                Err(e) => e == ChainError::Codec,
            },
            forall|rv: RecordView| rv.fits() && #[trigger] record_bytes(rv) == bytes@ ==> r is Ok && r->Ok_0@ == rv,
    {
        proof {
            assert forall|rv: RecordView| rv.fits() && #[trigger] record_bytes(rv) == bytes@ implies begins_at(
                bytes@,
                0,
                record_bytes(rv),
            ) by {
                assert(bytes@.subrange(0, bytes@.len() as int) =~= bytes@);
            }
        }
        let (rec, next) = SimpleRecord::read_from(bytes, 0)?;
        if next != bytes.len() {
            return Err(ChainError::Codec);
        }
        proof {
            assert(bytes@.subrange(0, next as int) =~= bytes@);
        }
        Ok(rec)
    }

    pub fn get_id(&self) -> (r: &Vec<u8>)
        ensures
            r@ == self@.id,
    {
        &self.id
    }

    pub fn get_data(&self) -> (r: &Vec<u8>)
        ensures
            r@ == self@.data,
    {
        &self.data
    }
}

/// The views of a sequence of records.
pub open spec fn record_views(rs: Seq<SimpleRecord>) -> Seq<RecordView> {
    rs.map_values(|r: SimpleRecord| r@)
}

/// The content of a block.
pub struct BlockView {
    pub id: Seq<u8>,
    pub prev: Option<Seq<u8>>,
    pub height: u32,
    pub records: Seq<RecordView>,
    pub record_hash: Seq<u8>,
    pub nonce: u64,
}

/// The encoding of a block header: an empty identifier, the previous
/// block's identifier if any, the height, an empty record list, the record
/// digest and the nonce. The record bodies take no part in it.
pub open spec fn header_bytes(prev: Option<Seq<u8>>, height: u32, record_hash: Seq<u8>, nonce: u64) -> Seq<u8> {
    enc_bytes(Seq::empty()) + enc_opt_bytes(prev) + varint(height as nat) + varint(0) + enc_bytes(record_hash)
        + varint(nonce as nat)
}

/// The identifier that the header fields of `b` determine.
pub open spec fn header_id(b: BlockView) -> Seq<u8> {
    sha3_256_of(header_bytes(b.prev, b.height, b.record_hash, b.nonce))
}

/// The digest of an ordered sequence of records.
pub open spec fn records_digest(rs: Seq<RecordView>) -> Seq<u8> {
    sha3_256_of(records_bytes(rs))
}

/// The encoding of a whole block, field by field.
pub open spec fn block_bytes(b: BlockView) -> Seq<u8> {
    enc_bytes(b.id) + enc_opt_bytes(b.prev) + varint(b.height as nat) + records_bytes(b.records) + enc_bytes(
        b.record_hash,
    ) + varint(b.nonce as nat)
}

/// A freshly built block: nonce 0, the digest of its records, and the
/// identifier of its header.
pub open spec fn candidate(prev: Option<Seq<u8>>, height: u32, records: Seq<RecordView>) -> BlockView {
    let b = BlockView { id: Seq::empty(), prev, height, records, record_hash: records_digest(records), nonce: 0 };
    BlockView { id: header_id(b), ..b }
}

impl BlockView {
    /// The record digest matches the records, and the identifier matches the
    /// header.
    pub open spec fn consistent(self) -> bool {
        &&& self.record_hash == records_digest(self.records)
        &&& self.id == header_id(self)
    }

    /// Each byte string and the record list are short enough for their
    /// lengths to be written.
    pub open spec fn fits(self) -> bool {
        &&& self.id.len() <= u64::MAX
        &&& (self.prev is Some ==> self.prev->0.len() <= u64::MAX)
        &&& self.records.len() <= u64::MAX
        &&& forall|i: int| 0 <= i < self.records.len() ==> #[trigger] self.records[i].fits()
        &&& self.record_hash.len() <= u64::MAX
    }

    /// The same block with another nonce and the identifier that goes with it.
    pub open spec fn with_nonce(self, n: u64) -> BlockView {
        let b = BlockView { nonce: n, ..self };
        BlockView { id: header_id(b), ..b }
    }
}

/// Where the encodings of records begin at a place, so do the encodings of
/// each leading part of them.
proof fn lemma_records_prefix(s: Seq<u8>, p: int, rs: Seq<RecordView>, j: int)
    requires
        begins_at(s, p, records_body(rs)),
        0 <= j <= rs.len(),
    ensures
        begins_at(s, p, records_body(rs.subrange(0, j))),
    decreases rs.len(),
{
    if j == rs.len() {
        assert(rs.subrange(0, j) =~= rs);
    } else {
        lemma_begins_split(s, p, records_body(rs.drop_last()), record_bytes(rs.last()));
        lemma_records_prefix(s, p, rs.drop_last(), j);
        assert(rs.drop_last().subrange(0, j) =~= rs.subrange(0, j));
    }
}

/// Where the encodings of records begin at a place, the encoding of the
/// record at index `i` begins right after those of the records before it.
proof fn lemma_record_at(s: Seq<u8>, p: int, rs: Seq<RecordView>, i: int)
    requires
        begins_at(s, p, records_body(rs)),
        0 <= i < rs.len(),
    ensures
        begins_at(s, p + records_body(rs.subrange(0, i)).len(), record_bytes(rs[i])),
        records_body(rs.subrange(0, i + 1)) == records_body(rs.subrange(0, i)) + record_bytes(rs[i]),
{
    lemma_records_prefix(s, p, rs, i + 1);
    let rs1 = rs.subrange(0, i + 1);
    assert(rs1.drop_last() =~= rs.subrange(0, i));
    lemma_begins_split(s, p, records_body(rs1.drop_last()), record_bytes(rs1.last()));
}

/// Where the encoding of a block is the whole of `s`, each field's encoding
/// begins at its place in `s`.
proof fn lemma_block_layout(s: Seq<u8>, v: BlockView)
    requires
        block_bytes(v) == s,
    ensures
        begins_at(s, 0, enc_bytes(v.id)),
        begins_at(s, enc_bytes(v.id).len() as int, enc_opt_bytes(v.prev)),
        begins_at(s, (enc_bytes(v.id) + enc_opt_bytes(v.prev)).len() as int, varint(v.height as nat)),
        begins_at(
            s,
            (enc_bytes(v.id) + enc_opt_bytes(v.prev) + varint(v.height as nat)).len() as int,
            varint(v.records.len() as nat),
        ),
        begins_at(
            s,
            (enc_bytes(v.id) + enc_opt_bytes(v.prev) + varint(v.height as nat) + varint(
                v.records.len() as nat,
            )).len() as int,
            records_body(v.records),
        ),
        begins_at(
            s,
            (enc_bytes(v.id) + enc_opt_bytes(v.prev) + varint(v.height as nat) + records_bytes(v.records)).len() as int,
            enc_bytes(v.record_hash),
        ),
        begins_at(
            s,
            (enc_bytes(v.id) + enc_opt_bytes(v.prev) + varint(v.height as nat) + records_bytes(v.records) + enc_bytes(
                v.record_hash,
            )).len() as int,
            varint(v.nonce as nat),
        ),
        s.len() == (enc_bytes(v.id) + enc_opt_bytes(v.prev) + varint(v.height as nat) + records_bytes(v.records)
            + enc_bytes(v.record_hash)).len() + varint(v.nonce as nat).len(),
{
    let a = enc_bytes(v.id);
    let b = enc_opt_bytes(v.prev);
    let c = varint(v.height as nat);
    let d = varint(v.records.len() as nat);
    let e = records_body(v.records);
    let f = enc_bytes(v.record_hash);
    let g = varint(v.nonce as nat);
    assert(s.subrange(0, s.len() as int) =~= s);
    lemma_begins_split(s, 0, a + b + c + (d + e) + f, g);
    lemma_begins_split(s, 0, a + b + c + (d + e), f);
    lemma_begins_split(s, 0, a + b + c, d + e);
    lemma_begins_split(s, (a + b + c).len() as int, d, e);
    lemma_begins_split(s, 0, a + b, c);
    lemma_begins_split(s, 0, a, b);
    assert((a + b + c + d).len() == (a + b + c).len() + d.len());
}

/// Recomputing a consistent block's record digest from its records, and
/// then its identifier from the header fields, gives back exactly the
/// block's own record digest and identifier.
pub proof fn lemma_recompute_reproduces_id(b: BlockView)
    requires
        b.consistent(),
    ensures
        records_digest(b.records) == b.record_hash,
        header_id(BlockView { record_hash: records_digest(b.records), ..b }) == b.id,
        b.with_nonce(b.nonce) == b,
{
}

/// A freshly built block is consistent.
pub proof fn lemma_candidate_consistent(prev: Option<Seq<u8>>, height: u32, records: Seq<RecordView>)
    ensures
        candidate(prev, height, records).consistent(),
        candidate(prev, height, records).nonce == 0,
{
}

/// Changing the nonce of a consistent block keeps it consistent.
pub proof fn lemma_with_nonce_consistent(b: BlockView, n: u64)
    requires
        b.consistent(),
    ensures
        b.with_nonce(n).consistent(),
        b.with_nonce(n).nonce == n,
{
}

/// Two different nonces give two different header encodings, so the
/// identifiers of a block under them, the digests of those encodings,
/// differ unless the digest collides.
pub proof fn lemma_nonce_separates_headers(b: BlockView, n1: u64, n2: u64)
    requires
        n1 != n2,
    ensures
        header_bytes(b.prev, b.height, b.record_hash, n1) != header_bytes(b.prev, b.height, b.record_hash, n2),
{
    let p = enc_bytes(Seq::empty()) + enc_opt_bytes(b.prev) + varint(b.height as nat) + varint(0) + enc_bytes(
        b.record_hash,
    );
    let h1 = header_bytes(b.prev, b.height, b.record_hash, n1);
    let h2 = header_bytes(b.prev, b.height, b.record_hash, n2);
    assert(h1 == p + varint(n1 as nat));
    assert(h2 == p + varint(n2 as nat));
    if h1 == h2 {
        assert(h1.subrange(p.len() as int, h1.len() as int) =~= varint(n1 as nat));
        assert(h2.subrange(p.len() as int, h2.len() as int) =~= varint(n2 as nat));
        lemma_varint_injective(n1 as nat, n2 as nat);
    }
}

/// A block: a header linking it to its predecessor, and an ordered body of
/// records. Its identifier is derived from the header fields alone.
pub struct SimpleBlock {
    id: Vec<u8>,
    prev: Option<Vec<u8>>,
    height: u32,
    records: Vec<SimpleRecord>,
    record_hash: Vec<u8>,
    nonce: u64,
}

impl View for SimpleBlock {
    type V = BlockView;

    closed spec fn view(&self) -> BlockView {
        BlockView {
            id: self.id@,
            prev: match self.prev {
                None => None,
                Some(p) => Some(p@),
            },
            height: self.height,
            records: record_views(self.records@),
            record_hash: self.record_hash@,
            nonce: self.nonce,
        }
    }
}

impl SimpleBlock {
    /// A block after `prev` at `height` holding `records`, with nonce 0.
    pub fn new(prev: Vec<u8>, height: u32, records: Vec<SimpleRecord>) -> (r: Self)
        ensures
            r@ == candidate(Some(prev@), height, record_views(records@)),
            r@.id.len() == 32,
    {
        let mut block = Self {
            id: Vec::new(),
            prev: Some(prev),
            height,
            records,
            record_hash: Vec::new(),
            nonce: 0,
        };
        block.record_hash = block.hash_records();
        block.rehash();
        block
    }

    /// The first block of a chain: no predecessor, height 0, one record.
    pub fn new_genesis(genesis_record: SimpleRecord) -> (r: Self)
        ensures
            r@ == candidate(None, 0, seq![genesis_record@]),
            r@.id.len() == 32,
    {
        let mut block = Self {
            id: Vec::new(),
            prev: None,
            height: 0,
            records: vec![genesis_record],
            record_hash: Vec::new(),
            nonce: 0,
        };
        proof {
            assert(record_views(block.records@) =~= seq![genesis_record@]);
        }
        block.record_hash = block.hash_records();
        block.rehash();
        block
    }

    /// The encoding of the records, in order.
    fn serialize_records(&self) -> (r: Vec<u8>)
        ensures
            r@ == records_bytes(self@.records),
    {
        let mut out: Vec<u8> = Vec::new();
        self.push_records(&mut out);
        out
    }

    /// Appends the encoding of the records to `out`.
    fn push_records(&self, out: &mut Vec<u8>)
        ensures
            final(out)@ == old(out)@ + records_bytes(self@.records),
    {
        let ghost views = self@.records;
        push_varint(out, self.records.len() as u64);
        let ghost start = out@;
        let mut i: usize = 0;
        while i < self.records.len()
            invariant
                i <= self.records@.len(),
                views == record_views(self.records@),
                start == old(out)@ + varint(views.len() as nat),
                out@ == start + records_body(views.subrange(0, i as int)),
            decreases self.records@.len() - i,
        {
            self.records[i].push_encoding(out);
            proof {
                let s = views.subrange(0, i + 1);
                assert(s.drop_last() =~= views.subrange(0, i as int));
                assert(s.last() == views[i as int]);
                assert(out@ =~= start + records_body(s));
            }
            i = i + 1;
        }
        proof {
            assert(views.subrange(0, views.len() as int) =~= views);
        }
    }

    /// The size in bytes of the encoded records.
    pub fn get_records_size(&self) -> (r: usize)
        ensures
            r == records_bytes(self@.records).len(),
    {
        self.serialize_records().len()
    }

    /// The digest of the encoded records. It depends on their order.
    fn hash_records(&self) -> (r: Vec<u8>)
        ensures
            r@ == records_digest(self@.records),
    {
        let bytes = self.serialize_records();
        sha3_256_hash(bytes.as_slice())
    }

    /// Sets the identifier to the digest of the header fields.
    pub fn rehash(&mut self)
        ensures
            final(self)@ == (BlockView { id: header_id(old(self)@), ..old(self)@ }),
            final(self)@.id.len() == 32,
    {
        let mut out: Vec<u8> = Vec::new();
        let empty: Vec<u8> = Vec::new();
        push_bytes(&mut out, empty.as_slice());
        push_opt_bytes(&mut out, &self.prev);
        push_varint(&mut out, self.height as u64);
        push_varint(&mut out, 0);
        push_bytes(&mut out, self.record_hash.as_slice());
        push_varint(&mut out, self.nonce);
        proof {
            assert(empty@ =~= Seq::<u8>::empty());
            assert(out@ =~= header_bytes(self@.prev, self.height, self.record_hash@, self.nonce));
        }
        self.id = sha3_256_hash(out.as_slice());
    }

    /// Advances the nonce by one and updates the identifier.
    pub fn increment_nonce(&mut self)
        requires
            old(self)@.nonce < u64::MAX,
        ensures
            final(self)@ == old(self)@.with_nonce((old(self)@.nonce + 1) as u64),
            final(self)@.id.len() == 32,
    {
        self.nonce = self.nonce + 1;
        self.rehash();
    }

    /// Sets the nonce and updates the identifier.
    pub fn set_nonce(&mut self, nonce: u64)
        ensures
            final(self)@ == old(self)@.with_nonce(nonce),
            final(self)@.id.len() == 32,
    {
        self.nonce = nonce;
        self.rehash();
    }

    pub fn get_height(&self) -> (r: &u32)
        ensures
            *r == self@.height,
    {
        &self.height
    }

    pub fn get_nonce(&self) -> (r: &u64)
        ensures
            *r == self@.nonce,
    {
        &self.nonce
    }

    pub fn get_hash(&self) -> (r: &Vec<u8>)
        ensures
            r@ == self@.id,
    {
        &self.id
    }

    pub fn get_prev(&self) -> (r: &Option<Vec<u8>>)
        ensures
            match *r {
                None => self@.prev is None,
                Some(p) => self@.prev == Some(p@),
            },
    {
        &self.prev
    }

    /// The body. Callers only read it, which keeps the record digest valid.
    pub fn get_records(&self) -> (r: &Vec<SimpleRecord>)
        ensures
            record_views(r@) == self@.records,
    {
        &self.records
    }

    pub fn get_record_hash(&self) -> (r: &Vec<u8>)
        ensures
            r@ == self@.record_hash,
    {
        &self.record_hash
    }

    /// Decodes a block from exactly the bytes of its encoding; the encoding
    /// of a block decodes to that block. The fields are taken as they stand:
    /// neither digest is recomputed or checked.
    #[verifier::rlimit(40)]
    pub fn deserialize(bytes: &[u8]) -> (r: Result<SimpleBlock, ChainError>)
        ensures
            match r {
                Ok(b) => block_bytes(b@) == bytes@,
                Err(e) => e == ChainError::Codec,
            },
            forall|v: BlockView| v.fits() && #[trigger] block_bytes(v) == bytes@ ==> r is Ok && r->Ok_0@ == v,
    {
        proof {
            assert forall|v: BlockView| #[trigger] block_bytes(v) == bytes@ implies {
                &&& begins_at(bytes@, 0, enc_bytes(v.id))
                &&& begins_at(bytes@, enc_bytes(v.id).len() as int, enc_opt_bytes(v.prev))
            } by {
                lemma_block_layout(bytes@, v);
            }
        }
        let (id, off1) = read_bytes(bytes, 0)?;
        let (prev, off2) = read_opt_bytes(bytes, off1)?;
        proof {
            assert forall|v: BlockView| v.fits() && #[trigger] block_bytes(v) == bytes@ implies {
                &&& id@ == v.id && opt_view(prev) == v.prev
                &&& off2 == (enc_bytes(v.id) + enc_opt_bytes(v.prev)).len()
                &&& begins_at(bytes@, off2 as int, varint(v.height as nat))
            } by {
                lemma_block_layout(bytes@, v);
            }
        }
        let (height, off3) = read_u64(bytes, off2)?;
        if height > u32::MAX as u64 {
            return Err(ChainError::Codec);
        }
        proof {
            assert forall|v: BlockView| v.fits() && #[trigger] block_bytes(v) == bytes@ implies {
                &&& height == v.height
                &&& begins_at(bytes@, off3 as int, varint(v.records.len() as nat))
            } by {
                lemma_block_layout(bytes@, v);
            }
        }
        let (count, off4) = read_u64(bytes, off3)?;
        let mut records: Vec<SimpleRecord> = Vec::new();
        let mut pos: usize = off4;
        let mut i: u64 = 0;
        proof {
            assert(bytes@.subrange(off4 as int, off4 as int) =~= records_body(record_views(records@)));
            assert forall|v: BlockView| v.fits() && #[trigger] block_bytes(v) == bytes@ implies {
                &&& count == v.records.len()
                &&& begins_at(bytes@, off4 as int, records_body(v.records))
                &&& record_views(records@) == v.records.subrange(0, 0)
            } by {
                lemma_block_layout(bytes@, v);
                assert(record_views(records@) =~= v.records.subrange(0, 0));
            }
        }
        while i < count
            invariant
                off4 <= pos <= bytes@.len(),
                records@.len() == i,
                i <= count,
                bytes@.subrange(off4 as int, pos as int) == records_body(record_views(records@)),
                forall|v: BlockView|
                    v.fits() && #[trigger] block_bytes(v) == bytes@ ==> {
                        &&& id@ == v.id && opt_view(prev) == v.prev && height == v.height
                        &&& count == v.records.len()
                        &&& begins_at(bytes@, off4 as int, records_body(v.records))
                        &&& record_views(records@) == v.records.subrange(0, i as int)
                        &&& pos == off4 + records_body(v.records.subrange(0, i as int)).len()
                        &&& off4 == (enc_bytes(v.id) + enc_opt_bytes(v.prev) + varint(v.height as nat) + varint(
                            v.records.len() as nat,
                        )).len()
                    },
            decreases count - i,
        {
            proof {
                assert forall|v: BlockView| v.fits() && #[trigger] block_bytes(v) == bytes@ implies begins_at(
                    bytes@,
                    pos as int,
                    record_bytes(v.records[i as int]),
                ) && v.records[i as int].fits() by {
                    lemma_record_at(bytes@, off4 as int, v.records, i as int);
                }
            }
            let (rec, next) = SimpleRecord::read_from(bytes, pos)?;
            let ghost before = records@;
            records.push(rec);
            proof {
                lemma_subrange_join(bytes@, off4 as int, pos as int, next as int);
                assert(record_views(records@).drop_last() =~= record_views(before));
                assert forall|v: BlockView| v.fits() && #[trigger] block_bytes(v) == bytes@ implies {
                    &&& record_views(records@) == v.records.subrange(0, i + 1)
                    &&& next == off4 + records_body(v.records.subrange(0, i + 1)).len()
                } by {
                    lemma_record_at(bytes@, off4 as int, v.records, i as int);
                    assert(record_views(records@) =~= v.records.subrange(0, i + 1));
                }
            }
            pos = next;
            i = i + 1;
        }
        proof {
            assert forall|v: BlockView| v.fits() && #[trigger] block_bytes(v) == bytes@ implies {
                &&& record_views(records@) == v.records
                &&& begins_at(bytes@, pos as int, enc_bytes(v.record_hash))
            } by {
                lemma_block_layout(bytes@, v);
                assert(v.records.subrange(0, v.records.len() as int) =~= v.records);
            }
        }
        let (record_hash, off5) = read_bytes(bytes, pos)?;
        proof {
            assert forall|v: BlockView| v.fits() && #[trigger] block_bytes(v) == bytes@ implies {
                &&& begins_at(bytes@, off5 as int, varint(v.nonce as nat))
            } by {
                lemma_block_layout(bytes@, v);
            }
        }
        let (nonce, off6) = read_u64(bytes, off5)?;
        proof {
            assert forall|v: BlockView| v.fits() && #[trigger] block_bytes(v) == bytes@ implies off6 == bytes@.len() by {
                lemma_block_layout(bytes@, v);
            }
        }
        if off6 != bytes.len() {
            return Err(ChainError::Codec);
        }
        let b = SimpleBlock { id, prev, height: height as u32, records, record_hash, nonce };
        proof {
            lemma_subrange_join(bytes@, 0, off1 as int, off2 as int);
            lemma_subrange_join(bytes@, 0, off2 as int, off3 as int);
            lemma_subrange_join(bytes@, off3 as int, off4 as int, pos as int);
            lemma_subrange_join(bytes@, 0, off3 as int, pos as int);
            lemma_subrange_join(bytes@, 0, pos as int, off5 as int);
            lemma_subrange_join(bytes@, 0, off5 as int, off6 as int);
            assert(bytes@.subrange(0, off6 as int) =~= bytes@);
            assert(b@.records.len() == count);
            assert(bytes@.subrange(off3 as int, pos as int) == records_bytes(b@.records));
            assert(block_bytes(b@) =~= bytes@);
            assert forall|v: BlockView| v.fits() && #[trigger] block_bytes(v) == bytes@ implies b@ == v by {
                assert(b@.prev == opt_view(b.prev));
            }
        }
        Ok(b)
    }

    /// The deterministic byte encoding of the whole block.
    pub fn serialize(&self) -> (r: Vec<u8>)
        ensures
            r@ == block_bytes(self@),
    {
        let mut out: Vec<u8> = Vec::new();
        push_bytes(&mut out, self.id.as_slice());
        push_opt_bytes(&mut out, &self.prev);
        push_varint(&mut out, self.height as u64);
        self.push_records(&mut out);
        push_bytes(&mut out, self.record_hash.as_slice());
        push_varint(&mut out, self.nonce);
        proof {
            assert(out@ =~= block_bytes(self@));
        }
        out
    }
}

} // verus!
