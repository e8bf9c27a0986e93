//! Transactions: what they hold, what they cost and what is signed.

use crate::base64::Base64;
use crate::content;
use crate::crypto;
use crate::crypto::{DeepHashItem, HashTree};
use crate::error::Error;
use crate::merkle;
use crate::merkle::{Node, NodeFields, Path, Proof, ShapeFields};
use crate::solana::{SigResponse, SignatureFields};
use crate::tag;
use crate::tag::Tag;
use crate::text;
use crate::views;
use vstd::prelude::*;
use vstd::string::StringExecFns;
use vstd::utf8::encode_utf8;

verus! {

/// Winstons are a sub unit of the network's token, AR: this many make one AR.
pub const WINSTONS_PER_AR: u64 = 1000000000000;

/// Data is paid for by the block of this many bytes.
pub const BLOCK_SIZE: u64 = 262144;

/// A transaction. One that was not signed has no id and no signature.
#[derive(Debug, PartialEq, Eq)]
pub struct Transaction {
    pub format: u8,
    pub id: Base64,
    pub last_tx: Base64,
    pub owner: Base64,
    pub tags: Vec<Tag<Base64>>,
    pub target: Base64,
    pub quantity: u64,
    pub data_root: Base64,
    pub data: Base64,
    pub data_size: u64,
    pub reward: u64,
    pub signature: Base64,
    pub chunks: Vec<Node>,
    pub proofs: Vec<Proof>,
}

/// What a [`Transaction`] holds.
#[verifier::ext_equal]
pub struct TransactionFields {
    pub format: u8,
    pub id: Seq<u8>,
    pub last_tx: Seq<u8>,
    pub owner: Seq<u8>,
    pub tags: Seq<Tag<Seq<u8>>>,
    pub target: Seq<u8>,
    pub quantity: u64,
    pub data_root: Seq<u8>,
    pub data: Seq<u8>,
    pub data_size: u64,
    pub reward: u64,
    pub signature: Seq<u8>,
    pub chunks: Seq<NodeFields>,
    pub proofs: Seq<Path>,
}

impl View for Transaction {
    type V = TransactionFields;

    open spec fn view(&self) -> TransactionFields {
        TransactionFields {
            format: self.format,
            id: self.id@,
            last_tx: self.last_tx@,
            owner: self.owner@,
            tags: views::each(self.tags@),
            target: self.target@,
            quantity: self.quantity,
            data_root: self.data_root@,
            data: self.data@,
            data_size: self.data_size,
            reward: self.reward,
            signature: self.signature@,
            chunks: views::each(self.chunks@),
            proofs: views::each(self.proofs@),
        }
    }
}

/// How many blocks `len` bytes take up.
pub open spec fn blocks(len: nat) -> nat {
    (len + BLOCK_SIZE - 1) as nat / BLOCK_SIZE as nat
}

/// What `len` bytes cost, where the first term is the price of the first block and the second term
/// that of every further one.
pub open spec fn reward_for(len: nat, price_terms: (u64, u64)) -> int {
    price_terms.0 + price_terms.1 * (blocks(len) - 1)
}

/// Data that fits one block costs the first term.
pub proof fn first_block_costs_the_base(len: nat, price_terms: (u64, u64))
    requires
        0 < len <= BLOCK_SIZE,
    ensures
        reward_for(len, price_terms) == price_terms.0,
{
    assert(blocks(len) == 1);
}

/// Every block more costs the second term more.
pub proof fn further_blocks_cost_the_increment(len: nat, price_terms: (u64, u64))
    ensures
        reward_for(len + BLOCK_SIZE as nat, price_terms) == reward_for(len, price_terms)
            + price_terms.1,
{
    assert(blocks(len + BLOCK_SIZE as nat) == blocks(len) + 1);
    vstd::arithmetic::mul::lemma_mul_is_distributive_add(
        price_terms.1 as int,
        blocks(len) - 1,
        1,
    );
}

/// What is hashed for the signature of a tag.
pub open spec fn tag_tree(tag: Tag<Seq<u8>>) -> HashTree {
    HashTree::List(seq![HashTree::Blob(tag.name), HashTree::Blob(tag.value)])
}

/// What is hashed for the signature of a transaction.
pub open spec fn signing_tree(tx: TransactionFields) -> HashTree {
    HashTree::List(
        seq![
            HashTree::Blob(encode_utf8(text::decimal(tx.format as nat))),
            HashTree::Blob(tx.owner),
            HashTree::Blob(tx.target),
            HashTree::Blob(encode_utf8(text::decimal(tx.quantity as nat))),
            HashTree::Blob(encode_utf8(text::decimal(tx.reward as nat))),
            HashTree::Blob(tx.last_tx),
            HashTree::List(tx.tags.map_values(|tag: Tag<Seq<u8>>| tag_tree(tag))),
            HashTree::Blob(encode_utf8(text::decimal(tx.data_size as nat))),
            HashTree::Blob(tx.data_root),
        ],
    )
}

/// The transaction that uploads `data`, before it is signed.
pub open spec fn upload_of(
    data: Seq<u8>,
    found_type: Option<Seq<char>>,
    other_tags: Seq<Tag<Seq<u8>>>,
    last_tx: Seq<u8>,
    price_terms: (u64, u64),
    owner: Seq<u8>,
) -> TransactionFields {
    TransactionFields {
        format: 2,
        id: Seq::empty(),
        last_tx,
        owner,
        tags: content::standard_tags(found_type).map_values(
            |tag: Tag<Seq<char>>| tag::utf8_tag(tag),
        ) + other_tags,
        target: Seq::empty(),
        quantity: 0,
        data_root: merkle::id(merkle::data_tree(data)),
        data,
        data_size: data.len() as u64,
        reward: reward_for(data.len(), price_terms) as u64,
        signature: Seq::empty(),
        chunks: merkle::nodes_of(merkle::leaves(data)),
        proofs: merkle::paths(merkle::data_tree(data), Seq::empty()),
    }
}

/// A new transaction holds a path for every chunk of its data, which leads from its data root to
/// the hash of the chunk.
pub proof fn proofs_lead_to_the_chunks(
    data: Seq<u8>,
    found_type: Option<Seq<char>>,
    other_tags: Seq<Tag<Seq<u8>>>,
    last_tx: Seq<u8>,
    price_terms: (u64, u64),
    owner: Seq<u8>,
    i: int,
)
    requires
        0 <= i < merkle::leaves(data).len(),
    ensures
        ({
            let tx = upload_of(data, found_type, other_tags, last_tx, price_terms, owner);
            &&& tx.proofs.len() == tx.chunks.len()
            &&& match tx.chunks[i].shape {
                ShapeFields::Leaf { data_hash } => {
                    let end = tx.chunks[i].max_byte_range;
                    &&& tx.chunks[i].id == merkle::leaf_id(data_hash, end)
                    &&& merkle::leads(tx.data_root, tx.proofs[i].bytes, data_hash, end)
                    &&& tx.proofs[i].offset == end - 1
                },
                ShapeFields::Branch { .. } => false,
            }
        }),
{
    merkle::data_tree_covers_the_chunks(data);
    merkle::paths_lead_to_their_leaves(merkle::data_tree(data), i);
    merkle::one_path_per_leaf(merkle::data_tree(data), Seq::empty());
    assert(merkle::leaves_under(merkle::data_tree(data))[i] == merkle::leaves(data)[i]);
}

/// What `len` bytes cost, if there are any and their cost can be written down.
pub fn checked_reward(len: u64, price_terms: (u64, u64)) -> (cost: Option<u64>)
    ensures
        match cost {
            Some(c) => len > 0 && c == reward_for(len as nat, price_terms),
            None => len == 0 || reward_for(len as nat, price_terms) > u64::MAX,
        },
{
    if len == 0 {
        return None;
    }
    let last: u64 = if len % BLOCK_SIZE != 0 {
        1
    } else {
        0
    };
    let further: u64 = len / BLOCK_SIZE + last - 1;
    assert(further == blocks(len as nat) - 1);
    match price_terms.1.checked_mul(further) {
        Some(increments) => price_terms.0.checked_add(increments),
        None => None,
    }
}

/// What `len` bytes cost.
pub fn reward(len: u64, price_terms: (u64, u64)) -> (cost: u64)
    requires
        len > 0,
        reward_for(len as nat, price_terms) <= u64::MAX,
    ensures
        cost == reward_for(len as nat, price_terms),
{
    checked_reward(len, price_terms).unwrap()
}

/// A blob of the bytes of `bytes`.
pub(crate) fn blob(bytes: &[u8]) -> (item: DeepHashItem)
    ensures
        item@ == HashTree::Blob(bytes@),
{
    DeepHashItem::Blob(vstd::slice::slice_to_vec(bytes))
}

/// A blob of the decimal digits of `n`.
fn decimal_blob(n: u64) -> (item: DeepHashItem)
    ensures
        item@ == HashTree::Blob(encode_utf8(text::decimal(n as nat))),
{
    let digits = text::decimal_text(n);
    blob(digits.as_str().as_bytes())
}

impl Transaction {
    /// What is hashed for the signature.
    pub fn to_deep_hash_item(&self) -> (item: Result<DeepHashItem, Error>)
        ensures
            match item {
                Ok(i) => self.format == 2 && i@ == signing_tree(self@),
                Err(e) => self.format != 2 && e == Error::UnsupportedFormat,
            },
    {
        if self.format != 2 {
            return Err(Error::UnsupportedFormat);
        }
        let mut tags: Vec<DeepHashItem> = Vec::new();
        let mut i: usize = 0;
        while i < self.tags.len()
            invariant
                i <= self.tags.len(),
                tags@.len() == i,
                forall|j: int| 0 <= j < i ==> (#[trigger] tags@[j])@ == tag_tree(self.tags@[j]@),
            decreases self.tags.len() - i,
        {
            let mut pair: Vec<DeepHashItem> = Vec::new();
            pair.push(blob(self.tags[i].name.0.as_slice()));
            pair.push(blob(self.tags[i].value.0.as_slice()));
            let item = DeepHashItem::List(pair);
            assert(item@->List_0 =~= tag_tree(self.tags@[i as int]@)->List_0);
            tags.push(item);
            i = i + 1;
        }
        let tags = DeepHashItem::List(tags);
        assert(tags@->List_0 =~= self@.tags.map_values(|tag: Tag<Seq<u8>>| tag_tree(tag)));
        let mut fields: Vec<DeepHashItem> = Vec::new();
        fields.push(decimal_blob(self.format as u64));
        fields.push(blob(self.owner.0.as_slice()));
        fields.push(blob(self.target.0.as_slice()));
        fields.push(decimal_blob(self.quantity));
        fields.push(decimal_blob(self.reward));
        fields.push(blob(self.last_tx.0.as_slice()));
        fields.push(tags);
        fields.push(decimal_blob(self.data_size));
        fields.push(blob(self.data_root.0.as_slice()));
        let item = DeepHashItem::List(fields);
        assert(item@->List_0 =~= signing_tree(self@)->List_0);
        Ok(item)
    }
}

/// A transaction with a signature, and the id that follows from it.
pub open spec fn signed_with(tx: TransactionFields, signature: Seq<u8>) -> TransactionFields {
    identified(tx, signature, crypto::sha256(signature))
}

/// A transaction with a signature and an id.
pub open spec fn identified(
    tx: TransactionFields,
    signature: Seq<u8>,
    id: Seq<u8>,
) -> TransactionFields {
    TransactionFields { signature, id, ..tx }
}

/// A transaction with the signature, the id and the owner that were bought with SOL.
pub open spec fn sol_signed_with(
    tx: TransactionFields,
    response: SignatureFields,
) -> TransactionFields {
    TransactionFields {
        signature: response.ar_tx_sig,
        id: response.ar_tx_id,
        owner: response.ar_tx_owner,
        ..tx
    }
}

/// Neither way of signing touches what is signed, but for the owner who signs.
pub proof fn signing_keeps_what_is_signed(
    tx: TransactionFields,
    signature: Seq<u8>,
    response: SignatureFields,
)
    ensures
        signing_tree(signed_with(tx, signature)) == signing_tree(tx),
        signing_tree(sol_signed_with(tx, response)) == signing_tree(
            TransactionFields { owner: response.ar_tx_owner, ..tx },
        ),
{
}

impl Transaction {
    /// Takes in a signature, and the id that follows from it.
    pub fn with_signature(self, signature: Vec<u8>) -> (signed: Result<Transaction, Error>)
        ensures
            match signed {
                Ok(tx) => crypto::hashable(signature@) && tx@ == signed_with(self@, signature@)
                    && tx.chunks == self.chunks && tx.id@.len() == 32,
                Err(e) => !crypto::hashable(signature@) && e == Error::MessageTooLong,
            },
    {
        if signature.len() as u64 >= crypto::MESSAGE_LIMIT {
            return Err(Error::MessageTooLong);
        }
        let id = crypto::digest_sha256(signature.as_slice());
        Ok(self.identify(signature, id))
    }

    /// Takes in a signature and an id.
    pub fn identify(self, signature: Vec<u8>, id: Vec<u8>) -> (signed: Transaction)
        ensures
            signed@ == identified(self@, signature@, id@),
            signed.chunks == self.chunks,
    {
        let mut signed = self;
        signed.signature = Base64(signature);
        signed.id = Base64(id);
        signed
    }

    /// Takes in a signature, an id and an owner that were bought with SOL.
    pub fn with_sol_signature(self, response: &SigResponse) -> (signed: Transaction)
        ensures
            signed@ == sol_signed_with(self@, response@),
            signed.chunks == self.chunks,
    {
        let mut signed = self;
        signed.signature = response.ar_tx_sig.clone();
        signed.id = response.ar_tx_id.clone();
        signed.owner = response.ar_tx_owner.clone();
        signed
    }

    /// The transaction that uploads `data`, before it is signed, given the content type that the
    /// data gave away.
    pub fn upload(
        data: Vec<u8>,
        found_type: Option<String>,
        other_tags: Option<Vec<Tag<Base64>>>,
        last_tx: Base64,
        price_terms: (u64, u64),
        owner: Base64,
    ) -> (tx: Transaction)
        requires
            data@.len() > 0,
            reward_for(data@.len(), price_terms) <= u64::MAX,
        ensures
            tx@ == upload_of(
                data@,
                views::maybe(found_type),
                match other_tags {
                    Some(tags) => views::each(tags@),
                    None => Seq::empty(),
                },
                last_tx@,
                price_terms,
                owner@,
            ),
            merkle::all_well_formed(tx.chunks@),
    {
        let ghost standard = content::standard_tags(views::maybe(found_type)).map_values(
            |tag: Tag<Seq<char>>| tag::utf8_tag(tag),
        );
        let data_size: u64 = data.len() as u64;
        let cost: u64 = reward(data_size, price_terms);
        let chunks = merkle::generate_leaves(data.as_slice());
        proof {
            merkle::data_tree_covers_the_chunks(data@);
        }
        let root = merkle::generate_data_root(copy_nodes(&chunks));
        let proofs = merkle::resolve_proofs(&root, None);
        let content_type = content::content_type_of(found_type);
        let mut tags: Vec<Tag<Base64>> = Vec::new();
        tags.push(Tag::<Base64>::from_utf8_strs("Content-Type", content_type.as_str()).unwrap());
        tags.push(
            Tag::<Base64>::from_utf8_strs(
                "User-Agent",
                content::user_agent_text().as_str(),
            ).unwrap(),
        );
        assert(views::each(tags@) =~= standard);
        match other_tags {
            Some(others) => {
                let mut others = others;
                let ghost added = views::each(others@);
                tags.append(&mut others);
                assert(views::each(tags@) =~= standard + added);
            },
            None => {
                assert(views::each(tags@) =~= standard + Seq::<Tag<Seq<u8>>>::empty());
            },
        }
        let tx = Transaction {
            format: 2,
            id: Base64(Vec::new()),
            last_tx,
            owner,
            tags,
            target: Base64(Vec::new()),
            quantity: 0,
            data_root: Base64(root.id),
            data: Base64(data),
            data_size,
            reward: cost,
            signature: Base64(Vec::new()),
            chunks,
            proofs,
        };
        assert(tx@.id =~= Seq::empty());
        assert(tx@.target =~= Seq::empty());
        assert(tx@.signature =~= Seq::empty());
        tx
    }
}

/// A copy of well-formed nodes.
fn copy_nodes(nodes: &Vec<Node>) -> (copy: Vec<Node>)
    requires
        merkle::all_well_formed(nodes@),
    ensures
        merkle::all_well_formed(copy@),
        merkle::trees(copy@) == merkle::trees(nodes@),
{
    let mut copy: Vec<Node> = Vec::new();
    let mut i: usize = 0;
    while i < nodes.len()
        invariant
            i <= nodes.len(),
            merkle::all_well_formed(nodes@),
            merkle::all_well_formed(copy@),
            merkle::trees(copy@) =~= merkle::trees(nodes@).take(i as int),
        decreases nodes.len() - i,
    {
        let ghost before = merkle::trees(copy@);
        let next = nodes[i].clone();
        let ghost seen = next.tree();
        copy.push(next);
        assert(merkle::trees(copy@) =~= before.push(seen));
        i = i + 1;
    }
    copy
}

/// Data is paid for by the started block of 256 KiB: `len` bytes take up as many blocks as are
/// needed to hold them, and no more.
pub proof fn blocks_hold_the_data(len: nat)
    ensures
        BLOCK_SIZE == 262144,
        blocks(len) * 262144 >= len,
        len > 0 ==> (blocks(len) - 1) * 262144 < len,
{
}

/// What is signed: the format, who owns the transaction, who it goes to, what is sent and what is
/// paid, the anchor, the tags, and the size and the root of the data, in this order, numbers in
/// decimal digits and every tag as its name and its value.
pub proof fn everything_that_matters_is_signed(tx: TransactionFields)
    ensures
        match signing_tree(tx) {
            HashTree::List(fields) => {
                &&& fields.len() == 9
                &&& fields[0] == HashTree::Blob(encode_utf8(text::decimal(tx.format as nat)))
                &&& fields[1] == HashTree::Blob(tx.owner)
                &&& fields[2] == HashTree::Blob(tx.target)
                &&& fields[3] == HashTree::Blob(encode_utf8(text::decimal(tx.quantity as nat)))
                &&& fields[4] == HashTree::Blob(encode_utf8(text::decimal(tx.reward as nat)))
                &&& fields[5] == HashTree::Blob(tx.last_tx)
                &&& match fields[6] {
                    HashTree::List(tags) => tags.len() == tx.tags.len() && forall|i: int|
                        0 <= i < tx.tags.len() ==> #[trigger] tags[i] == HashTree::List(
                            seq![HashTree::Blob(tx.tags[i].name), HashTree::Blob(tx.tags[i].value)],
                        ),
                    HashTree::Blob(_) => false,
                }
                &&& fields[7] == HashTree::Blob(encode_utf8(text::decimal(tx.data_size as nat)))
                &&& fields[8] == HashTree::Blob(tx.data_root)
            },
            HashTree::Blob(_) => false,
        },
{
}

/// A new transaction holds the data with its size, root, chunks and paths, what it costs, the
/// labels and then the other tags, the anchor and the owner; it sends nothing to anyone and is not
/// signed.
pub proof fn uploads_hold_what_they_are_made_of(
    data: Seq<u8>,
    found_type: Option<Seq<char>>,
    other_tags: Seq<Tag<Seq<u8>>>,
    last_tx: Seq<u8>,
    price_terms: (u64, u64),
    owner: Seq<u8>,
)
    requires
        data.len() <= u64::MAX,
        0 <= reward_for(data.len(), price_terms) <= u64::MAX,
    ensures
        ({
            let tx = upload_of(data, found_type, other_tags, last_tx, price_terms, owner);
            let labels = content::standard_tags(found_type);
            &&& tx.format == 2
            &&& tx.id.len() == 0 && tx.signature.len() == 0
            &&& tx.target.len() == 0 && tx.quantity == 0
            &&& tx.last_tx == last_tx && tx.owner == owner
            &&& tx.data == data && tx.data_size == data.len()
            &&& tx.reward == price_terms.0 + price_terms.1 * (blocks(data.len()) - 1)
            &&& tx.data_root == merkle::id(merkle::root(merkle::leaves(data)))
            &&& tx.proofs == merkle::paths(merkle::root(merkle::leaves(data)), Seq::empty())
            &&& tx.chunks.len() == merkle::leaves(data).len()
            &&& forall|i: int|
                0 <= i < tx.chunks.len() ==> #[trigger] tx.chunks[i] == merkle::node_of(
                    merkle::leaves(data)[i],
                )
            &&& tx.tags.len() == 2 + other_tags.len()
            &&& tx.tags[0] == tag::utf8_tag(labels[0]) && tx.tags[1] == tag::utf8_tag(labels[1])
            &&& tx.tags.skip(2) == other_tags
        }),
{
    let tx = upload_of(data, found_type, other_tags, last_tx, price_terms, owner);
    assert(tx.tags.skip(2) =~= other_tags);
}

/// Signing a transaction sets its signature and its id, the hash of the signature, and nothing
/// else; a signature that is bought with SOL comes with its own id and owner.
pub proof fn signing_sets_nothing_else(
    tx: TransactionFields,
    signature: Seq<u8>,
    response: SignatureFields,
)
    ensures
        ({
            let own = signed_with(tx, signature);
            let bought = sol_signed_with(tx, response);
            &&& own.signature == signature && own.id == crypto::sha256(signature)
            &&& own.owner == tx.owner
            &&& bought.signature == response.ar_tx_sig && bought.id == response.ar_tx_id
            &&& bought.owner == response.ar_tx_owner
            &&& forall|after: TransactionFields|
                after == own || after == bought ==> {
                    &&& (#[trigger] after.format) == tx.format && after.last_tx == tx.last_tx
                    &&& after.tags == tx.tags && after.target == tx.target
                    &&& after.quantity == tx.quantity && after.data_root == tx.data_root
                    &&& after.data == tx.data && after.data_size == tx.data_size
                    &&& after.reward == tx.reward && after.chunks == tx.chunks
                    &&& after.proofs == tx.proofs
                }
        }),
{
}

/// Every field of a transaction counts.
pub proof fn every_field_of_a_transaction_counts(tx: Transaction)
    ensures
        tx@.format == tx.format,
        tx@.id == tx.id.0@,
        tx@.last_tx == tx.last_tx.0@,
        tx@.owner == tx.owner.0@,
        tx@.tags == views::each(tx.tags@),
        tx@.target == tx.target.0@,
        tx@.quantity == tx.quantity,
        tx@.data_root == tx.data_root.0@,
        tx@.data == tx.data.0@,
        tx@.data_size == tx.data_size,
        tx@.reward == tx.reward,
        tx@.signature == tx.signature.0@,
        tx@.chunks == views::each(tx.chunks@),
        tx@.proofs == views::each(tx.proofs@),
{
}

} // verus!
