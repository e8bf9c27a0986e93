//! Data items, and bundles of them.

use crate::avro;
use crate::base64::Base64;
use crate::crypto;
use crate::crypto::{DeepHashItem, HashTree, Provider};
use crate::encoding;
use crate::error::Error;
use crate::tag;
use crate::tag::Tag;
use crate::transaction;
use crate::views;
use vstd::prelude::*;
use vstd::utf8::encode_utf8;

verus! {

/// A piece of data that is uploaded as part of a bundle. One that was not signed has no id and no
/// signature.
#[derive(Debug, PartialEq, Eq)]
pub struct DataItem {
    pub id: Base64,
    pub signature: Base64,
    pub owner: Base64,
    pub target: Base64,
    pub anchor: Base64,
    pub tags: Vec<Tag<String>>,
    pub data: Base64,
}

/// What a [`DataItem`] holds.
#[verifier::ext_equal]
pub struct ItemFields {
    pub id: Seq<u8>,
    pub signature: Seq<u8>,
    pub owner: Seq<u8>,
    pub target: Seq<u8>,
    pub anchor: Seq<u8>,
    pub tags: Seq<Tag<Seq<char>>>,
    pub data: Seq<u8>,
}

impl View for DataItem {
    type V = ItemFields;

    open spec fn view(&self) -> ItemFields {
        ItemFields {
            id: self.id@,
            signature: self.signature@,
            owner: self.owner@,
            target: self.target@,
            anchor: self.anchor@,
            tags: views::each(self.tags@),
            data: self.data@,
        }
    }
}

/// The length of a signature, and of the owner's modulus, in a data item.
pub const SIGNATURE_SIZE: usize = 512;

/// The length of a target or an anchor, where a data item has one, and of an id.
pub const ID_SIZE: usize = 32;

/// A field that may be empty: a byte that says whether it is there, then the field.
pub open spec fn optional_bytes(field: Seq<u8>) -> Seq<u8> {
    if field.len() == 0 {
        seq![0u8]
    } else {
        seq![1u8] + field
    }
}

/// The tags, behind their number and the length of their binary form, then the data.
pub open spec fn tail_bytes(tags: Seq<Tag<Seq<char>>>, data: Seq<u8>) -> Seq<u8> {
    encoding::le_bytes(tags.len(), 8) + (encoding::le_bytes(avro::tags_bytes(tags).len(), 8) + (
    avro::tags_bytes(tags) + data))
}

/// The type of the signature, the signature and the owner.
pub open spec fn head_bytes(signature: Seq<u8>, owner: Seq<u8>) -> Seq<u8> {
    encoding::le_bytes(1, 2) + (signature + owner)
}

/// The binary form of a data item. It does not hold the id.
pub open spec fn item_bytes(item: ItemFields) -> Seq<u8> {
    head_bytes(item.signature, item.owner) + (optional_bytes(item.target) + (optional_bytes(
        item.anchor,
    ) + tail_bytes(item.tags, item.data)))
}

/// Whether the fields of an item have the lengths that its binary form leaves room for.
pub open spec fn well_sized(item: ItemFields) -> bool {
    &&& item.signature.len() == SIGNATURE_SIZE
    &&& item.owner.len() == SIGNATURE_SIZE
    &&& item.target.len() == 0 || item.target.len() == ID_SIZE
    &&& item.anchor.len() == 0 || item.anchor.len() == ID_SIZE
    &&& item.tags.len() <= u64::MAX
    &&& avro::tags_bytes(item.tags).len() <= u64::MAX
}

/// The field that may be empty at the start of `bytes`, and how many bytes it takes.
pub open spec fn parse_optional(bytes: Seq<u8>) -> Option<(Seq<u8>, nat)> {
    if bytes.len() >= 1 && bytes[0] == 0 {
        Some((Seq::empty(), 1))
    } else if bytes.len() >= 1 + ID_SIZE && bytes[0] == 1 {
        Some((bytes.subrange(1, 1 + ID_SIZE), (1 + ID_SIZE) as nat))
    } else {
        None
    }
}

/// The tags and the data that `bytes` hold, if any.
pub open spec fn parse_tail(bytes: Seq<u8>) -> Option<(Seq<Tag<Seq<char>>>, Seq<u8>)> {
    if bytes.len() < 16 {
        None
    } else {
        let count = encoding::le_value(bytes.take(8));
        let size = encoding::le_value(bytes.subrange(8, 16));
        if size > bytes.len() - 16 {
            None
        } else {
            match avro::parse_tags(bytes.subrange(16, 16int + size)) {
                Some(tags) => if tags.len() == count {
                    Some((tags, bytes.skip(16int + size)))
                } else {
                    None
                },
                None => None,
            }
        }
    }
}

/// The data item whose binary form `bytes` are, if any.
#[verifier::opaque]
pub open spec fn parse_item(bytes: Seq<u8>) -> Option<ItemFields> {
    let head = 2 + 2 * SIGNATURE_SIZE;
    if bytes.len() < head || bytes.take(2) != encoding::le_bytes(1, 2) {
        None
    } else {
        let behind_head = bytes.skip(head);
        match parse_optional(behind_head) {
            None => None,
            Some((target, a)) => match parse_optional(behind_head.skip(a as int)) {
                None => None,
                Some((anchor, b)) => match parse_tail(behind_head.skip(a as int).skip(b as int)) {
                    None => None,
                    Some((tags, data)) => Some(
                        ItemFields {
                            id: Seq::empty(),
                            signature: bytes.subrange(2, 2 + SIGNATURE_SIZE),
                            owner: bytes.subrange(2 + SIGNATURE_SIZE, head),
                            target,
                            anchor,
                            tags,
                            data,
                        },
                    ),
                },
            },
        }
    }
}

proof fn lemma_parse_optional_of_bytes(field: Seq<u8>, rest: Seq<u8>)
    requires
        field.len() == 0 || field.len() == ID_SIZE,
    ensures
        parse_optional(optional_bytes(field) + rest) == Some((field, optional_bytes(field).len())),
        (optional_bytes(field) + rest).skip(optional_bytes(field).len() as int) == rest,
{
    let bytes = optional_bytes(field) + rest;
    assert(bytes.skip(optional_bytes(field).len() as int) =~= rest);
    if field.len() == 0 {
        assert(field =~= Seq::empty());
    } else {
        assert(bytes.subrange(1, 1 + ID_SIZE) =~= field);
    }
}

proof fn lemma_bytes_of_parsed_optional(bytes: Seq<u8>)
    ensures
        match parse_optional(bytes) {
            Some((field, taken)) => taken <= bytes.len() && bytes == optional_bytes(field)
                + bytes.skip(taken as int) && (field.len() == 0 || field.len() == ID_SIZE),
            None => true,
        },
{
    if let Some((field, taken)) = parse_optional(bytes) {
        assert(bytes =~= optional_bytes(field) + bytes.skip(taken as int));
    }
}

proof fn lemma_eight_bytes(n: nat)
    requires
        n <= u64::MAX,
    ensures
        encoding::le_bytes(n, 8).len() == 8,
        encoding::le_value(encoding::le_bytes(n, 8)) == n,
{
    encoding::lemma_le_bytes_len(n, 8);
    encoding::lemma_pow256_8();
    encoding::le_value_reads_le_bytes(n, 8);
}

proof fn lemma_parse_tail_of_bytes(tags: Seq<Tag<Seq<char>>>, data: Seq<u8>)
    requires
        tags.len() <= u64::MAX,
        avro::tags_bytes(tags).len() <= u64::MAX,
    ensures
        parse_tail(tail_bytes(tags, data)) == Some((tags, data)),
{
    let list = avro::tags_bytes(tags);
    let bytes = tail_bytes(tags, data);
    lemma_eight_bytes(tags.len());
    lemma_eight_bytes(list.len());
    avro::tags_survive_writing(tags);
    assert(bytes.take(8) =~= encoding::le_bytes(tags.len(), 8));
    assert(bytes.subrange(8, 16) =~= encoding::le_bytes(list.len(), 8));
    assert(bytes.subrange(16, 16int + list.len()) =~= list);
    assert(bytes.skip(16int + list.len()) =~= data);
}

proof fn lemma_bytes_of_parsed_tail(bytes: Seq<u8>)
    ensures
        match parse_tail(bytes) {
            Some((tags, data)) => bytes == tail_bytes(tags, data) && tags.len() <= u64::MAX
                && avro::tags_bytes(tags).len() <= u64::MAX,
            None => true,
        },
{
    if let Some((tags, data)) = parse_tail(bytes) {
        let size = encoding::le_value(bytes.subrange(8, 16));
        encoding::le_bytes_writes_le_value(bytes.take(8));
        encoding::le_bytes_writes_le_value(bytes.subrange(8, 16));
        encoding::lemma_le_value_bound(bytes.take(8));
        encoding::lemma_le_value_bound(bytes.subrange(8, 16));
        encoding::lemma_pow256_8();
        avro::read_tags_write_back(bytes.subrange(16, 16int + size));
        assert(bytes =~= tail_bytes(tags, data));
    }
}

/// Reading the binary form of an item gives the item back, without its id.
pub proof fn item_survives_writing(item: ItemFields)
    requires
        well_sized(item),
    ensures
        parse_item(item_bytes(item)) == Some(ItemFields { id: Seq::empty(), ..item }),
{
    reveal(parse_item);
    let bytes = item_bytes(item);
    let head = 2 + 2 * SIGNATURE_SIZE;
    let tail = tail_bytes(item.tags, item.data);
    encoding::lemma_le_bytes_len(1, 2);
    assert(bytes.take(2) =~= encoding::le_bytes(1, 2));
    assert(bytes.subrange(2, 2 + SIGNATURE_SIZE) =~= item.signature);
    assert(bytes.subrange(2 + SIGNATURE_SIZE, head) =~= item.owner);
    assert(bytes.skip(head) =~= optional_bytes(item.target) + (optional_bytes(item.anchor) + tail));
    lemma_parse_optional_of_bytes(item.target, optional_bytes(item.anchor) + tail);
    lemma_parse_optional_of_bytes(item.anchor, tail);
    lemma_parse_tail_of_bytes(item.tags, item.data);
}

/// Bytes that are read as an item are the binary form of that item.
pub proof fn read_item_writes_back(bytes: Seq<u8>)
    ensures
        match parse_item(bytes) {
            Some(item) => well_sized(item) && item_bytes(item) == bytes,
            None => true,
        },
{
    reveal(parse_item);
    if let Some(item) = parse_item(bytes) {
        let head = 2 + 2 * SIGNATURE_SIZE;
        let behind_head = bytes.skip(head);
        let (target, a) = parse_optional(behind_head).unwrap();
        let (anchor, b) = parse_optional(behind_head.skip(a as int)).unwrap();
        lemma_bytes_of_parsed_optional(behind_head);
        lemma_bytes_of_parsed_optional(behind_head.skip(a as int));
        lemma_bytes_of_parsed_tail(behind_head.skip(a as int).skip(b as int));
        encoding::lemma_le_bytes_len(1, 2);
        assert(bytes.take(head) =~= head_bytes(item.signature, item.owner)) by {
            assert(bytes.take(head) =~= bytes.take(2) + (item.signature + item.owner));
        }
        assert(bytes =~= bytes.take(head) + behind_head);
    }
}

/// What is hashed for the signature of a data item.
pub open spec fn item_tree(item: ItemFields) -> HashTree {
    HashTree::List(
        seq![
            HashTree::Blob(encode_utf8("dataitem"@)),
            HashTree::Blob(encode_utf8("1"@)),
            HashTree::Blob(encode_utf8("1"@)),
            HashTree::Blob(item.owner),
            HashTree::Blob(item.target),
            HashTree::Blob(item.anchor),
            HashTree::Blob(avro::tags_bytes(item.tags)),
            HashTree::Blob(item.data),
        ],
    )
}

/// A data item with a signature, and the id that follows from it.
pub open spec fn signed_with(item: ItemFields, signature: Seq<u8>) -> ItemFields {
    identified(item, signature, crypto::sha256(signature))
}

/// A data item with a signature and an id.
pub open spec fn identified(item: ItemFields, signature: Seq<u8>, id: Seq<u8>) -> ItemFields {
    ItemFields { signature, id, ..item }
}

/// The entry of an item in the header of a bundle: the length of its binary form, then its id.
pub open spec fn entry_bytes(item: ItemFields) -> Seq<u8> {
    encoding::le_bytes(item_bytes(item).len(), 32) + item.id
}

impl Default for DataItem {
    fn default() -> (item: Self)
        ensures
            item@ == (ItemFields {
                id: Seq::empty(),
                signature: Seq::empty(),
                owner: Seq::empty(),
                target: Seq::empty(),
                anchor: Seq::empty(),
                tags: Seq::empty(),
                data: Seq::empty(),
            }),
    {
        let item = DataItem {
            id: Base64(Vec::new()),
            signature: Base64(Vec::new()),
            owner: Base64(Vec::new()),
            target: Base64(Vec::new()),
            anchor: Base64(Vec::new()),
            tags: Vec::new(),
            data: Base64(Vec::new()),
        };
        assert(item@.tags =~= Seq::empty());
        item
    }
}

impl Clone for DataItem {
    fn clone(&self) -> (copy: Self)
        ensures
            copy@ == self@,
    {
        let copy = DataItem {
            id: self.id.clone(),
            signature: self.signature.clone(),
            owner: self.owner.clone(),
            target: self.target.clone(),
            anchor: self.anchor.clone(),
            tags: tag::copy_texts(&self.tags),
            data: self.data.clone(),
        };
        copy
    }
}

fn push_optional(out: &mut Vec<u8>, field: &Vec<u8>)
    ensures
        final(out)@ == old(out)@ + optional_bytes(field@),
{
    let ghost start = out@;
    if field.len() == 0 {
        out.push(0);
        assert(out@ =~= start + optional_bytes(field@));
    } else {
        out.push(1);
        encoding::push_all(out, field.as_slice());
        assert(out@ =~= start + optional_bytes(field@));
    }
}

fn push_head(out: &mut Vec<u8>, signature: &Vec<u8>, owner: &Vec<u8>)
    ensures
        final(out)@ == old(out)@ + head_bytes(signature@, owner@),
{
    let ghost start = out@;
    encoding::push_le(out, 1, 2);
    encoding::push_all(out, signature.as_slice());
    encoding::push_all(out, owner.as_slice());
    assert(out@ =~= start + head_bytes(signature@, owner@));
}

fn push_tail(out: &mut Vec<u8>, tags: &Vec<Tag<String>>, data: &Vec<u8>)
    ensures
        final(out)@ == old(out)@ + tail_bytes(views::each(tags@), data@),
{
    let ghost start = out@;
    let list = avro::write_tags(tags);
    encoding::push_le(out, tags.len() as u64, 8);
    encoding::push_le(out, list.len() as u64, 8);
    encoding::push_all(out, list.as_slice());
    encoding::push_all(out, data.as_slice());
    assert(out@ =~= start + tail_bytes(views::each(tags@), data@));
}

/// The field that may be empty at `at`, and the position behind it.
fn read_optional(bytes: &[u8], at: usize) -> (found: Option<(Vec<u8>, usize)>)
    requires
        at <= bytes@.len(),
    ensures
        match found {
            Some((field, next)) => at < next <= bytes@.len() && parse_optional(
                bytes@.skip(at as int),
            ) == Some((field@, (next - at) as nat)),
            None => parse_optional(bytes@.skip(at as int)) is None,
        },
{
    let total: usize = bytes.len();
    let ghost here = bytes@.skip(at as int);
    if total - at >= 1 && bytes[at] == 0 {
        let field: Vec<u8> = Vec::new();
        assert(field@ =~= Seq::empty());
        Some((field, at + 1))
    } else if total - at >= 1 + ID_SIZE && bytes[at] == 1 {
        let field = encoding::copy_range(bytes, at + 1, ID_SIZE);
        assert(field@ =~= here.subrange(1, 1 + ID_SIZE));
        Some((field, at + 1 + ID_SIZE))
    } else {
        None
    }
}

/// The tags and the data that stand behind `at`.
fn read_tail(bytes: &[u8], at: usize) -> (found: Option<(Vec<Tag<String>>, Vec<u8>)>)
    requires
        at <= bytes@.len(),
    ensures
        match found {
            Some((tags, data)) => parse_tail(bytes@.skip(at as int)) == Some(
                (views::each(tags@), data@),
            ),
            None => parse_tail(bytes@.skip(at as int)) is None,
        },
{
    let total: usize = bytes.len();
    let ghost here = bytes@.skip(at as int);
    if total - at < 16 {
        return None;
    }
    let count: u64 = encoding::read_le(bytes, at, 8);
    let size: u64 = encoding::read_le(bytes, at + 8, 8);
    assert(bytes@.subrange(at as int, at + 8) =~= here.take(8));
    assert(bytes@.subrange(at + 8, at + 16) =~= here.subrange(8, 16));
    if size > (total - at - 16) as u64 {
        return None;
    }
    let end: usize = at + 16 + size as usize;
    let list = vstd::slice::slice_subrange(bytes, at + 16, end);
    assert(list@ =~= here.subrange(16, 16int + size));
    proof {
        avro::read_tags_write_back(list@);
    }
    match avro::read_tags(list) {
        None => None,
        Some(tags) => {
            proof {
                avro::tags_survive_writing(views::each(tags@));
            }
            if tags.len() as u64 == count {
                let data = encoding::copy_range(bytes, end, total - end);
                assert(data@ =~= here.skip(16int + size));
                Some((tags, data))
            } else {
                None
            }
        },
    }
}

impl DataItem {
    /// The binary form.
    pub fn serialize(&self) -> (bytes: Vec<u8>)
        ensures
            bytes@ == item_bytes(self@),
    {
        let mut bytes: Vec<u8> = Vec::new();
        push_head(&mut bytes, &self.signature.0, &self.owner.0);
        let ghost one = bytes@;
        push_optional(&mut bytes, &self.target.0);
        push_optional(&mut bytes, &self.anchor.0);
        push_tail(&mut bytes, &self.tags, &self.data.0);
        proof {
            let (head, target, anchor, tail) = (
                head_bytes(self@.signature, self@.owner),
                optional_bytes(self@.target),
                optional_bytes(self@.anchor),
                tail_bytes(self@.tags, self@.data),
            );
            assert(one =~= head);
            assert(head + target + anchor + tail =~= head + (target + (anchor + tail)));
        }
        bytes
    }

    /// Reads the binary form. The id, which the binary form does not hold, stays empty.
    pub fn deserialize(bytes: &[u8]) -> (item: Result<DataItem, Error>)
        ensures
            match parse_item(bytes@) {
                Some(fields) => item matches Ok(i) && i@ == fields,
                None => item == Err::<DataItem, Error>(Error::MalformedDataItem),
            },
    {
        let total: usize = bytes.len();
        let head: usize = 2 + 2 * SIGNATURE_SIZE;
        proof {
            reveal(parse_item);
            encoding::lemma_le_bytes_len(1, 2);
            reveal_with_fuel(encoding::le_bytes, 3);
            assert(encoding::le_bytes(1, 2) =~= seq![1u8, 0u8]);
        }
        if total < head || bytes[0] != 1 || bytes[1] != 0 {
            if total >= head {
                assert(bytes@.take(2)[0] == bytes@[0]);
                assert(bytes@.take(2)[1] == bytes@[1]);
            }
            return Err(Error::MalformedDataItem);
        }
        assert(bytes@.take(2) =~= encoding::le_bytes(1, 2));
        let ghost behind_head = bytes@.skip(head as int);
        match read_optional(bytes, head) {
            None => Err(Error::MalformedDataItem),
            Some((target, at)) => {
                assert(bytes@.skip(at as int) =~= behind_head.skip(at - head));
                match read_optional(bytes, at) {
                    None => Err(Error::MalformedDataItem),
                    Some((anchor, next)) => {
                        assert(bytes@.skip(next as int) =~= behind_head.skip(at - head).skip(
                            next - at,
                        ));
                        match read_tail(bytes, next) {
                            None => Err(Error::MalformedDataItem),
                            Some((tags, data)) => {
                                let signature = encoding::copy_range(bytes, 2, SIGNATURE_SIZE);
                                let owner = encoding::copy_range(
                                    bytes,
                                    2 + SIGNATURE_SIZE,
                                    SIGNATURE_SIZE,
                                );
                                let item = DataItem {
                                    id: Base64(Vec::new()),
                                    signature: Base64(signature),
                                    owner: Base64(owner),
                                    target: Base64(target),
                                    anchor: Base64(anchor),
                                    tags,
                                    data: Base64(data),
                                };
                                assert(item@.id =~= Seq::empty());
                                Ok(item)
                            },
                        }
                    },
                }
            },
        }
    }

    /// What is hashed for the signature.
    pub fn to_deep_hash_item(&self) -> (item: Result<DeepHashItem, Error>)
        ensures
            item matches Ok(i) && i@ == item_tree(self@),
    {
        let mut fields: Vec<DeepHashItem> = Vec::new();
        fields.push(transaction::blob("dataitem".as_bytes()));
        fields.push(transaction::blob("1".as_bytes()));
        fields.push(transaction::blob("1".as_bytes()));
        fields.push(transaction::blob(self.owner.0.as_slice()));
        fields.push(transaction::blob(self.target.0.as_slice()));
        fields.push(transaction::blob(self.anchor.0.as_slice()));
        fields.push(transaction::blob(avro::write_tags(&self.tags).as_slice()));
        fields.push(transaction::blob(self.data.0.as_slice()));
        let item = DeepHashItem::List(fields);
        assert(item@->List_0 =~= item_tree(self@)->List_0);
        Ok(item)
    }

    /// Takes in a signature, and the id that follows from it.
    pub fn with_signature(self, signature: Vec<u8>) -> (signed: Result<DataItem, Error>)
        ensures
            match signed {
                Ok(item) => crypto::hashable(signature@) && item@ == signed_with(
                    self@,
                    signature@,
                ) && item.id@.len() == ID_SIZE,
                Err(e) => !crypto::hashable(signature@) && e == Error::MessageTooLong,
            },
    {
        if signature.len() as u64 >= crypto::MESSAGE_LIMIT {
            return Err(Error::MessageTooLong);
        }
        let id = crypto::digest_sha256(signature.as_slice());
        Ok(self.identify(signature, id))
    }

    /// Takes in a signature and an id.
    pub fn identify(self, signature: Vec<u8>, id: Vec<u8>) -> (signed: DataItem)
        ensures
            signed@ == identified(self@, signature@, id@),
    {
        let mut signed = self;
        signed.signature = Base64(signature);
        signed.id = Base64(id);
        signed
    }

    /// The item's entry in the header of a bundle, and its binary form.
    pub fn to_bundle_item(&self) -> (parts: Result<(Vec<u8>, Vec<u8>), Error>)
        ensures
            parts matches Ok((entry, binary)) && entry@ == entry_bytes(self@) && binary@
                == item_bytes(self@),
    {
        let binary = self.serialize();
        let mut entry: Vec<u8> = Vec::new();
        encoding::push_le(&mut entry, binary.len() as u64, 32);
        encoding::push_all(&mut entry, self.id.0.as_slice());
        assert(entry@ =~= entry_bytes(self@));
        Ok((entry, binary))
    }
}

/// The number of items that the header of a bundle has room for when it is read.
pub const READABLE_ITEMS: usize = 2;

/// A bundle: the number of items, an entry for each, then their binary forms.
pub open spec fn bundle_bytes(items: Seq<ItemFields>) -> Seq<u8> {
    encoding::le_bytes(items.len(), 32) + (encoding::concat(
        items.map_values(|item: ItemFields| entry_bytes(item)),
    ) + encoding::concat(items.map_values(|item: ItemFields| item_bytes(item))))
}

/// How many items a bundle claims to hold.
pub open spec fn claimed_items(bundle: Seq<u8>) -> nat {
    encoding::le_value(bundle.take(8))
}

/// How many bytes a bundle claims that an item takes.
pub open spec fn claimed_len(bundle: Seq<u8>, i: int) -> nat {
    encoding::le_value(bundle.subrange(32 + 64 * i, 40 + 64 * i))
}

/// The id that a bundle gives an item.
pub open spec fn given_id(bundle: Seq<u8>, i: int) -> Seq<u8> {
    bundle.subrange(64 + 64 * i, 96 + 64 * i)
}

/// Whether an item carries a signature of its contents under a public key.
pub open spec fn item_signed(n: Seq<u8>, e: Seq<u8>, item: ItemFields) -> bool {
    crypto::tree_hashable(item_tree(item)) && crypto::rsa_pss_valid(
        n,
        e,
        crypto::deep_hash_of(item_tree(item)),
        item.signature,
    )
}

/// What comes of reading a bundle.
pub enum Reading {
    /// The items.
    Items(Seq<ItemFields>),
    /// The bytes of an item are not the binary form of one.
    Malformed,
    /// The bundle is cut short, holds too many items, or an item is not signed with the key.
    Refused,
}

/// What stands in a bundle at the place of an item.
pub enum Place {
    /// The bytes that are claimed are not all there.
    CutShort,
    /// The bytes are not the binary form of an item.
    Malformed,
    /// The item, with its id, and the position behind its bytes.
    Item { item: ItemFields, end: nat },
}

/// What stands in a bundle at the place of the item at `i`, whose bytes start at `at`.
pub open spec fn place(bundle: Seq<u8>, i: int, at: nat) -> Place {
    let end = at + claimed_len(bundle, i);
    if end > bundle.len() {
        Place::CutShort
    } else {
        match parse_item(bundle.subrange(at as int, end as int)) {
            None => Place::Malformed,
            Some(item) => Place::Item {
                item: ItemFields { id: given_id(bundle, i), ..item },
                end,
            },
        }
    }
}

/// What comes of reading the items of a bundle from the one at `i`, whose bytes start at `at`.
pub open spec fn items_from(n: Seq<u8>, e: Seq<u8>, bundle: Seq<u8>, i: int, at: nat) -> Reading
    decreases claimed_items(bundle) - i,
{
    if i >= claimed_items(bundle) {
        Reading::Items(Seq::empty())
    } else {
        match place(bundle, i, at) {
            Place::CutShort => Reading::Refused,
            Place::Malformed => Reading::Malformed,
            Place::Item { item, end } => if !item_signed(n, e, item) {
                Reading::Refused
            } else {
                match items_from(n, e, bundle, i + 1, end) {
                    Reading::Items(rest) => Reading::Items(seq![item] + rest),
                    other => other,
                }
            },
        }
    }
}

/// Whether a bundle is long enough for its header, and the header has room for the items.
pub open spec fn header_complete(bundle: Seq<u8>) -> bool {
    &&& bundle.len() >= 32
    &&& claimed_items(bundle) <= READABLE_ITEMS
    &&& bundle.len() >= 32 + 64 * claimed_items(bundle)
}

/// What comes of reading a bundle with the public key that its items must be signed with.
pub open spec fn reading(n: Seq<u8>, e: Seq<u8>, bundle: Seq<u8>) -> Reading {
    if header_complete(bundle) {
        items_from(n, e, bundle, 0, 32 + 64 * claimed_items(bundle))
    } else {
        Reading::Refused
    }
}

/// Whether an item can be found again in a bundle: its fields have the lengths that its binary
/// form leaves room for, it has an id, and it is signed with the key.
pub open spec fn ready(n: Seq<u8>, e: Seq<u8>, item: ItemFields) -> bool {
    &&& well_sized(item)
    &&& item.id.len() == ID_SIZE
    &&& item_bytes(item).len() <= u64::MAX
    &&& item_signed(n, e, item)
}

proof fn lemma_entry(items: Seq<ItemFields>, i: int)
    requires
        0 <= i < items.len() <= u64::MAX,
        forall|j: int|
            0 <= j < items.len() ==> (#[trigger] items[j]).id.len() == ID_SIZE && item_bytes(
                items[j],
            ).len() <= u64::MAX,
    ensures
        claimed_items(bundle_bytes(items)) == items.len(),
        bundle_bytes(items).len() >= 32 + 64 * items.len(),
        claimed_len(bundle_bytes(items), i) == item_bytes(items[i]).len(),
        given_id(bundle_bytes(items), i) == items[i].id,
{
    let bundle = bundle_bytes(items);
    let count = encoding::le_bytes(items.len(), 32);
    let entries = items.map_values(|item: ItemFields| entry_bytes(item));
    encoding::lemma_le_bytes_len(items.len(), 32);
    encoding::lemma_le_bytes_take(items.len(), 32, 8);
    lemma_eight_bytes(items.len());
    assert(bundle.take(8) =~= count.take(8));
    assert forall|j: int| 0 <= j < entries.len() implies (#[trigger] entries[j]).len() == 64 by {
        encoding::lemma_le_bytes_len(item_bytes(items[j]).len(), 32);
    }
    encoding::lemma_concat_len(entries, 64);
    encoding::lemma_concat_len(entries.take(i), 64);
    encoding::lemma_concat_at(entries, i);
    let entry = entries[i];
    let len = item_bytes(items[i]).len();
    encoding::lemma_le_bytes_len(len, 32);
    encoding::lemma_le_bytes_take(len, 32, 8);
    lemma_eight_bytes(len);
    assert(bundle.subrange(32 + 64 * i, 96 + 64 * i) =~= entry);
    assert(bundle.subrange(32 + 64 * i, 40 + 64 * i) =~= entry.take(8));
    assert(entry.take(8) =~= encoding::le_bytes(len, 32).take(8));
    assert(bundle.subrange(64 + 64 * i, 96 + 64 * i) =~= entry.skip(32));
    assert(entry.skip(32) =~= items[i].id);
}

/// Where the binary form of the item at `i` stands in a bundle.
proof fn lemma_binary(items: Seq<ItemFields>, i: int)
    requires
        0 <= i < items.len(),
        forall|j: int| 0 <= j < items.len() ==> (#[trigger] items[j]).id.len() == ID_SIZE,
    ensures
        ({
            let bundle = bundle_bytes(items);
            let at = binary_at(items, i);
            &&& binary_at(items, i + 1) == at + item_bytes(items[i]).len()
            &&& binary_at(items, i + 1) <= bundle.len()
            &&& bundle.subrange(at as int, (at + item_bytes(items[i]).len()) as int) == item_bytes(
                items[i],
            )
        }),
{
    let bundle = bundle_bytes(items);
    let entries = items.map_values(|item: ItemFields| entry_bytes(item));
    let binaries = items.map_values(|item: ItemFields| item_bytes(item));
    encoding::lemma_le_bytes_len(items.len(), 32);
    assert forall|j: int| 0 <= j < entries.len() implies (#[trigger] entries[j]).len() == 64 by {
        encoding::lemma_le_bytes_len(item_bytes(items[j]).len(), 32);
    }
    encoding::lemma_concat_len(entries, 64);
    encoding::lemma_concat_at(binaries, i);
    let all = encoding::concat(binaries);
    let start = encoding::concat(binaries.take(i)).len();
    let end = start + binaries[i].len();
    assert(bundle.skip(32int + 64 * items.len()) =~= all);
    assert(bundle.subrange(
        32int + 64 * items.len() + start,
        32int + 64 * items.len() + end,
    ) =~= all.subrange(start as int, end as int));
}

/// Where the binary form of the item at `i` starts in a bundle.
spec fn binary_at(items: Seq<ItemFields>, i: int) -> nat {
    32 + 64 * items.len() + encoding::concat(
        items.map_values(|item: ItemFields| item_bytes(item)).take(i),
    ).len()
}

/// What stands at the place of the item at `i` in a bundle.
proof fn lemma_place(items: Seq<ItemFields>, i: int)
    requires
        0 <= i < items.len() <= u64::MAX,
        well_sized(items[i]),
        forall|j: int|
            0 <= j < items.len() ==> (#[trigger] items[j]).id.len() == ID_SIZE && item_bytes(
                items[j],
            ).len() <= u64::MAX,
    ensures
        place(bundle_bytes(items), i, binary_at(items, i)) == (Place::Item {
            item: items[i],
            end: binary_at(items, i + 1),
        }),
{
    lemma_entry(items, i);
    lemma_binary(items, i);
    item_survives_writing(items[i]);
    let bare = ItemFields { id: Seq::empty(), ..items[i] };
    assert(ItemFields { id: items[i].id, ..bare } == items[i]);
}

#[verifier::spinoff_prover]
proof fn lemma_items_from(n: Seq<u8>, e: Seq<u8>, items: Seq<ItemFields>, i: int)
    requires
        0 <= i <= items.len() <= u64::MAX,
        forall|j: int| 0 <= j < items.len() ==> ready(n, e, #[trigger] items[j]),
        claimed_items(bundle_bytes(items)) == items.len(),
    ensures
        items_from(n, e, bundle_bytes(items), i, binary_at(items, i)) == Reading::Items(
            items.skip(i),
        ),
    decreases items.len() - i,
{
    if i == items.len() {
        assert(items.skip(i) =~= Seq::empty());
    } else {
        assert(ready(n, e, items[i]));
        lemma_place(items, i);
        lemma_items_from(n, e, items, i + 1);
        assert(seq![items[i]] + items.skip(i + 1) =~= items.skip(i));
    }
}

/// Reading a bundle gives back the items that it was made of.
pub proof fn bundle_survives_writing(n: Seq<u8>, e: Seq<u8>, items: Seq<ItemFields>)
    requires
        items.len() <= READABLE_ITEMS,
        forall|i: int| 0 <= i < items.len() ==> ready(n, e, #[trigger] items[i]),
    ensures
        reading(n, e, bundle_bytes(items)) == Reading::Items(items),
{
    let bundle = bundle_bytes(items);
    let binaries = items.map_values(|item: ItemFields| item_bytes(item));
    if items.len() == 0 {
        encoding::lemma_le_bytes_len(0, 32);
        encoding::lemma_le_bytes_take(0, 32, 8);
        lemma_eight_bytes(0);
        assert(bundle.take(8) =~= encoding::le_bytes(0, 32).take(8));
    } else {
        assert(ready(n, e, items[0]));
        lemma_entry(items, 0);
    }
    lemma_items_from(n, e, items, 0);
    assert(binaries.take(0) =~= Seq::empty());
    assert(items.skip(0) =~= items);
}

/// Puts items into a bundle.
pub fn write_bundle(items: &Vec<DataItem>) -> (bundle: Vec<u8>)
    ensures
        bundle@ == bundle_bytes(views::each(items@)),
{
    let ghost all = views::each(items@);
    let ghost entries = all.map_values(|item: ItemFields| entry_bytes(item));
    let ghost forms = all.map_values(|item: ItemFields| item_bytes(item));
    let mut headers: Vec<u8> = Vec::new();
    let mut binaries: Vec<u8> = Vec::new();
    let mut i: usize = 0;
    assert(entries.take(0) =~= Seq::empty());
    assert(forms.take(0) =~= Seq::empty());
    while i < items.len()
        invariant
            i <= items.len(),
            all == views::each(items@),
            entries == all.map_values(|item: ItemFields| entry_bytes(item)),
            forms == all.map_values(|item: ItemFields| item_bytes(item)),
            headers@ == encoding::concat(entries.take(i as int)),
            binaries@ == encoding::concat(forms.take(i as int)),
        decreases items.len() - i,
    {
        let (entry, binary) = items[i].to_bundle_item().unwrap();
        encoding::push_all(&mut headers, entry.as_slice());
        encoding::push_all(&mut binaries, binary.as_slice());
        proof {
            encoding::lemma_concat_at(entries, i as int);
            encoding::lemma_concat_at(forms, i as int);
        }
        i = i + 1;
    }
    let mut bundle: Vec<u8> = Vec::new();
    encoding::push_le(&mut bundle, items.len() as u64, 32);
    encoding::push_all(&mut bundle, headers.as_slice());
    encoding::push_all(&mut bundle, binaries.as_slice());
    proof {
        assert(entries.take(i as int) =~= entries);
        assert(forms.take(i as int) =~= forms);
        assert(bundle@ =~= bundle_bytes(all));
    }
    bundle
}

/// Whether an item carries a signature of its contents under the key.
pub fn check_item(crypto: &Provider, item: &DataItem) -> (signed: bool)
    ensures
        signed == item_signed(crypto.modulus(), crypto.exponent(), item@),
{
    match crypto.deep_hash(item.to_deep_hash_item().unwrap()) {
        Ok(hash) => crypto.verify(item.signature.0.as_slice(), hash.as_slice()).is_ok(),
        Err(_) => false,
    }
}

/// How many items a bundle holds, if it is long enough for its header and the header has room for
/// the items.
pub fn read_header(bundle: &[u8]) -> (count: Option<usize>)
    ensures
        match count {
            Some(n) => header_complete(bundle@) && n == claimed_items(bundle@),
            None => !header_complete(bundle@),
        },
{
    let total: usize = bundle.len();
    if total < 32 {
        return None;
    }
    let claimed: u64 = encoding::read_le(bundle, 0, 8);
    assert(bundle@.subrange(0, 8) =~= bundle@.take(8));
    if claimed <= READABLE_ITEMS as u64 && total >= 32 + 64 * claimed as usize {
        Some(claimed as usize)
    } else {
        None
    }
}

/// What stands in a bundle at the place of the item at `i`, whose bytes start at `at`: nothing
/// where the bundle is cut short, else the item and the position behind its bytes, or an error.
pub fn read_place(bundle: &[u8], i: usize, at: usize) -> (found: Option<
    Result<(DataItem, usize), Error>,
>)
    requires
        i < READABLE_ITEMS,
        96 + 64 * i <= bundle@.len(),
        at <= bundle@.len(),
    ensures
        match place(bundle@, i as int, at as nat) {
            Place::CutShort => found is None,
            Place::Malformed => found == Some(
                Err::<(DataItem, usize), Error>(Error::MalformedDataItem),
            ),
            Place::Item { item, end } => found matches Some(Ok((i, e))) && i@ == item && e == end,
        },
{
    let total: usize = bundle.len();
    let len: u64 = encoding::read_le(bundle, 32 + 64 * i, 8);
    if len > (total - at) as u64 {
        return None;
    }
    let end: usize = at + len as usize;
    match DataItem::deserialize(vstd::slice::slice_subrange(bundle, at, end)) {
        Err(malformed) => Some(Err(malformed)),
        Ok(parsed) => {
            let mut item = parsed;
            item.id = Base64(encoding::copy_range(bundle, 64 + 64 * i, ID_SIZE));
            assert(item@ =~= (ItemFields { id: given_id(bundle@, i as int), ..parsed@ }));
            Some(Ok((item, end)))
        },
    }
}

/// Reads a bundle whose items are signed with the key. There is no outcome where the bundle is cut
/// short, holds too many items, or an item is not signed with the key.
pub fn read_bundle(crypto: &Provider, bundle: &[u8]) -> (outcome: Option<
    Result<Vec<DataItem>, Error>,
>)
    ensures
        match reading(crypto.modulus(), crypto.exponent(), bundle@) {
            Reading::Items(items) => outcome matches Some(Ok(found)) && views::each(found@)
                == items,
            Reading::Malformed => outcome == Some(
                Err::<Vec<DataItem>, Error>(Error::MalformedDataItem),
            ),
            Reading::Refused => outcome is None,
        },
{
    let count: usize = match read_header(bundle) {
        Some(count) => count,
        None => {
            return None;
        },
    };
    let mut found: Vec<DataItem> = Vec::new();
    let mut i: usize = 0;
    let mut at: usize = 32 + 64 * count;
    let ghost (n, e) = (crypto.modulus(), crypto.exponent());
    proof {
        if let Reading::Items(rest) = items_from(n, e, bundle@, 0, at as nat) {
            assert(views::each(found@) + rest =~= rest);
        }
    }
    while i < count
        invariant
            n == crypto.modulus(),
            e == crypto.exponent(),
            count == claimed_items(bundle@),
            header_complete(bundle@),
            i <= count,
            at <= bundle@.len(),
            reading(n, e, bundle@) == match items_from(n, e, bundle@, i as int, at as nat) {
                Reading::Items(rest) => Reading::Items(views::each(found@) + rest),
                other => other,
            },
        decreases count - i,
    {
        let ghost before = views::each(found@);
        match read_place(bundle, i, at) {
            None => {
                return None;
            },
            Some(Err(malformed)) => {
                return Some(Err(malformed));
            },
            Some(Ok((item, end))) => {
                if !check_item(crypto, &item) {
                    return None;
                }
                let ghost seen = item@;
                found.push(item);
                proof {
                    assert(views::each(found@) =~= before.push(seen));
                    if let Reading::Items(rest) = items_from(n, e, bundle@, i + 1, end as nat) {
                        assert(before + (seq![seen] + rest) =~= before.push(seen) + rest);
                    }
                }
                at = end;
            },
        }
        i = i + 1;
    }
    assert(views::each(found@) + Seq::<ItemFields>::empty() =~= views::each(found@));
    Some(Ok(found))
}

/// Where the fields of a data item stand in its binary form: the type of the signature, the
/// signature, the owner, the target and the anchor, each with a byte that says whether it is there,
/// the number of tags and the length of their array, the array, and the data up to the end.
#[verifier::rlimit(40)]
pub proof fn fields_follow_each_other(item: ItemFields)
    requires
        item.tags.len() <= u64::MAX,
        avro::tags_bytes(item.tags).len() <= u64::MAX,
    ensures
        ({
            let bytes = item_bytes(item);
            let list = avro::tags_bytes(item.tags);
            let owner_at = 2 + item.signature.len() as int;
            let target_at = owner_at + item.owner.len();
            let anchor_at = target_at + 1 + item.target.len();
            let tags_at = anchor_at + 1 + item.anchor.len();
            let data_at = tags_at + 16 + list.len();
            &&& bytes.len() == data_at + item.data.len()
            &&& bytes[0] == 1 && bytes[1] == 0
            &&& bytes.subrange(2, owner_at) == item.signature
            &&& bytes.subrange(owner_at, target_at) == item.owner
            &&& bytes[target_at] == if item.target.len() == 0 {
                0u8
            } else {
                1u8
            }
            &&& bytes.subrange(target_at + 1, anchor_at) == item.target
            &&& bytes[anchor_at] == if item.anchor.len() == 0 {
                0u8
            } else {
                1u8
            }
            &&& bytes.subrange(anchor_at + 1, tags_at) == item.anchor
            &&& encoding::le_value(bytes.subrange(tags_at, tags_at + 8)) == item.tags.len()
            &&& encoding::le_value(bytes.subrange(tags_at + 8, tags_at + 16)) == list.len()
            &&& bytes.subrange(tags_at + 16, data_at) == list
            &&& bytes.skip(data_at) == item.data
        }),
{
    let bytes = item_bytes(item);
    let list = avro::tags_bytes(item.tags);
    let head = head_bytes(item.signature, item.owner);
    let tail = tail_bytes(item.tags, item.data);
    let (target, anchor) = (optional_bytes(item.target), optional_bytes(item.anchor));
    let owner_at = 2 + item.signature.len() as int;
    let target_at = owner_at + item.owner.len();
    let anchor_at = target_at + 1 + item.target.len();
    let tags_at = anchor_at + 1 + item.anchor.len();
    let data_at = tags_at + 16 + list.len();
    encoding::lemma_le_bytes_len(1, 2);
    reveal_with_fuel(encoding::le_bytes, 3);
    assert(head.len() == target_at);
    assert(target.len() == 1 + item.target.len());
    assert(anchor.len() == 1 + item.anchor.len());
    lemma_eight_bytes(item.tags.len());
    lemma_eight_bytes(list.len());
    assert(bytes.subrange(0, target_at) =~= head);
    assert(bytes[0] == head[0] && bytes[1] == head[1]);
    assert(bytes.subrange(2, owner_at) =~= item.signature);
    assert(bytes.subrange(owner_at, target_at) =~= item.owner);
    assert(bytes.subrange(target_at, anchor_at) =~= target);
    assert(bytes[target_at] == target[0]);
    assert(bytes.subrange(target_at + 1, anchor_at) =~= item.target);
    assert(bytes.subrange(anchor_at, tags_at) =~= anchor);
    assert(bytes[anchor_at] == anchor[0]);
    assert(bytes.subrange(anchor_at + 1, tags_at) =~= item.anchor);
    assert(bytes.skip(tags_at) =~= tail);
    assert(bytes.subrange(tags_at, tags_at + 8) =~= tail.subrange(0, 8));
    assert(tail.subrange(0, 8) =~= encoding::le_bytes(item.tags.len(), 8));
    assert(bytes.subrange(tags_at + 8, tags_at + 16) =~= tail.subrange(8, 16));
    assert(tail.subrange(8, 16) =~= encoding::le_bytes(list.len(), 8));
    assert(bytes.subrange(tags_at + 16, data_at) =~= tail.subrange(16, 16int + list.len()));
    assert(tail.subrange(16, 16int + list.len()) =~= list);
    assert(bytes.skip(data_at) =~= item.data);
}

/// The lengths that the binary form of a data item leaves room for.
pub proof fn lengths_of_a_data_item(item: ItemFields)
    ensures
        well_sized(item) <==> {
            &&& item.signature.len() == 512 && item.owner.len() == 512
            &&& item.target.len() == 0 || item.target.len() == 32
            &&& item.anchor.len() == 0 || item.anchor.len() == 32
            &&& item.tags.len() <= u64::MAX && avro::tags_bytes(item.tags).len() <= u64::MAX
        },
{
}

/// What is signed of a data item: what it is, in which version and with which kind of signature,
/// its owner, its target, its anchor, its tags and its data, in this order.
pub proof fn everything_in_an_item_is_signed(item: ItemFields)
    ensures
        match item_tree(item) {
            HashTree::List(fields) => {
                &&& fields.len() == 8
                &&& fields[0] == HashTree::Blob(encode_utf8("dataitem"@))
                &&& fields[1] == HashTree::Blob(encode_utf8("1"@))
                &&& fields[2] == HashTree::Blob(encode_utf8("1"@))
                &&& fields[3] == HashTree::Blob(item.owner)
                &&& fields[4] == HashTree::Blob(item.target)
                &&& fields[5] == HashTree::Blob(item.anchor)
                &&& fields[6] == HashTree::Blob(avro::tags_bytes(item.tags))
                &&& fields[7] == HashTree::Blob(item.data)
            },
            HashTree::Blob(_) => false,
        },
{
}

/// Signing a data item sets its signature and its id, the hash of the signature, and nothing else.
pub proof fn signing_an_item_sets_nothing_else(item: ItemFields, signature: Seq<u8>)
    ensures
        ({
            let signed = signed_with(item, signature);
            &&& signed.signature == signature && signed.id == crypto::sha256(signature)
            &&& signed.owner == item.owner && signed.target == item.target
            &&& signed.anchor == item.anchor && signed.tags == item.tags
            &&& signed.data == item.data
            &&& item_tree(signed) == item_tree(item)
        }),
{
}

/// An item is signed with a key if and only if its contents can be hashed and its signature is one
/// of their deep hash.
pub proof fn signatures_are_of_the_deep_hash(n: Seq<u8>, e: Seq<u8>, item: ItemFields)
    ensures
        item_signed(n, e, item) <==> crypto::tree_hashable(item_tree(item))
            && crypto::rsa_pss_valid(
            n,
            e,
            crypto::deep_hash_of(item_tree(item)),
            item.signature,
        ),
{
}

/// Where everything stands in a bundle, however many items it holds. The first 32 bytes are the
/// number of items. Then come 64 bytes for each: the length of its binary form in 32 bytes, and its
/// id. The binary forms follow directly behind, each where the one before it ends, and behind the
/// last of them the bundle ends.
pub proof fn bundles_hold_their_items_back_to_back(items: Seq<ItemFields>, starts: Seq<int>)
    requires
        items.len() <= u64::MAX,
        forall|i: int|
            0 <= i < items.len() ==> (#[trigger] items[i]).id.len() == 32 && item_bytes(
                items[i],
            ).len() <= u64::MAX,
        starts.len() == items.len() + 1,
        starts[0] == 32 + 64 * items.len(),
        forall|i: int|
            0 <= i < items.len() ==> starts[i + 1] == starts[i] + item_bytes(
                #[trigger] items[i],
            ).len(),
    ensures
        ({
            let bundle = bundle_bytes(items);
            &&& bundle.len() == starts[items.len() as int]
            &&& encoding::le_value(bundle.take(8)) == items.len()
            &&& encoding::le_value(bundle.take(32)) == items.len()
            &&& forall|i: int|
                0 <= i < items.len() ==> {
                    &&& encoding::le_value(bundle.subrange(32 + 64 * i, 64 + 64 * i))
                        == item_bytes(#[trigger] items[i]).len()
                    &&& bundle.subrange(64 + 64 * i, 96 + 64 * i) == items[i].id
                    &&& bundle.subrange(starts[i], starts[i + 1]) == item_bytes(items[i])
                }
        }),
{
    let bundle = bundle_bytes(items);
    let count = encoding::le_bytes(items.len(), 32);
    let entries = items.map_values(|item: ItemFields| entry_bytes(item));
    let binaries = items.map_values(|item: ItemFields| item_bytes(item));
    lemma_value_of_32_bytes(items.len());
    encoding::lemma_le_bytes_take(items.len(), 32, 8);
    lemma_eight_bytes(items.len());
    assert(bundle.take(32) =~= count);
    assert(bundle.take(8) =~= count.take(8));
    assert forall|i: int| 0 <= i <= items.len() implies starts[i] == #[trigger] binary_at(
        items,
        i,
    ) by {
        lemma_starts(items, starts, i);
    }
    assert forall|i: int| 0 <= i < items.len() implies {
        &&& encoding::le_value(bundle.subrange(32 + 64 * i, 64 + 64 * i)) == item_bytes(
            #[trigger] items[i],
        ).len()
        &&& bundle.subrange(64 + 64 * i, 96 + 64 * i) == items[i].id
        &&& bundle.subrange(starts[i], starts[i + 1]) == item_bytes(items[i])
    } by {
        lemma_entry(items, i);
        lemma_binary(items, i);
        lemma_entry_bytes(items, i);
        lemma_value_of_32_bytes(item_bytes(items[i]).len());
        assert(starts[i] == binary_at(items, i));
        assert(starts[i + 1] == binary_at(items, i + 1));
    }
    assert forall|j: int| 0 <= j < entries.len() implies (#[trigger] entries[j]).len() == 64 by {
        encoding::lemma_le_bytes_len(item_bytes(items[j]).len(), 32);
    }
    encoding::lemma_concat_len(entries, 64);
    assert(binaries.take(items.len() as int) =~= binaries);
    assert(starts[items.len() as int] == binary_at(items, items.len() as int));
}

proof fn lemma_value_of_32_bytes(n: nat)
    requires
        n <= u64::MAX,
    ensures
        encoding::le_bytes(n, 32).len() == 32,
        encoding::le_value(encoding::le_bytes(n, 32)) == n,
{
    encoding::lemma_le_bytes_len(n, 32);
    encoding::lemma_pow256_8();
    vstd::arithmetic::power::lemma_pow_increases(256, 8, 32);
    encoding::le_value_reads_le_bytes(n, 32);
}

proof fn lemma_entry_bytes(items: Seq<ItemFields>, i: int)
    requires
        0 <= i < items.len(),
        forall|j: int| 0 <= j < items.len() ==> (#[trigger] items[j]).id.len() == ID_SIZE,
    ensures
        bundle_bytes(items).subrange(32 + 64 * i, 64 + 64 * i) == encoding::le_bytes(
            item_bytes(items[i]).len(),
            32,
        ),
{
    let bundle = bundle_bytes(items);
    let entries = items.map_values(|item: ItemFields| entry_bytes(item));
    encoding::lemma_le_bytes_len(items.len(), 32);
    assert forall|j: int| 0 <= j < entries.len() implies (#[trigger] entries[j]).len() == 64 by {
        encoding::lemma_le_bytes_len(item_bytes(items[j]).len(), 32);
    }
    encoding::lemma_concat_len(entries, 64);
    encoding::lemma_concat_len(entries.take(i), 64);
    encoding::lemma_concat_at(entries, i);
    encoding::lemma_le_bytes_len(item_bytes(items[i]).len(), 32);
    assert(bundle.subrange(32 + 64 * i, 96 + 64 * i) =~= entries[i]);
    assert(bundle.subrange(32 + 64 * i, 64 + 64 * i) =~= entries[i].take(32));
    assert(entries[i].take(32) =~= encoding::le_bytes(item_bytes(items[i]).len(), 32));
}

proof fn lemma_starts(items: Seq<ItemFields>, starts: Seq<int>, i: int)
    requires
        0 <= i <= items.len(),
        forall|j: int| 0 <= j < items.len() ==> (#[trigger] items[j]).id.len() == ID_SIZE,
        starts.len() == items.len() + 1,
        starts[0] == 32 + 64 * items.len(),
        forall|j: int|
            0 <= j < items.len() ==> starts[j + 1] == starts[j] + item_bytes(
                #[trigger] items[j],
            ).len(),
    ensures
        starts[i] == binary_at(items, i),
    decreases i,
{
    if i == 0 {
        assert(items.map_values(|item: ItemFields| item_bytes(item)).take(0) =~= Seq::empty());
    } else {
        lemma_starts(items, starts, i - 1);
        lemma_binary(items, i - 1);
        assert(starts[i - 1 + 1] == starts[i - 1] + item_bytes(items[i - 1]).len());
    }
}

/// Whoever follows the header of a bundle, however many items it holds, finds the items that it
/// was made of.
pub proof fn items_are_found_by_the_header(n: Seq<u8>, e: Seq<u8>, items: Seq<ItemFields>)
    requires
        items.len() <= u64::MAX,
        forall|i: int| 0 <= i < items.len() ==> ready(n, e, #[trigger] items[i]),
    ensures
        items_from(n, e, bundle_bytes(items), 0, 32 + 64 * items.len()) == Reading::Items(items),
{
    let bundle = bundle_bytes(items);
    let count = encoding::le_bytes(items.len(), 32);
    lemma_eight_bytes(items.len());
    encoding::lemma_le_bytes_len(items.len(), 32);
    encoding::lemma_le_bytes_take(items.len(), 32, 8);
    assert(bundle.take(8) =~= count.take(8));
    lemma_items_from(n, e, items, 0);
    assert(items.map_values(|item: ItemFields| item_bytes(item)).take(0) =~= Seq::empty());
    assert(items.skip(0) =~= items);
}

/// What it takes for an item to be found again in a bundle.
pub proof fn items_are_ready_when_signed_and_sized(n: Seq<u8>, e: Seq<u8>, item: ItemFields)
    ensures
        ready(n, e, item) <==> well_sized(item) && item.id.len() == 32 && item_bytes(item).len()
            <= u64::MAX && item_signed(n, e, item),
{
}

/// Whether `item` is what a bundle holds at `i`, where its bytes start and end at `starts[i]` and
/// `starts[i + 1]`: they are all there and are its binary form, its id stands in the header, and it
/// is signed with the key.
#[verifier::opaque]
pub open spec fn holds(
    n: Seq<u8>,
    e: Seq<u8>,
    bundle: Seq<u8>,
    starts: Seq<int>,
    i: int,
    item: ItemFields,
) -> bool {
    &&& starts[i + 1] <= bundle.len()
    &&& well_sized(item)
    &&& item_bytes(item) == bundle.subrange(starts[i], starts[i + 1])
    &&& item.id == bundle.subrange(64 + 64 * i, 96 + 64 * i)
    &&& item_signed(n, e, item)
}

/// Whether the bytes of a bundle at `i` are all there and are the binary form of no item.
#[verifier::opaque]
pub open spec fn holds_no_item(bundle: Seq<u8>, starts: Seq<int>, i: int) -> bool {
    &&& starts[i + 1] <= bundle.len()
    &&& forall|item: ItemFields|
        well_sized(item) ==> #[trigger] item_bytes(item) != bundle.subrange(
            starts[i],
            starts[i + 1],
        )
}

/// Whether `items` are what a bundle holds from the place `i` on, one for one.
#[verifier::opaque]
pub open spec fn all_held(
    n: Seq<u8>,
    e: Seq<u8>,
    bundle: Seq<u8>,
    starts: Seq<int>,
    i: int,
    items: Seq<ItemFields>,
) -> bool {
    forall|j: int|
        0 <= j < items.len() ==> holds(n, e, bundle, starts, i + j, #[trigger] items[j])
}

proof fn lemma_place_holds(
    n: Seq<u8>,
    e: Seq<u8>,
    bundle: Seq<u8>,
    starts: Seq<int>,
    i: int,
)
    requires
        0 <= i < starts.len() - 1,
        0 <= starts[i],
        96 + 64 * i <= bundle.len(),
        starts[i + 1] == starts[i] + claimed_len(bundle, i),
    ensures
        match place(bundle, i, starts[i] as nat) {
            Place::CutShort => starts[i + 1] > bundle.len(),
            Place::Malformed => holds_no_item(bundle, starts, i),
            Place::Item { item, end } => {
                &&& end == starts[i + 1]
                &&& starts[i + 1] <= bundle.len()
                &&& well_sized(item)
                &&& item_bytes(item) == bundle.subrange(starts[i], starts[i + 1])
                &&& item.id == bundle.subrange(64 + 64 * i, 96 + 64 * i)
                &&& forall|other: ItemFields|
                    well_sized(other) && #[trigger] item_bytes(other) == item_bytes(item)
                        && other.id == item.id ==> other == item
            },
        },
{
    reveal(holds_no_item);
    if starts[i + 1] <= bundle.len() {
        let slice = bundle.subrange(starts[i], starts[i + 1]);
        read_item_writes_back(slice);
        assert forall|other: ItemFields|
            well_sized(other) && #[trigger] item_bytes(other) == slice implies parse_item(slice)
            == Some(ItemFields { id: Seq::empty(), ..other }) by {
            item_survives_writing(other);
        }
        if let Some(parsed) = parse_item(slice) {
            let item = ItemFields { id: given_id(bundle, i), ..parsed };
            assert(item_bytes(item) == item_bytes(parsed));
            assert forall|other: ItemFields|
                well_sized(other) && #[trigger] item_bytes(other) == item_bytes(item) && other.id
                    == item.id implies other == item by {
                assert(item_bytes(other) == slice);
                assert(parsed == ItemFields { id: Seq::empty(), ..other });
                assert(other == ItemFields { id: item.id, ..other });
            }
        }
    }
}

/// Whether `starts` are the places that the header of a bundle gives its items: the first directly
/// behind the header, and each of the others where the one before it ends.
pub open spec fn claimed_starts(bundle: Seq<u8>, starts: Seq<int>) -> bool {
    let count = encoding::le_value(bundle.take(8));
    &&& starts.len() == count + 1
    &&& starts[0] == 32 + 64 * count
    &&& forall|i: int|
        0 <= i < count ==> #[trigger] starts[i + 1] == starts[i] + encoding::le_value(
            bundle.subrange(32 + 64 * i, 40 + 64 * i),
        )
}

proof fn lemma_held_first(
    n: Seq<u8>,
    e: Seq<u8>,
    bundle: Seq<u8>,
    starts: Seq<int>,
    i: int,
    items: Seq<ItemFields>,
)
    requires
        items.len() > 0,
    ensures
        all_held(n, e, bundle, starts, i, items) <==> holds(n, e, bundle, starts, i, items[0])
            && all_held(n, e, bundle, starts, i + 1, items.drop_first()),
{
    reveal(all_held);
    let rest = items.drop_first();
    if all_held(n, e, bundle, starts, i, items) {
        assert(holds(n, e, bundle, starts, i + 0, items[0]));
        assert forall|j: int| 0 <= j < rest.len() implies holds(
            n,
            e,
            bundle,
            starts,
            i + 1 + j,
            #[trigger] rest[j],
        ) by {
            assert(holds(n, e, bundle, starts, i + (j + 1), items[j + 1]));
        }
    }
    if holds(n, e, bundle, starts, i, items[0]) && all_held(
        n,
        e,
        bundle,
        starts,
        i + 1,
        rest,
    ) {
        assert forall|j: int| 0 <= j < items.len() implies holds(
            n,
            e,
            bundle,
            starts,
            i + j,
            #[trigger] items[j],
        ) by {
            if j > 0 {
                assert(items[j] == rest[j - 1]);
                assert(holds(n, e, bundle, starts, i + 1 + (j - 1), rest[j - 1]));
            }
        }
    }
}

/// Whether reading a bundle gives these items.
pub open spec fn gives(found: Reading, items: Seq<ItemFields>) -> bool {
    found matches Reading::Items(given) && given == items
}

/// Whether a bundle holds items from the place `i` on, but none at the place behind `before`.
pub open spec fn breaks_off(
    n: Seq<u8>,
    e: Seq<u8>,
    bundle: Seq<u8>,
    starts: Seq<int>,
    i: int,
    before: Seq<ItemFields>,
) -> bool {
    &&& i + before.len() < encoding::le_value(bundle.take(8))
    &&& all_held(n, e, bundle, starts, i, before)
    &&& holds_no_item(bundle, starts, i + before.len())
}

/// Whether all items from the place `i` on are found, and whether one of them is none behind those
/// that are.
spec fn read_as(
    n: Seq<u8>,
    e: Seq<u8>,
    bundle: Seq<u8>,
    starts: Seq<int>,
    i: int,
    found: Reading,
) -> bool {
    &&& forall|items: Seq<ItemFields>|
        #![trigger gives(found, items)]
        #![trigger all_held(n, e, bundle, starts, i, items)]
        gives(found, items) <==> items.len() == claimed_items(bundle) - i && all_held(
            n,
            e,
            bundle,
            starts,
            i,
            items,
        )
    &&& found is Malformed <==> exists|before: Seq<ItemFields>| #[trigger]
        breaks_off(n, e, bundle, starts, i, before)
}

proof fn lemma_start_at_least(bundle: Seq<u8>, starts: Seq<int>, i: int)
    requires
        claimed_starts(bundle, starts),
        0 <= i <= claimed_items(bundle),
    ensures
        starts[i] >= 0,
    decreases i,
{
    if i > 0 {
        lemma_start_at_least(bundle, starts, i - 1);
        assert(starts[i - 1 + 1] >= starts[i - 1]);
    }
}

/// What stands at the place `i` of a bundle, as far as reading goes on from it.
proof fn lemma_place_decides(n: Seq<u8>, e: Seq<u8>, bundle: Seq<u8>, starts: Seq<int>, i: int)
    requires
        claimed_starts(bundle, starts),
        bundle.len() >= 32 + 64 * claimed_items(bundle),
        0 <= i < claimed_items(bundle),
    ensures
        match place(bundle, i, starts[i] as nat) {
            Place::CutShort => !holds_no_item(bundle, starts, i) && forall|item: ItemFields|
                !#[trigger] holds(n, e, bundle, starts, i, item),
            Place::Malformed => holds_no_item(bundle, starts, i) && forall|item: ItemFields|
                !#[trigger] holds(n, e, bundle, starts, i, item),
            Place::Item { item, end } => {
                &&& end == starts[i + 1]
                &&& !holds_no_item(bundle, starts, i)
                &&& forall|other: ItemFields| #[trigger]
                    holds(n, e, bundle, starts, i, other) <==> other == item && item_signed(
                        n,
                        e,
                        item,
                    )
            },
        },
{
    reveal(holds);
    reveal(holds_no_item);
    lemma_start_at_least(bundle, starts, i);
    assert(starts[i + 1] == starts[i] + claimed_len(bundle, i));
    lemma_place_holds(n, e, bundle, starts, i);
}

proof fn lemma_none_held(n: Seq<u8>, e: Seq<u8>, bundle: Seq<u8>, starts: Seq<int>, i: int)
    ensures
        all_held(n, e, bundle, starts, i, Seq::empty()),
{
    reveal(all_held);
}

proof fn lemma_read_as(n: Seq<u8>, e: Seq<u8>, bundle: Seq<u8>, starts: Seq<int>, i: int)
    requires
        claimed_starts(bundle, starts),
        bundle.len() >= 32 + 64 * claimed_items(bundle),
        0 <= i <= claimed_items(bundle),
    ensures
        read_as(n, e, bundle, starts, i, items_from(n, e, bundle, i, starts[i] as nat)),
    decreases claimed_items(bundle) - i,
{
    let found = items_from(n, e, bundle, i, starts[i] as nat);
    let none = Seq::<ItemFields>::empty();
    lemma_none_held(n, e, bundle, starts, i);
    if i == claimed_items(bundle) {
        assert forall|items: Seq<ItemFields>|
            #![trigger gives(found, items)]
            #![trigger all_held(n, e, bundle, starts, i, items)]
            gives(found, items) <==> items.len() == 0 && all_held(
                n,
                e,
                bundle,
                starts,
                i,
                items,
            ) by {
            if items.len() == 0 {
                assert(items =~= none);
            }
        }
    } else {
        lemma_place_decides(n, e, bundle, starts, i);
        match place(bundle, i, starts[i] as nat) {
            Place::Item { item, .. } if item_signed(n, e, item) => {
                lemma_read_as(n, e, bundle, starts, i + 1);
                lemma_read_on(n, e, bundle, starts, i, item);
            },
            _ => {
                assert forall|items: Seq<ItemFields>|
                    #![trigger all_held(n, e, bundle, starts, i, items)]
                    items.len() > 0 implies !all_held(n, e, bundle, starts, i, items) by {
                    lemma_held_first(n, e, bundle, starts, i, items);
                }
                assert(breaks_off(n, e, bundle, starts, i, none) == holds_no_item(
                    bundle,
                    starts,
                    i,
                ));
                assert forall|before: Seq<ItemFields>| #[trigger]
                    breaks_off(n, e, bundle, starts, i, before) implies before == none by {
                    if before.len() == 0 {
                        assert(before =~= none);
                    }
                }
            },
        }
    }
}

/// Reading goes on behind an item that is found.
proof fn lemma_read_on(
    n: Seq<u8>,
    e: Seq<u8>,
    bundle: Seq<u8>,
    starts: Seq<int>,
    i: int,
    item: ItemFields,
)
    requires
        0 <= i < claimed_items(bundle),
        item_signed(n, e, item),
        !holds_no_item(bundle, starts, i),
        forall|other: ItemFields| #[trigger]
            holds(n, e, bundle, starts, i, other) <==> other == item,
        place(bundle, i, starts[i] as nat) == (Place::Item { item, end: starts[i + 1] as nat }),
        read_as(
            n,
            e,
            bundle,
            starts,
            i + 1,
            items_from(n, e, bundle, i + 1, starts[i + 1] as nat),
        ),
    ensures
        read_as(n, e, bundle, starts, i, items_from(n, e, bundle, i, starts[i] as nat)),
{
    let found = items_from(n, e, bundle, i, starts[i] as nat);
    let next = items_from(n, e, bundle, i + 1, starts[i + 1] as nat);
    assert(found == match next {
        Reading::Items(rest) => Reading::Items(seq![item] + rest),
        other => other,
    });
    lemma_items_read_on(n, e, bundle, starts, i, item, found, next);
    if next is Malformed {
        let before = choose|before: Seq<ItemFields>| #[trigger]
            breaks_off(n, e, bundle, starts, i + 1, before);
        let longer = seq![item] + before;
        assert(longer.drop_first() =~= before);
        lemma_held_first(n, e, bundle, starts, i, longer);
        assert(i + longer.len() == i + 1 + before.len());
        assert(breaks_off(n, e, bundle, starts, i, longer));
    }
    assert forall|before: Seq<ItemFields>| #[trigger]
        breaks_off(n, e, bundle, starts, i, before) implies next is Malformed by {
        assert(before.len() > 0);
        lemma_held_first(n, e, bundle, starts, i, before);
        let rest = before.drop_first();
        assert(i + 1 + rest.len() == i + before.len());
        assert(breaks_off(n, e, bundle, starts, i + 1, rest));
    }
}

proof fn lemma_items_read_on(
    n: Seq<u8>,
    e: Seq<u8>,
    bundle: Seq<u8>,
    starts: Seq<int>,
    i: int,
    item: ItemFields,
    found: Reading,
    next: Reading,
)
    requires
        0 <= i < claimed_items(bundle),
        forall|other: ItemFields| #[trigger]
            holds(n, e, bundle, starts, i, other) <==> other == item,
        read_as(n, e, bundle, starts, i + 1, next),
        found == (match next {
            Reading::Items(rest) => Reading::Items(seq![item] + rest),
            other => other,
        }),
    ensures
        forall|items: Seq<ItemFields>|
            #![trigger gives(found, items)]
            #![trigger all_held(n, e, bundle, starts, i, items)]
            gives(found, items) <==> items.len() == claimed_items(bundle) - i
                && all_held(n, e, bundle, starts, i, items),
{
    assert forall|items: Seq<ItemFields>|
        #![trigger gives(found, items)]
        #![trigger all_held(n, e, bundle, starts, i, items)]
        gives(found, items) <==> items.len() == claimed_items(bundle) - i && all_held(
            n,
            e,
            bundle,
            starts,
            i,
            items,
        ) by {
        if items.len() > 0 {
            let rest = items.drop_first();
            lemma_held_first(n, e, bundle, starts, i, items);
            let held = all_held(n, e, bundle, starts, i + 1, rest);
            if gives(next, rest) {
                assert(held && rest.len() == claimed_items(bundle) - (i + 1));
            }
            if held && rest.len() == claimed_items(bundle) - (i + 1) {
                assert(gives(next, rest));
            }
            if let Reading::Items(others) = next {
                assert((seq![item] + others).drop_first() =~= others);
                assert((seq![item] + others)[0] == item);
            }
            if items[0] == item {
                assert(items =~= seq![item] + rest);
            }
        } else {
            if let Reading::Items(others) = next {
                assert((seq![item] + others).len() > 0);
            }
        }
    }
}

/// What a bundle is read as. Items come out if and only if there are as many as the header says,
/// and each is signed with the key and has its binary form where the header puts it and its id in
/// the header. The bundle is malformed if and only if the bytes of one are no item's, behind items
/// that are found. It is refused without a complete header, for more than two items, and in every
/// other case.
pub proof fn bundles_are_read_by_their_header(
    n: Seq<u8>,
    e: Seq<u8>,
    bundle: Seq<u8>,
    starts: Seq<int>,
)
    requires
        claimed_starts(bundle, starts),
    ensures
        ({
            let count = encoding::le_value(bundle.take(8));
            let complete = bundle.len() >= 32 && count <= 2 && bundle.len() >= 32 + 64 * count;
            let found = reading(n, e, bundle);
            &&& !complete ==> found is Refused
            &&& complete ==> forall|items: Seq<ItemFields>|
                #![trigger gives(found, items)]
                #![trigger all_held(n, e, bundle, starts, 0, items)]
                gives(found, items) <==> items.len() == count && all_held(
                    n,
                    e,
                    bundle,
                    starts,
                    0,
                    items,
                )
            &&& complete ==> (found is Malformed <==> exists|before: Seq<ItemFields>| #[trigger]
                breaks_off(n, e, bundle, starts, 0, before))
        }),
{
    let count = claimed_items(bundle);
    if bundle.len() >= 32 && count <= 2 && bundle.len() >= 32 + 64 * count {
        lemma_read_as(n, e, bundle, starts, 0);
        assert(reading(n, e, bundle) == items_from(n, e, bundle, 0, starts[0] as nat));
    }
}

/// Every field of a data item counts.
pub proof fn every_field_of_an_item_counts(item: DataItem)
    ensures
        item@.id == item.id.0@,
        item@.signature == item.signature.0@,
        item@.owner == item.owner.0@,
        item@.target == item.target.0@,
        item@.anchor == item.anchor.0@,
        item@.tags == views::each(item.tags@),
        item@.data == item.data.0@,
{
}

} // verus!
