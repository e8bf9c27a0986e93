//! Hashing and signing.

use crate::base64::Base64;
use crate::encoding;
use crate::error::Error;
use crate::text;
use ring::digest;
use ring::rand::SystemRandom;
use ring::rsa::{KeyPair, KeyPairComponents, PublicKeyComponents};
use ring::signature::{RSA_PSS_2048_8192_SHA256, RSA_PSS_SHA256};
use vstd::prelude::*;
use vstd::utf8::encode_utf8;

verus! {

/// The hash functions count the bits of a message in 64 bits.
pub const MESSAGE_LIMIT: u64 = 0x2000_0000_0000_0000;

/// The SHA-256 hash of a message.
pub uninterp spec fn sha256(message: Seq<u8>) -> Seq<u8>;

/// The SHA-384 hash of a message.
pub uninterp spec fn sha384(message: Seq<u8>) -> Seq<u8>;

/// Whether numbers, as big-endian bytes, are accepted as the components of an RSA key pair: the
/// modulus, the two exponents, the two primes, the two exponents reduced to the primes and the
/// inverse of the second prime.
pub uninterp spec fn rsa_key_accepted(
    n: Seq<u8>,
    e: Seq<u8>,
    d: Seq<u8>,
    p: Seq<u8>,
    q: Seq<u8>,
    dp: Seq<u8>,
    dq: Seq<u8>,
    qi: Seq<u8>,
) -> bool;

/// Whether `signature` is an RSA-PSS signature, over SHA-256, of `message` under the public key
/// with modulus `n` and exponent `e`.
pub uninterp spec fn rsa_pss_valid(
    n: Seq<u8>,
    e: Seq<u8>,
    message: Seq<u8>,
    signature: Seq<u8>,
) -> bool;

/// Whether the hash functions accept a message.
pub open spec fn hashable(message: Seq<u8>) -> bool {
    message.len() < MESSAGE_LIMIT
}

/// Calls `ring::digest::digest` with `SHA256`, which gives the 32 bytes of the message's SHA-256
/// hash. It panics on a message whose length in bits exceeds 64 bits.
#[verifier::external_body]
pub(crate) fn digest_sha256(message: &[u8]) -> (hash: Vec<u8>)
    requires
        hashable(message@),
    ensures
        hash@ == sha256(message@),
        hash@.len() == 32,
{
    digest::digest(&digest::SHA256, message).as_ref().to_vec()
}

/// Calls `ring::digest::digest` with `SHA384`, which gives the 48 bytes of the message's SHA-384
/// hash. It panics on a message whose length in bits exceeds 64 bits.
#[verifier::external_body]
fn digest_sha384(message: &[u8]) -> (hash: Vec<u8>)
    requires
        hashable(message@),
    ensures
        hash@ == sha384(message@),
        hash@.len() == 48,
{
    digest::digest(&digest::SHA384, message).as_ref().to_vec()
}

/// The components of an RSA key pair as big-endian bytes.
pub struct KeyComponents {
    /// The modulus.
    pub n: Vec<u8>,
    /// The public exponent.
    pub e: Vec<u8>,
    /// The private exponent.
    pub d: Vec<u8>,
    /// The first prime.
    pub p: Vec<u8>,
    /// The second prime.
    pub q: Vec<u8>,
    /// The private exponent modulo `p - 1`.
    pub dp: Vec<u8>,
    /// The private exponent modulo `q - 1`.
    pub dq: Vec<u8>,
    /// The inverse of `q` modulo `p`.
    pub qi: Vec<u8>,
}

impl KeyComponents {
    /// Whether the components make up a key pair that can be used.
    pub open spec fn accepted(&self) -> bool {
        rsa_key_accepted(
            self.n@,
            self.e@,
            self.d@,
            self.p@,
            self.q@,
            self.dp@,
            self.dq@,
            self.qi@,
        )
    }
}

/// Calls `ring::rsa::KeyPair::from_components`, which accepts or rejects the components.
/// It accepts only moduli that take up 256 to 512 bytes without leading zeros.
#[verifier::external_body]
fn key_pair_accepted(key: &KeyComponents) -> (accepted: bool)
    ensures
        accepted == rsa_key_accepted(
            key.n@,
            key.e@,
            key.d@,
            key.p@,
            key.q@,
            key.dp@,
            key.dq@,
            key.qi@,
        ),
        accepted ==> 256 <= key.n@.len() <= 512,
{
    let public_key = PublicKeyComponents { n: &key.n, e: &key.e };
    KeyPair::from_components(&KeyPairComponents {
        public_key,
        d: &key.d,
        p: &key.p,
        q: &key.q,
        dP: &key.dp,
        dQ: &key.dq,
        qInv: &key.qi,
    }).is_ok()
}

/// Calls `ring::rsa::KeyPair::sign` with `RSA_PSS_SHA256` on the key pair that the
/// components make up. What it hands back is as long as the modulus and is a signature of the
/// message: the signature is raised to the public exponent and compared before it is handed out.
/// It depends on random numbers, and there is none where the components are rejected, are at odds
/// with each other, or no random numbers can be had. It panics on a message that cannot be hashed.
#[verifier::external_body]
fn key_pair_sign(key: &KeyComponents, message: &[u8]) -> (signature: Option<Vec<u8>>)
    requires
        hashable(message@),
    ensures
        signature matches Some(s) ==> s@.len() == key.n@.len() && rsa_pss_valid(
            key.n@,
            key.e@,
            message@,
            s@,
        ),
{
    let public_key = PublicKeyComponents { n: &key.n, e: &key.e };
    let pair = KeyPair::from_components(&KeyPairComponents {
        public_key,
        d: &key.d,
        p: &key.p,
        q: &key.q,
        dP: &key.dp,
        dQ: &key.dq,
        qInv: &key.qi,
    }).ok()?;
    let mut signature = vec![0u8; pair.public().modulus_len()];
    let signed = pair.sign(&RSA_PSS_SHA256, &SystemRandom::new(), message, &mut signature);
    signed.ok().map(|_| signature)
}

/// Calls `ring::rsa::PublicKeyComponents::verify` with `RSA_PSS_2048_8192_SHA256`, which
/// says whether the signature belongs to the message and the public key. It panics on a message
/// that cannot be hashed.
#[verifier::external_body]
fn public_key_verify(n: &[u8], e: &[u8], message: &[u8], signature: &[u8]) -> (valid: bool)
    requires
        hashable(message@),
    ensures
        valid == rsa_pss_valid(n@, e@, message@, signature@),
{
    PublicKeyComponents { n, e }.verify(&RSA_PSS_2048_8192_SHA256, message, signature).is_ok()
}

/// What is hashed for a signature: byte strings, nested in lists.
#[derive(Debug)]
pub enum DeepHashItem {
    Blob(Vec<u8>),
    List(Vec<DeepHashItem>),
}

/// The shape and the bytes of a [`DeepHashItem`].
pub enum HashTree {
    Blob(Seq<u8>),
    List(Seq<HashTree>),
}

impl DeepHashItem {
    /// The shape and the bytes of the item.
    pub open spec fn tree(self) -> HashTree
        decreases self,
    {
        match self {
            DeepHashItem::Blob(bytes) => HashTree::Blob(bytes@),
            DeepHashItem::List(items) => HashTree::List(
                Seq::new(
                    items@.len(),
                    |i: int|
                        if 0 <= i < items@.len() {
                            items@[i].tree()
                        } else {
                            arbitrary()
                        },
                ),
            ),
        }
    }
}

impl View for DeepHashItem {
    type V = HashTree;

    open spec fn view(&self) -> HashTree {
        self.tree()
    }
}

/// Whether every byte string in a tree can be hashed.
pub open spec fn tree_hashable(tree: HashTree) -> bool
    decreases tree,
{
    match tree {
        HashTree::Blob(bytes) => hashable(bytes),
        HashTree::List(items) => forall|i: int|
            0 <= i < items.len() ==> tree_hashable(#[trigger] items[i]),
    }
}

/// What a node of a tree is marked with: its kind, then its length in decimal.
pub open spec fn mark(kind: Seq<char>, len: nat) -> Seq<u8> {
    encode_utf8(kind + text::decimal(len))
}

/// The deep hash of a tree. A byte string is hashed together with its mark; the hash of a list
/// starts from the hash of its mark and takes in the hash of one element after the other.
pub open spec fn deep_hash_of(tree: HashTree) -> Seq<u8>
    decreases tree, 0nat,
{
    match tree {
        HashTree::Blob(bytes) => sha384(sha384(mark("blob"@, bytes.len())) + sha384(bytes)),
        HashTree::List(items) => list_hash(items, items.len()),
    }
}

/// The hash of a list after its first `n` elements.
pub open spec fn list_hash(items: Seq<HashTree>, n: nat) -> Seq<u8>
    decreases items, n,
{
    if n == 0 || n > items.len() {
        sha384(mark("list"@, items.len()))
    } else {
        sha384(list_hash(items, (n - 1) as nat) + deep_hash_of(items[n - 1]))
    }
}

proof fn lemma_list_hashable(items: Seq<HashTree>)
    ensures
        tree_hashable(HashTree::List(items)) == forall|i: int|
            0 <= i < items.len() ==> tree_hashable(#[trigger] items[i]),
{
    let tree = HashTree::List(items);
    reveal_with_fuel(tree_hashable, 2);
    if tree_hashable(tree) {
        assert forall|i: int| 0 <= i < items.len() implies tree_hashable(#[trigger] items[i]) by {
            assert(tree->List_0[i] == items[i]);
        }
    }
}

/// Hashes the mark of a node.
fn mark_hash(kind: &str, len: usize) -> (hash: Vec<u8>)
    requires
        kind@.len() == 4,
        vstd::utf8::is_ascii_chars(kind@),
    ensures
        hash@ == sha384(mark(kind@, len as nat)),
        hash@.len() == 48,
{
    let mut written = String::new();
    written.append(kind);
    text::push_decimal(&mut written, len as u64);
    assert(written@ =~= kind@ + text::decimal(len as nat));
    proof {
        text::lemma_decimal_ascii(len as nat);
        text::lemma_decimal_len(len as nat);
        vstd::utf8::is_ascii_chars_encode_utf8(written@);
    }
    digest_sha384(written.as_str().as_bytes())
}

/// Hashes two hashes that stand one after the other.
fn pair_hash(left: &Vec<u8>, right: &Vec<u8>) -> (hash: Vec<u8>)
    requires
        left@.len() == 48,
        right@.len() == 48,
    ensures
        hash@ == sha384(left@ + right@),
        hash@.len() == 48,
{
    let mut both: Vec<u8> = Vec::new();
    encoding::push_all(&mut both, left.as_slice());
    encoding::push_all(&mut both, right.as_slice());
    assert(both@ =~= left@ + right@);
    digest_sha384(both.as_slice())
}

/// The deep hash of an item, if every byte string in it can be hashed.
fn deep_hash_item(item: &DeepHashItem) -> (hash: Option<Vec<u8>>)
    ensures
        hash is Some <==> tree_hashable(item@),
        hash matches Some(h) ==> h@ == deep_hash_of(item@) && h@.len() == 48,
    decreases item,
{
    match item {
        DeepHashItem::Blob(bytes) => {
            if bytes.len() as u64 >= MESSAGE_LIMIT {
                return None;
            }
            proof {
                reveal_strlit("blob");
            }
            let tag = mark_hash("blob", bytes.len());
            let data = digest_sha384(bytes.as_slice());
            Some(pair_hash(&tag, &data))
        },
        DeepHashItem::List(items) => {
            proof {
                reveal_strlit("list");
            }
            let ghost trees = item@->List_0;
            proof {
                lemma_list_hashable(trees);
            }
            let mut hash = mark_hash("list", items.len());
            let mut i: usize = 0;
            while i < items.len()
                invariant
                    i <= items.len(),
                    *item == DeepHashItem::List(*items),
                    item@ == HashTree::List(trees),
                    tree_hashable(item@) == forall|j: int|
                        0 <= j < trees.len() ==> tree_hashable(#[trigger] trees[j]),
                    trees.len() == items@.len(),
                    forall|j: int| 0 <= j < items@.len() ==> trees[j] == (#[trigger] items@[j])@,
                    forall|j: int| 0 <= j < i ==> tree_hashable(#[trigger] trees[j]),
                    hash@ == list_hash(trees, i as nat),
                    hash@.len() == 48,
                decreases items.len() - i,
            {
                assert(trees[i as int] == items@[i as int]@);
                match deep_hash_item(&items[i]) {
                    None => {
                        assert(!tree_hashable(trees[i as int]));
                        return None;
                    },
                    Some(next) => {
                        hash = pair_hash(&hash, &next);
                    },
                }
                i = i + 1;
            }
            Some(hash)
        },
    }
}

/// The signature that was made, if one was.
pub fn signature_or_failure(made: Option<Vec<u8>>) -> (signature: Result<Vec<u8>, Error>)
    ensures
        signature == match made {
            Some(s) => Ok::<Vec<u8>, Error>(s),
            None => Err(Error::SigningFailed),
        },
{
    match made {
        Some(signature) => Ok(signature),
        None => Err(Error::SigningFailed),
    }
}

/// A key pair that signs and hashes.
pub struct Provider {
    key: KeyComponents,
}

impl Provider {
    /// The modulus of the key pair.
    pub closed spec fn modulus(&self) -> Seq<u8> {
        self.key.n@
    }

    /// The public exponent of the key pair.
    pub closed spec fn exponent(&self) -> Seq<u8> {
        self.key.e@
    }

    #[verifier::type_invariant]
    spec fn well_formed(self) -> bool {
        256 <= self.key.n@.len() <= 512
    }

    /// Whether `signature` is a signature of `message` under the key pair.
    pub open spec fn signed(&self, message: Seq<u8>, signature: Seq<u8>) -> bool {
        rsa_pss_valid(self.modulus(), self.exponent(), message, signature)
    }

    /// Takes the components of a key pair.
    pub fn from_components(key: KeyComponents) -> (provider: Result<Provider, Error>)
        ensures
            match provider {
                Ok(provider) => key.accepted() && provider.modulus() == key.n@
                    && provider.exponent() == key.e@,
                Err(e) => !key.accepted() && e == Error::KeyRejected,
            },
    {
        if key_pair_accepted(&key) {
            Ok(Provider { key })
        } else {
            Err(Error::KeyRejected)
        }
    }

    /// The modulus of the key pair, which is the public part that transactions carry.
    pub fn keypair_modulus(&self) -> (modulus: Base64)
        ensures
            modulus@ == self.modulus(),
            256 <= modulus@.len() <= 512,
    {
        proof {
            use_type_invariant(self);
        }
        Base64(vstd::slice::slice_to_vec(self.key.n.as_slice()))
    }

    /// The address of the key pair's wallet: the hash of the modulus.
    pub fn wallet_address(&self) -> (address: Base64)
        ensures
            address@ == sha256(self.modulus()),
            address@.len() == 32,
    {
        proof {
            use_type_invariant(self);
        }
        Base64(digest_sha256(self.key.n.as_slice()))
    }

    /// The SHA-256 hash of a message.
    pub fn hash_sha256(&self, message: &[u8]) -> (hash: Result<Vec<u8>, Error>)
        ensures
            match hash {
                Ok(h) => hashable(message@) && h@ == sha256(message@) && h@.len() == 32,
                Err(e) => !hashable(message@) && e == Error::MessageTooLong,
            },
    {
        if (message.len() as u64) < MESSAGE_LIMIT {
            Ok(digest_sha256(message))
        } else {
            Err(Error::MessageTooLong)
        }
    }

    /// The deep hash of an item.
    pub fn deep_hash(&self, item: DeepHashItem) -> (hash: Result<Vec<u8>, Error>)
        ensures
            match hash {
                Ok(h) => tree_hashable(item@) && h@ == deep_hash_of(item@) && h@.len() == 48,
                Err(e) => !tree_hashable(item@) && e == Error::MessageTooLong,
            },
    {
        match deep_hash_item(&item) {
            Some(hash) => Ok(hash),
            None => Err(Error::MessageTooLong),
        }
    }

    /// Signs a message. A signature holds random numbers: two of the same message differ, and
    /// which one comes, or whether one can be made, is not stated.
    pub fn sign(&self, message: &[u8]) -> (signature: Result<Vec<u8>, Error>)
        ensures
            match signature {
                Ok(s) => hashable(message@) && s@.len() == self.modulus().len() && self.signed(
                    message@,
                    s@,
                ),
                Err(e) => if hashable(message@) {
                    e == Error::SigningFailed
                } else {
                    e == Error::MessageTooLong
                },
            },
    {
        if (message.len() as u64) < MESSAGE_LIMIT {
            signature_or_failure(key_pair_sign(&self.key, message))
        } else {
            Err(Error::MessageTooLong)
        }
    }

    /// Holds a signature of a message against the key pair.
    pub fn verify(&self, signature: &[u8], message: &[u8]) -> (checked: Result<(), Error>)
        ensures
            match checked {
                Ok(_) => hashable(message@) && self.signed(message@, signature@),
                Err(e) => if hashable(message@) {
                    e == Error::InvalidSignature && !self.signed(message@, signature@)
                } else {
                    e == Error::MessageTooLong
                },
            },
    {
        if (message.len() as u64) < MESSAGE_LIMIT {
            if public_key_verify(self.key.n.as_slice(), self.key.e.as_slice(), message, signature) {
                Ok(())
            } else {
                Err(Error::InvalidSignature)
            }
        } else {
            Err(Error::MessageTooLong)
        }
    }
}

/// A message can be hashed if and only if its length in bits can be written in 64 bits.
pub proof fn hashable_iff_the_bits_can_be_counted(message: Seq<u8>)
    ensures
        hashable(message) <==> 8 * message.len() <= u64::MAX,
{
}

/// A tree can be hashed if and only if all that stands in it can.
pub proof fn trees_are_hashable_part_by_part(bytes: Seq<u8>, items: Seq<HashTree>, last: HashTree)
    ensures
        tree_hashable(HashTree::Blob(bytes)) <==> hashable(bytes),
        tree_hashable(HashTree::List(Seq::empty())),
        tree_hashable(HashTree::List(items.push(last))) <==> tree_hashable(HashTree::List(items))
            && tree_hashable(last),
{
    lemma_list_hashable(Seq::empty());
    lemma_list_hashable(items);
    lemma_list_hashable(items.push(last));
    let longer = items.push(last);
    if tree_hashable(HashTree::List(longer)) {
        assert forall|i: int| 0 <= i < items.len() implies tree_hashable(#[trigger] items[i]) by {
            assert(longer[i] == items[i]);
        }
        assert(longer[items.len() as int] == last);
    }
}

/// The deep hash of bytes joins the hash of their kind and number and the hash of themselves.
pub proof fn bytes_are_hashed_with_their_number(bytes: Seq<u8>)
    ensures
        deep_hash_of(HashTree::Blob(bytes)) == sha384(
            sha384(encode_utf8("blob"@ + text::decimal(bytes.len()))) + sha384(bytes),
        ),
{
}

/// The deep hash of a list is the end of a chain of hashes: it starts from the kind and the number
/// of elements, and every further hash joins the one before it and the deep hash of the next
/// element.
pub proof fn lists_are_hashed_as_a_chain(items: Seq<HashTree>, chain: Seq<Seq<u8>>)
    requires
        chain.len() == items.len() + 1,
        chain[0] == sha384(encode_utf8("list"@ + text::decimal(items.len()))),
        forall|i: int|
            0 <= i < items.len() ==> chain[i + 1] == sha384(
                chain[i] + deep_hash_of(#[trigger] items[i]),
            ),
    ensures
        deep_hash_of(HashTree::List(items)) == chain[items.len() as int],
{
    lemma_chain(items, chain, items.len());
}

proof fn lemma_chain(items: Seq<HashTree>, chain: Seq<Seq<u8>>, n: nat)
    requires
        n <= items.len(),
        chain.len() == items.len() + 1,
        chain[0] == sha384(encode_utf8("list"@ + text::decimal(items.len()))),
        forall|i: int|
            0 <= i < items.len() ==> chain[i + 1] == sha384(
                chain[i] + deep_hash_of(#[trigger] items[i]),
            ),
    ensures
        list_hash(items, n) == chain[n as int],
    decreases n,
{
    if n > 0 {
        lemma_chain(items, chain, (n - 1) as nat);
        assert(chain[n - 1 + 1] == sha384(chain[n - 1] + deep_hash_of(items[n - 1])));
    }
}

/// Every byte string and every list in an item counts, in its place.
pub proof fn every_part_of_an_item_counts(item: DeepHashItem)
    ensures
        match item {
            DeepHashItem::Blob(bytes) => item@ == HashTree::Blob(bytes@),
            DeepHashItem::List(items) => match item@ {
                HashTree::List(trees) => trees.len() == items@.len() && forall|i: int|
                    0 <= i < items@.len() ==> trees[i] == (#[trigger] items@[i])@,
                HashTree::Blob(_) => false,
            },
        },
{
    reveal_with_fuel(DeepHashItem::tree, 2);
}

} // verus!
