//! The uploader: a gateway to the network, and the key pair that signs.

use crate::avro;
use crate::base64;
use crate::base64::Base64;
use crate::bundle;
use crate::bundle::{DataItem, ItemFields, Reading};
use crate::content;
use crate::crypto;
use crate::crypto::{DeepHashItem, KeyComponents, Provider};
use crate::encoding;
use crate::error::Error;
use crate::log;
use crate::manifest;
use crate::merkle;
use crate::solana;
use crate::solana::{SigResponse, SolTerms};
use crate::status;
use crate::status::{RawStatus, Status, StatusCode, StatusFields, Timestamp};
use crate::tag;
use crate::tag::Tag;
use crate::text;
use crate::transaction;
use crate::transaction::{Transaction, TransactionFields};
use crate::views;
use vstd::prelude::*;
use vstd::string::StringExecFns;

verus! {

/// The gateway that is used where none is named.
pub const DEFAULT_URL: &'static str = "https://arweave.net/";

/// What a relative reference means on top of a base URL, if the base is a URL and the reference
/// can be resolved against it.
pub uninterp spec fn joined_url(base: Seq<char>, reference: Seq<char>) -> Option<Seq<char>>;

/// Calls `url::Url::join` on the URL that `base` is parsed as, which resolves the reference as
/// browsers do.
#[verifier::external_body]
fn join_url(base: &str, reference: &str) -> (url: Option<String>)
    ensures
        views::maybe(url) == joined_url(base@, reference@),
{
    let base = url::Url::parse(base).ok()?;
    base.join(reference).ok().map(String::from)
}

/// What two relative references, one after the other, mean on top of a base URL.
pub open spec fn joined_twice(base: Seq<char>, first: Seq<char>, second: Seq<char>) -> Option<
    Seq<char>,
> {
    match joined_url(base, first) {
        Some(url) => joined_url(url, second),
        None => None,
    }
}

/// Whether a function that resolves a URL hands out what it resolves to, and an error where it
/// resolves to nothing.
pub open spec fn hands_out(url: Option<Seq<char>>, result: Result<String, Error>) -> bool {
    match url {
        Some(u) => result matches Ok(found) && found@ == u,
        None => result == Err::<String, Error>(Error::InvalidUrl),
    }
}

/// The URL that was resolved, if one was.
pub fn url_or_failure(resolved: Option<String>) -> (url: Result<String, Error>)
    ensures
        hands_out(views::maybe(resolved), url),
{
    match resolved {
        Some(url) => Ok(url),
        None => Err(Error::InvalidUrl),
    }
}

/// Where the balance of a wallet is asked for, relative to the gateway.
pub open spec fn balance_reference(address: Seq<char>) -> Seq<char> {
    "wallet/"@ + address + "/balance"@
}

/// Where the status of a transaction is asked for, relative to the gateway.
pub open spec fn status_reference(id: Seq<u8>) -> Seq<char> {
    "tx/"@ + base64::encode(id) + "/status"@
}

/// The transaction that a new one names as its anchor.
#[derive(Debug)]
pub enum LastTx {
    /// It was chosen.
    Given(Base64),
    /// The network named it in its textual form.
    Fetched(String),
}

/// The bytes of an anchor, if its textual form is one.
pub open spec fn anchor_bytes(last_tx: LastTx) -> Option<Seq<u8>> {
    match last_tx {
        LastTx::Given(bytes) => Some(bytes@),
        LastTx::Fetched(text) => base64::decode(text@),
    }
}

/// Tags that may be missing.
pub open spec fn tags_or_none(tags: Option<Vec<Tag<Base64>>>) -> Seq<Tag<Seq<u8>>> {
    match tags {
        Some(t) => views::each(t@),
        None => Seq::empty(),
    }
}

/// The tags of a transaction that uploads a bundle.
pub open spec fn bundle_tags() -> Seq<Tag<Seq<u8>>> {
    seq![
        tag::utf8_tag(Tag { name: "Bundle-Format"@, value: "binary"@ }),
        tag::utf8_tag(Tag { name: "Bundle-Version"@, value: "2.0.0"@ }),
    ]
}

/// Where a transaction is to be posted: nowhere if it was not signed.
pub open spec fn posting(base_url: Seq<char>, tx: TransactionFields) -> Result<Seq<char>, Error> {
    if tx.id.len() == 0 {
        Err(Error::UnsignedTransaction)
    } else {
        match joined_url(base_url, "tx/"@) {
            Some(url) => Ok(url),
            None => Err(Error::InvalidUrl),
        }
    }
}

/// A transaction that was not signed is not posted.
pub proof fn new_transactions_are_not_posted(
    base_url: Seq<char>,
    data: Seq<u8>,
    found_type: Option<Seq<char>>,
    other_tags: Seq<Tag<Seq<u8>>>,
    last_tx: Seq<u8>,
    price_terms: (u64, u64),
    owner: Seq<u8>,
)
    ensures
        posting(
            base_url,
            transaction::upload_of(data, found_type, other_tags, last_tx, price_terms, owner),
        ) == Err::<Seq<char>, Error>(Error::UnsignedTransaction),
{
}

/// A transaction that was signed is posted, wherever the gateway's URL is one.
pub proof fn signed_transactions_are_posted(base_url: Seq<char>, tx: TransactionFields)
    requires
        tx.id.len() > 0,
        joined_url(base_url, "tx/"@) is Some,
    ensures
        posting(base_url, tx) is Ok,
{
}

/// What must be paid, and what is to be signed, for a transaction that is paid for with SOL.
#[derive(Debug)]
pub struct SolRequest {
    pub lamports: u64,
    pub item: DeepHashItem,
}

/// A data item before it is signed.
pub open spec fn new_item(
    data: Seq<u8>,
    found_type: Option<Seq<char>>,
    tags: Seq<Tag<Seq<char>>>,
) -> ItemFields {
    ItemFields {
        id: Seq::empty(),
        signature: Seq::empty(),
        owner: Seq::empty(),
        target: Seq::empty(),
        anchor: Seq::empty(),
        tags: tags + content::standard_tags(found_type),
        data,
    }
}

/// A data item with an owner and a signature, and the id that follows from it.
pub open spec fn item_signed_with(
    item: ItemFields,
    owner: Seq<u8>,
    signature: Seq<u8>,
) -> ItemFields {
    bundle::signed_with(ItemFields { owner, ..item }, signature)
}

/// Data items that were made and signed with a key pair of 4096 bits come out of a bundle as they
/// went in.
pub proof fn signed_items_survive_a_bundle(n: Seq<u8>, e: Seq<u8>, items: Seq<ItemFields>)
    requires
        n.len() == bundle::SIGNATURE_SIZE,
        items.len() <= bundle::READABLE_ITEMS,
        forall|i: int|
            0 <= i < items.len() ==> {
                let item = #[trigger] items[i];
                &&& exists|data: Seq<u8>, found_type: Option<Seq<char>>, tags: Seq<Tag<Seq<char>>>|
                    item == item_signed_with(
                        #[trigger] new_item(data, found_type, tags),
                        n,
                        item.signature,
                    )
                &&& item.signature.len() == n.len()
                &&& item.id.len() == bundle::ID_SIZE
                &&& bundle::item_signed(n, e, item)
                &&& item.tags.len() <= u64::MAX
                &&& bundle::item_bytes(item).len() <= u64::MAX
            },
    ensures
        bundle::reading(n, e, bundle::bundle_bytes(items)) == Reading::Items(items),
{
    assert forall|i: int| 0 <= i < items.len() implies bundle::ready(n, e, #[trigger] items[i]) by {
        let item = items[i];
        assert(avro::tags_bytes(item.tags).len() <= bundle::item_bytes(item).len());
    }
    bundle::bundle_survives_writing(n, e, items);
}

/// An uploader.
pub struct Arweave {
    pub name: String,
    pub units: String,
    pub base_url: String,
    pub crypto: Provider,
}

impl Arweave {
    /// Sets up an uploader with a key pair.
    pub fn from_keypair(key: KeyComponents, base_url: Option<String>) -> (made: Result<
        Arweave,
        Error,
    >)
        ensures
            match made {
                Ok(arweave) => {
                    &&& key.accepted()
                    &&& arweave.name@ == "arweave"@
                    &&& arweave.units@ == "winstons"@
                    &&& arweave.base_url@ == match base_url {
                        Some(url) => url@,
                        None => DEFAULT_URL@,
                    }
                    &&& arweave.crypto.modulus() == key.n@
                    &&& arweave.crypto.exponent() == key.e@
                },
                Err(e) => !key.accepted() && e == Error::KeyRejected,
            },
    {
        match Provider::from_components(key) {
            Err(e) => Err(e),
            Ok(crypto) => Ok(
                Arweave {
                    name: "arweave".to_owned(),
                    units: "winstons".to_owned(),
                    base_url: match base_url {
                        Some(url) => url,
                        None => DEFAULT_URL.to_owned(),
                    },
                    crypto,
                },
            ),
        }
    }

    /// Resolves a reference against the gateway's URL.
    fn join(&self, reference: &str) -> (url: Result<String, Error>)
        ensures
            hands_out(joined_url(self.base_url@, reference@), url),
    {
        url_or_failure(join_url(self.base_url.as_str(), reference))
    }

    /// Resolves two references, one after the other, against the gateway's URL.
    fn join_twice(&self, first: &str, second: &str) -> (url: Result<String, Error>)
        ensures
            hands_out(joined_twice(self.base_url@, first@, second@), url),
    {
        match join_url(self.base_url.as_str(), first) {
            Some(url) => url_or_failure(join_url(url.as_str(), second)),
            None => Err(Error::InvalidUrl),
        }
    }

    /// Where the balance of a wallet is asked for: of the key pair's own where none is named.
    pub fn wallet_balance_url(&self, wallet_address: Option<String>) -> (url: Result<String, Error>)
        ensures
            hands_out(
                joined_url(
                    self.base_url@,
                    "wallet/"@ + match wallet_address {
                        Some(address) => address@,
                        None => base64::encode(crypto::sha256(self.crypto.modulus())),
                    } + "/balance"@,
                ),
                url,
            ),
            hands_out(
                joined_url(
                    self.base_url@,
                    balance_reference(
                        match wallet_address {
                            Some(address) => address@,
                            None => base64::encode(crypto::sha256(self.crypto.modulus())),
                        },
                    ),
                ),
                url,
            ),
    {
        let address = match wallet_address {
            Some(address) => address,
            None => self.crypto.wallet_address().to_string(),
        };
        let mut reference = "wallet/".to_owned();
        reference.append(address.as_str());
        reference.append("/balance");
        self.join(reference.as_str())
    }

    /// Where the price of uploading so many bytes is asked for.
    pub fn price_url(&self, bytes: u64) -> (url: Result<String, Error>)
        ensures
            hands_out(joined_twice(self.base_url@, "price/"@, text::decimal(bytes as nat)), url),
    {
        self.join_twice("price/", text::decimal_text(bytes).as_str())
    }

    /// The price of the first block, and of every further one, from the prices of one block and of
    /// two.
    pub fn price_terms(&self, one_block: u64, two_blocks: u64) -> (terms: (u64, u64))
        requires
            one_block <= two_blocks,
        ensures
            terms.0 == one_block,
            terms.0 + terms.1 == two_blocks,
    {
        (one_block, two_blocks - one_block)
    }

    /// Where a transaction is fetched from.
    pub fn transaction_url(&self, id: &Base64) -> (url: Result<String, Error>)
        ensures
            hands_out(joined_twice(self.base_url@, "tx/"@, base64::encode(id@)), url),
    {
        self.join_twice("tx/", id.to_string().as_str())
    }

    /// Where the transactions that wait to be written are listed.
    pub fn pending_url(&self) -> (url: Result<String, Error>)
        ensures
            hands_out(joined_url(self.base_url@, "tx/pending"@), url),
    {
        self.join("tx/pending")
    }

    /// Where the status of a transaction is asked for.
    pub fn raw_status_url(&self, id: &Base64) -> (url: Result<String, Error>)
        ensures
            hands_out(
                joined_url(self.base_url@, "tx/"@ + base64::encode(id@) + "/status"@),
                url,
            ),
            hands_out(joined_url(self.base_url@, status_reference(id@)), url),
    {
        let mut reference = "tx/".to_owned();
        reference.append(id.to_string().as_str());
        reference.append("/status");
        self.join(reference.as_str())
    }

    /// Where the anchor for a new transaction is asked for.
    pub fn anchor_url(&self) -> (url: Result<String, Error>)
        ensures
            hands_out(joined_url(self.base_url@, "tx_anchor"@), url),
    {
        self.join("tx_anchor")
    }

    /// Makes the transaction that uploads `data`, tagged with the content type that the data gives
    /// away.
    pub fn create_transaction(
        &self,
        data: Vec<u8>,
        other_tags: Option<Vec<Tag<Base64>>>,
        last_tx: LastTx,
        price_terms: (u64, u64),
    ) -> (tx: Result<Transaction, Error>)
        requires
            data@.len() > 0,
            transaction::reward_for(data@.len(), price_terms) <= u64::MAX,
        ensures
            match anchor_bytes(last_tx) {
                Some(anchor) => tx matches Ok(t) && t@ == transaction::upload_of(
                    data@,
                    content::sniffed_type(data@),
                    tags_or_none(other_tags),
                    anchor,
                    price_terms,
                    self.crypto.modulus(),
                ) && merkle::all_well_formed(t.chunks@),
                None => tx == Err::<Transaction, Error>(Error::InvalidBase64),
            },
    {
        let found_type = content::sniff(data.as_slice());
        self.create_transaction_of_type(data, found_type, other_tags, last_tx, price_terms)
    }

    /// Makes the transaction that uploads `data`, given the content type that the data gave away.
    pub fn create_transaction_of_type(
        &self,
        data: Vec<u8>,
        found_type: Option<String>,
        other_tags: Option<Vec<Tag<Base64>>>,
        last_tx: LastTx,
        price_terms: (u64, u64),
    ) -> (tx: Result<Transaction, Error>)
        requires
            data@.len() > 0,
            transaction::reward_for(data@.len(), price_terms) <= u64::MAX,
        ensures
            match anchor_bytes(last_tx) {
                Some(anchor) => tx matches Ok(t) && t@ == transaction::upload_of(
                    data@,
                    views::maybe(found_type),
                    tags_or_none(other_tags),
                    anchor,
                    price_terms,
                    self.crypto.modulus(),
                ) && merkle::all_well_formed(t.chunks@),
                None => tx == Err::<Transaction, Error>(Error::InvalidBase64),
            },
    {
        let anchor = match last_tx {
            LastTx::Given(bytes) => bytes,
            LastTx::Fetched(text) => match Base64::from_str(text.as_str()) {
                Ok(bytes) => {
                    proof {
                        base64::decode_reads_encode(bytes@);
                    }
                    bytes
                },
                Err(e) => {
                    proof {
                        base64::encode_writes_decode(text@);
                    }
                    return Err(e);
                },
            },
        };
        Ok(
            Transaction::upload(
                data,
                found_type,
                other_tags,
                anchor,
                price_terms,
                self.crypto.keypair_modulus(),
            ),
        )
    }

    /// Signs a transaction: the signature is of the deep hash of what the transaction holds, and
    /// the id is the hash of the signature. Which signature comes is a matter of chance.
    pub fn sign_transaction(&self, transaction: Transaction) -> (signed: Result<Transaction, Error>)
        ensures
            match signed {
                Ok(tx) => {
                    let tree = transaction::signing_tree(transaction@);
                    &&& transaction.format == 2
                    &&& crypto::tree_hashable(tree)
                    &&& tx@ == transaction::signed_with(transaction@, tx.signature@)
                    &&& tx.chunks == transaction.chunks
                    &&& tx.id@.len() == 32
                    &&& tx.signature@.len() == self.crypto.modulus().len()
                    &&& self.crypto.signed(crypto::deep_hash_of(tree), tx.signature@)
                },
                Err(e) => if transaction.format != 2 {
                    e == Error::UnsupportedFormat
                } else if !crypto::tree_hashable(transaction::signing_tree(transaction@)) {
                    e == Error::MessageTooLong
                } else {
                    e == Error::SigningFailed
                },
            },
    {
        let item = match transaction.to_deep_hash_item() {
            Ok(item) => item,
            Err(e) => {
                return Err(e);
            },
        };
        let hash = match self.crypto.deep_hash(item) {
            Ok(hash) => hash,
            Err(e) => {
                return Err(e);
            },
        };
        match self.crypto.sign(hash.as_slice()) {
            Ok(signature) => {
                let modulus = self.crypto.keypair_modulus();
                assert(signature@.len() == modulus@.len());
                transaction.with_signature(signature)
            },
            Err(e) => Err(e),
        }
    }

    /// What must be paid, and what is to be signed, for a transaction that is paid for with SOL.
    pub fn sol_request(&self, transaction: &Transaction, terms: SolTerms) -> (request: Result<
        SolRequest,
        Error,
    >)
        requires
            terms.rate != 0,
        ensures
            match request {
                Ok(r) => transaction.format == 2 && r.item@ == transaction::signing_tree(
                    transaction@,
                ) && r.lamports == solana::lamports_for(transaction.reward, terms),
                Err(e) => transaction.format != 2 && e == Error::UnsupportedFormat,
            },
    {
        match transaction.to_deep_hash_item() {
            Ok(item) => Ok(
                SolRequest { lamports: solana::lamports(transaction.reward, terms), item },
            ),
            Err(e) => Err(e),
        }
    }

    /// Where a transaction is to be posted.
    pub fn post_transaction(&self, signed_transaction: &Transaction) -> (url: Result<String, Error>)
        ensures
            match posting(self.base_url@, signed_transaction@) {
                Ok(u) => url matches Ok(found) && found@ == u,
                Err(e) => url == Err::<String, Error>(e),
            },
    {
        if signed_transaction.id.0.len() == 0 {
            return Err(Error::UnsignedTransaction);
        }
        self.join("tx/")
    }

    /// The status of a transaction that the network took, with the file that it uploads.
    pub fn posted_status(
        &self,
        signed_transaction: &Transaction,
        file_path: Option<String>,
        code: u16,
        now: Timestamp,
    ) -> (status: Status)
        requires
            code == 200,
        ensures
            status@ == status::submitted(
                signed_transaction.id@,
                signed_transaction.reward,
                views::maybe(file_path),
                now,
            ),
    {
        Status::submitted(signed_transaction.id.clone(), signed_transaction.reward, file_path, now)
    }

    /// The file in the log directory that a status is written to.
    ///
    /// It is named after the path of the uploaded file, so that there is one status for each file.
    pub fn write_status(&self, status: &Status) -> (name: Result<String, Error>)
        ensures
            match log::status_name(status@) {
                Some(n) => name matches Ok(found) && found@ == n,
                None => name == Err::<String, Error>(Error::UnsignedTransaction),
            },
            forall|dir: Map<Seq<char>, StatusFields>| #[trigger]
                log::written(dir, status@) == match name {
                    Ok(n) => Some(dir.insert(n@, status@)),
                    Err(_) => None,
                },
    {
        log::file_for(status)
    }

    /// The file in the log directory that the status of an uploaded file is read from.
    pub fn status_file(&self, file_path: &str) -> (name: String)
        ensures
            name@ == log::name_by_path(file_path@),
    {
        log::file_by_path(file_path)
    }

    /// The status that was read from the log, if there was one.
    pub fn read_status(&self, found: Option<Status>) -> (status: Result<Status, Error>)
        ensures
            match found {
                Some(s) => status == Ok::<Status, Error>(s),
                None => status == Err::<Status, Error>(Error::StatusNotFound),
            },
            forall|dir: Map<Seq<char>, StatusFields>, file_path: Seq<char>|
                log::found(dir, file_path) == views::maybe(found) ==> #[trigger] log::read(
                    dir,
                    file_path,
                ) == match status {
                    Ok(s) => Ok::<StatusFields, Error>(s@),
                    Err(e) => Err(e),
                },
    {
        match found {
            Some(status) => Ok(status),
            None => Err(Error::StatusNotFound),
        }
    }

    /// A table of how many statuses have which code.
    pub fn status_summary(&self, statuses: &Vec<Status>) -> (summary: String)
        requires
            statuses@.len() <= u32::MAX,
        ensures
            summary@ == status::summary(views::each(statuses@)),
    {
        status::summarize(statuses)
    }

    /// The manifest that leads from the paths of the uploaded files to their ids.
    pub fn write_manifest(&self, statuses: &Vec<Status>) -> (text: String)
        requires
            forall|i: int| 0 <= i < statuses@.len() ==> (#[trigger] statuses@[i]).file_path is Some,
        ensures
            text@ == manifest::manifest_text(views::each(statuses@)),
    {
        manifest::write(statuses)
    }

    /// Takes in what the network answers about an upload: an HTTP status code and a body, of which
    /// `raw_status` is what it holds as JSON, if anything. The new status comes with the file in
    /// the log directory that it is written to.
    pub fn update_status(
        &self,
        status: Status,
        code: u16,
        body: &String,
        raw_status: Option<RawStatus>,
        now: Timestamp,
    ) -> (after: Result<(Status, String), Error>)
        requires
            status::answered(code),
        ensures
            match status::updated(status@, code, body@, views::maybe(raw_status), now) {
                Some(fields) => match log::status_name(fields) {
                    Some(name) => after matches Ok((s, n)) && s@ == fields && n@ == name,
                    None => after == Err::<(Status, String), Error>(Error::UnsignedTransaction),
                },
                None => after == Err::<(Status, String), Error>(Error::Json),
            },
    {
        match status::update(status, code, body, raw_status, now) {
            Ok(after) => match self.write_status(&after) {
                Ok(name) => Ok((after, name)),
                Err(e) => Err(e),
            },
            Err(e) => Err(e),
        }
    }

    /// The statuses that have one of the codes and at most so many confirmations, in their order:
    /// all of them if neither is given. One that the network told nothing about has no
    /// confirmations.
    pub fn filter_statuses(
        &self,
        all_statuses: Vec<Status>,
        statuses: Option<Vec<StatusCode>>,
        max_confirms: Option<u64>,
    ) -> (kept: Vec<Status>)
        ensures
            views::each(kept@) == status::filtered(
                views::each(all_statuses@),
                views::maybe(statuses),
                max_confirms,
            ),
    {
        status::filter(all_statuses, statuses, max_confirms)
    }

    /// Makes a data item, tagged with the content type that the data gives away.
    pub fn create_data_item(&self, data: Vec<u8>, tags: Vec<Tag<String>>) -> (item: Result<
        DataItem,
        Error,
    >)
        ensures
            item matches Ok(i) && i@ == new_item(
                data@,
                content::sniffed_type(data@),
                views::each(tags@),
            ),
    {
        let found_type = content::sniff(data.as_slice());
        self.create_data_item_of_type(data, found_type, tags)
    }

    /// Makes a data item, given the content type that the data gave away.
    pub fn create_data_item_of_type(
        &self,
        data: Vec<u8>,
        found_type: Option<String>,
        tags: Vec<Tag<String>>,
    ) -> (item: Result<DataItem, Error>)
        ensures
            item matches Ok(i) && i@ == new_item(
                data@,
                views::maybe(found_type),
                views::each(tags@),
            ),
    {
        let ghost given = views::each(tags@);
        let ghost standard = content::standard_tags(views::maybe(found_type));
        let content_type = content::content_type_of(found_type);
        let mut tags = tags;
        tags.push(Tag::<String>::from_utf8_strs("Content-Type", content_type.as_str()).unwrap());
        tags.push(
            Tag::<String>::from_utf8_strs(
                "User-Agent",
                content::user_agent_text().as_str(),
            ).unwrap(),
        );
        assert(views::each(tags@) =~= given + standard);
        let mut item = DataItem::default();
        item.data = Base64(data);
        item.tags = tags;
        Ok(item)
    }

    /// Signs a data item with the key pair, which becomes its owner: the signature is of the deep
    /// hash of what the item holds, and the id is the hash of the signature. Which signature comes
    /// is a matter of chance.
    pub fn sign_data_item(&self, data_item: DataItem) -> (signed: Result<DataItem, Error>)
        ensures
            ({
                let owner = self.crypto.modulus();
                let owned = ItemFields { owner, ..data_item@ };
                match signed {
                    Ok(item) => {
                        &&& item@ == item_signed_with(data_item@, owner, item.signature@)
                        &&& item.id@.len() == 32
                        &&& item.signature@.len() == owner.len()
                        &&& bundle::item_signed(owner, self.crypto.exponent(), item@)
                    },
                    Err(e) => if crypto::tree_hashable(bundle::item_tree(owned)) {
                        e == Error::SigningFailed
                    } else {
                        e == Error::MessageTooLong
                    },
                }
            }),
    {
        let mut item = data_item;
        item.owner = self.crypto.keypair_modulus();
        let ghost tree = bundle::item_tree(item@);
        let hash = match self.crypto.deep_hash(item.to_deep_hash_item().unwrap()) {
            Ok(hash) => hash,
            Err(e) => {
                return Err(e);
            },
        };
        match self.crypto.sign(hash.as_slice()) {
            Ok(signature) => {
                assert(signature@.len() == item.owner@.len());
                assert(bundle::item_tree(bundle::signed_with(item@, signature@)) == tree);
                item.with_signature(signature)
            },
            Err(e) => Err(e),
        }
    }

    /// The status of a data item that holds a file, and the file in the log directory that the
    /// status is written to.
    pub fn log_data_item(&self, data_item: &DataItem, file_path: String, now: Timestamp) -> (logged:
        Result<(Status, String), Error>)
        ensures
            match logged {
                Ok((status, name)) => {
                    &&& data_item.id@.len() > 0
                    &&& status@ == status::submitted(data_item.id@, 0, Some(file_path@), now)
                    &&& name@ == log::name_by_path(file_path@)
                },
                Err(e) => data_item.id@.len() == 0 && e == Error::UnsignedTransaction,
            },
    {
        let status = Status::submitted(data_item.id.clone(), 0, Some(file_path), now);
        match self.write_status(&status) {
            Ok(name) => Ok((status, name)),
            Err(e) => Err(e),
        }
    }

    /// Makes a data item of the bytes of a file and signs it. Where it is to be logged, it comes
    /// with its status and the file in the log directory that the status is written to.
    pub fn create_data_item_from_file_path(
        &self,
        file_path: String,
        data: Vec<u8>,
        tags: Vec<Tag<String>>,
        log: bool,
        now: Timestamp,
    ) -> (made: Result<(DataItem, Option<(Status, String)>), Error>)
        ensures
            ({
                let owner = self.crypto.modulus();
                let item = new_item(data@, content::sniffed_type(data@), views::each(tags@));
                let tree = bundle::item_tree(ItemFields { owner, ..item });
                match made {
                    Ok((signed, logged)) => {
                        &&& signed@ == item_signed_with(item, owner, signed.signature@)
                        &&& signed.id@.len() == 32
                        &&& signed.signature@.len() == owner.len()
                        &&& bundle::item_signed(owner, self.crypto.exponent(), signed@)
                        &&& match logged {
                            Some((status, name)) => log && status@ == status::submitted(
                                signed.id@,
                                0,
                                Some(file_path@),
                                now,
                            ) && name@ == log::name_by_path(file_path@),
                            None => !log,
                        }
                    },
                    Err(e) => if crypto::tree_hashable(tree) {
                        e == Error::SigningFailed
                    } else {
                        e == Error::MessageTooLong
                    },
                }
            }),
    {
        let item = self.create_data_item(data, tags).unwrap();
        match self.sign_data_item(item) {
            Ok(signed) => {
                if log {
                    match self.log_data_item(&signed, file_path, now) {
                        Ok(logged) => Ok((signed, Some(logged))),
                        Err(e) => Err(e),
                    }
                } else {
                    Ok((signed, None))
                }
            },
            Err(e) => Err(e),
        }
    }

    /// Puts data items into a bundle.
    pub fn create_bundle_from_data_items(&self, data_items: Vec<DataItem>) -> (bundle: Result<
        Vec<u8>,
        Error,
    >)
        ensures
            bundle matches Ok(b) && b@ == bundle::bundle_bytes(views::each(data_items@)),
    {
        Ok(bundle::write_bundle(&data_items))
    }

    /// What comes of reading a bundle with the key pair.
    pub open spec fn reading(&self, bundle: Seq<u8>) -> Reading {
        bundle::reading(self.crypto.modulus(), self.crypto.exponent(), bundle)
    }

    /// Whether a bundle can be read: it is complete, its header has room for its items, and as far
    /// as they are read, the items are signed with the key pair.
    pub fn bundle_is_readable(&self, bundle: &Vec<u8>) -> (readable: bool)
        ensures
            readable == !(self.reading(bundle@) is Refused),
    {
        bundle::read_bundle(&self.crypto, bundle.as_slice()).is_some()
    }

    /// Reads the data items of a bundle, which are signed with the key pair.
    pub fn deserialize_bundle(&self, bundle: Vec<u8>) -> (data_items: Result<Vec<DataItem>, Error>)
        requires
            !(self.reading(bundle@) is Refused),
        ensures
            match self.reading(bundle@) {
                Reading::Items(items) => data_items matches Ok(found) && views::each(found@)
                    == items,
                _ => data_items == Err::<Vec<DataItem>, Error>(Error::MalformedDataItem),
            },
    {
        bundle::read_bundle(&self.crypto, bundle.as_slice()).unwrap()
    }

    /// Reads the data items of a bundle, if it can be read.
    pub fn try_deserialize_bundle(&self, bundle: Vec<u8>) -> (outcome: Option<
        Result<Vec<DataItem>, Error>,
    >)
        ensures
            match self.reading(bundle@) {
                Reading::Items(items) => outcome matches Some(Ok(found)) && views::each(found@)
                    == items,
                Reading::Malformed => outcome == Some(
                    Err::<Vec<DataItem>, Error>(Error::MalformedDataItem),
                ),
                Reading::Refused => outcome is None,
            },
    {
        if self.bundle_is_readable(&bundle) {
            Some(self.deserialize_bundle(bundle))
        } else {
            None
        }
    }

    /// Makes the transaction that uploads data items in a bundle.
    pub fn create_bundle_transaction(
        &self,
        data_items: Vec<DataItem>,
        last_tx: LastTx,
        price_terms: (u64, u64),
    ) -> (tx: Result<Transaction, Error>)
        requires
            transaction::reward_for(
                bundle::bundle_bytes(views::each(data_items@)).len(),
                price_terms,
            ) <= u64::MAX,
        ensures
            ({
                let bytes = bundle::bundle_bytes(views::each(data_items@));
                match anchor_bytes(last_tx) {
                    Some(anchor) => tx matches Ok(t) && t@ == transaction::upload_of(
                        bytes,
                        content::sniffed_type(bytes),
                        bundle_tags(),
                        anchor,
                        price_terms,
                        self.crypto.modulus(),
                    ) && merkle::all_well_formed(t.chunks@),
                    None => tx == Err::<Transaction, Error>(Error::InvalidBase64),
                }
            }),
    {
        let ghost count = data_items@.len();
        let bytes = bundle::write_bundle(&data_items);
        proof {
            encoding::lemma_le_bytes_len(count, 32);
        }
        let mut tags: Vec<Tag<Base64>> = Vec::new();
        tags.push(Tag::<Base64>::from_utf8_strs("Bundle-Format", "binary").unwrap());
        tags.push(Tag::<Base64>::from_utf8_strs("Bundle-Version", "2.0.0").unwrap());
        assert(views::each(tags@) =~= bundle_tags());
        self.create_transaction(bytes, Some(tags), last_tx, price_terms)
    }
}

/// A URL is handed out if and only if there is one, and it is that one; else the error says that
/// there is none.
pub proof fn urls_are_handed_out_as_resolved(url: Option<Seq<char>>, text: String, error: Error)
    ensures
        hands_out(url, Ok(text)) <==> url == Some(text@),
        hands_out(url, Err(error)) <==> url is None && error == Error::InvalidUrl,
{
}

/// The second of two references is resolved against what the first resolves to.
pub proof fn references_are_resolved_in_turn(
    base: Seq<char>,
    first: Seq<char>,
    second: Seq<char>,
    between: Seq<char>,
)
    ensures
        joined_url(base, first) is None ==> joined_twice(base, first, second) is None,
        joined_url(base, first) == Some(between) ==> joined_twice(base, first, second)
            == joined_url(between, second),
{
}

/// An anchor that was chosen is taken as it is, and one that was fetched is what its text is the
/// Base64 form of.
pub proof fn anchors_are_taken_or_read(chosen: Base64, text: String, bytes: Seq<u8>)
    ensures
        anchor_bytes(LastTx::Given(chosen)) == Some(chosen@),
        anchor_bytes(LastTx::Fetched(text)) == Some(bytes) <==> base64::encode(bytes) == text@,
{
    base64::decode_reads_encode(bytes);
    base64::encode_writes_decode(text@);
}

/// Tags that are missing are none.
pub proof fn missing_tags_are_none(tags: Vec<Tag<Base64>>)
    ensures
        tags_or_none(Some(tags)) == views::each(tags@),
        tags_or_none(None).len() == 0,
{
}

/// A bundle is tagged with its format and the version of the format.
pub proof fn bundles_are_tagged_with_their_format()
    ensures
        bundle_tags().len() == 2,
        bundle_tags()[0] == tag::utf8_tag(Tag { name: "Bundle-Format"@, value: "binary"@ }),
        bundle_tags()[1] == tag::utf8_tag(Tag { name: "Bundle-Version"@, value: "2.0.0"@ }),
{
}

/// A transaction is refused as unsigned if and only if it has no id, whatever else it holds; one
/// with an id goes to the same place whatever it holds.
pub proof fn only_the_id_decides_whether_to_post(base_url: Seq<char>, tx: TransactionFields)
    ensures
        posting(base_url, tx) == Err::<Seq<char>, Error>(Error::UnsignedTransaction)
            <==> tx.id.len() == 0,
        tx.id.len() > 0 ==> match joined_url(base_url, "tx/"@) {
            Some(url) => posting(base_url, tx) == Ok::<Seq<char>, Error>(url),
            None => posting(base_url, tx) == Err::<Seq<char>, Error>(Error::InvalidUrl),
        },
{
}

/// A new data item holds the data, the given tags and then the labels, and nothing else.
pub proof fn new_items_hold_what_they_are_made_of(
    data: Seq<u8>,
    found_type: Option<Seq<char>>,
    tags: Seq<Tag<Seq<char>>>,
)
    ensures
        ({
            let item = new_item(data, found_type, tags);
            let labels = content::standard_tags(found_type);
            &&& item.data == data
            &&& item.id.len() == 0 && item.signature.len() == 0 && item.owner.len() == 0
            &&& item.target.len() == 0 && item.anchor.len() == 0
            &&& item.tags.len() == tags.len() + labels.len()
            &&& item.tags.take(tags.len() as int) == tags
            &&& item.tags.skip(tags.len() as int) == labels
        }),
{
    let item = new_item(data, found_type, tags);
    assert(item.tags.take(tags.len() as int) =~= tags);
    assert(item.tags.skip(tags.len() as int) =~= content::standard_tags(found_type));
}

/// Signing a data item with the key pair sets its owner, its signature and its id, the hash of the
/// signature, and nothing else.
pub proof fn signers_own_what_they_sign(item: ItemFields, owner: Seq<u8>, signature: Seq<u8>)
    ensures
        ({
            let signed = item_signed_with(item, owner, signature);
            &&& signed.owner == owner && signed.signature == signature
            &&& signed.id == crypto::sha256(signature)
            &&& signed.target == item.target && signed.anchor == item.anchor
            &&& signed.tags == item.tags && signed.data == item.data
        }),
{
}

/// Every wallet has a place of its own where its balance is asked for, below the wallets.
pub proof fn balances_are_asked_for_by_address(one: Seq<char>, other: Seq<char>)
    ensures
        balance_reference(one).len() == one.len() + 15,
        balance_reference(one).take(7) == "wallet/"@,
        balance_reference(one).subrange(7, 7int + one.len()) == one,
        balance_reference(one).skip(7int + one.len()) == "/balance"@,
        balance_reference(one) == balance_reference(other) ==> one == other,
{
    reveal_strlit("wallet/");
    reveal_strlit("/balance");
    let (a, b) = (balance_reference(one), balance_reference(other));
    assert(a.take(7) =~= "wallet/"@);
    assert(a.subrange(7, 7int + one.len()) =~= one);
    assert(b.subrange(7, 7int + other.len()) =~= other);
    assert(a.skip(7int + one.len()) =~= "/balance"@);
}

/// Every transaction has a place of its own where its status is asked for, below the transactions.
pub proof fn statuses_are_asked_for_by_id(one: Seq<u8>, other: Seq<u8>)
    ensures
        status_reference(one).len() == base64::encode(one).len() + 10,
        status_reference(one).take(3) == "tx/"@,
        status_reference(one).subrange(3, 3int + base64::encode(one).len()) == base64::encode(one),
        status_reference(one).skip(3int + base64::encode(one).len()) == "/status"@,
        status_reference(one) == status_reference(other) ==> one == other,
{
    reveal_strlit("tx/");
    reveal_strlit("/status");
    let (a, b) = (status_reference(one), status_reference(other));
    assert(a.take(3) =~= "tx/"@);
    assert(a.subrange(3, 3int + base64::encode(one).len()) =~= base64::encode(one));
    assert(b.subrange(3, 3int + base64::encode(other).len()) =~= base64::encode(other));
    assert(a.skip(3int + base64::encode(one).len()) =~= "/status"@);
    base64::decode_reads_encode(one);
    base64::decode_reads_encode(other);
}

} // verus!
