//! The way of one file from the disk to the network and into the log.
//!
//! Every step but the first takes what came of the outside work that the step before asked for.

use crate::arweave;
use crate::arweave::{Arweave, LastTx, SolRequest};
use crate::base64;
use crate::base64::Base64;
use crate::content;
use crate::crypto;
use crate::error::Error;
use crate::log;
use crate::merkle;
use crate::solana;
use crate::solana::{SigResponse, SolTerms};
use crate::status;
use crate::status::{Status, StatusFields, Timestamp};
use crate::tag;
use crate::tag::Tag;
use crate::transaction;
use crate::transaction::{Transaction, TransactionFields};
use crate::views;
use vstd::prelude::*;

verus! {

/// Who signs a transaction, and what is paid with.
#[derive(Debug, Clone, Copy)]
pub enum Payment {
    /// The uploader's own key pair.
    Winstons,
    /// A service that takes SOL.
    Sol(SolTerms),
}

/// What is to be uploaded, and how.
#[derive(Debug)]
pub struct Order {
    pub file_path: String,
    /// Whether the status of the upload is logged.
    pub log: bool,
    pub tags: Option<Vec<Tag<Base64>>>,
    pub last_tx: Option<Base64>,
    pub price_terms: (u64, u64),
    pub payment: Payment,
}

/// How far an upload has come, and what it waits for.
#[derive(Debug)]
pub enum Stage {
    /// It waits for an anchor, which is fetched from `url`.
    Anchor { order: Order, data: Vec<u8>, url: String },
    /// It waits for a signature that is bought with SOL.
    Pay { order: Order, transaction: Transaction, request: SolRequest },
    /// It waits for the network, to which the transaction is posted at `url`.
    Post {
        file_path: String,
        log: bool,
        transaction: Transaction,
        sol_sig: Option<SigResponse>,
        url: String,
    },
    /// It waits for the status to be written to a file in the log directory.
    Log { status: Status, file_name: String },
    /// It is done.
    Done { status: Status },
}

impl Order {
    /// Whether data can be uploaded on the terms of the order.
    pub open spec fn affordable(&self, data: Seq<u8>) -> bool {
        &&& data.len() > 0
        &&& transaction::reward_for(data.len(), self.price_terms) <= u64::MAX
        &&& self.payment matches Payment::Sol(terms) ==> terms.rate != 0
    }

    /// Whether data can be uploaded on the terms of the order.
    pub fn can_afford(&self, data: &Vec<u8>) -> (affordable: bool)
        ensures
            affordable == self.affordable(data@),
    {
        let priced = transaction::checked_reward(data.len() as u64, self.price_terms).is_some();
        let rated = match self.payment {
            Payment::Winstons => true,
            Payment::Sol(terms) => terms.rate != 0,
        };
        priced && rated
    }

    /// The transaction for data that is uploaded with the order, before it is signed.
    pub open spec fn transaction_for(
        &self,
        data: Seq<u8>,
        last_tx: Seq<u8>,
        owner: Seq<u8>,
    ) -> TransactionFields {
        transaction::upload_of(
            data,
            content::sniffed_type(data),
            arweave::tags_or_none(self.tags),
            last_tx,
            self.price_terms,
            owner,
        )
    }
}

impl Stage {
    /// Whether a transaction is posted where it should be, for the file that was ordered.
    pub open spec fn posts(
        &self,
        base_url: Seq<char>,
        order: Order,
        tx: TransactionFields,
        response: Option<SigResponse>,
    ) -> bool {
        match *self {
            Stage::Post { file_path, log, transaction, sol_sig, url } => {
                &&& file_path == order.file_path
                &&& log == order.log
                &&& transaction@ == tx
                &&& sol_sig == response
                &&& arweave::posting(base_url, tx) == Ok::<Seq<char>, Error>(url@)
            },
            _ => false,
        }
    }

    /// Whether the chunks of the transaction, where there is one, hold the hashes and the ranges
    /// of what they stand for.
    pub open spec fn chunks_well_formed(&self) -> bool {
        match *self {
            Stage::Pay { transaction, .. } => merkle::all_well_formed(transaction.chunks@),
            Stage::Post { transaction, .. } => merkle::all_well_formed(transaction.chunks@),
            _ => true,
        }
    }
}

/// The status of an upload that the network took, as it is handed out: what was paid with SOL is
/// added if the status is logged.
pub open spec fn final_status(
    tx: TransactionFields,
    file_path: Seq<char>,
    log: bool,
    sol_sig: Option<SigResponse>,
    now: Timestamp,
) -> StatusFields {
    let status = status::submitted(tx.id, tx.reward, Some(file_path), now);
    if log {
        StatusFields { sol_sig: views::maybe(sol_sig), ..status }
    } else {
        status
    }
}

impl Arweave {
    /// What becomes of a transaction that was made for an order: it is signed with the key pair
    /// and goes to the network, or it waits for a signature that is bought with SOL.
    pub open spec fn proceeds(
        &self,
        order: Order,
        tx: TransactionFields,
        next: Result<Stage, Error>,
    ) -> bool {
        let tree = transaction::signing_tree(tx);
        &&& next matches Ok(stage) ==> stage.chunks_well_formed()
        &&& match order.payment {
            Payment::Winstons => match next {
                Ok(stage) => exists|signature: Seq<u8>|
                    {
                        &&& #[trigger] self.crypto.signed(crypto::deep_hash_of(tree), signature)
                        &&& crypto::tree_hashable(tree)
                        &&& signature.len() == self.crypto.modulus().len()
                        &&& transaction::signed_with(tx, signature).id.len() == 32
                        &&& stage.posts(
                            self.base_url@,
                            order,
                            transaction::signed_with(tx, signature),
                            None,
                        )
                    },
                Err(e) => if !crypto::tree_hashable(tree) {
                    e == Error::MessageTooLong
                } else {
                    ||| e == Error::SigningFailed
                    ||| e == Error::InvalidUrl && arweave::joined_url(
                        self.base_url@,
                        "tx/"@,
                    ) is None
                },
            },
            Payment::Sol(terms) => match next {
                Ok(Stage::Pay { order: kept, transaction, request }) => {
                    &&& kept == order
                    &&& transaction@ == tx
                    &&& request.item@ == tree
                    &&& request.lamports == solana::lamports_for(tx.reward, terms)
                },
                _ => false,
            },
        }
    }

    /// Takes the bytes of the file that was ordered. Where the order names no anchor, one has to
    /// be fetched.
    pub fn upload_file_from_path(&self, order: Order, data: Vec<u8>) -> (next: Result<Stage, Error>)
        requires
            order.affordable(data@),
        ensures
            match order.last_tx {
                Some(last_tx) => self.proceeds(
                    order,
                    order.transaction_for(data@, last_tx@, self.crypto.modulus()),
                    next,
                ),
                None => match arweave::joined_url(self.base_url@, "tx_anchor"@) {
                    Some(u) => next matches Ok(Stage::Anchor { order: kept, data: held, url })
                        && kept == order && held == data && url@ == u,
                    None => next == Err::<Stage, Error>(Error::InvalidUrl),
                },
            },
    {
        match &order.last_tx {
            Some(last_tx) => {
                let chosen = LastTx::Given(last_tx.clone());
                self.make_transaction(order, data, chosen)
            },
            None => match self.anchor_url() {
                Ok(url) => Ok(Stage::Anchor { order, data, url }),
                Err(e) => Err(e),
            },
        }
    }

    /// Takes the anchor that was fetched, in its textual form.
    pub fn anchor_fetched(&self, order: Order, data: Vec<u8>, anchor: String) -> (next: Result<
        Stage,
        Error,
    >)
        requires
            order.affordable(data@),
        ensures
            match base64::decode(anchor@) {
                Some(last_tx) => self.proceeds(
                    order,
                    order.transaction_for(data@, last_tx, self.crypto.modulus()),
                    next,
                ),
                None => next == Err::<Stage, Error>(Error::InvalidBase64),
            },
    {
        self.make_transaction(order, data, LastTx::Fetched(anchor))
    }

    fn make_transaction(&self, order: Order, data: Vec<u8>, last_tx: LastTx) -> (next: Result<
        Stage,
        Error,
    >)
        requires
            order.affordable(data@),
        ensures
            match arweave::anchor_bytes(last_tx) {
                Some(anchor) => self.proceeds(
                    order,
                    order.transaction_for(data@, anchor, self.crypto.modulus()),
                    next,
                ),
                None => next == Err::<Stage, Error>(Error::InvalidBase64),
            },
    {
        let tags = match &order.tags {
            Some(tags) => Some(tag::copy_bytes(tags)),
            None => None,
        };
        let made = self.create_transaction(data, tags, last_tx, order.price_terms);
        let transaction = match made {
            Ok(transaction) => transaction,
            Err(e) => {
                return Err(e);
            },
        };
        match order.payment {
            Payment::Winstons => match self.sign_transaction(transaction) {
                Ok(signed) => {
                    assert(self.crypto.signed(
                        crypto::deep_hash_of(transaction::signing_tree(transaction@)),
                        signed.signature@,
                    ));
                    self.transaction_signed(order, signed, None)
                },
                Err(e) => Err(e),
            },
            Payment::Sol(terms) => match self.sol_request(&transaction, terms) {
                Ok(request) => Ok(Stage::Pay { order, transaction, request }),
                Err(e) => Err(e),
            },
        }
    }

    /// Takes the signature that was bought with SOL.
    pub fn upload_file_from_path_with_sol(
        &self,
        order: Order,
        transaction: Transaction,
        response: SigResponse,
    ) -> (next: Result<Stage, Error>)
        ensures
            ({
                let signed = transaction::sol_signed_with(transaction@, response@);
                match arweave::posting(self.base_url@, signed) {
                    Ok(_) => next matches Ok(stage) && stage.posts(
                        self.base_url@,
                        order,
                        signed,
                        Some(response),
                    ),
                    Err(e) => next == Err::<Stage, Error>(e),
                }
            }),
    {
        let signed = transaction.with_sol_signature(&response);
        self.transaction_signed(order, signed, Some(response))
    }

    /// Takes a transaction that was signed for an order, with what was bought with SOL, if
    /// anything.
    pub fn transaction_signed(
        &self,
        order: Order,
        signed: Transaction,
        sol_sig: Option<SigResponse>,
    ) -> (next: Result<Stage, Error>)
        ensures
            match arweave::posting(self.base_url@, signed@) {
                Ok(_) => next matches Ok(stage) && stage.posts(
                    self.base_url@,
                    order,
                    signed@,
                    sol_sig,
                ),
                Err(e) => next == Err::<Stage, Error>(e),
            },
            next matches Ok(Stage::Post { transaction, .. }) ==> transaction == signed,
    {
        match self.post_transaction(&signed) {
            Ok(url) => Ok(
                Stage::Post {
                    file_path: order.file_path,
                    log: order.log,
                    transaction: signed,
                    sol_sig,
                    url,
                },
            ),
            Err(e) => Err(e),
        }
    }

    /// Takes the HTTP status code with which the network answered. The status of the upload is
    /// logged if that was ordered.
    pub fn posted(
        &self,
        file_path: String,
        log: bool,
        transaction: &Transaction,
        sol_sig: Option<SigResponse>,
        code: u16,
        now: Timestamp,
    ) -> (next: Result<Stage, Error>)
        requires
            code == 200,
        ensures
            ({
                let after = final_status(transaction@, file_path@, log, sol_sig, now);
                if log {
                    match log::status_name(after) {
                        Some(name) => next matches Ok(Stage::Log { status, file_name }) && status@
                            == after && file_name@ == name,
                        None => next == Err::<Stage, Error>(Error::UnsignedTransaction),
                    }
                } else {
                    next matches Ok(Stage::Done { status }) && status@ == after
                }
            }),
    {
        let mut status = self.posted_status(transaction, Some(file_path), code, now);
        if log {
            status.sol_sig = sol_sig;
            match self.write_status(&status) {
                Ok(file_name) => Ok(Stage::Log { status, file_name }),
                Err(e) => Err(e),
            }
        } else {
            Ok(Stage::Done { status })
        }
    }
}

/// Whatever is posted was signed.
pub proof fn only_signed_transactions_are_posted(
    stage: Stage,
    base_url: Seq<char>,
    order: Order,
    tx: TransactionFields,
    response: Option<SigResponse>,
)
    requires
        stage.posts(base_url, order, tx, response),
    ensures
        tx.id.len() > 0,
{
}

/// The status of an upload that was posted can be logged, and is found again by the path of the
/// file.
pub proof fn posted_uploads_are_logged_by_path(
    tx: TransactionFields,
    file_path: Seq<char>,
    sol_sig: Option<SigResponse>,
    now: Timestamp,
)
    requires
        tx.id.len() > 0,
    ensures
        log::status_name(final_status(tx, file_path, true, sol_sig, now)) == Some(
            log::name_by_path(file_path),
        ),
{
}

/// What an [`Order`] says.
#[verifier::ext_equal]
pub struct OrderFields {
    pub file_path: Seq<char>,
    pub log: bool,
    pub tags: Option<Seq<Tag<Seq<u8>>>>,
    pub last_tx: Option<Seq<u8>>,
    pub price_terms: (u64, u64),
    pub payment: Payment,
}

/// What tags that may be missing hold.
pub open spec fn tag_fields(tags: Option<Vec<Tag<Base64>>>) -> Option<Seq<Tag<Seq<u8>>>> {
    match tags {
        Some(t) => Some(views::each(t@)),
        None => None,
    }
}

impl View for Order {
    type V = OrderFields;

    open spec fn view(&self) -> OrderFields {
        OrderFields {
            file_path: self.file_path@,
            log: self.log,
            tags: tag_fields(self.tags),
            last_tx: views::maybe(self.last_tx),
            price_terms: self.price_terms,
            payment: self.payment,
        }
    }
}

/// How many files are uploaded: as many as there are paths and, where tags are given, tags for
/// them.
pub open spec fn ordered(paths: nat, tags: Option<nat>) -> nat {
    match tags {
        Some(lists) => if lists < paths {
            lists
        } else {
            paths
        },
        None => paths,
    }
}

/// Where there are as many lists of tags as paths, every file is uploaded.
pub proof fn every_path_is_ordered(paths: nat)
    ensures
        ordered(paths, Some(paths)) == paths,
        ordered(paths, None) == paths,
{
}

impl Arweave {
    /// The orders for several files: each path goes with the tags at its place, and all of them
    /// share the rest.
    pub fn upload_files_from_paths(
        &self,
        paths: &Vec<String>,
        log: bool,
        tags: &Option<Vec<Option<Vec<Tag<Base64>>>>>,
        last_tx: &Option<Base64>,
        price_terms: (u64, u64),
    ) -> (orders: Vec<Order>)
        ensures
            orders@.len() == ordered(
                paths@.len(),
                match *tags {
                    Some(lists) => Some(lists@.len()),
                    None => None,
                },
            ),
            forall|i: int|
                0 <= i < orders@.len() ==> (#[trigger] orders@[i])@ == (OrderFields {
                    file_path: paths@[i]@,
                    log,
                    tags: match *tags {
                        Some(lists) => tag_fields(lists@[i]),
                        None => None,
                    },
                    last_tx: views::maybe(*last_tx),
                    price_terms,
                    payment: Payment::Winstons,
                }),
    {
        let mut count: usize = paths.len();
        if let Some(lists) = tags {
            if lists.len() < count {
                count = lists.len();
            }
        }
        let mut orders: Vec<Order> = Vec::new();
        let mut i: usize = 0;
        while i < count
            invariant
                i <= count <= paths@.len(),
                tags matches Some(lists) ==> count <= lists@.len(),
                orders@.len() == i,
                forall|j: int|
                    0 <= j < i ==> (#[trigger] orders@[j])@ == (OrderFields {
                        file_path: paths@[j]@,
                        log,
                        tags: match *tags {
                            Some(lists) => tag_fields(lists@[j]),
                            None => None,
                        },
                        last_tx: views::maybe(*last_tx),
                        price_terms,
                        payment: Payment::Winstons,
                    }),
            decreases count - i,
        {
            let list = match tags {
                Some(lists) => match &lists[i] {
                    Some(list) => Some(tag::copy_bytes(list)),
                    None => None,
                },
                None => None,
            };
            orders.push(
                Order {
                    file_path: paths[i].clone(),
                    log,
                    tags: list,
                    last_tx: match last_tx {
                        Some(anchor) => Some(anchor.clone()),
                        None => None,
                    },
                    price_terms,
                    payment: Payment::Winstons,
                },
            );
            i = i + 1;
        }
        orders
    }
}

/// Data can be uploaded if and only if there is any, its cost can be written down, and SOL buys
/// something where it is paid with.
pub proof fn uploads_must_be_payable(order: Order, data: Seq<u8>)
    ensures
        order.affordable(data) <==> {
            &&& data.len() > 0
            &&& order.price_terms.0 + order.price_terms.1 * (transaction::blocks(data.len()) - 1)
                <= u64::MAX
            &&& match order.payment {
                Payment::Winstons => true,
                Payment::Sol(terms) => terms.rate > 0,
            }
        },
{
}

/// The transaction for an order is the upload of the data with the tags and at the price of the
/// order.
pub proof fn orders_decide_tags_and_price(
    order: Order,
    data: Seq<u8>,
    last_tx: Seq<u8>,
    owner: Seq<u8>,
)
    ensures
        order.transaction_for(data, last_tx, owner) == transaction::upload_of(
            data,
            content::sniffed_type(data),
            match order.tags {
                Some(tags) => views::each(tags@),
                None => Seq::empty(),
            },
            last_tx,
            order.price_terms,
            owner,
        ),
{
}

/// What is posted for an order is the transaction, for the file and with the log of the order, at
/// the place for transactions.
pub proof fn posts_are_what_was_ordered(
    stage: Stage,
    base_url: Seq<char>,
    order: Order,
    tx: TransactionFields,
    response: Option<SigResponse>,
)
    requires
        stage.posts(base_url, order, tx, response),
    ensures
        match stage {
            Stage::Post { file_path, log, transaction, sol_sig, url } => {
                &&& file_path@ == order.file_path@ && log == order.log
                &&& transaction@ == tx && sol_sig == response
                &&& arweave::joined_url(base_url, "tx/"@) == Some(url@)
                &&& transaction.id@.len() > 0
            },
            _ => false,
        },
{
}

/// A transaction that is paid for with winstons goes to the network with a signature of what it
/// holds and the hash of that signature as its id, and is otherwise what was made for the order.
pub proof fn winstons_are_paid_with_a_signature(
    uploader: Arweave,
    order: Order,
    tx: TransactionFields,
    stage: Stage,
)
    requires
        order.payment == Payment::Winstons,
        uploader.proceeds(order, tx, Ok(stage)),
    ensures
        match stage {
            Stage::Post { file_path, log, transaction, sol_sig, .. } => {
                let sent = transaction@;
                &&& file_path@ == order.file_path@ && log == order.log && sol_sig is None
                &&& sent.id == crypto::sha256(sent.signature) && sent.id.len() == 32
                &&& uploader.crypto.signed(
                    crypto::deep_hash_of(transaction::signing_tree(tx)),
                    sent.signature,
                )
                &&& sent.owner == tx.owner && sent.tags == tx.tags && sent.data == tx.data
                &&& sent.data_root == tx.data_root && sent.data_size == tx.data_size
                &&& sent.reward == tx.reward && sent.last_tx == tx.last_tx
                &&& sent.format == tx.format && sent.target == tx.target
                &&& sent.quantity == tx.quantity && sent.chunks == tx.chunks
                &&& sent.proofs == tx.proofs
            },
            _ => false,
        },
{
}

/// A transaction that is paid for with SOL waits as it was made for the order, with a request for
/// a signature of what it holds; what is asked for it is the greater of its reward at the rate and
/// the floor.
pub proof fn sol_is_asked_for_by_the_terms(
    uploader: Arweave,
    order: Order,
    tx: TransactionFields,
    next: Result<Stage, Error>,
    terms: SolTerms,
)
    requires
        order.payment == Payment::Sol(terms),
        terms.rate > 0,
        uploader.proceeds(order, tx, next),
    ensures
        match next {
            Ok(Stage::Pay { order: kept, transaction, request }) => {
                &&& kept == order && transaction@ == tx
                &&& request.item@ == transaction::signing_tree(tx)
                &&& request.lamports >= terms.floor
                &&& request.lamports >= tx.reward / terms.rate
                &&& request.lamports == terms.floor || request.lamports == tx.reward / terms.rate
            },
            _ => false,
        },
{
    solana::lamports_are_the_greater_of_price_and_floor(tx.reward, terms);
}

/// The status that an upload ends with names the transaction, its cost and the file, is that of an
/// upload that was just handed over, and tells of SOL if and only if it is logged and SOL was paid.
pub proof fn uploads_end_submitted(
    tx: TransactionFields,
    file_path: Seq<char>,
    log: bool,
    sol_sig: Option<SigResponse>,
    now: Timestamp,
)
    ensures
        ({
            let status = final_status(tx, file_path, log, sol_sig, now);
            &&& status.id == tx.id && status.reward == tx.reward
            &&& status.file_path == Some(file_path) && status.last_modified == now
            &&& status.status == status::StatusCode::Submitted && status.raw_status is None
            &&& status.sol_sig is Some <==> log && sol_sig is Some
            &&& status.sol_sig is Some ==> status.sol_sig == views::maybe(sol_sig)
        }),
{
}

/// As many files are uploaded as there are paths, or as there are tags for them if those are fewer.
pub proof fn the_shorter_list_decides(paths: nat, lists: nat)
    ensures
        ordered(paths, None) == paths,
        ordered(paths, Some(lists)) <= paths,
        ordered(paths, Some(lists)) <= lists,
        ordered(paths, Some(lists)) == paths || ordered(paths, Some(lists)) == lists,
{
}

/// Every field of an order counts.
pub proof fn every_field_of_an_order_counts(order: Order)
    ensures
        order@.file_path == order.file_path@,
        order@.log == order.log,
        match (order.tags, order@.tags) {
            (Some(tags), Some(fields)) => fields == views::each(tags@),
            (None, None) => true,
            _ => false,
        },
        order@.last_tx == views::maybe(order.last_tx),
        order@.price_terms == order.price_terms,
        order@.payment == order.payment,
{
}

} // verus!
