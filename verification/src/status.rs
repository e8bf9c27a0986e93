//! The status of uploads, and reports on it.

use crate::base64::Base64;
use crate::error::Error;
use crate::solana::SigResponse;
use crate::solana::SignatureFields;
use crate::text;
use crate::views;
use vstd::prelude::*;
use vstd::string::StringExecFns;

verus! {

/// How far an upload has come.
#[derive(Debug, Clone, Copy, PartialEq, Eq, Hash, Structural)]
pub enum StatusCode {
    /// It was handed to the network.
    Submitted,
    /// The network knows it and has not written it yet.
    Pending,
    /// The network does not know it.
    NotFound,
    /// The network has written it.
    Confirmed,
}

/// The name of a status code.
pub open spec fn code_name(code: StatusCode) -> Seq<char> {
    match code {
        StatusCode::Submitted => "Submitted"@,
        StatusCode::Pending => "Pending"@,
        StatusCode::NotFound => "NotFound"@,
        StatusCode::Confirmed => "Confirmed"@,
    }
}

impl Default for StatusCode {
    fn default() -> (code: Self)
        ensures
            code == StatusCode::Submitted,
    {
        StatusCode::Submitted
    }
}

impl StatusCode {
    /// The name of the code.
    pub fn to_string(&self) -> (name: String)
        ensures
            name@ == code_name(*self),
    {
        match self {
            StatusCode::Submitted => "Submitted".to_owned(),
            StatusCode::Pending => "Pending".to_owned(),
            StatusCode::NotFound => "NotFound".to_owned(),
            StatusCode::Confirmed => "Confirmed".to_owned(),
        }
    }
}

/// A point in time: seconds since the Unix epoch, and nanoseconds on top.
#[derive(Debug, Clone, Copy, PartialEq, Eq, Structural)]
pub struct Timestamp {
    pub secs: i64,
    pub nanos: u32,
}

/// What the network tells about an upload that it has written.
#[derive(Debug, PartialEq, Eq)]
pub struct RawStatus {
    pub block_height: u64,
    pub block_indep_hash: Base64,
    pub number_of_confirmations: u64,
}

/// What a [`RawStatus`] holds.
pub struct RawStatusFields {
    pub block_height: u64,
    pub block_indep_hash: Seq<u8>,
    pub number_of_confirmations: u64,
}

impl View for RawStatus {
    type V = RawStatusFields;

    open spec fn view(&self) -> RawStatusFields {
        RawStatusFields {
            block_height: self.block_height,
            block_indep_hash: self.block_indep_hash@,
            number_of_confirmations: self.number_of_confirmations,
        }
    }
}

impl Clone for RawStatus {
    fn clone(&self) -> (copy: Self)
        ensures
            copy@ == self@,
    {
        RawStatus {
            block_height: self.block_height,
            block_indep_hash: self.block_indep_hash.clone(),
            number_of_confirmations: self.number_of_confirmations,
        }
    }
}

/// The status of one upload.
#[derive(Debug, PartialEq, Eq)]
pub struct Status {
    pub id: Base64,
    pub status: StatusCode,
    pub file_path: Option<String>,
    pub last_modified: Timestamp,
    pub reward: u64,
    pub raw_status: Option<RawStatus>,
    pub sol_sig: Option<SigResponse>,
}

/// What a [`Status`] holds.
#[verifier::ext_equal]
pub struct StatusFields {
    pub id: Seq<u8>,
    pub status: StatusCode,
    pub file_path: Option<Seq<char>>,
    pub last_modified: Timestamp,
    pub reward: u64,
    pub raw_status: Option<RawStatusFields>,
    pub sol_sig: Option<SignatureFields>,
}

impl View for Status {
    type V = StatusFields;

    open spec fn view(&self) -> StatusFields {
        StatusFields {
            id: self.id@,
            status: self.status,
            file_path: views::maybe(self.file_path),
            last_modified: self.last_modified,
            reward: self.reward,
            raw_status: views::maybe(self.raw_status),
            sol_sig: views::maybe(self.sol_sig),
        }
    }
}

impl Clone for Status {
    fn clone(&self) -> (copy: Self)
        ensures
            copy@ == self@,
    {
        Status {
            id: self.id.clone(),
            status: self.status,
            file_path: match &self.file_path {
                Some(path) => Some(path.clone()),
                None => None,
            },
            last_modified: self.last_modified,
            reward: self.reward,
            raw_status: match &self.raw_status {
                Some(raw) => Some(raw.clone()),
                None => None,
            },
            sol_sig: match &self.sol_sig {
                Some(signature) => Some(signature.clone()),
                None => None,
            },
        }
    }
}

/// The status of an upload that was just handed to the network.
pub open spec fn submitted(
    id: Seq<u8>,
    reward: u64,
    file_path: Option<Seq<char>>,
    now: Timestamp,
) -> StatusFields {
    StatusFields {
        id,
        status: StatusCode::Submitted,
        file_path,
        last_modified: now,
        reward,
        raw_status: None,
        sol_sig: None,
    }
}

impl Status {
    /// The status of an upload that was just handed to the network.
    pub fn submitted(
        id: Base64,
        reward: u64,
        file_path: Option<String>,
        now: Timestamp,
    ) -> (status: Status)
        ensures
            status@ == submitted(id@, reward, views::maybe(file_path), now),
    {
        Status {
            id,
            status: StatusCode::Submitted,
            file_path,
            last_modified: now,
            reward,
            raw_status: None,
            sol_sig: None,
        }
    }
}

/// How often an upload was confirmed: never where the network told nothing about it.
pub open spec fn confirms(status: StatusFields) -> u64 {
    match status.raw_status {
        Some(raw) => raw.number_of_confirmations,
        None => 0,
    }
}

/// Whether a status has one of the codes, where codes are given.
pub open spec fn has_code(status: StatusFields, codes: Option<Seq<StatusCode>>) -> bool {
    codes matches Some(wanted) ==> wanted.contains(status.status)
}

/// Whether a status has at most so many confirmations, where a number is given.
pub open spec fn within_confirms(status: StatusFields, max_confirms: Option<u64>) -> bool {
    max_confirms matches Some(max) ==> confirms(status) <= max
}

/// The statuses that have one of the codes and at most so many confirmations, in their order.
pub open spec fn filtered(
    statuses: Seq<StatusFields>,
    codes: Option<Seq<StatusCode>>,
    max_confirms: Option<u64>,
) -> Seq<StatusFields> {
    statuses.filter(|s: StatusFields| has_code(s, codes) && within_confirms(s, max_confirms))
}

/// Where neither codes nor a number of confirmations are given, every status is kept.
pub proof fn no_criteria_keep_all(statuses: Seq<StatusFields>)
    ensures
        filtered(statuses, None, None) == statuses,
    decreases statuses.len(),
{
    reveal(Seq::filter);
    if statuses.len() > 0 {
        no_criteria_keep_all(statuses.drop_last());
        assert(statuses =~= statuses.drop_last().push(statuses.last()));
    } else {
        assert(statuses =~= Seq::empty());
    }
}

/// Both criteria together keep what the one leaves of what the other kept.
pub proof fn criteria_combine(
    statuses: Seq<StatusFields>,
    codes: Option<Seq<StatusCode>>,
    max_confirms: Option<u64>,
)
    ensures
        filtered(statuses, codes, max_confirms) == filtered(
            filtered(statuses, codes, None),
            None,
            max_confirms,
        ),
    decreases statuses.len(),
{
    reveal(Seq::filter);
    if statuses.len() > 0 {
        criteria_combine(statuses.drop_last(), codes, max_confirms);
        let kept = filtered(statuses.drop_last(), codes, None);
        assert(kept.push(statuses.last()).drop_last() =~= kept);
    }
}

/// A status is kept if and only if it is there and meets the criteria.
pub proof fn kept_iff_it_meets_the_criteria(
    statuses: Seq<StatusFields>,
    codes: Option<Seq<StatusCode>>,
    max_confirms: Option<u64>,
    status: StatusFields,
)
    ensures
        filtered(statuses, codes, max_confirms).contains(status) <==> statuses.contains(status)
            && has_code(status, codes) && within_confirms(status, max_confirms),
    decreases statuses.len(),
{
    reveal(Seq::filter);
    if statuses.len() > 0 {
        let (rest, last) = (statuses.drop_last(), statuses.last());
        kept_iff_it_meets_the_criteria(rest, codes, max_confirms, status);
        assert(statuses =~= rest.push(last));
        assert(rest.push(last).contains(status) <==> rest.contains(status) || status == last) by {
            if status == last {
                assert(rest.push(last)[rest.len() as int] == status);
            }
            if rest.contains(status) {
                let i = rest.index_of(status);
                assert(rest.push(last)[i] == status);
            }
        }
        let kept = filtered(rest, codes, max_confirms);
        assert(kept.push(last).contains(status) <==> kept.contains(status) || status == last) by {
            if status == last {
                assert(kept.push(last)[kept.len() as int] == status);
            }
            if kept.contains(status) {
                let i = kept.index_of(status);
                assert(kept.push(last)[i] == status);
            }
        }
    }
}

/// An upload that the network told nothing about is within any number of confirmations.
pub proof fn unknown_uploads_have_no_confirmations(status: StatusFields, max_confirms: u64)
    requires
        status.raw_status is None,
    ensures
        within_confirms(status, Some(max_confirms)),
{
}

/// The codes of uploads that are not confirmed.
pub open spec fn unconfirmed_codes() -> Seq<StatusCode> {
    seq![StatusCode::Submitted, StatusCode::Pending, StatusCode::NotFound]
}

/// Nothing has to be uploaded again if and only if every upload is confirmed.
pub proof fn nothing_is_left_iff_all_are_confirmed(statuses: Seq<StatusFields>)
    ensures
        filtered(statuses, Some(unconfirmed_codes()), None).len() == 0 <==> forall|i: int|
            0 <= i < statuses.len() ==> (#[trigger] statuses[i]).status == StatusCode::Confirmed,
{
    let codes = unconfirmed_codes();
    let left = filtered(statuses, Some(codes), None);
    assert(codes[0] == StatusCode::Submitted && codes[1] == StatusCode::Pending && codes[2]
        == StatusCode::NotFound);
    assert forall|s: StatusFields| has_code(s, Some(codes)) <==> s.status
        != StatusCode::Confirmed by {
        match s.status {
            StatusCode::Submitted => assert(codes.contains(codes[0])),
            StatusCode::Pending => assert(codes.contains(codes[1])),
            StatusCode::NotFound => assert(codes.contains(codes[2])),
            StatusCode::Confirmed => (),
        }
    }
    if left.len() > 0 {
        kept_iff_it_meets_the_criteria(statuses, Some(codes), None, left[0]);
        assert(left.contains(left[0]));
        let i = statuses.index_of(left[0]);
        assert(statuses[i].status != StatusCode::Confirmed);
    } else {
        assert forall|i: int| 0 <= i < statuses.len() implies (#[trigger] statuses[i]).status
            == StatusCode::Confirmed by {
            kept_iff_it_meets_the_criteria(statuses, Some(codes), None, statuses[i]);
            assert(statuses.contains(statuses[i]));
        }
    }
}

fn any_code(codes: &Vec<StatusCode>, code: StatusCode) -> (found: bool)
    ensures
        found == codes@.contains(code),
{
    let mut i: usize = 0;
    while i < codes.len()
        invariant
            i <= codes.len(),
            forall|j: int| 0 <= j < i ==> codes@[j] != code,
        decreases codes.len() - i,
    {
        if codes[i] == code {
            assert(codes@[i as int] == code);
            return true;
        }
        i = i + 1;
    }
    false
}

/// Whether a status has one of the codes and at most so many confirmations.
pub fn meets(status: &Status, codes: &Option<Vec<StatusCode>>, max_confirms: Option<u64>) -> (kept:
    bool)
    ensures
        kept == (has_code(status@, views::maybe(*codes)) && within_confirms(status@, max_confirms)),
{
    let code_fits = match codes {
        Some(wanted) => any_code(wanted, status.status),
        None => true,
    };
    let confirms_fit = match max_confirms {
        Some(max) => {
            let confirms: u64 = match &status.raw_status {
                Some(raw) => raw.number_of_confirmations,
                None => 0,
            };
            confirms <= max
        },
        None => true,
    };
    code_fits && confirms_fit
}

/// The statuses that have one of the codes and at most so many confirmations, in their order.
pub fn filter(
    statuses: Vec<Status>,
    codes: Option<Vec<StatusCode>>,
    max_confirms: Option<u64>,
) -> (kept: Vec<Status>)
    ensures
        views::each(kept@) == filtered(views::each(statuses@), views::maybe(codes), max_confirms),
{
    let mut kept: Vec<Status> = Vec::new();
    let ghost all = views::each(statuses@);
    let ghost wanted = views::maybe(codes);
    proof {
        reveal(Seq::filter);
        assert(filtered(all.take(0), wanted, max_confirms) =~= Seq::empty());
    }
    for status in it: statuses
        invariant
            all == views::each(it.seq()),
            wanted == views::maybe(codes),
            views::each(kept@) =~= filtered(all.take(it.index() as int), wanted, max_confirms),
    {
        let ghost before = views::each(kept@);
        let ghost seen = status@;
        proof {
            reveal(Seq::filter);
            let longer = all.take(it.index() + 1);
            assert(longer.drop_last() =~= all.take(it.index() as int));
            assert(longer.last() == seen);
        }
        if meets(&status, &codes, max_confirms) {
            kept.push(status);
            assert(views::each(kept@) =~= before.push(seen));
        }
    }
    assert(all.take(all.len() as int) =~= all);
    kept
}

/// How many statuses have a code.
pub open spec fn count(statuses: Seq<StatusFields>, code: StatusCode) -> nat {
    statuses.filter(|s: StatusFields| s.status == code).len()
}

/// Every status is counted under exactly one code.
pub proof fn counts_add_up(statuses: Seq<StatusFields>)
    ensures
        count(statuses, StatusCode::Submitted) + count(statuses, StatusCode::Pending) + count(
            statuses,
            StatusCode::NotFound,
        ) + count(statuses, StatusCode::Confirmed) == statuses.len(),
    decreases statuses.len(),
{
    reveal(Seq::filter);
    if statuses.len() > 0 {
        counts_add_up(statuses.drop_last());
    }
}

/// The line between the parts of a summary.
pub open spec fn rule_line() -> Seq<char> {
    text::fill('-', 29).push('\n')
}

/// The first or the last line of a summary.
pub open spec fn frame_line(name: Seq<char>, value: Seq<char>) -> Seq<char> {
    " "@ + text::left_aligned(name, 15) + "  "@ + text::right_aligned(value, 10) + "\n"@
}

/// The line of a summary for a code.
pub open spec fn code_line(statuses: Seq<StatusFields>, code: StatusCode) -> Seq<char> {
    " "@ + text::left_aligned(code_name(code), 16) + " "@ + text::right_aligned(
        text::decimal(count(statuses, code)),
        10,
    ) + "\n"@
}

/// A table of how many statuses have which code.
pub open spec fn summary(statuses: Seq<StatusFields>) -> Seq<char> {
    frame_line("status"@, "count"@) + rule_line() + code_line(statuses, StatusCode::Submitted)
        + code_line(statuses, StatusCode::Pending) + code_line(statuses, StatusCode::NotFound)
        + code_line(statuses, StatusCode::Confirmed) + rule_line() + frame_line(
        "Total"@,
        text::decimal(statuses.len()),
    )
}

fn count_code(statuses: &Vec<Status>, code: StatusCode) -> (n: u32)
    requires
        statuses@.len() <= u32::MAX,
    ensures
        n == count(views::each(statuses@), code),
{
    let ghost all = views::each(statuses@);
    let mut n: u32 = 0;
    let mut i: usize = 0;
    proof {
        reveal(Seq::filter);
    }
    while i < statuses.len()
        invariant
            i <= statuses.len() <= u32::MAX,
            all == views::each(statuses@),
            n == count(all.take(i as int), code),
            n <= i,
        decreases statuses.len() - i,
    {
        proof {
            reveal(Seq::filter);
            assert(all.take(i + 1).drop_last() =~= all.take(i as int));
        }
        if statuses[i].status == code {
            n = n + 1;
        }
        i = i + 1;
    }
    assert(all.take(i as int) =~= all);
    n
}

fn push_rule_line(out: &mut String)
    ensures
        final(out)@ == old(out)@ + rule_line(),
{
    let ghost start = out@;
    text::push_fill(out, '-', 29);
    out.push('\n');
    assert(out@ =~= start + rule_line());
}

fn push_frame_line(out: &mut String, name: &str, value: &str)
    ensures
        final(out)@ == old(out)@ + frame_line(name@, value@),
{
    let ghost start = out@;
    out.append(" ");
    text::push_left_aligned(out, name, 15);
    out.append("  ");
    text::push_right_aligned(out, value, 10);
    out.append("\n");
    assert(out@ =~= start + frame_line(name@, value@));
}

fn push_code_line(out: &mut String, statuses: &Vec<Status>, code: StatusCode) -> (n: u32)
    requires
        statuses@.len() <= u32::MAX,
    ensures
        final(out)@ == old(out)@ + code_line(views::each(statuses@), code),
        n == count(views::each(statuses@), code),
{
    let ghost start = out@;
    let n: u32 = count_code(statuses, code);
    out.append(" ");
    text::push_left_aligned(out, code.to_string().as_str(), 16);
    out.append(" ");
    text::push_right_aligned(out, text::decimal_text(n as u64).as_str(), 10);
    out.append("\n");
    assert(out@ =~= start + code_line(views::each(statuses@), code));
    n
}

/// A table of how many statuses have which code.
pub fn summarize(statuses: &Vec<Status>) -> (out: String)
    requires
        statuses@.len() <= u32::MAX,
    ensures
        out@ == summary(views::each(statuses@)),
{
    let ghost all = views::each(statuses@);
    let mut out = String::new();
    push_frame_line(&mut out, "status", "count");
    push_rule_line(&mut out);
    proof {
        counts_add_up(all);
    }
    let mut total: u32 = 0;
    let n: u32 = push_code_line(&mut out, statuses, StatusCode::Submitted);
    total = total + n;
    let n: u32 = push_code_line(&mut out, statuses, StatusCode::Pending);
    total = total + n;
    let n: u32 = push_code_line(&mut out, statuses, StatusCode::NotFound);
    total = total + n;
    let n: u32 = push_code_line(&mut out, statuses, StatusCode::Confirmed);
    total = total + n;
    push_rule_line(&mut out);
    push_frame_line(&mut out, "Total", text::decimal_text(total as u64).as_str());
    assert(out@ =~= summary(all));
    out
}

/// Whether the network answers the question for a status with this HTTP status code.
pub open spec fn answered(code: u16) -> bool {
    code == 200 || code == 202 || code == 404
}

/// A status after the network answered with an HTTP status code and a body, of which `raw_status`
/// is what it holds as JSON, if anything. There is none where the body should be JSON and is not.
pub open spec fn updated(
    status: StatusFields,
    code: u16,
    body: Seq<char>,
    raw_status: Option<RawStatusFields>,
    now: Timestamp,
) -> Option<StatusFields> {
    let seen = StatusFields { last_modified: now, ..status };
    if code == 200 && body != "Pending"@ {
        match raw_status {
            Some(raw) => Some(
                StatusFields { status: StatusCode::Confirmed, raw_status: Some(raw), ..seen },
            ),
            None => None,
        }
    } else if code == 404 {
        Some(StatusFields { status: StatusCode::NotFound, ..seen })
    } else {
        Some(StatusFields { status: StatusCode::Pending, ..seen })
    }
}

/// An update keeps what identifies an upload and what it cost, and what the network told about it
/// before unless it tells it anew.
pub proof fn updates_keep_the_upload(
    status: StatusFields,
    code: u16,
    body: Seq<char>,
    raw_status: Option<RawStatusFields>,
    now: Timestamp,
)
    ensures
        updated(status, code, body, raw_status, now) matches Some(after) ==> {
            &&& after.id == status.id
            &&& after.file_path == status.file_path
            &&& after.reward == status.reward
            &&& after.sol_sig == status.sol_sig
            &&& after.last_modified == now
            &&& after.status != StatusCode::Submitted
            &&& after.raw_status == if after.status == StatusCode::Confirmed {
                raw_status
            } else {
                status.raw_status
            }
        },
{
}

/// Takes in what the network answers about an upload.
pub fn update(
    status: Status,
    code: u16,
    body: &String,
    raw_status: Option<RawStatus>,
    now: Timestamp,
) -> (after: Result<Status, Error>)
    requires
        answered(code),
    ensures
        match updated(status@, code, body@, views::maybe(raw_status), now) {
            Some(fields) => after matches Ok(s) && s@ == fields,
            None => after == Err::<Status, Error>(Error::Json),
        },
{
    let mut seen = status;
    seen.last_modified = now;
    if code == 200 {
        let pending = "Pending".to_owned();
        if *body == pending {
            seen.status = StatusCode::Pending;
        } else {
            match raw_status {
                Some(raw) => {
                    seen.raw_status = Some(raw);
                    seen.status = StatusCode::Confirmed;
                },
                None => {
                    return Err(Error::Json);
                },
            }
        }
    } else if code == 202 {
        seen.status = StatusCode::Pending;
    } else {
        seen.status = StatusCode::NotFound;
    }
    Ok(seen)
}

/// The code after an update depends on the answer alone, whatever the status was before: the
/// network does not know the upload, or it waits, or it is written, and then what the network
/// tells about it is kept. Only an answer that should be JSON and is not changes nothing.
pub proof fn the_answer_alone_decides_the_code(
    status: StatusFields,
    code: u16,
    body: Seq<char>,
    raw_status: Option<RawStatusFields>,
    now: Timestamp,
)
    requires
        answered(code),
    ensures
        ({
            let after = updated(status, code, body, raw_status, now);
            &&& after is None <==> code == 200 && body != "Pending"@ && raw_status is None
            &&& code == 404 ==> after.unwrap().status == StatusCode::NotFound
            &&& code == 202 ==> after.unwrap().status == StatusCode::Pending
            &&& code == 200 && body == "Pending"@ ==> after.unwrap().status == StatusCode::Pending
            &&& code == 200 && body != "Pending"@ && raw_status is Some ==> after.unwrap().status
                == StatusCode::Confirmed && after.unwrap().raw_status == raw_status
        }),
{
}

/// These are the HTTP status codes with which the network answers.
pub proof fn three_codes_are_answers(code: u16)
    ensures
        answered(code) <==> code == 200 || code == 202 || code == 404,
{
}

/// A new status names the upload, the file and the cost, and knows nothing more.
pub proof fn new_statuses_are_submitted(
    id: Seq<u8>,
    reward: u64,
    file_path: Option<Seq<char>>,
    now: Timestamp,
)
    ensures
        ({
            let status = submitted(id, reward, file_path, now);
            &&& status.id == id && status.reward == reward
            &&& status.file_path == file_path && status.last_modified == now
            &&& status.status == StatusCode::Submitted
            &&& status.raw_status is None && status.sol_sig is None
        }),
{
}

/// Of one more status, a filter keeps it behind the others if its code is among those that are
/// given, if any are, and it has no more confirmations than are given, if a number is; else it
/// keeps the others alone. Of none it keeps none.
pub proof fn filters_decide_status_by_status(
    statuses: Seq<StatusFields>,
    last: StatusFields,
    codes: Option<Seq<StatusCode>>,
    max_confirms: Option<u64>,
)
    ensures
        filtered(Seq::empty(), codes, max_confirms).len() == 0,
        ({
            let code_fits = match codes {
                Some(wanted) => exists|i: int|
                    0 <= i < wanted.len() && #[trigger] wanted[i] == last.status,
                None => true,
            };
            let confirms_fit = match (max_confirms, last.raw_status) {
                (Some(max), Some(raw)) => raw.number_of_confirmations <= max,
                _ => true,
            };
            filtered(statuses.push(last), codes, max_confirms) == if code_fits && confirms_fit {
                filtered(statuses, codes, max_confirms).push(last)
            } else {
                filtered(statuses, codes, max_confirms)
            }
        }),
{
    reveal(Seq::filter);
    assert(statuses.push(last).drop_last() =~= statuses);
    if let Some(wanted) = codes {
        if wanted.contains(last.status) {
            let i = wanted.index_of(last.status);
            assert(wanted[i] == last.status);
        }
    }
}

/// One more status counts once, under its own code.
pub proof fn statuses_count_once(statuses: Seq<StatusFields>, last: StatusFields, code: StatusCode)
    ensures
        count(Seq::empty(), code) == 0,
        count(statuses.push(last), code) == count(statuses, code) + if last.status == code {
            1nat
        } else {
            0
        },
{
    reveal(Seq::filter);
    assert(statuses.push(last).drop_last() =~= statuses);
}

/// The codes are called what they are.
pub proof fn codes_have_their_names()
    ensures
        code_name(StatusCode::Submitted) == "Submitted"@,
        code_name(StatusCode::Pending) == "Pending"@,
        code_name(StatusCode::NotFound) == "NotFound"@,
        code_name(StatusCode::Confirmed) == "Confirmed"@,
{
}

proof fn lemma_frame_lines(value: Seq<char>)
    ensures
        frame_line("status"@, "count"@) == " status                count\n"@,
        rule_line() == "-----------------------------\n"@,
        frame_line("Total"@, value) == " Total            "@ + text::right_aligned(value, 10)
            + "\n"@,
{
    reveal_strlit(" ");
    reveal_strlit("  ");
    reveal_strlit("\n");
    reveal_strlit("status");
    reveal_strlit("count");
    reveal_strlit("Total");
    reveal_strlit(" status                count\n");
    reveal_strlit("-----------------------------\n");
    reveal_strlit(" Total            ");
    assert(frame_line("status"@, "count"@) =~= " status                count\n"@);
    assert(rule_line() =~= "-----------------------------\n"@);
    assert(" "@ + text::left_aligned("Total"@, 15) + "  "@ =~= " Total            "@);
}

proof fn lemma_code_lines(statuses: Seq<StatusFields>)
    ensures
        code_line(statuses, StatusCode::Submitted) == " Submitted        "@
            + text::right_aligned(text::decimal(count(statuses, StatusCode::Submitted)), 10)
            + "\n"@,
        code_line(statuses, StatusCode::Pending) == " Pending          "@ + text::right_aligned(
            text::decimal(count(statuses, StatusCode::Pending)),
            10,
        ) + "\n"@,
        code_line(statuses, StatusCode::NotFound) == " NotFound         "@ + text::right_aligned(
            text::decimal(count(statuses, StatusCode::NotFound)),
            10,
        ) + "\n"@,
        code_line(statuses, StatusCode::Confirmed) == " Confirmed        "@ + text::right_aligned(
            text::decimal(count(statuses, StatusCode::Confirmed)),
            10,
        ) + "\n"@,
{
    reveal_strlit(" ");
    reveal_strlit("Submitted");
    reveal_strlit("Pending");
    reveal_strlit("NotFound");
    reveal_strlit("Confirmed");
    reveal_strlit(" Submitted        ");
    reveal_strlit(" Pending          ");
    reveal_strlit(" NotFound         ");
    reveal_strlit(" Confirmed        ");
    assert(" "@ + text::left_aligned("Submitted"@, 16) + " "@ =~= " Submitted        "@);
    assert(" "@ + text::left_aligned("Pending"@, 16) + " "@ =~= " Pending          "@);
    assert(" "@ + text::left_aligned("NotFound"@, 16) + " "@ =~= " NotFound         "@);
    assert(" "@ + text::left_aligned("Confirmed"@, 16) + " "@ =~= " Confirmed        "@);
}

/// A summary is a table with a line for every code and one for all statuses, their numbers in a
/// column of ten characters.
pub proof fn summaries_are_tables(statuses: Seq<StatusFields>)
    ensures
        ({
            let cell = |n: nat| text::right_aligned(text::decimal(n), 10) + "\n"@;
            summary(statuses) == " status                count\n"@
                + "-----------------------------\n"@ + (" Submitted        "@ + cell(
                count(statuses, StatusCode::Submitted),
            )) + (" Pending          "@ + cell(count(statuses, StatusCode::Pending))) + (
            " NotFound         "@ + cell(count(statuses, StatusCode::NotFound))) + (
            " Confirmed        "@ + cell(count(statuses, StatusCode::Confirmed)))
                + "-----------------------------\n"@ + (" Total            "@ + cell(
                statuses.len(),
            ))
        }),
{
    lemma_frame_lines(text::decimal(statuses.len()));
    lemma_code_lines(statuses);
    let end = "\n"@;
    let number = |n: nat| text::right_aligned(text::decimal(n), 10);
    assert forall|name: Seq<char>, n: nat| #[trigger] (name + number(n) + end) == name + (number(n)
        + end) by {
        assert(name + number(n) + end =~= name + (number(n) + end));
    }
    assert(code_line(statuses, StatusCode::Submitted) == " Submitted        "@ + number(
        count(statuses, StatusCode::Submitted),
    ) + end);
    assert(code_line(statuses, StatusCode::Pending) == " Pending          "@ + number(
        count(statuses, StatusCode::Pending),
    ) + end);
    assert(code_line(statuses, StatusCode::NotFound) == " NotFound         "@ + number(
        count(statuses, StatusCode::NotFound),
    ) + end);
    assert(code_line(statuses, StatusCode::Confirmed) == " Confirmed        "@ + number(
        count(statuses, StatusCode::Confirmed),
    ) + end);
    assert(frame_line("Total"@, text::decimal(statuses.len())) == " Total            "@ + number(
        statuses.len(),
    ) + end);
}

/// Every field of a status counts, and of what the network told.
pub proof fn every_field_of_a_status_counts(status: Status, raw: RawStatus)
    ensures
        status@.id == status.id.0@,
        status@.status == status.status,
        status@.file_path == views::maybe(status.file_path),
        status@.last_modified == status.last_modified,
        status@.reward == status.reward,
        status@.raw_status == views::maybe(status.raw_status),
        status@.sol_sig == views::maybe(status.sol_sig),
        raw@.block_height == raw.block_height,
        raw@.block_indep_hash == raw.block_indep_hash.0@,
        raw@.number_of_confirmations == raw.number_of_confirmations,
{
}

} // verus!
