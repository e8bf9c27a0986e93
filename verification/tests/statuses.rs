use arloader::base64::Base64;
use arloader::error::Error;
use arloader::log::{file_by_id, file_by_path, file_for, json_file};
use arloader::manifest;
use arloader::solana::SigResponse;
use arloader::status::{
    filter, meets, summarize, update, RawStatus, Status, StatusCode, Timestamp,
};

const NOW: Timestamp = Timestamp { secs: 1634000000, nanos: 5 };
const LATER: Timestamp = Timestamp { secs: 1634000099, nanos: 0 };

fn status(path: &str, code: StatusCode, confirms: Option<u64>) -> Status {
    let mut status =
        Status::submitted(Base64(path.as_bytes().to_vec()), 7, Some(path.to_string()), NOW);
    status.status = code;
    status.raw_status = confirms.map(raw);
    status
}

fn raw(confirms: u64) -> RawStatus {
    RawStatus {
        block_height: 100,
        block_indep_hash: Base64(vec![1, 2, 3]),
        number_of_confirmations: confirms,
    }
}

fn several() -> Vec<Status> {
    vec![
        status("a", StatusCode::Submitted, None),
        status("b", StatusCode::Confirmed, Some(30)),
        status("c", StatusCode::NotFound, None),
        status("d", StatusCode::Confirmed, Some(5)),
        status("e", StatusCode::Pending, None),
        status("f", StatusCode::Confirmed, Some(25)),
    ]
}

fn paths(statuses: &[Status]) -> String {
    statuses.iter().map(|s| s.file_path.clone().unwrap()).collect()
}

#[test]
fn statuses_are_counted_by_code() {
    let expected = " status                count\n\
                    -----------------------------\n \
                    Submitted                 1\n \
                    Pending                   1\n \
                    NotFound                  1\n \
                    Confirmed                 3\n\
                    -----------------------------\n \
                    Total                     6\n";
    assert_eq!(summarize(&several()), expected);
}

#[test]
fn a_summary_is_laid_out_like_a_table() {
    let rule = format!("{:-<29}\n", "");
    let expected = format!(" {:<15}  {:>10}\n", "status", "count")
        + &rule
        + &format!(" {:<16} {:>10}\n", "Submitted", 0)
        + &format!(" {:<16} {:>10}\n", "Pending", 0)
        + &format!(" {:<16} {:>10}\n", "NotFound", 0)
        + &format!(" {:<16} {:>10}\n", "Confirmed", 0)
        + &rule
        + &format!(" {:<15}  {:>10}\n", "Total", 0);
    assert_eq!(summarize(&Vec::new()), expected);
}

#[test]
fn status_codes_have_names() {
    assert_eq!(StatusCode::default(), StatusCode::Submitted);
    let names: Vec<String> = [
        StatusCode::Submitted,
        StatusCode::Pending,
        StatusCode::NotFound,
        StatusCode::Confirmed,
    ]
    .iter()
    .map(|c| c.to_string())
    .collect();
    assert_eq!(names, ["Submitted", "Pending", "NotFound", "Confirmed"]);
}

#[test]
fn without_criteria_every_status_is_kept() {
    assert_eq!(filter(several(), None, None), several());
}

#[test]
fn statuses_are_filtered_by_code() {
    let kept = filter(
        several(),
        Some(vec![StatusCode::Pending, StatusCode::Confirmed, StatusCode::Pending]),
        None,
    );
    assert_eq!(paths(&kept), "bdef");
    assert_eq!(filter(several(), Some(Vec::new()), None), Vec::new());
}

#[test]
fn statuses_are_filtered_by_confirmations() {
    assert_eq!(paths(&filter(several(), None, Some(0))), "ace");
    assert_eq!(paths(&filter(several(), None, Some(25))), "acdef");
    assert_eq!(paths(&filter(several(), None, Some(u64::MAX))), "abcdef");
}

#[test]
fn both_criteria_combine() {
    let codes = Some(vec![StatusCode::Confirmed, StatusCode::NotFound]);
    let both = filter(several(), codes.clone(), Some(25));
    assert_eq!(paths(&both), "cdf");
    assert_eq!(filter(filter(several(), codes.clone(), None), None, Some(25)), both);
    for s in several() {
        assert_eq!(both.contains(&s), meets(&s, &codes, Some(25)));
    }
}

#[test]
fn answers_of_the_network_move_a_status_on() {
    let body = String::from("{\"block_height\":100}");
    let before = status("a", StatusCode::Submitted, None);

    let confirmed = update(before.clone(), 200, &body, Some(raw(9)), LATER).unwrap();
    assert_eq!(confirmed.status, StatusCode::Confirmed);
    assert_eq!(confirmed.raw_status, Some(raw(9)));
    assert_eq!(confirmed.last_modified, LATER);
    assert_eq!((&confirmed.id, confirmed.reward), (&before.id, 7));
    assert_eq!(confirmed.file_path, before.file_path);

    let pending = update(before.clone(), 200, &String::from("Pending"), None, LATER).unwrap();
    assert_eq!((pending.status, &pending.raw_status), (StatusCode::Pending, &None));

    let accepted = update(confirmed.clone(), 202, &body, None, LATER).unwrap();
    assert_eq!(accepted.status, StatusCode::Pending);
    assert_eq!(accepted.raw_status, Some(raw(9)));

    let lost = update(confirmed, 404, &String::new(), None, NOW).unwrap();
    assert_eq!((lost.status, lost.last_modified), (StatusCode::NotFound, NOW));
}

#[test]
fn an_answer_that_is_no_json_is_an_error() {
    let before = status("a", StatusCode::Submitted, None);
    let body = String::from("pending");
    assert_eq!(update(before, 200, &body, None, LATER), Err(Error::Json));
}

#[test]
fn statuses_are_logged_under_the_hash_of_the_path() {
    assert_eq!(
        file_by_path("abc"),
        "6437b3ac38465133ffb63b75273a8db548c558465d79db03fd359c6cd5bd9d85.json"
    );
    assert_eq!(
        file_by_path(""),
        "af1349b9f5f9a1a6a0404dea36dcc9499bcb25c9adc112b7cc9a93cae41f3262.json"
    );
    let one = status("tests/fixtures/0.png", StatusCode::Submitted, None);
    let mut other = status("tests/fixtures/0.png", StatusCode::Confirmed, Some(3));
    other.id = Base64(vec![9; 32]);
    assert_eq!(file_for(&one), Ok(file_by_path("tests/fixtures/0.png")));
    assert_eq!(file_for(&one), file_for(&other));
}

#[test]
fn statuses_without_a_path_are_logged_under_their_id() {
    let mut status = status("abc", StatusCode::Submitted, None);
    status.file_path = None;
    assert_eq!(file_for(&status), Ok(String::from("id_YWJj.json")));
    assert_eq!(file_by_id(&Base64(Vec::new())), "id_.json");
    assert_eq!(json_file("stem".to_string()), "stem.json");
}

#[test]
fn a_file_that_was_not_signed_for_is_not_logged() {
    let mut status = status("abc", StatusCode::Submitted, None);
    status.id = Base64(Vec::new());
    assert_eq!(file_for(&status), Err(Error::UnsignedTransaction));
}

#[test]
fn manifests_lead_from_paths_to_ids() {
    let statuses = vec![
        status("a.png", StatusCode::Confirmed, Some(3)),
        status("q\"b[1].png", StatusCode::Confirmed, Some(3)),
    ];
    assert_eq!(
        manifest::write(&statuses),
        "{\"manifest\":\"arweave/paths\",\"paths\":{\"a.png\":{\"id\":\"YS5wbmc\"}},\
         {\"q\\\"b1.png\":{\"id\":\"cSJiWzFdLnBuZw\"}},\"version\":\"0.1.0\"}"
    );
    assert_eq!(
        manifest::write(&Vec::new()),
        "{\"manifest\":\"arweave/paths\",\"paths\":,\"version\":\"0.1.0\"}"
    );
}

#[test]
fn manifests_escape_what_json_does_not_let_stand() {
    let statuses = vec![status(
        "\u{8}\t\n\u{c}\r\u{0}\u{1f}\u{7f}\\/\u{e9}",
        StatusCode::Confirmed,
        None,
    )];
    let text = manifest::write(&statuses);
    assert!(text.contains(
        "{\"\\b\\t\\n\\f\\r\\u0000\\u001f\u{7f}\\\\/\u{e9}\":{\"id\":"
    ));
}

#[test]
fn nothing_is_uploaded_again_when_all_is_confirmed() {
    let codes =
        Some(vec![StatusCode::Submitted, StatusCode::Pending, StatusCode::NotFound]);
    assert_eq!(paths(&filter(several(), codes.clone(), None)), "ace");
    let confirmed = vec![
        status("a", StatusCode::Confirmed, Some(1)),
        status("b", StatusCode::Confirmed, Some(2)),
    ];
    assert_eq!(filter(confirmed, codes, None), Vec::new());
}

#[test]
fn copies_of_a_status_are_equal() {
    let mut original = status("a", StatusCode::Confirmed, Some(3));
    original.sol_sig = Some(SigResponse {
        ar_tx_sig: Base64(vec![1]),
        ar_tx_id: Base64(vec![2]),
        ar_tx_owner: Base64(vec![3]),
    });
    assert_eq!(original.clone(), original);
}
