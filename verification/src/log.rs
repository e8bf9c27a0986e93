//! The files that statuses are logged in.

use crate::base64;
use crate::base64::Base64;
use crate::error::Error;
use crate::status;
use crate::status::{RawStatusFields, Status, StatusFields, Timestamp};
use vstd::prelude::*;
use vstd::string::StringExecFns;
use vstd::utf8::encode_utf8;

verus! {

/// The BLAKE3 hash of a message in hexadecimal digits.
pub uninterp spec fn blake3_hex(message: Seq<u8>) -> Seq<char>;

/// Calls `blake3::hash` and writes the hash in its textual form: 64 lower-case hexadecimal digits.
#[verifier::external_body]
fn hash_hex(message: &[u8]) -> (digits: String)
    ensures
        digits@ == blake3_hex(message@),
        digits@.len() == 64,
        forall|i: int|
            0 <= i < 64 ==> ('0' <= #[trigger] digits@[i] <= '9' || 'a' <= digits@[i] <= 'f'),
{
    blake3::hash(message).to_string()
}

/// The file for the status of an uploaded file, by the path of the file.
pub open spec fn name_by_path(file_path: Seq<char>) -> Seq<char> {
    blake3_hex(encode_utf8(file_path)) + ".json"@
}

/// The file for the status of an upload that has no path, by its id.
pub open spec fn name_by_id(id: Seq<u8>) -> Seq<char> {
    "id_"@ + base64::encode(id) + ".json"@
}

/// The file for a status. There is none for a file whose upload was not signed.
pub open spec fn status_name(status: StatusFields) -> Option<Seq<char>> {
    match status.file_path {
        Some(file_path) => if status.id.len() == 0 {
            None
        } else {
            Some(name_by_path(file_path))
        },
        None => Some(name_by_id(status.id)),
    }
}

/// The status of a file that was uploaded is looked for where it was written, whatever else it
/// says: there is one place for each file.
pub proof fn statuses_are_read_where_they_are_written(status: StatusFields, file_path: Seq<char>)
    requires
        status.id.len() > 0,
        status.file_path == Some(file_path),
    ensures
        status_name(status) == Some(name_by_path(file_path)),
{
}

/// A log directory, by the names of its files, after a status was written to it. Nothing is
/// written for a file whose upload was not signed.
pub open spec fn written(dir: Map<Seq<char>, StatusFields>, status: StatusFields) -> Option<
    Map<Seq<char>, StatusFields>,
> {
    match status_name(status) {
        Some(name) => Some(dir.insert(name, status)),
        None => None,
    }
}

/// What stands in a log directory where the status of the file at `file_path` is looked for.
pub open spec fn found(dir: Map<Seq<char>, StatusFields>, file_path: Seq<char>) -> Option<
    StatusFields,
> {
    let name = name_by_path(file_path);
    if dir.dom().contains(name) {
        Some(dir[name])
    } else {
        None
    }
}

/// The status that was found, or that there is none.
pub open spec fn found_or_missing(found: Option<StatusFields>) -> Result<StatusFields, Error> {
    match found {
        Some(status) => Ok(status),
        None => Err(Error::StatusNotFound),
    }
}

/// What is read from a log directory as the status of the file at `file_path`.
pub open spec fn read(dir: Map<Seq<char>, StatusFields>, file_path: Seq<char>) -> Result<
    StatusFields,
    Error,
> {
    found_or_missing(found(dir, file_path))
}

/// The last status that was written for a file is the one that is read, and nothing is left of an
/// earlier one; what was written to another directory is read from there.
pub proof fn the_last_status_is_read(
    dir: Map<Seq<char>, StatusFields>,
    other_dir: Map<Seq<char>, StatusFields>,
    file_path: Seq<char>,
    earlier: StatusFields,
    later: StatusFields,
)
    requires
        earlier.file_path == Some(file_path),
        later.file_path == Some(file_path),
        earlier.id.len() > 0,
        later.id.len() > 0,
    ensures
        ({
            let once = written(dir, earlier);
            let twice = written(once.unwrap(), later);
            let other = written(other_dir, earlier);
            &&& once is Some && twice is Some && other is Some
            &&& read(once.unwrap(), file_path) == Ok::<StatusFields, Error>(earlier)
            &&& read(twice.unwrap(), file_path) == Ok::<StatusFields, Error>(later)
            &&& read(other.unwrap(), file_path) == Ok::<StatusFields, Error>(earlier)
            &&& twice == written(dir, later)
        }),
{
    let name = name_by_path(file_path);
    assert(dir.insert(name, earlier).insert(name, later) =~= dir.insert(name, later));
}

/// Writing a status leaves the statuses of other files as they are, unless the hashes of the paths
/// collide.
pub proof fn other_statuses_stay(
    dir: Map<Seq<char>, StatusFields>,
    status: StatusFields,
    other_path: Seq<char>,
)
    requires
        status_name(status) != Some(name_by_path(other_path)),
    ensures
        written(dir, status) matches Some(after) ==> read(after, other_path) == read(
            dir,
            other_path,
        ),
{
}

/// An update of the status of a file is what is read of the file from there on, and leaves the
/// statuses of other files as they are, unless the hashes of the paths collide. It is not written
/// if and only if the upload was not signed.
pub proof fn updates_are_read_back(
    dir: Map<Seq<char>, StatusFields>,
    file_path: Seq<char>,
    before: StatusFields,
    code: u16,
    body: Seq<char>,
    raw_status: Option<RawStatusFields>,
    now: Timestamp,
)
    requires
        read(dir, file_path) == Ok::<StatusFields, Error>(before),
        before.file_path == Some(file_path),
    ensures
        match status::updated(before, code, body, raw_status, now) {
            Some(after) => match written(dir, after) {
                Some(kept) => {
                    &&& before.id.len() > 0
                    &&& read(kept, file_path) == Ok::<StatusFields, Error>(after)
                    &&& forall|other: Seq<char>|
                        name_by_path(other) != name_by_path(file_path) ==> #[trigger] read(
                            kept,
                            other,
                        ) == read(dir, other)
                },
                None => before.id.len() == 0,
            },
            None => true,
        },
{
}

/// The file with the given stem that holds JSON.
pub fn json_file(stem: String) -> (name: String)
    ensures
        name@ == stem@ + ".json"@,
{
    let mut name = stem;
    name.append(".json");
    name
}

/// The file for the status of the file at `file_path`. It is never one that is named by an id.
pub fn file_by_path(file_path: &str) -> (name: String)
    ensures
        name@ == name_by_path(file_path@),
        name@.len() == 69,
        forall|id: Seq<u8>| name@ != #[trigger] name_by_id(id),
{
    let stem = hash_hex(file_path.as_bytes());
    let ghost digits = stem@;
    let name = json_file(stem);
    proof {
        reveal_strlit(".json");
        reveal_strlit("id_");
        assert forall|id: Seq<u8>| name@ != #[trigger] name_by_id(id) by {
            assert(name@[0] == digits[0]);
            assert(name_by_id(id)[0] == 'i');
        }
    }
    name
}

/// The file for the status of an upload that has no path.
pub fn file_by_id(id: &Base64) -> (name: String)
    ensures
        name@ == name_by_id(id@),
{
    let mut stem = "id_".to_owned();
    stem.append(id.to_string().as_str());
    json_file(stem)
}

/// The file for a status.
pub fn file_for(status: &Status) -> (name: Result<String, Error>)
    ensures
        match status_name(status@) {
            Some(n) => name matches Ok(found) && found@ == n,
            None => name == Err::<String, Error>(Error::UnsignedTransaction),
        },
{
    match &status.file_path {
        Some(file_path) => {
            if status.id.0.len() == 0 {
                Err(Error::UnsignedTransaction)
            } else {
                Ok(file_by_path(file_path.as_str()))
            }
        },
        None => Ok(file_by_id(&status.id)),
    }
}

/// The file for an uploaded file is named by the hash of the whole path: the stem is that hash, and
/// two paths share a file if and only if the hashes of all their bytes are the same.
pub proof fn names_come_from_the_whole_path(one: Seq<char>, other: Seq<char>)
    ensures
        name_by_path(one).take(name_by_path(one).len() - 5) == blake3_hex(encode_utf8(one)),
        name_by_path(one).skip(name_by_path(one).len() - 5) == ".json"@,
        name_by_path(one) == name_by_path(other) <==> blake3_hex(encode_utf8(one)) == blake3_hex(
            encode_utf8(other),
        ),
{
    reveal_strlit(".json");
    let (a, b) = (name_by_path(one), name_by_path(other));
    assert(a.take(a.len() - 5) =~= blake3_hex(encode_utf8(one)));
    assert(b.take(b.len() - 5) =~= blake3_hex(encode_utf8(other)));
    assert(a.skip(a.len() - 5) =~= ".json"@);
}

/// The file for an upload without a path is named by its whole id: two ids never share a file.
pub proof fn names_come_from_the_whole_id(one: Seq<u8>, other: Seq<u8>)
    ensures
        name_by_id(one) == "id_"@ + base64::encode(one) + ".json"@,
        name_by_id(one) == name_by_id(other) ==> one == other,
{
    reveal_strlit(".json");
    reveal_strlit("id_");
    let (a, b) = (name_by_id(one), name_by_id(other));
    assert(a.subrange(3, a.len() - 5) =~= base64::encode(one));
    assert(b.subrange(3, b.len() - 5) =~= base64::encode(other));
    base64::decode_reads_encode(one);
    base64::decode_reads_encode(other);
}

/// Where a status is written depends on its path and id alone: by the path where it has one, and
/// then only if it has an id, else by the id.
pub proof fn places_depend_on_path_and_id(status: StatusFields)
    ensures
        status.file_path is None ==> status_name(status) == Some(name_by_id(status.id)),
        status.file_path is Some && status.id.len() > 0 ==> status_name(status) == Some(
            name_by_path(status.file_path.unwrap()),
        ),
        status.file_path is Some && status.id.len() == 0 ==> status_name(status) is None,
{
}

/// A file that nothing was written for has no status.
pub proof fn nothing_is_read_before_it_is_written(
    dir: Map<Seq<char>, StatusFields>,
    file_path: Seq<char>,
)
    requires
        !dir.dom().contains(name_by_path(file_path)),
    ensures
        read(dir, file_path) == Err::<StatusFields, Error>(Error::StatusNotFound),
{
}

} // verus!
