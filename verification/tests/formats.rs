use arloader::arweave::url_or_failure;
use arloader::avro::{read_tags, write_tags};
use arloader::base64::Base64;
use arloader::bundle::{read_header, read_place, write_bundle, DataItem};
use arloader::content::{content_type_of, user_agent_text};
use arloader::crypto::{signature_or_failure, DeepHashItem};
use arloader::encoding::{copy_range, note_bytes, push_all, push_le, read_le};
use arloader::error::Error;
use arloader::merkle::{generate_data_root, generate_leaves, resolve_proofs, Node, Shape};
use arloader::solana::{lamports, SolTerms};
use arloader::tag::Tag;
use arloader::text::{
    chars_of, decimal_text, push_decimal, push_fill, push_left_aligned, push_right_aligned,
};
use arloader::transaction::{checked_reward, reward};
use arloader::{BLOCK_SIZE, WINSTONS_PER_AR};

fn hex(bytes: &[u8]) -> String {
    bytes.iter().map(|b| format!("{:02x}", b)).collect()
}

fn sample(len: usize) -> Vec<u8> {
    (0..len).map(|i| (i % 251) as u8).collect()
}

fn tag(name: &str, value: &str) -> Tag<String> {
    Tag::<String>::from_utf8_strs(name, value).unwrap()
}

#[test]
fn base64_reads_and_writes_the_url_safe_alphabet_without_padding() {
    let bytes = vec![250, 251, 252, 253, 254, 255, 0];
    let text = "-vv8_f7_AA";
    assert_eq!(Base64(bytes.clone()).to_string(), text);
    assert_eq!(Base64::from_str(text), Ok(Base64(bytes)));
    assert_eq!(Base64::from_str("LCwsLCwsLA"), Ok(Base64(vec![44; 7])));
    assert_eq!(Base64(vec![]).to_string(), "");
    assert_eq!(Base64(vec![77]).to_string(), "TQ");
    assert_eq!(Base64(vec![77, 97]).to_string(), "TWE");
    assert_eq!(Base64(vec![77, 97, 110]).to_string(), "TWFu");
}

#[test]
fn base64_survives_writing_and_reading() {
    for len in 0..70 {
        let bytes = Base64(sample(len));
        assert_eq!(Base64::from_str(&bytes.to_string()), Ok(bytes.clone()));
    }
}

#[test]
fn base64_rejects_what_it_would_not_write() {
    for text in ["A", "A=", "TQ==", "TR", "TWF", "TW+u", "TW u", "TWFu\n", "AAAAA"] {
        assert_eq!(Base64::from_str(text), Err(Error::InvalidBase64), "{}", text);
    }
}

#[test]
fn base64_holds_the_utf8_bytes_of_text() {
    assert_eq!(Base64::from_utf8_str("k\u{e9}y").0, vec![107, 195, 169, 121]);
}

#[test]
fn integers_are_written_least_significant_byte_first() {
    let mut out = vec![9];
    push_le(&mut out, 0x0102, 2);
    push_le(&mut out, 5, 4);
    assert_eq!(out, vec![9, 2, 1, 5, 0, 0, 0]);
    assert_eq!(read_le(&out, 1, 2), 0x0102);
    assert_eq!(read_le(&[255; 8], 0, 8), u64::MAX);
    push_all(&mut out, &[7, 8]);
    assert_eq!(copy_range(&out, 6, 3), vec![0, 7, 8]);
}

#[test]
fn notes_are_big_endian() {
    let note = note_bytes(262144);
    assert_eq!(note.len(), 32);
    assert_eq!(&note[..28], &[0; 28]);
    assert_eq!(&note[28..], &[0, 4, 0, 0]);
}

#[test]
fn numbers_and_columns_are_laid_out() {
    assert_eq!(decimal_text(0), "0");
    assert_eq!(decimal_text(u64::MAX), "18446744073709551615");
    let mut out = String::from("n=");
    push_decimal(&mut out, 1205);
    assert_eq!(out, "n=1205");
    let mut out = String::new();
    push_left_aligned(&mut out, "ab", 4);
    push_right_aligned(&mut out, "cd", 4);
    push_left_aligned(&mut out, "too long", 3);
    push_right_aligned(&mut out, "too long", 3);
    push_fill(&mut out, '-', 3);
    assert_eq!(out, "ab    cdtoo longtoo long---");
    assert_eq!(chars_of("a\u{e9}"), vec!['a', '\u{e9}']);
}

#[test]
fn tags_are_written_as_an_avro_array() {
    let tags = vec![tag("a", "bc"), tag("", "\u{e9}")];
    let bytes = write_tags(&tags);
    assert_eq!(bytes, vec![4, 2, 97, 4, 98, 99, 0, 4, 195, 169, 0]);
    assert_eq!(read_tags(&bytes), Some(tags));
    assert_eq!(write_tags(&Vec::new()), Vec::<u8>::new());
    assert_eq!(read_tags(&[]), Some(Vec::new()));
}

#[test]
fn long_tags_survive_writing_and_reading() {
    let tags: Vec<Tag<String>> =
        (0..150).map(|i| tag(&format!("name{}", i), &"v".repeat(i * 3))).collect();
    assert_eq!(read_tags(&write_tags(&tags)), Some(tags));
}

#[test]
fn bytes_that_no_tags_encode_to_are_rejected() {
    let whole = vec![4, 2, 97, 4, 98, 99, 0, 4, 195, 169, 0];
    for len in 1..whole.len() {
        assert_eq!(read_tags(&whole[..len]), None);
    }
    let mut longer = whole.clone();
    longer.push(0);
    assert_eq!(read_tags(&longer), None);
    // a length with a needless group, an odd one, and text that is not UTF-8
    assert_eq!(read_tags(&[0x82, 0x00, 0, 0, 0]), None);
    assert_eq!(read_tags(&[1, 0, 0, 0]), None);
    assert_eq!(read_tags(&[2, 2, 255, 0, 0]), None);
    // an array without elements has no bytes
    assert_eq!(read_tags(&[0]), None);
}

#[test]
fn tags_hold_text_or_its_bytes() {
    let text = tag("key2", "value2");
    assert_eq!((text.name.as_str(), text.value.as_str()), ("key2", "value2"));
    let bytes = Tag::<Base64>::from_utf8_strs("key2", "value2").unwrap();
    assert_eq!(bytes.name.0, b"key2".to_vec());
    assert_eq!(bytes.value.to_string(), "dmFsdWUy");
    assert_eq!(bytes.clone(), bytes);
}

#[test]
fn uploads_are_labelled() {
    assert_eq!(user_agent_text(), "arloader/0.1.20");
    assert_eq!(content_type_of(None), "application/octet-stream");
    assert_eq!(content_type_of(Some("image/png".to_string())), "image/png");
}

fn ends(leaves: &[Node]) -> Vec<usize> {
    leaves.iter().map(|n| n.max_byte_range).collect()
}

#[test]
fn data_is_cut_into_chunks() {
    assert_eq!(ends(&generate_leaves(&sample(3))), vec![3]);
    assert_eq!(ends(&generate_leaves(&sample(262143))), vec![262143]);
    assert_eq!(ends(&generate_leaves(&sample(262144))), vec![262144, 262144]);
    assert_eq!(ends(&generate_leaves(&sample(262145))), vec![131073, 262145]);
    assert_eq!(ends(&generate_leaves(&sample(270000))), vec![135000, 270000]);
    assert_eq!(ends(&generate_leaves(&sample(294912))), vec![262144, 294912]);
    assert_eq!(ends(&generate_leaves(&sample(600000))), vec![262144, 524288, 600000]);
    assert_eq!(ends(&generate_leaves(&sample(524288))), vec![262144, 524288, 524288]);
}

#[test]
fn chunks_follow_each_other() {
    let leaves = generate_leaves(&sample(1000000));
    let mut at = 0;
    for leaf in &leaves {
        assert_eq!(leaf.min_byte_range, at);
        assert!(leaf.max_byte_range - at <= 262144);
        assert!(matches!(leaf.shape, Shape::Leaf { .. }));
        at = leaf.max_byte_range;
    }
    assert_eq!(at, 1000000);
}

#[test]
fn data_roots_and_paths_are_those_of_the_network() {
    let expected = [
        (
            3,
            "5c2bfd7f54969208dac856a87a18bc6ddc5ff212f36895a63ad38f12c3727dd4",
            vec![(2, 64)],
        ),
        (
            262144,
            "82dcbb281d9b68b169ece1b1b95db005e5f7362a694b5b4d56530e66bc88ab9a",
            vec![(262143, 160), (262143, 160)],
        ),
        (
            270000,
            "2ffbc9eb56ed99715aafb9523141a08a57ab16911e5660a69d6293a93cbbefb7",
            vec![(134999, 160), (269999, 160)],
        ),
        (
            600000,
            "3b9a56afd7a67130990a883698bb31d6820b3392e15addf5c73ff5eaab5e0e8c",
            vec![(262143, 256), (524287, 256), (599999, 160)],
        ),
        (
            1000000,
            "3074786e919612996d6123594e923055622f35d630cc1f7c2c8cf660494b0da4",
            vec![(262143, 256), (524287, 256), (786431, 256), (999999, 256)],
        ),
    ];
    for (len, root_id, paths) in expected {
        let leaves = generate_leaves(&sample(len));
        let count = leaves.len();
        let root = generate_data_root(leaves);
        assert_eq!(hex(&root.id), root_id);
        let proofs = resolve_proofs(&root, None);
        assert_eq!(proofs.len(), count);
        let found: Vec<(usize, usize)> =
            proofs.iter().map(|p| (p.offset, p.proof.len())).collect();
        assert_eq!(found, paths);
    }
}

#[test]
fn paths_name_the_children_of_every_branch() {
    let leaves = generate_leaves(&sample(270000));
    let ids: Vec<Vec<u8>> = leaves.iter().map(|n| n.id.clone()).collect();
    let root = generate_data_root(leaves.clone());
    let proofs = resolve_proofs(&root, None);
    for (i, proof) in proofs.iter().enumerate() {
        assert_eq!(&proof.proof[..32], &ids[0][..]);
        assert_eq!(&proof.proof[32..64], &ids[1][..]);
        assert_eq!(&proof.proof[64..96], &note_bytes(135000)[..]);
        let data_hash = match &leaves[i].shape {
            Shape::Leaf { data_hash } => data_hash.clone(),
            Shape::Branch { .. } => unreachable!(),
        };
        assert_eq!(&proof.proof[96..128], &data_hash[..]);
        assert_eq!(&proof.proof[128..], &note_bytes(leaves[i].max_byte_range as u64)[..]);
    }
}

fn sha256(parts: &[&[u8]]) -> Vec<u8> {
    let mut context = ring::digest::Context::new(&ring::digest::SHA256);
    for part in parts {
        context.update(ring::digest::digest(&ring::digest::SHA256, part).as_ref());
    }
    context.finish().as_ref().to_vec()
}

#[test]
fn paths_lead_from_the_root_to_the_leaves() {
    let data = sample(1500000);
    let leaves = generate_leaves(&data);
    let root = generate_data_root(leaves.clone());
    let proofs = resolve_proofs(&root, None);
    for (leaf, proof) in leaves.iter().zip(proofs.iter()) {
        let mut at = root.id.clone();
        let mut path = &proof.proof[..];
        while path.len() > 64 {
            let (left, right, split) = (&path[..32], &path[32..64], &path[64..96]);
            assert_eq!(sha256(&[left, right, split]), at);
            let end = split[24..].iter().fold(0, |n, b| n * 256 + *b as usize);
            at = if proof.offset < end { left.to_vec() } else { right.to_vec() };
            path = &path[96..];
        }
        assert_eq!(sha256(&[&path[..32], &path[32..]]), at);
        assert_eq!(at, leaf.id);
    }
}

#[test]
fn rewards_grow_with_the_blocks() {
    assert_eq!(BLOCK_SIZE, 1024 * 256);
    assert_eq!(WINSTONS_PER_AR, 1000000000000);
    assert_eq!(reward(1, (10, 3)), 10);
    assert_eq!(reward(BLOCK_SIZE, (10, 3)), 10);
    assert_eq!(reward(BLOCK_SIZE + 1, (10, 3)), 13);
    assert_eq!(reward(4 * BLOCK_SIZE, (10, 3)), 19);
    assert_eq!(reward(4 * BLOCK_SIZE + 7, (0, 0)), 0);
}

#[test]
fn rewards_that_cannot_be_written_down_are_refused() {
    assert_eq!(checked_reward(0, (10, 3)), None);
    assert_eq!(checked_reward(BLOCK_SIZE + 1, (10, 3)), Some(13));
    assert_eq!(checked_reward(1, (u64::MAX, u64::MAX)), Some(u64::MAX));
    assert_eq!(checked_reward(BLOCK_SIZE + 1, (u64::MAX, 1)), None);
    assert_eq!(checked_reward(3 * BLOCK_SIZE, (0, u64::MAX / 2)), Some(u64::MAX - 1));
    assert_eq!(checked_reward(3 * BLOCK_SIZE, (0, u64::MAX / 2 + 1)), None);
}

#[test]
fn lamports_are_at_least_the_floor() {
    let terms = SolTerms { rate: 2500, floor: 10000 };
    assert_eq!(lamports(0, terms), 10000);
    assert_eq!(lamports(24_999_999, terms), 10000);
    assert_eq!(lamports(25_002_499, terms), 10000);
    assert_eq!(lamports(25_002_500, terms), 10001);
}

fn small_item() -> DataItem {
    let mut item = DataItem::default();
    item.signature = Base64(vec![1; 512]);
    item.owner = Base64(vec![2; 512]);
    item.tags = vec![tag("a", "bc")];
    item.data = Base64(vec![7, 8, 9]);
    item
}

#[test]
fn data_items_are_written_field_by_field() {
    let mut item = small_item();
    item.anchor = Base64(vec![3; 32]);
    item.id = Base64(vec![4; 32]);
    let bytes = item.serialize();
    assert_eq!(&bytes[..2], &[1, 0]);
    assert_eq!(&bytes[2..514], &[1; 512][..]);
    assert_eq!(&bytes[514..1026], &[2; 512][..]);
    assert_eq!(bytes[1026], 0);
    assert_eq!(bytes[1027], 1);
    assert_eq!(&bytes[1028..1060], &[3; 32]);
    assert_eq!(&bytes[1060..1076], &[1, 0, 0, 0, 0, 0, 0, 0, 7, 0, 0, 0, 0, 0, 0, 0]);
    assert_eq!(&bytes[1076..], &[2, 2, 97, 4, 98, 99, 0, 7, 8, 9]);

    let (entry, binary) = item.to_bundle_item().unwrap();
    assert_eq!(binary, bytes);
    assert_eq!(entry.len(), 64);
    assert_eq!(read_le(&entry, 0, 8), bytes.len() as u64);
    assert_eq!(&entry[8..32], &[0; 24]);
    assert_eq!(&entry[32..], &[4; 32]);
}

#[test]
fn data_items_survive_writing_and_reading() {
    for (target, anchor) in [(0, 0), (0, 32), (32, 0), (32, 32)] {
        let mut item = small_item();
        item.target = Base64(sample(target));
        item.anchor = Base64(sample(anchor));
        assert_eq!(DataItem::deserialize(&item.serialize()), Ok(item.clone()));
    }
    let bare = DataItem { tags: Vec::new(), data: Base64(Vec::new()), ..small_item() };
    assert_eq!(DataItem::deserialize(&bare.serialize()), Ok(bare));
}

#[test]
fn malformed_data_items_are_rejected() {
    let whole = small_item().serialize();
    for len in 0..1051 {
        assert_eq!(DataItem::deserialize(&whole[..len]), Err(Error::MalformedDataItem));
    }
    for (at, value) in [(0, 2), (1, 1), (1026, 2), (1027, 3), (1028, 2), (1036, 6), (1044, 1)] {
        let mut changed = whole.clone();
        changed[at] = value;
        assert_eq!(
            DataItem::deserialize(&changed),
            Err(Error::MalformedDataItem),
            "byte {}",
            at
        );
    }
}

#[test]
fn data_items_are_hashed_as_a_list() {
    let item = small_item();
    match item.to_deep_hash_item().unwrap() {
        DeepHashItem::List(fields) => {
            let blobs: Vec<Vec<u8>> = fields
                .into_iter()
                .map(|f| match f {
                    DeepHashItem::Blob(bytes) => bytes,
                    DeepHashItem::List(_) => unreachable!(),
                })
                .collect();
            assert_eq!(
                blobs,
                vec![
                    b"dataitem".to_vec(),
                    b"1".to_vec(),
                    b"1".to_vec(),
                    vec![2; 512],
                    vec![],
                    vec![],
                    vec![2, 2, 97, 4, 98, 99, 0],
                    vec![7, 8, 9],
                ]
            );
        }
        DeepHashItem::Blob(_) => unreachable!(),
    }
}

#[test]
fn bundles_are_read_place_by_place() {
    let one = small_item().identify(vec![1; 512], vec![4; 32]);
    let mut two = small_item().identify(vec![6; 512], vec![5; 32]);
    two.data = Base64(vec![1; 100]);
    let bundle = write_bundle(&vec![one.clone(), two.clone()]);
    assert_eq!(read_header(&bundle), Some(2));
    let (found, end) = read_place(&bundle, 0, 160).unwrap().unwrap();
    assert_eq!((found, end), (one, 160 + 1054));
    let (found, end) = read_place(&bundle, 1, end).unwrap().unwrap();
    assert_eq!((found, end), (two, bundle.len()));
    assert_eq!(read_place(&bundle, 1, 160 + 1055), None);
    assert_eq!(read_place(&bundle, 1, 170), Some(Err(Error::MalformedDataItem)));
    assert_eq!(read_header(&bundle[..159]), None);
    assert_eq!(read_header(&bundle[..31]), None);
    let mut three = bundle.clone();
    three[0] = 3;
    assert_eq!(read_header(&three), None);
}

#[test]
fn what_could_not_be_made_is_an_error() {
    assert_eq!(signature_or_failure(Some(vec![1])), Ok(vec![1]));
    assert_eq!(signature_or_failure(None), Err(Error::SigningFailed));
    assert_eq!(url_or_failure(Some("u".to_string())), Ok("u".to_string()));
    assert_eq!(url_or_failure(None), Err(Error::InvalidUrl));
}
