use arloader::arweave::{LastTx, DEFAULT_URL};
use arloader::base64::Base64;
use arloader::bundle::{check_item, DataItem};
use arloader::crypto::{DeepHashItem, KeyComponents, Provider};
use arloader::error::Error;
use arloader::merkle::{generate_data_root, generate_leaves};
use arloader::solana::{SigResponse, SolTerms};
use arloader::status::{RawStatus, Status, StatusCode, Timestamp};
use arloader::tag::Tag;
use arloader::transaction::Transaction;
use arloader::upload::{Order, Payment, Stage};
use arloader::Arweave;
use std::collections::HashMap;

// The components of two key pairs that are used for nothing else: modulus, public and private
// exponent, primes, reduced exponents and inverse.
const KEY_4096: [&str; 8] = [
    "eb07da8c9842c2a12b324484d5d7ca58ff554df97c8da4295966f034c6d9e6f734563c0c36817ff8f6524862\
     1f26714c8b9982cd677e0fff7616028619115fe7feda1b2ce74d470f8f679ad0311e8abf936d67e594dfa8b4\
     8170830cad14f331af7ea34b54eff15b9cffcc31ef439f265fb18bcb002a6790e2921bb575f9e73ab89c8e99\
     9444fa8b7ccd589c934a96f1c1c0d257cbbdd3bb27e14e30db94a2fa55cb09ed59d70fe935223aa50da6697c\
     2a816a66edc6be76530f04555b6ada33dbd7b85fef5ddb10c2ba8d77a07df04baa42bee8844e82eda587812b\
     59629735c51033b04259d7700b5a378f850f3ca80318c92fd3315a47f05e64859c5594a466d86a04b47abdc0\
     21e8fca2620553d66572d873f04b6f5f36b70514d1b83ad9d1adfc690b807952be400dc62a21577a32c6ba1c\
     b1654406b344f306d49d43269cc46c84705b9c99093acf3984ca8f27b2df86d920d977e728b296d6e4d10643\
     82830246fdbfd912fac45b4e6682d88850584be33691db85ba51a4030a5f22ab1f38528d2d82f2e13d59ff5c\
     b21a86e9f02c7f7938395613f63670ea71e57c028e20f323f5838e63cfc7735afd41695e9dc7ce708abcc777\
     cbd82aba923335b60efce59a9a86f96bd61a80d8534f167420a97448416db58969f6bee38593fe38e9c37def\
     284b13a1af7337c6adfed228d790cb0b859598ee29ceba2a94f74115",
    "010001",
    "036d20e24dd1f021a027c8d85480236fa11ae1dab8a31d928a581c6cbef092ad9918b988933ed7a6f47b8633\
     0331a41331cb655029a979683afb785bf2e601581eab98823945cd546624311d604389eb797287756abf2f27\
     d418d8003cb4e8e119260daaf745d299eeb3cb247803df59e142d9f242a88ecbf41e6a5c98417efda8c21dea\
     ded84695f72f9992805f31cc88d85bc572af858e10b75e54a468708232f32eff43cdd236f585f0055390374a\
     a84cc64885734477f185a25256a23bf14dfef47a898dc95192a1f5fccca9f624a10a96db161aafb3f1339e4e\
     3edff144c733ab106f573059d4cd561737bac3bc34e4269c48dfb18309c439b5b9bab80f63f082538f88c386\
     46e0d8726e6433a3c9eabbad57c03e55af7350394f4ca91001421eca9e6da2170d40bc397031c7ff41893ff9\
     c0d0c5bcb82a2971f38f20180f2ac9ac6e9e19a4064268718e35197187822c663959056fb11df9f0d453580c\
     d65847464d77c3a290960589ec7a4fc295fc51702856c1cd559ec63ff370610cadd8f37f0f0d6211f9de203a\
     70e402536c44e869c1175a58d1940c90c1de56b9597a7333ed4765310715fcc293555071674e22d803cca1e0\
     b626fd466f3313484f6eccb2ffec2b6c9cc1c04aa67eabd04ebf681600e6f6fa7bd69dee2c43d930b44b90b7\
     8b45316f4e64f1ba37ca35f47feae201534baa41286a52f4552e46a1",
    "f96653c840e9edebbc7ff42e2c7daeadeb2f4b80c6162435bc34b32317f2e618d79f9d57588ce61aae38edfa\
     24f09988c860477f480d9f6505739841afe77685c645814fdef0c8ba7eef9ce38f9bad53309104627a2c55b9\
     943865d87471d966bdd248011d96d539ab996acf034cb0b41c9e5e06249b884a483700e44ab110c013cae985\
     67f354f7cb7c44030c4c6ef465128255df8d22aa67f0d796a7dab186043ad809be68f4387178bfc377d52145\
     b8346d13d3dc42482cbab7c83c5d9602696218fcb712d86b96c3cafad55c41d6ba9445dcca4e4235d0d8b56a\
     88687d51d0c888a5121e78442e762e05274e2a920dfa46a568ad8cb4ad64c0e9c04a9ffd",
    "f1402d42ddb1c107252d3160511eb513b23b9eef911ad9c8ce5308a073335c9d3326501488b560fb77acb26d\
     36dcfb9d82ea8475a666c4a762c5146df37e6d303a89327991540943e7e83025fb1def1cde58d2d96e8e29a6\
     7de5c8eb9c6e146e28df73f7c1b40010205567292817995c3a7365f050af7eab55fe605de85fa4d8be92302b\
     27ac5ca66b919baff3118f228f75fb237aac7563ae4cf4b25ddf1df4cb551f730bb77ec759365bfb635e83ed\
     0535c5a475c09d0c75575f613f30a6c78d31158d975d272b2d9c342d3cdb8b184a8f77081cc745ec37e0bd00\
     92bbf7b985e90e4964b35b9eb719d6441804ce4e198c91f47990fa28961d8236e15f74f9",
    "061b986fae0f4c915a6373d271aa7e4daa15d56e88eb5fe5a4ff5167c99d5c3f3d809e34d66954f55050fa9b\
     06ae91c404cc3ed4022abb3d991d949bff37d6f23dc1d401e5bed5dba36230e06dd2ed32bd5cbfd3bd943a61\
     3a1d0b797a98932f6df4a968c595bd11157fc35ae084cf4b09ec62f7198c69911025b0b2e6956188a2b37476\
     9cee1ba599e9282d3eeedc44c5f8e7123d50528a03d3a523fe665fb49d83e7688dae3a54eb8a7e7fc5fe853b\
     14e0cbcf1180326b5c15128d27d54ee82e3685d02297a68f33f9058e910d1a5bace416b5ea8a721aa94bb55d\
     af8b878e2a63cedce40db4fa4e7cfc7189dde333027e9f9e4b6afca82c1aec928cf006ed",
    "72ddbfaf2aa74be4ff0a798c0693bc5bd86d12cbb62736b2a9aa575d2dfcb28816a69352739508cc32bb0369\
     84c9caf3c035b143e32ae34f5f73beba6b4932ebd7b32359469ce09c787ad1120472c83ad29330315eb64996\
     80333c6b125c4755fc1808bb5a7b3ddc6fc8ba099a9141efebd4ae20b20a1d21af1c22fe137a169f2c7da679\
     a5b6279705789acc37cb907f401748b027e49d300cf98f38ae0161de0042536b0f951ac407f21df19fea8c9d\
     f9f1145dadc33c03868b475aa21fa409376cbb7a632b734ed7b49c133dfaba4ba2949474445f8d275fa39dd9\
     fc038b7bc60aa546c4afb15bec8a5cbea7410289a5188d15fe1bcd402dd976fa726c64e1",
    "cc00509b8e705d8c128be5350a8db221c143f60083ed240301f4f26979843c3d1ae0a195a9478db9d0ff5a2f\
     08341d0192dd51374c899209b1db2cd9639592f21166fb6d93c22a32ac29b254923cc37ad044484b9a20cef0\
     2808ff185a9fe778142081b33877482fb33aea3aa58aa9727f5aaf52c8a4c221aec756523003406e3b947020\
     89a8aa3ff48281feceaec27fce5d59f4490145b1bdc331c8ae3f3f9372333383a27a1187d8e7fd534553a61b\
     e0914c984eb76b8963147e3fad0d8dcf8c1be9b3ae5c36fce4715806c210227e10eb85580bb38fae31e82819\
     c19deed424929cc4affe3ca613c0c62a5d65bb6550d78040fc546a2da700d9db7173d053",
];

const KEY_2048: [&str; 8] = [
    "a07647ebcd49a6c00efd85769443055aa81a406b89e0a0a5ac41feee6d92c044e1f363414b20417d1e25d747\
     57bc2ca10e35f6a5fe1a298831e39d6e3e069dc6cf5e4585685f879c52b1e4d615b3174ad67c6137a306735f\
     c3f940e2d2eb182c2571cc3fcaae317b7c240db92b6b87402b7a4cadfe088e188e42221113902c5992858530\
     e50d23be47943dd4a3f072aed9c5b67e53071d65124d1734e67a3c16f47703488c16f911a6835ab383e669a9\
     100af470cf911fecf84f9600c74bca03023d59d20df33c99d587df8d178ce8342af594b35a84ab8e7865fb3a\
     bd0a4262550a52e94246c61e3e0588205c023f5e3d2ec58cdf469c430bbce70ddd217d7d",
    "010001",
    "48baf4046c4b2adab8b0aeb2bda6d7216d3a60e29d5f0451b38f4246bdc19b865d47dd4036160bb8f356418a\
     a3b8b61dd5fc1dacc54d047027f4bc61c0996d2034d3ccfd17fedccfbd27c6ca4691a3481789cee2d1f0d590\
     9d9a378fd7fc193bc1492043f5d118ba98dd1a9f488ff780dd74149774a25a0dc545327dbcf94730266e2541\
     2a4d1ddecce4c0ec88af9b294acd0cfc5a01843acd768163dbb50f09788717d5607d56a2e5a5c46e6b4f1199\
     d44cd0b201b7dd731b2f2040336993969ba35e961e1d249eab7dac9a17d1cd7d81d74d71fc216a522a97a3bd\
     b0b6596944e4179974289110ecd183ba23c5f337b72cdcf41afd3ca773526081030a8ebd",
    "d4210a728325fab98c51e9fff41338fe6a40263ab1221e70a32c4a03bfecc09cbaf12a2092cad371f5956b2e\
     93e0a61b229638442dbfc20922cb1009061fe1701680e318b9bd79d47473f6278bb6df33deab6cafb7ef924b\
     bb765cea817ede513b80d9f640b2c928ec4c16ef271bd243b15eba2bdec7ad52b76c9c62d75ffa0b",
    "c1a5c8072610b2a89495c2b9cb1663ef96d7d32e1ac16d5518dbc7d647def14ecf81cb6e9f3db18074eeeada\
     f4f4db22645cd8854efd97e19ae9a94c91674746c09822fa5672ce12281e3138c35894420d13e4f8c10d7007\
     f6a7279d20b750f01da2d70092b706fc489c7d44e506e8659492806bda4359ddb04bbe2a07f0a397",
    "7c142f8637cc3951db0ff6edae18a857b852798a0f1e43ebe2a5ff4d1e301fa20d7f0f032a99d5006d83cec3\
     d9dfa7896bbbae81c2b8cd88867f7c8baab76f281f2198b457c0cac848ada3a812030f9fc9794003b075437f\
     64d1a11bd24f213f26ad01d1169afd2b20bc8915ae2c89daea9edc0ad92eb6e5114148605056656d",
    "9046afed8392d5497ccac7b61d75a52790bf647be93b4bf626fb38bc91f7acda0708b144ce27ece3c43b6d87\
     8d121162625c3a85b80080f479b2b58c7298fc25dec07aef0111b02f1eecbfc786e3ac323a042488a16d1d97\
     115220d594d67fdb267978aed8a0bcf7a231d5b34ae006ae082fceb68c7bb9accdf8e0c9f7f87629",
    "360b02c7cbb22b82b1ddfda67e2366c6ddb5a033cc5417365ca40da2dce9d7c7fe1a38320359e94f16be6402\
     d200d9c96ed4f6213bf538d2bf5142d1486a4640eee319284d5312b80e87b3e2b5c7fa7ed4d3c8e3239d658a\
     d0182e5c47d91b2384ae25d4557e5971a72015840f4cb468d8604a252a8c4ee7c502a4b259d2f065",
];

const NOW: Timestamp = Timestamp { secs: 1634000000, nanos: 0 };

fn unhex(text: &str) -> Vec<u8> {
    (0..text.len() / 2).map(|i| u8::from_str_radix(&text[2 * i..2 * i + 2], 16).unwrap()).collect()
}

fn hex(bytes: &[u8]) -> String {
    bytes.iter().map(|b| format!("{:02x}", b)).collect()
}

fn components(key: &[&str; 8]) -> KeyComponents {
    KeyComponents {
        n: unhex(key[0]),
        e: unhex(key[1]),
        d: unhex(key[2]),
        p: unhex(key[3]),
        q: unhex(key[4]),
        dp: unhex(key[5]),
        dq: unhex(key[6]),
        qi: unhex(key[7]),
    }
}

fn uploader() -> Arweave {
    Arweave::from_keypair(components(&KEY_4096), None).unwrap()
}

fn small_uploader() -> Arweave {
    Arweave::from_keypair(components(&KEY_2048), Some("https://node.example/a/b".to_string()))
        .unwrap()
}

/// Bytes that start like a PNG file.
fn png(len: usize) -> Vec<u8> {
    let mut data = vec![137, 80, 78, 71, 13, 10, 26, 10];
    while data.len() < len {
        data.push((data.len() % 241) as u8);
    }
    data
}

fn fixture_transaction(arweave: &Arweave) -> Transaction {
    let last_tx = Base64::from_str("LCwsLCwsLA").unwrap();
    let other_tags = vec![Tag::<Base64>::from_utf8_strs("key2", "value2").unwrap()];
    arweave
        .create_transaction(png(1796), Some(other_tags), LastTx::Given(last_tx), (0, 0))
        .unwrap()
}

fn u64_at(bytes: &[u8], at: usize) -> u64 {
    u64::from_le_bytes(bytes[at..at + 8].try_into().unwrap())
}

fn u16_at(bytes: &[u8], at: usize) -> u16 {
    u16::from_le_bytes(bytes[at..at + 2].try_into().unwrap())
}

#[test]
fn test_cannot_post_unsigned_transaction() {
    let arweave = uploader();
    let transaction = fixture_transaction(&arweave);

    let error = arweave.post_transaction(&transaction).unwrap_err();
    assert!(matches!(error, Error::UnsignedTransaction));
}

#[test]
fn test_create_write_read_status() {
    let arweave = uploader();
    let file_path = "tests/fixtures/0.png";
    let transaction = fixture_transaction(&arweave);
    let signed_transaction = arweave.sign_transaction(transaction).unwrap();

    let status = Status::submitted(
        signed_transaction.id.clone(),
        signed_transaction.reward,
        Some(file_path.to_string()),
        NOW,
    );

    let mut log_dir: HashMap<String, Status> = HashMap::new();
    log_dir.insert(arweave.write_status(&status).unwrap(), status.clone());

    let read_status =
        arweave.read_status(log_dir.remove(&arweave.status_file(file_path))).unwrap();
    assert_eq!(status, read_status);

    let missing = log_dir.remove(&arweave.status_file(file_path));
    assert_eq!(arweave.read_status(missing), Err(Error::StatusNotFound));
}

fn write(arweave: &Arweave, dir: &mut HashMap<String, Status>, status: &Status) {
    dir.insert(arweave.write_status(status).unwrap(), status.clone());
}

fn read(arweave: &Arweave, dir: &HashMap<String, Status>, path: &str) -> Result<Status, Error> {
    arweave.read_status(dir.get(&arweave.status_file(path)).cloned())
}

fn logged(path: &str, id: u8) -> Status {
    Status::submitted(Base64(vec![id; 32]), 1, Some(path.to_string()), NOW)
}

#[test]
fn the_last_status_of_a_file_is_read() {
    let arweave = small_uploader();
    let (mut dir, mut other_dir) = (HashMap::new(), HashMap::new());
    let (earlier, later, other) = (logged("a", 1), logged("a", 2), logged("b", 3));
    write(&arweave, &mut other_dir, &earlier);
    write(&arweave, &mut dir, &earlier);
    write(&arweave, &mut dir, &other);
    assert_eq!(read(&arweave, &dir, "a"), Ok(earlier.clone()));
    write(&arweave, &mut dir, &later);
    assert_eq!(dir.len(), 2);
    assert_eq!(read(&arweave, &dir, "a"), Ok(later));
    assert_eq!(read(&arweave, &dir, "b"), Ok(other));
    assert_eq!(read(&arweave, &dir, "c"), Err(Error::StatusNotFound));
    assert_eq!(read(&arweave, &other_dir, "a"), Ok(earlier));
}

#[test]
fn updates_are_read_back() {
    let arweave = small_uploader();
    let mut dir = HashMap::new();
    write(&arweave, &mut dir, &logged("a", 1));
    write(&arweave, &mut dir, &logged("b", 2));
    let before = read(&arweave, &dir, "a").unwrap();
    let (after, name) = arweave.update_status(before, 404, &String::new(), None, NOW).unwrap();
    dir.insert(name, after.clone());
    assert_eq!(after.status, StatusCode::NotFound);
    assert_eq!(read(&arweave, &dir, "a"), Ok(after));
    assert_eq!(read(&arweave, &dir, "b"), Ok(logged("b", 2)));

    let mut unsigned = logged("a", 1);
    unsigned.id = Base64(Vec::new());
    assert_eq!(
        arweave.update_status(unsigned, 202, &String::new(), None, NOW),
        Err(Error::UnsignedTransaction)
    );
}

#[test]
fn test_deserialize_bundle() {
    let arweave = uploader();
    let pre_data_items: Vec<DataItem> = [png(1796), png(1882)]
        .into_iter()
        .map(|data| {
            let data_item = arweave.create_data_item(data, Vec::new()).unwrap();
            arweave.sign_data_item(data_item).unwrap()
        })
        .collect();

    let data_item_lens: Vec<usize> = pre_data_items.iter().map(|d| d.data.0.len()).collect();
    let bundle = arweave.create_bundle_from_data_items(pre_data_items.clone()).unwrap();

    // 2 items in the bundle
    assert_eq!(u64_at(&bundle, 0), 2);

    // 2892 bytes in the first item
    assert_eq!(u64_at(&bundle, 32), 2892);

    // 2978 bytes in the second item
    assert_eq!(u64_at(&bundle, 96), 2978);

    // signature type is 1
    assert_eq!(u16_at(&bundle, 160), 1u16);

    // owner is same as signer
    assert_eq!(
        &bundle[(162 + 512)..(162 + 1024)],
        &arweave.crypto.keypair_modulus().0[..]
    );

    // there is no anchor
    assert_eq!(bundle[160 + 2 + 1024 + 1], 0);

    // number of tags is 2
    assert_eq!(u64_at(&bundle, 160 + 2 + 1024 + 1 + 1), 2u64);

    // number of tag bytes is 52
    assert_eq!(u64_at(&bundle, 160 + 2 + 1024 + 1 + 1 + 8), 52u64);

    // signature type of second item is 1
    assert_eq!(
        u16_at(&bundle, 160 + 2 + 1024 + 1 + 1 + 8 + 8 + 52 + data_item_lens[0]),
        1u16
    );

    // data items verify and deserialize
    assert!(arweave.bundle_is_readable(&bundle));
    let post_data_items = arweave.deserialize_bundle(bundle).unwrap();
    assert_eq!(post_data_items.len(), 2);
    let mut pre_data_items_iter = pre_data_items.into_iter();
    let mut post_data_items_iter = post_data_items.into_iter();

    // deep hash items and signatures are the same and signatures verify
    for _ in 0..2 {
        let pre_data_item = pre_data_items_iter.next().unwrap();
        let post_data_item = post_data_items_iter.next().unwrap();
        let pre_deep_hash =
            arweave.crypto.deep_hash(pre_data_item.to_deep_hash_item().unwrap()).unwrap();
        let post_deep_hash =
            arweave.crypto.deep_hash(post_data_item.to_deep_hash_item().unwrap()).unwrap();
        assert_eq!(pre_deep_hash, post_deep_hash);
        assert_eq!(pre_data_item.signature, post_data_item.signature);
        arweave.crypto.verify(&pre_data_item.signature.0, &pre_deep_hash).unwrap();
        assert_eq!(pre_data_item, post_data_item);
    }
}

#[test]
fn an_uploader_is_set_up_with_a_key_pair() {
    let arweave = uploader();
    assert_eq!(arweave.name, "arweave");
    assert_eq!(arweave.units, "winstons");
    assert_eq!(arweave.base_url, DEFAULT_URL);
    assert_eq!(arweave.base_url, "https://arweave.net/");
    assert_eq!(arweave.crypto.keypair_modulus().0, unhex(KEY_4096[0]));
    assert_eq!(small_uploader().base_url, "https://node.example/a/b");
}

#[test]
fn components_that_do_not_fit_are_rejected() {
    let mut swapped = components(&KEY_2048);
    swapped.q = unhex(KEY_4096[4]);
    assert_eq!(Provider::from_components(swapped).err(), Some(Error::KeyRejected));
    let mut cut = components(&KEY_2048);
    cut.n.pop();
    assert_eq!(Arweave::from_keypair(cut, None).err(), Some(Error::KeyRejected));
}

#[test]
fn messages_are_hashed() {
    let crypto = uploader().crypto;
    assert_eq!(
        hex(&crypto.hash_sha256(b"abc").unwrap()),
        "ba7816bf8f01cfea414140de5dae2223b00361a396177a9cb410ff61f20015ad"
    );
    assert_eq!(
        crypto.wallet_address().0,
        crypto.hash_sha256(&crypto.keypair_modulus().0).unwrap()
    );
    let blob = |bytes: &[u8]| DeepHashItem::Blob(bytes.to_vec());
    assert_eq!(
        hex(&crypto.deep_hash(blob(b"abc")).unwrap()),
        "71115a30152ebcffb6defbb643abc8ef76f01fe323f1d62340646085960f6e34\
         7cb2d8e9a46ddee655b3012c6131d4e0"
    );
    let list = DeepHashItem::List(vec![
        blob(b"abc"),
        DeepHashItem::List(vec![]),
        DeepHashItem::List(vec![blob(b""), blob(b"xxxxxxxxxx")]),
    ]);
    assert_eq!(
        hex(&crypto.deep_hash(list).unwrap()),
        "12031cef2ea07afdf997c30a2643f2a9ae45cc79b53d3130649ada564a01366d\
         d20c60c9fd830512342dcfe1c449c7fc"
    );
}

#[test]
fn signatures_belong_to_a_message_and_a_key() {
    let crypto = uploader().crypto;
    let signature = crypto.sign(b"message").unwrap();
    assert_eq!(signature.len(), 512);
    assert_eq!(crypto.verify(&signature, b"message"), Ok(()));
    assert_eq!(crypto.verify(&signature, b"massage"), Err(Error::InvalidSignature));
    assert_eq!(crypto.verify(b"message", b"message"), Err(Error::InvalidSignature));
    let other = small_uploader().crypto;
    assert_eq!(other.verify(&signature, b"message"), Err(Error::InvalidSignature));
    assert_eq!(other.sign(b"message").unwrap().len(), 256);
}

#[test]
fn a_key_pair_at_odds_with_itself_does_not_sign() {
    let mut odd = components(&KEY_2048);
    odd.dp = odd.dq.clone();
    let crypto = Provider::from_components(odd).unwrap();
    assert_eq!(crypto.sign(b"message"), Err(Error::SigningFailed));
}

#[test]
fn requests_go_to_the_gateway() {
    let arweave = uploader();
    let id = Base64(vec![44; 7]);
    assert_eq!(
        arweave.wallet_balance_url(Some("abc".to_string())),
        Ok("https://arweave.net/wallet/abc/balance".to_string())
    );
    assert_eq!(
        arweave.wallet_balance_url(None),
        Ok(format!(
            "https://arweave.net/wallet/{}/balance",
            arweave.crypto.wallet_address().to_string()
        ))
    );
    assert_eq!(arweave.price_url(262144), Ok("https://arweave.net/price/262144".to_string()));
    assert_eq!(
        arweave.transaction_url(&id),
        Ok("https://arweave.net/tx/LCwsLCwsLA".to_string())
    );
    assert_eq!(arweave.pending_url(), Ok("https://arweave.net/tx/pending".to_string()));
    assert_eq!(
        arweave.raw_status_url(&id),
        Ok("https://arweave.net/tx/LCwsLCwsLA/status".to_string())
    );
    assert_eq!(arweave.anchor_url(), Ok("https://arweave.net/tx_anchor".to_string()));
    // the last segment of a base that does not end in a slash is replaced
    assert_eq!(
        small_uploader().anchor_url(),
        Ok("https://node.example/a/tx_anchor".to_string())
    );
}

#[test]
fn a_gateway_that_is_no_url_is_an_error() {
    let arweave =
        Arweave::from_keypair(components(&KEY_2048), Some("no url".to_string())).unwrap();
    assert_eq!(arweave.pending_url(), Err(Error::InvalidUrl));
    assert_eq!(arweave.price_url(1), Err(Error::InvalidUrl));
}

#[test]
fn price_terms_are_the_base_and_the_increment() {
    assert_eq!(uploader().price_terms(10, 13), (10, 3));
}

#[test]
fn transactions_hold_what_is_uploaded() {
    let arweave = uploader();
    let data = png(300000);
    let tx = arweave
        .create_transaction(data.clone(), None, LastTx::Fetched("LCwsLCwsLA".to_string()), (10, 3))
        .unwrap();
    assert_eq!(tx.format, 2);
    assert_eq!(tx.data.0, data);
    assert_eq!(tx.data_size, 300000);
    assert_eq!(tx.reward, 13);
    assert_eq!(tx.quantity, 0);
    assert_eq!(tx.last_tx, Base64(vec![44; 7]));
    assert_eq!(tx.owner, arweave.crypto.keypair_modulus());
    assert_eq!(tx.chunks, generate_leaves(&data));
    assert_eq!(tx.data_root.0, generate_data_root(generate_leaves(&data)).id);
    assert_eq!((tx.chunks.len(), tx.proofs.len()), (2, 2));
    assert_eq!(tx.data_root.0.len(), 32);
    assert_eq!(tx.id, Base64(Vec::new()));
    assert_eq!(tx.signature, Base64(Vec::new()));
    let tags: Vec<(String, String)> = tx
        .tags
        .iter()
        .map(|t| {
            (
                String::from_utf8(t.name.0.clone()).unwrap(),
                String::from_utf8(t.value.0.clone()).unwrap(),
            )
        })
        .collect();
    assert_eq!(
        tags,
        vec![
            ("Content-Type".to_string(), "image/png".to_string()),
            ("User-Agent".to_string(), "arloader/0.1.20".to_string()),
        ]
    );
}

#[test]
fn other_tags_follow_the_standard_ones() {
    let arweave = uploader();
    let tx = fixture_transaction(&arweave);
    assert_eq!(tx.tags.len(), 3);
    assert_eq!(tx.tags[2], Tag::<Base64>::from_utf8_strs("key2", "value2").unwrap());
    let plain = arweave
        .create_transaction(vec![0], None, LastTx::Given(Base64(Vec::new())), (1, 1))
        .unwrap();
    assert_eq!(plain.tags[0].value.0, b"application/octet-stream".to_vec());
    let named = arweave
        .create_transaction_of_type(
            vec![0],
            Some("text/x-own".to_string()),
            None,
            LastTx::Given(Base64(Vec::new())),
            (1, 1),
        )
        .unwrap();
    assert_eq!(named.tags[0].value.0, b"text/x-own".to_vec());
}

#[test]
fn an_anchor_that_is_no_base64_is_an_error() {
    let made =
        uploader().create_transaction(vec![1], None, LastTx::Fetched("no!".to_string()), (1, 1));
    assert_eq!(made, Err(Error::InvalidBase64));
}

#[test]
fn signing_sets_signature_and_id_and_nothing_else() {
    let arweave = uploader();
    let signed = arweave.sign_transaction(fixture_transaction(&arweave)).unwrap();
    let hash = arweave.crypto.deep_hash(signed.to_deep_hash_item().unwrap()).unwrap();
    assert_eq!(arweave.crypto.verify(&signed.signature.0, &hash), Ok(()));
    assert_eq!(signed.id.0, arweave.crypto.hash_sha256(&signed.signature.0).unwrap());
    assert_eq!(
        arweave.post_transaction(&signed),
        Ok("https://arweave.net/tx/".to_string())
    );
    let mut unsigned = fixture_transaction(&arweave);
    unsigned.signature = signed.signature.clone();
    unsigned.id = signed.id.clone();
    assert_eq!(unsigned, signed);
}

#[test]
fn what_is_signed_is_a_list_of_nine() {
    let arweave = uploader();
    let tx = fixture_transaction(&arweave);
    let fields = match tx.to_deep_hash_item().unwrap() {
        DeepHashItem::List(fields) => fields,
        DeepHashItem::Blob(_) => unreachable!(),
    };
    let blobs: Vec<Option<Vec<u8>>> = fields
        .iter()
        .map(|f| match f {
            DeepHashItem::Blob(bytes) => Some(bytes.clone()),
            DeepHashItem::List(_) => None,
        })
        .collect();
    assert_eq!(
        blobs,
        vec![
            Some(b"2".to_vec()),
            Some(tx.owner.0.clone()),
            Some(Vec::new()),
            Some(b"0".to_vec()),
            Some(b"0".to_vec()),
            Some(vec![44; 7]),
            None,
            Some(b"1796".to_vec()),
            Some(tx.data_root.0.clone()),
        ]
    );
}

#[test]
fn only_the_second_format_is_signed() {
    let arweave = small_uploader();
    let mut tx = fixture_transaction(&arweave);
    tx.format = 1;
    assert_eq!(arweave.sign_transaction(tx), Err(Error::UnsupportedFormat));
}

#[test]
fn data_items_are_tagged_behind_the_given_tags() {
    let arweave = small_uploader();
    let given = vec![Tag::<String>::from_utf8_strs("a", "b").unwrap()];
    let item = arweave.create_data_item(vec![1, 2], given).unwrap();
    let tags: Vec<(&str, &str)> =
        item.tags.iter().map(|t| (t.name.as_str(), t.value.as_str())).collect();
    assert_eq!(
        tags,
        vec![
            ("a", "b"),
            ("Content-Type", "application/octet-stream"),
            ("User-Agent", "arloader/0.1.20"),
        ]
    );
    assert_eq!(item.data.0, vec![1, 2]);
    assert!(item.id.0.is_empty() && item.signature.0.is_empty() && item.owner.0.is_empty());
    let named = arweave
        .create_data_item_of_type(vec![1], Some("text/x-own".to_string()), Vec::new())
        .unwrap();
    assert_eq!(named.tags[0].value, "text/x-own");
}

#[test]
fn signing_makes_the_key_pair_the_owner_of_a_data_item() {
    let arweave = small_uploader();
    let item = arweave.create_data_item(vec![1, 2], Vec::new()).unwrap();
    let signed = arweave.sign_data_item(item.clone()).unwrap();
    assert_eq!(signed.owner, arweave.crypto.keypair_modulus());
    assert_eq!(signed.id.0, arweave.crypto.hash_sha256(&signed.signature.0).unwrap());
    assert!(check_item(&arweave.crypto, &signed));
    assert!(!check_item(&uploader().crypto, &signed));
    assert_eq!((signed.tags, signed.data), (item.tags, item.data));
}

#[test]
fn data_items_of_files_come_with_their_status() {
    let arweave = small_uploader();
    let path = "some/file".to_string();
    let (item, logged) = arweave
        .create_data_item_from_file_path(path.clone(), vec![5], Vec::new(), true, NOW)
        .unwrap();
    let (status, name) = logged.unwrap();
    assert_eq!(status, Status::submitted(item.id, 0, Some(path.clone()), NOW));
    assert_eq!(name, arweave.status_file(&path));
    let (_, logged) = arweave
        .create_data_item_from_file_path(path, vec![5], Vec::new(), false, NOW)
        .unwrap();
    assert!(logged.is_none());
}

#[test]
fn a_data_item_that_was_not_signed_is_not_logged() {
    let arweave = small_uploader();
    let item = arweave.create_data_item(vec![5], Vec::new()).unwrap();
    let refused = arweave.log_data_item(&item, "some/file".to_string(), NOW);
    assert_eq!(refused, Err(Error::UnsignedTransaction));
}

fn one_item_bundle(arweave: &Arweave) -> Vec<u8> {
    let item = arweave.create_data_item(vec![5, 6], Vec::new()).unwrap();
    let signed = arweave.sign_data_item(item).unwrap();
    arweave.create_bundle_from_data_items(vec![signed]).unwrap()
}

#[test]
fn an_empty_bundle_holds_nothing() {
    let arweave = uploader();
    let bundle = arweave.create_bundle_from_data_items(Vec::new()).unwrap();
    assert_eq!(bundle, vec![0; 32]);
    assert_eq!(arweave.try_deserialize_bundle(bundle), Some(Ok(Vec::new())));
}

#[test]
fn bundles_that_are_cut_short_are_not_read() {
    let arweave = uploader();
    let bundle = one_item_bundle(&arweave);
    for len in [0, 31, 33, 95, 96, bundle.len() - 1] {
        assert!(!arweave.bundle_is_readable(&bundle[..len].to_vec()));
        assert_eq!(arweave.try_deserialize_bundle(bundle[..len].to_vec()), None);
    }
    let mut longer = bundle.clone();
    longer.push(1);
    assert_eq!(arweave.deserialize_bundle(longer).unwrap().len(), 1);
}

#[test]
fn bundles_of_more_than_two_items_are_not_read() {
    let arweave = uploader();
    let item = arweave.create_data_item(vec![5, 6], Vec::new()).unwrap();
    let signed = arweave.sign_data_item(item).unwrap();
    let items = vec![signed.clone(), signed.clone(), signed];
    let bundle = arweave.create_bundle_from_data_items(items).unwrap();
    assert_eq!(u64_at(&bundle, 0), 3);
    assert_eq!(arweave.try_deserialize_bundle(bundle), None);
}

#[test]
fn bundles_with_a_malformed_item_are_an_error() {
    let arweave = uploader();
    let mut bundle = one_item_bundle(&arweave);
    bundle[96] = 2;
    assert_eq!(arweave.deserialize_bundle(bundle), Err(Error::MalformedDataItem));
}

#[test]
fn bundles_with_a_forged_item_are_not_read() {
    let arweave = uploader();
    let mut bundle = one_item_bundle(&arweave);
    let last = bundle.len() - 1;
    bundle[last] ^= 1;
    assert_eq!(arweave.try_deserialize_bundle(bundle), None);
}

#[test]
fn bundles_are_uploaded_with_their_tags() {
    let arweave = uploader();
    let item = arweave.create_data_item(vec![5, 6], Vec::new()).unwrap();
    let signed = arweave.sign_data_item(item).unwrap();
    let bundle = arweave.create_bundle_from_data_items(vec![signed.clone()]).unwrap();
    let tx = arweave
        .create_bundle_transaction(
            vec![signed],
            LastTx::Fetched("LCwsLCwsLA".to_string()),
            (4, 5),
        )
        .unwrap();
    assert_eq!(tx.data.0, bundle);
    assert_eq!(tx.reward, 4);
    assert_eq!(
        &tx.tags[2..],
        &[
            Tag::<Base64>::from_utf8_strs("Bundle-Format", "binary").unwrap(),
            Tag::<Base64>::from_utf8_strs("Bundle-Version", "2.0.0").unwrap(),
        ]
    );
}

fn order(log: bool, last_tx: Option<Base64>, payment: Payment) -> Order {
    Order {
        file_path: "some/file".to_string(),
        log,
        tags: None,
        last_tx,
        price_terms: (25_002_500, 1),
        payment,
    }
}

#[test]
fn an_upload_is_signed_posted_and_logged() {
    let arweave = uploader();
    let stage = arweave
        .upload_file_from_path(order(true, None, Payment::Winstons), vec![1, 2, 3])
        .unwrap();
    let (order, data) = match stage {
        Stage::Anchor { order, data, url } => {
            assert_eq!(url, "https://arweave.net/tx_anchor");
            (order, data)
        }
        other => panic!("{:?}", other),
    };
    let stage = arweave.anchor_fetched(order, data, "LCwsLCwsLA".to_string()).unwrap();
    let (file_path, log, transaction, sol_sig) = match stage {
        Stage::Post { file_path, log, transaction, sol_sig, url } => {
            assert_eq!(url, "https://arweave.net/tx/");
            (file_path, log, transaction, sol_sig)
        }
        other => panic!("{:?}", other),
    };
    assert_eq!(transaction.last_tx, Base64(vec![44; 7]));
    assert_eq!(sol_sig, None);
    match arweave.posted(file_path, log, &transaction, sol_sig, 200, NOW).unwrap() {
        Stage::Log { status, file_name } => {
            assert_eq!(file_name, arweave.status_file("some/file"));
            assert_eq!(
                status,
                Status::submitted(
                    transaction.id.clone(),
                    25_002_500,
                    Some("some/file".to_string()),
                    NOW
                )
            );
        }
        other => panic!("{:?}", other),
    }
}

#[test]
fn an_upload_with_a_bad_anchor_fails() {
    let arweave = small_uploader();
    let failed = arweave.anchor_fetched(
        order(true, None, Payment::Winstons),
        vec![1],
        "no!".to_string(),
    );
    assert_eq!(failed.err(), Some(Error::InvalidBase64));
}

fn response(id: Vec<u8>) -> SigResponse {
    SigResponse {
        ar_tx_sig: Base64(vec![1; 512]),
        ar_tx_id: Base64(id),
        ar_tx_owner: Base64(vec![3; 512]),
    }
}

#[test]
fn an_upload_is_paid_for_with_sol() {
    let arweave = uploader();
    let terms = SolTerms { rate: 2500, floor: 10000 };
    for log in [true, false] {
        let ordered = order(log, Some(Base64(vec![44; 7])), Payment::Sol(terms));
        let stage = arweave.upload_file_from_path(ordered, vec![1, 2, 3]).unwrap();
        let (order, transaction) = match stage {
            Stage::Pay { order, transaction, request } => {
                assert_eq!(request.lamports, 10001);
                assert_eq!(
                    arweave.crypto.deep_hash(request.item).unwrap(),
                    arweave
                        .crypto
                        .deep_hash(transaction.to_deep_hash_item().unwrap())
                        .unwrap()
                );
                (order, transaction)
            }
            other => panic!("{:?}", other),
        };
        let stage = arweave
            .upload_file_from_path_with_sol(order, transaction, response(vec![2; 32]))
            .unwrap();
        let (file_path, log, transaction, sol_sig) = match stage {
            Stage::Post { file_path, log, transaction, sol_sig, .. } => {
                (file_path, log, transaction, sol_sig)
            }
            other => panic!("{:?}", other),
        };
        assert_eq!(transaction.signature, Base64(vec![1; 512]));
        assert_eq!(transaction.id, Base64(vec![2; 32]));
        assert_eq!(transaction.owner, Base64(vec![3; 512]));
        match arweave.posted(file_path, log, &transaction, sol_sig, 200, NOW).unwrap() {
            Stage::Log { status, .. } => {
                assert!(log);
                assert_eq!(status.sol_sig, Some(response(vec![2; 32])));
            }
            Stage::Done { status } => {
                assert!(!log);
                assert_eq!(status.sol_sig, None);
            }
            other => panic!("{:?}", other),
        }
    }
}

#[test]
fn a_signed_transaction_goes_to_the_network() {
    let arweave = uploader();
    let signed = fixture_transaction(&arweave).identify(vec![7; 512], vec![8; 32]);
    match arweave.transaction_signed(order(false, None, Payment::Winstons), signed, None).unwrap() {
        Stage::Post { file_path, log, transaction, sol_sig, url } => {
            assert_eq!((file_path.as_str(), log), ("some/file", false));
            assert_eq!(transaction.id, Base64(vec![8; 32]));
            assert_eq!(sol_sig, None);
            assert_eq!(url, "https://arweave.net/tx/");
        }
        other => panic!("{:?}", other),
    }
}

#[test]
fn only_data_that_can_be_paid_for_is_uploaded() {
    let free = SolTerms { rate: 0, floor: 1 };
    assert!(order(true, None, Payment::Winstons).can_afford(&vec![1]));
    assert!(!order(true, None, Payment::Winstons).can_afford(&Vec::new()));
    assert!(!order(true, None, Payment::Sol(free)).can_afford(&vec![1]));
}

#[test]
fn a_sol_signature_without_an_id_is_not_posted() {
    let arweave = small_uploader();
    let refused = arweave.upload_file_from_path_with_sol(
        order(true, None, Payment::Winstons),
        fixture_transaction(&arweave),
        response(Vec::new()),
    );
    assert_eq!(refused.err(), Some(Error::UnsignedTransaction));
}

#[test]
fn paths_go_with_the_tags_at_their_place() {
    let arweave = small_uploader();
    let paths = vec!["a".to_string(), "b".to_string(), "c".to_string()];
    let list = vec![Tag::<Base64>::from_utf8_strs("k", "v").unwrap()];
    let tags = Some(vec![None, Some(list.clone())]);
    let orders = arweave.upload_files_from_paths(&paths, true, &tags, &None, (1, 2));
    assert_eq!(orders.len(), 2);
    assert_eq!((orders[0].file_path.as_str(), &orders[0].tags), ("a", &None));
    assert_eq!((orders[1].file_path.as_str(), &orders[1].tags), ("b", &Some(list.clone())));
    let same = Some(vec![None, Some(list.clone()), None]);
    assert_eq!(arweave.upload_files_from_paths(&paths, true, &same, &None, (1, 2)).len(), 3);
    let anchor = Some(Base64(vec![1]));
    let orders = arweave.upload_files_from_paths(&paths, false, &None, &anchor, (1, 2));
    assert_eq!(orders.len(), 3);
    assert!(orders.iter().all(|o| o.tags.is_none() && !o.log && o.last_tx == anchor));
    assert!(orders.iter().all(|o| o.price_terms == (1, 2)));
}

#[test]
fn reports_are_made_from_statuses() {
    let arweave = small_uploader();
    let status = Status::submitted(Base64(vec![44; 7]), 1, Some("p".to_string()), NOW);
    assert!(arweave.status_summary(&vec![status.clone()]).ends_with("         1\n"));
    let manifest = arweave.write_manifest(&vec![status.clone()]);
    assert!(manifest.contains("\"p\":{\"id\":\"LCwsLCwsLA\"}"));
    let raw = RawStatus {
        block_height: 1,
        block_indep_hash: Base64(vec![]),
        number_of_confirmations: 2,
    };
    let (confirmed, name) =
        arweave.update_status(status, 200, &"{}".to_string(), Some(raw), NOW).unwrap();
    assert_eq!(confirmed.status, StatusCode::Confirmed);
    assert_eq!(name, arweave.status_file("p"));
    let kept = arweave.filter_statuses(
        vec![confirmed],
        Some(vec![StatusCode::Confirmed]),
        Some(1),
    );
    assert!(kept.is_empty());
}
