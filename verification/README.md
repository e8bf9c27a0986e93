# arloader

A library for uploading files in bulk to [Arweave](https://www.arweave.org/): it prepares and signs
transactions, packs data items into bundles, and keeps track of what became of uploads. Its logic is
written in Verus, with contracts that say what every function returns.

| Module        | What it holds                                                            |
|---------------|--------------------------------------------------------------------------|
| `arweave`     | the uploader: transactions, data items, bundles, statuses, gateway URLs   |
| `upload`      | the way of a file from the disk to the network and into the log           |
| `transaction` | transactions, their price, what is signed                                 |
| `bundle`      | data items and bundles in binary form                                     |
| `merkle`      | the tree of hashes over the chunks of a transaction's data                |
| `crypto`      | hashing, the deep hash, signatures                                        |
| `status`      | statuses, filters, the summary, answers of the network                    |
| `log`         | the files that statuses are logged in                                     |
| `manifest`    | the manifest from paths to ids                                            |
| `solana`      | paying with SOL                                                           |
| `avro`, `base64`, `encoding`, `tag`, `text`, `content`, `views` | what the others are built of |

`app/` is ordinary Rust around the library: files, HTTP, JSON, time and streams.

What is taken on trust are the calls into other crates: hashes and RSA-PSS signatures (`ring`), file
hashes (`blake3`), content types (`infer`), URLs (`url`) and JSON strings (`serde_json`). Each stands
behind a small function whose doc comment says what is claimed of the call.

A bundle is read back if it holds at most two items.
