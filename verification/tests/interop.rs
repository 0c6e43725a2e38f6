use minigit::commit::log_entry;
use minigit::index::{list_index, parse_index, serialize_index};
use minigit::kind::Kind;
use minigit::object::{object_id, read_tree, Object};
use minigit::pack::{dump_pack, dump_pack_index, parse_pack_entry, parse_pack_index, PackObjectType};
use minigit::tree::{build_tree, TreeChild};

// Samples taken from a repository that git made: a pack with one delta, its
// index, the staging index, two commits, the tree of the second commit, and
// the content that the delta stands for.

const PACK: &str = "5041434b00000002000000099d0a789c7dca4d0e02210c40e13da7606f624af92924c678082f504a892e6630\
    0cdedf39816ffbbd35552de4d80ae446359377dc6b92de8b36260f80e8d80b2b72301f9eba2f4b1452a85d9a\
    2f9df8248828e20272e51813b68a81728a86bfeb35a67dda1b3fea55eed645a2ec5306b017383332b6edbd96\
    fe9dcca132f6667ec1262f819b07789c7dcacb0980300c00d07ba7c85d90a6b59f808843b8401b03f6500589\
    fbeb04bef3d35b042486297324ef103924aae8050b5175115df265a7e0325b31e5d1e3ba6183b9ac75e40530\
    a4947dccd6c2603f86afde9baafc26d3cea6e6050168200ab425789c3d914b6a43010845e76f152ec1ff6701\
    1d144af710dad0064246dd3f353ccdf0a05eafd7fbed71050452cca2e3fe24022b4f93931832d32a4f124825\
    163b49211133860cdc29f80407f650ab93027ac8d54f4a302ac359571015c55323040d121e4d22d032ca4506\
    4f61d54101a944db6afbe14059290366a43d841caacdcf21146d82cc5629812b78a9a0c483f0f878ff7c0346\
    f8fabd3c7eaedf90e1e29b4c7bebebd70c33a849e49ccc02dd5aafaaf6992538ebd93a3a555e297f5add5a40\
    70b96c2d413d902758ae6ee8b8621e8210e6b65b85fa4118fb12e1f651ed71b03d51a56fb3421551ee6fadd3\
    0faa59249d971ad34a458f73eace668be36b4f9b12453ffe2eb7fbf10f776d900736789ccb48cdc9c9e70200\
    084b021f36789ccbcccb4b2de2020008770227a706789c3334303033315148492c49d42ba9286170987bd7ef\
    ff8fb46986b3cb1e49d4cc58f4bfe8759321444d466a4e4e3e58d13946335566ee15b757b27d0f9b563f6fce\
    e2296e5e260640a0505c9ac45062ff7fed4a9b74f9ce850e158ef79f455f0e178a070056752a07a002789c33\
    343030373555a8d02bce60f810e6f13c78cfd45bd30f6d0f9e602328c8269bbe1e00bd160c51a706789c3334\
    303033315148492c49d42ba92861d8facfeddcdcbfcbbc7be32a64eb9d626e54dd0e513184a8c948cdc9c907\
    2b3ac768a6caccbde2f64ab6ef61d3eae7cd593cc5cdcbc40008148a4b93184aecffaf5d69932edfb9d0a1c2\
    f1feb3e8cbe142f10006e028d0e4018331789cbbc2729c65833c237b4e665eaa8291c1663d4645460045d305\
    a995651f0310253cfab4f3882efe65fd0478c24933";

const PACK_INDEX: &str = "ff744f6300000002000000000000000000000000000000000000000000000000000000000000000000000001\
    0000000100000001000000010000000100000001000000010000000100000001000000010000000100000001\
    0000000100000001000000010000000100000001000000010000000100000001000000010000000100000001\
    0000000100000001000000010000000100000001000000010000000100000001000000010000000100000001\
    0000000100000001000000010000000100000001000000010000000100000001000000010000000100000001\
    0000000100000001000000010000000100000001000000010000000100000001000000010000000100000001\
    0000000200000002000000020000000200000002000000020000000200000002000000020000000200000002\
    0000000200000002000000020000000200000002000000020000000200000002000000020000000200000002\
    0000000200000002000000020000000200000002000000020000000200000002000000020000000200000002\
    0000000200000002000000020000000200000002000000020000000200000002000000020000000200000002\
    0000000200000002000000020000000200000002000000020000000200000002000000030000000300000003\
    0000000400000004000000040000000400000004000000040000000400000004000000040000000400000004\
    0000000400000004000000040000000400000004000000040000000400000004000000040000000400000004\
    0000000400000004000000040000000400000004000000050000000500000005000000050000000500000005\
    0000000500000005000000050000000500000005000000050000000500000005000000050000000500000005\
    0000000500000005000000050000000500000005000000050000000500000005000000050000000500000005\
    0000000500000005000000050000000500000005000000050000000500000006000000060000000600000006\
    0000000600000006000000060000000600000006000000060000000600000006000000060000000600000006\
    0000000600000006000000060000000600000006000000060000000600000006000000060000000600000007\
    0000000700000007000000070000000700000007000000070000000700000007000000070000000700000007\
    0000000700000007000000070000000700000007000000070000000700000007000000070000000700000007\
    0000000700000008000000080000000800000008000000080000000800000008000000080000000800000008\
    0000000900000009000000090000000900000009000000090000000900000009000000090000000900000009\
    0000000900000009000000090000000900000009085d908d7b8731afb6cff9eda7300221a3cae2a4409ddd4e\
    fff86696319b76e2187c98a2ff72eb82743fffada93c671f89a1407841dfe65bd357125f77464bfcd39f7aae\
    2052cc142aba5562db247865927b25df943a6eaad052f9bad0c559a4c207da79b5fe46ce9dfda64b8d5e781d\
    7f425cd87adb5424ce013625030ba8dba906f756967f9e9ca394464ae6548c693211c579b13e1a99b261273a\
    d9528c0ef05648e753bc95da97c2b753903c1111061d67afb4c87508ce29e263b76410474fe5d2de3e6fe52e\
    5d7b28e2529415001d05472a80c0abc500000223000000f40000028f000000900000000c0000032500000205\
    000002ba0000021495651f0310253cfab4f3882efe65fd0478c24933d902af6a28027f2685f0b9839c300bfb\
    979f1f60";

const STAGING: &str = "4449524300000002000000036ae28926060c46256ae28926060c46250000fe0000f64042000081a400000000\
    0000000000000254409ddd4efff86696319b76e2187c98a2ff72eb820008646174612e74787400006ae28925\
    3888ba9c6ae289253888ba9c0000fe0000f64053000081a4000000000000000000000006ce013625030ba8db\
    a906f756967f9e9ca394464a000968656c6c6f2e747874006ae2892539224b216ae289253914eaa70000fe00\
    00f64072000081ed000000000000000000000006f05648e753bc95da97c2b753903c1111061d67af00087375\
    622f782e736800005452454500000035003320310a085d908d7b8731afb6cff9eda7300221a3cae2a4737562\
    003120300a743fffada93c671f89a1407841dfe65bd357125f834f85f2f1277b90cba48bc071c5d05bef8814\
    db";

const SECOND_COMMIT: &str = "7472656520303835643930386437623837333161666236636666396564613733303032323161336361653261\
    340a706172656e74203737343634626663643339663761616532303532636331343261626135353632646232\
    34373836350a617574686f722054203c6140622e633e2031353737383336383030202b303030300a636f6d6d\
    69747465722054203c6140622e633e2031353737383336383030202b303030300a0a7365636f6e640a";

const FIRST_COMMIT: &str = "7472656520653635343863363933323131633537396231336531613939623236313237336164393532386330\
    650a617574686f722054203c6140622e633e2031353737383336383030202b303030300a636f6d6d69747465\
    722054203c6140622e633e2031353737383336383030202b303030300a0a696e69740a";

const ROOT_TREE: &str = "31303036343420646174612e74787400409ddd4efff86696319b76e2187c98a2ff72eb823130303634342068\
    656c6c6f2e74787400ce013625030ba8dba906f756967f9e9ca394464a34303030302073756200743fffada9\
    3c671f89a1407841dfe65bd357125f";

const OLD_DATA: &str = "6c696e652030203134303839310a6c696e652031203539363835330a6c696e652032203838383539380a6c69\
    6e652033203834313233350a6c696e652034203830303837350a6c696e6520352036363137320a6c696e6520\
    36203236373435390a6c696e652037203132333634360a6c696e652038203531393530310a6c696e65203920\
    3739373932360a6c696e65203130203437313332350a6c696e65203131203439353138350a6c696e65203132\
    203638333234340a6c696e65203133203339383035350a6c696e65203134203832373033360a6c696e652031\
    35203232303135330a6c696e652031362039383431380a6c696e65203137203531313535340a6c696e652031\
    382032393732340a6c696e65203139203933363731300a6c696e65203230203837363336330a6c696e652032\
    31203430383734340a6c696e65203232203435333738390a6c696e65203233203633363934340a6c696e6520\
    3234203739393330380a6c696e65203235203830343432330a6c696e6520323620323230380a6c696e652032\
    37203732393633330a6c696e65203238203436373032320a6c696e65203239203237393236370a6c696e6520\
    3330203735363538390a6c696e65203331203834303737350a6c696e65203332203233393837340a6c696e65\
    203333203631393836390a6c696e65203334203939313138380a6c696e65203335203130373139320a6c696e\
    65203336203934353231350a6c696e65203337203333323834390a6c696e652033382033323037350a6c696e\
    652033392032333430360a";


fn sample(text: &str) -> Vec<u8> {
    let raw = text.as_bytes();
    let mut out = Vec::new();
    let mut i = 0;
    while i + 1 < raw.len() {
        out.push(u8::from_str_radix(std::str::from_utf8(&raw[i..i + 2]).unwrap(), 16).unwrap());
        i += 2;
    }
    out
}

fn id(text: &str) -> [u8; 20] {
    let bytes = sample(text);
    let mut out = [0u8; 20];
    out.copy_from_slice(&bytes);
    out
}

fn text_of(id: &[u8]) -> String {
    let mut out = String::new();
    for b in id {
        out.push_str(&format!("{:02x}", b));
    }
    out
}

#[test]
fn a_pack_made_by_git_is_listed() {
    let expected = "927b25df943a6eaad052f9bad0c559a4c207da79 commit 173 132 12\n\
         77464bfcd39f7aae2052cc142aba5562db247865 commit 123 100 144\n\
         409ddd4efff86696319b76e2187c98a2ff72eb82 blob 596 273 244\n\
         ce013625030ba8dba906f756967f9e9ca394464a blob 6 15 517\n\
         f05648e753bc95da97c2b753903c1111061d67af blob 6 15 532\n\
         085d908d7b8731afb6cff9eda7300221a3cae2a4 tree 103 108 547\n\
         743fffada93c671f89a1407841dfe65bd357125f tree 32 43 655\n\
         e6548c693211c579b13e1a99b261273ad9528c0e tree 103 107 698\n\
         b5fe46ce9dfda64b8d5e781d7f425cd87adb5424 blob 583 32 805\n";
    assert_eq!(String::from_utf8(dump_pack(&sample(PACK)).unwrap()).unwrap(), expected);
}

#[test]
fn a_delta_made_by_git_is_rebuilt() {
    let pack = sample(PACK);
    let object = parse_pack_entry(&pack, 805).unwrap();
    assert_eq!(object.object_type, PackObjectType::Blob);
    assert_eq!(object.object_size, 583);
    assert_eq!(object.object_data, sample(OLD_DATA));
    assert_eq!(object.pos, 805);
    assert_eq!(object.end_pos, 837);
    assert_eq!(
        text_of(&object_id(Kind::Blob(false), &object.object_data)),
        "b5fe46ce9dfda64b8d5e781d7f425cd87adb5424"
    );
    let base = parse_pack_entry(&pack, 244).unwrap();
    assert_eq!(base.object_size, 596);
    assert_eq!(
        text_of(&object_id(Kind::Blob(false), &base.object_data)),
        "409ddd4efff86696319b76e2187c98a2ff72eb82"
    );
}

#[test]
fn a_pack_index_made_by_git_is_listed() {
    let data = sample(PACK_INDEX);
    let entries = parse_pack_index(&data).unwrap();
    assert_eq!(entries.len(), 9);
    assert_eq!(entries[8].name, id("f05648e753bc95da97c2b753903c1111061d67af"));
    assert_eq!(entries[8].offset, 532);
    assert_eq!(entries[8].crc32, 0x80c0abc5);
    let expected = "085d908d7b8731afb6cff9eda7300221a3cae2a4 offset: 0x223 crc32: 3033036040\n\
         409ddd4efff86696319b76e2187c98a2ff72eb82 offset: 0xf4 crc32: 3458851427\n\
         743fffada93c671f89a1407841dfe65bd357125f offset: 0x28f crc32: 3076788295\n\
         77464bfcd39f7aae2052cc142aba5562db247865 offset: 0x90 crc32: 1340461790\n\
         927b25df943a6eaad052f9bad0c559a4c207da79 offset: 0xc crc32: 1047520558\n\
         b5fe46ce9dfda64b8d5e781d7f425cd87adb5424 offset: 0x325 crc32: 1568352482\n\
         ce013625030ba8dba906f756967f9e9ca394464a offset: 0x205 crc32: 1385436416\n\
         e6548c693211c579b13e1a99b261273ad9528c0e offset: 0x2ba crc32: 486885162\n\
         f05648e753bc95da97c2b753903c1111061d67af offset: 0x214 crc32: 2160110533\n";
    assert_eq!(String::from_utf8(dump_pack_index(&data).unwrap()).unwrap(), expected);
}

#[test]
fn a_staging_index_made_by_git_is_read() {
    let data = sample(STAGING);
    let mut index = parse_index(&data).unwrap();
    assert_eq!(index.header.entries_count, 3);
    assert_eq!(index.entries.len(), 3);
    assert_eq!(index.entries[0].file_path, b"data.txt".to_vec());
    assert_eq!(index.entries[0].ctime_s, 1793231142);
    assert_eq!(index.entries[0].ctime_n, 101467685);
    assert_eq!(index.entries[0].dev, 65024);
    assert_eq!(index.entries[0].ino, 16138306);
    assert_eq!(index.entries[0].mode, 0o100644);
    assert_eq!(index.entries[0].size, 596);
    assert_eq!(index.entries[0].flags, 8);
    assert_eq!(index.entries[1].file_path, b"hello.txt".to_vec());
    assert_eq!(index.entries[1].sha1, id("ce013625030ba8dba906f756967f9e9ca394464a"));
    assert_eq!(index.entries[2].file_path, b"sub/x.sh".to_vec());
    assert_eq!(index.entries[2].mode, 0o100755);
    assert_eq!(index.entries[2].mtime_n, 957672103);
    assert_eq!(
        String::from_utf8(list_index(&index)).unwrap(),
        "409ddd4efff86696319b76e2187c98a2ff72eb82 data.txt\n\
         ce013625030ba8dba906f756967f9e9ca394464a hello.txt\n\
         f05648e753bc95da97c2b753903c1111061d67af sub/x.sh\n"
    );
    // head and entries are written as git wrote them
    let written = serialize_index(&mut index.entries);
    assert_eq!(&written[..228], &data[..228]);
    assert_eq!(written.len(), 228 + 20);
}

#[test]
fn commits_made_by_git_have_their_ids_and_their_log() {
    let second = sample(SECOND_COMMIT);
    let first = sample(FIRST_COMMIT);
    let second_id = object_id(Kind::Commit, &second);
    let first_id = object_id(Kind::Commit, &first);
    assert_eq!(text_of(&second_id), "927b25df943a6eaad052f9bad0c559a4c207da79");
    assert_eq!(text_of(&first_id), "77464bfcd39f7aae2052cc142aba5562db247865");
    let step = log_entry(&second_id, &second).unwrap();
    assert_eq!(step.line, b"927b25df943a6eaad052f9bad0c559a4c207da79 second\n".to_vec());
    assert_eq!(step.parent, Some(first_id));
    let step = log_entry(&first_id, &first).unwrap();
    assert_eq!(step.line, b"77464bfcd39f7aae2052cc142aba5562db247865 init\n".to_vec());
    assert_eq!(step.parent, None);
}

#[test]
fn a_tree_made_by_git_is_read_and_built_again() {
    let payload = sample(ROOT_TREE);
    assert_eq!(
        text_of(&object_id(Kind::Tree, &payload)),
        "085d908d7b8731afb6cff9eda7300221a3cae2a4"
    );
    let entries = read_tree(&payload).unwrap();
    assert_eq!(entries.len(), 3);
    assert_eq!(entries[0].name, "data.txt");
    assert_eq!(entries[1].name, "hello.txt");
    assert_eq!(entries[2].name, "sub");
    assert_eq!(entries[2].mode, "40000");
    assert_eq!(entries[2].kind, Kind::Tree);
    let sub = build_tree(&vec![TreeChild {
        name: "x.sh".to_string(),
        is_dir: false,
        mode: 0o100755,
        hash: id("f05648e753bc95da97c2b753903c1111061d67af"),
    }])
    .unwrap();
    assert_eq!(text_of(&sub.hash), "743fffada93c671f89a1407841dfe65bd357125f");
    let root = build_tree(&vec![
        TreeChild { name: "sub".to_string(), is_dir: true, mode: 0o40755, hash: sub.hash },
        TreeChild {
            name: "hello.txt".to_string(),
            is_dir: false,
            mode: 0o100644,
            hash: id("ce013625030ba8dba906f756967f9e9ca394464a"),
        },
        TreeChild {
            name: "data.txt".to_string(),
            is_dir: false,
            mode: 0o100644,
            hash: id("409ddd4efff86696319b76e2187c98a2ff72eb82"),
        },
    ])
    .unwrap();
    assert_eq!(text_of(&root.hash), "085d908d7b8731afb6cff9eda7300221a3cae2a4");
    let object = Object { kind: Kind::Tree, size: payload.len(), data: payload };
    assert_eq!(
        object.string().unwrap(),
        "100644 blob 409ddd4efff86696319b76e2187c98a2ff72eb82     data.txt\n\
         100644 blob ce013625030ba8dba906f756967f9e9ca394464a    hello.txt\n\
         040000 tree 743fffada93c671f89a1407841dfe65bd357125f          sub"
    );
}
