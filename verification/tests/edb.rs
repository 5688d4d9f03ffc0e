use tbtool::edb::{
    crypt_in_place, password_verifier, Database, Error, FileHeader, FileKind, Table, MAGIC_DATABASE,
    MAGIC_ENCRYPTED_DATABASE, MAGIC_TABLE, VERSION_1,
};

const PASSWORD: &[u8] = b"tulading123";

fn put_u32(bytes: &mut Vec<u8>, value: u32) {
    bytes.extend_from_slice(&value.to_le_bytes());
}

fn field(name: &[u8], field_type: i32, offset: u32, size: u32) -> Vec<u8> {
    let mut out = vec![0u8; 20];
    out[..name.len()].copy_from_slice(name);
    out.extend_from_slice(&field_type.to_le_bytes());
    put_u32(&mut out, offset);
    put_u32(&mut out, size);
    out.extend_from_slice(&[0u8; 40]);
    out
}

/// A database image with an id, a 4-byte number and a 12-byte text field.
fn database_image(magic: [u8; 4], verifier: [u8; 32], records: &[Vec<u8>]) -> Vec<u8> {
    let mut out = Vec::new();
    out.extend_from_slice(&magic);
    put_u32(&mut out, VERSION_1);
    out.extend_from_slice(&7u64.to_le_bytes());
    put_u32(&mut out, records.len() as u32);
    put_u32(&mut out, records.len() as u32);
    put_u32(&mut out, 20);
    out.extend_from_slice(&verifier);
    out.extend_from_slice(&[0u8; 52]);
    put_u32(&mut out, 3);
    out.extend_from_slice(&field(b"id", 3, 0, 0));
    out.extend_from_slice(&field(b"count", 3, 4, 0));
    let (name, _, _) = encoding_rs::GBK.encode("工具名");
    out.extend_from_slice(&field(&name, 10, 8, 12));
    for record in records {
        assert_eq!(record.len(), 20);
        out.extend_from_slice(record);
    }
    out
}

fn record(id: u32, count: u32, text: &[u8]) -> Vec<u8> {
    let mut out = Vec::new();
    put_u32(&mut out, id);
    put_u32(&mut out, count);
    let mut t = text.to_vec();
    t.resize(12, 0);
    out.extend_from_slice(&t);
    out
}

fn plain_database() -> Vec<u8> {
    let (text, _, _) = encoding_rs::GBK.encode("七彩虹");
    database_image(MAGIC_DATABASE, [0x30; 32], &[record(1, 10, &text), record(2, 20, b"abc")])
}

fn encrypted_database() -> Vec<u8> {
    let (text, _, _) = encoding_rs::GBK.encode("七彩虹");
    let mut image = database_image(
        MAGIC_ENCRYPTED_DATABASE,
        password_verifier(PASSWORD),
        &[record(1, 10, &text), record(2, 20, b"abc")],
    );
    crypt_in_place(&mut image, PASSWORD).unwrap();
    image
}

/// A table image: page zero, then `pages` pages given as (previous, next, used, payload).
fn table_image(pages: &[(u32, u32, u32, Vec<u8>)], free_count: u32, first_free: u32) -> Vec<u8> {
    let mut out = Vec::new();
    out.extend_from_slice(&MAGIC_TABLE);
    put_u32(&mut out, VERSION_1);
    out.extend_from_slice(&9u64.to_le_bytes());
    put_u32(&mut out, pages.len() as u32 + 1);
    put_u32(&mut out, free_count);
    put_u32(&mut out, first_free);
    put_u32(&mut out, 0);
    out.resize(512, 0);
    for (previous, next, used, payload) in pages {
        put_u32(&mut out, *previous);
        put_u32(&mut out, *next);
        put_u32(&mut out, *used);
        let mut p = payload.clone();
        p.resize(500, 0);
        out.extend_from_slice(&p);
    }
    out
}

#[test]
fn detects_encrypted_database() {
    assert_eq!(
        FileHeader::detect(b"WCDBpayload").unwrap(),
        FileHeader {
            kind: FileKind::Database,
            encrypted: true,
        }
    );
}

#[test]
fn rejects_short_input() {
    assert!(matches!(
        FileHeader::detect(b"WC"),
        Err(Error::Truncated {
            expected: 4,
            actual: 2
        })
    ));
}

#[test]
fn transform_is_symmetric_and_preserves_magic() {
    let mut bytes: Vec<u8> = (0..10_000).map(|value| value as u8).collect();
    bytes[..4].copy_from_slice(b"WCDB");
    let original = bytes.clone();

    crypt_in_place(&mut bytes, b"tulading123").unwrap();
    assert_eq!(&bytes[..4], b"WCDB");
    assert_ne!(bytes, original);

    crypt_in_place(&mut bytes, b"tulading123").unwrap();
    assert_eq!(bytes, original);
}

#[test]
fn detects_plain_database_and_tables() {
    assert_eq!(
        FileHeader::detect(b"WEDBxxxx").unwrap(),
        FileHeader { kind: FileKind::Database, encrypted: false }
    );
    let mut table = b"WEDT".to_vec();
    table.extend_from_slice(&VERSION_1.to_le_bytes());
    assert_eq!(
        FileHeader::detect(&table).unwrap(),
        FileHeader { kind: FileKind::Table, encrypted: false }
    );
    assert_eq!(
        FileHeader::detect(b"WEDT\x01\x02\x03\x04").unwrap(),
        FileHeader { kind: FileKind::Table, encrypted: true }
    );
    assert!(matches!(FileHeader::detect(b"ABCDEFGH"), Err(Error::InvalidMagic(m)) if &m == b"ABCD"));
}

#[test]
fn password_verifier_is_hex_of_reversed_md5() {
    assert_eq!(&password_verifier(PASSWORD), b"0338d680b80cb08577e7806a376a3c8a");
}

#[test]
fn crypt_refuses_empty_password_but_keeps_short_images() {
    let mut long = b"WCDBpayload".to_vec();
    assert!(matches!(crypt_in_place(&mut long, b""), Err(Error::EmptyPassword)));
    assert_eq!(long, b"WCDBpayload");
    let mut short = b"WCDB".to_vec();
    crypt_in_place(&mut short, b"").unwrap();
    assert_eq!(short, b"WCDB");
}

#[test]
fn plain_database_opens_and_writes_back_unchanged() {
    let image = plain_database();
    let database = Database::open(image.clone(), None).unwrap();
    assert_eq!(database.records().len(), 2);
    assert_eq!(database.field_count(), 3);
    assert_eq!(database.header_record_count(), 2);
    assert_eq!(database.record_id(1).unwrap(), 2);
    assert_eq!(database.field_bytes(0, 1).unwrap(), &10u32.to_le_bytes());
    assert_eq!(database.to_bytes(None).unwrap(), image);
}

#[test]
fn encrypted_database_opens_and_writes_back_unchanged() {
    let image = encrypted_database();
    let database = Database::open(image.clone(), Some(PASSWORD)).unwrap();
    assert_eq!(database.field_text_gbk(0, 2).unwrap(), "七彩虹");
    assert_eq!(database.field_text_gbk(1, 2).unwrap(), "abc");
    assert_eq!(database.field_index("工具名"), Some(2));
    assert_eq!(database.field_index("count"), Some(1));
    assert_eq!(database.field_index("missing"), None);
    assert_eq!(database.fields[2].name_gbk(), "工具名");
    assert_eq!(database.fields[2].storage_size().unwrap(), 12);
    assert_eq!(database.to_bytes(Some(PASSWORD)).unwrap(), image);
}

#[test]
fn written_database_opens_with_a_new_password() {
    let database = Database::open(encrypted_database(), Some(PASSWORD)).unwrap();
    let rewritten = database.to_bytes(Some(b"new-password".as_slice())).unwrap();
    let reopened = Database::open(rewritten, Some(b"new-password".as_slice())).unwrap();
    assert_eq!(reopened.records(), database.records());
    assert!(matches!(
        Database::open(database.to_bytes(Some(b"new-password".as_slice())).unwrap(), Some(PASSWORD)),
        Err(Error::InvalidPassword)
    ));
}

#[test]
fn database_open_errors() {
    assert!(matches!(Database::open(encrypted_database(), None), Err(Error::EmptyPassword)));
    assert!(matches!(Database::open(encrypted_database(), Some(b"".as_slice())), Err(Error::EmptyPassword)));
    assert!(matches!(Database::open(encrypted_database(), Some(b"wrong".as_slice())), Err(Error::InvalidPassword)));
    assert!(matches!(Database::open(b"WE".to_vec(), None), Err(Error::Truncated { expected: 4, actual: 2 })));
    assert!(matches!(Database::open(b"XXXXXXXX".to_vec(), None), Err(Error::InvalidMagic(_))));
    let mut wrong_version = plain_database();
    wrong_version[4] = 9;
    assert!(matches!(Database::open(wrong_version, None), Err(Error::UnsupportedVersion(_))));
    let mut short = plain_database();
    short.pop();
    assert!(matches!(Database::from_decrypted_bytes(&short), Err(Error::InvalidLayout(_))));
    assert!(matches!(Database::to_bytes(&Database::open(plain_database(), None).unwrap(), Some(b"".as_slice())), Err(Error::EmptyPassword)));
}

#[test]
fn field_reads_back_what_was_written() {
    let mut database = Database::open(plain_database(), None).unwrap();
    database.set_field_bytes(1, 2, b"xyz").unwrap();
    let mut expected = b"xyz".to_vec();
    expected.resize(12, 0);
    assert_eq!(database.field_bytes(1, 2).unwrap(), expected.as_slice());
    assert_eq!(database.field_bytes(0, 1).unwrap(), &10u32.to_le_bytes());
    assert!(matches!(
        database.set_field_bytes(0, 2, &[1u8; 13]),
        Err(Error::FieldTooLong { required: 13, available: 12 })
    ));
    assert!(matches!(database.set_field_bytes(5, 0, b"a"), Err(Error::IndexOutOfBounds { index: 5, len: 2 })));
    assert!(matches!(database.field_bytes(0, 9), Err(Error::IndexOutOfBounds { index: 9, len: 3 })));
    database.set_field_text_gbk(0, 2, "显卡").unwrap();
    assert_eq!(database.field_text_gbk(0, 2).unwrap(), "显卡");
    assert!(matches!(database.set_field_text_gbk(0, 2, "😀"), Err(Error::UnrepresentableText)));
}

#[test]
fn records_are_added_and_removed() {
    let mut database = Database::open(plain_database(), None).unwrap();
    let index = database.push_empty_record().unwrap();
    assert_eq!(index, 2);
    assert_eq!(database.record_id(2).unwrap(), 3);
    assert_eq!(database.header_record_count(), 3);
    let removed = database.remove_record(0).unwrap();
    assert_eq!(&removed[..4], &1u32.to_le_bytes());
    assert_eq!(database.records().len(), 2);
    assert_eq!(database.record_id(0).unwrap(), 2);
    assert!(matches!(database.remove_record(7), Err(Error::IndexOutOfBounds { index: 7, len: 2 })));
    let reopened = Database::open(database.to_bytes(None).unwrap(), None).unwrap();
    assert_eq!(reopened.records(), database.records());
}

fn sample_table() -> Vec<u8> {
    table_image(
        &[
            (0, 2, 500, vec![7u8; 500]),
            (1, 0, 3, b"end".to_vec()),
            (0, 4, 0, Vec::new()),
            (3, 0, 0, Vec::new()),
        ],
        2,
        3,
    )
}

#[test]
fn table_reads_chains_and_free_pages() {
    let table = Table::open(sample_table(), None).unwrap();
    let data = table.read_chain(1).unwrap();
    assert_eq!(data.len(), 503);
    assert_eq!(&data[..500], &[7u8; 500][..]);
    assert_eq!(&data[500..], b"end");
    assert_eq!(table.read_chain(0).unwrap(), Vec::<u8>::new());
    assert_eq!(table.free_pages().unwrap(), vec![3, 4]);
    assert_eq!(table.page(2).unwrap().used, 3);
    assert!(matches!(table.page(9), Err(Error::IndexOutOfBounds { .. })));
    assert_eq!(table.to_bytes(None).unwrap(), sample_table());
}

#[test]
fn table_chain_reads_back_what_was_written() {
    let mut table = Table::open(sample_table(), None).unwrap();
    let data: Vec<u8> = (0..1200).map(|value| (value % 251) as u8).collect();
    let first = table.replace_chain(1, &data).unwrap();
    assert_eq!(table.read_chain(first).unwrap(), data);
    let shorter = b"short".to_vec();
    let first = table.replace_chain(first, &shorter).unwrap();
    assert_eq!(table.read_chain(first).unwrap(), shorter);
    assert_eq!(table.replace_chain(first, b"").unwrap(), 0);
    assert!(table.free_pages().unwrap().len() >= 4);
}

#[test]
fn encrypted_table_opens_and_writes_back_unchanged() {
    let mut image = sample_table();
    crypt_in_place(&mut image, PASSWORD).unwrap();
    let table = Table::open(image.clone(), Some(PASSWORD)).unwrap();
    assert_eq!(&table.read_chain(1).unwrap()[500..], b"end");
    assert_eq!(table.to_bytes(Some(PASSWORD)).unwrap(), image);
    assert!(matches!(Table::open(image, None), Err(Error::EmptyPassword)));
}

#[test]
fn table_rejects_broken_chains() {
    let looped = table_image(&[(0, 2, 500, Vec::new()), (1, 1, 500, Vec::new())], 0, 0);
    let table = Table::open(looped, None).unwrap();
    assert!(matches!(table.read_chain(1), Err(Error::InvalidLayout(_))));
    let misaligned = {
        let mut t = sample_table();
        t.push(0);
        t
    };
    assert!(matches!(Table::open(misaligned, None), Err(Error::InvalidLayout(_))));
}

#[test]
fn rewriting_a_chain_keeps_the_others_and_reuses_free_pages() {
    // Chain 1 is pages 1-2, chain 3 is page 3, pages 4-6 are free.
    let image = table_image(
        &[
            (0, 2, 500, vec![1u8; 500]),
            (1, 0, 10, vec![2u8; 10]),
            (0, 0, 4, b"keep".to_vec()),
            (0, 5, 0, Vec::new()),
            (4, 6, 0, Vec::new()),
            (5, 0, 0, Vec::new()),
        ],
        3,
        4,
    );
    let mut table = Table::open(image, None).unwrap();
    let untouched = table.read_chain(3).unwrap();
    let page_count = table.header.page_count;
    let grown = vec![0x5au8; 1_400];
    assert_eq!(table.replace_chain(1, &grown).unwrap(), 1);
    assert_eq!(table.read_chain(1).unwrap(), grown);
    assert_eq!(table.read_chain(3).unwrap(), untouched);
    assert_eq!(table.header.page_count, page_count);
    assert_eq!(table.header.free_page_count, 2);
    assert_eq!(table.free_pages().unwrap().len(), 2);
    let shrunk = vec![0xa5u8; 100];
    assert_eq!(table.replace_chain(1, &shrunk).unwrap(), 1);
    assert_eq!(table.read_chain(1).unwrap(), shrunk);
    assert_eq!(table.read_chain(3).unwrap(), untouched);
    assert_eq!(table.header.free_page_count, 4);
    assert_eq!(table.free_pages().unwrap().len(), 4);
    let reopened = Table::open(table.to_bytes(Some(PASSWORD)).unwrap(), Some(PASSWORD)).unwrap();
    assert_eq!(reopened.read_chain(1).unwrap(), shrunk);
    assert_eq!(reopened.free_pages().unwrap(), table.free_pages().unwrap());
}

#[test]
fn clearing_a_chain_returns_its_pages_to_the_free_list() {
    // Chain 1 is pages 1-2, chain 3 is page 3, pages 4-6 are free.
    let image = table_image(
        &[
            (0, 2, 500, vec![1u8; 500]),
            (1, 0, 10, vec![2u8; 10]),
            (0, 0, 4, b"keep".to_vec()),
            (0, 5, 0, Vec::new()),
            (4, 6, 0, Vec::new()),
            (5, 0, 0, Vec::new()),
        ],
        3,
        4,
    );
    let mut table = Table::open(image, None).unwrap();
    assert_eq!(table.replace_chain(1, &[]).unwrap(), 0);
    assert_eq!(table.header.free_page_count, 5);
    assert_eq!(table.free_pages().unwrap(), vec![2, 1, 4, 5, 6]);
    assert_eq!(table.read_chain(3).unwrap(), b"keep".to_vec());
}

#[test]
fn edited_database_writes_and_reopens_with_the_edits() {
    let mut database = Database::open(plain_database(), None).unwrap();
    database.set_field_bytes(0, 1, &[9, 0, 0, 0]).unwrap();
    let index = database.push_empty_record().unwrap();
    assert_eq!(index, 2);
    database.remove_record(1).unwrap();
    let bytes = database.to_bytes(Some(b"new-password")).unwrap();
    assert_eq!(bytes.len(), 116 + 72 * 3 + 2 * 20);
    assert_eq!(bytes[..4], MAGIC_ENCRYPTED_DATABASE);
    let reopened = Database::open(bytes, Some(b"new-password")).unwrap();
    assert_eq!(reopened.records(), database.records());
    assert_eq!(reopened.field_bytes(0, 1).unwrap(), vec![9, 0, 0, 0]);
    assert_eq!(reopened.record_id(1).unwrap(), 3);
    let clear = database.to_bytes(None).unwrap();
    assert_eq!(clear.len(), 116 + 72 * 3 + 2 * 20);
    assert_eq!(clear[..4], MAGIC_DATABASE);
}

#[test]
fn rewritten_table_keeps_its_page_count_and_layout() {
    // Chain 1 is page 1, page 2 is free.
    let image = table_image(&[(0, 0, 3, b"abc".to_vec()), (0, 0, 0, Vec::new())], 1, 2);
    let mut table = Table::open(image, None).unwrap();
    // Three pages of data: page 1, the free page 2, and a new page 3.
    let data = vec![7u8; 1_200];
    assert_eq!(table.replace_chain(1, &data).unwrap(), 1);
    assert_eq!(table.header.page_count, 4);
    assert_eq!(table.pages.len() + 1, table.header.page_count as usize);
    assert_eq!(table.header.free_page_count, 0);
    assert!(table.free_pages().unwrap().is_empty());
    let bytes = table.to_bytes(Some(PASSWORD)).unwrap();
    assert_eq!(bytes.len(), 512 * 4);
    assert_eq!(bytes[..4], MAGIC_TABLE);
    let reopened = Table::open(bytes, Some(PASSWORD)).unwrap();
    assert_eq!(reopened.read_chain(1).unwrap(), data);
}
