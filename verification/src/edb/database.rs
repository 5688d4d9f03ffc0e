//! The EDB record database: a header, field descriptors and fixed-size records.

use vstd::prelude::*;

use super::bytes::{
    i32_bits, i32_from_bits, i32_le_bytes, le_u32, le_u64, lemma_i32_bits_roundtrip, lemma_le_u32_at,
    lemma_le_u32_bytes, lemma_u32_le_roundtrip, lemma_u64_bytes_of_le, lemma_u64_split, push_all,
    push_u32, push_u64, read_u32, read_u64, u32_le_bytes, u64_le_bytes,
};
use super::crypto::{
    crypt_in_place, crypt_spec, lemma_crypt_involution, lemma_crypt_keeps_signature, password_verifier,
    verifier_of,
};
use super::error::Error;
use super::header::{
    has_magic, magic_of, starts_with_magic, MAGIC_DATABASE, MAGIC_ENCRYPTED_DATABASE, VERSION_1,
};
use crate::gbk::{gbk_decode, gbk_decoded, gbk_encode, gbk_encoded};

verus! {

/// Length of the fixed database header.
pub const DATABASE_HEADER_LEN: usize = 112;

/// Length of one field descriptor.
pub const FIELD_DESCRIPTOR_LEN: usize = 72;

// ---------------------------------------------------------------------------
// Types and their mathematical models.

/// The fixed header at the start of a database image.
#[derive(Debug, Clone, Copy, PartialEq, Eq)]
pub struct DatabaseHeader {
    pub version: u32,
    pub timestamp_bits: u64,
    pub record_count: u32,
    pub max_record_id: u32,
    pub record_size: u32,
    pub password_verifier: [u8; 32],
    pub reserved: [u8; 52],
}

/// The header with its byte arrays as sequences.
pub struct HeaderModel {
    pub version: u32,
    pub timestamp_bits: u64,
    pub record_count: u32,
    pub max_record_id: u32,
    pub record_size: u32,
    pub password_verifier: Seq<u8>,
    pub reserved: Seq<u8>,
}

impl View for DatabaseHeader {
    type V = HeaderModel;

    open spec fn view(&self) -> HeaderModel {
        HeaderModel {
            version: self.version,
            timestamp_bits: self.timestamp_bits,
            record_count: self.record_count,
            max_record_id: self.max_record_id,
            record_size: self.record_size,
            password_verifier: self.password_verifier@,
            reserved: self.reserved@,
        }
    }
}

/// One column of the database: its name, type and place in a record.
#[derive(Debug, Clone, Copy, PartialEq, Eq)]
pub struct FieldDescriptor {
    pub name: [u8; 20],
    pub field_type: i32,
    pub offset: u32,
    pub size: u32,
    pub reserved: [u8; 40],
}

/// A field descriptor with its byte arrays as sequences.
pub struct FieldModel {
    pub name: Seq<u8>,
    pub field_type: i32,
    pub offset: u32,
    pub size: u32,
    pub reserved: Seq<u8>,
}

impl View for FieldDescriptor {
    type V = FieldModel;

    open spec fn view(&self) -> FieldModel {
        FieldModel {
            name: self.name@,
            field_type: self.field_type,
            offset: self.offset,
            size: self.size,
            reserved: self.reserved@,
        }
    }
}

/// A database as mathematics: header, fields, and each record's bytes.
pub struct DatabaseModel {
    pub header: HeaderModel,
    pub fields: Seq<FieldModel>,
    pub records: Seq<Seq<u8>>,
}

/// A record database opened from an EDB image.
#[derive(Debug, Clone, PartialEq, Eq)]
pub struct Database {
    pub header: DatabaseHeader,
    pub fields: Vec<FieldDescriptor>,
    records: Vec<Vec<u8>>,
}

/// The models of a list of field descriptors.
pub open spec fn field_models(fields: Seq<FieldDescriptor>) -> Seq<FieldModel> {
    fields.map_values(|f: FieldDescriptor| f@)
}

impl View for Database {
    type V = DatabaseModel;

    closed spec fn view(&self) -> DatabaseModel {
        DatabaseModel {
            header: self.header@,
            fields: field_models(self.fields@),
            records: self.records@.map_values(|r: Vec<u8>| r@),
        }
    }
}

// ---------------------------------------------------------------------------
// Field layout.

/// How many bytes a field of this type takes in a record.
pub open spec fn storage_size_of(f: FieldModel) -> Result<usize, Error> {
    if f.field_type == 1 || f.field_type == 7 {
        Ok(1)
    } else if f.field_type == 2 {
        Ok(2)
    } else if f.field_type == 3 || f.field_type == 5 || f.field_type == 9 || f.field_type == 11
        || f.field_type == 12 {
        Ok(4)
    } else if f.field_type == 4 || f.field_type == 6 || f.field_type == 8 {
        Ok(8)
    } else if f.field_type == 10 {
        if f.size > 0 {
            Ok(f.size as usize)
        } else {
            Err(Error::InvalidLayout("text field size is zero"))
        }
    } else {
        Err(Error::InvalidLayout("unsupported field type"))
    }
}

/// Why a field does not fit a record of `record_size` bytes, if it does not.
pub open spec fn field_error(f: FieldModel, record_size: u32) -> Option<Error> {
    match storage_size_of(f) {
        Err(e) => Some(e),
        Ok(n) => if f.offset + n > usize::MAX {
            Some(Error::InvalidLayout("field range overflow"))
        } else if f.offset + n > record_size {
            Some(Error::InvalidLayout("field extends beyond its record"))
        } else {
            None
        },
    }
}

impl FieldDescriptor {
    /// How many bytes a field of this type takes in a record.
    pub fn storage_size(&self) -> (r: Result<usize, Error>)
        ensures
            r == storage_size_of(self@),
    {
        match self.field_type {
            1 | 7 => Ok(1),
            2 => Ok(2),
            3 | 5 | 9 | 11 | 12 => Ok(4),
            4 | 6 | 8 => Ok(8),
            10 => if self.size > 0 {
                Ok(self.size as usize)
            } else {
                Err(Error::InvalidLayout("text field size is zero"))
            },
            _ => Err(Error::InvalidLayout("unsupported field type")),
        }
    }

    /// The field name: the bytes before the first NUL, decoded as GBK.
    pub fn name_gbk(&self) -> (r: String)
        ensures
            r@ == gbk_decoded(c_string_of(self.name@)).0,
    {
        let name = c_string(&self.name);
        gbk_decode(name).0
    }
}

// ---------------------------------------------------------------------------
// NUL-terminated text.

/// The bytes before the first NUL, or all of them.
pub open spec fn c_string_of(b: Seq<u8>) -> Seq<u8>
    decreases b.len(),
{
    if b.len() == 0 {
        b
    } else if b[0] == 0 {
        Seq::empty()
    } else {
        seq![b[0]] + c_string_of(b.drop_first())
    }
}

pub proof fn lemma_c_string_prefix(b: Seq<u8>, n: int)
    requires
        0 <= n <= b.len(),
        forall|k: int| 0 <= k < n ==> b[k] != 0,
        n == b.len() || b[n] == 0,
    ensures
        c_string_of(b) == b.subrange(0, n),
    decreases b.len(),
{
    if b.len() > 0 && n > 0 {
        lemma_c_string_prefix(b.drop_first(), n - 1);
        assert(seq![b[0]] + b.drop_first().subrange(0, n - 1) =~= b.subrange(0, n));
    } else if b.len() > 0 {
        assert(b.subrange(0, 0) =~= Seq::<u8>::empty());
    }
}

/// The bytes before the first NUL.
pub fn c_string(bytes: &[u8]) -> (r: &[u8])
    ensures
        r@ == c_string_of(bytes@),
        r@.len() <= bytes@.len(),
{
    let mut n: usize = 0;
    while n < bytes.len() && bytes[n] != 0
        invariant
            n <= bytes@.len(),
            forall|k: int| 0 <= k < n ==> bytes@[k] != 0,
        decreases bytes@.len() - n,
    {
        n = n + 1;
    }
    proof {
        lemma_c_string_prefix(bytes@, n as int);
    }
    &bytes[0..n]
}

/// `bytes` decoded as GBK.
pub fn decode_gbk(bytes: &[u8]) -> (r: String)
    requires
        bytes@.len() <= usize::MAX / 4,
    ensures
        r@ == gbk_decoded(bytes@).0,
{
    gbk_decode(bytes).0
}

// ---------------------------------------------------------------------------
// The image format.

/// Descriptor `index` of an image, read at `116 + 72 * index`.
pub open spec fn parse_field(b: Seq<u8>, index: int) -> FieldModel {
    let o = 116 + 72 * index;
    FieldModel {
        name: b.subrange(o, o + 20),
        field_type: i32_from_bits(le_u32(b, o + 20)),
        offset: le_u32(b, o + 24),
        size: le_u32(b, o + 28),
        reserved: b.subrange(o + 32, o + 72),
    }
}

/// The first `n` descriptors of an image, or the error of the first one
/// that does not fit a record of `record_size` bytes.
pub open spec fn parse_fields(b: Seq<u8>, n: nat, record_size: u32) -> Result<Seq<FieldModel>, Error>
    decreases n,
{
    if n == 0 {
        Ok(Seq::empty())
    } else {
        match parse_fields(b, (n - 1) as nat, record_size) {
            Err(e) => Err(e),
            Ok(fs) => {
                let f = parse_field(b, n - 1);
                match field_error(f, record_size) {
                    Some(e) => Err(e),
                    None => Ok(fs.push(f)),
                }
            },
        }
    }
}

/// What `Database::from_decrypted_bytes` makes of the image `b`.
#[verifier::opaque]
pub open spec fn parse_database(b: Seq<u8>) -> Result<DatabaseModel, Error> {
    if b.len() < 4 {
        Err(Error::Truncated { expected: 4, actual: b.len() as usize })
    } else if !has_magic(b, MAGIC_DATABASE@) && !has_magic(b, MAGIC_ENCRYPTED_DATABASE@) {
        Err(Error::InvalidMagic(magic_of(b)))
    } else if b.len() < 8 {
        Err(Error::Truncated { expected: 8, actual: b.len() as usize })
    } else if le_u32(b, 4) != VERSION_1 {
        Err(Error::UnsupportedVersion(le_u32(b, 4)))
    } else if b.len() < 20 {
        Err(Error::Truncated { expected: 20, actual: b.len() as usize })
    } else if b.len() < 28 {
        Err(Error::Truncated { expected: 28, actual: b.len() as usize })
    } else if le_u32(b, 24) == 0 {
        Err(Error::InvalidLayout("record size is zero"))
    } else if b.len() < 116 {
        Err(Error::Truncated { expected: 116, actual: b.len() as usize })
    } else if le_u32(b, 112) * 72 > usize::MAX {
        Err(Error::InvalidLayout("field descriptor size overflow"))
    } else if 116 + le_u32(b, 112) * 72 > usize::MAX {
        Err(Error::InvalidLayout("record offset overflow"))
    } else if 116 + le_u32(b, 112) * 72 > b.len() {
        Err(
            Error::Truncated {
                expected: (116 + le_u32(b, 112) * 72) as usize,
                actual: b.len() as usize,
            },
        )
    } else {
        let off = 116 + le_u32(b, 112) * 72;
        let rs = le_u32(b, 24) as int;
        let rc = le_u32(b, 16);
        if (b.len() - off) % rs != 0 {
            Err(Error::InvalidLayout("record data is not record-size aligned"))
        } else if (b.len() - off) / rs != rc {
            Err(Error::InvalidLayout("header record count does not match file size"))
        } else {
            match parse_fields(b, le_u32(b, 112) as nat, rs as u32) {
                Err(e) => Err(e),
                Ok(fields) => Ok(database_model_of(b, fields)),
            }
        }
    }
}

/// The database that a well-formed image `b` with these fields holds.
pub open spec fn database_model_of(b: Seq<u8>, fields: Seq<FieldModel>) -> DatabaseModel {
    let off = 116 + le_u32(b, 112) * 72;
    let rs = le_u32(b, 24) as int;
    let rc = le_u32(b, 16);
    DatabaseModel {
        header: HeaderModel {
            version: VERSION_1,
            timestamp_bits: le_u64(b, 8),
            record_count: rc,
            max_record_id: le_u32(b, 20),
            record_size: rs as u32,
            password_verifier: b.subrange(28, 60),
            reserved: b.subrange(60, 112),
        },
        fields,
        records: Seq::new(rc as nat, |k: int| b.subrange(off + k * rs, off + (k + 1) * rs)),
    }
}

/// Once a descriptor fails, every longer prefix fails the same way.
pub proof fn lemma_parse_fields_err_stays(b: Seq<u8>, m: nat, n: nat, record_size: u32)
    requires
        m <= n,
        parse_fields(b, m, record_size) is Err,
    ensures
        parse_fields(b, n, record_size) == parse_fields(b, m, record_size),
    decreases n - m,
{
    if m < n {
        lemma_parse_fields_err_stays(b, m, (n - 1) as nat, record_size);
    }
}

/// Copies `dst.len()` bytes of `src` starting at `offset` into `dst`.
fn copy_from(dst: &mut [u8], src: &[u8], offset: usize)
    requires
        offset + old(dst)@.len() <= src@.len(),
    ensures
        final(dst)@ == src@.subrange(offset as int, offset + old(dst)@.len()),
{
    let n = dst.len();
    let src_len = src.len();
    let mut k: usize = 0;
    while k < n
        invariant
            k <= n,
            n == dst@.len(),
            src_len == src@.len(),
            offset + n <= src_len,
            forall|j: int| 0 <= j < k ==> dst@[j] == src@[offset + j],
        decreases n - k,
    {
        dst[k] = src[offset + k];
        k = k + 1;
    }
    assert(dst@ =~= src@.subrange(offset as int, offset + n));
}

/// Reads descriptor `index`, whose 72 bytes the image holds.
fn read_field(bytes: &[u8], index: usize) -> (f: FieldDescriptor)
    requires
        116 + 72 * index + 72 <= bytes@.len(),
    ensures
        f@ == parse_field(bytes@, index as int),
{
    let len = bytes.len();
    assert(116 + 72 * index + 72 <= len);
    let o = DATABASE_HEADER_LEN + 4 + index * FIELD_DESCRIPTOR_LEN;
    let mut name = [0u8; 20];
    copy_from(&mut name, bytes, o);
    let mut reserved = [0u8; 40];
    copy_from(&mut reserved, bytes, o + 32);
    let type_bits = match read_u32(bytes, o + 20) {
        Ok(v) => v,
        Err(_) => 0,
    };
    let field_type: i32 = if type_bits < 0x8000_0000 {
        type_bits as i32
    } else {
        (type_bits as i64 - 0x1_0000_0000) as i32
    };
    let offset = match read_u32(bytes, o + 24) {
        Ok(v) => v,
        Err(_) => 0,
    };
    let size = match read_u32(bytes, o + 28) {
        Ok(v) => v,
        Err(_) => 0,
    };
    FieldDescriptor { name, field_type, offset, size, reserved }
}

impl Database {
    /// Parses an image that is already decrypted (or was never encrypted).
    /// Either signature is accepted.
    pub fn from_decrypted_bytes(bytes: &[u8]) -> (r: Result<Database, Error>)
        ensures
            r matches Ok(db) ==> parse_database(bytes@) == Ok::<DatabaseModel, Error>(db@),
            r matches Err(e) ==> parse_database(bytes@) == Err::<DatabaseModel, Error>(e),
    {
        reveal(parse_database);
        let b = bytes;
        if b.len() < 4 {
            return Err(Error::Truncated { expected: 4, actual: b.len() });
        }
        if !starts_with_magic(b, &MAGIC_DATABASE) && !starts_with_magic(b, &MAGIC_ENCRYPTED_DATABASE) {
            return Err(Error::InvalidMagic([b[0], b[1], b[2], b[3]]));
        }
        let version = match read_u32(b, 4) {
            Ok(v) => v,
            Err(e) => return Err(e),
        };
        if version != VERSION_1 {
            return Err(Error::UnsupportedVersion(version));
        }
        let record_count = match read_u32(b, 16) {
            Ok(v) => v,
            Err(e) => return Err(e),
        };
        let record_size = match read_u32(b, 24) {
            Ok(v) => v,
            Err(e) => return Err(e),
        };
        if record_size == 0 {
            return Err(Error::InvalidLayout("record size is zero"));
        }
        let field_count = match read_u32(b, DATABASE_HEADER_LEN) {
            Ok(v) => v as usize,
            Err(e) => return Err(e),
        };
        let descriptor_bytes = match field_count.checked_mul(FIELD_DESCRIPTOR_LEN) {
            Some(v) => v,
            None => return Err(Error::InvalidLayout("field descriptor size overflow")),
        };
        let data_offset = match (DATABASE_HEADER_LEN + 4).checked_add(descriptor_bytes) {
            Some(v) => v,
            None => return Err(Error::InvalidLayout("record offset overflow")),
        };
        if data_offset > b.len() {
            return Err(Error::Truncated { expected: data_offset, actual: b.len() });
        }
        let record_size = record_size as usize;
        let data_len = b.len() - data_offset;
        if data_len % record_size != 0 {
            return Err(Error::InvalidLayout("record data is not record-size aligned"));
        }
        let actual_record_count = data_len / record_size;
        if actual_record_count != record_count as usize {
            return Err(Error::InvalidLayout("header record count does not match file size"));
        }
        proof {
            assert(actual_record_count * record_size == data_len) by (nonlinear_arith)
                requires
                    data_len % record_size == 0,
                    actual_record_count == data_len / record_size,
                    record_size > 0,
            ;
        }
        let ghost expected = match parse_fields(b@, field_count as nat, record_size as u32) {
            Err(e) => Err(e),
            Ok(fs) => Ok(database_model_of(b@, fs)),
        };
        assert(parse_database(b@) == expected);
        let mut fields: Vec<FieldDescriptor> = Vec::new();
        assert(field_models(fields@) =~= Seq::<FieldModel>::empty());
        let mut index: usize = 0;
        while index < field_count
            invariant
                index <= field_count,
                b@ == bytes@,
                parse_database(b@) == expected,
                expected == match parse_fields(b@, field_count as nat, record_size as u32) {
                    Err(e) => Err(e),
                    Ok(fs) => Ok(database_model_of(b@, fs)),
                },
                field_count == le_u32(b@, 112),
                data_offset == 116 + field_count * 72,
                data_offset <= b@.len(),
                record_size == le_u32(b@, 24),
                parse_fields(b@, index as nat, record_size as u32) == Ok::<Seq<FieldModel>, Error>(
                    field_models(fields@),
                ),
            decreases field_count - index,
        {
            let field = read_field(b, index);
            let storage = match field.storage_size() {
                Ok(n) => n,
                Err(e) => {
                    proof {
                        assert(field_error(field@, record_size as u32) == Some(e));
                        assert(parse_fields(b@, (index + 1) as nat, record_size as u32) == Err::<Seq<FieldModel>, Error>(e));
                        lemma_parse_fields_err_stays(b@, (index + 1) as nat, field_count as nat, record_size as u32);
                        assert(parse_fields(b@, field_count as nat, record_size as u32) == Err::<Seq<FieldModel>, Error>(e));
                        assert(expected == Err::<DatabaseModel, Error>(e));
                    }
                    return Err(e);
                },
            };
            let end = match (field.offset as usize).checked_add(storage) {
                Some(v) => v,
                None => {
                    proof {
                        assert(field_error(field@, record_size as u32) == Some(Error::InvalidLayout("field range overflow")));
                        assert(parse_fields(b@, (index + 1) as nat, record_size as u32) is Err);
                        lemma_parse_fields_err_stays(b@, (index + 1) as nat, field_count as nat, record_size as u32);
                    }
                    return Err(Error::InvalidLayout("field range overflow"));
                },
            };
            if end > record_size {
                proof {
                    assert(field_error(field@, record_size as u32) == Some(Error::InvalidLayout("field extends beyond its record")));
                    assert(parse_fields(b@, (index + 1) as nat, record_size as u32) is Err);
                    lemma_parse_fields_err_stays(b@, (index + 1) as nat, field_count as nat, record_size as u32);
                }
                return Err(Error::InvalidLayout("field extends beyond its record"));
            }
            let ghost before = fields@;
            fields.push(field);
            index = index + 1;
            assert(field_models(fields@) =~= field_models(before).push(field@));
        }
        let blen = b.len();
        let mut records: Vec<Vec<u8>> = Vec::new();
        let mut k: usize = 0;
        while k < actual_record_count
            invariant
                k <= actual_record_count,
                b@ == bytes@,
                parse_database(b@) == expected,
                expected == match parse_fields(b@, field_count as nat, record_size as u32) {
                    Err(e) => Err(e),
                    Ok(fs) => Ok(database_model_of(b@, fs)),
                },
                parse_fields(b@, field_count as nat, record_size as u32) == Ok::<Seq<FieldModel>, Error>(
                    field_models(fields@),
                ),
                blen == b@.len(),
                data_offset <= blen,
                actual_record_count * record_size == data_len,
                data_len == b@.len() - data_offset,
                record_size > 0,
                records@.len() == k,
                forall|j: int|
                    0 <= j < k ==> #[trigger] records@[j]@ == b@.subrange(
                        data_offset + j * record_size,
                        data_offset + (j + 1) * record_size,
                    ),
            decreases actual_record_count - k,
        {
            assert((k + 1) * record_size <= actual_record_count * record_size) by (nonlinear_arith)
                requires
                    k < actual_record_count,
            ;
            assert((k + 1) * record_size == k * record_size + record_size) by (nonlinear_arith);
            let start = data_offset + k * record_size;
            let mut record: Vec<u8> = Vec::new();
            let mut p: usize = 0;
            while p < record_size
                invariant
                    p <= record_size,
                    blen == b@.len(),
                    start + record_size <= blen,
                    record@ == b@.subrange(start as int, start + p),
                decreases record_size - p,
            {
                record.push(b[start + p]);
                p = p + 1;
                assert(record@ =~= b@.subrange(start as int, start + p));
            }
            records.push(record);
            k = k + 1;
        }
        let timestamp_bits = match read_u64(b, 8) {
            Ok(v) => v,
            Err(e) => return Err(e),
        };
        let max_record_id = match read_u32(b, 20) {
            Ok(v) => v,
            Err(e) => return Err(e),
        };
        let mut password_verifier = [0u8; 32];
        copy_from(&mut password_verifier, b, 28);
        let mut reserved = [0u8; 52];
        copy_from(&mut reserved, b, 60);
        let db = Database {
            header: DatabaseHeader {
                version,
                timestamp_bits,
                record_count,
                max_record_id,
                record_size: record_size as u32,
                password_verifier,
                reserved,
            },
            fields,
            records,
        };
        assert(db@.records =~= Seq::new(
            record_count as nat,
            |j: int| b@.subrange(data_offset + j * record_size, data_offset + (j + 1) * record_size),
        ));
        Ok(db)
    }
}

// ---------------------------------------------------------------------------
// Writing images.

/// The 72 bytes of a field descriptor.
pub open spec fn encode_field(f: FieldModel) -> Seq<u8> {
    f.name + i32_le_bytes(f.field_type) + u32_le_bytes(f.offset) + u32_le_bytes(f.size) + f.reserved
}

/// The descriptors one after the other.
pub open spec fn encode_fields(fs: Seq<FieldModel>) -> Seq<u8>
    decreases fs.len(),
{
    if fs.len() == 0 {
        Seq::empty()
    } else {
        encode_fields(fs.drop_last()) + encode_field(fs.last())
    }
}

/// The records one after the other.
pub open spec fn concat_records(rs: Seq<Seq<u8>>) -> Seq<u8>
    decreases rs.len(),
{
    if rs.len() == 0 {
        Seq::empty()
    } else {
        concat_records(rs.drop_last()) + rs.last()
    }
}

/// The image of a database with signature `magic` and stored verifier
/// `verifier`, before any encryption. The record count written is the
/// number of records held.
pub open spec fn encode_database(m: DatabaseModel, magic: Seq<u8>, verifier: Seq<u8>) -> Seq<u8> {
    magic + u32_le_bytes(m.header.version) + u64_le_bytes(m.header.timestamp_bits) + u32_le_bytes(
        m.records.len() as u32,
    ) + u32_le_bytes(m.header.max_record_id) + u32_le_bytes(m.header.record_size) + verifier
        + m.header.reserved + u32_le_bytes(m.fields.len() as u32) + encode_fields(m.fields)
        + concat_records(m.records)
}

/// The password as bytes, if there is one.
pub open spec fn password_view(password: Option<&[u8]>) -> Option<Seq<u8>> {
    match password {
        Some(p) => Some(p@),
        None => None,
    }
}

/// A byte result as a sequence result.
pub open spec fn bytes_result(r: Result<Vec<u8>, Error>) -> Result<Seq<u8>, Error> {
    match r {
        Ok(v) => Ok(v@),
        Err(e) => Err(e),
    }
}

/// What `Database::to_bytes` writes for `m`: with a password, the encrypted
/// signature, that password's verifier and the whole image encrypted;
/// without one, the clear signature and the stored verifier.
pub open spec fn database_to_bytes(m: DatabaseModel, password: Option<Seq<u8>>) -> Result<Seq<u8>, Error> {
    if m.records.len() > u32::MAX || m.fields.len() > u32::MAX {
        Err(Error::InvalidLayout("entry count exceeds format limits"))
    } else if exists|k: int| 0 <= k < m.records.len() && #[trigger] m.records[k].len() != m.header.record_size {
        Err(Error::InvalidLayout("record has an unexpected size"))
    } else {
        match password {
            None => Ok(encode_database(m, MAGIC_DATABASE@, m.header.password_verifier)),
            Some(p) => if p.len() == 0 {
                Err(Error::EmptyPassword)
            } else {
                Ok(crypt_spec(encode_database(m, MAGIC_ENCRYPTED_DATABASE@, verifier_of(p)), p))
            },
        }
    }
}

/// What `Database::open` makes of the image `b`: an encrypted image is
/// decrypted with the password, which must match the stored verifier.
pub open spec fn open_database(b: Seq<u8>, password: Option<Seq<u8>>) -> Result<DatabaseModel, Error> {
    if b.len() < 4 {
        Err(Error::Truncated { expected: 4, actual: b.len() as usize })
    } else if has_magic(b, MAGIC_ENCRYPTED_DATABASE@) {
        match password {
            None => Err(Error::EmptyPassword),
            Some(p) => if p.len() == 0 && b.len() > 4 {
                Err(Error::EmptyPassword)
            } else {
                let d = crypt_spec(b, p);
                if d.len() < 60 {
                    Err(Error::Truncated { expected: 60, actual: d.len() as usize })
                } else if d.subrange(28, 60) != verifier_of(p) {
                    Err(Error::InvalidPassword)
                } else {
                    parse_database(d)
                }
            },
        }
    } else if has_magic(b, MAGIC_DATABASE@) {
        parse_database(b)
    } else {
        Err(Error::InvalidMagic(magic_of(b)))
    }
}

/// The two's complement bits of `v`.
fn i32_to_bits(v: i32) -> (r: u32)
    ensures
        r == i32_bits(v),
{
    if v >= 0 {
        v as u32
    } else {
        (v as i64 + 0x1_0000_0000) as u32
    }
}

impl Database {
    /// Writes the image; with a password, under the encrypted signature,
    /// with that password's verifier, and encrypted.
    pub fn to_bytes(&self, password: Option<&[u8]>) -> (r: Result<Vec<u8>, Error>)
        ensures
            bytes_result(r) == database_to_bytes(self@, password_view(password)),
    {
        if self.records.len() > 0xffff_ffff || self.fields.len() > 0xffff_ffff {
            return Err(Error::InvalidLayout("entry count exceeds format limits"));
        }
        let ghost m = self@;
        let mut bytes: Vec<u8> = Vec::new();
        match password {
            Some(_) => push_all(&mut bytes, MAGIC_ENCRYPTED_DATABASE.as_slice()),
            None => push_all(&mut bytes, MAGIC_DATABASE.as_slice()),
        }
        push_u32(&mut bytes, self.header.version);
        push_u64(&mut bytes, self.header.timestamp_bits);
        push_u32(&mut bytes, self.records.len() as u32);
        push_u32(&mut bytes, self.header.max_record_id);
        push_u32(&mut bytes, self.header.record_size);
        let verifier = match password {
            Some(p) => password_verifier(p),
            None => self.header.password_verifier,
        };
        push_all(&mut bytes, verifier.as_slice());
        push_all(&mut bytes, self.header.reserved.as_slice());
        push_u32(&mut bytes, self.fields.len() as u32);
        let ghost prefix = bytes@;
        let mut i: usize = 0;
        while i < self.fields.len()
            invariant
                i <= self.fields@.len(),
                m == self@,
                bytes@ == prefix + encode_fields(m.fields.take(i as int)),
            decreases self.fields@.len() - i,
        {
            let field = &self.fields[i];
            push_all(&mut bytes, field.name.as_slice());
            push_u32(&mut bytes, i32_to_bits(field.field_type));
            push_u32(&mut bytes, field.offset);
            push_u32(&mut bytes, field.size);
            push_all(&mut bytes, field.reserved.as_slice());
            proof {
                assert(m.fields.take(i + 1).drop_last() =~= m.fields.take(i as int));
                assert(m.fields[i as int] == self.fields@[i as int]@);
            }
            i = i + 1;
            assert(bytes@ =~= prefix + encode_fields(m.fields.take(i as int)));
        }
        assert(m.fields.take(m.fields.len() as int) =~= m.fields);
        let ghost middle = bytes@;
        let mut k: usize = 0;
        while k < self.records.len()
            invariant
                k <= self.records@.len(),
                m == self@,
                m.records.len() <= u32::MAX,
                m.fields.len() <= u32::MAX,
                bytes@ == middle + concat_records(m.records.take(k as int)),
                forall|j: int| 0 <= j < k ==> #[trigger] m.records[j].len() == m.header.record_size,
            decreases self.records@.len() - k,
        {
            let record = &self.records[k];
            if record.len() != self.header.record_size as usize {
                assert(m.records[k as int].len() != m.header.record_size);
                return Err(Error::InvalidLayout("record has an unexpected size"));
            }
            push_all(&mut bytes, record.as_slice());
            proof {
                assert(m.records.take(k + 1).drop_last() =~= m.records.take(k as int));
            }
            k = k + 1;
            assert(bytes@ =~= middle + concat_records(m.records.take(k as int)));
        }
        assert(m.records.take(m.records.len() as int) =~= m.records);
        match password {
            Some(p) => {
                let ghost plain = bytes@;
                assert(plain == encode_database(m, MAGIC_ENCRYPTED_DATABASE@, verifier_of(p@)));
                match crypt_in_place(bytes.as_mut_slice(), p) {
                    Ok(()) => Ok(bytes),
                    Err(e) => Err(e),
                }
            },
            None => {
                assert(bytes@ == encode_database(m, MAGIC_DATABASE@, m.header.password_verifier));
                Ok(bytes)
            },
        }
    }

    /// Opens an image, decrypting it first when its signature says it is
    /// encrypted; the password must then match the stored verifier.
    pub fn open(bytes: Vec<u8>, password: Option<&[u8]>) -> (r: Result<Database, Error>)
        ensures
            r matches Ok(db) ==> open_database(bytes@, password_view(password)) == Ok::<DatabaseModel, Error>(db@),
            r matches Err(e) ==> open_database(bytes@, password_view(password)) == Err::<DatabaseModel, Error>(e),
    {
        let mut bytes = bytes;
        if bytes.len() < 4 {
            return Err(Error::Truncated { expected: 4, actual: bytes.len() });
        }
        if starts_with_magic(bytes.as_slice(), &MAGIC_ENCRYPTED_DATABASE) {
            let password = match password {
                Some(p) => p,
                None => return Err(Error::EmptyPassword),
            };
            match crypt_in_place(bytes.as_mut_slice(), password) {
                Ok(()) => {},
                Err(e) => return Err(e),
            }
            if bytes.len() < 60 {
                return Err(Error::Truncated { expected: 60, actual: bytes.len() });
            }
            let verifier = password_verifier(password);
            let mut same = true;
            let mut k: usize = 0;
            while k < 32
                invariant
                    k <= 32,
                    bytes@.len() >= 60,
                    verifier@.len() == 32,
                    same == (forall|j: int| 0 <= j < k ==> bytes@[28 + j] == verifier@[j]),
                decreases 32 - k,
            {
                if bytes[28 + k] != verifier[k] {
                    same = false;
                }
                k = k + 1;
            }
            if !same {
                assert(bytes@.subrange(28, 60) != verifier@) by {
                    let j = choose|j: int| 0 <= j < 32 && bytes@[28 + j] != verifier@[j];
                    assert(bytes@.subrange(28, 60)[j] != verifier@[j]);
                }
                return Err(Error::InvalidPassword);
            }
            assert(bytes@.subrange(28, 60) =~= verifier@);
            Database::from_decrypted_bytes(bytes.as_slice())
        } else if starts_with_magic(bytes.as_slice(), &MAGIC_DATABASE) {
            Database::from_decrypted_bytes(bytes.as_slice())
        } else {
            Err(Error::InvalidMagic([bytes[0], bytes[1], bytes[2], bytes[3]]))
        }
    }
}

// ---------------------------------------------------------------------------
// Reading what was written, and writing what was read.

/// A database model that `to_bytes` can write and `from_decrypted_bytes`
/// reads back: current version, nonzero record size, every record of that
/// size, every field inside a record, and counts that fit the format.
pub open spec fn model_well_formed(m: DatabaseModel) -> bool {
    &&& m.header.version == VERSION_1
    &&& m.header.record_size > 0
    &&& m.header.password_verifier.len() == 32
    &&& m.header.reserved.len() == 52
    &&& m.records.len() <= u32::MAX
    &&& m.fields.len() <= u32::MAX
    &&& forall|k: int| 0 <= k < m.records.len() ==> #[trigger] m.records[k].len() == m.header.record_size
    &&& forall|i: int|
        0 <= i < m.fields.len() ==> {
            &&& (#[trigger] m.fields[i]).name.len() == 20
            &&& m.fields[i].reserved.len() == 40
            &&& field_error(m.fields[i], m.header.record_size) is None
        }
}

/// `m` as read back from its own image: the record count is the number of
/// records and the stored verifier is the one written.
pub open spec fn as_written(m: DatabaseModel, verifier: Seq<u8>) -> DatabaseModel {
    DatabaseModel {
        header: HeaderModel {
            version: m.header.version,
            timestamp_bits: m.header.timestamp_bits,
            record_count: m.records.len() as u32,
            max_record_id: m.header.max_record_id,
            record_size: m.header.record_size,
            password_verifier: verifier,
            reserved: m.header.reserved,
        },
        fields: m.fields,
        records: m.records,
    }
}

proof fn lemma_encode_fields_layout(fs: Seq<FieldModel>)
    requires
        forall|i: int| 0 <= i < fs.len() ==> (#[trigger] fs[i]).name.len() == 20 && fs[i].reserved.len() == 40,
    ensures
        encode_fields(fs).len() == 72 * fs.len(),
        forall|i: int|
            0 <= i < fs.len() ==> #[trigger] encode_fields(fs).subrange(72 * i, 72 * i + 72) == encode_field(fs[i]),
    decreases fs.len(),
{
    if fs.len() > 0 {
        let init = fs.drop_last();
        assert forall|i: int| 0 <= i < init.len() implies (#[trigger] init[i]).name.len() == 20 && init[i].reserved.len() == 40 by {
            assert(init[i] == fs[i]);
        }
        lemma_encode_fields_layout(init);
        let e = encode_fields(fs);
        assert(e == encode_fields(init) + encode_field(fs.last()));
        assert forall|i: int| 0 <= i < fs.len() implies #[trigger] e.subrange(72 * i, 72 * i + 72) == encode_field(fs[i]) by {
            if i < init.len() {
                assert(e.subrange(72 * i, 72 * i + 72) =~= encode_fields(init).subrange(72 * i, 72 * i + 72));
                assert(init[i] == fs[i]);
            } else {
                assert(e.subrange(72 * i, 72 * i + 72) =~= encode_field(fs.last()));
            }
        }
    }
}

proof fn lemma_concat_records_layout(rs: Seq<Seq<u8>>, size: int)
    requires
        size > 0,
        forall|k: int| 0 <= k < rs.len() ==> (#[trigger] rs[k]).len() == size,
    ensures
        concat_records(rs).len() == rs.len() * size,
        forall|k: int|
            0 <= k < rs.len() ==> #[trigger] concat_records(rs).subrange(k * size, (k + 1) * size) == rs[k],
    decreases rs.len(),
{
    if rs.len() > 0 {
        let init = rs.drop_last();
        assert forall|k: int| 0 <= k < init.len() implies (#[trigger] init[k]).len() == size by {
            assert(init[k] == rs[k]);
        }
        lemma_concat_records_layout(init, size);
        let c = concat_records(rs);
        assert(c == concat_records(init) + rs.last());
        assert(c.len() == rs.len() * size) by (nonlinear_arith)
            requires
                c.len() == init.len() * size + size,
                init.len() + 1 == rs.len(),
        ;
        assert forall|k: int| 0 <= k < rs.len() implies #[trigger] c.subrange(k * size, (k + 1) * size) == rs[k] by {
            assert((k + 1) * size == k * size + size) by (nonlinear_arith);
            if k < init.len() {
                assert(k * size + size <= init.len() * size) by (nonlinear_arith)
                    requires
                        k < init.len(),
                        size > 0,
                ;
                assert(c.subrange(k * size, (k + 1) * size) =~= concat_records(init).subrange(k * size, (k + 1) * size));
                assert(init[k] == rs[k]);
            } else {
                assert(k * size == init.len() * size);
                assert(c.subrange(k * size, (k + 1) * size) =~= rs.last());
            }
        }
    }
}

proof fn lemma_parse_field_of(b: Seq<u8>, i: int, f: FieldModel)
    requires
        0 <= i,
        116 + 72 * i + 72 <= b.len(),
        b.subrange(116 + 72 * i, 116 + 72 * i + 72) == encode_field(f),
        f.name.len() == 20,
        f.reserved.len() == 40,
    ensures
        parse_field(b, i) == f,
{
    let o = 116 + 72 * i;
    let e = encode_field(f);
    assert(b.subrange(o, o + 20) =~= e.subrange(0, 20));
    assert(e.subrange(0, 20) =~= f.name);
    assert(b.subrange(o + 20, o + 24) =~= e.subrange(20, 24));
    assert(e.subrange(20, 24) =~= u32_le_bytes(i32_bits(f.field_type)));
    assert(b.subrange(o + 24, o + 28) =~= e.subrange(24, 28));
    assert(e.subrange(24, 28) =~= u32_le_bytes(f.offset));
    assert(b.subrange(o + 28, o + 32) =~= e.subrange(28, 32));
    assert(e.subrange(28, 32) =~= u32_le_bytes(f.size));
    assert(b.subrange(o + 32, o + 72) =~= e.subrange(32, 72));
    assert(e.subrange(32, 72) =~= f.reserved);
    lemma_le_u32_at(b, o + 20, i32_bits(f.field_type));
    lemma_le_u32_at(b, o + 24, f.offset);
    lemma_le_u32_at(b, o + 28, f.size);
    lemma_i32_bits_roundtrip(f.field_type, 0);
}

proof fn lemma_encode_parsed_field(b: Seq<u8>, i: int)
    requires
        0 <= i,
        116 + 72 * i + 72 <= b.len(),
    ensures
        encode_field(parse_field(b, i)) == b.subrange(116 + 72 * i, 116 + 72 * i + 72),
{
    let o = 116 + 72 * i;
    let f = parse_field(b, i);
    lemma_i32_bits_roundtrip(0, le_u32(b, o + 20));
    lemma_le_u32_bytes(b, o + 20);
    lemma_le_u32_bytes(b, o + 24);
    lemma_le_u32_bytes(b, o + 28);
    assert(encode_field(f) =~= b.subrange(o, o + 72));
}

#[verifier::spinoff_prover]
proof fn lemma_parse_fields_ok(b: Seq<u8>, n: nat, rs: u32)
    requires
        parse_fields(b, n, rs) is Ok,
    ensures
        parse_fields(b, n, rs)->Ok_0.len() == n,
        forall|i: int|
            0 <= i < n ==> #[trigger] parse_fields(b, n, rs)->Ok_0[i] == parse_field(b, i) && field_error(
                parse_field(b, i),
                rs,
            ) is None,
    decreases n,
{
    if n > 0 {
        lemma_parse_fields_ok(b, (n - 1) as nat, rs);
        let prev = parse_fields(b, (n - 1) as nat, rs)->Ok_0;
        let f = parse_field(b, n - 1);
        assert(field_error(f, rs) is None);
        assert(parse_fields(b, n, rs)->Ok_0 == prev.push(f));
        assert forall|i: int| 0 <= i < n implies #[trigger] parse_fields(b, n, rs)->Ok_0[i] == parse_field(b, i)
            && field_error(parse_field(b, i), rs) is None by {
            if i < n - 1 {
                assert(prev.push(f)[i] == prev[i]);
            }
        }
    }
}

proof fn lemma_parse_fields_of(b: Seq<u8>, n: nat, rs: u32, fs: Seq<FieldModel>)
    requires
        fs.len() == n,
        forall|i: int| 0 <= i < n ==> parse_field(b, i) == #[trigger] fs[i] && field_error(fs[i], rs) is None,
    ensures
        parse_fields(b, n, rs) == Ok::<Seq<FieldModel>, Error>(fs),
    decreases n,
{
    if n > 0 {
        let init = fs.drop_last();
        assert forall|i: int| 0 <= i < n - 1 implies parse_field(b, i) == #[trigger] init[i] && field_error(init[i], rs) is None by {
            assert(init[i] == fs[i]);
        }
        lemma_parse_fields_of(b, (n - 1) as nat, rs, init);
        assert(fs[n - 1] == parse_field(b, n - 1));
        assert(init.push(fs[n - 1]) =~= fs);
    } else {
        assert(fs =~= Seq::<FieldModel>::empty());
    }
}

proof fn lemma_encode_fields_of_parsed(b: Seq<u8>, fs: Seq<FieldModel>)
    requires
        116 + 72 * fs.len() <= b.len(),
        forall|i: int| 0 <= i < fs.len() ==> #[trigger] fs[i] == parse_field(b, i),
    ensures
        encode_fields(fs) == b.subrange(116, 116 + 72 * (fs.len() as int)),
    decreases fs.len(),
{
    if fs.len() > 0 {
        let init = fs.drop_last();
        let n = fs.len() - 1;
        assert forall|i: int| 0 <= i < init.len() implies #[trigger] init[i] == parse_field(b, i) by {
            assert(init[i] == fs[i]);
        }
        lemma_encode_fields_of_parsed(b, init);
        lemma_encode_parsed_field(b, n);
        assert(b.subrange(116, 116 + 72 * (fs.len() as int)) =~= b.subrange(116, 116 + 72 * n) + b.subrange(
            116 + 72 * n,
            116 + 72 * n + 72,
        ));
    }
}

proof fn lemma_concat_parsed_records(b: Seq<u8>, off: int, rs: int, n: nat)
    requires
        0 <= off,
        rs > 0,
        off + n * rs <= b.len(),
    ensures
        concat_records(Seq::new(n, |k: int| b.subrange(off + k * rs, off + (k + 1) * rs))) == b.subrange(
            off,
            off + n * rs,
        ),
    decreases n,
{
    let recs = Seq::new(n, |k: int| b.subrange(off + k * rs, off + (k + 1) * rs));
    if n > 0 {
        let m = (n - 1) as nat;
        assert(off + m * rs <= off + n * rs) by (nonlinear_arith)
            requires
                m < n,
                rs > 0,
        ;
        assert(n * rs == m * rs + rs) by (nonlinear_arith)
            requires
                m + 1 == n,
        ;
        lemma_concat_parsed_records(b, off, rs, m);
        let shorter = Seq::new(m, |k: int| b.subrange(off + k * rs, off + (k + 1) * rs));
        assert(recs.drop_last() =~= shorter);
        assert((m + 1) * rs == m * rs + rs) by (nonlinear_arith);
        assert(recs.last() == b.subrange(off + m * rs, off + m * rs + rs));
        assert(b.subrange(off, off + n * rs) =~= b.subrange(off, off + m * rs) + b.subrange(
            off + m * rs,
            off + m * rs + rs,
        ));
    } else {
        assert(recs =~= Seq::<Seq<u8>>::empty());
        assert(n * rs == 0) by (nonlinear_arith)
            requires
                n == 0,
        ;
        assert(b.subrange(off, off + n * rs) =~= Seq::<u8>::empty());
    }
}

#[verifier::spinoff_prover]
#[verifier::rlimit(40)]
proof fn lemma_encoded_segments(m: DatabaseModel, magic: Seq<u8>, verifier: Seq<u8>)
    requires
        model_well_formed(m),
        magic.len() == 4,
        verifier.len() == 32,
    ensures
        ({
            let b = encode_database(m, magic, verifier);
            let off: int = 116 + 72 * (m.fields.len() as int);
            &&& b.len() == off + m.records.len() * m.header.record_size
            &&& b.subrange(0, 4) == magic
            &&& b.subrange(4, 8) == u32_le_bytes(m.header.version)
            &&& b.subrange(8, 12) == u32_le_bytes((m.header.timestamp_bits % 0x1_0000_0000) as u32)
            &&& b.subrange(12, 16) == u32_le_bytes((m.header.timestamp_bits / 0x1_0000_0000) as u32)
            &&& b.subrange(16, 20) == u32_le_bytes(m.records.len() as u32)
            &&& b.subrange(20, 24) == u32_le_bytes(m.header.max_record_id)
            &&& b.subrange(24, 28) == u32_le_bytes(m.header.record_size)
            &&& b.subrange(28, 60) == verifier
            &&& b.subrange(60, 112) == m.header.reserved
            &&& b.subrange(112, 116) == u32_le_bytes(m.fields.len() as u32)
            &&& b.subrange(116, off) == encode_fields(m.fields)
            &&& b.subrange(off, b.len() as int) == concat_records(m.records)
        }),
{
    let n = m.fields.len();
    let rs = m.header.record_size as int;
    lemma_encode_fields_layout(m.fields);
    lemma_concat_records_layout(m.records, rs);
    let lo = (m.header.timestamp_bits % 0x1_0000_0000) as u32;
    let hi = (m.header.timestamp_bits / 0x1_0000_0000) as u32;
    let p1 = magic;
    let p2 = p1 + u32_le_bytes(m.header.version);
    let p3 = p2 + u64_le_bytes(m.header.timestamp_bits);
    let p4 = p3 + u32_le_bytes(m.records.len() as u32);
    let p5 = p4 + u32_le_bytes(m.header.max_record_id);
    let p6 = p5 + u32_le_bytes(m.header.record_size);
    let p7 = p6 + verifier;
    let p8 = p7 + m.header.reserved;
    let p9 = p8 + u32_le_bytes(n as u32);
    let p10 = p9 + encode_fields(m.fields);
    let b = p10 + concat_records(m.records);
    assert(b == encode_database(m, magic, verifier));
    let off: int = 116 + 72 * (n as int);
    lemma_add_parts(p10, concat_records(m.records));
    lemma_add_parts(p9, encode_fields(m.fields));
    lemma_prefix_chain(b, p10, p9);
    lemma_add_parts(p8, u32_le_bytes(n as u32));
    lemma_prefix_chain(b, p9, p8);
    lemma_add_parts(p7, m.header.reserved);
    lemma_prefix_chain(b, p8, p7);
    lemma_add_parts(p6, verifier);
    lemma_prefix_chain(b, p7, p6);
    lemma_add_parts(p5, u32_le_bytes(m.header.record_size));
    lemma_prefix_chain(b, p6, p5);
    lemma_add_parts(p4, u32_le_bytes(m.header.max_record_id));
    lemma_prefix_chain(b, p5, p4);
    lemma_add_parts(p3, u32_le_bytes(m.records.len() as u32));
    lemma_prefix_chain(b, p4, p3);
    lemma_add_parts(p2, u64_le_bytes(m.header.timestamp_bits));
    lemma_prefix_chain(b, p3, p2);
    lemma_add_parts(p1, u32_le_bytes(m.header.version));
    lemma_prefix_chain(b, p2, p1);
    lemma_add_parts(u32_le_bytes(lo), u32_le_bytes(hi));
    lemma_sub_of_prefix(b, p3, 8, 16);
    lemma_sub_of_prefix(b, p3, 8, 12);
    lemma_sub_of_prefix(b, p3, 12, 16);
    assert(p3.subrange(8, 16) == u64_le_bytes(m.header.timestamp_bits));
    assert(b.subrange(8, 16).subrange(0, 4) =~= b.subrange(8, 12));
    assert(b.subrange(8, 16).subrange(4, 8) =~= b.subrange(12, 16));
    lemma_sub_of_prefix(b, p2, 4, 8);
    lemma_sub_of_prefix(b, p4, 16, 20);
    lemma_sub_of_prefix(b, p5, 20, 24);
    lemma_sub_of_prefix(b, p6, 24, 28);
    lemma_sub_of_prefix(b, p7, 28, 60);
    lemma_sub_of_prefix(b, p8, 60, 112);
    lemma_sub_of_prefix(b, p9, 112, 116);
    lemma_sub_of_prefix(b, p10, 116, off);
}

pub proof fn lemma_add_parts(a: Seq<u8>, c: Seq<u8>)
    ensures
        (a + c).len() == a.len() + c.len(),
        (a + c).subrange(0, a.len() as int) == a,
        (a + c).subrange(a.len() as int, (a.len() + c.len()) as int) == c,
{
    assert((a + c).subrange(0, a.len() as int) =~= a);
    assert((a + c).subrange(a.len() as int, (a.len() + c.len()) as int) =~= c);
}

pub proof fn lemma_prefix_chain(b: Seq<u8>, p: Seq<u8>, q: Seq<u8>)
    requires
        p.len() <= b.len(),
        b.subrange(0, p.len() as int) == p,
        q.len() <= p.len(),
        p.subrange(0, q.len() as int) == q,
    ensures
        b.subrange(0, q.len() as int) == q,
{
    assert(b.subrange(0, q.len() as int) =~= p.subrange(0, q.len() as int));
}

pub proof fn lemma_sub_of_prefix(b: Seq<u8>, p: Seq<u8>, s: int, e: int)
    requires
        p.len() <= b.len(),
        b.subrange(0, p.len() as int) == p,
        0 <= s <= e <= p.len(),
    ensures
        b.subrange(s, e) == p.subrange(s, e),
{
    assert(b.subrange(s, e) =~= p.subrange(s, e));
}

/// Reading an image written from a well-formed database gives back that
/// database, with the record count and verifier that were written.
#[verifier::spinoff_prover]
#[verifier::rlimit(40)]
pub proof fn lemma_parse_encoded(m: DatabaseModel, magic: Seq<u8>, verifier: Seq<u8>)
    requires
        model_well_formed(m),
        magic == MAGIC_DATABASE@ || magic == MAGIC_ENCRYPTED_DATABASE@,
        verifier.len() == 32,
        encode_database(m, magic, verifier).len() <= usize::MAX,
    ensures
        parse_database(encode_database(m, magic, verifier)) == Ok::<DatabaseModel, Error>(as_written(m, verifier)),
{
    reveal(parse_database);
    let b = encode_database(m, magic, verifier);
    let n = m.fields.len();
    let rc = m.records.len();
    let rs = m.header.record_size as int;
    lemma_encoded_segments(m, magic, verifier);
    lemma_encode_fields_layout(m.fields);
    lemma_concat_records_layout(m.records, rs);
    let off: int = 116 + 72 * (n as int);
    lemma_le_u32_at(b, 4, m.header.version);
    lemma_le_u32_at(b, 8, (m.header.timestamp_bits % 0x1_0000_0000) as u32);
    lemma_le_u32_at(b, 12, (m.header.timestamp_bits / 0x1_0000_0000) as u32);
    lemma_u64_split(m.header.timestamp_bits);
    lemma_le_u32_at(b, 16, rc as u32);
    lemma_le_u32_at(b, 20, m.header.max_record_id);
    lemma_le_u32_at(b, 24, m.header.record_size);
    lemma_le_u32_at(b, 112, n as u32);
    assert((b.len() - off) % rs == 0 && (b.len() - off) / rs == rc) by (nonlinear_arith)
        requires
            b.len() - off == rc * rs,
            rs > 0,
    ;
    assert forall|i: int| 0 <= i < n implies parse_field(b, i) == #[trigger] m.fields[i] && field_error(m.fields[i], m.header.record_size) is None by {
        assert(b.subrange(116 + 72 * i, 116 + 72 * i + 72) =~= encode_fields(m.fields).subrange(72 * i, 72 * i + 72));
        lemma_parse_field_of(b, i, m.fields[i]);
    }
    lemma_parse_fields_of(b, n as nat, m.header.record_size, m.fields);
    let parsed = database_model_of(b, m.fields);
    assert forall|k: int| 0 <= k < rc implies #[trigger] parsed.records[k] == m.records[k] by {
        assert(off + (k + 1) * rs <= b.len()) by (nonlinear_arith)
            requires
                k < rc,
                b.len() == off + rc * rs,
                rs > 0,
        ;
        assert(k * rs + rs == (k + 1) * rs) by (nonlinear_arith);
        assert(parsed.records[k] =~= concat_records(m.records).subrange(k * rs, (k + 1) * rs));
    }
    assert(parsed.records =~= m.records);
    assert(parsed.header.password_verifier =~= verifier);
    assert(parsed.header.reserved =~= m.header.reserved);
}

/// Writing a parsed image with its own signature and stored verifier gives
/// back exactly the bytes that were read.
pub proof fn lemma_encode_parsed(b: Seq<u8>)
    requires
        parse_database(b) is Ok,
    ensures
        encode_database(parse_database(b)->Ok_0, b.subrange(0, 4), b.subrange(28, 60)) == b,
{
    let m = parse_database(b)->Ok_0;
    lemma_parse_facts(b);
    lemma_parse_layout(b);
    let n = m.fields.len();
    let rs = m.header.record_size as int;
    let off: int = 116 + 72 * (n as int);
    let e = encode_database(m, b.subrange(0, 4), b.subrange(28, 60));
    lemma_encoded_segments(m, b.subrange(0, 4), b.subrange(28, 60));
    lemma_le_u32_bytes(b, 4);
    lemma_u64_bytes_of_le(b, 8);
    lemma_le_u32_bytes(b, 16);
    lemma_le_u32_bytes(b, 20);
    lemma_le_u32_bytes(b, 24);
    lemma_le_u32_bytes(b, 112);
    assert(b.subrange(8, 16).subrange(0, 4) =~= b.subrange(8, 12));
    assert(b.subrange(8, 16).subrange(4, 8) =~= b.subrange(12, 16));
    assert(u64_le_bytes(m.header.timestamp_bits).subrange(0, 4) =~= u32_le_bytes((m.header.timestamp_bits % 0x1_0000_0000) as u32));
    assert(u64_le_bytes(m.header.timestamp_bits).subrange(4, 8) =~= u32_le_bytes((m.header.timestamp_bits / 0x1_0000_0000) as u32));
    assert(e.len() == b.len());
    assert forall|i: int| 0 <= i < b.len() implies #[trigger] e[i] == b[i] by {
        if i < 4 {
            assert(e.subrange(0, 4)[i] == b.subrange(0, 4)[i]);
        } else if i < 8 {
            assert(e.subrange(4, 8)[i - 4] == b.subrange(4, 8)[i - 4]);
        } else if i < 12 {
            assert(e.subrange(8, 12)[i - 8] == b.subrange(8, 12)[i - 8]);
        } else if i < 16 {
            assert(e.subrange(12, 16)[i - 12] == b.subrange(12, 16)[i - 12]);
        } else if i < 20 {
            assert(e.subrange(16, 20)[i - 16] == b.subrange(16, 20)[i - 16]);
        } else if i < 24 {
            assert(e.subrange(20, 24)[i - 20] == b.subrange(20, 24)[i - 20]);
        } else if i < 28 {
            assert(e.subrange(24, 28)[i - 24] == b.subrange(24, 28)[i - 24]);
        } else if i < 60 {
            assert(e.subrange(28, 60)[i - 28] == b.subrange(28, 60)[i - 28]);
        } else if i < 112 {
            assert(e.subrange(60, 112)[i - 60] == b.subrange(60, 112)[i - 60]);
        } else if i < 116 {
            assert(e.subrange(112, 116)[i - 112] == b.subrange(112, 116)[i - 112]);
        } else if i < off {
            assert(e.subrange(116, off)[i - 116] == b.subrange(116, off)[i - 116]);
        } else {
            assert(e.subrange(off, e.len() as int)[i - off] == b.subrange(off, b.len() as int)[i - off]);
        }
    }
    assert(e =~= b);
}

/// How a parsed image is laid out: where its descriptors and records lie.
proof fn lemma_parse_layout(b: Seq<u8>)
    requires
        parse_database(b) is Ok,
    ensures
        ({
            let m = parse_database(b)->Ok_0;
            let off: int = 116 + 72 * (m.fields.len() as int);
            &&& m.fields.len() == le_u32(b, 112)
            &&& m.records.len() == le_u32(b, 16)
            &&& m.header.record_size == le_u32(b, 24)
            &&& m.header.version == le_u32(b, 4)
            &&& m.header.timestamp_bits == le_u64(b, 8)
            &&& m.header.max_record_id == le_u32(b, 20)
            &&& m.header.reserved == b.subrange(60, 112)
            &&& b.len() == off + m.records.len() * m.header.record_size
            &&& encode_fields(m.fields) == b.subrange(116, off)
            &&& concat_records(m.records) == b.subrange(off, b.len() as int)
        }),
{
    reveal(parse_database);
    let m = parse_database(b)->Ok_0;
    let n = le_u32(b, 112) as nat;
    let rs = le_u32(b, 24) as int;
    let rc = le_u32(b, 16) as nat;
    let off: int = 116 + 72 * (n as int);
    lemma_parse_fields_ok(b, n, rs as u32);
    let fs = m.fields;
    assert forall|i: int| 0 <= i < fs.len() implies #[trigger] fs[i] == parse_field(b, i) by {}
    lemma_encode_fields_of_parsed(b, fs);
    assert(b.len() - off == rc * rs) by (nonlinear_arith)
        requires
            (b.len() - off) % rs == 0,
            (b.len() - off) / rs == rc,
            rs > 0,
    ;
    lemma_concat_parsed_records(b, off, rs, rc);
}

/// The database that a successful parse of `b` gives.
pub open spec fn parsed(b: Seq<u8>) -> DatabaseModel {
    parse_database(b)->Ok_0
}

/// What every successfully parsed image satisfies.
pub proof fn lemma_parse_facts(b: Seq<u8>)
    requires
        parse_database(b) is Ok,
    ensures
        b.len() >= 116,
        has_magic(b, MAGIC_DATABASE@) || has_magic(b, MAGIC_ENCRYPTED_DATABASE@),
        parsed(b).header.version == VERSION_1,
        parsed(b).header.record_size > 0,
        parsed(b).header.record_count == parsed(b).records.len(),
        parsed(b).header.password_verifier == b.subrange(28, 60),
        parsed(b).header.reserved.len() == 52,
        parsed(b).records.len() <= u32::MAX,
        parsed(b).fields.len() <= u32::MAX,
        forall|k: int| 0 <= k < parsed(b).records.len() ==> #[trigger] parsed(b).records[k].len() == parsed(b).header.record_size,
        forall|k: int| 0 <= k < parsed(b).records.len() ==> #[trigger] parsed(b).records[k].len() <= b.len(),
        forall|i: int|
            0 <= i < parsed(b).fields.len() ==> {
                &&& (#[trigger] parsed(b).fields[i]).name.len() == 20
                &&& parsed(b).fields[i].reserved.len() == 40
                &&& field_error(parsed(b).fields[i], parsed(b).header.record_size) is None
            },
{
    reveal(parse_database);
    let m = parse_database(b)->Ok_0;
    let n = le_u32(b, 112) as nat;
    let rs = le_u32(b, 24) as int;
    let off: int = 116 + 72 * (n as int);
    lemma_parse_fields_ok(b, n, rs as u32);
    assert forall|i: int| 0 <= i < m.fields.len() implies (#[trigger] m.fields[i]).name.len() == 20 && m.fields[i].reserved.len() == 40 by {
        assert(116 + 72 * i + 72 <= off);
    }
    assert forall|k: int| 0 <= k < m.records.len() implies #[trigger] m.records[k].len() <= b.len() && m.records[k].len() == rs by {
        assert(off + (k + 1) * rs <= b.len()) by (nonlinear_arith)
            requires
                0 <= k < m.records.len(),
                m.records.len() == (b.len() - off) / rs,
                off <= b.len(),
                rs > 0,
        ;
        assert(k * rs + rs == (k + 1) * rs) by (nonlinear_arith);
    }
}

/// An encrypted image that opens with a password is written back by
/// `to_bytes` with the same password byte for byte.
pub proof fn lemma_open_then_write(b: Seq<u8>, p: Seq<u8>)
    requires
        has_magic(b, MAGIC_ENCRYPTED_DATABASE@),
        open_database(b, Some(p)) is Ok,
    ensures
        database_to_bytes(open_database(b, Some(p))->Ok_0, Some(p)) == Ok::<Seq<u8>, Error>(b),
{
    let d = crypt_spec(b, p);
    let m = open_database(b, Some(p))->Ok_0;
    lemma_crypt_keeps_signature(b, p);
    lemma_crypt_involution(b, p);
    assert(p.len() > 0);
    assert(parse_database(d) == Ok::<DatabaseModel, Error>(m));
    lemma_encode_parsed(d);
    lemma_parse_facts(d);
    assert(d.subrange(0, 4) =~= b.subrange(0, 4));
}

/// A well-formed database written with a password opens with that
/// password to the same database.
pub proof fn lemma_write_then_open(m: DatabaseModel, p: Seq<u8>)
    requires
        model_well_formed(m),
        p.len() > 0,
        encode_database(m, MAGIC_ENCRYPTED_DATABASE@, verifier_of(p)).len() <= usize::MAX,
    ensures
        database_to_bytes(m, Some(p)) is Ok,
        open_database(database_to_bytes(m, Some(p))->Ok_0, Some(p)) == Ok::<DatabaseModel, Error>(
            as_written(m, verifier_of(p)),
        ),
{
    let plain = encode_database(m, MAGIC_ENCRYPTED_DATABASE@, verifier_of(p));
    let b = crypt_spec(plain, p);
    lemma_encoded_segments(m, MAGIC_ENCRYPTED_DATABASE@, verifier_of(p));
    assert(!(exists|k: int| 0 <= k < m.records.len() && #[trigger] m.records[k].len() != m.header.record_size));
    lemma_crypt_keeps_signature(plain, p);
    lemma_crypt_involution(plain, p);
    assert(b.subrange(0, 4) =~= plain.subrange(0, 4));
    lemma_parse_encoded(m, MAGIC_ENCRYPTED_DATABASE@, verifier_of(p));
}

/// A well-formed database written without a password opens to the same
/// database.
pub proof fn lemma_write_then_open_clear(m: DatabaseModel)
    requires
        model_well_formed(m),
        encode_database(m, MAGIC_DATABASE@, m.header.password_verifier).len() <= usize::MAX,
    ensures
        database_to_bytes(m, None) is Ok,
        open_database(database_to_bytes(m, None)->Ok_0, None) == Ok::<DatabaseModel, Error>(
            as_written(m, m.header.password_verifier),
        ),
{
    let plain = encode_database(m, MAGIC_DATABASE@, m.header.password_verifier);
    lemma_encoded_segments(m, MAGIC_DATABASE@, m.header.password_verifier);
    assert(!(exists|k: int| 0 <= k < m.records.len() && #[trigger] m.records[k].len() != m.header.record_size));
    lemma_parse_encoded(m, MAGIC_DATABASE@, m.header.password_verifier);
    assert(!has_magic(plain, MAGIC_ENCRYPTED_DATABASE@)) by {
        assert(plain.subrange(0, 4)[1] != MAGIC_ENCRYPTED_DATABASE@[1]);
    }
}

/// A clear image that parses is written back by `to_bytes` without a
/// password byte for byte.
pub proof fn lemma_parse_then_write_clear(b: Seq<u8>)
    requires
        has_magic(b, MAGIC_DATABASE@),
        parse_database(b) is Ok,
    ensures
        database_to_bytes(parse_database(b)->Ok_0, None) == Ok::<Seq<u8>, Error>(b),
{
    let m = parse_database(b)->Ok_0;
    lemma_encode_parsed(b);
    lemma_parse_facts(b);
}

// ---------------------------------------------------------------------------
// Reading and editing records.

/// Every field that has a size lies inside every record.
pub open spec fn fields_fit(m: DatabaseModel) -> bool {
    forall|k: int, i: int|
        0 <= k < m.records.len() && 0 <= i < m.fields.len() && storage_size_of(m.fields[i]) is Ok
            ==> #[trigger] m.fields[i].offset + storage_size_of(m.fields[i])->Ok_0 <= #[trigger] m.records[k].len()
}

/// Parsed databases have all their fields inside all their records.
pub proof fn lemma_parsed_fields_fit(b: Seq<u8>)
    requires
        parse_database(b) is Ok,
    ensures
        fields_fit(parsed(b)),
{
    lemma_parse_facts(b);
}

/// A well-formed database has all its fields inside all its records.
pub proof fn lemma_well_formed_fields_fit(m: DatabaseModel)
    requires
        model_well_formed(m),
    ensures
        fields_fit(m),
{
    assert forall|k: int, i: int|
        0 <= k < m.records.len() && 0 <= i < m.fields.len() && storage_size_of(m.fields[i]) is Ok implies #[trigger] m.fields[i].offset
        + storage_size_of(m.fields[i])->Ok_0 <= #[trigger] m.records[k].len() by {
        assert(field_error(m.fields[i], m.header.record_size) is None);
    }
}

/// A database that opens is well-formed, so it can be written back and
/// edited.
pub proof fn lemma_opened_well_formed(b: Seq<u8>, password: Option<Seq<u8>>)
    requires
        open_database(b, password) is Ok,
    ensures
        model_well_formed(open_database(b, password)->Ok_0),
        fields_fit(open_database(b, password)->Ok_0),
{
    let d = if has_magic(b, MAGIC_ENCRYPTED_DATABASE@) { crypt_spec(b, password->Some_0) } else { b };
    assert(parse_database(d) == open_database(b, password));
    lemma_parse_facts(d);
    lemma_well_formed_fields_fit(parsed(d));
}

/// Writing a field keeps the shape of the database: the same header and
/// fields, and records of the same lengths.
proof fn lemma_set_field_shape(m: DatabaseModel, ri: int, fi: int, value: Seq<u8>)
    requires
        fields_fit(m),
        spec_set_field_bytes(m, ri, fi, value) is Ok,
    ensures
        ({
            let m2 = spec_set_field_bytes(m, ri, fi, value)->Ok_0;
            &&& m2.header == m.header
            &&& m2.fields == m.fields
            &&& m2.records.len() == m.records.len()
            &&& forall|k: int| 0 <= k < m.records.len() ==> #[trigger] m2.records[k].len() == m.records[k].len()
        }),
{
    let n = storage_size_of(m.fields[fi])->Ok_0;
    assert(m.fields[fi].offset + n <= m.records[ri].len());
}

/// The GBK text of a field name.
pub open spec fn field_name_of(f: FieldModel) -> Seq<char> {
    gbk_decoded(c_string_of(f.name)).0
}

/// The bytes of field `fi` in record `ri`, or why they cannot be read.
pub open spec fn spec_field_bytes(m: DatabaseModel, ri: int, fi: int) -> Result<Seq<u8>, Error> {
    if ri < 0 || ri >= m.records.len() {
        Err(Error::IndexOutOfBounds { index: ri as usize, len: m.records.len() as usize })
    } else if fi < 0 || fi >= m.fields.len() {
        Err(Error::IndexOutOfBounds { index: fi as usize, len: m.fields.len() as usize })
    } else {
        match storage_size_of(m.fields[fi]) {
            Err(e) => Err(e),
            Ok(n) => Ok(
                m.records[ri].subrange(m.fields[fi].offset as int, m.fields[fi].offset + n),
            ),
        }
    }
}

/// `n` zero bytes.
pub open spec fn zeros(n: int) -> Seq<u8> {
    Seq::new(n as nat, |k: int| 0u8)
}

/// The database after writing `value`, padded with zeros, into field `fi`
/// of record `ri`; or why that cannot be done, in the order it is checked.
pub open spec fn spec_set_field_bytes(m: DatabaseModel, ri: int, fi: int, value: Seq<u8>) -> Result<DatabaseModel, Error> {
    if fi < 0 || fi >= m.fields.len() {
        Err(Error::IndexOutOfBounds { index: fi as usize, len: m.fields.len() as usize })
    } else {
        match storage_size_of(m.fields[fi]) {
            Err(e) => Err(e),
            Ok(n) => if value.len() > n {
                Err(Error::FieldTooLong { required: value.len() as usize, available: n })
            } else if ri < 0 || ri >= m.records.len() {
                Err(Error::IndexOutOfBounds { index: ri as usize, len: m.records.len() as usize })
            } else {
                let start = m.fields[fi].offset as int;
                let old = m.records[ri];
                Ok(
                    DatabaseModel {
                        records: m.records.update(
                            ri,
                            old.subrange(0, start) + value + zeros(n - value.len()) + old.subrange(
                                start + n,
                                old.len() as int,
                            ),
                        ),
                        ..m
                    },
                )
            },
        }
    }
}

/// A record of `record_size` bytes that starts with the id `id`.
pub open spec fn empty_record(id: u32, record_size: u32) -> Seq<u8> {
    u32_le_bytes(id) + zeros(record_size - 4)
}

/// Reading a field right after writing it gives the value written,
/// padded with zeros to the field's size.
pub proof fn lemma_set_then_get(m: DatabaseModel, ri: int, fi: int, value: Seq<u8>)
    requires
        fields_fit(m),
        spec_set_field_bytes(m, ri, fi, value) is Ok,
    ensures
        spec_field_bytes(spec_set_field_bytes(m, ri, fi, value)->Ok_0, ri, fi) == Ok::<Seq<u8>, Error>(
            value + zeros(storage_size_of(m.fields[fi])->Ok_0 - value.len()),
        ),
        fields_fit(spec_set_field_bytes(m, ri, fi, value)->Ok_0),
{
    let n = storage_size_of(m.fields[fi])->Ok_0 as int;
    let start = m.fields[fi].offset as int;
    let old = m.records[ri];
    assert(start + n <= old.len());
    let new = old.subrange(0, start) + value + zeros(n - value.len()) + old.subrange(start + n, old.len() as int);
    assert(new.subrange(start, start + n) =~= value + zeros(n - value.len()));
    let m2 = spec_set_field_bytes(m, ri, fi, value)->Ok_0;
    assert forall|k: int, i: int|
        0 <= k < m2.records.len() && 0 <= i < m2.fields.len() && storage_size_of(m2.fields[i]) is Ok
            implies #[trigger] m2.fields[i].offset + storage_size_of(m2.fields[i])->Ok_0 <= #[trigger] m2.records[k].len() by {
        assert(m.fields[i].offset + storage_size_of(m.fields[i])->Ok_0 <= m.records[k].len());
    }
}

impl Database {
    /// The records, in order.
    pub fn records(&self) -> (r: &[Vec<u8>])
        ensures
            r@.len() == self@.records.len(),
            forall|k: int| 0 <= k < r@.len() ==> #[trigger] r@[k]@ == self@.records[k],
    {
        self.records.as_slice()
    }

    /// The number of field descriptors.
    pub fn field_count(&self) -> (n: usize)
        ensures
            n == self@.fields.len(),
    {
        self.fields.len()
    }

    /// The number of records, as the header counts them.
    pub fn header_record_count(&self) -> (n: u32)
        ensures
            n == self@.header.record_count,
    {
        self.header.record_count
    }

    /// The first field whose GBK name is `name`.
    pub fn field_index(&self, name: &str) -> (r: Option<usize>)
        ensures
            r matches Some(i) ==> i < self@.fields.len() && field_name_of(self@.fields[i as int]) == name@
                && forall|j: int| 0 <= j < i ==> field_name_of(#[trigger] self@.fields[j]) != name@,
            r is None ==> forall|j: int| 0 <= j < self@.fields.len() ==> field_name_of(#[trigger] self@.fields[j]) != name@,
    {
        let target = name.to_owned();
        let mut i: usize = 0;
        while i < self.fields.len()
            invariant
                i <= self.fields@.len(),
                target@ == name@,
                forall|j: int| 0 <= j < i ==> field_name_of(#[trigger] self@.fields[j]) != name@,
            decreases self.fields@.len() - i,
        {
            let candidate = self.fields[i].name_gbk();
            if candidate == target {
                return Some(i);
            }
            i = i + 1;
        }
        None
    }

    /// The id stored in the first four bytes of record `record_index`.
    pub fn record_id(&self, record_index: usize) -> (r: Result<u32, Error>)
        ensures
            record_index >= self@.records.len() ==> r == Err::<u32, Error>(
                Error::IndexOutOfBounds { index: record_index, len: self@.records.len() as usize },
            ),
            record_index < self@.records.len() && self@.records[record_index as int].len() < 4 ==> r
                == Err::<u32, Error>(
                Error::Truncated { expected: 4, actual: self@.records[record_index as int].len() as usize },
            ),
            record_index < self@.records.len() && self@.records[record_index as int].len() >= 4 ==> r
                == Ok::<u32, Error>(le_u32(self@.records[record_index as int], 0)),
    {
        if record_index >= self.records.len() {
            return Err(Error::IndexOutOfBounds { index: record_index, len: self.records.len() });
        }
        read_u32(self.records[record_index].as_slice(), 0)
    }

    /// The bytes of field `field_index` in record `record_index`.
    pub fn field_bytes(&self, record_index: usize, field_index: usize) -> (r: Result<&[u8], Error>)
        requires
            fields_fit(self@),
        ensures
            match r {
                Ok(b) => spec_field_bytes(self@, record_index as int, field_index as int) == Ok::<Seq<u8>, Error>(b@),
                Err(e) => spec_field_bytes(self@, record_index as int, field_index as int) == Err::<Seq<u8>, Error>(e),
            },
    {
        if record_index >= self.records.len() {
            return Err(Error::IndexOutOfBounds { index: record_index, len: self.records.len() });
        }
        if field_index >= self.fields.len() {
            return Err(Error::IndexOutOfBounds { index: field_index, len: self.fields.len() });
        }
        let field = &self.fields[field_index];
        let n = match field.storage_size() {
            Ok(n) => n,
            Err(e) => return Err(e),
        };
        let record = &self.records[record_index];
        let start = field.offset as usize;
        let _record_len = record.len();
        proof {
            assert(self@.fields[field_index as int] == field@);
            assert(self@.records[record_index as int] == record@);
        }
        Ok(slice_range(record.as_slice(), start, start + n))
    }

    /// The text of field `field_index` in record `record_index`: the bytes
    /// before the first NUL, decoded as GBK.
    pub fn field_text_gbk(&self, record_index: usize, field_index: usize) -> (r: Result<String, Error>)
        requires
            fields_fit(self@),
            record_index < self@.records.len() ==> self@.records[record_index as int].len() <= usize::MAX / 4,
        ensures
            match r {
                Ok(t) => spec_field_bytes(self@, record_index as int, field_index as int) matches Ok(b)
                    && t@ == gbk_decoded(c_string_of(b)).0,
                Err(e) => spec_field_bytes(self@, record_index as int, field_index as int) == Err::<Seq<u8>, Error>(e),
            },
    {
        let bytes = match self.field_bytes(record_index, field_index) {
            Ok(b) => b,
            Err(e) => return Err(e),
        };
        Ok(decode_gbk(c_string(bytes)))
    }

    /// Writes `value` into field `field_index` of record `record_index`,
    /// padding the rest of the field with zeros.
    pub fn set_field_bytes(&mut self, record_index: usize, field_index: usize, value: &[u8]) -> (r: Result<(), Error>)
        requires
            fields_fit(old(self)@),
        ensures
            match spec_set_field_bytes(old(self)@, record_index as int, field_index as int, value@) {
                Ok(m) => r is Ok && final(self)@ == m,
                Err(e) => r == Err::<(), Error>(e) && final(self)@ == old(self)@,
            },
            fields_fit(final(self)@),
            model_well_formed(old(self)@) ==> model_well_formed(final(self)@),
    {
        proof {
            if spec_set_field_bytes(old(self)@, record_index as int, field_index as int, value@) is Ok {
                lemma_set_field_shape(old(self)@, record_index as int, field_index as int, value@);
            }
        }
        if field_index >= self.fields.len() {
            return Err(Error::IndexOutOfBounds { index: field_index, len: self.fields.len() });
        }
        let field = self.fields[field_index];
        let storage_size = match field.storage_size() {
            Ok(n) => n,
            Err(e) => return Err(e),
        };
        if value.len() > storage_size {
            return Err(Error::FieldTooLong { required: value.len(), available: storage_size });
        }
        if record_index >= self.records.len() {
            return Err(Error::IndexOutOfBounds { index: record_index, len: self.records.len() });
        }
        let ghost m = self@;
        let start = field.offset as usize;
        proof {
            assert(m.fields[field_index as int] == field@);
            assert(start + storage_size <= m.records[record_index as int].len());
        }
        let mut record = self.records[record_index].clone();
        let len = record.len();
        let mut p: usize = 0;
        while p < storage_size
            invariant
                p <= storage_size,
                start + storage_size <= len,
                len == record@.len(),
                value@.len() <= storage_size,
                m.records[record_index as int] == old(self)@.records[record_index as int],
                forall|q: int| 0 <= q < len ==> #[trigger] record@[q] == if start <= q < start + p {
                    if q - start < value@.len() { value@[q - start] } else { 0u8 }
                } else {
                    m.records[record_index as int][q]
                },
            decreases storage_size - p,
        {
            let v = if p < value.len() { value[p] } else { 0u8 };
            record.set(start + p, v);
            p = p + 1;
        }
        self.records.set(record_index, record);
        proof {
            let old_rec = m.records[record_index as int];
            let expected = old_rec.subrange(0, start as int) + value@ + zeros(storage_size - value@.len())
                + old_rec.subrange(start + storage_size, old_rec.len() as int);
            assert(record@ =~= expected);
            assert(self@.records =~= m.records.update(record_index as int, expected));
            assert(self@.fields == m.fields);
        }
        Ok(())
    }

    /// Encodes `value` as GBK and writes it into field `field_index` of
    /// record `record_index`.
    pub fn set_field_text_gbk(&mut self, record_index: usize, field_index: usize, value: &str) -> (r: Result<(), Error>)
        requires
            fields_fit(old(self)@),
            vstd::utf8::encode_utf8(value@).len() <= usize::MAX / 8,
        ensures
            gbk_encoded(value@).1 ==> r == Err::<(), Error>(Error::UnrepresentableText) && final(self)@ == old(self)@,
            !gbk_encoded(value@).1 ==> match spec_set_field_bytes(
                old(self)@,
                record_index as int,
                field_index as int,
                gbk_encoded(value@).0,
            ) {
                Ok(m) => r is Ok && final(self)@ == m,
                Err(e) => r == Err::<(), Error>(e) && final(self)@ == old(self)@,
            },
            fields_fit(final(self)@),
            model_well_formed(old(self)@) ==> model_well_formed(final(self)@),
    {
        let (encoded, had_errors) = gbk_encode(value);
        if had_errors {
            return Err(Error::UnrepresentableText);
        }
        self.set_field_bytes(record_index, field_index, encoded.as_slice())
    }

    /// Appends a zeroed record whose id is the next one after the largest.
    pub fn push_empty_record(&mut self) -> (r: Result<usize, Error>)
        requires
            old(self)@.header.record_size >= 4,
        ensures
            old(self)@.header.max_record_id == u32::MAX ==> r == Err::<usize, Error>(
                Error::InvalidLayout("record id overflow"),
            ) && final(self)@ == old(self)@,
            old(self)@.header.max_record_id < u32::MAX ==> {
                let id = (old(self)@.header.max_record_id + 1) as u32;
                let records = old(self)@.records.push(empty_record(id, old(self)@.header.record_size));
                &&& r == Ok::<usize, Error>(old(self)@.records.len() as usize)
                &&& final(self)@.records == records
                &&& final(self)@.fields == old(self)@.fields
                &&& final(self)@.header == HeaderModel {
                    max_record_id: id,
                    record_count: records.len() as u32,
                    ..old(self)@.header
                }
            },
            model_well_formed(old(self)@) && old(self)@.records.len() < u32::MAX ==> model_well_formed(final(self)@)
                && fields_fit(final(self)@),
    {
        let next_id = match self.header.max_record_id.checked_add(1) {
            Some(v) => v,
            None => return Err(Error::InvalidLayout("record id overflow")),
        };
        self.header.max_record_id = next_id;
        let size = self.header.record_size as usize;
        let mut record: Vec<u8> = Vec::new();
        push_u32(&mut record, next_id);
        let mut p: usize = 4;
        while p < size
            invariant
                4 <= p <= size,
                record@ == u32_le_bytes(next_id) + zeros(p - 4),
            decreases size - p,
        {
            record.push(0);
            p = p + 1;
            assert(record@ =~= u32_le_bytes(next_id) + zeros(p - 4));
        }
        let ghost before = self@;
        self.records.push(record);
        self.header.record_count = self.records.len() as u32;
        proof {
            assert(self@.records =~= before.records.push(empty_record(next_id, self.header.record_size)));
        }
        Ok(self.records.len() - 1)
    }

    /// Removes record `record_index` and returns its bytes.
    pub fn remove_record(&mut self, record_index: usize) -> (r: Result<Vec<u8>, Error>)
        ensures
            record_index >= old(self)@.records.len() ==> (r matches Err(e) && e == (Error::IndexOutOfBounds {
                index: record_index,
                len: old(self)@.records.len() as usize,
            })) && final(self)@ == old(self)@,
            record_index < old(self)@.records.len() ==> {
                &&& r matches Ok(v) && v@ == old(self)@.records[record_index as int]
                &&& final(self)@.records == old(self)@.records.remove(record_index as int)
                &&& final(self)@.fields == old(self)@.fields
                &&& final(self)@.header == HeaderModel {
                    record_count: (old(self)@.records.len() - 1) as u32,
                    ..old(self)@.header
                }
            },
            fields_fit(old(self)@) ==> fields_fit(final(self)@),
            model_well_formed(old(self)@) ==> model_well_formed(final(self)@),
    {
        if record_index >= self.records.len() {
            return Err(Error::IndexOutOfBounds { index: record_index, len: self.records.len() });
        }
        let ghost before = self@;
        let record = self.records.remove(record_index);
        self.header.record_count = self.records.len() as u32;
        proof {
            assert(self@.records =~= before.records.remove(record_index as int));
        }
        Ok(record)
    }
}

/// `bytes[start..end]`.
fn slice_range(bytes: &[u8], start: usize, end: usize) -> (r: &[u8])
    requires
        start <= end <= bytes@.len(),
    ensures
        r@ == bytes@.subrange(start as int, end as int),
{
    &bytes[start..end]
}

/// Every record of a database that opens is no longer than its image.
pub proof fn lemma_open_records_bounded(b: Seq<u8>, password: Option<Seq<u8>>)
    requires
        open_database(b, password) is Ok,
    ensures
        forall|k: int|
            0 <= k < open_database(b, password)->Ok_0.records.len() ==> #[trigger] open_database(
                b,
                password,
            )->Ok_0.records[k].len() <= b.len(),
        fields_fit(open_database(b, password)->Ok_0),
{
    if has_magic(b, MAGIC_ENCRYPTED_DATABASE@) {
        let d = crypt_spec(b, password->Some_0);
        assert(d.len() == b.len());
        lemma_parse_facts(d);
        lemma_parsed_fields_fit(d);
    } else {
        lemma_parse_facts(b);
        lemma_parsed_fields_fit(b);
    }
}

// ---------------------------------------------------------------------------
// The layout of a written image.

/// The byte arrays of a database have their fixed lengths: a 32-byte
/// password verifier, 52 reserved header bytes, and for each field a
/// 20-byte name and 40 reserved bytes.
pub open spec fn database_layout_ok(m: DatabaseModel) -> bool {
    &&& m.header.password_verifier.len() == 32
    &&& m.header.reserved.len() == 52
    &&& forall|i: int| 0 <= i < m.fields.len() ==> (#[trigger] m.fields[i]).name.len() == 20 && m.fields[i].reserved.len() == 40
}

/// Every database has the fixed layout.
pub proof fn lemma_database_layout(db: &Database)
    ensures
        database_layout_ok(db@),
{
}

proof fn lemma_concat_records_len(rs: Seq<Seq<u8>>, size: int)
    requires
        size >= 0,
        forall|k: int| 0 <= k < rs.len() ==> (#[trigger] rs[k]).len() == size,
    ensures
        concat_records(rs).len() == rs.len() * size,
    decreases rs.len(),
{
    if rs.len() > 0 {
        let init = rs.drop_last();
        assert forall|k: int| 0 <= k < init.len() implies (#[trigger] init[k]).len() == size by {
            assert(init[k] == rs[k]);
        }
        lemma_concat_records_len(init, size);
        assert(rs.last() == rs[rs.len() - 1]);
        let n = rs.len() as int;
        assert((n - 1) * size + size == n * size) by (nonlinear_arith);
    }
}

/// An image that `to_bytes` writes has a 116-byte header, 72 bytes a field
/// and the records one after the other, and starts with the encrypted
/// signature when written with a password, the clear one otherwise.
pub proof fn lemma_database_bytes_layout(m: DatabaseModel, password: Option<Seq<u8>>)
    requires
        database_layout_ok(m),
        database_to_bytes(m, password) is Ok,
    ensures
        database_to_bytes(m, password)->Ok_0.len() == 116 + 72 * m.fields.len() + m.records.len() * m.header.record_size,
        database_to_bytes(m, password)->Ok_0.subrange(0, 4) == if password is Some {
            MAGIC_ENCRYPTED_DATABASE@
        } else {
            MAGIC_DATABASE@
        },
{
    lemma_encode_fields_layout(m.fields);
    assert(!(exists|k: int| 0 <= k < m.records.len() && #[trigger] m.records[k].len() != m.header.record_size));
    assert forall|k: int| 0 <= k < m.records.len() implies (#[trigger] m.records[k]).len() == m.header.record_size by {
        if m.records[k].len() != m.header.record_size {
            assert(exists|j: int| 0 <= j < m.records.len() && #[trigger] m.records[j].len() != m.header.record_size);
        }
    }
    lemma_concat_records_len(m.records, m.header.record_size as int);
    match password {
        None => {
            let b = encode_database(m, MAGIC_DATABASE@, m.header.password_verifier);
            assert(b.subrange(0, 4) =~= MAGIC_DATABASE@);
        },
        Some(p) => {
            let b = encode_database(m, MAGIC_ENCRYPTED_DATABASE@, verifier_of(p));
            assert(verifier_of(p).len() == 32);
            assert(b.subrange(0, 4) =~= MAGIC_ENCRYPTED_DATABASE@);
            lemma_crypt_keeps_signature(b, p);
            assert(crypt_spec(b, p).subrange(0, 4) =~= b.subrange(0, 4));
        },
    }
}

// ---------------------------------------------------------------------------
// Field sizes by type.

/// How many bytes each field type takes in a record: types 1 and 7 one
/// byte, type 2 two, types 3, 5, 9, 11 and 12 four, types 4, 6 and 8
/// eight, and text fields (type 10) the size their descriptor gives, when
/// that is not zero; any other type, or a text field of size zero, is
/// refused.
pub proof fn lemma_storage_size_table(f: FieldModel)
    ensures
        (f.field_type == 1 || f.field_type == 7) ==> storage_size_of(f) == Ok::<usize, Error>(1),
        f.field_type == 2 ==> storage_size_of(f) == Ok::<usize, Error>(2),
        (f.field_type == 3 || f.field_type == 5 || f.field_type == 9 || f.field_type == 11 || f.field_type == 12)
            ==> storage_size_of(f) == Ok::<usize, Error>(4),
        (f.field_type == 4 || f.field_type == 6 || f.field_type == 8) ==> storage_size_of(f) == Ok::<usize, Error>(
            8,
        ),
        f.field_type == 10 && f.size > 0 ==> storage_size_of(f) == Ok::<usize, Error>(f.size as usize),
        f.field_type == 10 && f.size == 0 ==> storage_size_of(f) is Err,
        !(1 <= f.field_type <= 12) ==> storage_size_of(f) is Err,
{
}

/// Reading a field gives as many bytes as its type takes: eight for the
/// eight-byte types 4, 6 and 8, four for types 3, 5, 9, 11 and 12, and so
/// on, taken from the field's offset in the record.
pub proof fn lemma_field_bytes_by_type(m: DatabaseModel, ri: int, fi: int)
    requires
        fields_fit(m),
        0 <= ri < m.records.len(),
        0 <= fi < m.fields.len(),
        storage_size_of(m.fields[fi]) is Ok,
    ensures
        spec_field_bytes(m, ri, fi) is Ok,
        spec_field_bytes(m, ri, fi)->Ok_0.len() == storage_size_of(m.fields[fi])->Ok_0,
        spec_field_bytes(m, ri, fi)->Ok_0 == m.records[ri].subrange(
            m.fields[fi].offset as int,
            m.fields[fi].offset + storage_size_of(m.fields[fi])->Ok_0,
        ),
{
}

} // verus!
