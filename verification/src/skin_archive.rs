//! Skin packages read from zip archives, through the `zip` crate.

use vstd::prelude::*;

use crate::error::{Error, ErrorModel};
use crate::skin::{
    asset_position, check_entry, first_missing_asset, insert_position, lemma_insert_position_bounds, spec_check_entry, spec_from_files_config,
    spec_manifest, SkinAssets, SkinPackage,
};

verus! {

/// Why a skin archive could not be read: what the `zip` crate reported, or
/// what reading an entry reported, as text; or an entry too large to handle.
#[derive(Debug, Clone)]
pub enum ArchiveFailure {
    Zip(String),
    Io(String),
    TooLarge,
}

/// An archive failure as mathematics.
pub enum ArchiveFailureModel {
    Zip(Seq<char>),
    Io(Seq<char>),
    TooLarge,
}

impl View for ArchiveFailure {
    type V = ArchiveFailureModel;

    open spec fn view(&self) -> ArchiveFailureModel {
        match self {
            ArchiveFailure::Zip(t) => ArchiveFailureModel::Zip(t@),
            ArchiveFailure::Io(t) => ArchiveFailureModel::Io(t@),
            ArchiveFailure::TooLarge => ArchiveFailureModel::TooLarge,
        }
    }
}

/// An archive entry as the archive lists it: its raw name, whether it is a
/// directory, and its uncompressed size.
#[derive(Debug, Clone)]
pub struct ZipEntryInfo {
    pub name_raw: Vec<u8>,
    pub is_dir: bool,
    pub size: u64,
}

/// An entry as mathematics.
pub open spec fn info_model(e: ZipEntryInfo) -> (Seq<u8>, bool, u64) {
    (e.name_raw@, e.is_dir, e.size)
}

/// What `zip::ZipArchive::new` and `by_index` give for the archive `bytes`:
/// the error text of opening it, or for each entry in order its raw name,
/// whether it is a directory and its size, or the error text of that entry.
pub uninterp spec fn zip_listing(bytes: Seq<u8>) -> Result<Seq<Result<(Seq<u8>, bool, u64), Seq<char>>>, Seq<char>>;

/// What reading entry `index` of the archive `bytes` to its end gives.
pub uninterp spec fn zip_entry_data(bytes: Seq<u8>, index: int) -> Result<Seq<u8>, ArchiveFailureModel>;

/// The listing a wrapper returns, as mathematics.
pub open spec fn listing_view(r: Result<Vec<Result<ZipEntryInfo, String>>, String>) -> Result<
    Seq<Result<(Seq<u8>, bool, u64), Seq<char>>>,
    Seq<char>,
> {
    match r {
        Err(t) => Err(t@),
        Ok(v) => Ok(
            v@.map_values(
                |e: Result<ZipEntryInfo, String>|
                    match e {
                        Ok(i) => Ok(info_model(i)),
                        Err(t) => Err(t@),
                    },
            ),
        ),
    }
}

/// Lists the archive `bytes` with `zip::ZipArchive::new`, `len` and
/// `by_index`, taking of each entry `name_raw`, `is_dir` and `size`, and
/// writing errors as their text. The contract ties the listing to `bytes`
/// by the name `zip_listing`; the zip format is not stated.
#[verifier::external_body]
fn zip_list(bytes: &[u8]) -> (r: Result<Vec<Result<ZipEntryInfo, String>>, String>)
    ensures
        listing_view(r) == zip_listing(bytes@),
{
    let mut archive = match zip::ZipArchive::new(std::io::Cursor::new(bytes)) {
        Ok(archive) => archive,
        Err(error) => return Err(error.to_string()),
    };
    let mut out = Vec::new();
    for index in 0..archive.len() {
        out.push(match archive.by_index(index) {
            Ok(f) => Ok(ZipEntryInfo { name_raw: f.name_raw().to_vec(), is_dir: f.is_dir(), size: f.size() }),
            Err(error) => Err(error.to_string()),
        });
    }
    Ok(out)
}

/// Reads entry `index` of the archive `bytes` to its end with
/// `zip::ZipArchive::new`, `by_index` and `Read::read_to_end`, writing a
/// `zip` error or a read error as its text. The contract ties the result to
/// `bytes` and `index` by the name `zip_entry_data`.
#[verifier::external_body]
fn zip_read(bytes: &[u8], index: usize) -> (r: Result<Vec<u8>, ArchiveFailure>)
    ensures
        match r {
            Ok(d) => zip_entry_data(bytes@, index as int) == Ok::<Seq<u8>, ArchiveFailureModel>(d@),
            Err(f) => zip_entry_data(bytes@, index as int) == Err::<Seq<u8>, ArchiveFailureModel>(f@),
        },
{
    let mut archive = match zip::ZipArchive::new(std::io::Cursor::new(bytes)) {
        Ok(archive) => archive,
        Err(error) => return Err(ArchiveFailure::Zip(error.to_string())),
    };
    let mut file = match archive.by_index(index) {
        Ok(file) => file,
        Err(error) => return Err(ArchiveFailure::Zip(error.to_string())),
    };
    let mut data = Vec::new();
    match std::io::Read::read_to_end(&mut file, &mut data) {
        Ok(_) => Ok(data),
        Err(error) => Err(ArchiveFailure::Io(error.to_string())),
    }
}

// ---------------------------------------------------------------------------
// From entries to assets.

/// The assets `files` with `data` stored under `name`, in place of an asset
/// of that name or where string order puts the name.
pub open spec fn asset_inserted(files: Seq<(Seq<char>, Seq<u8>)>, name: Seq<char>, data: Seq<u8>) -> Seq<
    (Seq<char>, Seq<u8>),
> {
    match asset_position(files, name) {
        Some(i) => files.update(i, (name, data)),
        None => files.insert(insert_position(files, name), (name, data)),
    }
}

/// What becomes of an archive entry: a name too long to decode is refused,
/// else `check_entry` decides.
pub open spec fn entry_decision(e: (Seq<u8>, bool, u64)) -> Result<Option<Seq<char>>, ErrorModel> {
    if e.0.len() > usize::MAX / 4 {
        Err(ErrorModel::Archive(ArchiveFailureModel::TooLarge))
    } else {
        spec_check_entry(e.0, e.1, e.2)
    }
}

/// The assets that entries `0..k` give, in order, with `data(i)` what
/// reading entry `i` gives: directories are skipped, the first refused or
/// unreadable entry ends it with its error, data too large to handle is
/// refused, and each kept entry is stored under its name.
pub open spec fn collect_entries(
    entries: Seq<Result<(Seq<u8>, bool, u64), Seq<char>>>,
    data: spec_fn(int) -> Result<Seq<u8>, ArchiveFailureModel>,
    k: nat,
) -> Result<Seq<(Seq<char>, Seq<u8>)>, ErrorModel>
    decreases k,
{
    if k == 0 {
        Ok(Seq::empty())
    } else {
        match collect_entries(entries, data, (k - 1) as nat) {
            Err(e) => Err(e),
            Ok(files) => match entries[k - 1] {
                Err(t) => Err(ErrorModel::Archive(ArchiveFailureModel::Zip(t))),
                Ok(e) => match entry_decision(e) {
                    Err(err) => Err(err),
                    Ok(None) => Ok(files),
                    Ok(Some(name)) => match data(k - 1) {
                        Err(f) => Err(ErrorModel::Archive(f)),
                        Ok(d) => if d.len() > usize::MAX / 4 {
                            Err(ErrorModel::Archive(ArchiveFailureModel::TooLarge))
                        } else {
                            Ok(asset_inserted(files, name, d))
                        },
                    },
                },
            },
        }
    }
}

/// Once entries fail, more entries fail the same way.
proof fn lemma_collect_err_stays(
    entries: Seq<Result<(Seq<u8>, bool, u64), Seq<char>>>,
    data: spec_fn(int) -> Result<Seq<u8>, ArchiveFailureModel>,
    k: nat,
    n: nat,
)
    requires
        k <= n,
        collect_entries(entries, data, k) is Err,
    ensures
        collect_entries(entries, data, n) == collect_entries(entries, data, k),
    decreases n,
{
    if n > k {
        lemma_collect_err_stays(entries, data, k, (n - 1) as nat);
    }
}

/// What the assets of the archive `bytes` are.
pub open spec fn zip_assets(bytes: Seq<u8>) -> Result<Seq<(Seq<char>, Seq<u8>)>, ErrorModel> {
    match zip_listing(bytes) {
        Err(t) => Err(ErrorModel::Archive(ArchiveFailureModel::Zip(t))),
        Ok(entries) => collect_entries(entries, |i: int| zip_entry_data(bytes, i), entries.len()),
    }
}

/// The package that assets give, as `SkinPackage::from_files` makes it.
pub open spec fn package_from(files: Result<Seq<(Seq<char>, Seq<u8>)>, ErrorModel>, r: Result<SkinPackage, Error>) -> bool {
    match files {
        Err(e) => r matches Err(e2) && e2@ == e,
        Ok(files) => match spec_from_files_config(files) {
            Err(e) => r matches Err(e2) && e2@ == e,
            Ok((m, rest)) => match r {
                Ok(p) => first_missing_asset(rest) is None && p.config@ == m && p.assets@ == rest && p.manifest@
                    == spec_manifest(m),
                Err(e) => first_missing_asset(rest) matches Some(n) && e@ == ErrorModel::MissingSkinAsset(n),
            },
        },
    }
}

/// What becomes of an archive entry, from its raw name, whether it is a
/// directory and its size.
fn take_entry(name_raw: &[u8], is_dir: bool, size: u64) -> (r: Result<Option<String>, Error>)
    ensures
        match r {
            Ok(Some(n)) => entry_decision((name_raw@, is_dir, size)) == Ok::<Option<Seq<char>>, ErrorModel>(Some(n@)),
            Ok(None) => entry_decision((name_raw@, is_dir, size)) == Ok::<Option<Seq<char>>, ErrorModel>(None),
            Err(e) => entry_decision((name_raw@, is_dir, size)) == Err::<Option<Seq<char>>, ErrorModel>(e@),
        },
{
    if name_raw.len() > usize::MAX / 4 {
        return Err(Error::Archive(ArchiveFailure::TooLarge));
    }
    check_entry(name_raw, is_dir, size)
}

/// Stores what reading a kept entry gave.
fn store_entry(files: &mut SkinAssets, name: String, data: Result<Vec<u8>, ArchiveFailure>) -> (r: Result<(), Error>)
    ensures
        match data {
            Err(f) => r matches Err(e) && e@ == ErrorModel::Archive(f@) && final(files)@ == old(files)@,
            Ok(d) => if d@.len() > usize::MAX / 4 {
                r matches Err(e) && e@ == ErrorModel::Archive(ArchiveFailureModel::TooLarge)
                    && final(files)@ == old(files)@
            } else {
                r is Ok && final(files)@ == asset_inserted(old(files)@, name@, d@)
            },
        },
        (forall|k: int| 0 <= k < old(files)@.len() ==> (#[trigger] old(files)@[k]).1.len() <= usize::MAX / 4) ==> (
        forall|k: int| 0 <= k < final(files)@.len() ==> (#[trigger] final(files)@[k]).1.len() <= usize::MAX / 4),
{
    match data {
        Err(f) => Err(Error::Archive(f)),
        Ok(d) => {
            if d.len() > usize::MAX / 4 {
                return Err(Error::Archive(ArchiveFailure::TooLarge));
            }
            let ghost before = files@;
            let ghost key = name@;
            let ghost value = d@;
            files.insert(name, d);
            proof {
                let after = files@;
                if forall|k: int| 0 <= k < before.len() ==> (#[trigger] before[k]).1.len() <= usize::MAX / 4 {
                    assert forall|k: int| 0 <= k < after.len() implies (#[trigger] after[k]).1.len() <= usize::MAX / 4 by {
                        match asset_position(before, key) {
                            Some(i) => {
                                if k != i {
                                    assert(after[k] == before[k]);
                                }
                            },
                            None => {
                                let p = insert_position(before, key);
                                lemma_insert_position_bounds(before, key);
                                if k < p {
                                    assert(after[k] == before[k]);
                                } else if k > p {
                                    assert(after[k] == before[k - 1]);
                                }
                            },
                        }
                    }
                }
            }
            Ok(())
        },
    }
}

/// A copy of `t`.
fn copy_text(t: &String) -> (r: String)
    ensures
        r@ == t@,
{
    t.as_str().to_owned()
}

/// A copy of what reading an entry gave.
fn copy_data(d: &Result<Vec<u8>, ArchiveFailure>) -> (r: Result<Vec<u8>, ArchiveFailure>)
    ensures
        match (r, *d) {
            (Ok(a), Ok(b)) => a@ == b@,
            (Err(a), Err(b)) => a@ == b@,
            _ => false,
        },
{
    match d {
        Ok(v) => Ok(v.clone()),
        Err(ArchiveFailure::Zip(t)) => Err(ArchiveFailure::Zip(copy_text(t))),
        Err(ArchiveFailure::Io(t)) => Err(ArchiveFailure::Io(copy_text(t))),
        Err(ArchiveFailure::TooLarge) => Err(ArchiveFailure::TooLarge),
    }
}

/// An archive entry with what reading it gave.
#[derive(Debug)]
pub struct ZipEntry {
    pub info: ZipEntryInfo,
    pub data: Result<Vec<u8>, ArchiveFailure>,
}

/// What reading an entry gave, as mathematics.
pub open spec fn entry_data_model(e: ZipEntry) -> Result<Seq<u8>, ArchiveFailureModel> {
    match e.data {
        Ok(d) => Ok(d@),
        Err(f) => Err(f@),
    }
}

/// The skin package that archive entries give, in order: directories are
/// skipped, each other entry is checked by `check_entry` and stored under
/// its name, and the package is made from the files as
/// `SkinPackage::from_files` makes it. The first refused entry, or one whose
/// data could not be read, ends it with its error.
pub fn from_zip_entries(entries: Vec<ZipEntry>) -> (r: Result<SkinPackage, Error>)
    ensures
        package_from(
            collect_entries(
                entries@.map_values(|e: ZipEntry| Ok::<(Seq<u8>, bool, u64), Seq<char>>(info_model(e.info))),
                |i: int| entry_data_model(entries@[i]),
                entries@.len(),
            ),
            r,
        ),
{
    let ghost listed = entries@.map_values(|e: ZipEntry| Ok::<(Seq<u8>, bool, u64), Seq<char>>(info_model(e.info)));
    let ghost data = |i: int| entry_data_model(entries@[i]);
    let mut files = SkinAssets::new();
    let mut i: usize = 0;
    while i < entries.len()
        invariant
            i <= entries@.len(),
            listed == entries@.map_values(|e: ZipEntry| Ok::<(Seq<u8>, bool, u64), Seq<char>>(info_model(e.info))),
            data == (|i: int| entry_data_model(entries@[i])),
            collect_entries(listed, data, i as nat) == Ok::<Seq<(Seq<char>, Seq<u8>)>, ErrorModel>(files@),
            forall|k: int| 0 <= k < files@.len() ==> (#[trigger] files@[k]).1.len() <= usize::MAX / 4,
        decreases entries@.len() - i,
    {
        let entry = &entries[i];
        let decision = take_entry(entry.info.name_raw.as_slice(), entry.info.is_dir, entry.info.size);
        proof {
            assert(listed[i as int] == Ok::<(Seq<u8>, bool, u64), Seq<char>>(info_model(entry.info)));
            assert(data(i as int) == entry_data_model(*entry));
        }
        match decision {
            Err(e) => {
                proof {
                    lemma_collect_err_stays(listed, data, (i + 1) as nat, entries@.len());
                }
                return Err(e);
            },
            Ok(None) => {},
            Ok(Some(name)) => {
                match store_entry(&mut files, name, copy_data(&entry.data)) {
                    Err(e) => {
                        proof {
                            lemma_collect_err_stays(listed, data, (i + 1) as nat, entries@.len());
                        }
                        return Err(e);
                    },
                    Ok(()) => {},
                }
            },
        }
        i = i + 1;
    }
    SkinPackage::from_files(files)
}

impl SkinPackage {
    /// Reads a skin package from the zip archive `bytes`: lists its entries,
    /// then, in order, skips directories, checks each other entry with
    /// `check_entry`, reads it and stores it under its name, and makes the
    /// package from the files as `SkinPackage::from_files` does. The first
    /// entry that cannot be listed, is refused or cannot be read ends it with
    /// its error.
    pub fn from_zip(bytes: &[u8]) -> (r: Result<SkinPackage, Error>)
        ensures
            package_from(zip_assets(bytes@), r),
    {
        let listing = zip_list(bytes);
        let entries = match listing {
            Err(t) => return Err(Error::Archive(ArchiveFailure::Zip(t))),
            Ok(entries) => entries,
        };
        let ghost listed = listing_view(Ok::<Vec<Result<ZipEntryInfo, String>>, String>(entries))->Ok_0;
        let ghost data = |i: int| zip_entry_data(bytes@, i);
        let mut files = SkinAssets::new();
        let mut i: usize = 0;
        while i < entries.len()
            invariant
                i <= entries@.len(),
                zip_listing(bytes@) == Ok::<Seq<Result<(Seq<u8>, bool, u64), Seq<char>>>, Seq<char>>(listed),
                listed.len() == entries@.len(),
                forall|k: int| 0 <= k < entries@.len() ==> #[trigger] listed[k] == (match entries@[k] {
                    Ok(e) => Ok(info_model(e)),
                    Err(t) => Err(t@),
                }),
                data == (|i: int| zip_entry_data(bytes@, i)),
                collect_entries(listed, data, i as nat) == Ok::<Seq<(Seq<char>, Seq<u8>)>, ErrorModel>(files@),
                forall|k: int| 0 <= k < files@.len() ==> (#[trigger] files@[k]).1.len() <= usize::MAX / 4,
            decreases entries@.len() - i,
        {
            proof {
                assert(listed[i as int] == (match entries@[i as int] {
                    Ok(e) => Ok(info_model(e)),
                    Err(t) => Err(t@),
                }));
            }
            let info = match &entries[i] {
                Err(t) => {
                    proof {
                        lemma_collect_err_stays(listed, data, (i + 1) as nat, entries@.len());
                    }
                    return Err(Error::Archive(ArchiveFailure::Zip(copy_text(t))));
                },
                Ok(info) => info,
            };
            match take_entry(info.name_raw.as_slice(), info.is_dir, info.size) {
                Err(e) => {
                    proof {
                        lemma_collect_err_stays(listed, data, (i + 1) as nat, entries@.len());
                    }
                    return Err(e);
                },
                Ok(None) => {},
                Ok(Some(name)) => {
                    let read = zip_read(bytes, i);
                    match store_entry(&mut files, name, read) {
                        Err(e) => {
                            proof {
                                lemma_collect_err_stays(listed, data, (i + 1) as nat, entries@.len());
                            }
                            return Err(e);
                        },
                        Ok(()) => {},
                    }
                },
            }
            i = i + 1;
        }
        SkinPackage::from_files(files)
    }
}

} // verus!
