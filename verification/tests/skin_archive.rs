use std::io::{Cursor, Write};

use tbtool::error::Error;
use tbtool::sidebar::{sidebar_entries, PageKind, SIDEBAR_LEN};
use tbtool::skin_archive::{from_zip_entries, ArchiveFailure, ZipEntry, ZipEntryInfo};
use tbtool::{SkinPackage, ToolCatalog, ToolCategory};
use zip::write::SimpleFileOptions;
use zip::ZipWriter;

const IMAGES: [&str; 7] = [
    "默认底图.png",
    "运行时间.png",
    "系统信息.png",
    "硬件信息底图.png",
    "控制按钮.png",
    "型号信息.png",
    "列表按钮.png",
];

const PNG: &[u8] = b"\x89PNG\r\n\x1a\nrest";

fn archive(files: &[(&str, &[u8])], directories: &[&str]) -> Vec<u8> {
    let mut writer = ZipWriter::new(Cursor::new(Vec::new()));
    for directory in directories {
        writer.add_directory(*directory, SimpleFileOptions::default()).unwrap();
    }
    for (name, data) in files {
        writer.start_file(*name, SimpleFileOptions::default()).unwrap();
        writer.write_all(data).unwrap();
    }
    writer.finish().unwrap().into_inner()
}

fn skin_files(config: &'static [u8]) -> Vec<(&'static str, &'static [u8])> {
    let mut files: Vec<(&str, &[u8])> = IMAGES.iter().map(|name| (*name, PNG)).collect();
    files.push(("Config.ini", config));
    files
}

#[test]
fn reads_a_skin_from_archive_bytes() {
    let bytes = archive(&skin_files("[皮肤]\n皮肤名=经典蓝\n透明度=200\n".as_bytes()), &["extra/"]);
    let package = SkinPackage::from_zip(&bytes).unwrap();
    assert_eq!(package.manifest.name.as_deref(), Some("经典蓝"));
    assert_eq!(package.manifest.opacity, Some(200));
    assert_eq!(package.assets.len(), 7);
    assert_eq!(package.asset("默认底图.png"), Some(PNG));
}

#[test]
fn archive_entries_with_backslashes_are_stored_with_slashes() {
    let mut files = skin_files(b"[x]\n");
    files.push(("sub\\icon.png", b"icon"));
    let package = SkinPackage::from_zip(&archive(&files, &[])).unwrap();
    assert_eq!(package.asset("sub/icon.png"), Some(&b"icon"[..]));
    assert_eq!(package.assets.len(), 8);
}

#[test]
fn archive_refuses_unsafe_paths() {
    let mut files = skin_files(b"[x]\n");
    files.push(("../evil.png", b"x"));
    match SkinPackage::from_zip(&archive(&files, &[])) {
        Err(Error::UnsafeArchivePath(name)) => assert_eq!(name, "../evil.png"),
        other => panic!("unexpected result {other:?}"),
    }
}

#[test]
fn archive_without_config_is_refused() {
    let files: Vec<(&str, &[u8])> = IMAGES.iter().map(|name| (*name, PNG)).collect();
    assert!(matches!(SkinPackage::from_zip(&archive(&files, &[])), Err(Error::MissingSkinAsset("Config.ini"))));
}

#[test]
fn bytes_that_are_no_archive_are_refused() {
    assert!(matches!(SkinPackage::from_zip(b"not a zip archive"), Err(Error::Archive(ArchiveFailure::Zip(_)))));
}

fn entry(name: &str, is_dir: bool, size: u64, data: Result<Vec<u8>, ArchiveFailure>) -> ZipEntry {
    ZipEntry { info: ZipEntryInfo { name_raw: name.as_bytes().to_vec(), is_dir, size }, data }
}

#[test]
fn entries_make_a_package_in_order() {
    let mut entries: Vec<ZipEntry> = IMAGES.iter().map(|name| entry(name, false, 12, Ok(PNG.to_vec()))).collect();
    entries.push(entry("dir/", true, 0, Err(ArchiveFailure::Io("unread".to_string()))));
    entries.push(entry("config.ini", false, 10, Ok("[皮肤]\n作者=甲\n".as_bytes().to_vec())));
    let package = from_zip_entries(entries).unwrap();
    assert_eq!(package.manifest.author.as_deref(), Some("甲"));
    assert_eq!(package.assets.len(), 7);
}

#[test]
fn entries_fail_at_the_first_bad_one() {
    let entries = vec![
        entry("a.png", false, 1, Err(ArchiveFailure::Io("broken".to_string()))),
        entry("b.png", false, 40_000_000, Ok(Vec::new())),
    ];
    assert!(matches!(from_zip_entries(entries), Err(Error::Archive(ArchiveFailure::Io(m))) if m == "broken"));
    let entries = vec![entry("b.png", false, 40_000_000, Ok(Vec::new()))];
    assert!(matches!(from_zip_entries(entries), Err(Error::AssetTooLarge)));
}

#[test]
fn sidebar_lists_hardware_then_the_matching_categories() {
    let category = |name: &str| ToolCategory { name: name.to_string(), tools: Vec::new() };
    let catalog = ToolCatalog { categories: vec![category("显卡工具"), category("cpu工具"), category("CPU工具")] };
    let sidebar = sidebar_entries(&catalog);
    assert_eq!(sidebar.len(), SIDEBAR_LEN);
    assert_eq!(sidebar[0].label, "硬件信息");
    assert_eq!(sidebar[0].page, PageKind::Hardware);
    assert_eq!(sidebar[1].label, "CPU工具");
    assert_eq!(sidebar[1].page, PageKind::Tools(vec![1]));
    assert_eq!(sidebar[4].label, "显卡工具");
    assert_eq!(sidebar[4].page, PageKind::Tools(vec![0]));
    assert_eq!(sidebar[11].label, "其他工具");
    assert_eq!(sidebar[11].page, PageKind::Tools(Vec::new()));
}

#[test]
fn archive_assets_come_in_name_order() {
    let mut files: Vec<(&str, &[u8])> = vec![("z.png", b"z"), ("m.png", b"m")];
    files.extend(skin_files(b"[x]\n"));
    let package = SkinPackage::from_zip(&archive(&files, &[])).unwrap();
    let names = package.assets.names();
    let mut sorted = names.clone();
    sorted.sort();
    assert_eq!(names, sorted);
    assert_eq!(names.len(), 9);
}
