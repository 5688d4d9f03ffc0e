use tbtool::edb::{crypt_in_place, password_verifier, MAGIC_ENCRYPTED_DATABASE, MAGIC_TABLE, VERSION_1};
use tbtool::error::Error;
use tbtool::hardware::{format_value, format_utf16_array, format_wmi_datetime, variant_text, variant_u64, Format, FormattedValue, WmiValue};
use tbtool::launcher::{
    check_inside, check_launch, compatible_working_directory, is_legacy_ddu_directory, is_script_extension,
    launch_method_for, legacy_ddu_fallback, machine_architecture, path_is_under, pe_header_offset,
};
use tbtool::skin::{check_entry, decode_zip_name, parse_unsigned, validate_relative_path};
use tbtool::{
    decode_text, encode_text, normalize_packaged_path, ExecutableArchitecture, HardwareCategory, HardwareDevice,
    HardwareProperty, HardwareSection, HardwareSnapshot, HostArchitecture, ImageFormat, IniDocument, LaunchMethod,
    PackagedPath, SkinAssets, SkinPackage, TextEncoding, ToolCatalog, ToolCategory, ToolTarget,
};

fn gbk(text: &str) -> Vec<u8> {
    let (bytes, _, had_errors) = encoding_rs::GBK.encode(text);
    assert!(!had_errors);
    bytes.into_owned()
}

fn strings(parts: &[&str]) -> Vec<String> {
    parts.iter().map(|part| part.to_string()).collect()
}

// ---------------------------------------------------------------------------
// Text.

#[test]
fn decodes_utf8_bom_and_gbk_text() {
    assert_eq!(decode_text(b"abc").unwrap(), ("abc".to_string(), TextEncoding::Utf8));
    assert_eq!(decode_text(b"\xef\xbb\xbfabc").unwrap(), ("abc".to_string(), TextEncoding::Utf8Bom));
    assert_eq!(decode_text(&gbk("经典蓝")).unwrap(), ("经典蓝".to_string(), TextEncoding::Gbk));
    assert!(matches!(decode_text(b"\xef\xbb\xbf\xff"), Err(Error::InvalidText)));
    assert!(matches!(decode_text(b"\x81"), Err(Error::InvalidText)));
}

#[test]
fn encodes_text_in_each_encoding() {
    assert_eq!(encode_text("a", TextEncoding::Utf8).unwrap(), b"a");
    assert_eq!(encode_text("a", TextEncoding::Utf8Bom).unwrap(), b"\xef\xbb\xbfa");
    assert_eq!(encode_text("经典蓝", TextEncoding::Gbk).unwrap(), gbk("经典蓝"));
    assert!(matches!(
        encode_text("😀", TextEncoding::Gbk),
        Err(Error::UnrepresentableText(TextEncoding::Gbk))
    ));
}

// ---------------------------------------------------------------------------
// INI documents.

const CONFIG: &str = "[设置]\r\n静默检测硬件信息=假\r\n[皮肤]\r\n文件名=经典蓝.skin";

#[test]
fn gbk_config_reads_and_writes_back_byte_for_byte() {
    let bytes = gbk(CONFIG);
    let config = IniDocument::parse(&bytes).unwrap();
    assert_eq!(config.encoding, TextEncoding::Gbk);
    assert_eq!(config.get("设置", "静默检测硬件信息"), Some("假"));
    assert_eq!(config.get("皮肤", "文件名"), Some("经典蓝.skin"));
    assert_eq!(config.to_bytes().unwrap(), bytes);
}

#[test]
fn ini_lines_are_trimmed_and_comments_skipped() {
    let text = "; comment\n# other\n\n [ Main ] \n  Key = some value \nEmpty=\nurl=a=b\n";
    let config = IniDocument::parse(text.as_bytes()).unwrap();
    assert_eq!(config.encoding, TextEncoding::Utf8);
    assert_eq!(config.sections.len(), 1);
    assert_eq!(config.sections[0].name, "Main");
    assert_eq!(config.get("main", "KEY"), Some("some value"));
    assert_eq!(config.get("Main", "empty"), Some(""));
    assert_eq!(config.get("Main", "url"), Some("a=b"));
    assert_eq!(config.get("Other", "Key"), None);
    assert_eq!(config.to_bytes().unwrap(), b"[Main]\nKey=some value\nEmpty=\nurl=a=b\n");
}

#[test]
fn only_the_first_matching_section_is_searched() {
    let config = IniDocument::parse(b"[a]\nx=1\n[A]\ny=2\n").unwrap();
    assert_eq!(config.get("a", "x"), Some("1"));
    assert_eq!(config.get("a", "y"), None);
}

#[test]
fn ini_errors_name_the_line() {
    assert!(matches!(
        IniDocument::parse(b"[ok]\n[broken\n"),
        Err(Error::InvalidIni { line: 2, reason: "malformed section header" })
    ));
    assert!(matches!(
        IniDocument::parse(b"[ok]\r\nno equals\r\n"),
        Err(Error::InvalidIni { line: 2, reason: "expected key=value" })
    ));
    assert!(matches!(
        IniDocument::parse(b"\nkey=value\n"),
        Err(Error::InvalidIni { line: 2, reason: "entry appears before the first section" })
    ));
    assert!(matches!(IniDocument::parse(b"\x81"), Err(Error::InvalidText)));
}

#[test]
fn reading_a_set_entry_gives_the_value_set() {
    let mut config = IniDocument::parse(b"[A]\nx=1\ny=2\n").unwrap();
    config.set("a", "X", "10");
    assert_eq!(config.get("A", "x"), Some("10"));
    assert_eq!(config.get("A", "y"), Some("2"));
    config.set("a", "z", "3");
    assert_eq!(config.get("a", "z"), Some("3"));
    config.set("B", "w", "4");
    assert_eq!(config.get("b", "W"), Some("4"));
    assert_eq!(config.get("A", "x"), Some("10"));
    assert_eq!(config.to_bytes().unwrap(), b"[A]\nx=10\ny=2\nz=3\n[B]\nw=4\n");
}

#[test]
fn utf8_bom_documents_keep_their_mark() {
    let config = IniDocument::parse(b"\xef\xbb\xbf[s]\r\nk=v").unwrap();
    assert_eq!(config.encoding, TextEncoding::Utf8Bom);
    assert_eq!(config.to_bytes().unwrap(), b"\xef\xbb\xbf[s]\r\nk=v");
}

// ---------------------------------------------------------------------------
// Tool catalogs.

#[test]
fn packaged_paths_start_at_tools() {
    let path = normalize_packaged_path("  D:\\pkg\\Tools\\CPU/cpuz.exe  ").unwrap();
    assert_eq!(path.components, strings(&["Tools", "CPU", "cpuz.exe"]));
    let path = normalize_packaged_path("tools//显卡工具\\\\GPU-Z.exe").unwrap();
    assert_eq!(path.components, strings(&["tools", "显卡工具", "GPU-Z.exe"]));
    let path = normalize_packaged_path("other/x.exe").unwrap();
    assert_eq!(path.components, strings(&["other", "x.exe"]));
    let path = normalize_packaged_path("  / \\ ").unwrap();
    assert_eq!(path.components, strings(&[" "]));
    for bad in ["", " // ", "tools/../x.exe", "tools/./x.exe", "C:/x.exe", "tools/a\0b"] {
        assert!(matches!(normalize_packaged_path(bad), Err(Error::InvalidToolPath(text)) if text == bad));
    }
}

fn field(name: &str, field_type: i32, offset: u32, size: u32) -> Vec<u8> {
    let mut out = vec![0u8; 20];
    let bytes = gbk(name);
    out[..bytes.len()].copy_from_slice(&bytes);
    out.extend_from_slice(&field_type.to_le_bytes());
    out.extend_from_slice(&offset.to_le_bytes());
    out.extend_from_slice(&size.to_le_bytes());
    out.extend_from_slice(&[0u8; 40]);
    out
}

fn text_at(record: &mut [u8], offset: usize, text: &str) {
    let bytes = gbk(text);
    record[offset..offset + bytes.len()].copy_from_slice(&bytes);
}

/// An encrypted category database; each tool is (id, name, path, directory, icon page).
fn category_database(tools: &[(u32, &str, &str, &str, u32)], with_icon_48: bool) -> Vec<u8> {
    let password = b"tulading123";
    let mut fields = vec![
        field("id", 3, 0, 0),
        field("工具名", 10, 4, 40),
        field("路径", 10, 44, 60),
        field("目录", 10, 104, 60),
        field("说明", 10, 164, 40),
        field("图标", 3, 204, 0),
        field("图标40", 3, 208, 0),
    ];
    if with_icon_48 {
        fields.push(field("图标48", 3, 212, 0));
    }
    fields.push(field("处理后的工具名", 10, 216, 40));
    let mut out = Vec::new();
    out.extend_from_slice(&MAGIC_ENCRYPTED_DATABASE);
    out.extend_from_slice(&VERSION_1.to_le_bytes());
    out.extend_from_slice(&0u64.to_le_bytes());
    out.extend_from_slice(&(tools.len() as u32).to_le_bytes());
    out.extend_from_slice(&(tools.len() as u32).to_le_bytes());
    out.extend_from_slice(&256u32.to_le_bytes());
    out.extend_from_slice(&password_verifier(password));
    out.extend_from_slice(&[0u8; 52]);
    out.extend_from_slice(&(fields.len() as u32).to_le_bytes());
    for f in &fields {
        out.extend_from_slice(f);
    }
    for (id, name, path, directory, icon) in tools {
        let mut record = vec![0u8; 256];
        record[0..4].copy_from_slice(&id.to_le_bytes());
        text_at(&mut record, 4, name);
        text_at(&mut record, 44, path);
        text_at(&mut record, 104, directory);
        text_at(&mut record, 164, "说明文字");
        record[204..208].copy_from_slice(&icon.to_le_bytes());
        text_at(&mut record, 216, &name.to_lowercase());
        out.extend_from_slice(&record);
    }
    crypt_in_place(&mut out, password).unwrap();
    out
}

/// An encrypted table whose page 1 holds the payload `PNG!`.
fn icon_table() -> Vec<u8> {
    let mut out = Vec::new();
    out.extend_from_slice(&MAGIC_TABLE);
    out.extend_from_slice(&VERSION_1.to_le_bytes());
    out.extend_from_slice(&0u64.to_le_bytes());
    out.extend_from_slice(&2u32.to_le_bytes());
    out.extend_from_slice(&0u32.to_le_bytes());
    out.extend_from_slice(&0u32.to_le_bytes());
    out.extend_from_slice(&0u32.to_le_bytes());
    out.resize(512, 0);
    out.extend_from_slice(&0u32.to_le_bytes());
    out.extend_from_slice(&0u32.to_le_bytes());
    out.extend_from_slice(&4u32.to_le_bytes());
    out.extend_from_slice(b"PNG!");
    out.resize(1024, 0);
    crypt_in_place(&mut out, b"tulading123").unwrap();
    out
}

#[test]
fn category_reads_tools_targets_and_icons() {
    let database = category_database(
        &[
            (5, "CPU-Z", "tools\\CPU工具\\cpuz.exe", "tools\\CPU工具", 1),
            (6, "一键烤机", "一键烤机", "内置工具", 0),
        ],
        true,
    );
    let category = ToolCategory::from_bytes("CPU工具".to_string(), database, icon_table(), b"tulading123").unwrap();
    assert_eq!(category.name, "CPU工具");
    assert_eq!(category.tools.len(), 2);
    let cpuz = &category.tools[0];
    assert_eq!(cpuz.id, 5);
    assert_eq!(cpuz.name, "CPU-Z");
    assert_eq!(cpuz.description, "说明文字");
    assert_eq!(cpuz.normalized_name, "cpu-z");
    assert_eq!(cpuz.icon, b"PNG!");
    assert!(cpuz.icon_40.is_empty());
    assert_eq!(
        cpuz.target,
        ToolTarget::Executable {
            path: PackagedPath { components: strings(&["tools", "CPU工具", "cpuz.exe"]) },
            working_directory: PackagedPath { components: strings(&["tools", "CPU工具"]) },
        }
    );
    assert_eq!(category.tools[1].target, ToolTarget::BuiltIn { name: "一键烤机".to_string() });
    let catalog = ToolCatalog { categories: vec![category] };
    assert_eq!(catalog.tool_count(), 2);
}

#[test]
fn category_errors() {
    let missing = category_database(&[(1, "x", "tools\\x.exe", "tools", 0)], false);
    assert!(matches!(
        ToolCategory::from_bytes("c".to_string(), missing, icon_table(), b"tulading123"),
        Err(Error::MissingToolField("图标48"))
    ));
    let outside = category_database(&[(1, "x", "Tools\\x.exe", "tools", 0)], true);
    assert!(matches!(
        ToolCategory::from_bytes("c".to_string(), outside, icon_table(), b"tulading123"),
        Err(Error::InvalidToolPath(text)) if text == "Tools\\x.exe"
    ));
    let good = category_database(&[(1, "x", "tools\\x.exe", "tools", 0)], true);
    assert!(matches!(
        ToolCategory::from_bytes("c".to_string(), good.clone(), icon_table(), b"wrong"),
        Err(Error::Database(tbtool::edb::Error::InvalidPassword))
    ));
    let bad_icon = category_database(&[(1, "x", "tools\\x.exe", "tools", 9)], true);
    assert!(matches!(
        ToolCategory::from_bytes("c".to_string(), bad_icon, icon_table(), b"tulading123"),
        Err(Error::Database(_))
    ));
}

// ---------------------------------------------------------------------------
// Skins.

const REQUIRED: [&str; 7] = ["默认底图.png", "运行时间.png", "系统信息.png", "硬件信息底图.png", "控制按钮.png", "型号信息.png", "列表按钮.png"];

fn full_assets() -> SkinAssets {
    let mut assets = SkinAssets::new();
    for name in REQUIRED {
        assets.insert(name.to_string(), b"\x89PNG\r\n\x1a\nrest".to_vec());
    }
    assets
}

#[test]
fn detects_image_formats() {
    assert_eq!(ImageFormat::detect(b"\x89PNG\r\n\x1a\n"), Some(ImageFormat::Png));
    assert_eq!(ImageFormat::detect(b"BMxx"), Some(ImageFormat::Bmp));
    assert_eq!(ImageFormat::detect(b"\x89PNG"), None);
    assert_eq!(ImageFormat::detect(b""), None);
}

#[test]
fn assets_keep_one_entry_per_name() {
    let mut assets = SkinAssets::new();
    assets.insert("a".to_string(), vec![1]);
    assets.insert("b".to_string(), vec![2]);
    assets.insert("a".to_string(), vec![3]);
    assert_eq!(assets.len(), 2);
    assert_eq!(assets.get("a"), Some(&[3u8][..]));
    assert!(assets.contains_key("b"));
    assert_eq!(assets.remove("b"), Some(vec![2]));
    assert_eq!(assets.remove("b"), None);
    assert_eq!(assets.names(), vec!["a".to_string()]);
}

#[test]
fn skin_manifest_reads_numbers_and_names() {
    let config = IniDocument::parse("[皮肤]\n透明度=200\n皮肤名=经典蓝\n作者=x\n边框色=+16777215\n文本色=-1\n".as_bytes()).unwrap();
    let package = SkinPackage::from_parts(config, full_assets()).unwrap();
    assert_eq!(package.manifest.opacity, Some(200));
    assert_eq!(package.manifest.name.as_deref(), Some("经典蓝"));
    assert_eq!(package.manifest.author.as_deref(), Some("x"));
    assert_eq!(package.manifest.border_color, Some(16777215));
    assert_eq!(package.manifest.text_color, None);
    assert_eq!(package.assets.len(), 7);
    assert!(matches!(package.image("默认底图.png"), Some((_, ImageFormat::Png))));
    assert!(package.image("missing.png").is_none());
    assert!(package.asset("列表按钮.png").is_some());
}

#[test]
fn opacity_out_of_range_is_ignored() {
    let config = IniDocument::parse("[皮肤]\n透明度=256\n".as_bytes()).unwrap();
    let package = SkinPackage::from_parts(config, full_assets()).unwrap();
    assert_eq!(package.manifest.opacity, None);
}

#[test]
fn skin_needs_all_seven_images() {
    let mut assets = full_assets();
    assets.remove("控制按钮.png");
    let config = IniDocument::parse(b"[x]\n").unwrap();
    assert!(matches!(SkinPackage::from_parts(config, assets), Err(Error::MissingSkinAsset("控制按钮.png"))));
}

#[test]
fn archive_files_take_config_ini_in_any_case() {
    let mut files = full_assets();
    files.insert("CONFIG.INI".to_string(), "[皮肤]\n皮肤名=甲\n".as_bytes().to_vec());
    files.insert("config.ini".to_string(), "[皮肤]\n皮肤名=乙\n".as_bytes().to_vec());
    let package = SkinPackage::from_files(files).unwrap();
    assert_eq!(package.manifest.name.as_deref(), Some("甲"));
    assert_eq!(package.assets.len(), 8);
    assert!(matches!(SkinPackage::from_files(full_assets()), Err(Error::MissingSkinAsset("Config.ini"))));
}

#[test]
fn archive_entries_are_checked() {
    assert_eq!(check_entry(b"dir/", true, 0).unwrap(), None);
    assert!(matches!(check_entry(b"big.png", false, 32 * 1024 * 1024 + 1), Err(Error::AssetTooLarge)));
    assert_eq!(check_entry(b"a\\b.png", false, 10).unwrap(), Some("a/b.png".to_string()));
    assert_eq!(check_entry(&gbk("默认底图.png"), false, 10).unwrap(), Some("默认底图.png".to_string()));
    assert!(matches!(check_entry(b"../x", false, 1), Err(Error::UnsafeArchivePath(n)) if n == "../x"));
    assert_eq!(decode_zip_name(&gbk("皮肤")), "皮肤");
    assert_eq!(decode_zip_name("皮肤".as_bytes()), "皮肤");
}

#[test]
fn archive_paths_must_be_plain_and_relative() {
    for ok in ["a.png", "dir/a.png", "dir\\a.png", "a/./b", "", "ab:c"] {
        assert!(validate_relative_path(ok).is_ok(), "{ok}");
    }
    for bad in ["/a", "\\a", "C:a", "c:\\a", "..", "a/../b", "./a", ".", "\\\\server\\share"] {
        assert!(matches!(validate_relative_path(bad), Err(Error::UnsafeArchivePath(n)) if n == bad), "{bad}");
    }
}

#[test]
fn unsigned_numbers_read_like_from_str() {
    assert_eq!(parse_unsigned("255", 255), Some(255));
    assert_eq!(parse_unsigned("+7", 255), Some(7));
    assert_eq!(parse_unsigned("256", 255), None);
    assert_eq!(parse_unsigned("", 255), None);
    assert_eq!(parse_unsigned("+", 255), None);
    assert_eq!(parse_unsigned("-1", 255), None);
    assert_eq!(parse_unsigned(" 1", 255), None);
    assert_eq!(parse_unsigned("18446744073709551615", u64::MAX), Some(u64::MAX));
    assert_eq!(parse_unsigned("18446744073709551616", u64::MAX), None);
}

// ---------------------------------------------------------------------------
// Launching.

#[test]
fn hosts_run_what_their_architecture_allows() {
    type E = ExecutableArchitecture;
    type H = HostArchitecture;
    assert!(H::X86.supports(E::X86));
    assert!(!H::X86.supports(E::X64));
    assert!(H::X64.supports(E::X86) && H::X64.supports(E::X64));
    assert!(!H::X64.supports(E::Arm64) && !H::X64.supports(E::Arm));
    for e in [E::X86, E::X64, E::Arm, E::Arm64, E::Script, E::Unknown] {
        assert!(H::Arm64.supports(e));
    }
    assert!(H::Other.supports(E::Script) && H::Other.supports(E::Unknown) && !H::Other.supports(E::X86));
    assert_eq!(H::Arm64.name(), "ARM64");
    assert_eq!(H::Other.name(), "other");
    assert_eq!(E::Unknown.name(), "unknown-format");
    assert_eq!(E::Arm.name(), "ARM");
}

#[test]
fn launch_methods_and_refusals() {
    assert_eq!(launch_method_for(ExecutableArchitecture::Script), LaunchMethod::Script);
    assert_eq!(launch_method_for(ExecutableArchitecture::Unknown), LaunchMethod::ShellAssociation);
    assert_eq!(launch_method_for(ExecutableArchitecture::X64), LaunchMethod::Direct);
    assert_eq!(check_launch(HostArchitecture::X64, ExecutableArchitecture::X86, "a".to_string()).unwrap(), LaunchMethod::Direct);
    assert!(matches!(
        check_launch(HostArchitecture::X64, ExecutableArchitecture::Arm64, "dism.exe".to_string()),
        Err(Error::UnsupportedToolArchitecture { host: HostArchitecture::X64, executable: ExecutableArchitecture::Arm64, path }) if path == "dism.exe"
    ));
}

#[test]
fn recognises_scripts_and_pe_headers() {
    assert!(is_script_extension("BAT") && is_script_extension("ps1") && is_script_extension("Js"));
    assert!(!is_script_extension("exe") && !is_script_extension(""));
    let mut dos = vec![0u8; 64];
    dos[0] = b'M';
    dos[1] = b'Z';
    dos[0x3c..0x40].copy_from_slice(&0x80u32.to_le_bytes());
    assert_eq!(pe_header_offset(&dos), Some(0x80));
    assert_eq!(pe_header_offset(&dos[..63]), None);
    assert_eq!(pe_header_offset(&[0u8; 64]), None);
    assert_eq!(machine_architecture(b"PE\0\0\x4c\x01"), ExecutableArchitecture::X86);
    assert_eq!(machine_architecture(b"PE\0\0\x64\x86"), ExecutableArchitecture::X64);
    assert_eq!(machine_architecture(b"PE\0\0\xc4\x01"), ExecutableArchitecture::Arm);
    assert_eq!(machine_architecture(b"PE\0\0\x64\xaa"), ExecutableArchitecture::Arm64);
    assert_eq!(machine_architecture(b"PE\0\0\x00\x02"), ExecutableArchitecture::Unknown);
    assert_eq!(machine_architecture(b"PE\0\0\x4c"), ExecutableArchitecture::Unknown);
    assert_eq!(machine_architecture(b"PX\0\0\x4c\x01"), ExecutableArchitecture::Unknown);
}

#[test]
fn legacy_ddu_directories_fall_back() {
    assert!(is_legacy_ddu_directory("tools\\显卡工具\\DDU v18.0.1.9  "));
    assert!(!is_legacy_ddu_directory("tools\\显卡工具\\DDU v18.0.1.8"));
    assert!(!is_legacy_ddu_directory("tools\\other\\DDU v18.0.1.9"));
    let old = PackagedPath { components: strings(&["tools", "显卡工具", "DDU v18.0.1.9"]) };
    let replaced = compatible_working_directory(old.clone(), "tools/显卡工具/DDU v18.0.1.9", false);
    assert_eq!(replaced, legacy_ddu_fallback());
    assert_eq!(replaced.components, strings(&["tools", "显卡工具", "DDU"]));
    assert_eq!(compatible_working_directory(old.clone(), "tools/显卡工具/DDU v18.0.1.9", true), old);
}

#[test]
fn resolved_paths_must_stay_under_tools() {
    let root = strings(&["C:", "pkg", "tools"]);
    assert!(path_is_under(&strings(&["C:", "pkg", "tools", "a.exe"]), &root));
    assert!(path_is_under(&root, &root));
    assert!(!path_is_under(&strings(&["C:", "pkg"]), &root));
    assert!(!path_is_under(&strings(&["C:", "pkg", "toolsx", "a.exe"]), &root));
    assert!(check_inside(&root, &strings(&["C:", "pkg", "tools", "a"]), "x".to_string()).is_ok());
    assert!(matches!(
        check_inside(&root, &strings(&["C:", "other"]), "C:\\other".to_string()),
        Err(Error::ToolOutsideRoot(p)) if p == "C:\\other"
    ));
}

// ---------------------------------------------------------------------------
// Hardware reports.

fn snapshot() -> HardwareSnapshot {
    HardwareSnapshot {
        computer_name: "PC".to_string(),
        sections: vec![
            HardwareSection {
                category: HardwareCategory::Processor,
                title: "处理器".to_string(),
                devices: vec![HardwareDevice {
                    name: "CPU".to_string(),
                    properties: vec![HardwareProperty { name: "核心数".to_string(), value: "8".to_string() }],
                }],
            },
            HardwareSection { category: HardwareCategory::Audio, title: "音频设备".to_string(), devices: Vec::new() },
        ],
        warnings: vec!["磁盘：失败".to_string()],
    }
}

#[test]
fn report_lists_sections_devices_and_warnings() {
    let report = snapshot().to_text();
    assert_eq!(
        report,
        "计算机：PC\r\n\r\n【处理器】\r\n  CPU\r\n    核心数：8\r\n\r\n【音频设备】\r\n  未检测到设备\r\n\r\n【检测提示】\r\n  磁盘：失败\r\n"
    );
    let mut quiet = snapshot();
    quiet.warnings.clear();
    assert!(!quiet.to_text().contains("检测提示"));
    assert_eq!(snapshot().device_count(), 1);
}

#[test]
fn wmi_values_as_text_and_numbers() {
    assert_eq!(variant_text(&WmiValue::Text("  x ".to_string())), Some("x".to_string()));
    assert_eq!(variant_text(&WmiValue::Bool(true)), Some("是".to_string()));
    assert_eq!(variant_text(&WmiValue::I4(-42)), Some("-42".to_string()));
    assert_eq!(variant_text(&WmiValue::I8(i64::MIN)), Some(i64::MIN.to_string()));
    assert_eq!(variant_text(&WmiValue::UI8(u64::MAX)), Some(u64::MAX.to_string()));
    assert_eq!(variant_text(&WmiValue::Null), None);
    assert_eq!(
        variant_text(&WmiValue::Array(vec![WmiValue::Text("a".to_string()), WmiValue::Null, WmiValue::UI1(7)])),
        Some("a, 7".to_string())
    );
    assert_eq!(variant_u64(&WmiValue::Text(" 123 ".to_string())), Some(123));
    assert_eq!(variant_u64(&WmiValue::I2(-1)), None);
    assert_eq!(variant_u64(&WmiValue::UI4(9)), Some(9));
    assert_eq!(variant_u64(&WmiValue::Real("1.5".to_string())), None);
}

#[test]
fn wmi_values_by_format() {
    let text = |value: &WmiValue, format: Format| match format_value(value, format) {
        Some(FormattedValue::Text(t)) => Some(t),
        other => panic!("{other:?}"),
    };
    assert_eq!(text(&WmiValue::UI4(3600), Format::Megahertz), Some("3600 MHz".to_string()));
    assert_eq!(text(&WmiValue::UI1(80), Format::Percent), Some("80%".to_string()));
    assert_eq!(text(&WmiValue::UI2(9), Format::CpuArchitecture), Some("x64".to_string()));
    assert_eq!(text(&WmiValue::UI2(77), Format::CpuArchitecture), Some("未知 (77)".to_string()));
    assert_eq!(text(&WmiValue::UI2(3), Format::DriveType), Some("本地磁盘".to_string()));
    assert_eq!(text(&WmiValue::UI2(9), Format::BatteryStatus), Some("状态码 9".to_string()));
    assert_eq!(text(&WmiValue::UI2(4), Format::StorageMediaType), Some("固态硬盘 (SSD)".to_string()));
    assert_eq!(text(&WmiValue::UI2(17), Format::StorageBusType), Some("NVMe".to_string()));
    assert_eq!(text(&WmiValue::UI2(2), Format::StorageHealth), Some("不健康".to_string()));
    assert_eq!(
        text(&WmiValue::Text("20240131235959.000000+480".to_string()), Format::WmiDateTime),
        Some("2024-01-31 23:59:59".to_string())
    );
    assert_eq!(format_value(&WmiValue::Text("   ".to_string()), Format::Text), None);
    assert_eq!(format_value(&WmiValue::UI8(5), Format::Kibibytes), Some(FormattedValue::Bytes(5120)));
    assert_eq!(format_value(&WmiValue::UI8(u64::MAX), Format::Kibibytes), Some(FormattedValue::Bytes(u64::MAX)));
    assert_eq!(format_value(&WmiValue::UI4(1000), Format::BitsPerSecond), Some(FormattedValue::BitsPerSecond(1000)));
    assert_eq!(format_value(&WmiValue::UI4(3000), Format::Temperature), Some(FormattedValue::DeciKelvin(3000)));
    assert_eq!(format_value(&WmiValue::Null, Format::Bytes), None);
}

#[test]
fn wmi_timestamps_and_utf16_names() {
    assert_eq!(format_wmi_datetime("20240131"), None);
    assert_eq!(format_wmi_datetime("2024013123595x"), Some("2024013123595x".to_string()));
    assert_eq!(format_wmi_datetime("1234567890123好"), None);
    let units = WmiValue::Array(vec![WmiValue::UI2(0x44), WmiValue::UI2(0x45), WmiValue::UI2(0x4c), WmiValue::UI2(0), WmiValue::UI2(0x41)]);
    assert_eq!(format_utf16_array(&units), Some("DEL".to_string()));
    assert_eq!(format_utf16_array(&WmiValue::Array(vec![WmiValue::UI2(0)])), None);
    assert_eq!(format_utf16_array(&WmiValue::Text("x".to_string())), Some("x".to_string()));
    assert_eq!(format_utf16_array(&WmiValue::Array(vec![WmiValue::UI4(0xd800)])), Some("\u{fffd}".to_string()));
}

#[test]
fn utf16_arrays_pair_surrogates_and_replace_lone_ones() {
    let units = WmiValue::Array(vec![
        WmiValue::UI2(0x41),
        WmiValue::UI2(0xd83d),
        WmiValue::UI2(0xde00),
        WmiValue::UI2(0xdc00),
        WmiValue::UI2(0x4e2d),
    ]);
    assert_eq!(format_utf16_array(&units), Some("A\u{1f600}\u{fffd}中".to_string()));
}

#[test]
fn asset_names_come_in_string_order() {
    let mut assets = SkinAssets::new();
    assets.insert("b.png".to_string(), vec![1]);
    assets.insert("Config.ini".to_string(), vec![2]);
    assets.insert("a.png".to_string(), vec![3]);
    assets.insert("默认底图.png".to_string(), vec![4]);
    assets.insert("ab.png".to_string(), vec![5]);
    assets.insert("b.png".to_string(), vec![6]);
    assert_eq!(
        assets.names(),
        vec!["Config.ini".to_string(), "a.png".to_string(), "ab.png".to_string(), "b.png".to_string(), "默认底图.png".to_string()]
    );
    assert_eq!(assets.get("b.png"), Some(&[6u8][..]));
    assets.remove("ab.png");
    assert_eq!(assets.names(), vec!["Config.ini".to_string(), "a.png".to_string(), "b.png".to_string(), "默认底图.png".to_string()]);
}
