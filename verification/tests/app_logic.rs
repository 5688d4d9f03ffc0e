use tbtool::layout::{hit_test, HitContext, HitTarget, SettingAction};
use tbtool::hardware::{hardware_details, hardware_name, hardware_names};
use tbtool::settings::{bool_text, ini_bool, option_text, toggle_switch, uptime_text, AppSettings, Switch};
use tbtool::SkinManifest;
use tbtool::{HardwareCategory, HardwareDevice, HardwareSection, HardwareSnapshot, IniDocument};

fn device(name: &str) -> HardwareDevice {
    HardwareDevice { name: name.to_string(), properties: Vec::new() }
}

fn section(category: HardwareCategory, title: &str, names: &[&str]) -> HardwareSection {
    HardwareSection {
        category,
        title: title.to_string(),
        devices: names.iter().map(|name| device(name)).collect(),
    }
}

fn machine() -> HardwareSnapshot {
    HardwareSnapshot {
        computer_name: "PC".to_string(),
        sections: vec![
            section(HardwareCategory::System, "操作系统", &["Windows 11"]),
            section(HardwareCategory::System, "整机信息", &["  ThinkPad  "]),
            section(HardwareCategory::Memory, "物理内存条", &["DIMM0", "DIMM0", " ", "DIMM1", "DIMM2", "DIMM3"]),
            section(HardwareCategory::Graphics, "图形适配器", &["GPU"]),
        ],
        warnings: Vec::new(),
    }
}

#[test]
fn settings_read_truth_values() {
    let config = IniDocument::parse("[设置]\na= TRUE \nb=真\nc=0\nd=On\n".as_bytes()).unwrap();
    assert!(ini_bool(&config, "a", false));
    assert!(ini_bool(&config, "b", false));
    assert!(!ini_bool(&config, "c", true));
    assert!(ini_bool(&config, "d", false));
    assert!(ini_bool(&config, "missing", true));
    assert!(!ini_bool(&config, "missing", false));
}

#[test]
fn written_settings_read_back() {
    let mut config = IniDocument::parse(b"[x]\n").unwrap();
    config.set("设置", "k", bool_text(true));
    assert!(ini_bool(&config, "k", false));
    config.set("设置", "k", bool_text(false));
    assert!(!ini_bool(&config, "k", true));
    assert_eq!(bool_text(true), "真");
    assert_eq!(bool_text(false), "假");
}

#[test]
fn app_settings_defaults() {
    let config = IniDocument::parse("[设置]\n打开工具时显示提示=假\n".as_bytes()).unwrap();
    assert_eq!(
        AppSettings::from_ini(&config),
        AppSettings { silent_hardware: false, internal_image_viewer: true, tool_tips: false, window_effects: true }
    );
}

#[test]
fn option_and_uptime_texts() {
    assert_eq!(option_text(true, "提示"), "【●】提示");
    assert_eq!(option_text(false, "提示"), "【  】提示");
    assert_eq!(uptime_text(0), "0天0小时0分钟0秒");
    assert_eq!(uptime_text(((2 * 86_400 + 3 * 3_600 + 4 * 60 + 5) * 1000) + 999), "2天3小时4分钟5秒");
}

#[test]
fn hardware_page_names() {
    let snapshot = machine();
    assert_eq!(hardware_name(&snapshot, HardwareCategory::System, "整机信息"), Some("ThinkPad".to_string()));
    assert_eq!(hardware_name(&snapshot, HardwareCategory::System, "其他"), Some("Windows 11".to_string()));
    assert_eq!(hardware_name(&snapshot, HardwareCategory::Audio, "音频"), None);
    assert_eq!(hardware_names(&snapshot, HardwareCategory::Memory), "DIMM0 / DIMM1 / DIMM2");
    assert_eq!(hardware_names(&snapshot, HardwareCategory::Audio), "未检测到");
    let details = hardware_details(&snapshot);
    assert!(details.starts_with("处理器：\t未检测到\r\n主板：\t未检测到\r\n内存：\tDIMM0 / DIMM1 / DIMM2\r\n显卡：\tGPU"));
    assert_eq!(details.lines().count(), 8);
}

#[test]
fn plain_documents_are_written_and_read_back() {
    let bytes = b"[A]\r\nkey=v a l\r\n=empty key\r\n[B]\r\nx=";
    let document = IniDocument::parse(bytes).unwrap();
    assert_eq!(document.to_bytes().unwrap(), bytes);
    let reread = IniDocument::parse(&document.to_bytes().unwrap()).unwrap();
    assert_eq!(reread, document);
}

#[test]
fn turning_a_switch_over_writes_its_key_and_asks_only_for_effects() {
    let settings = AppSettings { silent_hardware: false, internal_image_viewer: true, tool_tips: true, window_effects: false };
    let change = toggle_switch(&settings, Switch::SilentHardware);
    assert_eq!(change.key, "静默检测硬件信息");
    assert_eq!(change.text, "真");
    assert!(!change.confirm);
    assert!(change.settings.silent_hardware);
    assert!(change.settings.tool_tips);
    let change = toggle_switch(&settings, Switch::WindowEffects);
    assert_eq!(change.key, "适配窗口动画和阴影特效");
    assert!(change.confirm);
    assert!(change.settings.window_effects);
    let change = toggle_switch(&change.settings, Switch::WindowEffects);
    assert_eq!(change.text, "假");
    assert!(!change.confirm);
    let change = toggle_switch(&settings, Switch::ToolTips);
    assert_eq!(change.key, "打开工具时显示提示");
    assert!(!change.settings.tool_tips);
}

#[test]
fn skin_record_falls_back_to_the_file_and_defaults() {
    let manifest = SkinManifest { opacity: None, name: None, author: None, border_color: None, text_color: None };
    let record = manifest.record(Some("蓝色.skin".to_string()), Some("蓝色".to_string()));
    assert_eq!(record.file_name, "蓝色.skin");
    assert_eq!(record.skin_name, "蓝色");
    assert_eq!(record.author, "");
    let record = manifest.record(None, None);
    assert_eq!(record.file_name, "自定义.skin");
    assert_eq!(record.skin_name, "自定义");
    let manifest = SkinManifest {
        opacity: None,
        name: Some("经典".to_string()),
        author: Some("甲".to_string()),
        border_color: None,
        text_color: None,
    };
    let record = manifest.record(Some("a.skin".to_string()), Some("a".to_string()));
    assert_eq!(record.skin_name, "经典");
    assert_eq!(record.author, "甲");
}

#[test]
fn clicks_land_on_buttons_rows_and_tool_cells() {
    let context = HitContext { sidebar_len: 12, settings_visible: false, tools_page: true, tool_count: 25 };
    assert_eq!(hit_test(980, 20, context), Some(HitTarget::Close));
    assert_eq!(hit_test(940, 20, context), Some(HitTarget::Minimize));
    assert_eq!(hit_test(900, 20, context), Some(HitTarget::Menu));
    assert_eq!(hit_test(10, 56 + 40 * 3 + 5, context), Some(HitTarget::Sidebar(3)));
    assert_eq!(hit_test(10, 56 + 40 * 12, context), None);
    assert_eq!(hit_test(216 + 75 * 4 + 1, 56 + 80 * 2 + 1, context), Some(HitTarget::Tool(24)));
    assert_eq!(hit_test(216 + 75 * 5 + 1, 56 + 80 * 2 + 1, context), None);
    assert_eq!(hit_test(216 + 75 * 10 + 1, 60, context), None);
    let settings = HitContext { settings_visible: true, ..context };
    assert_eq!(hit_test(300, 60 + 30 + 1, settings), Some(HitTarget::Setting(SettingAction::ChooseSkin)));
    assert_eq!(hit_test(300, 60 + 30 * 5 + 1, settings), None);
}
