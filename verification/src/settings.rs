//! The launcher's own settings, kept in the `[设置]` section of its
//! `Config.ini`, and the small texts its window shows.

use vstd::prelude::*;

use crate::chars::{
    chars_of, eq_ignore_ascii_case, push_decimal, push_str_chars, str_eq_ignore_ascii_case, string_from_chars,
    trim, trim_chars, decimal,
};
use crate::ini::{spec_get, IniDocument, IniModel};

verus! {

/// Whether a setting's text means "on": `真`, `true`, `1`, `yes` or `on`,
/// up to ASCII case, once trimmed.
pub open spec fn is_true_text(t: Seq<char>) -> bool {
    let v = trim(t);
    eq_ignore_ascii_case(v, "真"@) || eq_ignore_ascii_case(v, "true"@) || eq_ignore_ascii_case(v, "1"@)
        || eq_ignore_ascii_case(v, "yes"@) || eq_ignore_ascii_case(v, "on"@)
}

/// What `ini_bool` reads: the setting's truth when `[设置]` has it, else `default`.
pub open spec fn spec_ini_bool(config: IniModel, key: Seq<char>, default: bool) -> bool {
    match spec_get(config, "设置"@, key) {
        Some(t) => is_true_text(t),
        None => default,
    }
}

/// A boolean setting of the `[设置]` section.
pub fn ini_bool(config: &IniDocument, key: &str, default: bool) -> (r: bool)
    ensures
        r == spec_ini_bool(config@, key@, default),
{
    match config.get("设置", key) {
        Some(value) => {
            let chars = chars_of(value);
            let trimmed = string_from_chars(trim_chars(chars.as_slice()).as_slice());
            let t = trimmed.as_str();
            str_eq_ignore_ascii_case(t, "真") || str_eq_ignore_ascii_case(t, "true") || str_eq_ignore_ascii_case(
                t,
                "1",
            ) || str_eq_ignore_ascii_case(t, "yes") || str_eq_ignore_ascii_case(t, "on")
        },
        None => default,
    }
}

/// How a boolean setting is written: `真` or `假`.
pub open spec fn spec_bool_text(value: bool) -> &'static str {
    if value { "真" } else { "假" }
}

/// How a boolean setting is written.
pub fn bool_text(value: bool) -> (r: &'static str)
    ensures
        r == spec_bool_text(value),
{
    if value { "真" } else { "假" }
}

/// Writing a setting and reading it back gives what was written.
pub proof fn lemma_bool_text_reads_back(config: IniModel, key: Seq<char>, value: bool, default: bool)
    ensures
        spec_ini_bool(crate::ini::spec_set(config, "设置"@, key, spec_bool_text(value)@), key, default) == value,
{
    crate::ini::lemma_get_after_set(config, "设置"@, key, spec_bool_text(value)@);
    reveal_strlit("真");
    reveal_strlit("假");
    reveal_strlit("true");
    reveal_strlit("1");
    reveal_strlit("yes");
    reveal_strlit("on");
    let t = spec_bool_text(value)@;
    assert(trim(t) == t) by {
        assert(!crate::chars::is_ws(t[0]));
        assert(t.drop_last().len() == 0);
    }
    if !value {
        assert(!eq_ignore_ascii_case(t, "真"@)) by {
            assert(crate::chars::ascii_folded(t[0]) != crate::chars::ascii_folded("真"@[0]));
        }
    }
}

/// The launcher's switches.
#[derive(Debug, Clone, Copy, PartialEq, Eq, Structural)]
pub struct AppSettings {
    pub silent_hardware: bool,
    pub internal_image_viewer: bool,
    pub tool_tips: bool,
    pub window_effects: bool,
}

impl AppSettings {
    /// The switches as `[设置]` holds them; silent hardware detection is
    /// off and the others on where a switch is missing.
    pub fn from_ini(config: &IniDocument) -> (r: AppSettings)
        ensures
            r.silent_hardware == spec_ini_bool(config@, "静默检测硬件信息"@, false),
            r.internal_image_viewer == spec_ini_bool(config@, "使用内置图片查看器打开天梯图"@, true),
            r.tool_tips == spec_ini_bool(config@, "打开工具时显示提示"@, true),
            r.window_effects == spec_ini_bool(config@, "适配窗口动画和阴影特效"@, true),
    {
        AppSettings {
            silent_hardware: ini_bool(config, "静默检测硬件信息", false),
            internal_image_viewer: ini_bool(config, "使用内置图片查看器打开天梯图", true),
            tool_tips: ini_bool(config, "打开工具时显示提示", true),
            window_effects: ini_bool(config, "适配窗口动画和阴影特效", true),
        }
    }
}

/// A switch of the settings page.
#[derive(Debug, Clone, Copy, PartialEq, Eq, Structural)]
pub enum Switch {
    SilentHardware,
    InternalImageViewer,
    ToolTips,
    WindowEffects,
}

/// The `[设置]` key that holds switch `s`.
pub open spec fn spec_switch_key(s: Switch) -> Seq<char> {
    match s {
        Switch::SilentHardware => "静默检测硬件信息"@,
        Switch::InternalImageViewer => "使用内置图片查看器打开天梯图"@,
        Switch::ToolTips => "打开工具时显示提示"@,
        Switch::WindowEffects => "适配窗口动画和阴影特效"@,
    }
}

/// Whether switch `s` is on in `settings`.
pub open spec fn switch_value(settings: AppSettings, s: Switch) -> bool {
    match s {
        Switch::SilentHardware => settings.silent_hardware,
        Switch::InternalImageViewer => settings.internal_image_viewer,
        Switch::ToolTips => settings.tool_tips,
        Switch::WindowEffects => settings.window_effects,
    }
}

/// `settings` with switch `s` set to `value`.
pub open spec fn with_switch(settings: AppSettings, s: Switch, value: bool) -> AppSettings {
    match s {
        Switch::SilentHardware => AppSettings { silent_hardware: value, ..settings },
        Switch::InternalImageViewer => AppSettings { internal_image_viewer: value, ..settings },
        Switch::ToolTips => AppSettings { tool_tips: value, ..settings },
        Switch::WindowEffects => AppSettings { window_effects: value, ..settings },
    }
}

/// The `[设置]` key that holds switch `s`.
pub fn switch_key(s: Switch) -> (r: &'static str)
    ensures
        r@ == spec_switch_key(s),
{
    match s {
        Switch::SilentHardware => "静默检测硬件信息",
        Switch::InternalImageViewer => "使用内置图片查看器打开天梯图",
        Switch::ToolTips => "打开工具时显示提示",
        Switch::WindowEffects => "适配窗口动画和阴影特效",
    }
}

/// What turning a switch over does: the key written, the text written
/// there, whether the user is asked first, and the settings afterwards.
#[derive(Debug, Clone, Copy)]
pub struct SwitchChange {
    pub key: &'static str,
    pub text: &'static str,
    pub confirm: bool,
    pub settings: AppSettings,
}

/// Turns switch `s` over: its key gets the text of the opposite value, the
/// user is asked first only when window effects are being turned on, and
/// the settings take the new value.
pub fn toggle_switch(settings: &AppSettings, s: Switch) -> (r: SwitchChange)
    ensures
        r.key@ == spec_switch_key(s),
        r.text == spec_bool_text(!switch_value(*settings, s)),
        r.confirm == (s == Switch::WindowEffects && !switch_value(*settings, s)),
        r.settings == with_switch(*settings, s, !switch_value(*settings, s)),
{
    let current = match s {
        Switch::SilentHardware => settings.silent_hardware,
        Switch::InternalImageViewer => settings.internal_image_viewer,
        Switch::ToolTips => settings.tool_tips,
        Switch::WindowEffects => settings.window_effects,
    };
    let next = !current;
    let mut updated = *settings;
    match s {
        Switch::SilentHardware => updated.silent_hardware = next,
        Switch::InternalImageViewer => updated.internal_image_viewer = next,
        Switch::ToolTips => updated.tool_tips = next,
        Switch::WindowEffects => updated.window_effects = next,
    }
    let confirm = match s {
        Switch::WindowEffects => next,
        _ => false,
    };
    SwitchChange { key: switch_key(s), text: bool_text(next), confirm, settings: updated }
}

/// A settings line: a filled or empty mark in `【】`, then the label.
pub open spec fn spec_option_text(enabled: bool, label: Seq<char>) -> Seq<char> {
    "【"@ + (if enabled { "●"@ } else { "  "@ }) + "】"@ + label
}

/// A settings line.
pub fn option_text(enabled: bool, label: &str) -> (r: String)
    ensures
        r@ == spec_option_text(enabled, label@),
{
    let mut out: Vec<char> = Vec::new();
    push_str_chars(&mut out, "【");
    push_str_chars(&mut out, if enabled { "●" } else { "  " });
    push_str_chars(&mut out, "】");
    push_str_chars(&mut out, label);
    string_from_chars(out.as_slice())
}

/// How long the machine has run, from its tick count in milliseconds:
/// days, hours, minutes and seconds.
pub open spec fn spec_uptime_text(milliseconds: u64) -> Seq<char> {
    let s = milliseconds / 1000;
    decimal((s / 86_400) as nat) + "天"@ + decimal(((s / 3_600) % 24) as nat) + "小时"@ + decimal(((s / 60) % 60) as nat)
        + "分钟"@ + decimal((s % 60) as nat) + "秒"@
}

/// How long the machine has run, from its tick count in milliseconds.
pub fn uptime_text(milliseconds: u64) -> (r: String)
    ensures
        r@ == spec_uptime_text(milliseconds),
{
    let seconds = milliseconds / 1000;
    let mut out: Vec<char> = Vec::new();
    push_decimal(&mut out, seconds / 86_400);
    push_str_chars(&mut out, "天");
    push_decimal(&mut out, (seconds / 3_600) % 24);
    push_str_chars(&mut out, "小时");
    push_decimal(&mut out, (seconds / 60) % 60);
    push_str_chars(&mut out, "分钟");
    push_decimal(&mut out, seconds % 60);
    push_str_chars(&mut out, "秒");
    string_from_chars(out.as_slice())
}

} // verus!
