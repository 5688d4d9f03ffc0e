//! Hardware inventories: the snapshot of what was detected, its text
//! report, and how the values that Windows Management Instrumentation
//! reports are turned into text.

use vstd::prelude::*;

use crate::chars::{
    chars_of, decimal, decimal_string, push_char_slice, push_decimal, push_str_chars, signed_decimal,
    signed_decimal_string, str_equal, string_from_chars, trim, trim_chars,
};
use crate::skin::{parse_unsigned, spec_parse_unsigned};

verus! {

/// What kind of hardware a section lists.
#[derive(Debug, Clone, Copy, PartialEq, Eq, Structural)]
pub enum HardwareCategory {
    System,
    Processor,
    Mainboard,
    Memory,
    Graphics,
    Storage,
    Display,
    Network,
    Audio,
    Power,
    Usb,
    Thermal,
}

/// One labelled value of a device.
#[derive(Debug, Clone, PartialEq, Eq)]
pub struct HardwareProperty {
    pub name: String,
    pub value: String,
}

/// One detected device and its properties.
#[derive(Debug, Clone, PartialEq, Eq)]
pub struct HardwareDevice {
    pub name: String,
    pub properties: Vec<HardwareProperty>,
}

/// The devices one query found, under a title.
#[derive(Debug, Clone, PartialEq, Eq)]
pub struct HardwareSection {
    pub category: HardwareCategory,
    pub title: String,
    pub devices: Vec<HardwareDevice>,
}

/// Everything detected on one machine, with the queries that failed.
#[derive(Debug, Clone, PartialEq, Eq)]
pub struct HardwareSnapshot {
    pub computer_name: String,
    pub sections: Vec<HardwareSection>,
    pub warnings: Vec<String>,
}

/// The number of devices over all of `sections`.
pub open spec fn total_devices(sections: Seq<HardwareSection>) -> int
    decreases sections.len(),
{
    if sections.len() == 0 {
        0
    } else {
        total_devices(sections.drop_last()) + sections.last().devices@.len()
    }
}

proof fn lemma_total_devices_prefix(sections: Seq<HardwareSection>, i: int)
    requires
        0 <= i <= sections.len(),
    ensures
        total_devices(sections.take(i)) <= total_devices(sections),
    decreases sections.len() - i,
{
    if i < sections.len() {
        lemma_total_devices_prefix(sections, i + 1);
        assert(sections.take(i + 1).drop_last() =~= sections.take(i));
    } else {
        assert(sections.take(i) =~= sections);
    }
}

/// A property's line of the report.
pub open spec fn property_lines(ps: Seq<HardwareProperty>) -> Seq<char>
    decreases ps.len(),
{
    if ps.len() == 0 {
        seq![]
    } else {
        property_lines(ps.drop_last()) + "    "@ + ps.last().name@ + "："@ + ps.last().value@ + "\r\n"@
    }
}

/// Each device's name line followed by its property lines.
pub open spec fn device_lines(ds: Seq<HardwareDevice>) -> Seq<char>
    decreases ds.len(),
{
    if ds.len() == 0 {
        seq![]
    } else {
        device_lines(ds.drop_last()) + "  "@ + ds.last().name@ + "\r\n"@ + property_lines(ds.last().properties@)
    }
}

/// Each section after a blank line: its title in `【】`, then its devices,
/// or a line saying that none was detected.
pub open spec fn section_lines(ss: Seq<HardwareSection>) -> Seq<char>
    decreases ss.len(),
{
    if ss.len() == 0 {
        seq![]
    } else {
        let s = ss.last();
        section_lines(ss.drop_last()) + "\r\n"@ + "【"@ + s.title@ + "】\r\n"@ + (if s.devices@.len() == 0 {
            "  未检测到设备\r\n"@
        } else {
            device_lines(s.devices@)
        })
    }
}

/// One indented line per warning.
pub open spec fn warning_lines(ws: Seq<String>) -> Seq<char>
    decreases ws.len(),
{
    if ws.len() == 0 {
        seq![]
    } else {
        warning_lines(ws.drop_last()) + "  "@ + ws.last()@ + "\r\n"@
    }
}

/// The text report of a snapshot, with CR LF line ends: the computer's
/// name, every section, and, when there are any, the warnings under their
/// own heading.
pub open spec fn report_text(s: HardwareSnapshot) -> Seq<char> {
    "计算机："@ + s.computer_name@ + "\r\n"@ + section_lines(s.sections@) + (if s.warnings@.len() == 0 {
        seq![]
    } else {
        "\r\n【检测提示】\r\n"@ + warning_lines(s.warnings@)
    })
}

impl HardwareSnapshot {
    /// The number of devices over all sections.
    pub fn device_count(&self) -> (n: usize)
        requires
            total_devices(self.sections@) <= usize::MAX,
        ensures
            n == total_devices(self.sections@),
    {
        let mut n: usize = 0;
        let mut i: usize = 0;
        while i < self.sections.len()
            invariant
                i <= self.sections@.len(),
                total_devices(self.sections@) <= usize::MAX,
                n == total_devices(self.sections@.take(i as int)),
            decreases self.sections@.len() - i,
        {
            proof {
                assert(self.sections@.take(i + 1).drop_last() =~= self.sections@.take(i as int));
                lemma_total_devices_prefix(self.sections@, i + 1);
            }
            n = n + self.sections[i].devices.len();
            i = i + 1;
        }
        proof {
            assert(self.sections@.take(i as int) =~= self.sections@);
        }
        n
    }

    /// The text report of the snapshot.
    pub fn to_text(&self) -> (r: String)
        ensures
            r@ == report_text(*self),
    {
        let mut out: Vec<char> = Vec::new();
        push_str_chars(&mut out, "计算机：");
        push_str_chars(&mut out, self.computer_name.as_str());
        push_str_chars(&mut out, "\r\n");
        let ghost head = out@;
        let mut i: usize = 0;
        while i < self.sections.len()
            invariant
                i <= self.sections@.len(),
                out@ == head + section_lines(self.sections@.take(i as int)),
            decreases self.sections@.len() - i,
        {
            let section = &self.sections[i];
            let ghost before = out@;
            push_str_chars(&mut out, "\r\n");
            push_str_chars(&mut out, "【");
            push_str_chars(&mut out, section.title.as_str());
            push_str_chars(&mut out, "】\r\n");
            let ghost titled = out@;
            if section.devices.len() == 0 {
                push_str_chars(&mut out, "  未检测到设备\r\n");
            } else {
                let mut j: usize = 0;
                while j < section.devices.len()
                    invariant
                        j <= section.devices@.len(),
                        out@ == titled + device_lines(section.devices@.take(j as int)),
                    decreases section.devices@.len() - j,
                {
                    let device = &section.devices[j];
                    push_str_chars(&mut out, "  ");
                    push_str_chars(&mut out, device.name.as_str());
                    push_str_chars(&mut out, "\r\n");
                    let ghost named = out@;
                    let mut k: usize = 0;
                    while k < device.properties.len()
                        invariant
                            k <= device.properties@.len(),
                            out@ == named + property_lines(device.properties@.take(k as int)),
                        decreases device.properties@.len() - k,
                    {
                        let property = &device.properties[k];
                        push_str_chars(&mut out, "    ");
                        push_str_chars(&mut out, property.name.as_str());
                        push_str_chars(&mut out, "：");
                        push_str_chars(&mut out, property.value.as_str());
                        push_str_chars(&mut out, "\r\n");
                        proof {
                            assert(device.properties@.take(k + 1).drop_last() =~= device.properties@.take(k as int));
                            assert(out@ =~= named + property_lines(device.properties@.take(k + 1)));
                        }
                        k = k + 1;
                    }
                    proof {
                        assert(device.properties@.take(k as int) =~= device.properties@);
                        assert(section.devices@.take(j + 1).drop_last() =~= section.devices@.take(j as int));
                        assert(out@ =~= titled + device_lines(section.devices@.take(j + 1)));
                    }
                    j = j + 1;
                }
                proof {
                    assert(section.devices@.take(j as int) =~= section.devices@);
                }
            }
            proof {
                assert(self.sections@.take(i + 1).drop_last() =~= self.sections@.take(i as int));
                assert(out@ =~= head + section_lines(self.sections@.take(i + 1)));
            }
            i = i + 1;
        }
        proof {
            assert(self.sections@.take(i as int) =~= self.sections@);
        }
        if self.warnings.len() > 0 {
            let ghost body = out@;
            push_str_chars(&mut out, "\r\n【检测提示】\r\n");
            let ghost headed = out@;
            let mut w: usize = 0;
            while w < self.warnings.len()
                invariant
                    w <= self.warnings@.len(),
                    out@ == headed + warning_lines(self.warnings@.take(w as int)),
                decreases self.warnings@.len() - w,
            {
                push_str_chars(&mut out, "  ");
                push_str_chars(&mut out, self.warnings[w].as_str());
                push_str_chars(&mut out, "\r\n");
                proof {
                    assert(self.warnings@.take(w + 1).drop_last() =~= self.warnings@.take(w as int));
                    assert(out@ =~= headed + warning_lines(self.warnings@.take(w + 1)));
                }
                w = w + 1;
            }
            proof {
                assert(self.warnings@.take(w as int) =~= self.warnings@);
                assert(out@ =~= report_text(*self));
            }
        } else {
            proof {
                assert(out@ =~= report_text(*self));
            }
        }
        string_from_chars(out.as_slice())
    }
}

// ---------------------------------------------------------------------------
// Values as WMI reports them.

/// A value of a WMI property. Floating-point values arrive already
/// written as text (`Real`); COM objects carry nothing readable.
#[derive(Debug)]
pub enum WmiValue {
    Empty,
    Null,
    Text(String),
    I1(i8),
    I2(i16),
    I4(i32),
    I8(i64),
    Real(String),
    Bool(bool),
    UI1(u8),
    UI2(u16),
    UI4(u32),
    UI8(u64),
    Array(Vec<WmiValue>),
    Unknown,
    Object,
}

/// The texts of `vs[..n]` that have one, joined with `, `.
pub open spec fn joined_texts(vs: Seq<WmiValue>, n: nat) -> Seq<char>
    decreases vs, n,
{
    if n == 0 || n > vs.len() {
        seq![]
    } else {
        let before = joined_texts(vs, (n - 1) as nat);
        match value_text(vs[n - 1]) {
            None => before,
            Some(t) => if texts_before(vs, (n - 1) as nat) { before + ", "@ + t } else { t },
        }
    }
}

/// Whether any of `vs[..n]` has a text.
pub open spec fn texts_before(vs: Seq<WmiValue>, n: nat) -> bool
    decreases vs, n,
{
    if n == 0 || n > vs.len() {
        false
    } else {
        texts_before(vs, (n - 1) as nat) || value_text(vs[n - 1]) is Some
    }
}

/// A value as text: strings trimmed, booleans as 是/否, numbers in
/// decimal, arrays as the texts of their elements joined with `, `;
/// nothing for empty, null and object values.
pub open spec fn value_text(v: WmiValue) -> Option<Seq<char>>
    decreases v, 0nat,
{
    match v {
        WmiValue::Empty | WmiValue::Null | WmiValue::Unknown | WmiValue::Object => None,
        WmiValue::Text(t) => Some(trim(t@)),
        WmiValue::Bool(b) => Some(if b { "是"@ } else { "否"@ }),
        WmiValue::I1(n) => Some(signed_decimal(n as int)),
        WmiValue::I2(n) => Some(signed_decimal(n as int)),
        WmiValue::I4(n) => Some(signed_decimal(n as int)),
        WmiValue::I8(n) => Some(signed_decimal(n as int)),
        WmiValue::UI1(n) => Some(decimal(n as nat)),
        WmiValue::UI2(n) => Some(decimal(n as nat)),
        WmiValue::UI4(n) => Some(decimal(n as nat)),
        WmiValue::UI8(n) => Some(decimal(n as nat)),
        WmiValue::Real(t) => Some(t@),
        WmiValue::Array(vs) => Some(joined_texts(vs@, vs@.len())),
    }
}

/// A value as text.
pub fn variant_text(v: &WmiValue) -> (r: Option<String>)
    ensures
        match r {
            Some(t) => value_text(*v) == Some(t@),
            None => value_text(*v) is None,
        },
    decreases v,
{
    match v {
        WmiValue::Empty | WmiValue::Null | WmiValue::Unknown | WmiValue::Object => None,
        WmiValue::Text(t) => {
            let chars = chars_of(t.as_str());
            let trimmed = trim_chars(chars.as_slice());
            Some(string_from_chars(trimmed.as_slice()))
        },
        WmiValue::Bool(b) => Some(if *b { "是".to_owned() } else { "否".to_owned() }),
        WmiValue::I1(n) => Some(signed_decimal_string(*n as i64)),
        WmiValue::I2(n) => Some(signed_decimal_string(*n as i64)),
        WmiValue::I4(n) => Some(signed_decimal_string(*n as i64)),
        WmiValue::I8(n) => Some(signed_decimal_string(*n)),
        WmiValue::UI1(n) => Some(decimal_string(*n as u64)),
        WmiValue::UI2(n) => Some(decimal_string(*n as u64)),
        WmiValue::UI4(n) => Some(decimal_string(*n as u64)),
        WmiValue::UI8(n) => Some(decimal_string(*n)),
        WmiValue::Real(t) => Some(t.clone()),
        WmiValue::Array(vs) => {
            let mut out: Vec<char> = Vec::new();
            let mut any = false;
            let mut i: usize = 0;
            while i < vs.len()
                invariant
                    i <= vs@.len(),
                    *v == WmiValue::Array(*vs),
                    out@ == joined_texts(vs@, i as nat),
                    any == texts_before(vs@, i as nat),
                    !any ==> out@ == Seq::<char>::empty(),
                decreases vs@.len() - i,
            {
                proof {
                    assert(decreases_to!(*v => v->Array_0));
                    assert(v->Array_0 == *vs);
                    assert(decreases_to!(*vs => vs@));
                    assert(decreases_to!(vs@ => vs@[i as int]));
                }
                let ghost before = out@;
                match variant_text(&vs[i]) {
                    Some(t) => {
                        if any {
                            push_str_chars(&mut out, ", ");
                        }
                        push_str_chars(&mut out, t.as_str());
                        any = true;
                        proof {
                            assert(value_text(vs@[i as int]) == Some(t@));
                            assert(out@ =~= joined_texts(vs@, (i + 1) as nat));
                        }
                    },
                    None => {
                        proof {
                            assert(value_text(vs@[i as int]) is None);
                            assert(out@ =~= joined_texts(vs@, (i + 1) as nat));
                        }
                    },
                }
                i = i + 1;
            }
            Some(string_from_chars(out.as_slice()))
        },
    }
}

/// A value as an unsigned number: integers that are not negative, and
/// text that reads, trimmed, as a `u64` decimal.
pub open spec fn value_u64(v: WmiValue) -> Option<u64> {
    match v {
        WmiValue::I1(n) => if n >= 0 { Some(n as u64) } else { None },
        WmiValue::I2(n) => if n >= 0 { Some(n as u64) } else { None },
        WmiValue::I4(n) => if n >= 0 { Some(n as u64) } else { None },
        WmiValue::I8(n) => if n >= 0 { Some(n as u64) } else { None },
        WmiValue::UI1(n) => Some(n as u64),
        WmiValue::UI2(n) => Some(n as u64),
        WmiValue::UI4(n) => Some(n as u64),
        WmiValue::UI8(n) => Some(n),
        WmiValue::Text(t) => match spec_parse_unsigned(trim(t@), u64::MAX as int) {
            Some(n) => Some(n as u64),
            None => None,
        },
        _ => None,
    }
}

/// A value as an unsigned number.
pub fn variant_u64(v: &WmiValue) -> (r: Option<u64>)
    ensures
        r == value_u64(*v),
{
    match v {
        WmiValue::I1(n) => if *n >= 0 { Some(*n as u64) } else { None },
        WmiValue::I2(n) => if *n >= 0 { Some(*n as u64) } else { None },
        WmiValue::I4(n) => if *n >= 0 { Some(*n as u64) } else { None },
        WmiValue::I8(n) => if *n >= 0 { Some(*n as u64) } else { None },
        WmiValue::UI1(n) => Some(*n as u64),
        WmiValue::UI2(n) => Some(*n as u64),
        WmiValue::UI4(n) => Some(*n as u64),
        WmiValue::UI8(n) => Some(*n),
        WmiValue::Text(t) => {
            let chars = chars_of(t.as_str());
            let trimmed = string_from_chars(trim_chars(chars.as_slice()).as_slice());
            parse_unsigned(trimmed.as_str(), u64::MAX)
        },
        _ => None,
    }
}

// ---------------------------------------------------------------------------
// WMI timestamps and UTF-16 arrays.

/// Whether `u` is a leading surrogate.
pub open spec fn is_lead_surrogate(u: u16) -> bool {
    0xD800 <= u <= 0xDBFF
}

/// Whether `u` is a trailing surrogate.
pub open spec fn is_trail_surrogate(u: u16) -> bool {
    0xDC00 <= u <= 0xDFFF
}

/// What `String::from_utf16_lossy` gives for `units`: a leading surrogate
/// followed by a trailing one encodes one character beyond U+FFFF, any
/// other surrogate is written as U+FFFD, and every other unit is the
/// character of that number.
pub open spec fn utf16_lossy(units: Seq<u16>) -> Seq<char>
    decreases units.len(),
{
    if units.len() == 0 {
        Seq::empty()
    } else if units.len() >= 2 && is_lead_surrogate(units[0]) && is_trail_surrogate(units[1]) {
        seq![(0x10000 + (units[0] - 0xD800) * 0x400 + (units[1] - 0xDC00)) as char] + utf16_lossy(units.skip(2))
    } else if is_lead_surrogate(units[0]) || is_trail_surrogate(units[0]) {
        seq!['\u{FFFD}'] + utf16_lossy(units.skip(1))
    } else {
        seq![units[0] as char] + utf16_lossy(units.skip(1))
    }
}

/// Calls `String::from_utf16_lossy`, which decodes UTF-16 and writes each
/// unpaired surrogate as U+FFFD, as `utf16_lossy` states.
#[verifier::external_body]
fn from_utf16_lossy(units: &[u16]) -> (r: String)
    ensures
        r@ == utf16_lossy(units@),
{
    String::from_utf16_lossy(units)
}

/// Whether the byte is an ASCII digit.
pub open spec fn is_digit_byte(b: u8) -> bool {
    48 <= b <= 57
}

/// The bytes `b[x..y]` read as ASCII characters.
pub open spec fn ascii_run(b: Seq<u8>, x: int, y: int) -> Seq<char> {
    b.subrange(x, y).map_values(|c: u8| c as char)
}

/// A WMI timestamp (`yyyymmddHHMMSS...`) as `yyyy-mm-dd HH:MM:SS`: `None`
/// when the text's first 14 bytes do not end at a character boundary,
/// the text unchanged when they are not all digits.
pub open spec fn spec_wmi_datetime(text: Seq<char>) -> Option<Seq<char>> {
    let b = vstd::utf8::encode_utf8(text);
    if b.len() < 14 || !vstd::utf8::is_char_boundary(b, 14) {
        None
    } else if exists|i: int| 0 <= i < 14 && !is_digit_byte(#[trigger] b[i]) {
        Some(text)
    } else {
        Some(
            ascii_run(b, 0, 4) + "-"@ + ascii_run(b, 4, 6) + "-"@ + ascii_run(b, 6, 8) + " "@ + ascii_run(b, 8, 10)
                + ":"@ + ascii_run(b, 10, 12) + ":"@ + ascii_run(b, 12, 14),
        )
    }
}

/// Appends the bytes `b[x..y]` as ASCII characters.
fn push_ascii_run(out: &mut Vec<char>, b: &[u8], x: usize, y: usize)
    requires
        x <= y <= b@.len(),
    ensures
        final(out)@ == old(out)@ + ascii_run(b@, x as int, y as int),
{
    let ghost start = out@;
    let mut k: usize = x;
    while k < y
        invariant
            x <= k <= y <= b@.len(),
            out@ == start + ascii_run(b@, x as int, k as int),
        decreases y - k,
    {
        out.push(b[k] as char);
        proof {
            assert(out@ =~= start + ascii_run(b@, x as int, k + 1));
        }
        k = k + 1;
    }
}

/// A WMI timestamp as `yyyy-mm-dd HH:MM:SS`.
pub fn format_wmi_datetime(value: &str) -> (r: Option<String>)
    ensures
        match r {
            Some(t) => spec_wmi_datetime(value@) == Some(t@),
            None => spec_wmi_datetime(value@) is None,
        },
{
    let b = value.as_bytes();
    if b.len() < 14 || !value.is_char_boundary(14) {
        return None;
    }
    let mut k: usize = 0;
    while k < 14
        invariant
            k <= 14,
            b@.len() >= 14,
            b@ == vstd::utf8::encode_utf8(value@),
            vstd::utf8::is_char_boundary(b@, 14),
            forall|i: int| 0 <= i < k ==> is_digit_byte(#[trigger] b@[i]),
        decreases 14 - k,
    {
        if b[k] < 48 || b[k] > 57 {
            assert(!is_digit_byte(b@[k as int]));
            return Some(value.to_owned());
        }
        k = k + 1;
    }
    let mut out: Vec<char> = Vec::new();
    push_ascii_run(&mut out, b, 0, 4);
    out.push('-');
    push_ascii_run(&mut out, b, 4, 6);
    out.push('-');
    push_ascii_run(&mut out, b, 6, 8);
    out.push(' ');
    push_ascii_run(&mut out, b, 8, 10);
    out.push(':');
    push_ascii_run(&mut out, b, 10, 12);
    out.push(':');
    push_ascii_run(&mut out, b, 12, 14);
    proof {
        reveal_strlit("-");
        reveal_strlit(" ");
        reveal_strlit(":");
        assert(out@ =~= ascii_run(b@, 0, 4) + "-"@ + ascii_run(b@, 4, 6) + "-"@ + ascii_run(b@, 6, 8) + " "@
            + ascii_run(b@, 8, 10) + ":"@ + ascii_run(b@, 10, 12) + ":"@ + ascii_run(b@, 12, 14));
    }
    Some(string_from_chars(out.as_slice()))
}

/// The UTF-16 code units of an array: its elements that are numbers, up
/// to the first zero, keeping those that fit in 16 bits; and whether the
/// zero has been met.
pub open spec fn utf16_units(vs: Seq<WmiValue>, n: nat) -> (Seq<u16>, bool)
    decreases n,
{
    if n == 0 || n > vs.len() {
        (seq![], false)
    } else {
        let (units, stopped) = utf16_units(vs, (n - 1) as nat);
        if stopped {
            (units, true)
        } else {
            match value_u64(vs[n - 1]) {
                None => (units, false),
                Some(x) => if x == 0 {
                    (units, true)
                } else if x <= 0xffff {
                    (units.push(x as u16), false)
                } else {
                    (units, false)
                },
            }
        }
    }
}

/// An array of UTF-16 code units as text; any other value as its text.
pub open spec fn spec_utf16_array(v: WmiValue) -> Option<Seq<char>> {
    match v {
        WmiValue::Array(vs) => {
            let units = utf16_units(vs@, vs@.len()).0;
            if units.len() == 0 { None } else { Some(utf16_lossy(units)) }
        },
        _ => value_text(v),
    }
}

/// An array of UTF-16 code units as text; any other value as its text.
pub fn format_utf16_array(v: &WmiValue) -> (r: Option<String>)
    ensures
        match r {
            Some(t) => spec_utf16_array(*v) == Some(t@),
            None => spec_utf16_array(*v) is None,
        },
{
    match v {
        WmiValue::Array(vs) => {
            let mut units: Vec<u16> = Vec::new();
            let mut stopped = false;
            let mut i: usize = 0;
            while i < vs.len()
                invariant
                    i <= vs@.len(),
                    (units@, stopped) == utf16_units(vs@, i as nat),
                decreases vs@.len() - i,
            {
                if !stopped {
                    match variant_u64(&vs[i]) {
                        None => {},
                        Some(x) => {
                            if x == 0 {
                                stopped = true;
                            } else if x <= 0xffff {
                                units.push(x as u16);
                            }
                        },
                    }
                }
                i = i + 1;
            }
            if units.len() == 0 {
                None
            } else {
                Some(from_utf16_lossy(units.as_slice()))
            }
        },
        _ => variant_text(v),
    }
}

// ---------------------------------------------------------------------------
// Formatting a property.

/// How a property's value is shown.
#[derive(Debug, Clone, Copy, PartialEq, Eq, Structural)]
pub enum Format {
    Text,
    Bytes,
    Kibibytes,
    Megahertz,
    BitsPerSecond,
    Percent,
    CpuArchitecture,
    DriveType,
    BatteryStatus,
    Temperature,
    WmiDateTime,
    Utf16Array,
    StorageHealth,
    StorageMediaType,
    StorageBusType,
}

/// A formatted value: finished text, or a number still to be written as
/// a size in bytes, a bit rate, or a temperature in tenths of a kelvin
/// (these are written with floating-point arithmetic by the caller).
#[derive(Debug, Clone, PartialEq, Eq)]
pub enum FormattedValue {
    Text(String),
    Bytes(u64),
    BitsPerSecond(u64),
    DeciKelvin(u64),
}

/// A formatted value as mathematics.
pub enum FormattedModel {
    Text(Seq<char>),
    Bytes(u64),
    BitsPerSecond(u64),
    DeciKelvin(u64),
}

impl View for FormattedValue {
    type V = FormattedModel;

    open spec fn view(&self) -> FormattedModel {
        match self {
            FormattedValue::Text(t) => FormattedModel::Text(t@),
            FormattedValue::Bytes(n) => FormattedModel::Bytes(*n),
            FormattedValue::BitsPerSecond(n) => FormattedModel::BitsPerSecond(*n),
            FormattedValue::DeciKelvin(n) => FormattedModel::DeciKelvin(*n),
        }
    }
}

/// `prefix`, the decimal numeral of `n`, then `suffix`.
pub open spec fn numbered(prefix: Seq<char>, n: u64, suffix: Seq<char>) -> Seq<char> {
    prefix + decimal(n as nat) + suffix
}

/// `prefix`, the decimal numeral of `n`, then `suffix`.
fn numbered_text(prefix: &str, n: u64, suffix: &str) -> (r: String)
    ensures
        r@ == numbered(prefix@, n, suffix@),
{
    let mut out: Vec<char> = Vec::new();
    push_str_chars(&mut out, prefix);
    push_decimal(&mut out, n);
    push_str_chars(&mut out, suffix);
    string_from_chars(out.as_slice())
}

/// The name of a processor architecture code.
pub open spec fn cpu_architecture_text(n: u64) -> Seq<char> {
    if n == 0 {
        "x86"@
    } else if n == 5 {
        "ARM"@
    } else if n == 6 {
        "IA-64"@
    } else if n == 9 {
        "x64"@
    } else if n == 12 {
        "ARM64"@
    } else {
        numbered("未知 ("@, n, ")"@)
    }
}

/// The name of a drive type code.
pub open spec fn drive_type_text(n: u64) -> Seq<char> {
    if n == 2 {
        "可移动磁盘"@
    } else if n == 3 {
        "本地磁盘"@
    } else if n == 4 {
        "网络磁盘"@
    } else if n == 5 {
        "光盘"@
    } else if n == 6 {
        "RAM 磁盘"@
    } else {
        numbered("未知 ("@, n, ")"@)
    }
}

/// The name of a battery status code.
pub open spec fn battery_status_text(n: u64) -> Seq<char> {
    if n == 1 {
        "放电中"@
    } else if n == 2 {
        "接通电源"@
    } else if n == 3 {
        "已充满"@
    } else if n == 4 {
        "低电量"@
    } else if n == 5 {
        "严重低电量"@
    } else if n == 6 {
        "充电中"@
    } else {
        numbered("状态码 "@, n, ""@)
    }
}

/// The name of a storage health code.
pub open spec fn storage_health_text(n: u64) -> Seq<char> {
    if n == 0 {
        "正常"@
    } else if n == 1 {
        "警告"@
    } else if n == 2 {
        "不健康"@
    } else if n == 5 {
        "未知"@
    } else {
        numbered("状态码 "@, n, ""@)
    }
}

/// The name of a storage media type code.
pub open spec fn storage_media_text(n: u64) -> Seq<char> {
    if n == 0 {
        "未指定"@
    } else if n == 3 {
        "机械硬盘 (HDD)"@
    } else if n == 4 {
        "固态硬盘 (SSD)"@
    } else if n == 5 {
        "存储级内存 (SCM)"@
    } else {
        numbered("类型码 "@, n, ""@)
    }
}

/// The name of a storage bus type code.
pub open spec fn storage_bus_text(n: u64) -> Seq<char> {
    if n == 0 {
        "未知"@
    } else if n == 3 {
        "ATA"@
    } else if n == 7 {
        "USB"@
    } else if n == 8 {
        "RAID"@
    } else if n == 10 {
        "SAS"@
    } else if n == 11 {
        "SATA"@
    } else if n == 12 {
        "SD"@
    } else if n == 13 {
        "MMC"@
    } else if n == 17 {
        "NVMe"@
    } else if n == 18 {
        "SCM"@
    } else {
        numbered("总线码 "@, n, ""@)
    }
}

/// The name that `format` gives the code `n`, for the formats that name codes.
pub open spec fn code_text(format: Format, n: u64) -> Seq<char> {
    match format {
        Format::CpuArchitecture => cpu_architecture_text(n),
        Format::DriveType => drive_type_text(n),
        Format::BatteryStatus => battery_status_text(n),
        Format::StorageHealth => storage_health_text(n),
        Format::StorageMediaType => storage_media_text(n),
        _ => storage_bus_text(n),
    }
}

/// The name that `format` gives the code `n`.
fn code_name(format: Format, n: u64) -> (r: String)
    requires
        format is CpuArchitecture || format is DriveType || format is BatteryStatus || format is StorageHealth
            || format is StorageMediaType || format is StorageBusType,
    ensures
        r@ == code_text(format, n),
{
    match format {
        Format::CpuArchitecture => match n {
            0 => "x86".to_owned(),
            5 => "ARM".to_owned(),
            6 => "IA-64".to_owned(),
            9 => "x64".to_owned(),
            12 => "ARM64".to_owned(),
            _ => numbered_text("未知 (", n, ")"),
        },
        Format::DriveType => match n {
            2 => "可移动磁盘".to_owned(),
            3 => "本地磁盘".to_owned(),
            4 => "网络磁盘".to_owned(),
            5 => "光盘".to_owned(),
            6 => "RAM 磁盘".to_owned(),
            _ => numbered_text("未知 (", n, ")"),
        },
        Format::BatteryStatus => match n {
            1 => "放电中".to_owned(),
            2 => "接通电源".to_owned(),
            3 => "已充满".to_owned(),
            4 => "低电量".to_owned(),
            5 => "严重低电量".to_owned(),
            6 => "充电中".to_owned(),
            _ => numbered_text("状态码 ", n, ""),
        },
        Format::StorageHealth => match n {
            0 => "正常".to_owned(),
            1 => "警告".to_owned(),
            2 => "不健康".to_owned(),
            5 => "未知".to_owned(),
            _ => numbered_text("状态码 ", n, ""),
        },
        Format::StorageMediaType => match n {
            0 => "未指定".to_owned(),
            3 => "机械硬盘 (HDD)".to_owned(),
            4 => "固态硬盘 (SSD)".to_owned(),
            5 => "存储级内存 (SCM)".to_owned(),
            _ => numbered_text("类型码 ", n, ""),
        },
        _ => match n {
            0 => "未知".to_owned(),
            3 => "ATA".to_owned(),
            7 => "USB".to_owned(),
            8 => "RAID".to_owned(),
            10 => "SAS".to_owned(),
            11 => "SATA".to_owned(),
            12 => "SD".to_owned(),
            13 => "MMC".to_owned(),
            17 => "NVMe".to_owned(),
            18 => "SCM".to_owned(),
            _ => numbered_text("总线码 ", n, ""),
        },
    }
}

/// `n` kibibytes in bytes, saturating at `u64::MAX`.
pub open spec fn kibibytes_in_bytes(n: u64) -> u64 {
    if n * 1024 > u64::MAX { u64::MAX } else { (n * 1024) as u64 }
}

/// A value formatted before the blank check: what each format makes of
/// the value, `None` where the value has no number (or text) to format.
pub open spec fn format_raw(v: WmiValue, format: Format) -> Option<FormattedModel> {
    match format {
        Format::Text => match value_text(v) {
            Some(t) => Some(FormattedModel::Text(t)),
            None => None,
        },
        Format::WmiDateTime => match value_text(v) {
            None => None,
            Some(t) => match spec_wmi_datetime(t) {
                Some(x) => Some(FormattedModel::Text(x)),
                None => None,
            },
        },
        Format::Utf16Array => match spec_utf16_array(v) {
            Some(t) => Some(FormattedModel::Text(t)),
            None => None,
        },
        _ => match value_u64(v) {
            None => None,
            Some(n) => Some(
                match format {
                    Format::Bytes => FormattedModel::Bytes(n),
                    Format::Kibibytes => FormattedModel::Bytes(kibibytes_in_bytes(n)),
                    Format::BitsPerSecond => FormattedModel::BitsPerSecond(n),
                    Format::Temperature => FormattedModel::DeciKelvin(n),
                    Format::Megahertz => FormattedModel::Text(numbered(""@, n, " MHz"@)),
                    Format::Percent => FormattedModel::Text(numbered(""@, n, "%"@)),
                    _ => FormattedModel::Text(code_text(format, n)),
                },
            ),
        },
    }
}

/// A property's value as `format` shows it; text that is blank once
/// trimmed counts as no value.
pub open spec fn spec_format_value(v: WmiValue, format: Format) -> Option<FormattedModel> {
    match format_raw(v, format) {
        Some(FormattedModel::Text(t)) => if trim(t).len() == 0 { None } else { Some(FormattedModel::Text(t)) },
        other => other,
    }
}

/// A property's value as `format` shows it.
pub fn format_value(v: &WmiValue, format: Format) -> (r: Option<FormattedValue>)
    ensures
        match r {
            Some(f) => spec_format_value(*v, format) == Some(f@),
            None => spec_format_value(*v, format) is None,
        },
{
    let raw: Option<FormattedValue> = match format {
        Format::Text => match variant_text(v) {
            Some(t) => Some(FormattedValue::Text(t)),
            None => None,
        },
        Format::WmiDateTime => match variant_text(v) {
            None => None,
            Some(t) => match format_wmi_datetime(t.as_str()) {
                Some(x) => Some(FormattedValue::Text(x)),
                None => None,
            },
        },
        Format::Utf16Array => match format_utf16_array(v) {
            Some(t) => Some(FormattedValue::Text(t)),
            None => None,
        },
        _ => match variant_u64(v) {
            None => None,
            Some(n) => Some(
                match format {
                    Format::Bytes => FormattedValue::Bytes(n),
                    Format::Kibibytes => FormattedValue::Bytes(
                        if n > u64::MAX / 1024 { u64::MAX } else { n * 1024 },
                    ),
                    Format::BitsPerSecond => FormattedValue::BitsPerSecond(n),
                    Format::Temperature => FormattedValue::DeciKelvin(n),
                    Format::Megahertz => FormattedValue::Text(numbered_text("", n, " MHz")),
                    Format::Percent => FormattedValue::Text(numbered_text("", n, "%")),
                    _ => FormattedValue::Text(code_name(format, n)),
                },
            ),
        },
    };
    match raw {
        Some(FormattedValue::Text(t)) => {
            let chars = chars_of(t.as_str());
            let trimmed = trim_chars(chars.as_slice());
            if trimmed.len() == 0 {
                None
            } else {
                Some(FormattedValue::Text(t))
            }
        },
        other => other,
    }
}

// ---------------------------------------------------------------------------
// Summaries for the hardware page.

/// The trimmed names of `ds` that are not blank, in order.
pub open spec fn nonblank_names(ds: Seq<HardwareDevice>) -> Seq<Seq<char>>
    decreases ds.len(),
{
    if ds.len() == 0 {
        seq![]
    } else {
        let n = trim(ds.last().name@);
        nonblank_names(ds.drop_last()) + (if n.len() > 0 { seq![n] } else { seq![] })
    }
}

/// The non-blank device names of the sections of `category`, in order.
pub open spec fn category_device_names(ss: Seq<HardwareSection>, category: HardwareCategory) -> Seq<Seq<char>>
    decreases ss.len(),
{
    if ss.len() == 0 {
        seq![]
    } else {
        category_device_names(ss.drop_last(), category) + (if ss.last().category == category {
            nonblank_names(ss.last().devices@)
        } else {
            seq![]
        })
    }
}

/// At most the first `n` of `s`.
pub open spec fn at_most(s: Seq<Seq<char>>, n: int) -> Seq<Seq<char>> {
    if s.len() <= n { s } else { s.take(n) }
}

/// `s` with each run of equal neighbours kept once.
pub open spec fn dedup_runs(s: Seq<Seq<char>>) -> Seq<Seq<char>>
    decreases s.len(),
{
    if s.len() <= 1 {
        s
    } else if s.last() == s[s.len() - 2] {
        dedup_runs(s.drop_last())
    } else {
        dedup_runs(s.drop_last()).push(s.last())
    }
}

/// The pieces of `s` with `sep` between them.
pub open spec fn joined(s: Seq<Seq<char>>, sep: Seq<char>) -> Seq<char>
    decreases s.len(),
{
    if s.len() == 0 {
        seq![]
    } else if s.len() == 1 {
        s[0]
    } else {
        joined(s.drop_last(), sep) + sep + s.last()
    }
}

/// What the hardware page lists for a category: the first four device
/// names, repeated neighbours once, joined with ` / `; `未检测到` when
/// there is none.
pub open spec fn spec_hardware_names(s: HardwareSnapshot, category: HardwareCategory) -> Seq<char> {
    let names = dedup_runs(at_most(category_device_names(s.sections@, category), 4));
    if names.len() == 0 { "未检测到"@ } else { joined(names, " / "@) }
}

/// Appends the non-blank trimmed names of `ds` to `out`.
fn push_nonblank_names(out: &mut Vec<Vec<char>>, ds: &Vec<HardwareDevice>)
    ensures
        final(out)@.len() == old(out)@.len() + nonblank_names(ds@).len(),
        forall|k: int| 0 <= k < old(out)@.len() ==> #[trigger] final(out)@[k] == old(out)@[k],
        forall|k: int|
            0 <= k < nonblank_names(ds@).len() ==> #[trigger] final(out)@[old(out)@.len() + k]@ == nonblank_names(ds@)[k],
{
    let ghost start = out@;
    let mut i: usize = 0;
    while i < ds.len()
        invariant
            i <= ds@.len(),
            out@.len() == start.len() + nonblank_names(ds@.take(i as int)).len(),
            forall|k: int| 0 <= k < start.len() ==> #[trigger] out@[k] == start[k],
            forall|k: int|
                0 <= k < nonblank_names(ds@.take(i as int)).len() ==> #[trigger] out@[start.len() + k]@
                    == nonblank_names(ds@.take(i as int))[k],
        decreases ds@.len() - i,
    {
        let chars = chars_of(ds[i].name.as_str());
        let name = trim_chars(chars.as_slice());
        let ghost before = out@;
        proof {
            assert(ds@.take(i + 1).drop_last() =~= ds@.take(i as int));
            assert(ds@.take(i + 1).last() == ds@[i as int]);
        }
        if name.len() > 0 {
            out.push(name);
        }
        proof {
            let prev = nonblank_names(ds@.take(i as int));
            let next = nonblank_names(ds@.take(i + 1));
            assert forall|k: int| 0 <= k < next.len() implies #[trigger] out@[start.len() + k]@ == next[k] by {
                if k < prev.len() {
                    assert(out@[start.len() + k] == before[start.len() + k]);
                }
            }
        }
        i = i + 1;
    }
    proof {
        assert(ds@.take(ds@.len() as int) =~= ds@);
    }
}

/// The device names the hardware page lists for a category.
pub fn hardware_names(snapshot: &HardwareSnapshot, category: HardwareCategory) -> (r: String)
    ensures
        r@ == spec_hardware_names(*snapshot, category),
{
    let mut names: Vec<Vec<char>> = Vec::new();
    let mut i: usize = 0;
    while i < snapshot.sections.len()
        invariant
            i <= snapshot.sections@.len(),
            names@.len() == category_device_names(snapshot.sections@.take(i as int), category).len(),
            forall|k: int|
                0 <= k < names@.len() ==> #[trigger] names@[k]@ == category_device_names(
                    snapshot.sections@.take(i as int),
                    category,
                )[k],
        decreases snapshot.sections@.len() - i,
    {
        let section = &snapshot.sections[i];
        let ghost before = names@;
        proof {
            assert(snapshot.sections@.take(i + 1).drop_last() =~= snapshot.sections@.take(i as int));
            assert(snapshot.sections@.take(i + 1).last() == snapshot.sections@[i as int]);
        }
        if section.category == category {
            push_nonblank_names(&mut names, &section.devices);
        }
        proof {
            let prev = category_device_names(snapshot.sections@.take(i as int), category);
            let next = category_device_names(snapshot.sections@.take(i + 1), category);
            assert forall|k: int| 0 <= k < names@.len() implies #[trigger] names@[k]@ == next[k] by {
                if k < prev.len() {
                    assert(names@[k] == before[k]);
                } else {
                    assert(names@[prev.len() + (k - prev.len())] == names@[k]);
                }
            }
        }
        i = i + 1;
    }
    proof {
        assert(snapshot.sections@.take(i as int) =~= snapshot.sections@);
    }
    let ghost all = category_device_names(snapshot.sections@, category);
    if names.len() > 4 {
        names.truncate(4);
    }
    let ghost first = at_most(all, 4);
    proof {
        assert(names@.len() == first.len());
        assert forall|k: int| 0 <= k < names@.len() implies #[trigger] names@[k]@ == first[k] by {}
    }
    let mut kept: Vec<Vec<char>> = Vec::new();
    let mut j: usize = 0;
    while j < names.len()
        invariant
            j <= names@.len(),
            names@.len() == first.len(),
            forall|k: int| 0 <= k < names@.len() ==> #[trigger] names@[k]@ == first[k],
            kept@.len() == dedup_runs(first.take(j as int)).len(),
            forall|k: int| 0 <= k < kept@.len() ==> #[trigger] kept@[k]@ == dedup_runs(first.take(j as int))[k],
        decreases names@.len() - j,
    {
        proof {
            assert(first.take(j + 1).drop_last() =~= first.take(j as int));
            assert(first.take(j + 1).last() == first[j as int]);
            if j >= 1 {
                assert(first.take(j + 1)[j - 1] == first[j - 1]);
            }
        }
        let same = j > 0 && crate::catalog::chars_equal(names[j].as_slice(), names[j - 1].as_slice());
        if !same {
            let copy = copy_chars(names[j].as_slice());
            kept.push(copy);
        }
        proof {
            if j == 0 {
                assert(first.take(1) =~= seq![first[0]]);
            }
        }
        j = j + 1;
    }
    proof {
        assert(first.take(first.len() as int) =~= first);
    }
    let ghost names_kept = dedup_runs(first);
    if kept.len() == 0 {
        return "未检测到".to_owned();
    }
    let mut out: Vec<char> = Vec::new();
    push_char_slice(&mut out, kept[0].as_slice());
    let mut k: usize = 1;
    proof {
        assert(names_kept.take(1) =~= seq![names_kept[0]]);
    }
    while k < kept.len()
        invariant
            1 <= k <= kept@.len(),
            kept@.len() == names_kept.len(),
            forall|q: int| 0 <= q < kept@.len() ==> #[trigger] kept@[q]@ == names_kept[q],
            out@ == joined(names_kept.take(k as int), " / "@),
        decreases kept@.len() - k,
    {
        push_str_chars(&mut out, " / ");
        push_char_slice(&mut out, kept[k].as_slice());
        proof {
            assert(names_kept.take(k + 1).drop_last() =~= names_kept.take(k as int));
            assert(names_kept.take(k + 1).last() == names_kept[k as int]);
        }
        k = k + 1;
    }
    proof {
        assert(names_kept.take(k as int) =~= names_kept);
    }
    string_from_chars(out.as_slice())
}

/// A copy of `s`.
fn copy_chars(s: &[char]) -> (r: Vec<char>)
    ensures
        r@ == s@,
{
    let mut r: Vec<char> = Vec::new();
    push_char_slice(&mut r, s);
    assert(r@ =~= s@);
    r
}

/// Where the hardware page finds a category's headline: the first section
/// of the category with the preferred title, else its first section.
pub open spec fn headline_section(ss: Seq<HardwareSection>, category: HardwareCategory, title: Seq<char>) -> Option<int> {
    if exists|i: int| 0 <= i < ss.len() && (#[trigger] ss[i]).category == category && ss[i].title@ == title {
        Some(
            choose|i: int|
                0 <= i < ss.len() && (#[trigger] ss[i]).category == category && ss[i].title@ == title && forall|j: int|
                    0 <= j < i ==> !((#[trigger] ss[j]).category == category && ss[j].title@ == title),
        )
    } else if exists|i: int| 0 <= i < ss.len() && (#[trigger] ss[i]).category == category {
        Some(
            choose|i: int|
                0 <= i < ss.len() && (#[trigger] ss[i]).category == category && forall|j: int|
                    0 <= j < i ==> (#[trigger] ss[j]).category != category,
        )
    } else {
        None
    }
}

/// A category's headline on the hardware page: the trimmed name of the
/// first device of its headline section, unless that is blank.
pub open spec fn spec_hardware_name(s: HardwareSnapshot, category: HardwareCategory, title: Seq<char>) -> Option<Seq<char>> {
    match headline_section(s.sections@, category, title) {
        None => None,
        Some(i) => {
            let ds = s.sections@[i].devices@;
            if ds.len() == 0 || trim(ds[0].name@).len() == 0 {
                None
            } else {
                Some(trim(ds[0].name@))
            }
        },
    }
}

/// The first section of `category`, preferring one titled `title`.
fn find_headline(ss: &Vec<HardwareSection>, category: HardwareCategory, title: &str) -> (r: Option<usize>)
    ensures
        match r {
            Some(i) => headline_section(ss@, category, title@) == Some(i as int) && i < ss@.len(),
            None => headline_section(ss@, category, title@) is None,
        },
{
    let mut i: usize = 0;
    while i < ss.len()
        invariant
            i <= ss@.len(),
            forall|j: int| 0 <= j < i ==> !((#[trigger] ss@[j]).category == category && ss@[j].title@ == title@),
        decreases ss@.len() - i,
    {
        if ss[i].category == category && str_equal(ss[i].title.as_str(), title) {
            proof {
                let c = choose|x: int|
                    0 <= x < ss@.len() && (#[trigger] ss@[x]).category == category && ss@[x].title@ == title@ && forall|j: int|
                        0 <= j < x ==> !((#[trigger] ss@[j]).category == category && ss@[j].title@ == title@);
                assert(c == i) by {
                    if c < i {
                    } else if c > i {
                        assert(!(ss@[i as int].category == category && ss@[i as int].title@ == title@));
                    }
                }
            }
            return Some(i);
        }
        i = i + 1;
    }
    let mut k: usize = 0;
    while k < ss.len()
        invariant
            k <= ss@.len(),
            forall|j: int| 0 <= j < ss@.len() ==> !((#[trigger] ss@[j]).category == category && ss@[j].title@ == title@),
            forall|j: int| 0 <= j < k ==> (#[trigger] ss@[j]).category != category,
        decreases ss@.len() - k,
    {
        if ss[k].category == category {
            proof {
                let c = choose|x: int|
                    0 <= x < ss@.len() && (#[trigger] ss@[x]).category == category && forall|j: int|
                        0 <= j < x ==> (#[trigger] ss@[j]).category != category;
                assert(c == k) by {
                    if c > k {
                        assert(ss@[k as int].category != category);
                    }
                }
            }
            return Some(k);
        }
        k = k + 1;
    }
    None
}

/// A category's headline on the hardware page.
pub fn hardware_name(snapshot: &HardwareSnapshot, category: HardwareCategory, preferred_title: &str) -> (r: Option<String>)
    ensures
        match r {
            Some(n) => spec_hardware_name(*snapshot, category, preferred_title@) == Some(n@),
            None => spec_hardware_name(*snapshot, category, preferred_title@) is None,
        },
{
    let i = match find_headline(&snapshot.sections, category, preferred_title) {
        Some(i) => i,
        None => return None,
    };
    let devices = &snapshot.sections[i].devices;
    if devices.len() == 0 {
        return None;
    }
    let chars = chars_of(devices[0].name.as_str());
    let name = trim_chars(chars.as_slice());
    if name.len() == 0 {
        None
    } else {
        Some(string_from_chars(name.as_slice()))
    }
}

/// The labels and categories of the hardware page's detail lines.
pub open spec fn detail_rows() -> Seq<(Seq<char>, HardwareCategory)> {
    seq![
        ("处理器"@, HardwareCategory::Processor),
        ("主板"@, HardwareCategory::Mainboard),
        ("内存"@, HardwareCategory::Memory),
        ("显卡"@, HardwareCategory::Graphics),
        ("显示器"@, HardwareCategory::Display),
        ("硬盘"@, HardwareCategory::Storage),
        ("声卡"@, HardwareCategory::Audio),
        ("网卡"@, HardwareCategory::Network),
    ]
}

/// One detail line per row: its label, `：`, a tab, and the names listed
/// for its category; lines joined with CR LF.
pub open spec fn spec_hardware_details(s: HardwareSnapshot) -> Seq<char> {
    joined(
        detail_rows().map_values(|row: (Seq<char>, HardwareCategory)| row.0 + "：\t"@ + spec_hardware_names(s, row.1)),
        "\r\n"@,
    )
}

/// The detail lines of the hardware page.
pub fn hardware_details(snapshot: &HardwareSnapshot) -> (r: String)
    ensures
        r@ == spec_hardware_details(*snapshot),
{
    let labels: [&str; 8] = ["处理器", "主板", "内存", "显卡", "显示器", "硬盘", "声卡", "网卡"];
    let categories: [HardwareCategory; 8] = [
        HardwareCategory::Processor,
        HardwareCategory::Mainboard,
        HardwareCategory::Memory,
        HardwareCategory::Graphics,
        HardwareCategory::Display,
        HardwareCategory::Storage,
        HardwareCategory::Audio,
        HardwareCategory::Network,
    ];
    let ghost lines = detail_rows().map_values(
        |row: (Seq<char>, HardwareCategory)| row.0 + "：\t"@ + spec_hardware_names(*snapshot, row.1),
    );
    proof {
        assert forall|q: int| 0 <= q < 8 implies #[trigger] labels@[q]@ == detail_rows()[q].0 && categories@[q]
            == detail_rows()[q].1 by {}
    }
    let mut out: Vec<char> = Vec::new();
    let mut q: usize = 0;
    while q < 8
        invariant
            q <= 8,
            lines.len() == 8,
            forall|x: int| 0 <= x < 8 ==> #[trigger] labels@[x]@ == detail_rows()[x].0 && categories@[x] == detail_rows()[x].1,
            lines == detail_rows().map_values(
                |row: (Seq<char>, HardwareCategory)| row.0 + "：\t"@ + spec_hardware_names(*snapshot, row.1),
            ),
            out@ == joined(lines.take(q as int), "\r\n"@),
        decreases 8 - q,
    {
        if q > 0 {
            push_str_chars(&mut out, "\r\n");
        }
        push_str_chars(&mut out, labels[q]);
        push_str_chars(&mut out, "：\t");
        let names = hardware_names(snapshot, categories[q]);
        push_str_chars(&mut out, names.as_str());
        proof {
            assert(lines.take(q + 1).drop_last() =~= lines.take(q as int));
            assert(lines.take(q + 1).last() == lines[q as int]);
            assert(lines[q as int] == detail_rows()[q as int].0 + "：\t"@ + spec_hardware_names(*snapshot, detail_rows()[q as int].1));
            if q == 0 {
                assert(lines.take(1) =~= seq![lines[0]]);
            }
            assert(out@ =~= joined(lines.take(q + 1), "\r\n"@));
        }
        q = q + 1;
    }
    proof {
        assert(lines.take(8) =~= lines);
    }
    string_from_chars(out.as_slice())
}

// ---------------------------------------------------------------------------
// Every device is in the report.

/// `piece` stands in `t` from position `p`.
pub open spec fn occurs_at(t: Seq<char>, piece: Seq<char>, p: int) -> bool {
    0 <= p && p + piece.len() <= t.len() && t.subrange(p, p + piece.len()) == piece
}

/// The line that names device `d` in the report.
pub open spec fn device_name_line(d: HardwareDevice) -> Seq<char> {
    "  "@ + d.name@ + "\r\n"@
}

proof fn lemma_occurs_in_front(a: Seq<char>, b: Seq<char>, piece: Seq<char>, p: int)
    requires
        occurs_at(a, piece, p),
    ensures
        occurs_at(a + b, piece, p),
{
    assert((a + b).subrange(p, p + piece.len()) =~= a.subrange(p, p + piece.len()));
}

proof fn lemma_occurs_behind(a: Seq<char>, b: Seq<char>, piece: Seq<char>, p: int)
    requires
        occurs_at(b, piece, p),
    ensures
        occurs_at(a + b, piece, a.len() + p),
{
    assert((a + b).subrange(a.len() + p, a.len() + p + piece.len()) =~= b.subrange(p, p + piece.len()));
}

proof fn lemma_device_in_lines(ds: Seq<HardwareDevice>, j: int) -> (p: int)
    requires
        0 <= j < ds.len(),
    ensures
        occurs_at(device_lines(ds), device_name_line(ds[j]), p),
    decreases ds.len(),
{
    let init = ds.drop_last();
    let d = ds.last();
    let block = "  "@ + d.name@ + "\r\n"@ + property_lines(d.properties@);
    assert(device_lines(ds) == device_lines(init) + block);
    if j == ds.len() - 1 {
        let line = device_name_line(d);
        assert(block =~= line + property_lines(d.properties@));
        assert(occurs_at(line, line, 0)) by {
            assert(line.subrange(0, line.len() as int) =~= line);
        }
        lemma_occurs_in_front(line, property_lines(d.properties@), line, 0);
        lemma_occurs_behind(device_lines(init), block, line, 0);
        device_lines(init).len() as int
    } else {
        assert(init[j] == ds[j]);
        let q = lemma_device_in_lines(init, j);
        lemma_occurs_in_front(device_lines(init), block, device_name_line(ds[j]), q);
        q
    }
}

proof fn lemma_device_in_sections(ss: Seq<HardwareSection>, i: int, j: int) -> (p: int)
    requires
        0 <= i < ss.len(),
        0 <= j < ss[i].devices@.len(),
    ensures
        occurs_at(section_lines(ss), device_name_line(ss[i].devices@[j]), p),
    decreases ss.len(),
{
    let init = ss.drop_last();
    let sec = ss.last();
    let head = section_lines(init) + "\r\n"@ + "【"@ + sec.title@ + "】\r\n"@;
    let body = if sec.devices@.len() == 0 { "  未检测到设备\r\n"@ } else { device_lines(sec.devices@) };
    assert(section_lines(ss) =~= head + body);
    let line = device_name_line(ss[i].devices@[j]);
    if i == ss.len() - 1 {
        let q = lemma_device_in_lines(sec.devices@, j);
        lemma_occurs_behind(head, body, line, q);
        head.len() + q
    } else {
        assert(init[i] == ss[i]);
        let q = lemma_device_in_sections(init, i, j);
        let rest = "\r\n"@ + "【"@ + sec.title@ + "】\r\n"@ + body;
        assert(section_lines(ss) =~= section_lines(init) + rest);
        lemma_occurs_in_front(section_lines(init), rest, line, q);
        q
    }
}

/// The text `t` names device `d` on a line of its own.
pub open spec fn names_device(t: Seq<char>, d: HardwareDevice) -> bool {
    exists|p: int| occurs_at(t, device_name_line(d), p)
}

/// Every device of every section is named in the report, on a line of its
/// own: two spaces, its name, and a line break.
pub proof fn lemma_report_names_every_device(s: HardwareSnapshot)
    ensures
        forall|i: int, j: int|
            0 <= i < s.sections@.len() && 0 <= j < s.sections@[i].devices@.len() ==> names_device(
                report_text(s),
                #[trigger] s.sections@[i].devices@[j],
            ),
{
    assert forall|i: int, j: int|
        0 <= i < s.sections@.len() && 0 <= j < s.sections@[i].devices@.len() implies names_device(
            report_text(s),
            #[trigger] s.sections@[i].devices@[j],
        ) by {
        let line = device_name_line(s.sections@[i].devices@[j]);
        let q = lemma_device_in_sections(s.sections@, i, j);
        let front = "计算机："@ + s.computer_name@ + "\r\n"@;
        let back = if s.warnings@.len() == 0 {
            seq![]
        } else {
            "\r\n【检测提示】\r\n"@ + warning_lines(s.warnings@)
        };
        assert(report_text(s) =~= front + (section_lines(s.sections@) + back));
        lemma_occurs_in_front(section_lines(s.sections@), back, line, q);
        lemma_occurs_behind(front, section_lines(s.sections@) + back, line, q);
        assert(occurs_at(report_text(s), line, front.len() + q));
    }
}

} // verus!
