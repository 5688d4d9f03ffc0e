//! What a packaged tool is, what the host can run, and how to start it:
//! the decisions of planning a launch. Resolving paths on disk, reading
//! executable headers and starting processes are the caller's part.

use vstd::prelude::*;

use crate::chars::{chars_of, eq_ignore_ascii_case, is_ws, str_eq_ignore_ascii_case, trim_end};
use crate::edb::bytes::le_u32;
use crate::error::{Error, ErrorModel};

verus! {

/// The machine type of an executable, or how it is otherwise started.
#[derive(Debug, Clone, Copy, PartialEq, Eq, Structural)]
pub enum ExecutableArchitecture {
    X86,
    X64,
    Arm,
    Arm64,
    Script,
    Unknown,
}

/// The architecture of the host.
#[derive(Debug, Clone, Copy, PartialEq, Eq, Structural)]
pub enum HostArchitecture {
    X86,
    X64,
    Arm64,
    Other,
}

/// How a planned tool is started.
#[derive(Debug, Clone, Copy, PartialEq, Eq, Structural)]
pub enum LaunchMethod {
    Direct,
    Script,
    ShellAssociation,
}

/// A started tool: its process id when one is known, and how it was started.
#[derive(Debug, Clone, Copy, PartialEq, Eq, Structural)]
pub struct LaunchedTool {
    pub process_id: Option<u32>,
    pub method: LaunchMethod,
}

/// Which executables a host runs: scripts and unrecognised files on every
/// host (they are handed to the shell), x86 on x86, x86 and x64 on x64,
/// and x86, x64, ARM and ARM64 on ARM64.
pub open spec fn spec_supports(host: HostArchitecture, executable: ExecutableArchitecture) -> bool {
    match executable {
        ExecutableArchitecture::Script | ExecutableArchitecture::Unknown => true,
        ExecutableArchitecture::X86 => host is X86 || host is X64 || host is Arm64,
        ExecutableArchitecture::X64 => host is X64 || host is Arm64,
        ExecutableArchitecture::Arm | ExecutableArchitecture::Arm64 => host is Arm64,
    }
}

impl HostArchitecture {
    /// Whether this host can run an executable of the given kind.
    pub fn supports(self, executable: ExecutableArchitecture) -> (r: bool)
        ensures
            r == spec_supports(self, executable),
    {
        match executable {
            ExecutableArchitecture::Script | ExecutableArchitecture::Unknown => true,
            ExecutableArchitecture::X86 => match self {
                HostArchitecture::X86 | HostArchitecture::X64 | HostArchitecture::Arm64 => true,
                HostArchitecture::Other => false,
            },
            ExecutableArchitecture::X64 => match self {
                HostArchitecture::X64 | HostArchitecture::Arm64 => true,
                _ => false,
            },
            ExecutableArchitecture::Arm | ExecutableArchitecture::Arm64 => match self {
                HostArchitecture::Arm64 => true,
                _ => false,
            },
        }
    }

    /// The name shown for this host.
    pub fn name(&self) -> (r: &'static str)
        ensures
            r == spec_host_name(*self),
    {
        match self {
            HostArchitecture::X86 => "x86",
            HostArchitecture::X64 => "x64",
            HostArchitecture::Arm64 => "ARM64",
            HostArchitecture::Other => "other",
        }
    }
}

/// The name shown for a host.
pub open spec fn spec_host_name(host: HostArchitecture) -> &'static str {
    match host {
        HostArchitecture::X86 => "x86",
        HostArchitecture::X64 => "x64",
        HostArchitecture::Arm64 => "ARM64",
        HostArchitecture::Other => "other",
    }
}

/// The name shown for an executable kind.
pub open spec fn spec_executable_name(executable: ExecutableArchitecture) -> &'static str {
    match executable {
        ExecutableArchitecture::X86 => "x86",
        ExecutableArchitecture::X64 => "x64",
        ExecutableArchitecture::Arm => "ARM",
        ExecutableArchitecture::Arm64 => "ARM64",
        ExecutableArchitecture::Script => "script",
        ExecutableArchitecture::Unknown => "unknown-format",
    }
}

impl ExecutableArchitecture {
    /// The name shown for this kind of executable.
    pub fn name(&self) -> (r: &'static str)
        ensures
            r == spec_executable_name(*self),
    {
        match self {
            ExecutableArchitecture::X86 => "x86",
            ExecutableArchitecture::X64 => "x64",
            ExecutableArchitecture::Arm => "ARM",
            ExecutableArchitecture::Arm64 => "ARM64",
            ExecutableArchitecture::Script => "script",
            ExecutableArchitecture::Unknown => "unknown-format",
        }
    }
}

/// How an executable of the given kind is started: scripts through their
/// interpreter, unrecognised files through the shell's association, the
/// rest directly.
pub open spec fn spec_launch_method(architecture: ExecutableArchitecture) -> LaunchMethod {
    match architecture {
        ExecutableArchitecture::Script => LaunchMethod::Script,
        ExecutableArchitecture::Unknown => LaunchMethod::ShellAssociation,
        _ => LaunchMethod::Direct,
    }
}

/// How an executable of the given kind is started.
pub fn launch_method_for(architecture: ExecutableArchitecture) -> (r: LaunchMethod)
    ensures
        r == spec_launch_method(architecture),
{
    match architecture {
        ExecutableArchitecture::Script => LaunchMethod::Script,
        ExecutableArchitecture::Unknown => LaunchMethod::ShellAssociation,
        _ => LaunchMethod::Direct,
    }
}

/// The last step of planning a launch: the host must support the
/// executable's kind, which then decides how it is started. `path` is
/// the resolved executable as shown to the user.
pub fn check_launch(host: HostArchitecture, architecture: ExecutableArchitecture, path: String) -> (r: Result<
    LaunchMethod,
    Error,
>)
    ensures
        match r {
            Ok(m) => spec_supports(host, architecture) && m == spec_launch_method(architecture),
            Err(e) => !spec_supports(host, architecture) && e@ == ErrorModel::UnsupportedToolArchitecture {
                host,
                executable: architecture,
                path: path@,
            },
        },
{
    if !host.supports(architecture) {
        return Err(Error::UnsupportedToolArchitecture { host, executable: architecture, path });
    }
    Ok(launch_method_for(architecture))
}

// ---------------------------------------------------------------------------
// Recognising executables.

/// The file extensions run as scripts, compared up to ASCII case.
pub open spec fn is_script_extension_spec(extension: Seq<char>) -> bool {
    eq_ignore_ascii_case(extension, "bat"@) || eq_ignore_ascii_case(extension, "cmd"@) || eq_ignore_ascii_case(
        extension,
        "ps1"@,
    ) || eq_ignore_ascii_case(extension, "vbs"@) || eq_ignore_ascii_case(extension, "js"@)
}

/// Whether a file with this extension is run as a script.
pub fn is_script_extension(extension: &str) -> (r: bool)
    ensures
        r == is_script_extension_spec(extension@),
{
    str_eq_ignore_ascii_case(extension, "bat") || str_eq_ignore_ascii_case(extension, "cmd")
        || str_eq_ignore_ascii_case(extension, "ps1") || str_eq_ignore_ascii_case(extension, "vbs")
        || str_eq_ignore_ascii_case(extension, "js")
}

/// Where the PE header of an executable starts, read from its 64-byte DOS
/// header: `None` when fewer than 64 bytes could be read or they do not
/// start with `MZ`.
pub open spec fn spec_pe_offset(dos_header: Seq<u8>) -> Option<u32> {
    if dos_header.len() < 64 || dos_header[0] != 0x4d || dos_header[1] != 0x5a {
        None
    } else {
        Some(le_u32(dos_header, 0x3c))
    }
}

/// Where the PE header of an executable starts.
pub fn pe_header_offset(dos_header: &[u8]) -> (r: Option<u32>)
    ensures
        r == spec_pe_offset(dos_header@),
{
    if dos_header.len() < 64 || dos_header[0] != 0x4d || dos_header[1] != 0x5a {
        return None;
    }
    match crate::edb::bytes::read_u32(dos_header, 0x3c) {
        Ok(v) => Some(v),
        Err(_) => None,
    }
}

/// The kind of executable a 6-byte PE header names: `Unknown` when fewer
/// than 6 bytes could be read, the signature is not `PE\0\0`, or the
/// machine type is none of x86, x64, ARM (three codes) and ARM64.
pub open spec fn spec_machine_architecture(pe_header: Seq<u8>) -> ExecutableArchitecture {
    if pe_header.len() < 6 || pe_header[0] != 0x50 || pe_header[1] != 0x45 || pe_header[2] != 0 || pe_header[3] != 0 {
        ExecutableArchitecture::Unknown
    } else {
        let machine = pe_header[4] + 256 * pe_header[5];
        if machine == 0x014c {
            ExecutableArchitecture::X86
        } else if machine == 0x8664 {
            ExecutableArchitecture::X64
        } else if machine == 0x01c0 || machine == 0x01c2 || machine == 0x01c4 {
            ExecutableArchitecture::Arm
        } else if machine == 0xaa64 {
            ExecutableArchitecture::Arm64
        } else {
            ExecutableArchitecture::Unknown
        }
    }
}

/// The kind of executable a PE header names.
pub fn machine_architecture(pe_header: &[u8]) -> (r: ExecutableArchitecture)
    ensures
        r == spec_machine_architecture(pe_header@),
{
    if pe_header.len() < 6 || pe_header[0] != 0x50 || pe_header[1] != 0x45 || pe_header[2] != 0 || pe_header[3] != 0 {
        return ExecutableArchitecture::Unknown;
    }
    let machine: u32 = pe_header[4] as u32 + 256 * pe_header[5] as u32;
    if machine == 0x014c {
        ExecutableArchitecture::X86
    } else if machine == 0x8664 {
        ExecutableArchitecture::X64
    } else if machine == 0x01c0 || machine == 0x01c2 || machine == 0x01c4 {
        ExecutableArchitecture::Arm
    } else if machine == 0xaa64 {
        ExecutableArchitecture::Arm64
    } else {
        ExecutableArchitecture::Unknown
    }
}

// ---------------------------------------------------------------------------
// Older packages.

/// Whether `s` ends with `suffix`.
pub open spec fn ends_with(s: Seq<char>, suffix: Seq<char>) -> bool {
    s.len() >= suffix.len() && s.subrange(s.len() - suffix.len(), s.len() as int) == suffix
}

/// Whether `needle` occurs in `s` as a run of characters.
pub open spec fn contains_run(s: Seq<char>, needle: Seq<char>) -> bool {
    exists|i: int| 0 <= i && i + needle.len() <= s.len() && #[trigger] s.subrange(i, i + needle.len()) == needle
}

/// Whether a working directory, as text, is the one older packages give
/// DDU: it ends (trailing white space aside) with `DDU v18.0.1.9` and lies
/// under the graphics tools. Such a directory, when missing, is replaced
/// by `tools/显卡工具/DDU`.
pub open spec fn spec_is_legacy_ddu(directory: Seq<char>) -> bool {
    ends_with(trim_end(directory), "DDU v18.0.1.9"@) && contains_run(directory, "显卡工具"@)
}

/// Whether `s[start..start + needle.len()]` is `needle`.
fn run_at(s: &[char], needle: &[char], start: usize) -> (r: bool)
    requires
        start + needle@.len() <= s@.len(),
    ensures
        r == (s@.subrange(start as int, start + needle@.len()) == needle@),
{
    let _len = s.len();
    let mut k: usize = 0;
    while k < needle.len()
        invariant
            k <= needle@.len(),
            s@.len() <= usize::MAX,
            start + needle@.len() <= s@.len(),
            forall|q: int| 0 <= q < k ==> s@[start + q] == needle@[q],
        decreases needle@.len() - k,
    {
        if s[start + k] != needle[k] {
            assert(s@.subrange(start as int, start + needle@.len())[k as int] != needle@[k as int]);
            return false;
        }
        k = k + 1;
    }
    assert(s@.subrange(start as int, start + needle@.len()) =~= needle@);
    true
}

/// Whether `needle` occurs in `s`.
fn has_run(s: &[char], needle: &[char]) -> (r: bool)
    ensures
        r == contains_run(s@, needle@),
{
    if needle.len() > s.len() {
        return false;
    }
    let last = s.len() - needle.len();
    let mut i: usize = 0;
    while i < last
        invariant
            i <= last,
            last + needle@.len() == s@.len(),
            forall|j: int| 0 <= j < i ==> #[trigger] s@.subrange(j, j + needle@.len()) != needle@,
        decreases last - i,
    {
        if run_at(s, needle, i) {
            return true;
        }
        i = i + 1;
    }
    run_at(s, needle, last)
}

/// Whether a working directory, as text, is the one older packages give DDU.
pub fn is_legacy_ddu_directory(directory: &str) -> (r: bool)
    ensures
        r == spec_is_legacy_ddu(directory@),
{
    let text = chars_of(directory);
    let mut e: usize = text.len();
    while e > 0 && crate::chars::is_whitespace(text[e - 1])
        invariant
            e <= text@.len(),
            forall|k: int| e <= k < text@.len() ==> is_ws(#[trigger] text@[k]),
        decreases e,
    {
        e = e - 1;
    }
    let trimmed = crate::chars::sub_chars(text.as_slice(), 0, e);
    proof {
        lemma_trim_end_is(text@, e as int);
    }
    let suffix = chars_of("DDU v18.0.1.9");
    let marker = chars_of("显卡工具");
    let ends = trimmed.len() >= suffix.len() && run_at(trimmed, suffix.as_slice(), trimmed.len() - suffix.len());
    ends && has_run(text.as_slice(), marker.as_slice())
}

proof fn lemma_trim_end_is(s: Seq<char>, e: int)
    requires
        0 <= e <= s.len(),
        forall|k: int| e <= k < s.len() ==> is_ws(#[trigger] s[k]),
        e == 0 || !is_ws(s[e - 1]),
    ensures
        trim_end(s) == s.subrange(0, e),
    decreases s.len() - e,
{
    if e < s.len() {
        lemma_trim_end_is(s.drop_last(), e);
        assert(s.drop_last().subrange(0, e) =~= s.subrange(0, e));
    } else {
        assert(s.subrange(0, s.len() as int) =~= s);
    }
}

// ---------------------------------------------------------------------------
// Staying inside the package.

/// Whether `path` lies under `root`: its first components are those of `root`.
pub open spec fn is_under(path: Seq<Seq<char>>, root: Seq<Seq<char>>) -> bool {
    root.len() <= path.len() && path.take(root.len() as int) == root
}

/// The characters of each of `v`.
pub open spec fn component_views(v: Seq<String>) -> Seq<Seq<char>> {
    v.map_values(|c: String| c@)
}

/// Whether `path` lies under `root`, both given as components.
pub fn path_is_under(path: &[String], root: &[String]) -> (r: bool)
    ensures
        r == is_under(component_views(path@), component_views(root@)),
{
    let ghost p = component_views(path@);
    let ghost q = component_views(root@);
    if root.len() > path.len() {
        return false;
    }
    let mut i: usize = 0;
    while i < root.len()
        invariant
            i <= root@.len() <= path@.len(),
            p == component_views(path@),
            q == component_views(root@),
            forall|k: int| 0 <= k < i ==> p[k] == q[k],
        decreases root@.len() - i,
    {
        if path[i] != root[i] {
            assert(p.take(q.len() as int)[i as int] != q[i as int]);
            return false;
        }
        i = i + 1;
    }
    assert(p.take(q.len() as int) =~= q);
    true
}

/// A resolved launch path must lie under the package's tool directory;
/// `shown` is the resolved path as shown to the user.
pub fn check_inside(tools_root: &[String], resolved: &[String], shown: String) -> (r: Result<(), Error>)
    ensures
        match r {
            Ok(()) => is_under(component_views(resolved@), component_views(tools_root@)),
            Err(e) => !is_under(component_views(resolved@), component_views(tools_root@))
                && e@ == ErrorModel::ToolOutsideRoot(shown@),
        },
{
    if path_is_under(resolved, tools_root) {
        Ok(())
    } else {
        Err(Error::ToolOutsideRoot(shown))
    }
}

/// The working directory that replaces a missing legacy DDU directory.
pub open spec fn spec_legacy_ddu_fallback() -> Seq<Seq<char>> {
    seq!["tools"@, "显卡工具"@, "DDU"@]
}

/// The working directory that replaces a missing legacy DDU directory.
pub fn legacy_ddu_fallback() -> (r: crate::catalog::PackagedPath)
    ensures
        r@ == spec_legacy_ddu_fallback(),
{
    let mut components: Vec<String> = Vec::new();
    components.push("tools".to_owned());
    components.push("显卡工具".to_owned());
    components.push("DDU".to_owned());
    let r = crate::catalog::PackagedPath { components };
    assert(r@ =~= spec_legacy_ddu_fallback());
    r
}

/// The working directory to launch in: a legacy DDU directory that does
/// not exist is replaced by `tools/显卡工具/DDU`; any other is kept.
/// `shown` is the directory as text, `exists` whether it exists.
pub fn compatible_working_directory(
    working_directory: crate::catalog::PackagedPath,
    shown: &str,
    exists: bool,
) -> (r: crate::catalog::PackagedPath)
    ensures
        r@ == (if spec_is_legacy_ddu(shown@) && !exists { spec_legacy_ddu_fallback() } else { working_directory@ }),
{
    if is_legacy_ddu_directory(shown) && !exists {
        legacy_ddu_fallback()
    } else {
        working_directory
    }
}

} // verus!
