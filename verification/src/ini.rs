//! INI documents: sections of `key=value` entries, read from and written
//! back to UTF-8 or GBK text.

use vstd::prelude::*;
use vstd::utf8::encode_utf8;

use crate::chars::{
    chars_of, eq_ignore_ascii_case, first_match, lemma_eq_ignore_ascii_case_equiv,
    lemma_first_match, lemma_first_match_facts, push_char_slice, push_str_chars,
    str_eq_ignore_ascii_case, string_from_chars, sub_chars, trim, trim_chars,
};
use crate::error::Error;
use crate::text::{decode_text, encode_text, spec_decode_text, spec_encode_text, TextEncoding};

verus! {

/// One `key=value` line.
#[derive(Debug, Clone, PartialEq, Eq)]
pub struct IniEntry {
    pub key: String,
    pub value: String,
}

impl View for IniEntry {
    type V = (Seq<char>, Seq<char>);

    open spec fn view(&self) -> (Seq<char>, Seq<char>) {
        (self.key@, self.value@)
    }
}

/// A `[name]` header and the entries under it.
#[derive(Debug, Clone, PartialEq, Eq)]
pub struct IniSection {
    pub name: String,
    pub entries: Vec<IniEntry>,
}

/// A section as mathematics: its name and its `(key, value)` pairs in order.
#[verifier::ext_equal]
pub struct SectionModel {
    pub name: Seq<char>,
    pub entries: Seq<(Seq<char>, Seq<char>)>,
}

/// The models of a list of entries.
pub open spec fn entry_models(entries: Seq<IniEntry>) -> Seq<(Seq<char>, Seq<char>)> {
    entries.map_values(|e: IniEntry| e@)
}

impl View for IniSection {
    type V = SectionModel;

    open spec fn view(&self) -> SectionModel {
        SectionModel { name: self.name@, entries: entry_models(self.entries@) }
    }
}

/// The models of a list of sections.
pub open spec fn section_models(sections: Seq<IniSection>) -> Seq<SectionModel> {
    sections.map_values(|s: IniSection| s@)
}

/// A document as mathematics: its sections, the encoding it was read in,
/// whether its lines end in CR LF, and whether its last line ends in a
/// line break.
#[verifier::ext_equal]
pub struct IniModel {
    pub sections: Seq<SectionModel>,
    pub encoding: TextEncoding,
    pub crlf: bool,
    pub trailing_newline: bool,
}

/// An INI document that remembers how it was encoded and laid out, so
/// that writing it back reproduces a file it read.
#[derive(Debug, Clone, PartialEq, Eq)]
pub struct IniDocument {
    pub sections: Vec<IniSection>,
    pub encoding: TextEncoding,
    crlf: bool,
    trailing_newline: bool,
}

impl View for IniDocument {
    type V = IniModel;

    closed spec fn view(&self) -> IniModel {
        IniModel {
            sections: section_models(self.sections@),
            encoding: self.encoding,
            crlf: self.crlf,
            trailing_newline: self.trailing_newline,
        }
    }
}

// ---------------------------------------------------------------------------
// Reading.

/// `s` cut at every line feed: one piece more than there are line feeds.
pub open spec fn split_lines(s: Seq<char>) -> Seq<Seq<char>>
    decreases s.len(),
{
    if s.len() == 0 {
        seq![Seq::<char>::empty()]
    } else {
        let rest = split_lines(s.drop_last());
        if s.last() == '\n' {
            rest.push(Seq::<char>::empty())
        } else {
            rest.update(rest.len() - 1, rest.last().push(s.last()))
        }
    }
}

proof fn lemma_split_lines_nonempty(s: Seq<char>)
    ensures
        split_lines(s).len() >= 1,
    decreases s.len(),
{
    if s.len() > 0 {
        lemma_split_lines_nonempty(s.drop_last());
    }
}

/// There is always at least one piece.
pub proof fn lemma_split_lines_nonempty_pub(s: Seq<char>)
    ensures
        split_lines(s).len() >= 1,
{
    lemma_split_lines_nonempty(s);
}

/// Why a line of an INI file could not be read.
#[derive(Debug, Clone, Copy, PartialEq, Eq, Structural)]
pub enum IniFault {
    MalformedSectionHeader,
    ExpectedKeyValue,
    EntryBeforeSection,
}

/// The error for fault `f` on line `line` (counted from 1).
pub open spec fn ini_error(line: int, f: IniFault) -> Error {
    Error::InvalidIni {
        line: line as usize,
        reason: match f {
            IniFault::MalformedSectionHeader => "malformed section header",
            IniFault::ExpectedKeyValue => "expected key=value",
            IniFault::EntryBeforeSection => "entry appears before the first section",
        },
    }
}

/// The first position of `c` in `s`.
pub open spec fn first_position(s: Seq<char>, c: char) -> Option<int>
    decreases s.len(),
{
    if s.len() == 0 {
        None
    } else if s[0] == c {
        Some(0)
    } else {
        match first_position(s.drop_first(), c) {
            Some(i) => Some(i + 1),
            None => None,
        }
    }
}

pub proof fn lemma_first_position(s: Seq<char>, c: char, i: int)
    requires
        0 <= i <= s.len(),
        forall|j: int| 0 <= j < i ==> #[trigger] s[j] != c,
        i < s.len() ==> s[i] == c,
    ensures
        first_position(s, c) == (if i == s.len() { None } else { Some(i) }),
    decreases i,
{
    if i > 0 {
        assert(s[0] != c);
        assert forall|j: int| 0 <= j < i - 1 implies #[trigger] s.drop_first()[j] != c by {
            assert(s.drop_first()[j] == s[j + 1]);
        }
        lemma_first_position(s.drop_first(), c, i - 1);
    }
}

/// The sections after reading one more line. A line is read trimmed of
/// white space at both ends (a carriage return before the line feed
/// counts as white space): blank lines and lines that start with `;` or
/// `#` are skipped, `[name]` opens a section named by the trimmed text
/// between the brackets, and `key=value` (split at the first `=`, both
/// sides trimmed) adds an entry to the last section.
pub open spec fn parse_line(sections: Seq<SectionModel>, raw: Seq<char>) -> Result<Seq<SectionModel>, IniFault> {
    let line = trim(raw);
    if line.len() == 0 || line[0] == ';' || line[0] == '#' {
        Ok(sections)
    } else if line[0] == '[' {
        if line.len() >= 2 && line.last() == ']' {
            Ok(sections.push(SectionModel { name: trim(line.subrange(1, line.len() - 1)), entries: seq![] }))
        } else {
            Err(IniFault::MalformedSectionHeader)
        }
    } else {
        match first_position(line, '=') {
            None => Err(IniFault::ExpectedKeyValue),
            Some(p) => if sections.len() == 0 {
                Err(IniFault::EntryBeforeSection)
            } else {
                let last = sections.last();
                let entry = (trim(line.take(p)), trim(line.subrange(p + 1, line.len() as int)));
                Ok(sections.update(sections.len() - 1, SectionModel { entries: last.entries.push(entry), ..last }))
            },
        }
    }
}

/// The sections read from the first `n` lines, or the first failing line
/// (counted from 1) with its fault.
pub open spec fn parse_lines(lines: Seq<Seq<char>>, n: nat) -> Result<Seq<SectionModel>, (int, IniFault)>
    decreases n,
{
    if n == 0 {
        Ok(seq![])
    } else {
        match parse_lines(lines, (n - 1) as nat) {
            Err(e) => Err(e),
            Ok(sections) => match parse_line(sections, lines[n - 1]) {
                Ok(t) => Ok(t),
                Err(f) => Err((n as int, f)),
            },
        }
    }
}

proof fn lemma_parse_lines_err_stays(lines: Seq<Seq<char>>, m: nat, n: nat)
    requires
        m <= n,
        parse_lines(lines, m) is Err,
    ensures
        parse_lines(lines, n) == parse_lines(lines, m),
    decreases n - m,
{
    if m < n {
        lemma_parse_lines_err_stays(lines, m, (n - 1) as nat);
    }
}

/// Whether `s` holds a carriage return directly followed by a line feed.
pub open spec fn has_crlf(s: Seq<char>) -> bool {
    exists|i: int| 0 <= i && i + 1 < s.len() && s[i] == '\r' && #[trigger] s[i + 1] == '\n'
}

/// What `IniDocument::parse` makes of the file `b`.
pub open spec fn spec_parse(b: Seq<u8>) -> Result<IniModel, Error> {
    match spec_decode_text(b) {
        Err(e) => Err(e),
        Ok((text, encoding)) => {
            let lines = split_lines(text);
            match parse_lines(lines, lines.len()) {
                Err((line, f)) => Err(ini_error(line, f)),
                Ok(sections) => Ok(
                    IniModel {
                        sections,
                        encoding,
                        crlf: has_crlf(text),
                        trailing_newline: text.len() > 0 && text.last() == '\n',
                    },
                ),
            }
        },
    }
}

/// The lines of `text`, as `split_lines` cuts them.
fn lines_of(text: &[char]) -> (r: Vec<Vec<char>>)
    ensures
        r@.len() == split_lines(text@).len(),
        forall|k: int| 0 <= k < r@.len() ==> #[trigger] r@[k]@ == split_lines(text@)[k],
{
    let mut lines: Vec<Vec<char>> = Vec::new();
    let mut current: Vec<char> = Vec::new();
    let mut i: usize = 0;
    while i < text.len()
        invariant
            i <= text@.len(),
            lines@.len() + 1 == split_lines(text@.take(i as int)).len(),
            forall|k: int| 0 <= k < lines@.len() ==> #[trigger] lines@[k]@ == split_lines(text@.take(i as int))[k],
            current@ == split_lines(text@.take(i as int)).last(),
        decreases text@.len() - i,
    {
        proof {
            lemma_split_lines_nonempty(text@.take(i as int));
            assert(text@.take(i + 1).drop_last() =~= text@.take(i as int));
        }
        if text[i] == '\n' {
            lines.push(current);
            current = Vec::new();
        } else {
            current.push(text[i]);
        }
        i = i + 1;
    }
    proof {
        assert(text@.take(text@.len() as int) =~= text@);
    }
    lines.push(current);
    lines
}

/// Whether `s` holds a carriage return directly followed by a line feed.
fn contains_crlf(s: &[char]) -> (r: bool)
    ensures
        r == has_crlf(s@),
{
    if s.len() == 0 {
        return false;
    }
    let mut i: usize = 0;
    while i < s.len() - 1
        invariant
            s@.len() > 0,
            forall|j: int| 0 <= j < i && j + 1 < s@.len() ==> !(s@[j] == '\r' && #[trigger] s@[j + 1] == '\n'),
        decreases s@.len() - i,
    {
        if s[i] == '\r' && s[i + 1] == '\n' {
            return true;
        }
        i = i + 1;
    }
    false
}

/// The first position of `c` in `s`.
fn find_char(s: &[char], c: char) -> (r: Option<usize>)
    ensures
        match r {
            Some(i) => first_position(s@, c) == Some(i as int) && i < s@.len(),
            None => first_position(s@, c) is None,
        },
{
    let mut i: usize = 0;
    while i < s.len()
        invariant
            i <= s@.len(),
            forall|j: int| 0 <= j < i ==> #[trigger] s@[j] != c,
        decreases s@.len() - i,
    {
        if s[i] == c {
            proof {
                lemma_first_position(s@, c, i as int);
            }
            return Some(i);
        }
        i = i + 1;
    }
    proof {
        lemma_first_position(s@, c, s@.len() as int);
    }
    None
}

/// The error for fault `f` on line `line`.
fn fault_error(line: usize, f: IniFault) -> (e: Error)
    ensures
        e == ini_error(line as int, f),
{
    match f {
        IniFault::MalformedSectionHeader => Error::InvalidIni { line, reason: "malformed section header" },
        IniFault::ExpectedKeyValue => Error::InvalidIni { line, reason: "expected key=value" },
        IniFault::EntryBeforeSection => Error::InvalidIni { line, reason: "entry appears before the first section" },
    }
}

impl IniDocument {
    /// Reads a document from UTF-8 (with or without a byte-order mark) or
    /// GBK text.
    pub fn parse(bytes: &[u8]) -> (r: Result<IniDocument, Error>)
        requires
            bytes@.len() <= usize::MAX / 4,
        ensures
            match r {
                Ok(d) => spec_parse(bytes@) == Ok::<IniModel, Error>(d@),
                Err(e) => spec_parse(bytes@) == Err::<IniModel, Error>(e),
            },
    {
        let (text, encoding) = match decode_text(bytes) {
            Ok(x) => x,
            Err(e) => return Err(e),
        };
        let chars = chars_of(text.as_str());
        let crlf = contains_crlf(chars.as_slice());
        let trailing_newline = chars.len() > 0 && chars[chars.len() - 1] == '\n';
        let lines = lines_of(chars.as_slice());
        let ghost all = split_lines(chars@);
        let mut sections: Vec<IniSection> = Vec::new();
        proof {
            assert(section_models(sections@) =~= seq![]);
        }
        let mut i: usize = 0;
        while i < lines.len()
            invariant
                i <= lines@.len(),
                all == split_lines(chars@),
                spec_decode_text(bytes@) == Ok::<(Seq<char>, TextEncoding), Error>((chars@, encoding)),
                lines@.len() == all.len(),
                forall|k: int| 0 <= k < lines@.len() ==> #[trigger] lines@[k]@ == all[k],
                parse_lines(all, i as nat) == Ok::<Seq<SectionModel>, (int, IniFault)>(section_models(sections@)),
            decreases lines@.len() - i,
        {
            let ghost before = section_models(sections@);
            let line = trim_chars(lines[i].as_slice());
            proof {
                assert(lines@[i as int]@ == all[i as int]);
            }
            if line.len() == 0 || line[0] == ';' || line[0] == '#' {
                i = i + 1;
                continue;
            }
            if line[0] == '[' {
                if line.len() >= 2 && line[line.len() - 1] == ']' {
                    let inner = trim_chars(sub_chars(line.as_slice(), 1, line.len() - 1));
                    let section = IniSection { name: string_from_chars(inner.as_slice()), entries: Vec::new() };
                    proof {
                        assert(entry_models(section.entries@) =~= seq![]);
                        assert(section@ == SectionModel { name: inner@, entries: seq![] });
                    }
                    sections.push(section);
                    proof {
                        assert(section_models(sections@) =~= before.push(
                            SectionModel { name: inner@, entries: seq![] },
                        ));
                    }
                } else {
                    proof {
                        assert(parse_line(before, all[i as int]) == Err::<Seq<SectionModel>, IniFault>(IniFault::MalformedSectionHeader));
                        assert(parse_lines(all, (i + 1) as nat) == Err::<Seq<SectionModel>, (int, IniFault)>(((i + 1) as int, IniFault::MalformedSectionHeader)));
                        lemma_parse_lines_err_stays(all, (i + 1) as nat, all.len());
                    }
                    let e = fault_error(i + 1, IniFault::MalformedSectionHeader);
                    assert(e == ini_error(i + 1, IniFault::MalformedSectionHeader));

                    return Err(e);
                }
            } else {
                let p = match find_char(line.as_slice(), '=') {
                    Some(p) => p,
                    None => {
                        proof {
                            lemma_parse_lines_err_stays(all, (i + 1) as nat, all.len());
                        }
                        return Err(fault_error(i + 1, IniFault::ExpectedKeyValue));
                    },
                };
                if sections.len() == 0 {
                    proof {
                        lemma_parse_lines_err_stays(all, (i + 1) as nat, all.len());
                    }
                    return Err(fault_error(i + 1, IniFault::EntryBeforeSection));
                }
                let key = trim_chars(sub_chars(line.as_slice(), 0, p));
                let value = trim_chars(sub_chars(line.as_slice(), p + 1, line.len()));
                let entry = IniEntry {
                    key: string_from_chars(key.as_slice()),
                    value: string_from_chars(value.as_slice()),
                };
                let last = sections.len() - 1;
                let ghost old_last = sections@[last as int];
                sections[last].entries.push(entry);
                proof {
                    assert(line@.take(p as int) =~= line@.subrange(0, p as int));
                    assert(sections@[last as int].entries@ =~= old_last.entries@.push(entry));
                    assert(entry_models(sections@[last as int].entries@) =~= entry_models(old_last.entries@).push(
                        (key@, value@),
                    ));
                    assert(section_models(sections@) =~= before.update(
                        last as int,
                        SectionModel {
                            entries: before.last().entries.push((key@, value@)),
                            ..before.last()
                        },
                    ));
                }
            }
            i = i + 1;
        }
        Ok(IniDocument { sections, encoding, crlf, trailing_newline })
    }
}

// ---------------------------------------------------------------------------
// Looking up and changing entries.

/// The names of `sections`, in order.
pub open spec fn section_names(sections: Seq<SectionModel>) -> Seq<Seq<char>> {
    sections.map_values(|s: SectionModel| s.name)
}

/// The keys of `entries`, in order.
pub open spec fn entry_keys(entries: Seq<(Seq<char>, Seq<char>)>) -> Seq<Seq<char>> {
    entries.map_values(|e: (Seq<char>, Seq<char>)| e.0)
}

/// What `get` gives: the value of the first entry whose key matches `key`
/// in the first section whose name matches `section`, both up to ASCII
/// case. Later sections of the same name are not searched.
pub open spec fn spec_get(m: IniModel, section: Seq<char>, key: Seq<char>) -> Option<Seq<char>> {
    match first_match(section_names(m.sections), section) {
        None => None,
        Some(i) => match first_match(entry_keys(m.sections[i].entries), key) {
            None => None,
            Some(j) => Some(m.sections[i].entries[j].1),
        },
    }
}

/// What `set` makes of `m`: the value of the entry that `get` would read
/// is replaced; if the section has no such key, the entry is added at its
/// end; if there is no such section, a section holding just that entry is
/// added at the end of the document.
pub open spec fn spec_set(m: IniModel, section: Seq<char>, key: Seq<char>, value: Seq<char>) -> IniModel {
    match first_match(section_names(m.sections), section) {
        None => IniModel {
            sections: m.sections.push(SectionModel { name: section, entries: seq![(key, value)] }),
            ..m
        },
        Some(i) => {
            let s = m.sections[i];
            let entries = match first_match(entry_keys(s.entries), key) {
                None => s.entries.push((key, value)),
                Some(j) => s.entries.update(j, (s.entries[j].0, value)),
            };
            IniModel { sections: m.sections.update(i, SectionModel { entries, ..s }), ..m }
        },
    }
}

impl IniDocument {
    /// The value of `key` in `section`, both matched up to ASCII case.
    pub fn get(&self, section: &str, key: &str) -> (r: Option<&str>)
        ensures
            match r {
                Some(v) => spec_get(self@, section@, key@) == Some(v@),
                None => spec_get(self@, section@, key@) is None,
            },
    {
        let ghost names = section_names(self@.sections);
        let mut i: usize = 0;
        while i < self.sections.len()
            invariant
                i <= self.sections@.len(),
                names == section_names(self@.sections),
                names.len() == self.sections@.len(),
                forall|k: int| 0 <= k < i ==> !eq_ignore_ascii_case(#[trigger] names[k], section@),
            decreases self.sections@.len() - i,
        {
            proof {
                assert(names[i as int] == self.sections@[i as int].name@);
            }
            if str_eq_ignore_ascii_case(self.sections[i].name.as_str(), section) {
                proof {
                    lemma_first_match(names, section@, i as int);
                }
                let entries = &self.sections[i].entries;
                let ghost keys = entry_keys(self@.sections[i as int].entries);
                proof {
                    assert(self@.sections[i as int].entries == entry_models(entries@));
                }
                let mut j: usize = 0;
                while j < entries.len()
                    invariant
                        j <= entries@.len(),
                        i < self.sections@.len(),
                        first_match(section_names(self@.sections), section@) == Some(i as int),
                        self@.sections[i as int].entries == entry_models(entries@),
                        keys == entry_keys(entry_models(entries@)),
                        keys.len() == entries@.len(),
                        forall|k: int| 0 <= k < j ==> !eq_ignore_ascii_case(#[trigger] keys[k], key@),
                    decreases entries@.len() - j,
                {
                    proof {
                        assert(keys[j as int] == entries@[j as int].key@);
                    }
                    if str_eq_ignore_ascii_case(entries[j].key.as_str(), key) {
                        proof {
                            lemma_first_match(keys, key@, j as int);
                        }
                        return Some(entries[j].value.as_str());
                    }
                    j = j + 1;
                }
                proof {
                    lemma_first_match(keys, key@, j as int);
                }
                return None;
            }
            i = i + 1;
        }
        proof {
            lemma_first_match(names, section@, i as int);
        }
        None
    }

    /// Sets `key` in `section` to `value`, adding the entry or the section
    /// when it is missing.
    pub fn set(&mut self, section: &str, key: &str, value: &str)
        ensures
            final(self)@ == spec_set(old(self)@, section@, key@, value@),
    {
        let ghost m = self@;
        let ghost names = section_names(m.sections);
        let mut i: usize = 0;
        while i < self.sections.len()
            invariant
                i <= self.sections@.len(),
                self@ == m,
                old(self)@ == m,
                names == section_names(m.sections),
                names.len() == self.sections@.len(),
                forall|k: int| 0 <= k < i ==> !eq_ignore_ascii_case(#[trigger] names[k], section@),
            decreases self.sections@.len() - i,
        {
            proof {
                assert(names[i as int] == self.sections@[i as int].name@);
            }
            if str_eq_ignore_ascii_case(self.sections[i].name.as_str(), section) {
                proof {
                    lemma_first_match(names, section@, i as int);
                }
                let ghost s = m.sections[i as int];
                let ghost keys = entry_keys(s.entries);
                let ghost old_section = self.sections@[i as int];
                proof {
                    assert(s.entries == entry_models(old_section.entries@));
                }
                let mut j: usize = 0;
                let n = self.sections[i].entries.len();
                while j < n
                    invariant
                        j <= n,
                        i < self.sections@.len(),
                        self@ == m,
                        old(self)@ == m,
                        self.sections@[i as int] == old_section,
                        first_match(names, section@) == Some(i as int),
                        names == section_names(m.sections),
                        s == m.sections[i as int],
                        s.entries == entry_models(old_section.entries@),
                        n == old_section.entries@.len(),
                        keys == entry_keys(entry_models(old_section.entries@)),
                        keys.len() == n,
                        forall|k: int| 0 <= k < j ==> !eq_ignore_ascii_case(#[trigger] keys[k], key@),
                    decreases n - j,
                {
                    proof {
                        assert(keys[j as int] == old_section.entries@[j as int].key@);
                    }
                    if str_eq_ignore_ascii_case(self.sections[i].entries[j].key.as_str(), key) {
                        proof {
                            lemma_first_match(keys, key@, j as int);
                        }
                        let ghost old_entry = old_section.entries@[j as int];
                        self.sections[i].entries[j].value = value.to_owned();
                        proof {
                            assert(entry_models(self.sections@[i as int].entries@) =~= s.entries.update(
                                j as int,
                                (s.entries[j as int].0, value@),
                            ));
                            assert(self@ =~= spec_set(m, section@, key@, value@));
                        }
                        return;
                    }
                    j = j + 1;
                }
                proof {
                    lemma_first_match(keys, key@, j as int);
                }
                let entry = IniEntry { key: key.to_owned(), value: value.to_owned() };
                self.sections[i].entries.push(entry);
                proof {
                    assert(entry_models(self.sections@[i as int].entries@) =~= s.entries.push((key@, value@)));
                    assert(self@ =~= spec_set(m, section@, key@, value@));
                }
                return;
            }
            i = i + 1;
        }
        proof {
            lemma_first_match(names, section@, i as int);
        }
        let mut entries: Vec<IniEntry> = Vec::new();
        entries.push(IniEntry { key: key.to_owned(), value: value.to_owned() });
        let added = IniSection { name: section.to_owned(), entries };
        proof {
            assert(entry_models(added.entries@) =~= seq![(key@, value@)]);
        }
        self.sections.push(added);
        proof {
            assert(self@ =~= spec_set(m, section@, key@, value@));
        }
    }
}

// ---------------------------------------------------------------------------
// Writing.

/// The line break a document writes: CR LF or LF.
pub open spec fn line_ending(crlf: bool) -> Seq<char> {
    if crlf { seq!['\r', '\n'] } else { seq!['\n'] }
}

/// `key=value` lines for `entries`, each ending in `le`.
pub open spec fn render_entries(entries: Seq<(Seq<char>, Seq<char>)>, le: Seq<char>) -> Seq<char>
    decreases entries.len(),
{
    if entries.len() == 0 {
        seq![]
    } else {
        render_entries(entries.drop_last(), le) + entries.last().0 + seq!['='] + entries.last().1 + le
    }
}

/// Each section's `[name]` line followed by its entries, lines ending in `le`.
pub open spec fn render_sections(sections: Seq<SectionModel>, le: Seq<char>) -> Seq<char>
    decreases sections.len(),
{
    if sections.len() == 0 {
        seq![]
    } else {
        let s = sections.last();
        render_sections(sections.drop_last(), le) + seq!['['] + s.name + seq![']'] + le + render_entries(
            s.entries,
            le,
        )
    }
}

/// The text `to_bytes` encodes: every section and entry on its own line,
/// without the final line break when the document read had none.
pub open spec fn render(m: IniModel) -> Seq<char> {
    let le = line_ending(m.crlf);
    let text = render_sections(m.sections, le);
    if !m.trailing_newline && text.len() >= le.len() && text.subrange(text.len() - le.len(), text.len() as int)
        == le {
        text.subrange(0, text.len() - le.len())
    } else {
        text
    }
}

impl IniDocument {
    /// The document as a file, in the encoding it was read in.
    pub fn to_bytes(&self) -> (r: Result<Vec<u8>, Error>)
        requires
            self@.encoding is Gbk ==> encode_utf8(render(self@)).len() <= usize::MAX / 8,
        ensures
            match r {
                Ok(v) => spec_encode_text(render(self@), self@.encoding) == Ok::<Seq<u8>, Error>(v@),
                Err(e) => spec_encode_text(render(self@), self@.encoding) == Err::<Seq<u8>, Error>(e),
            },
    {
        let ghost m = self@;
        let le: Vec<char> = if self.crlf { vec!['\r', '\n'] } else { vec!['\n'] };
        proof {
            assert(le@ =~= line_ending(m.crlf));
        }
        let mut out: Vec<char> = Vec::new();
        let mut i: usize = 0;
        while i < self.sections.len()
            invariant
                i <= self.sections@.len(),
                m == self@,
                le@ == line_ending(m.crlf),
                out@ == render_sections(m.sections.take(i as int), le@),
            decreases self.sections@.len() - i,
        {
            let section = &self.sections[i];
            let ghost before = out@;
            out.push('[');
            push_str_chars(&mut out, section.name.as_str());
            out.push(']');
            push_char_slice(&mut out, le.as_slice());
            let ghost header = out@;
            let ghost es = entry_models(section.entries@);
            let mut j: usize = 0;
            while j < section.entries.len()
                invariant
                    j <= section.entries@.len(),
                    es == entry_models(section.entries@),
                    out@ == header + render_entries(es.take(j as int), le@),
                decreases section.entries@.len() - j,
            {
                let entry = &section.entries[j];
                push_str_chars(&mut out, entry.key.as_str());
                out.push('=');
                push_str_chars(&mut out, entry.value.as_str());
                push_char_slice(&mut out, le.as_slice());
                proof {
                    assert(es.take(j + 1).drop_last() =~= es.take(j as int));
                    assert(es.take(j + 1).last() == (entry.key@, entry.value@));
                    assert(out@ =~= header + render_entries(es.take(j + 1), le@));
                }
                j = j + 1;
            }
            proof {
                assert(es.take(es.len() as int) =~= es);
                assert(m.sections.take(i + 1).drop_last() =~= m.sections.take(i as int));
                assert(m.sections.take(i + 1).last() == section@);
                assert(out@ =~= render_sections(m.sections.take(i + 1), le@));
            }
            i = i + 1;
        }
        proof {
            assert(m.sections.take(m.sections.len() as int) =~= m.sections);
        }
        let ghost full = out@;
        let n = out.len();
        let k = le.len();
        if !self.trailing_newline && n >= k {
            let mut same = true;
            let mut p: usize = 0;
            while p < k
                invariant
                    p <= k,
                    k == le@.len(),
                    n == out@.len(),
                    n >= k,
                    same == (forall|q: int| 0 <= q < p ==> out@[n - k + q] == le@[q]),
                decreases k - p,
            {
                if out[n - k + p] != le[p] {
                    same = false;
                }
                p = p + 1;
            }
            proof {
                if same {
                    assert(full.subrange(n - k, n as int) =~= le@);
                } else {
                    let q = choose|q: int| 0 <= q < k && out@[n - k + q] != le@[q];
                    assert(full.subrange(n - k, n as int)[q] != le@[q]);
                }
            }
            if same {
                out.truncate(n - k);
                proof {
                    assert(out@ =~= full.subrange(0, n - k));
                }
            }
        }
        let text = string_from_chars(out.as_slice());
        encode_text(text.as_str(), self.encoding)
    }
}

// ---------------------------------------------------------------------------
// What setting an entry does to reading entries.

proof fn lemma_first_match_push(names: Seq<Seq<char>>, added: Seq<char>, name: Seq<char>)
    ensures
        first_match(names.push(added), name) == (match first_match(names, name) {
            Some(i) => Some(i),
            None => if eq_ignore_ascii_case(added, name) { Some(names.len() as int) } else { None },
        }),
{
    lemma_first_match_facts(names, name);
    let pushed = names.push(added);
    match first_match(names, name) {
        Some(i) => {
            assert forall|j: int| 0 <= j < i implies !eq_ignore_ascii_case(#[trigger] pushed[j], name) by {
                assert(pushed[j] == names[j]);
            }
            lemma_first_match(pushed, name, i);
        },
        None => {
            assert forall|j: int| 0 <= j < names.len() implies !eq_ignore_ascii_case(#[trigger] pushed[j], name) by {
                assert(pushed[j] == names[j]);
            }
            assert(pushed[names.len() as int] == added);
            if eq_ignore_ascii_case(added, name) {
                lemma_first_match(pushed, name, names.len() as int);
            } else {
                lemma_first_match(pushed, name, pushed.len() as int);
            }
        },
    }
}

/// Reading an entry right after setting it gives the value set.
pub proof fn lemma_get_after_set(m: IniModel, section: Seq<char>, key: Seq<char>, value: Seq<char>)
    ensures
        spec_get(spec_set(m, section, key, value), section, key) == Some(value),
{
    let names = section_names(m.sections);
    let m2 = spec_set(m, section, key, value);
    let names2 = section_names(m2.sections);
    lemma_eq_ignore_ascii_case_refl_local(section);
    lemma_eq_ignore_ascii_case_refl_local(key);
    match first_match(names, section) {
        None => {
            assert(names2 =~= names.push(section));
            lemma_first_match_push(names, section, section);
            let es = m2.sections[names.len() as int].entries;
            assert(entry_keys(es) =~= seq![Seq::<char>::empty()].drop_first().push(key));
            lemma_first_match_push(seq![Seq::<char>::empty()].drop_first(), key, key);
            assert(seq![Seq::<char>::empty()].drop_first() =~= Seq::<Seq<char>>::empty());
        },
        Some(i) => {
            lemma_first_match_facts(names, section);
            assert(names2 =~= names);
            let s = m.sections[i];
            let keys = entry_keys(s.entries);
            let es2 = m2.sections[i].entries;
            match first_match(keys, key) {
                None => {
                    assert(entry_keys(es2) =~= keys.push(key));
                    lemma_first_match_push(keys, key, key);
                },
                Some(j) => {
                    lemma_first_match_facts(keys, key);
                    assert(entry_keys(es2) =~= keys);
                },
            }
        },
    }
}

proof fn lemma_eq_ignore_ascii_case_refl_local(a: Seq<char>)
    ensures
        eq_ignore_ascii_case(a, a),
{
}

/// Setting one entry leaves what every other (section, key) pair reads
/// unchanged; names and keys are told apart up to ASCII case.
pub proof fn lemma_set_keeps_others(
    m: IniModel,
    section: Seq<char>,
    key: Seq<char>,
    value: Seq<char>,
    other_section: Seq<char>,
    other_key: Seq<char>,
)
    requires
        !(eq_ignore_ascii_case(other_section, section) && eq_ignore_ascii_case(other_key, key)),
    ensures
        spec_get(spec_set(m, section, key, value), other_section, other_key) == spec_get(m, other_section, other_key),
{
    let names = section_names(m.sections);
    let m2 = spec_set(m, section, key, value);
    let names2 = section_names(m2.sections);
    lemma_first_match_facts(names, section);
    lemma_first_match_facts(names, other_section);
    match first_match(names, section) {
        None => {
            assert(names2 =~= names.push(section));
            lemma_first_match_push(names, section, other_section);
            if eq_ignore_ascii_case(section, other_section) {
                lemma_eq_ignore_ascii_case_equiv(section, other_section, section);
                // the new section holds only `key`, which `other_key` does not match
                let es = m2.sections[names.len() as int].entries;
                assert(entry_keys(es) =~= Seq::<Seq<char>>::empty().push(key));
                lemma_first_match_push(Seq::<Seq<char>>::empty(), key, other_key);
                lemma_eq_ignore_ascii_case_equiv(key, other_key, key);
                lemma_eq_ignore_ascii_case_equiv(other_section, section, section);
                assert(!eq_ignore_ascii_case(other_key, key));
                assert(!eq_ignore_ascii_case(key, other_key));
            }
        },
        Some(i) => {
            assert(names2 =~= names);
            match first_match(names, other_section) {
                None => {},
                Some(i2) => {
                    if i2 == i {
                        lemma_eq_ignore_ascii_case_equiv(other_section, names[i], section);
                        lemma_eq_ignore_ascii_case_equiv(section, names[i], section);
                        lemma_eq_ignore_ascii_case_equiv(names[i], section, names[i]);
                        assert(eq_ignore_ascii_case(other_section, section));
                        assert(!eq_ignore_ascii_case(other_key, key));
                        let s = m.sections[i];
                        let keys = entry_keys(s.entries);
                        let keys2 = entry_keys(m2.sections[i].entries);
                        lemma_first_match_facts(keys, key);
                        lemma_first_match_facts(keys, other_key);
                        match first_match(keys, key) {
                            None => {
                                assert(keys2 =~= keys.push(key));
                                lemma_first_match_push(keys, key, other_key);
                                if eq_ignore_ascii_case(key, other_key) {
                                    lemma_eq_ignore_ascii_case_equiv(key, other_key, key);
                                }
                            },
                            Some(j) => {
                                assert(keys2 =~= keys);
                                match first_match(keys, other_key) {
                                    None => {},
                                    Some(j2) => {
                                        if j2 == j {
                                            lemma_eq_ignore_ascii_case_equiv(other_key, keys[j], key);
                                            lemma_eq_ignore_ascii_case_equiv(keys[j], key, keys[j]);
                                        }
                                    },
                                }
                            },
                        }
                    }
                },
            }
        },
    }
}

} // verus!
