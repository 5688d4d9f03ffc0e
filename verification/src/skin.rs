//! Skin packages: a `Config.ini` manifest and seven images, read from an
//! archive's entries or from a directory's files.

use vstd::prelude::*;
use vstd::utf8::{decode_utf8, valid_utf8};

use crate::chars::{
    chars_of, decimal, digit_char, eq_ignore_ascii_case, lemma_eq_ignore_ascii_case_equiv, str_eq_ignore_ascii_case, str_equal,
    string_from_chars,
};
use crate::error::{Error, ErrorModel};
use crate::gbk::{gbk_decode, gbk_decoded};
use crate::ini::{spec_get, spec_parse, IniDocument, IniModel};
use crate::text::utf8_decode;

verus! {

/// The largest asset an archive may hold: 32 MiB.
pub const MAX_ASSET_SIZE: u64 = 33554432;

/// The image formats a skin's assets come in.
#[derive(Debug, Clone, Copy, PartialEq, Eq, Structural)]
pub enum ImageFormat {
    Png,
    Bmp,
}

/// The PNG signature.
pub open spec fn png_signature() -> Seq<u8> {
    seq![0x89u8, 0x50u8, 0x4eu8, 0x47u8, 0x0du8, 0x0au8, 0x1au8, 0x0au8]
}

/// The format `ImageFormat::detect` finds from an image's first bytes.
pub open spec fn spec_detect_image(b: Seq<u8>) -> Option<ImageFormat> {
    if b.len() >= 8 && b.take(8) == png_signature() {
        Some(ImageFormat::Png)
    } else if b.len() >= 2 && b[0] == 0x42 && b[1] == 0x4d {
        Some(ImageFormat::Bmp)
    } else {
        None
    }
}

impl ImageFormat {
    /// PNG by its eight-byte signature, BMP by `BM`; else nothing.
    pub fn detect(bytes: &[u8]) -> (r: Option<ImageFormat>)
        ensures
            r == spec_detect_image(bytes@),
    {
        if bytes.len() >= 8 && bytes[0] == 0x89 && bytes[1] == 0x50 && bytes[2] == 0x4e && bytes[3] == 0x47 && bytes[4]
            == 0x0d && bytes[5] == 0x0a && bytes[6] == 0x1a && bytes[7] == 0x0a {
            assert(bytes@.take(8) =~= png_signature());
            return Some(ImageFormat::Png);
        }
        proof {
            if bytes@.len() >= 8 && bytes@.take(8) == png_signature() {
                assert(bytes@.take(8)[0] == bytes@[0]);
                assert(bytes@.take(8)[1] == bytes@[1]);
                assert(bytes@.take(8)[2] == bytes@[2]);
                assert(bytes@.take(8)[3] == bytes@[3]);
                assert(bytes@.take(8)[4] == bytes@[4]);
                assert(bytes@.take(8)[5] == bytes@[5]);
                assert(bytes@.take(8)[6] == bytes@[6]);
                assert(bytes@.take(8)[7] == bytes@[7]);
            }
        }
        if bytes.len() >= 2 && bytes[0] == 0x42 && bytes[1] == 0x4d {
            Some(ImageFormat::Bmp)
        } else {
            None
        }
    }
}

// ---------------------------------------------------------------------------
// Assets by name.

/// Named asset files, each name at most once.
#[derive(Debug, PartialEq, Eq)]
pub struct SkinAssets {
    entries: Vec<(String, Vec<u8>)>,
}

/// The model of one named asset.
pub open spec fn asset_model(e: (String, Vec<u8>)) -> (Seq<char>, Seq<u8>) {
    (e.0@, e.1@)
}

/// No name occurs twice.
pub open spec fn names_distinct(s: Seq<(Seq<char>, Seq<u8>)>) -> bool {
    forall|i: int, j: int| 0 <= i < j < s.len() ==> (#[trigger] s[i]).0 != (#[trigger] s[j]).0
}

/// The names come in string order.
pub open spec fn names_sorted(s: Seq<(Seq<char>, Seq<u8>)>) -> bool {
    forall|i: int, j: int| 0 <= i < j < s.len() ==> lex_lt((#[trigger] s[i]).0, (#[trigger] s[j]).0)
}

/// Where an asset named `name` goes among `s`: before the first name that
/// comes after it in string order, or at the end.
pub open spec fn insert_position(s: Seq<(Seq<char>, Seq<u8>)>, name: Seq<char>) -> int
    decreases s.len(),
{
    if s.len() == 0 {
        0
    } else if lex_lt(name, s[0].0) {
        0
    } else {
        1 + insert_position(s.drop_first(), name)
    }
}

/// A new name goes at a position of `s` or at its end.
pub proof fn lemma_insert_position_bounds(s: Seq<(Seq<char>, Seq<u8>)>, name: Seq<char>)
    ensures
        0 <= insert_position(s, name) <= s.len(),
    decreases s.len(),
{
    if s.len() > 0 {
        lemma_insert_position_bounds(s.drop_first(), name);
    }
}

/// `insert_position` is the first position whose name comes after `name`.
proof fn lemma_insert_position(s: Seq<(Seq<char>, Seq<u8>)>, name: Seq<char>, i: int)
    requires
        0 <= i <= s.len(),
        forall|k: int| 0 <= k < i ==> !lex_lt(name, (#[trigger] s[k]).0),
        i < s.len() ==> lex_lt(name, s[i].0),
    ensures
        insert_position(s, name) == i,
    decreases i,
{
    if i > 0 {
        assert(!lex_lt(name, s[0].0));
        assert forall|k: int| 0 <= k < i - 1 implies !lex_lt(name, (#[trigger] s.drop_first()[k]).0) by {
            assert(s.drop_first()[k] == s[k + 1]);
        }
        if i < s.len() {
            assert(s.drop_first()[i - 1] == s[i]);
        }
        lemma_insert_position(s.drop_first(), name, i - 1);
    }
}

/// The position of the asset named `name`.
pub open spec fn asset_position(s: Seq<(Seq<char>, Seq<u8>)>, name: Seq<char>) -> Option<int> {
    if exists|i: int| 0 <= i < s.len() && (#[trigger] s[i]).0 == name {
        Some(choose|i: int| 0 <= i < s.len() && (#[trigger] s[i]).0 == name)
    } else {
        None
    }
}

/// The data of the asset named `name`.
pub open spec fn asset_lookup(s: Seq<(Seq<char>, Seq<u8>)>, name: Seq<char>) -> Option<Seq<u8>> {
    match asset_position(s, name) {
        Some(i) => Some(s[i].1),
        None => None,
    }
}

/// The models of a list of named assets.
pub open spec fn asset_models(entries: Seq<(String, Vec<u8>)>) -> Seq<(Seq<char>, Seq<u8>)> {
    entries.map_values(|e: (String, Vec<u8>)| asset_model(e))
}

/// The position of the asset named `name` in `entries`.
fn find_asset(entries: &Vec<(String, Vec<u8>)>, name: &str) -> (r: Option<usize>)
    requires
        names_distinct(asset_models(entries@)),
    ensures
        match r {
            Some(i) => asset_position(asset_models(entries@), name@) == Some(i as int) && i < entries@.len(),
            None => asset_position(asset_models(entries@), name@) is None,
        },
{
    let ghost m = asset_models(entries@);
    let mut i: usize = 0;
    while i < entries.len()
        invariant
            i <= entries@.len(),
            m == asset_models(entries@),
            m.len() == entries@.len(),
            names_distinct(m),
            forall|k: int| 0 <= k < i ==> (#[trigger] m[k]).0 != name@,
        decreases entries@.len() - i,
    {
        proof {
            assert(m[i as int] == asset_model(entries@[i as int]));
        }
        if str_equal(entries[i].0.as_str(), name) {
            proof {
                let c = choose|j: int| 0 <= j < m.len() && (#[trigger] m[j]).0 == name@;
                assert(c == i);
            }
            return Some(i);
        }
        i = i + 1;
    }
    None
}

/// Where an asset named `name` goes among `entries`: before the first name
/// that comes after it in string order, or at the end.
fn position_for(entries: &Vec<(String, Vec<u8>)>, name: &str) -> (r: usize)
    ensures
        r as int == insert_position(asset_models(entries@), name@),
        r <= entries@.len(),
        forall|k: int| 0 <= k < r ==> !lex_lt(name@, (#[trigger] asset_models(entries@)[k]).0),
        r < entries@.len() ==> lex_lt(name@, asset_models(entries@)[r as int].0),
{
    let ghost m = asset_models(entries@);
    let target = chars_of(name);
    let mut i: usize = 0;
    while i < entries.len()
        invariant
            i <= entries@.len(),
            m == asset_models(entries@),
            m.len() == entries@.len(),
            target@ == name@,
            forall|k: int| 0 <= k < i ==> !lex_lt(name@, (#[trigger] m[k]).0),
        decreases entries@.len() - i,
    {
        let other = chars_of(entries[i].0.as_str());
        proof {
            assert(m[i as int] == asset_model(entries@[i as int]));
        }
        if lex_less(target.as_slice(), other.as_slice()) {
            proof {
                lemma_insert_position(m, name@, i as int);
            }
            return i;
        }
        i = i + 1;
    }
    proof {
        lemma_insert_position(m, name@, i as int);
    }
    i
}

impl View for SkinAssets {
    type V = Seq<(Seq<char>, Seq<u8>)>;

    closed spec fn view(&self) -> Seq<(Seq<char>, Seq<u8>)> {
        asset_models(self.entries@)
    }
}

impl SkinAssets {
    /// Every name occurs once, and the names come in string order.
    #[verifier::type_invariant]
    spec fn well_formed(&self) -> bool {
        names_distinct(asset_models(self.entries@)) && names_sorted(asset_models(self.entries@))
    }

    /// No assets.
    pub fn new() -> (r: SkinAssets)
        ensures
            r@ == Seq::<(Seq<char>, Seq<u8>)>::empty(),
    {
        let entries: Vec<(String, Vec<u8>)> = Vec::new();
        assert(asset_models(entries@) =~= Seq::<(Seq<char>, Seq<u8>)>::empty());
        SkinAssets { entries }
    }

    /// The number of assets.
    pub fn len(&self) -> (n: usize)
        ensures
            n == self@.len(),
    {
        self.entries.len()
    }

    /// The data of the asset named `name`.
    pub fn get(&self, name: &str) -> (r: Option<&[u8]>)
        ensures
            match r {
                Some(d) => asset_lookup(self@, name@) == Some(d@),
                None => asset_lookup(self@, name@) is None,
            },
    {
        proof {
            use_type_invariant(self);
        }
        match find_asset(&self.entries, name) {
            Some(i) => {
                proof {
                    assert(self@[i as int] == asset_model(self.entries@[i as int]));
                }
                Some(self.entries[i].1.as_slice())
            },
            None => None,
        }
    }

    /// Whether there is an asset named `name`.
    pub fn contains_key(&self, name: &str) -> (r: bool)
        ensures
            r == (asset_lookup(self@, name@) is Some),
    {
        proof {
            use_type_invariant(self);
        }
        find_asset(&self.entries, name).is_some()
    }

    /// Sets the asset named `name` to `data`, replacing one of that name; a
    /// new name goes where string order puts it.
    pub fn insert(&mut self, name: String, data: Vec<u8>)
        ensures
            asset_lookup(final(self)@, name@) == Some(data@),
            forall|other: Seq<char>| other != name@ ==> asset_lookup(final(self)@, other) == asset_lookup(old(self)@, other),
            match asset_position(old(self)@, name@) {
                Some(i) => final(self)@ == old(self)@.update(i, (name@, data@)),
                None => final(self)@ == old(self)@.insert(insert_position(old(self)@, name@), (name@, data@)),
            },
    {
        proof {
            use_type_invariant(&*self);
        }
        let ghost before = self@;
        let ghost key = name@;
        let ghost value = data@;
        let mut entries: Vec<(String, Vec<u8>)> = Vec::new();
        std::mem::swap(&mut entries, &mut self.entries);
        proof {
            assert(asset_models(entries@) == before);
        }
        let ghost mut p: int = 0;
        match find_asset(&entries, name.as_str()) {
            Some(i) => {
                entries.set(i, (name, data));
                proof {
                    p = i as int;
                    assert(asset_models(entries@) =~= before.update(i as int, (key, value)));
                    let after = asset_models(entries@);
                    assert(before[i as int].0 == key);
                    assert forall|a: int, b: int| 0 <= a < b < after.len() implies lex_lt(
                        (#[trigger] after[a]).0,
                        (#[trigger] after[b]).0,
                    ) by {
                        assert(after[a].0 == before[a].0);
                        assert(after[b].0 == before[b].0);
                    }
                }
            },
            None => {
                let q = position_for(&entries, name.as_str());
                entries.insert(q, (name, data));
                proof {
                    p = q as int;
                    assert(asset_models(entries@) =~= before.insert(q as int, (key, value)));
                    let after = asset_models(entries@);
                    assert forall|a: int, b: int| 0 <= a < b < after.len() implies lex_lt(
                        (#[trigger] after[a]).0,
                        (#[trigger] after[b]).0,
                    ) by {
                        let qi = q as int;
                        if a < qi && b < qi {
                            assert(after[a] == before[a] && after[b] == before[b]);
                        } else if a < qi && b == qi {
                            assert(after[a] == before[a]);
                            assert(!lex_lt(key, before[a].0));
                            assert(before[a].0 != key);
                            lemma_lex_total(before[a].0, key);
                        } else if a < qi {
                            assert(after[a] == before[a] && after[b] == before[b - 1]);
                        } else if a == qi {
                            assert(after[b] == before[b - 1]);
                            assert(lex_lt(key, before[qi].0));
                            if b - 1 > qi {
                                lemma_lex_transitive(key, before[qi].0, before[b - 1].0);
                            }
                        } else {
                            assert(after[a] == before[a - 1] && after[b] == before[b - 1]);
                        }
                    }
                }
            },
        }
        let ghost after = asset_models(entries@);
        proof {
            assert forall|a: int, b: int| 0 <= a < b < after.len() implies (#[trigger] after[a]).0 != (#[trigger] after[b]).0 by {
                lemma_lex_irreflexive(after[a].0);
            }
            lemma_lookup_after_change(before, after, key, value, p);
        }
        self.entries = entries;
    }

    /// Removes the asset named `name`, giving its data back.
    pub fn remove(&mut self, name: &str) -> (r: Option<Vec<u8>>)
        ensures
            match r {
                Some(d) => asset_lookup(old(self)@, name@) == Some(d@) && final(self)@ == old(self)@.remove(
                    asset_position(old(self)@, name@)->Some_0,
                ),
                None => asset_lookup(old(self)@, name@) is None && final(self)@ == old(self)@,
            },
    {
        proof {
            use_type_invariant(&*self);
        }
        let ghost before = self@;
        match find_asset(&self.entries, name) {
            Some(i) => {
                let mut entries: Vec<(String, Vec<u8>)> = Vec::new();
                std::mem::swap(&mut entries, &mut self.entries);
                proof {
                    assert(asset_models(entries@) == before);
                    assert(before[i as int] == asset_model(entries@[i as int]));
                }
                let (_, data) = entries.remove(i);
                proof {
                    assert(asset_models(entries@) =~= before.remove(i as int));
                    let after = asset_models(entries@);
                    assert forall|a: int, b: int| 0 <= a < b < after.len() implies (#[trigger] after[a]).0 != (#[trigger] after[b]).0 by {
                        let a0 = if a < i { a } else { a + 1 };
                        let b0 = if b < i { b } else { b + 1 };
                        assert(after[a] == before[a0]);
                        assert(after[b] == before[b0]);
                    }
                    assert forall|a: int, b: int| 0 <= a < b < after.len() implies lex_lt(
                        (#[trigger] after[a]).0,
                        (#[trigger] after[b]).0,
                    ) by {
                        let a0 = if a < i { a } else { a + 1 };
                        let b0 = if b < i { b } else { b + 1 };
                        assert(after[a] == before[a0]);
                        assert(after[b] == before[b0]);
                    }
                }
                self.entries = entries;
                Some(data)
            },
            None => None,
        }
    }

    /// The names of the assets, in string order.
    pub fn names(&self) -> (r: Vec<String>)
        ensures
            r@.len() == self@.len(),
            forall|k: int| 0 <= k < r@.len() ==> #[trigger] r@[k]@ == self@[k].0,
            forall|i: int, j: int| 0 <= i < j < r@.len() ==> lex_lt((#[trigger] r@[i])@, (#[trigger] r@[j])@),
    {
        proof {
            use_type_invariant(self);
        }
        let mut r: Vec<String> = Vec::new();
        let mut i: usize = 0;
        while i < self.entries.len()
            invariant
                i <= self@.len(),
                self@.len() == self.entries@.len(),
                r@.len() == i,
                forall|k: int| 0 <= k < i ==> #[trigger] r@[k]@ == self@[k].0,
            decreases self@.len() - i,
        {
            proof {
                assert(self@[i as int] == asset_model(self.entries@[i as int]));
            }
            r.push(self.entries[i].0.clone());
            i = i + 1;
        }
        r
    }
}

/// After writing `value` under `key`, with names distinct before and after
/// and the sequence changed only there, lookups give `value` for `key` and
/// what they gave before for every other name.
proof fn lemma_lookup_after_change(
    before: Seq<(Seq<char>, Seq<u8>)>,
    after: Seq<(Seq<char>, Seq<u8>)>,
    key: Seq<char>,
    value: Seq<u8>,
    p: int,
)
    requires
        names_distinct(before),
        names_distinct(after),
        match asset_position(before, key) {
            Some(i) => after == before.update(i, (key, value)) && p == i,
            None => 0 <= p <= before.len() && after == before.insert(p, (key, value)),
        },
    ensures
        asset_lookup(after, key) == Some(value),
        forall|other: Seq<char>| other != key ==> asset_lookup(after, other) == asset_lookup(before, other),
{
    let added = asset_position(before, key) is None;
    assert(after[p] == (key, value));
    assert(exists|i: int| 0 <= i < after.len() && (#[trigger] after[i]).0 == key);
    let c = choose|i: int| 0 <= i < after.len() && (#[trigger] after[i]).0 == key;
    assert(c == p);
    assert forall|other: Seq<char>| other != key implies asset_lookup(after, other) == asset_lookup(before, other) by {
        if exists|i: int| 0 <= i < before.len() && (#[trigger] before[i]).0 == other {
            let b = choose|i: int| 0 <= i < before.len() && (#[trigger] before[i]).0 == other;
            let a = if added && b >= p { b + 1 } else { b };
            assert(after[a] == before[b]);
            assert(exists|i: int| 0 <= i < after.len() && (#[trigger] after[i]).0 == other);
            let a2 = choose|i: int| 0 <= i < after.len() && (#[trigger] after[i]).0 == other;
            assert(a2 == a);
        } else {
            if exists|i: int| 0 <= i < after.len() && (#[trigger] after[i]).0 == other {
                let a = choose|i: int| 0 <= i < after.len() && (#[trigger] after[i]).0 == other;
                assert(a != p);
                let b = if added && a > p { a - 1 } else { a };
                assert(after[a] == before[b]);
            }
        }
    }
}

// ---------------------------------------------------------------------------
// Numbers in the manifest.

/// Whether every character of `d` is an ASCII digit.
pub open spec fn all_digits(d: Seq<char>) -> bool {
    forall|i: int| 0 <= i < d.len() ==> '0' <= #[trigger] d[i] <= '9'
}

/// The number the decimal digits `d` write.
pub open spec fn digits_value(d: Seq<char>) -> int
    decreases d.len(),
{
    if d.len() == 0 {
        0
    } else {
        digits_value(d.drop_last()) * 10 + (d.last() as int - '0' as int)
    }
}

/// The digits of an unsigned decimal: the text after one optional `+`,
/// which must leave at least one character.
pub open spec fn unsigned_digits(s: Seq<char>) -> Option<Seq<char>> {
    if s.len() == 0 {
        None
    } else if s[0] == '+' {
        if s.len() == 1 { None } else { Some(s.drop_first()) }
    } else {
        Some(s)
    }
}

/// The value of `s` read as an unsigned decimal no greater than `max`, as
/// `u8::from_str` and `u32::from_str` read it: `None` for anything else.
pub open spec fn spec_parse_unsigned(s: Seq<char>, max: int) -> Option<int> {
    match unsigned_digits(s) {
        None => None,
        Some(d) => if all_digits(d) && digits_value(d) <= max { Some(digits_value(d)) } else { None },
    }
}

proof fn lemma_digits_prefix(d: Seq<char>, k: int)
    requires
        all_digits(d),
        0 <= k <= d.len(),
    ensures
        0 <= digits_value(d.take(k)) <= digits_value(d),
    decreases d.len() - k,
{
    if k < d.len() {
        lemma_digits_prefix(d, k + 1);
        assert(d.take(k + 1).drop_last() =~= d.take(k));
        lemma_digits_nonneg(d.take(k));
    } else {
        assert(d.take(k) =~= d);
        lemma_digits_nonneg(d);
    }
}

proof fn lemma_digits_nonneg(d: Seq<char>)
    requires
        all_digits(d),
    ensures
        digits_value(d) >= 0,
    decreases d.len(),
{
    if d.len() > 0 {
        lemma_digits_nonneg(d.drop_last());
    }
}

/// `s` read as an unsigned decimal no greater than `max`.
pub fn parse_unsigned(s: &str, max: u64) -> (r: Option<u64>)
    ensures
        match r {
            Some(v) => spec_parse_unsigned(s@, max as int) == Some(v as int),
            None => spec_parse_unsigned(s@, max as int) is None,
        },
{
    let text = chars_of(s);
    if text.len() == 0 {
        return None;
    }
    let start: usize = if text[0] == '+' {
        if text.len() == 1 {
            return None;
        }
        1
    } else {
        0
    };
    let ghost d = text@.subrange(start as int, text@.len() as int);
    proof {
        if start == 1 {
            assert(d =~= text@.drop_first());
        } else {
            assert(d =~= text@);
        }
    }
    let mut value: u128 = 0;
    let mut i: usize = start;
    while i < text.len()
        invariant
            start <= i <= text@.len(),
            d == text@.subrange(start as int, text@.len() as int),
            unsigned_digits(s@) == Some(d),
            text@ == s@,
            all_digits(d.take(i - start)),
            value == digits_value(d.take(i - start)),
            value <= max,
        decreases text@.len() - i,
    {
        let c = text[i];
        proof {
            assert(d[i - start] == c);
        }
        if c < '0' || c > '9' {
            proof {
                assert(!all_digits(d));
            }
            return None;
        }
        let digit = (c as u32 - '0' as u32) as u128;
        value = value * 10 + digit;
        proof {
            assert(d.take(i + 1 - start).drop_last() =~= d.take(i - start));
            assert(d.take(i + 1 - start).last() == c);
        }
        if value > max as u128 {
            proof {
                if all_digits(d) {
                    lemma_digits_prefix(d, i + 1 - start);
                }
            }
            return None;
        }
        i = i + 1;
    }
    proof {
        assert(d.take(i - start) =~= d);
    }
    Some(value as u64)
}

// ---------------------------------------------------------------------------
// Packages.

/// What a skin's `Config.ini` says of it.
#[derive(Debug, Clone, PartialEq, Eq)]
pub struct SkinManifest {
    pub opacity: Option<u8>,
    pub name: Option<String>,
    pub author: Option<String>,
    pub border_color: Option<u32>,
    pub text_color: Option<u32>,
}

/// What the launcher records of a chosen skin: its file name, the skin's
/// name and its author.
#[derive(Debug, Clone)]
pub struct SkinRecord {
    pub file_name: String,
    pub skin_name: String,
    pub author: String,
}

/// The text of `t`, or `default` where there is none.
pub open spec fn text_or(t: Option<String>, default: Seq<char>) -> Seq<char> {
    match t {
        Some(s) => s@,
        None => default,
    }
}

/// A copy of the text of `t`, or `default` where there is none.
fn copy_or(t: &Option<String>, default: &str) -> (r: String)
    ensures
        r@ == text_or(*t, default@),
{
    match t {
        Some(s) => s.as_str().to_owned(),
        None => default.to_owned(),
    }
}

impl SkinManifest {
    /// What the launcher records of the skin read from `file_name`, whose
    /// name without extension is `file_stem`: the file name, or `自定义.skin`
    /// for none; the manifest's skin name, else the stem, else `自定义`; and
    /// the manifest's author, or nothing.
    pub fn record(&self, file_name: Option<String>, file_stem: Option<String>) -> (r: SkinRecord)
        ensures
            r.file_name@ == text_or(file_name, "自定义.skin"@),
            r.skin_name@ == (match self.name {
                Some(n) => n@,
                None => text_or(file_stem, "自定义"@),
            }),
            r.author@ == text_or(self.author, Seq::<char>::empty()),
    {
        let file = copy_or(&file_name, "自定义.skin");
        let skin_name = match &self.name {
            Some(n) => n.as_str().to_owned(),
            None => copy_or(&file_stem, "自定义"),
        };
        let empty = String::new();
        let author = copy_or(&self.author, empty.as_str());
        SkinRecord { file_name: file, skin_name, author }
    }
}

/// A manifest as mathematics.
pub struct ManifestModel {
    pub opacity: Option<u8>,
    pub name: Option<Seq<char>>,
    pub author: Option<Seq<char>>,
    pub border_color: Option<u32>,
    pub text_color: Option<u32>,
}

/// The characters of an optional string.
pub open spec fn opt_view(s: Option<String>) -> Option<Seq<char>> {
    match s {
        Some(t) => Some(t@),
        None => None,
    }
}

impl View for SkinManifest {
    type V = ManifestModel;

    open spec fn view(&self) -> ManifestModel {
        ManifestModel {
            opacity: self.opacity,
            name: opt_view(self.name),
            author: opt_view(self.author),
            border_color: self.border_color,
            text_color: self.text_color,
        }
    }
}

/// A manifest value read as an unsigned decimal no greater than `max`.
pub open spec fn manifest_number(v: Option<Seq<char>>, max: int) -> Option<int> {
    match v {
        Some(t) => spec_parse_unsigned(t, max),
        None => None,
    }
}

/// What `from_parts` reads from the `[皮肤]` section: the opacity
/// (0..=255), name, author, and border and text colours (as `u32`
/// decimals); a value that is missing or does not read is `None`.
pub open spec fn spec_manifest(config: IniModel) -> ManifestModel {
    ManifestModel {
        opacity: match manifest_number(spec_get(config, "皮肤"@, "透明度"@), 255) {
            Some(n) => Some(n as u8),
            None => None,
        },
        name: spec_get(config, "皮肤"@, "皮肤名"@),
        author: spec_get(config, "皮肤"@, "作者"@),
        border_color: match manifest_number(spec_get(config, "皮肤"@, "边框色"@), 0xffff_ffff) {
            Some(n) => Some(n as u32),
            None => None,
        },
        text_color: match manifest_number(spec_get(config, "皮肤"@, "文本色"@), 0xffff_ffff) {
            Some(n) => Some(n as u32),
            None => None,
        },
    }
}

/// The first of the seven required images that `assets` lacks, in the
/// order they are checked.
pub open spec fn first_missing_asset(assets: Seq<(Seq<char>, Seq<u8>)>) -> Option<&'static str> {
    if asset_lookup(assets, "默认底图.png"@) is None {
        Some("默认底图.png")
    } else if asset_lookup(assets, "运行时间.png"@) is None {
        Some("运行时间.png")
    } else if asset_lookup(assets, "系统信息.png"@) is None {
        Some("系统信息.png")
    } else if asset_lookup(assets, "硬件信息底图.png"@) is None {
        Some("硬件信息底图.png")
    } else if asset_lookup(assets, "控制按钮.png"@) is None {
        Some("控制按钮.png")
    } else if asset_lookup(assets, "型号信息.png"@) is None {
        Some("型号信息.png")
    } else if asset_lookup(assets, "列表按钮.png"@) is None {
        Some("列表按钮.png")
    } else {
        None
    }
}

/// A loaded skin: its manifest, its whole `Config.ini`, and its images.
#[derive(Debug, PartialEq, Eq)]
pub struct SkinPackage {
    pub manifest: SkinManifest,
    pub config: IniDocument,
    pub assets: SkinAssets,
}

/// A manifest value read as an unsigned decimal no greater than `max`.
fn manifest_number_exec(v: Option<&str>, max: u32) -> (r: Option<u32>)
    ensures
        match r {
            Some(n) => manifest_number(opt_str_view(v), max as int) == Some(n as int),
            None => manifest_number(opt_str_view(v), max as int) is None,
        },
{
    match v {
        Some(t) => match parse_unsigned(t, max as u64) {
            Some(n) => Some(n as u32),
            None => None,
        },
        None => None,
    }
}

/// The characters of an optional string slice.
pub open spec fn opt_str_view(s: Option<&str>) -> Option<Seq<char>> {
    match s {
        Some(t) => Some(t@),
        None => None,
    }
}

/// An owned copy of an optional string slice.
fn owned(v: Option<&str>) -> (r: Option<String>)
    ensures
        opt_view(r) == opt_str_view(v),
{
    match v {
        Some(t) => Some(t.to_owned()),
        None => None,
    }
}

impl SkinPackage {
    /// A package from its configuration and images; all seven required
    /// images must be present.
    pub fn from_parts(config: IniDocument, assets: SkinAssets) -> (r: Result<SkinPackage, Error>)
        ensures
            match r {
                Ok(p) => first_missing_asset(assets@) is None && p.config@ == config@ && p.assets@ == assets@
                    && p.manifest@ == spec_manifest(config@),
                Err(e) => first_missing_asset(assets@) matches Some(n) && e@ == ErrorModel::MissingSkinAsset(n),
            },
    {
        if !assets.contains_key("默认底图.png") {
            return Err(Error::MissingSkinAsset("默认底图.png"));
        }
        if !assets.contains_key("运行时间.png") {
            return Err(Error::MissingSkinAsset("运行时间.png"));
        }
        if !assets.contains_key("系统信息.png") {
            return Err(Error::MissingSkinAsset("系统信息.png"));
        }
        if !assets.contains_key("硬件信息底图.png") {
            return Err(Error::MissingSkinAsset("硬件信息底图.png"));
        }
        if !assets.contains_key("控制按钮.png") {
            return Err(Error::MissingSkinAsset("控制按钮.png"));
        }
        if !assets.contains_key("型号信息.png") {
            return Err(Error::MissingSkinAsset("型号信息.png"));
        }
        if !assets.contains_key("列表按钮.png") {
            return Err(Error::MissingSkinAsset("列表按钮.png"));
        }
        let opacity = match manifest_number_exec(config.get("皮肤", "透明度"), 255) {
            Some(n) => Some(n as u8),
            None => None,
        };
        let name = owned(config.get("皮肤", "皮肤名"));
        let author = owned(config.get("皮肤", "作者"));
        let border_color = manifest_number_exec(config.get("皮肤", "边框色"), 0xffff_ffff);
        let text_color = manifest_number_exec(config.get("皮肤", "文本色"), 0xffff_ffff);
        let manifest = SkinManifest { opacity, name, author, border_color, text_color };
        Ok(SkinPackage { manifest, config, assets })
    }

    /// The bytes of the asset named `name`.
    pub fn asset(&self, name: &str) -> (r: Option<&[u8]>)
        ensures
            match r {
                Some(d) => asset_lookup(self.assets@, name@) == Some(d@),
                None => asset_lookup(self.assets@, name@) is None,
            },
    {
        self.assets.get(name)
    }

    /// The asset named `name` with its image format, when it is a PNG or BMP.
    pub fn image(&self, name: &str) -> (r: Option<(&[u8], ImageFormat)>)
        ensures
            match r {
                Some((d, f)) => asset_lookup(self.assets@, name@) == Some(d@) && spec_detect_image(d@) == Some(f),
                None => asset_lookup(self.assets@, name@) matches Some(d) ==> spec_detect_image(d) is None,
            },
    {
        let bytes = match self.asset(name) {
            Some(b) => b,
            None => return None,
        };
        match ImageFormat::detect(bytes) {
            Some(f) => Some((bytes, f)),
            None => None,
        }
    }
}

// ---------------------------------------------------------------------------
// Archive entries.

/// An archive entry's name: its bytes as UTF-8 when they are, else as GBK.
pub open spec fn spec_zip_name(raw: Seq<u8>) -> Seq<char> {
    if valid_utf8(raw) {
        decode_utf8(raw)
    } else {
        gbk_decoded(raw).0
    }
}

/// An archive entry's name: its bytes as UTF-8 when they are, else as GBK.
pub fn decode_zip_name(raw: &[u8]) -> (r: String)
    requires
        raw@.len() <= usize::MAX / 4,
    ensures
        r@ == spec_zip_name(raw@),
{
    match utf8_decode(raw) {
        Some(name) => name,
        None => gbk_decode(raw).0,
    }
}

/// Whether `c` is an ASCII letter.
pub open spec fn is_ascii_letter(c: char) -> bool {
    ('a' <= c <= 'z') || ('A' <= c <= 'Z')
}

/// Whether an entry name is a plain relative path as Windows reads it: it
/// does not start at a root (`/` or `\`, which also begins a UNC or device
/// path) or a drive (`X:`), has no `..` component and does not start with
/// a `.` component.
pub open spec fn spec_safe_relative(name: Seq<char>) -> bool {
    let parts = crate::catalog::split_path(name);
    &&& !(name.len() > 0 && crate::catalog::is_separator(name[0]))
    &&& !(name.len() >= 2 && is_ascii_letter(name[0]) && name[1] == ':')
    &&& parts[0] != seq!['.']
    &&& forall|i: int| 0 <= i < parts.len() ==> #[trigger] parts[i] != seq!['.', '.']
}

/// Refuses an entry name that is not a plain relative path.
pub fn validate_relative_path(name: &str) -> (r: Result<(), Error>)
    ensures
        match r {
            Ok(()) => spec_safe_relative(name@),
            Err(e) => !spec_safe_relative(name@) && e@ == ErrorModel::UnsafeArchivePath(name@),
        },
{
    let text = chars_of(name);
    let ghost parts = crate::catalog::split_path(text@);
    proof {
        crate::catalog::lemma_split_path_nonempty(text@);
    }
    if text.len() > 0 && (text[0] == '/' || text[0] == '\\') {
        return Err(Error::UnsafeArchivePath(name.to_owned()));
    }
    if text.len() >= 2 && (('a' <= text[0] && text[0] <= 'z') || ('A' <= text[0] && text[0] <= 'Z')) && text[1] == ':' {
        return Err(Error::UnsafeArchivePath(name.to_owned()));
    }
    let pieces = crate::catalog::split_path_exec(text.as_slice());
    proof {
        assert(pieces@[0]@ == parts[0]);
    }
    if pieces[0].len() == 1 && pieces[0][0] == '.' {
        proof {
            assert(parts[0] =~= seq!['.']);
        }
        return Err(Error::UnsafeArchivePath(name.to_owned()));
    }
    proof {
        if parts[0] == seq!['.'] {
            assert(pieces@[0]@[0] == '.');
        }
    }
    let mut i: usize = 0;
    while i < pieces.len()
        invariant
            i <= pieces@.len(),
            pieces@.len() == parts.len(),
            parts == crate::catalog::split_path(name@),
            forall|k: int| 0 <= k < pieces@.len() ==> #[trigger] pieces@[k]@ == parts[k],
            forall|k: int| 0 <= k < i ==> #[trigger] parts[k] != seq!['.', '.'],
        decreases pieces@.len() - i,
    {
        let piece = &pieces[i];
        proof {
            assert(piece@ == parts[i as int]);
        }
        if piece.len() == 2 && piece[0] == '.' && piece[1] == '.' {
            proof {
                assert(parts[i as int] =~= seq!['.', '.']);
            }
            return Err(Error::UnsafeArchivePath(name.to_owned()));
        }
        proof {
            if parts[i as int] == seq!['.', '.'] {
                assert(piece@[0] == '.' && piece@[1] == '.');
            }
        }
        i = i + 1;
    }
    Ok(())
}

/// `s` with every `\` written as `/`.
pub open spec fn forward_slashes(s: Seq<char>) -> Seq<char> {
    s.map_values(|c: char| if c == '\\' { '/' } else { c })
}

/// What to do with an archive entry: skip a directory; refuse one over
/// `MAX_ASSET_SIZE` bytes or whose name is not a plain relative path;
/// else keep it under its name with `/` separators.
pub open spec fn spec_check_entry(raw: Seq<u8>, is_dir: bool, size: u64) -> Result<Option<Seq<char>>, ErrorModel> {
    if is_dir {
        Ok(None)
    } else if size > MAX_ASSET_SIZE {
        Err(ErrorModel::AssetTooLarge)
    } else if !spec_safe_relative(spec_zip_name(raw)) {
        Err(ErrorModel::UnsafeArchivePath(spec_zip_name(raw)))
    } else {
        Ok(Some(forward_slashes(spec_zip_name(raw))))
    }
}

/// What to do with an archive entry, from its raw name, whether it is a
/// directory and its uncompressed size.
pub fn check_entry(name_raw: &[u8], is_dir: bool, size: u64) -> (r: Result<Option<String>, Error>)
    requires
        name_raw@.len() <= usize::MAX / 4,
    ensures
        match r {
            Ok(Some(n)) => spec_check_entry(name_raw@, is_dir, size) == Ok::<Option<Seq<char>>, ErrorModel>(Some(n@)),
            Ok(None) => spec_check_entry(name_raw@, is_dir, size) == Ok::<Option<Seq<char>>, ErrorModel>(None),
            Err(e) => spec_check_entry(name_raw@, is_dir, size) == Err::<Option<Seq<char>>, ErrorModel>(e@),
        },
{
    if is_dir {
        return Ok(None);
    }
    if size > MAX_ASSET_SIZE {
        return Err(Error::AssetTooLarge);
    }
    let name = decode_zip_name(name_raw);
    match validate_relative_path(name.as_str()) {
        Ok(()) => {},
        Err(e) => return Err(e),
    }
    let chars = chars_of(name.as_str());
    let mut out: Vec<char> = Vec::new();
    let mut i: usize = 0;
    while i < chars.len()
        invariant
            i <= chars@.len(),
            out@ == forward_slashes(chars@.take(i as int)),
        decreases chars@.len() - i,
    {
        let c = chars[i];
        out.push(if c == '\\' { '/' } else { c });
        proof {
            assert(out@ =~= forward_slashes(chars@.take(i + 1)));
        }
        i = i + 1;
    }
    proof {
        assert(chars@.take(chars@.len() as int) =~= chars@);
    }
    Ok(Some(string_from_chars(out.as_slice())))
}

// ---------------------------------------------------------------------------
// The configuration file of an archive.

/// Whether `a` comes before `b` in string order.
pub open spec fn lex_lt(a: Seq<char>, b: Seq<char>) -> bool
    decreases a.len(),
{
    if a.len() == 0 {
        b.len() > 0
    } else if b.len() == 0 {
        false
    } else if a[0] != b[0] {
        (a[0] as u32) < (b[0] as u32)
    } else {
        lex_lt(a.drop_first(), b.drop_first())
    }
}

proof fn lemma_lex_skip(a: Seq<char>, b: Seq<char>, k: int)
    requires
        0 <= k <= a.len(),
        k <= b.len(),
        forall|i: int| 0 <= i < k ==> a[i] == b[i],
    ensures
        lex_lt(a, b) == lex_lt(a.skip(k), b.skip(k)),
    decreases k,
{
    if k > 0 {
        assert forall|i: int| 0 <= i < k - 1 implies a.drop_first()[i] == b.drop_first()[i] by {
            assert(a.drop_first()[i] == a[i + 1]);
        }
        lemma_lex_skip(a.drop_first(), b.drop_first(), k - 1);
        assert(a.drop_first().skip(k - 1) =~= a.skip(k));
        assert(b.drop_first().skip(k - 1) =~= b.skip(k));
    } else {
        assert(a.skip(0) =~= a);
        assert(b.skip(0) =~= b);
    }
}

/// Nothing comes before itself in string order.
proof fn lemma_lex_irreflexive(a: Seq<char>)
    ensures
        !lex_lt(a, a),
    decreases a.len(),
{
    if a.len() > 0 {
        lemma_lex_irreflexive(a.drop_first());
    }
}

/// Of two different strings, one comes before the other, and not both
/// ways.
proof fn lemma_lex_total(a: Seq<char>, b: Seq<char>)
    ensures
        a != b ==> lex_lt(a, b) || lex_lt(b, a),
        !(lex_lt(a, b) && lex_lt(b, a)),
    decreases a.len(),
{
    if a.len() > 0 && b.len() > 0 {
        lemma_lex_total(a.drop_first(), b.drop_first());
        if a[0] == b[0] && a != b {
            assert(a.drop_first() != b.drop_first()) by {
                if a.drop_first() == b.drop_first() {
                    assert(a =~= seq![a[0]] + a.drop_first());
                    assert(b =~= seq![b[0]] + b.drop_first());
                }
            }
        }
        if a[0] != b[0] {
            vstd::utf8::char_u32_cast(a[0], a[0] as u32);
            vstd::utf8::char_u32_cast(b[0], b[0] as u32);
            assert((a[0] as u32) != (b[0] as u32));
        }
    } else if a.len() == 0 && b.len() == 0 {
        assert(a =~= b);
    }
}

/// String order is transitive.
proof fn lemma_lex_transitive(a: Seq<char>, b: Seq<char>, c: Seq<char>)
    requires
        lex_lt(a, b),
        lex_lt(b, c),
    ensures
        lex_lt(a, c),
    decreases a.len(),
{
    if a.len() > 0 && b.len() > 0 && c.len() > 0 && a[0] == b[0] && b[0] == c[0] {
        lemma_lex_transitive(a.drop_first(), b.drop_first(), c.drop_first());
    }
}

/// Whether `a` comes before `b` in string order.
fn lex_less(a: &[char], b: &[char]) -> (r: bool)
    ensures
        r == lex_lt(a@, b@),
{
    let mut i: usize = 0;
    while i < a.len() && i < b.len() && a[i] == b[i]
        invariant
            i <= a@.len(),
            i <= b@.len(),
            forall|k: int| 0 <= k < i ==> a@[k] == b@[k],
        decreases a@.len() - i,
    {
        i = i + 1;
    }
    proof {
        lemma_lex_skip(a@, b@, i as int);
    }
    if i == a.len() {
        i < b.len()
    } else if i == b.len() {
        false
    } else {
        proof {
            assert(a@.skip(i as int)[0] == a@[i as int]);
            assert(b@.skip(i as int)[0] == b@[i as int]);
        }
        (a[i] as u32) < (b[i] as u32)
    }
}

/// Whether a name is `Config.ini` up to ASCII case.
pub open spec fn is_config_name(n: Seq<char>) -> bool {
    eq_ignore_ascii_case(n, "Config.ini"@)
}

/// Which of `names` is taken as the configuration: of those that read
/// `Config.ini` up to ASCII case, the one first in string order.
pub open spec fn config_choice(names: Seq<Seq<char>>) -> Option<int>
    decreases names.len(),
{
    if names.len() == 0 {
        None
    } else {
        let i = names.len() - 1;
        let prev = config_choice(names.drop_last());
        if is_config_name(names[i]) && (prev is None || lex_lt(names[i], names[prev->Some_0])) {
            Some(i)
        } else {
            prev
        }
    }
}

proof fn lemma_config_choice_bound(names: Seq<Seq<char>>)
    ensures
        config_choice(names) matches Some(i) ==> 0 <= i < names.len(),
    decreases names.len(),
{
    if names.len() > 0 {
        lemma_config_choice_bound(names.drop_last());
    }
}

/// The names of a list of assets.
pub open spec fn asset_names(s: Seq<(Seq<char>, Seq<u8>)>) -> Seq<Seq<char>> {
    s.map_values(|e: (Seq<char>, Seq<u8>)| e.0)
}

/// What `from_files` makes of an archive's files: the configuration is
/// read and taken out of the files; then the package is made as
/// `from_parts` makes it.
pub open spec fn spec_from_files_config(files: Seq<(Seq<char>, Seq<u8>)>) -> Result<(IniModel, Seq<(Seq<char>, Seq<u8>)>), ErrorModel> {
    match config_choice(asset_names(files)) {
        None => Err(ErrorModel::MissingSkinAsset("Config.ini")),
        Some(i) => match spec_parse(files[i].1) {
            Err(e) => Err(e@),
            Ok(m) => Ok((m, files.remove(i))),
        },
    }
}

impl SkinAssets {
    /// The position of the configuration file among the assets.
    fn config_position(&self) -> (r: Option<usize>)
        ensures
            match r {
                Some(i) => config_choice(asset_names(self@)) == Some(i as int),
                None => config_choice(asset_names(self@)) is None,
            },
    {
        let ghost names = asset_names(self@);
        let target = chars_of("Config.ini");
        let mut best: Option<usize> = None;
        let mut best_chars: Vec<char> = Vec::new();
        let mut i: usize = 0;
        while i < self.entries.len()
            invariant
                i <= self.entries@.len(),
                names == asset_names(self@),
                names.len() == self.entries@.len(),
                target@ == "Config.ini"@,
                match best {
                    Some(b) => config_choice(names.take(i as int)) == Some(b as int) && b < i && best_chars@
                        == names[b as int],
                    None => config_choice(names.take(i as int)) is None,
                },
            decreases self.entries@.len() - i,
        {
            let name = chars_of(self.entries[i].0.as_str());
            proof {
                assert(names[i as int] == self.entries@[i as int].0@);
                assert(names.take(i + 1).drop_last() =~= names.take(i as int));
                assert(names.take(i + 1)[i as int] == names[i as int]);
                lemma_config_choice_bound(names.take(i as int));
                if let Some(b) = best {
                    assert(names.take(i as int)[b as int] == names[b as int]);
                }
            }
            if crate::chars::chars_eq_ignore_ascii_case(name.as_slice(), target.as_slice()) {
                let better = match best {
                    None => true,
                    Some(_) => lex_less(name.as_slice(), best_chars.as_slice()),
                };
                if better {
                    best = Some(i);
                    best_chars = name;
                }
            }
            i = i + 1;
        }
        proof {
            assert(names.take(i as int) =~= names);
        }
        best
    }
}

impl SkinPackage {
    /// A package from an archive's files: the one named `Config.ini` (up
    /// to ASCII case; the first in string order when there are several)
    /// is read as the configuration and the rest are the assets.
    pub fn from_files(files: SkinAssets) -> (r: Result<SkinPackage, Error>)
        requires
            forall|k: int| 0 <= k < files@.len() ==> (#[trigger] files@[k]).1.len() <= usize::MAX / 4,
        ensures
            match spec_from_files_config(files@) {
                Err(e) => r matches Err(e2) && e2@ == e,
                Ok((m, rest)) => match r {
                    Ok(p) => first_missing_asset(rest) is None && p.config@ == m && p.assets@ == rest
                        && p.manifest@ == spec_manifest(m),
                    Err(e) => first_missing_asset(rest) matches Some(n) && e@ == ErrorModel::MissingSkinAsset(n),
                },
            },
    {
        let mut files = files;
        proof {
            use_type_invariant(&files);
        }
        let ghost before = files@;
        let i = match files.config_position() {
            Some(i) => i,
            None => return Err(Error::MissingSkinAsset("Config.ini")),
        };
        proof {
            lemma_config_choice_bound(asset_names(before));
            assert(asset_names(before)[i as int] == before[i as int].0);
        }
        let name = files.names()[i].clone();
        proof {
            assert(before[i as int].0 == name@);
            assert(exists|k: int| 0 <= k < before.len() && (#[trigger] before[k]).0 == name@);
            let c = choose|k: int| 0 <= k < before.len() && (#[trigger] before[k]).0 == name@;
            assert(c == i);
            assert(asset_position(before, name@) == Some(i as int));
        }
        let data = match files.remove(name.as_str()) {
            Some(d) => d,
            None => {
                proof {
                    assert(before[i as int].0 == name@);
                }
                return Err(Error::MissingSkinAsset("Config.ini"));
            },
        };
        let config = match IniDocument::parse(data.as_slice()) {
            Ok(c) => c,
            Err(e) => return Err(e),
        };
        SkinPackage::from_parts(config, files)
    }
}

// ---------------------------------------------------------------------------
// Manifest numbers read as written.

proof fn lemma_decimal_digits(n: nat)
    ensures
        all_digits(decimal(n)),
        decimal(n).len() > 0,
        decimal(n)[0] != '+',
        digits_value(decimal(n)) == n,
    decreases n,
{
    if n >= 10 {
        lemma_decimal_digits(n / 10);
        let d = decimal(n);
        assert(d.drop_last() =~= decimal(n / 10));
        assert(d[0] == decimal(n / 10)[0]);
        assert(d.last() == digit_char((n % 10) as nat));
        assert(digit_char((n % 10) as nat) as int == (n % 10) + 48);
        assert(digits_value(d) == digits_value(decimal(n / 10)) * 10 + (n % 10));
        assert((n / 10) * 10 + n % 10 == n);
    } else {
        let d = decimal(n);
        assert(d.last() == digit_char(n));
        assert(digit_char(n) as int == n + 48);
        assert(d.drop_last() =~= Seq::<char>::empty());
        assert(digits_value(d.drop_last()) == 0);
        assert(digits_value(d) == n);
    }
}

/// A manifest number written as a decimal reads as that number, up to its
/// bound: an opacity up to 255, a border or text colour up to `u32::MAX`.
pub proof fn lemma_manifest_reads_decimals(config: IniModel, key: Seq<char>, n: nat)
    requires
        spec_get(config, "皮肤"@, key) == Some(decimal(n)),
    ensures
        key == "透明度"@ && n <= 255 ==> spec_manifest(config).opacity == Some(n as u8),
        key == "边框色"@ && n <= u32::MAX ==> spec_manifest(config).border_color == Some(n as u32),
        key == "文本色"@ && n <= u32::MAX ==> spec_manifest(config).text_color == Some(n as u32),
        key == "透明度"@ && n > 255 ==> spec_manifest(config).opacity is None,
{
    lemma_decimal_digits(n);
}

} // verus!
