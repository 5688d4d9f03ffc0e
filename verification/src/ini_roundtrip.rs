//! Reading what was written: a document in plain form, written as UTF-8
//! text by `to_bytes`, is read back by `parse` as the same document.

use vstd::prelude::*;
use vstd::utf8::{decode_utf8, encode_utf8, valid_utf8};

use crate::chars::{is_ws, trim, trim_end, trim_start};
use crate::ini::{
    first_position, has_crlf, line_ending, parse_line, parse_lines, render, render_entries, render_sections,
    spec_parse, split_lines, IniModel, SectionModel,
};
use crate::text::{bom, spec_decode_text, spec_encode_text, TextEncoding};

verus! {

// ---------------------------------------------------------------------------
// The lines of a written document.

/// A section's header line.
pub open spec fn header_line(s: SectionModel) -> Seq<char> {
    seq!['['] + s.name + seq![']']
}

/// An entry's line.
pub open spec fn entry_line(e: (Seq<char>, Seq<char>)) -> Seq<char> {
    e.0 + seq!['='] + e.1
}

/// The lines of `entries`, in order.
pub open spec fn entry_lines(entries: Seq<(Seq<char>, Seq<char>)>) -> Seq<Seq<char>>
    decreases entries.len(),
{
    if entries.len() == 0 {
        seq![]
    } else {
        entry_lines(entries.drop_last()).push(entry_line(entries.last()))
    }
}

/// The lines of `sections`, each header followed by its entries.
pub open spec fn ini_lines(sections: Seq<SectionModel>) -> Seq<Seq<char>>
    decreases sections.len(),
{
    if sections.len() == 0 {
        seq![]
    } else {
        ini_lines(sections.drop_last()).push(header_line(sections.last())) + entry_lines(sections.last().entries)
    }
}

/// A line as it stands between line feeds: with its carriage return
/// when lines end in CR LF.
pub open spec fn with_cr(line: Seq<char>, crlf: bool) -> Seq<char> {
    if crlf { line.push('\r') } else { line }
}

/// Lines as they stand between line feeds.
pub open spec fn lines_with_cr(lines: Seq<Seq<char>>, crlf: bool) -> Seq<Seq<char>> {
    lines.map_values(|l: Seq<char>| with_cr(l, crlf))
}

// ---------------------------------------------------------------------------
// Cutting written text into lines.

proof fn lemma_split_push_newline(s: Seq<char>)
    ensures
        split_lines(s.push('\n')) == split_lines(s).push(Seq::<char>::empty()),
{
    assert(s.push('\n').drop_last() =~= s);
}

proof fn lemma_split_append(s: Seq<char>, x: Seq<char>)
    requires
        !x.contains('\n'),
    ensures
        split_lines(s + x) == split_lines(s).update(split_lines(s).len() - 1, split_lines(s).last() + x),
    decreases x.len(),
{
    crate::ini::lemma_split_lines_nonempty_pub(s);
    if x.len() == 0 {
        assert(s + x =~= s);
        assert(split_lines(s).last() + x =~= split_lines(s).last());
        assert(split_lines(s).update(split_lines(s).len() - 1, split_lines(s).last()) =~= split_lines(s));
    } else {
        let y = x.drop_last();
        assert(!y.contains('\n')) by {
            assert forall|i: int| 0 <= i < y.len() implies y[i] != '\n' by {
                assert(y[i] == x[i]);
            }
        }
        lemma_split_append(s, y);
        assert((s + x).drop_last() =~= s + y);
        assert((s + x).last() == x.last());
        assert(x.last() != '\n') by {
            assert(x[x.len() - 1] == x.last());
        }
        crate::ini::lemma_split_lines_nonempty_pub(s + y);
        let r = split_lines(s);
        assert((r.last() + y).push(x.last()) =~= r.last() + x);
        assert(r.update(r.len() - 1, r.last() + y).update(r.len() - 1, (r.last() + y).push(x.last())) =~= r.update(
            r.len() - 1,
            r.last() + x,
        ));
    }
}

/// Writing one more line after text that ends at a line break.
proof fn lemma_split_line(s: Seq<char>, x: Seq<char>, crlf: bool)
    requires
        !x.contains('\n'),
        split_lines(s).last() == Seq::<char>::empty(),
    ensures
        split_lines(s + x + line_ending(crlf)) == split_lines(s).drop_last().push(with_cr(x, crlf)).push(
            Seq::<char>::empty(),
        ),
{
    crate::ini::lemma_split_lines_nonempty_pub(s);
    let w = with_cr(x, crlf);
    assert(!w.contains('\n')) by {
        assert forall|i: int| 0 <= i < w.len() implies w[i] != '\n' by {
            if i < x.len() {
                assert(w[i] == x[i]);
            }
        }
    }
    lemma_split_append(s, w);
    assert(s + x + line_ending(crlf) =~= (s + w).push('\n'));
    lemma_split_push_newline(s + w);
    let r = split_lines(s);
    assert(r.last() + w =~= w);
    assert(r.update(r.len() - 1, w) =~= r.drop_last().push(w));
}

/// The text of written entries, after text that ends at a line break.
proof fn lemma_split_entries(t: Seq<char>, entries: Seq<(Seq<char>, Seq<char>)>, crlf: bool)
    requires
        split_lines(t).last() == Seq::<char>::empty(),
        forall|k: int| 0 <= k < entries.len() ==> !(#[trigger] entry_line(entries[k])).contains('\n'),
    ensures
        split_lines(t + render_entries(entries, line_ending(crlf))) == split_lines(t).drop_last() + lines_with_cr(
            entry_lines(entries),
            crlf,
        ) + seq![Seq::<char>::empty()],
    decreases entries.len(),
{
    crate::ini::lemma_split_lines_nonempty_pub(t);
    let le = line_ending(crlf);
    if entries.len() == 0 {
        assert(t + render_entries(entries, le) =~= t);
        assert(lines_with_cr(entry_lines(entries), crlf) =~= seq![]);
        assert(split_lines(t).drop_last() + seq![] + seq![Seq::<char>::empty()] =~= split_lines(t));
    } else {
        let init = entries.drop_last();
        assert forall|k: int| 0 <= k < init.len() implies !(#[trigger] entry_line(init[k])).contains('\n') by {
            assert(init[k] == entries[k]);
        }
        lemma_split_entries(t, init, crlf);
        let before = t + render_entries(init, le);
        let line = entry_line(entries.last());
        assert(entries.last() == entries[entries.len() - 1]);
        assert(t + render_entries(entries, le) =~= before + line + le) by {
            assert(render_entries(entries, le) == render_entries(init, le) + entries.last().0 + seq!['='] + entries.last().1
                + le);
        }
        let p = split_lines(before);
        assert(p.last() == Seq::<char>::empty());
        lemma_split_line(before, line, crlf);
        let d = split_lines(t).drop_last();
        let w = lines_with_cr(entry_lines(init), crlf);
        assert(p.drop_last() =~= d + w);
        assert(lines_with_cr(entry_lines(entries), crlf) =~= w.push(with_cr(line, crlf)));
        assert((d + w).push(with_cr(line, crlf)).push(Seq::<char>::empty()) =~= d + w.push(with_cr(line, crlf)) + seq![
            Seq::<char>::empty(),
        ]);
    }
}

/// Whether no line of `sections` holds a line feed.
pub open spec fn lines_without_newlines(sections: Seq<SectionModel>) -> bool {
    forall|i: int|
        0 <= i < sections.len() ==> !header_line(#[trigger] sections[i]).contains('\n') && forall|k: int|
            0 <= k < sections[i].entries.len() ==> !(#[trigger] entry_line(sections[i].entries[k])).contains('\n')
}

/// Written sections cut at their line feeds: every line, then the empty
/// piece after the last line break.
proof fn lemma_split_sections(sections: Seq<SectionModel>, crlf: bool)
    requires
        lines_without_newlines(sections),
    ensures
        split_lines(render_sections(sections, line_ending(crlf))) == lines_with_cr(ini_lines(sections), crlf).push(
            Seq::<char>::empty(),
        ),
    decreases sections.len(),
{
    let le = line_ending(crlf);
    if sections.len() == 0 {
        assert(lines_with_cr(ini_lines(sections), crlf) =~= seq![]);
        assert(split_lines(Seq::<char>::empty()) =~= seq![Seq::<char>::empty()]);
    } else {
        let init = sections.drop_last();
        let s = sections.last();
        assert(s == sections[sections.len() - 1]);
        assert(lines_without_newlines(init)) by {
            assert forall|i: int| 0 <= i < init.len() implies !header_line(#[trigger] init[i]).contains('\n') && forall|k: int|
                0 <= k < init[i].entries.len() ==> !(#[trigger] entry_line(init[i].entries[k])).contains('\n') by {
                assert(init[i] == sections[i]);
            }
        }
        lemma_split_sections(init, crlf);
        let r0 = render_sections(init, le);
        let h = header_line(s);
        let t = r0 + h + le;
        assert(render_sections(sections, le) =~= t + render_entries(s.entries, le));
        lemma_split_line(r0, h, crlf);
        let w0 = lines_with_cr(ini_lines(init), crlf);
        assert(split_lines(r0).drop_last() =~= w0);
        assert(split_lines(t) == w0.push(with_cr(h, crlf)).push(Seq::<char>::empty()));
        assert(split_lines(t).last() == Seq::<char>::empty());
        assert(split_lines(t).drop_last() =~= w0.push(with_cr(h, crlf)));
        lemma_split_entries(t, s.entries, crlf);
        assert(lines_with_cr(ini_lines(sections), crlf) =~= w0.push(with_cr(h, crlf)) + lines_with_cr(
            entry_lines(s.entries),
            crlf,
        ));
        assert(w0.push(with_cr(h, crlf)) + lines_with_cr(entry_lines(s.entries), crlf) + seq![Seq::<char>::empty()]
            =~= (w0.push(with_cr(h, crlf)) + lines_with_cr(entry_lines(s.entries), crlf)).push(Seq::<char>::empty()));
    }
}

// ---------------------------------------------------------------------------
// Plain documents, whose lines read back as written.

/// Text that is its own trim and has no line feed.
pub open spec fn plain_text(t: Seq<char>) -> bool {
    trim(t) == t && !t.contains('\n')
}

/// A key that reads back as written: plain text without `=` that does not
/// start like a comment or a section header.
pub open spec fn plain_key(k: Seq<char>) -> bool {
    plain_text(k) && !k.contains('=') && (k.len() > 0 ==> k[0] != ';' && k[0] != '#' && k[0] != '[')
}

/// Sections whose names, keys and values read back as written.
pub open spec fn plain_sections(sections: Seq<SectionModel>) -> bool {
    forall|i: int|
        0 <= i < sections.len() ==> plain_text((#[trigger] sections[i]).name) && forall|k: int|
            0 <= k < sections[i].entries.len() ==> plain_key((#[trigger] sections[i].entries[k]).0)
                && plain_text(sections[i].entries[k].1)
}

proof fn lemma_trim_len(s: Seq<char>)
    ensures
        trim_start(s).len() <= s.len(),
        trim_end(s).len() <= s.len(),
        trim(s).len() <= s.len(),
    decreases s.len(),
{
    if s.len() > 0 {
        lemma_trim_len(s.drop_first());
        lemma_trim_len(s.drop_last());
    }
    lemma_trim_len_end(trim_start(s));
}

proof fn lemma_trim_len_end(s: Seq<char>)
    ensures
        trim_end(s).len() <= s.len(),
    decreases s.len(),
{
    if s.len() > 0 {
        lemma_trim_len_end(s.drop_last());
    }
}

proof fn lemma_trim_start_len(s: Seq<char>)
    ensures
        trim_start(s).len() <= s.len(),
    decreases s.len(),
{
    if s.len() > 0 {
        lemma_trim_start_len(s.drop_first());
    }
}

/// Plain text that is not empty starts and ends with a character that is
/// not white space.
proof fn lemma_plain_ends(t: Seq<char>)
    requires
        trim(t) == t,
        t.len() > 0,
    ensures
        !is_ws(t[0]),
        !is_ws(t.last()),
{
    lemma_trim_start_len(t);
    lemma_trim_len_end(trim_start(t));
    if is_ws(t[0]) {
        lemma_trim_start_len(t.drop_first());
        assert(trim_start(t) == trim_start(t.drop_first()));
        lemma_trim_len_end(trim_start(t.drop_first()));
        assert(false);
    }
    assert(trim_start(t) == t);
    if is_ws(t.last()) {
        assert(trim_end(t) == trim_end(t.drop_last()));
        lemma_trim_len_end(t.drop_last());
        assert(false);
    }
}

/// A line that starts and ends with something other than white space is
/// its own trim, with or without a carriage return after it.
proof fn lemma_trim_line(l: Seq<char>, crlf: bool)
    requires
        l.len() > 0,
        !is_ws(l[0]),
        !is_ws(l.last()),
    ensures
        trim(with_cr(l, crlf)) == l,
{
    let w = with_cr(l, crlf);
    assert(w[0] == l[0]);
    assert(trim_start(w) == w);
    if crlf {
        assert(w.drop_last() =~= l);
        assert(is_ws(w.last()));
        assert(trim_end(w) == trim_end(l));
    }
    assert(trim_end(l) == l);
}

/// A header or entry line of plain sections is its own trim.
proof fn lemma_lines_trimmed(sections: Seq<SectionModel>, crlf: bool)
    requires
        plain_sections(sections),
    ensures
        forall|i: int| 0 <= i < ini_lines(sections).len() ==> trim(with_cr(#[trigger] ini_lines(sections)[i], crlf)) == ini_lines(sections)[i],
        forall|i: int| 0 <= i < ini_lines(sections).len() ==> (#[trigger] ini_lines(sections)[i]).len() > 0,
    decreases sections.len(),
{
    if sections.len() > 0 {
        let init = sections.drop_last();
        let s = sections.last();
        assert(s == sections[sections.len() - 1]);
        assert(plain_sections(init)) by {
            assert forall|i: int| 0 <= i < init.len() implies plain_text((#[trigger] init[i]).name) && forall|k: int|
                0 <= k < init[i].entries.len() ==> plain_key((#[trigger] init[i].entries[k]).0) && plain_text(
                    init[i].entries[k].1,
                ) by {
                assert(init[i] == sections[i]);
            }
        }
        lemma_lines_trimmed(init, crlf);
        let h = header_line(s);
        assert(h[0] == '[' && h.last() == ']');
        lemma_trim_line(h, crlf);
        lemma_entry_lines_trimmed(s.entries, crlf);
        let all = ini_lines(sections);
        let a = ini_lines(init);
        let e = entry_lines(s.entries);
        assert(all == a.push(h) + e);
        assert forall|i: int| 0 <= i < all.len() implies trim(with_cr(#[trigger] all[i], crlf)) == all[i] && all[i].len() > 0 by {
            if i < a.len() {
                assert(all[i] == a[i]);
            } else if i == a.len() {
                assert(all[i] == h);
            } else {
                assert(all[i] == e[i - a.len() - 1]);
            }
        }
    }
}

proof fn lemma_entry_lines_trimmed(entries: Seq<(Seq<char>, Seq<char>)>, crlf: bool)
    requires
        forall|k: int| 0 <= k < entries.len() ==> plain_key((#[trigger] entries[k]).0) && plain_text(entries[k].1),
    ensures
        forall|i: int| 0 <= i < entry_lines(entries).len() ==> trim(with_cr(#[trigger] entry_lines(entries)[i], crlf)) == entry_lines(entries)[i],
        forall|i: int| 0 <= i < entry_lines(entries).len() ==> (#[trigger] entry_lines(entries)[i]).len() > 0,
        entry_lines(entries).len() == entries.len(),
        forall|i: int| 0 <= i < entries.len() ==> #[trigger] entry_lines(entries)[i] == entry_line(entries[i]),
    decreases entries.len(),
{
    if entries.len() > 0 {
        let init = entries.drop_last();
        let e = entries.last();
        assert(e == entries[entries.len() - 1]);
        assert forall|k: int| 0 <= k < init.len() implies plain_key((#[trigger] init[k]).0) && plain_text(init[k].1) by {
            assert(init[k] == entries[k]);
        }
        lemma_entry_lines_trimmed(init, crlf);
        let l = entry_line(e);
        assert(l.len() > 0);
        if e.0.len() > 0 {
            lemma_plain_ends(e.0);
            assert(l[0] == e.0[0]);
        } else {
            assert(l[0] == '=');
        }
        if e.1.len() > 0 {
            lemma_plain_ends(e.1);
            assert(l.last() == e.1.last());
        } else {
            assert(l.last() == '=');
        }
        lemma_trim_line(l, crlf);
        assert forall|i: int| 0 <= i < entries.len() implies #[trigger] entry_lines(entries)[i] == entry_line(entries[i]) by {
            if i < init.len() {
                assert(entries[i] == init[i]);
            }
        }
    }
}

// ---------------------------------------------------------------------------
// Reading the lines back.

/// A header line, read after `sections`, opens the section it names.
proof fn lemma_parse_header(sections: Seq<SectionModel>, piece: Seq<char>, s: SectionModel)
    requires
        plain_text(s.name),
        trim(piece) == header_line(s),
    ensures
        parse_line(sections, piece) == Ok::<Seq<SectionModel>, crate::ini::IniFault>(
            sections.push(SectionModel { name: s.name, entries: seq![] }),
        ),
{
    let line = header_line(s);
    assert(line[0] == '[');
    assert(line.last() == ']');
    assert(line.subrange(1, line.len() - 1) =~= s.name);
}

/// An entry line, read after a section, adds its entry to that section.
proof fn lemma_parse_entry(sections: Seq<SectionModel>, piece: Seq<char>, e: (Seq<char>, Seq<char>))
    requires
        sections.len() > 0,
        plain_key(e.0),
        plain_text(e.1),
        trim(piece) == entry_line(e),
    ensures
        parse_line(sections, piece) == Ok::<Seq<SectionModel>, crate::ini::IniFault>(
            sections.update(
                sections.len() - 1,
                SectionModel { entries: sections.last().entries.push(e), ..sections.last() },
            ),
        ),
{
    let line = entry_line(e);
    let k = e.0;
    assert(line.len() > 0);
    if k.len() > 0 {
        assert(line[0] == k[0]);
    } else {
        assert(line[0] == '=');
    }
    assert forall|j: int| 0 <= j < k.len() implies #[trigger] line[j] != '=' by {
        assert(line[j] == k[j]);
    }
    assert(line[k.len() as int] == '=');
    crate::ini::lemma_first_position(line, '=', k.len() as int);
    assert(line.take(k.len() as int) =~= k);
    assert(line.subrange((k.len() + 1) as int, line.len() as int) =~= e.1);
}

/// Entries read after their header build up their section.
proof fn lemma_parse_entries(pieces: Seq<Seq<char>>, init: Seq<SectionModel>, s: SectionModel, base: nat, j: nat)
    requires
        j <= s.entries.len(),
        base + j <= pieces.len(),
        forall|k: int| 0 <= k < s.entries.len() ==> plain_key((#[trigger] s.entries[k]).0) && plain_text(s.entries[k].1),
        parse_lines(pieces, base) == Ok::<Seq<SectionModel>, (int, crate::ini::IniFault)>(
            init.push(SectionModel { name: s.name, entries: seq![] }),
        ),
        forall|q: int| 0 <= q < j ==> trim(#[trigger] pieces[base + q]) == entry_line(s.entries[q]),
    ensures
        parse_lines(pieces, base + j) == Ok::<Seq<SectionModel>, (int, crate::ini::IniFault)>(
            init.push(SectionModel { name: s.name, entries: s.entries.take(j as int) }),
        ),
    decreases j,
{
    if j == 0 {
        assert(s.entries.take(0) =~= seq![]);
    } else {
        lemma_parse_entries(pieces, init, s, base, (j - 1) as nat);
        let before = init.push(SectionModel { name: s.name, entries: s.entries.take(j - 1) });
        let q = j - 1;
        assert(trim(pieces[base + q]) == entry_line(s.entries[q]));
        lemma_parse_entry(before, pieces[base + q], s.entries[q]);
        assert(s.entries.take(j - 1).push(s.entries[q]) =~= s.entries.take(j as int));
        assert(before.update(
            before.len() - 1,
            SectionModel { entries: before.last().entries.push(s.entries[q]), ..before.last() },
        ) =~= init.push(SectionModel { name: s.name, entries: s.entries.take(j as int) }));
    }
}

/// The lines of plain sections, read in order, give back those sections.
proof fn lemma_parse_sections(pieces: Seq<Seq<char>>, sections: Seq<SectionModel>)
    requires
        plain_sections(sections),
        ini_lines(sections).len() <= pieces.len(),
        forall|i: int| 0 <= i < ini_lines(sections).len() ==> trim(#[trigger] pieces[i]) == ini_lines(sections)[i],
    ensures
        parse_lines(pieces, ini_lines(sections).len()) == Ok::<Seq<SectionModel>, (int, crate::ini::IniFault)>(sections),
    decreases sections.len(),
{
    if sections.len() == 0 {
        assert(parse_lines(pieces, 0) == Ok::<Seq<SectionModel>, (int, crate::ini::IniFault)>(seq![]));
        assert(sections =~= seq![]);
    } else {
        let init = sections.drop_last();
        let s = sections.last();
        assert(s == sections[sections.len() - 1]);
        assert(plain_sections(init)) by {
            assert forall|i: int| 0 <= i < init.len() implies plain_text((#[trigger] init[i]).name) && forall|k: int|
                0 <= k < init[i].entries.len() ==> plain_key((#[trigger] init[i].entries[k]).0) && plain_text(
                    init[i].entries[k].1,
                ) by {
                assert(init[i] == sections[i]);
            }
        }
        let a = ini_lines(init);
        let h = header_line(s);
        let e = entry_lines(s.entries);
        let all = ini_lines(sections);
        assert(all == a.push(h) + e);
        assert forall|i: int| 0 <= i < a.len() implies trim(#[trigger] pieces[i]) == a[i] by {
            assert(all[i] == a[i]);
        }
        lemma_parse_sections(pieces, init);
        assert(all[a.len() as int] == h);
        lemma_parse_header(init, pieces[a.len() as int], s);
        let base = (a.len() + 1) as nat;
        assert(parse_lines(pieces, base) == Ok::<Seq<SectionModel>, (int, crate::ini::IniFault)>(
            init.push(SectionModel { name: s.name, entries: seq![] }),
        ));
        lemma_entry_lines_trimmed(s.entries, false);
        assert forall|q: int| 0 <= q < s.entries.len() implies trim(#[trigger] pieces[base + q]) == entry_line(s.entries[q]) by {
            assert(all[base + q] == e[q]);
        }
        lemma_parse_entries(pieces, init, s, base, s.entries.len());
        assert(s.entries.take(s.entries.len() as int) =~= s.entries);
        assert(init.push(SectionModel { name: s.name, entries: s.entries }) =~= sections);
    }
}

// ---------------------------------------------------------------------------
// Line ends and the last line.

/// What the last piece of `t` says of its end: it is empty when `t` is or
/// ends in a line feed, and otherwise ends with the same character as `t`.
proof fn lemma_last_piece(t: Seq<char>)
    ensures
        t.len() == 0 ==> split_lines(t).last().len() == 0,
        t.len() > 0 && t.last() == '\n' ==> split_lines(t).last().len() == 0,
        t.len() > 0 && t.last() != '\n' ==> split_lines(t).last().len() > 0 && split_lines(t).last().last() == t.last(),
{
    crate::ini::lemma_split_lines_nonempty_pub(t);
    if t.len() > 0 {
        crate::ini::lemma_split_lines_nonempty_pub(t.drop_last());
    }
}

/// Whether a piece that a line feed follows ends in a carriage return.
pub open spec fn cr_before_break(pieces: Seq<Seq<char>>) -> bool {
    exists|i: int| 0 <= i < pieces.len() - 1 && (#[trigger] pieces[i]).len() > 0 && pieces[i].last() == '\r'
}

/// Text holds CR LF exactly when one of its pieces before a line feed
/// ends in a carriage return.
proof fn lemma_crlf_pieces(t: Seq<char>)
    ensures
        has_crlf(t) == cr_before_break(split_lines(t)),
    decreases t.len(),
{
    crate::ini::lemma_split_lines_nonempty_pub(t);
    if t.len() == 0 {
        assert(split_lines(t) =~= seq![Seq::<char>::empty()]);
    } else {
        let u = t.drop_last();
        let c = t.last();
        lemma_crlf_pieces(u);
        lemma_last_piece(u);
        crate::ini::lemma_split_lines_nonempty_pub(u);
        let pu = split_lines(u);
        let pt = split_lines(t);
        if c == '\n' {
            assert(pt == pu.push(Seq::<char>::empty()));
            if has_crlf(t) {
                let i = choose|i: int| 0 <= i && i + 1 < t.len() && t[i] == '\r' && #[trigger] t[i + 1] == '\n';
                if i + 1 < u.len() {
                    assert(u[i] == t[i] && u[i + 1] == t[i + 1]);
                    assert(has_crlf(u));
                    let k = choose|k: int| 0 <= k < pu.len() - 1 && (#[trigger] pu[k]).len() > 0 && pu[k].last() == '\r';
                    assert(pt[k] == pu[k]);
                } else {
                    assert(u.last() == '\r');
                    assert(pt[pu.len() - 1] == pu.last());
                }
                assert(cr_before_break(pt));
            }
            if cr_before_break(pt) {
                let k = choose|k: int| 0 <= k < pt.len() - 1 && (#[trigger] pt[k]).len() > 0 && pt[k].last() == '\r';
                assert(pt[k] == pu[k]);
                if k < pu.len() - 1 {
                    assert(cr_before_break(pu));
                    let i = choose|i: int| 0 <= i && i + 1 < u.len() && u[i] == '\r' && #[trigger] u[i + 1] == '\n';
                    assert(t[i] == u[i] && t[i + 1] == u[i + 1]);
                } else {
                    assert(u.len() > 0 && u.last() == '\r');
                    let i = u.len() - 1;
                    assert(t[i] == '\r' && t[i + 1] == '\n');
                }
                assert(has_crlf(t));
            }
        } else {
            assert(pt == pu.update(pu.len() - 1, pu.last().push(c)));
            if has_crlf(t) {
                let i = choose|i: int| 0 <= i && i + 1 < t.len() && t[i] == '\r' && #[trigger] t[i + 1] == '\n';
                assert(i + 1 < u.len());
                assert(u[i] == t[i] && u[i + 1] == t[i + 1]);
                assert(has_crlf(u));
                let k = choose|k: int| 0 <= k < pu.len() - 1 && (#[trigger] pu[k]).len() > 0 && pu[k].last() == '\r';
                assert(pt[k] == pu[k]);
                assert(cr_before_break(pt));
            }
            if cr_before_break(pt) {
                let k = choose|k: int| 0 <= k < pt.len() - 1 && (#[trigger] pt[k]).len() > 0 && pt[k].last() == '\r';
                assert(pt[k] == pu[k]);
                assert(cr_before_break(pu));
                let i = choose|i: int| 0 <= i && i + 1 < u.len() && u[i] == '\r' && #[trigger] u[i + 1] == '\n';
                assert(t[i] == u[i] && t[i + 1] == u[i + 1]);
                assert(has_crlf(t));
            }
        }
    }
}

/// Written sections end with a line break.
proof fn lemma_ends_with_le(sections: Seq<SectionModel>, le: Seq<char>)
    requires
        sections.len() > 0,
    ensures
        exists|z: Seq<char>| render_sections(sections, le) == #[trigger] (z + le),
{
    let s = sections.last();
    let x = render_sections(sections.drop_last(), le) + seq!['['] + s.name + seq![']'];
    if s.entries.len() == 0 {
        assert(render_sections(sections, le) =~= x + le);
    } else {
        let es = s.entries;
        let y = render_entries(es.drop_last(), le) + es.last().0 + seq!['='] + es.last().1;
        assert(render_entries(es, le) == y + le);
        assert(render_sections(sections, le) =~= (x + le + y) + le);
    }
}

// ---------------------------------------------------------------------------
// Encoding.

/// UTF-8 text that is empty or starts with `[` decodes back to itself,
/// with or without a byte-order mark before it.
proof fn lemma_decode_encoded(text: Seq<char>, encoding: TextEncoding)
    requires
        encoding is Utf8 || encoding is Utf8Bom,
        text.len() > 0 ==> text[0] == '[',
    ensures
        spec_encode_text(text, encoding) matches Ok(b) && spec_decode_text(b) == Ok::<(Seq<char>, TextEncoding), crate::error::Error>((text, encoding)),
{
    broadcast use vstd::utf8::encode_utf8_valid_utf8, vstd::utf8::encode_utf8_decode_utf8;

    let e = encode_utf8(text);
    if encoding is Utf8 {
        if text.len() > 0 {
            let x = text[0] as u32;
            assert(x == 91);
            assert(91u32 & 0x7F == 91) by (bit_vector);
            assert(e == vstd::utf8::encode_scalar(x) + encode_utf8(text.drop_first()));
            assert(e[0] == 91);
            assert(!(e.len() >= 3 && e.subrange(0, 3) == bom())) by {
                if e.len() >= 3 && e.subrange(0, 3) == bom() {
                    assert(e.subrange(0, 3)[0] == e[0]);
                }
            }
        }
    } else {
        let b = bom() + e;
        assert(b.subrange(0, 3) =~= bom());
        assert(b.subrange(3, b.len() as int) =~= e);
    }
}

// ---------------------------------------------------------------------------
// The law.

/// A document that writing and reading keep as it is: written in UTF-8
/// (with or without a byte-order mark), every name, key and value plain,
/// and line ends that its text can show (an empty document has none, and
/// CR LF without a final line break needs two lines).
pub open spec fn plain_document(m: IniModel) -> bool {
    &&& (m.encoding is Utf8 || m.encoding is Utf8Bom)
    &&& plain_sections(m.sections)
    &&& m.sections.len() == 0 ==> !m.crlf && !m.trailing_newline
    &&& m.crlf && !m.trailing_newline ==> ini_lines(m.sections).len() >= 2
}

proof fn lemma_plain_no_newlines(sections: Seq<SectionModel>)
    requires
        plain_sections(sections),
    ensures
        lines_without_newlines(sections),
{
    assert forall|i: int| 0 <= i < sections.len() implies !header_line(#[trigger] sections[i]).contains('\n') && forall|k: int|
        0 <= k < sections[i].entries.len() ==> !(#[trigger] entry_line(sections[i].entries[k])).contains('\n') by {
        let h = header_line(sections[i]);
        assert forall|j: int| 0 <= j < h.len() implies h[j] != '\n' by {
            if 0 < j < h.len() - 1 {
                assert(h[j] == sections[i].name[j - 1]);
            }
        }
        assert forall|k: int| 0 <= k < sections[i].entries.len() implies !(#[trigger] entry_line(sections[i].entries[k])).contains('\n') by {
            let e = sections[i].entries[k];
            let l = entry_line(e);
            assert forall|j: int| 0 <= j < l.len() implies l[j] != '\n' by {
                if j < e.0.len() {
                    assert(l[j] == e.0[j]);
                } else if j > e.0.len() {
                    assert(l[j] == e.1[j - e.0.len() - 1]);
                }
            }
        }
    }
}

/// Every line of non-empty sections; there is one at least.
proof fn lemma_ini_lines_nonempty(sections: Seq<SectionModel>)
    ensures
        sections.len() > 0 <==> ini_lines(sections).len() > 0,
{
    if sections.len() > 0 {
        assert(ini_lines(sections).len() >= ini_lines(sections.drop_last()).len() + 1);
    }
}

/// Writing a plain document and reading the bytes back gives the same
/// document: its sections and entries, encoding, line ends and final line
/// break.
#[verifier::spinoff_prover]
#[verifier::rlimit(40)]
pub proof fn lemma_read_written(m: IniModel)
    requires
        plain_document(m),
    ensures
        spec_encode_text(render(m), m.encoding) matches Ok(b) && spec_parse(b) == Ok::<IniModel, crate::error::Error>(m),
{
    let ss = m.sections;
    let crlf = m.crlf;
    let le = line_ending(crlf);
    let lines = ini_lines(ss);
    let n = lines.len();
    let w = lines_with_cr(lines, crlf);
    let t = render_sections(ss, le);
    let text = render(m);
    lemma_plain_no_newlines(ss);
    lemma_split_sections(ss, crlf);
    lemma_lines_trimmed(ss, crlf);
    lemma_lines_trimmed(ss, false);
    lemma_ini_lines_nonempty(ss);
    assert(split_lines(t) == w.push(Seq::<char>::empty()));
    // The text, the pieces it is cut into, and what they read as.
    let pieces = split_lines(text);
    if ss.len() == 0 {
        assert(t =~= Seq::<char>::empty());
        assert(text == t);
        assert(pieces =~= seq![Seq::<char>::empty()]);
        assert(parse_lines(pieces, 1) == Ok::<Seq<SectionModel>, (int, crate::ini::IniFault)>(ss)) by {
            assert(parse_lines(pieces, 0) == Ok::<Seq<SectionModel>, (int, crate::ini::IniFault)>(seq![]));
            assert(ss =~= seq![]);
        }
        assert(!has_crlf(text));
    } else {
        lemma_ends_with_le(ss, le);
        let z = choose|z: Seq<char>| t == #[trigger] (z + le);
        assert(t.subrange(t.len() - le.len(), t.len() as int) =~= le);
        assert(lines[0].len() > 0);
        if m.trailing_newline {
            assert(text == t);
            assert(pieces.len() == n + 1);
            assert forall|i: int| 0 <= i < n implies trim(#[trigger] pieces[i]) == lines[i] by {
                assert(pieces[i] == w[i]);
            }
            lemma_parse_sections(pieces, ss);
            assert(pieces[n as int] == Seq::<char>::empty());
            assert(parse_lines(pieces, (n + 1) as nat) == Ok::<Seq<SectionModel>, (int, crate::ini::IniFault)>(ss));
            lemma_crlf_pieces(text);
            if crlf {
                assert(pieces[0] == w[0]);
                assert(w[0] == lines[0].push('\r'));
                assert(pieces[0].last() == '\r');
                assert(cr_before_break(pieces));
            } else {
                assert(!cr_before_break(pieces)) by {
                    if cr_before_break(pieces) {
                        let k = choose|k: int| 0 <= k < pieces.len() - 1 && (#[trigger] pieces[k]).len() > 0 && pieces[k].last() == '\r';
                        assert(pieces[k] == lines[k]);
                        lemma_plain_line_end(ss, k);
                    }
                }
            }
            lemma_last_piece(text);
        } else {
            assert(text == z);
            assert(t =~= text + le);
            let q = split_lines(text);
            crate::ini::lemma_split_lines_nonempty_pub(text);
            let e = Seq::<char>::empty();
            if crlf {
                lemma_split_append(text, seq!['\r']);
                assert(t =~= (text + seq!['\r']).push('\n'));
                lemma_split_push_newline(text + seq!['\r']);
                let qq = q.update(q.len() - 1, q.last() + seq!['\r']);
                assert(split_lines(t) == qq.push(e));
                assert(qq =~= qq.push(e).drop_last());
                assert(w =~= w.push(e).drop_last());
                assert(qq =~= w);
            } else {
                assert(t =~= text.push('\n'));
                lemma_split_push_newline(text);
                assert(split_lines(t) == q.push(e));
                assert(q =~= q.push(e).drop_last());
                assert(w =~= w.push(e).drop_last());
                assert(q =~= w);
            }
            assert(q.len() == n);
            assert forall|i: int| 0 <= i < n - 1 implies #[trigger] q[i] == w[i] by {
                if crlf {
                    assert(q.update(q.len() - 1, q.last() + seq!['\r'])[i] == q[i]);
                }
            }
            assert(q.last() == lines[n - 1]) by {
                if crlf {
                    assert(q.update(q.len() - 1, q.last() + seq!['\r'])[n - 1] == q.last() + seq!['\r']);
                    assert(w[n - 1] == lines[n - 1].push('\r'));
                    assert(q.last() =~= (q.last() + seq!['\r']).drop_last());
                    assert(lines[n - 1] =~= lines[n - 1].push('\r').drop_last());
                } else {
                    assert(w[n - 1] == lines[n - 1]);
                }
            }
            assert forall|i: int| 0 <= i < n implies trim(#[trigger] pieces[i]) == lines[i] by {
                if i < n - 1 {
                    assert(pieces[i] == w[i]);
                } else {
                    assert(pieces[i] == lines[i]);
                    assert(with_cr(lines[i], false) == lines[i]);
                }
            }
            lemma_parse_sections(pieces, ss);
            lemma_crlf_pieces(text);
            if crlf {
                assert(n >= 2);
                assert(pieces[0] == w[0]);
                assert(w[0] == lines[0].push('\r'));
                assert(cr_before_break(pieces));
            } else {
                assert(!cr_before_break(pieces)) by {
                    if cr_before_break(pieces) {
                        let k = choose|k: int| 0 <= k < pieces.len() - 1 && (#[trigger] pieces[k]).len() > 0 && pieces[k].last() == '\r';
                        assert(pieces[k] == w[k]);
                        assert(w[k] == lines[k]);
                        lemma_plain_line_end(ss, k);
                    }
                }
            }
            lemma_last_piece(text);
            assert(q.last().len() > 0);
        }
    }
    // The text starts with a section header, or is empty.
    assert(text.len() > 0 ==> text[0] == '[') by {
        if text.len() > 0 {
            lemma_first_char(ss, le);
            assert(ss.len() > 0);
            assert(text[0] == t[0]);
        }
    }
    lemma_decode_encoded(text, m.encoding);
}

/// The last character of a plain line is not a carriage return.
proof fn lemma_plain_line_end(sections: Seq<SectionModel>, k: int)
    requires
        plain_sections(sections),
        0 <= k < ini_lines(sections).len(),
    ensures
        ini_lines(sections)[k].last() != '\r',
{
    lemma_lines_trimmed(sections, false);
    let l = ini_lines(sections)[k];
    assert(trim(l) == l);
    lemma_plain_ends(l);
}

/// Written non-empty sections start with `[`.
proof fn lemma_first_char(sections: Seq<SectionModel>, le: Seq<char>)
    ensures
        render_sections(sections, le).len() > 0 ==> sections.len() > 0 && render_sections(sections, le)[0] == '[',
    decreases sections.len(),
{
    if sections.len() > 0 {
        let init = sections.drop_last();
        lemma_first_char(init, le);
        let r0 = render_sections(init, le);
        let s = sections.last();
        let whole = render_sections(sections, le);
        assert(whole == r0 + seq!['['] + s.name + seq![']'] + le + render_entries(s.entries, le));
        if r0.len() > 0 {
            assert(whole[0] == r0[0]);
        } else {
            assert(whole[0] == '[');
        }
    }
}

/// A file written from a plain document is read and written back byte
/// for byte.
pub proof fn lemma_rewrite_written(m: IniModel)
    requires
        plain_document(m),
    ensures
        spec_encode_text(render(m), m.encoding) matches Ok(b) && spec_parse(b) matches Ok(read) && spec_encode_text(
            render(read),
            read.encoding,
        ) == Ok::<Seq<u8>, crate::error::Error>(b),
{
    lemma_read_written(m);
}

} // verus!
