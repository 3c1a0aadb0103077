//! The round-trip law of the configuration store: writing a document out
//! and parsing the text back yields the same entries. The proof works at
//! the line level: the written text is decomposed into the exact lines
//! the parser will see, and the parser's state machine is then stepped
//! over them entry by entry.

use vstd::prelude::*;

use crate::config::commit;
use crate::config::fields_text;
use crate::config::flush_ml_entry;
use crate::config::flush_opt;
use crate::config::header_name;
use crate::config::is_blank;
use crate::config::is_comment;
use crate::config::is_header;
use crate::config::is_kv;
use crate::config::is_pem_key;
use crate::config::key_pem_key;
use crate::config::kv_key;
use crate::config::kv_sep;
use crate::config::kv_value;
use crate::config::pair_text;
use crate::config::parse_lines;
use crate::config::parse_step;
use crate::config::parse_step_normal;
use crate::config::pem_marker;
use crate::config::pubkey_key;
use crate::config::remote_name_key;
use crate::config::sec_text;
use crate::config::spec_parse;
use crate::config::spec_serialize;
use crate::config::starts_pem;
use crate::config::type_key;
use crate::config::upsert;
use crate::config::SpecEntry;
use crate::text::has_char;
use crate::text::is_space;
use crate::text::join_lines;
use crate::text::lemma_find_idx_unique;
use crate::text::lemma_join_concat;
use crate::text::lemma_join_split;
use crate::text::lemma_split_join;
use crate::text::lemma_split_lines_no_newline;
use crate::text::lemma_split_lines_nonempty;
use crate::text::lemma_trim_end_take;
use crate::text::lemma_trim_identity;
use crate::text::spec_trim;
use crate::text::split_lines;

verus! {

// ---------------------------------------------------------------------------
// Well-formed documents: the inputs on which writing is invertible
// ---------------------------------------------------------------------------

/// A key that can be written and read back: nonempty, already trimmed,
/// free of newlines and `=`, not opening a comment or header, and not one
/// of the two reserved keys that the writer treats specially.
pub open spec fn key_ok(k: Seq<char>) -> bool {
    k.len() > 0 && spec_trim(k) == k && !has_char(k, '\n') && !has_char(k, '=') && k[0] != '['
        && k[0] != '#' && k[0] != ';' && k != type_key() && k != remote_name_key()
}

/// A single-line value that can be written and read back: already
/// trimmed, free of newlines, and not opening a multiline block under its
/// key.
pub open spec fn simple_value_ok(k: Seq<char>, v: Seq<char>) -> bool {
    spec_trim(v) == v && !has_char(v, '\n') && !(is_pem_key(k) && starts_pem(v))
}

/// One written line of a multiline value: nonempty, already trimmed, and
/// not mistakable for a section header.
pub open spec fn seg_ok(s: Seq<char>) -> bool {
    s.len() > 0 && spec_trim(s) == s && s[0] != '['
}

/// A multiline value under a multiline-capable key: it opens with the PEM
/// marker and every one of its lines reads back unchanged.
pub open spec fn pem_value_ok(k: Seq<char>, v: Seq<char>) -> bool {
    is_pem_key(k) && starts_pem(v) && forall|i: int|
        0 <= i < split_lines(v).len() ==> seg_ok(#[trigger] split_lines(v)[i])
}

/// Whether a field opens a multiline block when written and parsed.
pub open spec fn is_ml_field(k: Seq<char>, v: Seq<char>) -> bool {
    is_pem_key(k) && starts_pem(v)
}

/// An entry whose written section parses back to itself: nonempty name
/// and kind free of newlines, the kind trimmed, distinct well-formed
/// keys, single-line values everywhere except that the last field may
/// carry a multiline value.
pub open spec fn wf_entry(e: SpecEntry) -> bool {
    &&& e.name.len() > 0
    &&& !has_char(e.name, '\n')
    &&& e.kind.len() > 0
    &&& spec_trim(e.kind) == e.kind
    &&& !has_char(e.kind, '\n')
    &&& forall|i: int, j: int|
        0 <= i < j < e.fields.len() ==> (#[trigger] e.fields[i]).0 != (#[trigger] e.fields[j]).0
    &&& forall|i: int| 0 <= i < e.fields.len() ==> key_ok((#[trigger] e.fields[i]).0)
    &&& forall|i: int|
        0 <= i < e.fields.len() - 1 ==> simple_value_ok(
            (#[trigger] e.fields[i]).0,
            e.fields[i].1,
        )
    &&& e.fields.len() > 0 ==> (simple_value_ok(e.fields.last().0, e.fields.last().1)
        || pem_value_ok(e.fields.last().0, e.fields.last().1))
}

/// A document of well-formed entries.
pub open spec fn wf_document(doc: Seq<SpecEntry>) -> bool {
    forall|i: int| 0 <= i < doc.len() ==> wf_entry(#[trigger] doc[i])
}

// ---------------------------------------------------------------------------
// The written text, line by line
// ---------------------------------------------------------------------------

/// The written header line of a section.
pub open spec fn header_line(name: Seq<char>) -> Seq<char> {
    seq!['['] + name + seq![']']
}

/// One written `key = value` line, without its newline.
pub open spec fn kv_line(k: Seq<char>, v: Seq<char>) -> Seq<char> {
    k + kv_sep() + v
}

/// The lines one written field contributes: its `key = value` line, then
/// the remaining lines of a multiline value.
pub open spec fn field_lines(k: Seq<char>, v: Seq<char>) -> Seq<Seq<char>> {
    let segs = split_lines(v);
    seq![kv_line(k, segs[0])] + segs.drop_first()
}

/// The lines a list of written fields contributes.
pub open spec fn fields_lines(fs: Seq<(Seq<char>, Seq<char>)>) -> Seq<Seq<char>>
    decreases fs.len(),
{
    if fs.len() == 0 {
        Seq::<Seq<char>>::empty()
    } else {
        field_lines(fs[0].0, fs[0].1) + fields_lines(fs.drop_first())
    }
}

/// The lines one written section contributes: a blank separator, the
/// header, the `type` line, then the field lines.
pub open spec fn entry_lines(e: SpecEntry) -> Seq<Seq<char>> {
    seq![Seq::<char>::empty(), header_line(e.name), kv_line(type_key(), e.kind)] + fields_lines(
        e.fields,
    )
}

/// The lines the whole written document contributes.
pub open spec fn doc_lines(doc: Seq<SpecEntry>) -> Seq<Seq<char>>
    decreases doc.len(),
{
    if doc.len() == 0 {
        Seq::<Seq<char>>::empty()
    } else {
        entry_lines(doc[0]) + doc_lines(doc.drop_first())
    }
}

// ---------------------------------------------------------------------------
// The written text equals its lines joined
// ---------------------------------------------------------------------------

proof fn lemma_field_lines_join(k: Seq<char>, v: Seq<char>)
    requires
        k != remote_name_key(),
    ensures
        field_lines(k, v).len() >= 1,
        join_lines(field_lines(k, v)) + seq!['\n'] == pair_text(k, v),
{
    broadcast use lemma_split_lines_nonempty;

    lemma_join_split(v);
    let segs = split_lines(v);
    let fl = field_lines(k, v);
    if segs.len() == 1 {
        assert(fl =~= seq![kv_line(k, segs[0])]);
        assert(join_lines(fl) == kv_line(k, segs[0]));
        assert(join_lines(segs) == segs[0]);
        assert(kv_line(k, v) + seq!['\n'] =~= pair_text(k, v));
    } else {
        let rest = segs.drop_first();
        assert(fl[0] == kv_line(k, segs[0]));
        assert(fl.drop_first() =~= rest);
        assert(join_lines(fl) == kv_line(k, segs[0]) + seq!['\n'] + join_lines(rest));
        assert(join_lines(segs) == segs[0] + seq!['\n'] + join_lines(rest));
        assert(v == segs[0] + seq!['\n'] + join_lines(rest));
        assert((k + kv_sep() + segs[0]) + seq!['\n'] + join_lines(rest) + seq!['\n'] =~= k
            + kv_sep() + (segs[0] + seq!['\n'] + join_lines(rest)) + seq!['\n']);
        assert(join_lines(fl) + seq!['\n'] =~= pair_text(k, v));
    }
}

proof fn lemma_fields_lines_join(fs: Seq<(Seq<char>, Seq<char>)>)
    requires
        forall|i: int| 0 <= i < fs.len() ==> (#[trigger] fs[i]).0 != remote_name_key(),
    ensures
        fs.len() == 0 ==> fields_lines(fs).len() == 0,
        fs.len() > 0 ==> fields_lines(fs).len() >= 1,
        fs.len() > 0 ==> join_lines(fields_lines(fs)) + seq!['\n'] == fields_text(fs),
        fs.len() == 0 ==> fields_text(fs) == Seq::<char>::empty(),
    decreases fs.len(),
{
    if fs.len() == 0 {
    } else {
        let f0 = fs[0];
        let rest = fs.drop_first();
        assert(forall|i: int| 0 <= i < rest.len() ==> rest[i] == fs[i + 1]);
        lemma_field_lines_join(f0.0, f0.1);
        lemma_fields_lines_join(rest);
        if rest.len() == 0 {
            assert(fields_lines(rest).len() == 0);
            assert(fields_lines(fs) =~= field_lines(f0.0, f0.1));
            assert(fields_text(fs) == pair_text(f0.0, f0.1) + fields_text(rest));
            assert(pair_text(f0.0, f0.1) + Seq::<char>::empty() =~= pair_text(f0.0, f0.1));
        } else {
            lemma_join_concat(field_lines(f0.0, f0.1), fields_lines(rest));
            assert(join_lines(fields_lines(fs)) == join_lines(field_lines(f0.0, f0.1))
                + seq!['\n'] + join_lines(fields_lines(rest)));
            assert((join_lines(field_lines(f0.0, f0.1)) + seq!['\n'] + join_lines(
                fields_lines(rest),
            )) + seq!['\n'] =~= (join_lines(field_lines(f0.0, f0.1)) + seq!['\n']) + (join_lines(
                fields_lines(rest),
            ) + seq!['\n']));
            assert(fields_text(fs) == pair_text(f0.0, f0.1) + fields_text(rest));
        }
    }
}

#[verifier::rlimit(60)]
proof fn lemma_entry_lines_join(e: SpecEntry)
    requires
        forall|i: int| 0 <= i < e.fields.len() ==> (#[trigger] e.fields[i]).0 != remote_name_key(),
    ensures
        entry_lines(e).len() >= 3,
        join_lines(entry_lines(e)) + seq!['\n'] == sec_text(e.name, e.kind, e.fields),
{
    let head = seq![Seq::<char>::empty(), header_line(e.name), kv_line(type_key(), e.kind)];
    let fl = fields_lines(e.fields);
    lemma_fields_lines_join(e.fields);
    let join_head = Seq::<char>::empty() + seq!['\n'] + header_line(e.name) + seq!['\n']
        + kv_line(type_key(), e.kind);
    assert(head.drop_first() =~= seq![header_line(e.name), kv_line(type_key(), e.kind)]);
    assert(head.drop_first().drop_first() =~= seq![kv_line(type_key(), e.kind)]);
    assert(join_lines(head) == head[0] + seq!['\n'] + join_lines(head.drop_first()));
    assert(join_lines(head.drop_first()) == header_line(e.name) + seq!['\n'] + join_lines(
        head.drop_first().drop_first(),
    ));
    assert(join_lines(head.drop_first().drop_first()) == kv_line(type_key(), e.kind));
    assert(join_lines(head) =~= join_head);
    if e.fields.len() == 0 {
        assert(fl.len() == 0);
        assert(entry_lines(e) =~= head);
        assert(join_lines(entry_lines(e)) + seq!['\n'] =~= sec_text(e.name, e.kind, e.fields));
    } else {
        lemma_join_concat(head, fl);
        assert(entry_lines(e) == head + fl);
        assert(join_lines(entry_lines(e)) == join_lines(head) + seq!['\n'] + join_lines(fl));
        assert((join_lines(head) + seq!['\n'] + join_lines(fl)) + seq!['\n'] =~= (join_lines(head)
            + seq!['\n']) + (join_lines(fl) + seq!['\n']));
        assert(join_lines(entry_lines(e)) + seq!['\n'] =~= sec_text(e.name, e.kind, e.fields));
    }
}

proof fn lemma_doc_lines_join(doc: Seq<SpecEntry>)
    requires
        forall|i: int, j: int|
            0 <= i < doc.len() && 0 <= j < (#[trigger] doc[i]).fields.len() ==> (#[trigger] doc[i].fields[j]).0
                != remote_name_key(),
    ensures
        spec_serialize(doc) == join_lines(doc_lines(doc) + seq![Seq::<char>::empty()]),
    decreases doc.len(),
{
    if doc.len() == 0 {
        assert(doc_lines(doc) + seq![Seq::<char>::empty()] =~= seq![Seq::<char>::empty()]);
        assert(join_lines(seq![Seq::<char>::empty()]) == Seq::<char>::empty());
    } else {
        let e = doc[0];
        let rest = doc.drop_first();
        assert(forall|i: int| 0 <= i < rest.len() ==> rest[i] == doc[i + 1]);
        assert(forall|j: int| 0 <= j < e.fields.len() ==> (#[trigger] e.fields[j]).0
            != remote_name_key());
        lemma_doc_lines_join(rest);
        lemma_entry_lines_join(e);
        let tail = doc_lines(rest) + seq![Seq::<char>::empty()];
        assert(tail.len() >= 1);
        lemma_join_concat(entry_lines(e), tail);
        assert(doc_lines(doc) + seq![Seq::<char>::empty()] =~= entry_lines(e) + tail);
        assert(join_lines(entry_lines(e) + tail) == join_lines(entry_lines(e)) + seq!['\n']
            + join_lines(tail));
        assert(spec_serialize(doc) == sec_text(e.name, e.kind, e.fields) + spec_serialize(rest));
        assert((join_lines(entry_lines(e)) + seq!['\n']) + join_lines(tail) =~= join_lines(
            entry_lines(e),
        ) + seq!['\n'] + join_lines(tail));
    }
}

proof fn lemma_doc_lines_no_newline(doc: Seq<SpecEntry>)
    requires
        wf_document(doc),
    ensures
        forall|i: int| 0 <= i < doc_lines(doc).len() ==> !has_char(#[trigger] doc_lines(doc)[i], '\n'),
    decreases doc.len(),
{
    if doc.len() == 0 {
    } else {
        let e = doc[0];
        let rest = doc.drop_first();
        assert(wf_entry(e));
        assert(forall|i: int| 0 <= i < rest.len() ==> rest[i] == doc[i + 1]);
        lemma_doc_lines_no_newline(rest);
        lemma_entry_lines_no_newline(e);
        let dl = doc_lines(doc);
        assert(dl == entry_lines(e) + doc_lines(rest));
        assert forall|i: int| 0 <= i < dl.len() implies !has_char(#[trigger] dl[i], '\n') by {
            if i < entry_lines(e).len() {
                assert(dl[i] == entry_lines(e)[i]);
            } else {
                assert(dl[i] == doc_lines(rest)[i - entry_lines(e).len()]);
            }
        }
    }
}

proof fn lemma_fields_lines_no_newline(fs: Seq<(Seq<char>, Seq<char>)>)
    requires
        forall|i: int| 0 <= i < fs.len() ==> !has_char((#[trigger] fs[i]).0, '\n'),
    ensures
        forall|i: int|
            0 <= i < fields_lines(fs).len() ==> !has_char(#[trigger] fields_lines(fs)[i], '\n'),
    decreases fs.len(),
{
    broadcast use lemma_split_lines_nonempty;

    if fs.len() == 0 {
    } else {
        let f0 = fs[0];
        let rest = fs.drop_first();
        assert(forall|i: int| 0 <= i < rest.len() ==> rest[i] == fs[i + 1]);
        lemma_fields_lines_no_newline(rest);
        lemma_split_lines_no_newline(f0.1);
        let segs = split_lines(f0.1);
        let fl0 = field_lines(f0.0, f0.1);
        assert(!has_char(segs[0], '\n'));
        assert(!has_char(f0.0, '\n'));
        assert forall|c: int| 0 <= c < kv_line(f0.0, segs[0]).len() implies kv_line(
            f0.0,
            segs[0],
        )[c] != '\n' by {
            let line = kv_line(f0.0, segs[0]);
            if c < f0.0.len() {
                assert(line[c] == f0.0[c]);
            } else if c < f0.0.len() + 3 {
                assert(line[c] == kv_sep()[c - f0.0.len()]);
            } else {
                assert(line[c] == segs[0][c - f0.0.len() - 3]);
            }
        }
        assert(!has_char(kv_line(f0.0, segs[0]), '\n'));
        assert forall|i: int| 0 <= i < fl0.len() implies !has_char(#[trigger] fl0[i], '\n') by {
            if i == 0 {
                assert(fl0[0] == kv_line(f0.0, segs[0]));
            } else {
                assert(fl0[i] == segs[i]);
            }
        }
        let all = fields_lines(fs);
        assert(all == fl0 + fields_lines(rest));
        assert forall|i: int| 0 <= i < all.len() implies !has_char(#[trigger] all[i], '\n') by {
            if i < fl0.len() {
                assert(all[i] == fl0[i]);
            } else {
                assert(all[i] == fields_lines(rest)[i - fl0.len()]);
            }
        }
    }
}

proof fn lemma_entry_lines_no_newline(e: SpecEntry)
    requires
        wf_entry(e),
    ensures
        forall|i: int|
            0 <= i < entry_lines(e).len() ==> !has_char(#[trigger] entry_lines(e)[i], '\n'),
{
    lemma_fields_lines_no_newline(e.fields);
    let el = entry_lines(e);
    let hl = header_line(e.name);
    let tl = kv_line(type_key(), e.kind);
    assert forall|c: int| 0 <= c < hl.len() implies hl[c] != '\n' by {
        if c == 0 {
        } else if c < 1 + e.name.len() {
            assert(hl[c] == e.name[c - 1]);
        } else {
            assert(hl[c] == ']');
        }
    }
    assert(!has_char(hl, '\n'));
    assert forall|c: int| 0 <= c < tl.len() implies tl[c] != '\n' by {
        if c < 4 {
            assert(tl[c] == type_key()[c]);
        } else if c < 7 {
            assert(tl[c] == kv_sep()[c - 4]);
        } else {
            assert(tl[c] == e.kind[c - 7]);
        }
    }
    assert(!has_char(tl, '\n'));
    assert forall|i: int| 0 <= i < el.len() implies !has_char(#[trigger] el[i], '\n') by {
        if i == 0 {
            assert(el[0] =~= Seq::<char>::empty());
            assert(!has_char(el[0], '\n'));
        } else if i == 1 {
            assert(el[1] == hl);
        } else if i == 2 {
            assert(el[2] == tl);
        } else {
            assert(el[i] == fields_lines(e.fields)[i - 3]);
        }
    }
}

// ---------------------------------------------------------------------------
// How the parser reads the written lines back
// ---------------------------------------------------------------------------

/// A written `key = value` line reads back as exactly that key and value.
proof fn lemma_kv_line_props(k: Seq<char>, v: Seq<char>)
    requires
        k.len() > 0,
        spec_trim(k) == k,
        !has_char(k, '='),
        k[0] != '[',
        k[0] != '#',
        k[0] != ';',
        spec_trim(v) == v,
    ensures
        ({
            let t = spec_trim(kv_line(k, v));
            !is_blank(t) && !is_comment(t) && !is_header(t) && is_kv(t) && kv_key(t) == k
                && kv_value(t) == v && t[0] == k[0]
        }),
{
    let line = kv_line(k, v);
    crate::text::lemma_trim_ends(k);
    assert(line[0] == k[0]);
    assert(forall|c: int| 0 <= c < k.len() ==> line[c] == k[c]);
    assert(line[k.len() as int] == ' ');
    assert(line[k.len() as int + 1] == '=');
    assert(line[k.len() as int + 2] == ' ');
    assert(forall|c: int| 0 <= c < v.len() ==> line[k.len() as int + 3 + c] == v[c]);
    if v.len() > 0 {
        crate::text::lemma_trim_ends(v);
        assert(line.last() == v.last());
        lemma_trim_identity(line);
        let t = line;
        assert forall|c: int| 0 <= c < k.len() as int + 1 implies t[c] != '=' by {
            if c < k.len() {
                if t[c] == '=' {
                    assert(has_char(k, '='));
                }
            }
        }
        lemma_find_idx_unique(t, '=', k.len() as int + 1);
        let pre = t.take(k.len() as int + 1);
        assert(pre =~= k + seq![' ']);
        assert(crate::text::trim_start(pre) == pre) by {
            assert(!is_space(pre[0]));
        }
        lemma_trim_end_take(pre, k.len() as int);
        assert(pre.take(k.len() as int) =~= k);
        assert(kv_key(t) == k);
        let post = t.skip(k.len() as int + 2);
        assert(post =~= seq![' '] + v);
        assert(post.drop_first() =~= v);
        assert(crate::text::trim_start(post) == crate::text::trim_start(v));
        assert(crate::text::trim_start(v) == v);
        assert(crate::text::trim_end(v) == v);
        assert(kv_value(t) == v);
        assert(is_kv(t));
        assert(!is_header(t));
        assert(!is_comment(t));
        assert(!is_blank(t));
    } else {
        assert(line =~= k + seq![' ', '=', ' ']);
        assert(crate::text::trim_start(line) == line) by {
            assert(!is_space(line[0]));
        }
        lemma_trim_end_take(line, k.len() as int + 2);
        let t = line.take(k.len() as int + 2);
        assert(t =~= k + seq![' ', '=']);
        assert(spec_trim(line) == t);
        assert(t[k.len() as int + 1] == '=');
        assert forall|c: int| 0 <= c < k.len() as int + 1 implies t[c] != '=' by {
            if c < k.len() {
                if t[c] == '=' {
                    assert(has_char(k, '='));
                }
            }
        }
        lemma_find_idx_unique(t, '=', k.len() as int + 1);
        let pre = t.take(k.len() as int + 1);
        assert(pre =~= k + seq![' ']);
        assert(crate::text::trim_start(pre) == pre) by {
            assert(!is_space(pre[0]));
        }
        lemma_trim_end_take(pre, k.len() as int);
        assert(pre.take(k.len() as int) =~= k);
        assert(kv_key(t) == k);
        let post = t.skip(k.len() as int + 2);
        assert(post =~= Seq::<char>::empty());
        assert(kv_value(t) =~= v);
        assert(is_kv(t));
        assert(t[0] == k[0]);
        assert(!is_header(t));
        assert(!is_comment(t));
        assert(!is_blank(t));
    }
}

/// A written header line reads back as a header for exactly its name.
proof fn lemma_header_line_props(name: Seq<char>)
    ensures
        spec_trim(header_line(name)) == header_line(name),
        is_header(header_line(name)),
        header_name(header_line(name)) == name,
        !is_blank(header_line(name)),
        !is_comment(header_line(name)),
        header_line(name)[0] == '[',
{
    let hl = header_line(name);
    assert(hl[0] == '[');
    assert(hl.last() == ']');
    lemma_trim_identity(hl);
    assert(header_name(hl) =~= name);
}

/// `type` is not itself a multiline-capable key.
proof fn lemma_type_key_not_pem()
    ensures
        !is_pem_key(type_key()),
        type_key().len() > 0,
        spec_trim(type_key()) == type_key(),
        !has_char(type_key(), '='),
        type_key()[0] == 't',
{
    assert(type_key().len() == 4);
    assert(key_pem_key().len() == 7);
    assert(pubkey_key().len() == 6);
    lemma_trim_identity(type_key());
    if has_char(type_key(), '=') {
        let w = choose|i: int| 0 <= i < type_key().len() && type_key()[i] == '=';
        assert(false);
    }
}

/// Stepping the parser over the continuation lines of a multiline value
/// appends them all, newline-joined, to the open block.
proof fn lemma_parse_seg_lines(
    segs: Seq<Seq<char>>,
    rest: Seq<Seq<char>>,
    cur: Option<SpecEntry>,
    k: Seq<char>,
    acc: Seq<char>,
)
    requires
        segs.len() >= 1,
        forall|i: int| 0 <= i < segs.len() ==> seg_ok(#[trigger] segs[i]),
    ensures
        parse_lines(segs + rest, cur, Some((k, acc))) == parse_lines(
            rest,
            cur,
            Some((k, acc + seq!['\n'] + join_lines(segs))),
        ),
    decreases segs.len(),
{
    let all = segs + rest;
    let s0 = segs[0];
    assert(seg_ok(s0));
    assert(all[0] == s0);
    assert(all.drop_first() =~= segs.drop_first() + rest);
    assert(spec_trim(s0) == s0);
    let step = parse_step(s0, cur, Some((k, acc)));
    assert(step.0 =~= Seq::<SpecEntry>::empty());
    assert(step.1 == cur);
    assert(step.2 == Some((k, acc + seq!['\n'] + s0)));
    assert(parse_lines(all, cur, Some((k, acc))) == step.0 + parse_lines(
        all.drop_first(),
        step.1,
        step.2,
    ));
    assert(Seq::<SpecEntry>::empty() + parse_lines(all.drop_first(), step.1, step.2)
        =~= parse_lines(all.drop_first(), step.1, step.2));
    if segs.len() == 1 {
        assert(segs.drop_first() + rest =~= rest);
        assert(segs =~= seq![s0]);
        assert(join_lines(seq![s0]) == s0);
    } else {
        let acc2 = acc + seq!['\n'] + s0;
        assert(forall|i: int|
            0 <= i < segs.drop_first().len() ==> segs.drop_first()[i] == segs[i + 1]);
        lemma_parse_seg_lines(segs.drop_first(), rest, cur, k, acc2);
        assert(join_lines(segs) == s0 + seq!['\n'] + join_lines(segs.drop_first()));
        assert((acc + seq!['\n'] + s0) + seq!['\n'] + join_lines(segs.drop_first()) =~= acc
            + seq!['\n'] + join_lines(segs));
    }
}

/// The first line of a multiline value starts with the PEM marker.
proof fn lemma_first_seg_pem(v: Seq<char>)
    requires
        starts_pem(v),
    ensures
        starts_pem(split_lines(v)[0]),
{
    broadcast use lemma_split_lines_nonempty;

    lemma_join_split(v);
    let segs = split_lines(v);
    let s0 = segs[0];
    assert(forall|c: int| 0 <= c < pem_marker().len() ==> pem_marker()[c] != '\n');
    if segs.len() == 1 {
        assert(v == s0);
    } else {
        assert(join_lines(segs) == s0 + seq!['\n'] + join_lines(segs.drop_first()));
        assert(v == s0 + seq!['\n'] + join_lines(segs.drop_first()));
        if s0.len() < pem_marker().len() {
            assert(v[s0.len() as int] == '\n');
            assert(v.subrange(0, pem_marker().len() as int)[s0.len() as int] == '\n');
            assert(pem_marker()[s0.len() as int] == '\n');
            assert(false);
        }
        assert(s0.subrange(0, pem_marker().len() as int) =~= v.subrange(
            0,
            pem_marker().len() as int,
        ));
    }
}

/// Whether the last field of a list opens a multiline block when written.
pub open spec fn pem_last(fs: Seq<(Seq<char>, Seq<char>)>) -> bool {
    fs.len() > 0 && is_ml_field(fs.last().0, fs.last().1)
}

/// Stepping the parser over the written field lines loads every field
/// into the open section; a multiline value in the last field is still
/// open as a block afterwards, holding the whole value.
proof fn lemma_parse_fields_lines(
    fs: Seq<(Seq<char>, Seq<char>)>,
    rest: Seq<Seq<char>>,
    name: Seq<char>,
    kind: Seq<char>,
    acc: Seq<(Seq<char>, Seq<char>)>,
)
    requires
        forall|i: int| 0 <= i < fs.len() ==> key_ok((#[trigger] fs[i]).0),
        forall|i: int|
            0 <= i < fs.len() - 1 ==> simple_value_ok((#[trigger] fs[i]).0, fs[i].1),
        fs.len() > 0 ==> (simple_value_ok(fs.last().0, fs.last().1) || pem_value_ok(
            fs.last().0,
            fs.last().1,
        )),
        forall|i: int, j: int|
            0 <= i < j < fs.len() ==> (#[trigger] fs[i]).0 != (#[trigger] fs[j]).0,
        forall|i: int, j: int|
            0 <= i < fs.len() && 0 <= j < acc.len() ==> (#[trigger] acc[j]).0 != (
            #[trigger] fs[i]).0,
    ensures
        parse_lines(
            fields_lines(fs) + rest,
            Some(SpecEntry { name: name, kind: kind, fields: acc }),
            None,
        ) == if pem_last(fs) {
            parse_lines(
                rest,
                Some(SpecEntry { name: name, kind: kind, fields: acc + fs.drop_last() }),
                Some((fs.last().0, fs.last().1)),
            )
        } else {
            parse_lines(
                rest,
                Some(SpecEntry { name: name, kind: kind, fields: acc + fs }),
                None,
            )
        },
    decreases fs.len(),
{
    let cur = Some(SpecEntry { name: name, kind: kind, fields: acc });
    if fs.len() == 0 {
        assert(fields_lines(fs) + rest =~= rest);
        assert(acc + fs =~= acc);
        assert(SpecEntry { name: name, kind: kind, fields: acc + fs } =~= SpecEntry {
            name: name,
            kind: kind,
            fields: acc,
        });
    } else {
        let f0 = fs[0];
        let rest_f = fs.drop_first();
        assert(forall|i: int| 0 <= i < rest_f.len() ==> rest_f[i] == fs[i + 1]);
        assert(key_ok(f0.0));
        let segs = split_lines(f0.1);
        let l0 = kv_line(f0.0, segs[0]);
        let all = fields_lines(fs) + rest;
        assert(fields_lines(fs) == field_lines(f0.0, f0.1) + fields_lines(rest_f));
        if fs.len() > 1 || simple_value_ok(f0.0, f0.1) {
            // a single-line field
            assert(simple_value_ok(f0.0, f0.1));
            crate::text::lemma_split_single(f0.1);
            assert(segs == seq![f0.1]);
            assert(segs[0] == f0.1);
            assert(segs.drop_first() =~= Seq::<Seq<char>>::empty());
            assert(field_lines(f0.0, f0.1) =~= seq![l0]);
            assert(all[0] == l0);
            assert(all.drop_first() =~= fields_lines(rest_f) + rest);
            lemma_kv_line_props(f0.0, f0.1);
            let t = spec_trim(l0);
            let step = parse_step(t, cur, None);
            assert(step == parse_step_normal(t, cur));
            assert(!(is_pem_key(f0.0) && starts_pem(f0.1)));
            assert(f0.0 != type_key());
            crate::config::lemma_upsert_push(acc, f0.0, f0.1);
            assert(acc.push((f0.0, f0.1)) =~= acc.push(f0));
            assert(step.0 =~= Seq::<SpecEntry>::empty());
            assert(step.1 == Some(
                SpecEntry { name: name, kind: kind, fields: acc.push(f0) },
            ));
            assert(step.2 is None);
            assert(parse_lines(all, cur, None) == step.0 + parse_lines(
                all.drop_first(),
                step.1,
                step.2,
            ));
            assert(Seq::<SpecEntry>::empty() + parse_lines(all.drop_first(), step.1, step.2)
                =~= parse_lines(all.drop_first(), step.1, step.2));
            lemma_parse_fields_lines(rest_f, rest, name, kind, acc.push(f0));
            if rest_f.len() == 0 {
                assert(!pem_last(fs));
                assert(acc.push(f0) + rest_f =~= acc + fs);
                assert(SpecEntry { name: name, kind: kind, fields: acc.push(f0) + rest_f }
                    =~= SpecEntry { name: name, kind: kind, fields: acc + fs });
            } else {
                assert(fs.last() == rest_f.last());
                assert(pem_last(fs) == pem_last(rest_f));
                if pem_last(rest_f) {
                    assert(acc.push(f0) + rest_f.drop_last() =~= acc + fs.drop_last());
                    assert(SpecEntry {
                        name: name,
                        kind: kind,
                        fields: acc.push(f0) + rest_f.drop_last(),
                    } =~= SpecEntry { name: name, kind: kind, fields: acc + fs.drop_last() });
                } else {
                    assert(acc.push(f0) + rest_f =~= acc + fs);
                    assert(SpecEntry { name: name, kind: kind, fields: acc.push(f0) + rest_f }
                        =~= SpecEntry { name: name, kind: kind, fields: acc + fs });
                }
            }
        } else {
            // the single field carries a multiline value
            assert(fs.len() == 1);
            assert(pem_value_ok(f0.0, f0.1));
            assert(fs.last() == f0);
            assert(pem_last(fs));
            lemma_first_seg_pem(f0.1);
            assert(seg_ok(segs[0]));
            lemma_kv_line_props(f0.0, segs[0]);
            let t = spec_trim(l0);
            let step = parse_step(t, cur, None);
            assert(step == parse_step_normal(t, cur));
            assert(is_pem_key(f0.0) && starts_pem(segs[0]));
            assert(step.0 =~= Seq::<SpecEntry>::empty());
            assert(step.1 == cur);
            assert(step.2 == Some((f0.0, segs[0])));
            assert(all[0] == l0);
            assert(fields_lines(rest_f) =~= Seq::<Seq<char>>::empty());
            assert(field_lines(f0.0, f0.1) + fields_lines(rest_f) =~= field_lines(f0.0, f0.1));
            assert(all.drop_first() =~= segs.drop_first() + rest);
            assert(parse_lines(all, cur, None) == step.0 + parse_lines(
                all.drop_first(),
                step.1,
                step.2,
            ));
            assert(Seq::<SpecEntry>::empty() + parse_lines(all.drop_first(), step.1, step.2)
                =~= parse_lines(all.drop_first(), step.1, step.2));
            lemma_join_split(f0.1);
            if segs.len() == 1 {
                assert(segs.drop_first() + rest =~= rest);
                assert(join_lines(segs) == segs[0]);
                assert(segs[0] == f0.1);
            } else {
                assert(forall|i: int|
                    0 <= i < segs.drop_first().len() ==> segs.drop_first()[i] == segs[i + 1]);
                lemma_parse_seg_lines(segs.drop_first(), rest, cur, f0.0, segs[0]);
                assert(join_lines(segs) == segs[0] + seq!['\n'] + join_lines(segs.drop_first()));
                assert(segs[0] + seq!['\n'] + join_lines(segs.drop_first()) =~= f0.1);
            }
            assert(acc + fs.drop_last() =~= acc);
            assert(SpecEntry { name: name, kind: kind, fields: acc + fs.drop_last() }
                =~= SpecEntry { name: name, kind: kind, fields: acc });
        }
    }
}

/// The open section and multiline block left after the parser has read
/// one written entry: the full entry, with a trailing multiline value
/// still open as a block.
pub open spec fn end_cur(e: SpecEntry) -> Option<SpecEntry> {
    if pem_last(e.fields) {
        Some(SpecEntry { name: e.name, kind: e.kind, fields: e.fields.drop_last() })
    } else {
        Some(SpecEntry { name: e.name, kind: e.kind, fields: e.fields })
    }
}

/// The multiline block still open after one written entry, if any.
pub open spec fn end_ml(e: SpecEntry) -> Option<(Seq<char>, Seq<char>)> {
    if pem_last(e.fields) {
        Some((e.fields.last().0, e.fields.last().1))
    } else {
        None
    }
}

/// Stepping the parser over one written entry commits whatever section
/// was open before it and loads the entry.
#[verifier::rlimit(60)]
proof fn lemma_parse_entry_lines(
    e: SpecEntry,
    rest: Seq<Seq<char>>,
    cur: Option<SpecEntry>,
    ml: Option<(Seq<char>, Seq<char>)>,
)
    requires
        wf_entry(e),
    ensures
        parse_lines(entry_lines(e) + rest, cur, ml) == commit(flush_opt(cur, ml)) + parse_lines(
            rest,
            end_cur(e),
            end_ml(e),
        ),
{
    let el = entry_lines(e);
    let all = el + rest;
    let hl = header_line(e.name);
    let tl = kv_line(type_key(), e.kind);
    assert(all[0] =~= Seq::<char>::empty());
    assert(spec_trim(Seq::<char>::empty()) =~= Seq::<char>::empty());
    // line 1: the blank separator is skipped in either mode
    let step0 = parse_step(Seq::<char>::empty(), cur, ml);
    assert(is_blank(Seq::<char>::empty()));
    assert(step0.0 =~= Seq::<SpecEntry>::empty());
    assert(step0.1 == cur);
    assert(step0.2 == ml);
    let all1 = all.drop_first();
    assert(all1 =~= seq![hl, tl] + fields_lines(e.fields) + rest);
    assert(parse_lines(all, cur, ml) == step0.0 + parse_lines(all1, cur, ml));
    assert(Seq::<SpecEntry>::empty() + parse_lines(all1, cur, ml) =~= parse_lines(
        all1,
        cur,
        ml,
    ));
    // line 2: the header commits the previous section and opens this one
    lemma_header_line_props(e.name);
    assert(all1[0] == hl);
    let flushed = flush_opt(cur, ml);
    let stepn = parse_step_normal(hl, flushed);
    let step1 = parse_step(spec_trim(all1[0]), cur, ml);
    match ml {
        None => {
            assert(step1 == stepn);
        },
        Some((k, acc)) => {
            assert(hl[0] == '[');
            assert(step1 == parse_step_normal(hl, flush_ml_entry(cur, k, acc)));
        },
    }
    let opened = Some(
        SpecEntry {
            name: e.name,
            kind: Seq::<char>::empty(),
            fields: Seq::<(Seq<char>, Seq<char>)>::empty(),
        },
    );
    assert(stepn.0 == commit(flushed));
    assert(stepn.1 == opened);
    assert(stepn.2 is None);
    let all2 = all1.drop_first();
    assert(all2 =~= seq![tl] + fields_lines(e.fields) + rest);
    assert(parse_lines(all1, cur, ml) == commit(flushed) + parse_lines(all2, opened, None));
    // line 3: the type line fills in the kind
    lemma_type_key_not_pem();
    lemma_kv_line_props(type_key(), e.kind);
    assert(all2[0] == tl);
    let step2 = parse_step(spec_trim(tl), opened, None);
    assert(!(is_pem_key(type_key()) && starts_pem(e.kind)));
    let loaded = Some(
        SpecEntry {
            name: e.name,
            kind: e.kind,
            fields: Seq::<(Seq<char>, Seq<char>)>::empty(),
        },
    );
    assert(step2.0 =~= Seq::<SpecEntry>::empty());
    assert(step2.1 == loaded);
    assert(step2.2 is None);
    let all3 = all2.drop_first();
    assert(all3 =~= fields_lines(e.fields) + rest);
    assert(parse_lines(all2, opened, None) == step2.0 + parse_lines(all3, loaded, None));
    assert(Seq::<SpecEntry>::empty() + parse_lines(all3, loaded, None) =~= parse_lines(
        all3,
        loaded,
        None,
    ));
    // the field lines load every field
    lemma_parse_fields_lines(
        e.fields,
        rest,
        e.name,
        e.kind,
        Seq::<(Seq<char>, Seq<char>)>::empty(),
    );
    if pem_last(e.fields) {
        assert(Seq::<(Seq<char>, Seq<char>)>::empty() + e.fields.drop_last()
            =~= e.fields.drop_last());
        assert(SpecEntry {
            name: e.name,
            kind: e.kind,
            fields: Seq::<(Seq<char>, Seq<char>)>::empty() + e.fields.drop_last(),
        } =~= SpecEntry { name: e.name, kind: e.kind, fields: e.fields.drop_last() });
    } else {
        assert(Seq::<(Seq<char>, Seq<char>)>::empty() + e.fields =~= e.fields);
        assert(SpecEntry {
            name: e.name,
            kind: e.kind,
            fields: Seq::<(Seq<char>, Seq<char>)>::empty() + e.fields,
        } =~= SpecEntry { name: e.name, kind: e.kind, fields: e.fields });
    }
}

/// Stepping the parser over the whole written document emits exactly its
/// entries, after committing whatever was open before.
proof fn lemma_parse_doc_lines(
    doc: Seq<SpecEntry>,
    cur: Option<SpecEntry>,
    ml: Option<(Seq<char>, Seq<char>)>,
)
    requires
        wf_document(doc),
    ensures
        parse_lines(doc_lines(doc) + seq![Seq::<char>::empty()], cur, ml) == commit(
            flush_opt(cur, ml),
        ) + doc,
    decreases doc.len(),
{
    let all = doc_lines(doc) + seq![Seq::<char>::empty()];
    if doc.len() == 0 {
        assert(all =~= seq![Seq::<char>::empty()]);
        assert(spec_trim(Seq::<char>::empty()) =~= Seq::<char>::empty());
        let step = parse_step(Seq::<char>::empty(), cur, ml);
        assert(is_blank(Seq::<char>::empty()));
        assert(step.0 =~= Seq::<SpecEntry>::empty());
        assert(step.1 == cur);
        assert(step.2 == ml);
        assert(all.drop_first() =~= Seq::<Seq<char>>::empty());
        assert(parse_lines(all, cur, ml) == step.0 + parse_lines(all.drop_first(), cur, ml));
        assert(parse_lines(all.drop_first(), cur, ml) == commit(flush_opt(cur, ml)));
        assert(Seq::<SpecEntry>::empty() + commit(flush_opt(cur, ml)) =~= commit(
            flush_opt(cur, ml),
        ));
        assert(commit(flush_opt(cur, ml)) + doc =~= commit(flush_opt(cur, ml)));
    } else {
        let e = doc[0];
        let rest = doc.drop_first();
        assert(wf_entry(e));
        assert(forall|i: int| 0 <= i < rest.len() ==> rest[i] == doc[i + 1]);
        let tail = doc_lines(rest) + seq![Seq::<char>::empty()];
        assert(all =~= entry_lines(e) + tail);
        lemma_parse_entry_lines(e, tail, cur, ml);
        lemma_parse_doc_lines(rest, end_cur(e), end_ml(e));
        let full = Some(SpecEntry { name: e.name, kind: e.kind, fields: e.fields });
        if pem_last(e.fields) {
            let lastf = e.fields.last();
            assert(forall|j: int|
                0 <= j < e.fields.drop_last().len() ==> e.fields.drop_last()[j] == e.fields[j]);
            assert forall|j: int|
                0 <= j < e.fields.drop_last().len() implies (#[trigger] e.fields.drop_last()[j]).0
                != lastf.0 by {
                assert(e.fields[j].0 != e.fields[e.fields.len() - 1].0);
            }
            crate::config::lemma_upsert_push(e.fields.drop_last(), lastf.0, lastf.1);
            assert(e.fields.drop_last().push((lastf.0, lastf.1)) =~= e.fields);
            assert(flush_opt(end_cur(e), end_ml(e)) == Some(
                SpecEntry {
                    name: e.name,
                    kind: e.kind,
                    fields: upsert(e.fields.drop_last(), lastf.0, lastf.1),
                },
            ));
            assert(flush_opt(end_cur(e), end_ml(e))->Some_0 =~= full->Some_0);
            assert(flush_opt(end_cur(e), end_ml(e)) == full);
        } else {
            assert(flush_opt(end_cur(e), end_ml(e)) == full);
        }
        assert(e.name.len() > 0 && e.kind.len() > 0);
        assert(full->Some_0 =~= e);
        assert(commit(full) =~= seq![e]);
        assert(parse_lines(tail, end_cur(e), end_ml(e)) == commit(
            flush_opt(end_cur(e), end_ml(e)),
        ) + rest);
        assert(commit(flush_opt(end_cur(e), end_ml(e))) =~= seq![e]);
        assert(parse_lines(all, cur, ml) == commit(flush_opt(cur, ml)) + (seq![e] + rest));
        assert(commit(flush_opt(cur, ml)) + (seq![e] + rest) =~= commit(flush_opt(cur, ml))
            + doc);
    }
}

/// Law: writing a well-formed document out and parsing the text back
/// yields exactly the document's entries, names, kinds and fields alike.
pub proof fn lemma_parse_serialize_round_trip(doc: Seq<SpecEntry>)
    requires
        wf_document(doc),
    ensures
        spec_parse(spec_serialize(doc)) == doc,
{
    assert forall|i: int, j: int|
        0 <= i < doc.len() && 0 <= j < (#[trigger] doc[i]).fields.len() implies (
    #[trigger] doc[i].fields[j]).0 != remote_name_key() by {
        assert(wf_entry(doc[i]));
        assert(key_ok(doc[i].fields[j].0));
    }
    lemma_doc_lines_join(doc);
    lemma_doc_lines_no_newline(doc);
    let all = doc_lines(doc) + seq![Seq::<char>::empty()];
    assert(all.len() >= 1);
    assert forall|i: int| 0 <= i < all.len() implies !has_char(#[trigger] all[i], '\n') by {
        if i < doc_lines(doc).len() {
            assert(all[i] == doc_lines(doc)[i]);
        } else {
            assert(all[i] =~= Seq::<char>::empty());
        }
    }
    lemma_split_join(all);
    assert(split_lines(spec_serialize(doc)) == all);
    lemma_parse_doc_lines(doc, None, None);
    assert(commit(flush_opt(None, None)) =~= Seq::<SpecEntry>::empty());
    assert(Seq::<SpecEntry>::empty() + doc =~= doc);
}

} // verus!
