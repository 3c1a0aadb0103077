//! The configuration store: a lenient parser and writer for the INI-like
//! text that holds one `[name]` section per remote. Lines inside a section
//! are `key = value` pairs; `#` and `;` open comments; the keys `key_pem`
//! and `pubkey` may carry multiline PEM-style values whose continuation
//! lines run until the next section header or the end of the text.

use vstd::prelude::*;

use crate::text::find_idx;
use crate::text::has_char;
use crate::text::join_lines;
use crate::text::lines_view;
use crate::text::spec_trim;
use crate::text::split_lines;

verus! {

/// Mathematical model of one remote entry: its section name, its remote
/// type, and the remaining key/value pairs in the order first seen.
#[verifier::ext_equal]
pub struct SpecEntry {
    pub name: Seq<char>,
    pub kind: Seq<char>,
    pub fields: Seq<(Seq<char>, Seq<char>)>,
}

/// The key that names a section's remote type.
pub open spec fn type_key() -> Seq<char> {
    seq!['t', 'y', 'p', 'e']
}

/// One of the two keys whose values may span several lines.
pub open spec fn key_pem_key() -> Seq<char> {
    seq!['k', 'e', 'y', '_', 'p', 'e', 'm']
}

/// The other key whose values may span several lines.
pub open spec fn pubkey_key() -> Seq<char> {
    seq!['p', 'u', 'b', 'k', 'e', 'y']
}

/// The marker that opens a PEM-style multiline value.
pub open spec fn pem_marker() -> Seq<char> {
    seq!['-', '-', '-', '-', '-', 'B', 'E', 'G', 'I', 'N', ' ']
}

/// The synthetic field that names a new remote; it is never written into
/// a section body.
pub open spec fn remote_name_key() -> Seq<char> {
    seq!['r', 'e', 'm', 'o', 't', 'e', '_', 'n', 'a', 'm', 'e']
}

/// Whether `k` is a key whose value may span several lines.
pub open spec fn is_pem_key(k: Seq<char>) -> bool {
    k == key_pem_key() || k == pubkey_key()
}

/// Whether a value opens a PEM-style multiline block.
pub open spec fn starts_pem(v: Seq<char>) -> bool {
    v.len() >= pem_marker().len() && v.subrange(0, pem_marker().len() as int) == pem_marker()
}

/// Whether a trimmed line is blank.
pub open spec fn is_blank(t: Seq<char>) -> bool {
    t.len() == 0
}

/// Whether a trimmed line is a comment.
pub open spec fn is_comment(t: Seq<char>) -> bool {
    t.len() > 0 && (t[0] == '#' || t[0] == ';')
}

/// Whether a trimmed line is a section header `[name]`.
pub open spec fn is_header(t: Seq<char>) -> bool {
    t.len() >= 2 && t[0] == '[' && t.last() == ']'
}

/// The name between the brackets of a header line.
pub open spec fn header_name(t: Seq<char>) -> Seq<char> {
    t.subrange(1, t.len() as int - 1)
}

/// Whether a trimmed line carries a `key = value` pair.
pub open spec fn is_kv(t: Seq<char>) -> bool {
    has_char(t, '=')
}

/// The key of a `key = value` line: the trimmed text before the first `=`.
pub open spec fn kv_key(t: Seq<char>) -> Seq<char> {
    spec_trim(t.take(find_idx(t, '=')))
}

/// The value of a `key = value` line: the trimmed text after the first `=`.
pub open spec fn kv_value(t: Seq<char>) -> Seq<char> {
    spec_trim(t.skip(find_idx(t, '=') + 1))
}

/// Inserts or overwrites the pair for key `k`, keeping the position of an
/// existing key and appending a new one at the end.
pub open spec fn upsert(
    fields: Seq<(Seq<char>, Seq<char>)>,
    k: Seq<char>,
    v: Seq<char>,
) -> Seq<(Seq<char>, Seq<char>)>
    decreases fields.len(),
{
    if fields.len() == 0 {
        seq![(k, v)]
    } else if fields[0].0 == k {
        seq![(k, v)] + fields.drop_first()
    } else {
        seq![fields[0]] + upsert(fields.drop_first(), k, v)
    }
}

/// Whether some pair in `fields` has key `k`.
pub open spec fn has_key(fields: Seq<(Seq<char>, Seq<char>)>, k: Seq<char>) -> bool {
    exists|i: int| 0 <= i < fields.len() && fields[i].0 == k
}

/// The value of the first pair with key `k`, or the empty sequence.
pub open spec fn lookup(fields: Seq<(Seq<char>, Seq<char>)>, k: Seq<char>) -> Seq<char>
    decreases fields.len(),
{
    if fields.len() == 0 {
        Seq::<char>::empty()
    } else if fields[0].0 == k {
        fields[0].1
    } else {
        lookup(fields.drop_first(), k)
    }
}

// ---------------------------------------------------------------------------
// Section deletion
// ---------------------------------------------------------------------------

/// The lines that survive deleting section `name`. A header line for
/// `name` is dropped and switches deletion on; any other header switches
/// it off; non-header lines are dropped exactly while deletion is on.
/// Every surviving line is kept verbatim, in its original order.
pub open spec fn delete_lines(lines: Seq<Seq<char>>, name: Seq<char>, active: bool) -> Seq<
    Seq<char>,
>
    decreases lines.len(),
{
    if lines.len() == 0 {
        Seq::<Seq<char>>::empty()
    } else {
        let t = spec_trim(lines[0]);
        let rest = lines.drop_first();
        if is_header(t) {
            if header_name(t) == name {
                delete_lines(rest, name, true)
            } else {
                seq![lines[0]] + delete_lines(rest, name, false)
            }
        } else if active {
            delete_lines(rest, name, true)
        } else {
            seq![lines[0]] + delete_lines(rest, name, false)
        }
    }
}

/// The text after deleting section `name`: its header line and every line
/// up to the next header or the end are removed; all other lines are
/// joined back unchanged.
pub open spec fn spec_delete(text: Seq<char>, name: Seq<char>) -> Seq<char> {
    join_lines(delete_lines(split_lines(text), name, false))
}

/// Whether any line of the text is a header for section `name`.
pub open spec fn spec_has_section(text: Seq<char>, name: Seq<char>) -> bool {
    exists|i: int|
        0 <= i < split_lines(text).len() && is_header(spec_trim(#[trigger] split_lines(text)[i]))
            && header_name(spec_trim(split_lines(text)[i])) == name
}

/// Whether a trimmed line is a header, checked on characters.
pub(crate) fn is_header_vec(t: &Vec<char>) -> (r: bool)
    ensures
        r == is_header(t@),
{
    t.len() >= 2 && t[0] == '[' && t[t.len() - 1] == ']'
}

/// The name between the brackets of a header line.
pub(crate) fn header_name_vec(t: &Vec<char>) -> (r: Vec<char>)
    requires
        is_header(t@),
    ensures
        r@ == header_name(t@),
{
    crate::text::subrange_vec(t, 1, t.len() - 1)
}

/// A fresh copy of a line of characters.
pub(crate) fn copy_line(v: &Vec<char>) -> (r: Vec<char>)
    ensures
        r@ == v@,
{
    crate::text::subrange_vec(v, 0, v.len())
}

/// Removes the section named `name` from the configuration text: its
/// header line and every following line up to (but not including) the next
/// section header or the end of the text. All other lines, blank lines and
/// comments included, are kept verbatim in their original order; when no
/// such section exists the text's lines are all kept.
pub fn delete_section(text: &str, name: &str) -> (r: String)
    ensures
        r@ == spec_delete(text@, name@),
{
    let chars = crate::text::str_to_chars(text);
    let name_c = crate::text::str_to_chars(name);
    let lines = crate::text::split_vec(&chars);
    let ghost lv = lines_view(lines@);
    let mut kept: Vec<Vec<char>> = Vec::new();
    let mut active = false;
    let mut i: usize = 0;
    proof {
        assert(lv.skip(0) =~= lv);
        assert(lines_view(kept@) =~= Seq::<Seq<char>>::empty());
        assert(lines_view(kept@) + delete_lines(lv, name@, false) =~= delete_lines(
            lv,
            name@,
            false,
        ));
    }
    while i < lines.len()
        invariant
            i <= lines@.len(),
            lv == lines_view(lines@),
            lv == split_lines(text@),
            name_c@ == name@,
            delete_lines(lv, name@, false) == lines_view(kept@) + delete_lines(
                lv.skip(i as int),
                name@,
                active,
            ),
        decreases lines@.len() - i,
    {
        let t = crate::text::trim_vec(&lines[i]);
        proof {
            assert(lv.skip(i as int)[0] == lv[i as int]);
            assert(lv.skip(i as int).drop_first() =~= lv.skip(i as int + 1));
        }
        let ghost pre_kept = lines_view(kept@);
        if is_header_vec(&t) {
            let hn = header_name_vec(&t);
            if crate::text::vec_eq(&hn, &name_c) {
                active = true;
            } else {
                kept.push(copy_line(&lines[i]));
                active = false;
                proof {
                    assert(lines_view(kept@) =~= pre_kept + seq![lv[i as int]]);
                    assert(pre_kept + (seq![lv[i as int]] + delete_lines(
                        lv.skip(i as int + 1),
                        name@,
                        false,
                    )) =~= lines_view(kept@) + delete_lines(lv.skip(i as int + 1), name@, false));
                }
            }
        } else if active {
        } else {
            kept.push(copy_line(&lines[i]));
            proof {
                assert(lines_view(kept@) =~= pre_kept + seq![lv[i as int]]);
                assert(pre_kept + (seq![lv[i as int]] + delete_lines(
                    lv.skip(i as int + 1),
                    name@,
                    false,
                )) =~= lines_view(kept@) + delete_lines(lv.skip(i as int + 1), name@, false));
            }
        }
        i = i + 1;
    }
    proof {
        assert(lv.skip(lv.len() as int) =~= Seq::<Seq<char>>::empty());
        assert(lines_view(kept@) + Seq::<Seq<char>>::empty() =~= lines_view(kept@));
    }
    let joined = crate::text::join_vec(&kept);
    crate::text::chars_to_string(&joined)
}

/// No surviving line is a header for the deleted section.
proof fn lemma_delete_no_target(lines: Seq<Seq<char>>, name: Seq<char>, active: bool)
    ensures
        forall|i: int|
            0 <= i < delete_lines(lines, name, active).len() ==> !(is_header(
                spec_trim(#[trigger] delete_lines(lines, name, active)[i]),
            ) && header_name(spec_trim(delete_lines(lines, name, active)[i])) == name),
    decreases lines.len(),
{
    if lines.len() == 0 {
    } else {
        let t = spec_trim(lines[0]);
        let rest = lines.drop_first();
        if is_header(t) && header_name(t) == name {
            lemma_delete_no_target(rest, name, true);
            assert(delete_lines(lines, name, active) == delete_lines(rest, name, true));
        } else if !is_header(t) && active {
            lemma_delete_no_target(rest, name, true);
            assert(delete_lines(lines, name, active) == delete_lines(rest, name, true));
        } else {
            lemma_delete_no_target(rest, name, false);
            let r = delete_lines(lines, name, active);
            let rr = delete_lines(rest, name, false);
            assert(r == seq![lines[0]] + rr);
            assert forall|i: int|
                0 <= i < r.len() implies !(is_header(spec_trim(#[trigger] r[i])) && header_name(
                spec_trim(r[i]),
            ) == name) by {
                if i == 0 {
                    assert(r[0] == lines[0]);
                } else {
                    assert(r[i] == rr[i - 1]);
                }
            }
        }
    }
}

/// Deleting is a no-op on lines that hold no header for `name`.
proof fn lemma_delete_noop(lines: Seq<Seq<char>>, name: Seq<char>)
    requires
        forall|i: int|
            0 <= i < lines.len() ==> !(is_header(spec_trim(#[trigger] lines[i])) && header_name(
                spec_trim(lines[i]),
            ) == name),
    ensures
        delete_lines(lines, name, false) == lines,
    decreases lines.len(),
{
    if lines.len() == 0 {
        assert(delete_lines(lines, name, false) =~= lines);
    } else {
        let rest = lines.drop_first();
        assert(forall|i: int| 0 <= i < rest.len() ==> rest[i] == lines[i + 1]);
        lemma_delete_noop(rest, name);
        assert(seq![lines[0]] + rest =~= lines);
    }
}

/// Every surviving line is newline-free when the input lines are.
proof fn lemma_delete_no_newline(lines: Seq<Seq<char>>, name: Seq<char>, active: bool)
    requires
        forall|i: int| 0 <= i < lines.len() ==> !has_char(#[trigger] lines[i], '\n'),
    ensures
        forall|i: int|
            0 <= i < delete_lines(lines, name, active).len() ==> !has_char(
                #[trigger] delete_lines(lines, name, active)[i],
                '\n',
            ),
    decreases lines.len(),
{
    if lines.len() == 0 {
    } else {
        let t = spec_trim(lines[0]);
        let rest = lines.drop_first();
        assert(forall|i: int| 0 <= i < rest.len() ==> rest[i] == lines[i + 1]);
        if is_header(t) && header_name(t) == name {
            lemma_delete_no_newline(rest, name, true);
            assert(delete_lines(lines, name, active) == delete_lines(rest, name, true));
        } else if !is_header(t) && active {
            lemma_delete_no_newline(rest, name, true);
            assert(delete_lines(lines, name, active) == delete_lines(rest, name, true));
        } else {
            lemma_delete_no_newline(rest, name, false);
            let r = delete_lines(lines, name, active);
            let rr = delete_lines(rest, name, false);
            assert(r == seq![lines[0]] + rr);
            assert forall|i: int| 0 <= i < r.len() implies !has_char(#[trigger] r[i], '\n') by {
                if i == 0 {
                    assert(r[0] == lines[0]);
                } else {
                    assert(r[i] == rr[i - 1]);
                }
            }
        }
    }
}

/// Law: deleting a section twice gives the same text as deleting it once.
/// After one deletion no header for `name` survives, so a second deletion
/// keeps every remaining line.
pub proof fn lemma_delete_idempotent(text: Seq<char>, name: Seq<char>)
    ensures
        spec_delete(spec_delete(text, name), name) == spec_delete(text, name),
{
    let ls = split_lines(text);
    let kept = delete_lines(ls, name, false);
    crate::text::lemma_split_lines_no_newline(text);
    lemma_delete_no_newline(ls, name, false);
    lemma_delete_no_target(ls, name, false);
    if kept.len() == 0 {
        assert(spec_delete(text, name) == Seq::<char>::empty());
        let ls2 = split_lines(Seq::<char>::empty());
        assert(ls2 =~= seq![Seq::<char>::empty()]);
        assert(!is_header(spec_trim(ls2[0])));
        assert(ls2.drop_first() =~= Seq::<Seq<char>>::empty());
        assert(delete_lines(ls2.drop_first(), name, false) =~= Seq::<Seq<char>>::empty());
        assert(delete_lines(ls2, name, false) =~= seq![Seq::<char>::empty()]);
        assert(join_lines(delete_lines(ls2, name, false)) =~= Seq::<char>::empty());
    } else {
        crate::text::lemma_split_join(kept);
        lemma_delete_noop(kept, name);
    }
}

/// Which lines belong to section `name`: a tag per line, true exactly for
/// the section's header line and the lines that follow it up to the next
/// header or the end of the text.
pub open spec fn section_tags(lines: Seq<Seq<char>>, name: Seq<char>, active: bool) -> Seq<bool>
    decreases lines.len(),
{
    if lines.len() == 0 {
        Seq::<bool>::empty()
    } else {
        let t = spec_trim(lines[0]);
        if is_header(t) {
            let a2 = header_name(t) == name;
            seq![a2] + section_tags(lines.drop_first(), name, a2)
        } else {
            seq![active] + section_tags(lines.drop_first(), name, active)
        }
    }
}

/// The subsequence of `lines` at the positions whose tag is false, in
/// their original order.
pub open spec fn keep_untagged(lines: Seq<Seq<char>>, tags: Seq<bool>) -> Seq<Seq<char>>
    decreases lines.len(),
{
    if lines.len() == 0 || tags.len() == 0 {
        Seq::<Seq<char>>::empty()
    } else if tags[0] {
        keep_untagged(lines.drop_first(), tags.drop_first())
    } else {
        seq![lines[0]] + keep_untagged(lines.drop_first(), tags.drop_first())
    }
}

// ---------------------------------------------------------------------------
// Section extraction
// ---------------------------------------------------------------------------

/// The state of the section scanner: whether the cursor is inside the
/// target section, whether the target's header was ever seen, the pairs
/// gathered so far, and an open multiline block, if any.
pub struct ExtractSt {
    pub in_t: bool,
    pub found: bool,
    pub fields: Seq<(Seq<char>, Seq<char>)>,
    pub ml: Option<(Seq<char>, Seq<char>)>,
}

/// Commits an open multiline block into the gathered pairs.
pub open spec fn flush_fields(
    fields: Seq<(Seq<char>, Seq<char>)>,
    ml: Option<(Seq<char>, Seq<char>)>,
) -> Seq<(Seq<char>, Seq<char>)> {
    match ml {
        None => fields,
        Some((k, acc)) => upsert(fields, k, acc),
    }
}

/// One trimmed line processed outside any multiline block.
pub open spec fn extract_step_normal(t: Seq<char>, name: Seq<char>, st: ExtractSt) -> ExtractSt {
    if is_blank(t) || is_comment(t) {
        st
    } else if is_header(t) {
        let enter = header_name(t) == name;
        ExtractSt { in_t: enter, found: st.found || enter, fields: st.fields, ml: None }
    } else if st.in_t && is_kv(t) {
        let k = kv_key(t);
        let v = kv_value(t);
        if is_pem_key(k) && starts_pem(v) {
            ExtractSt { in_t: st.in_t, found: st.found, fields: st.fields, ml: Some((k, v)) }
        } else {
            ExtractSt {
                in_t: st.in_t,
                found: st.found,
                fields: upsert(st.fields, k, v),
                ml: None,
            }
        }
    } else {
        st
    }
}

/// One trimmed line processed in any state. A blank line inside a
/// multiline block is skipped; a line opening with `[` closes the block
/// and is then handled as an ordinary line; any other line is appended to
/// the block, joined by a newline.
pub open spec fn extract_step(t: Seq<char>, name: Seq<char>, st: ExtractSt) -> ExtractSt {
    match st.ml {
        None => extract_step_normal(t, name, st),
        Some((k, acc)) => {
            if is_blank(t) {
                st
            } else if t[0] == '[' {
                extract_step_normal(
                    t,
                    name,
                    ExtractSt {
                        in_t: st.in_t,
                        found: st.found,
                        fields: upsert(st.fields, k, acc),
                        ml: None,
                    },
                )
            } else {
                ExtractSt {
                    in_t: st.in_t,
                    found: st.found,
                    fields: st.fields,
                    ml: Some((k, acc + seq!['\n'] + t)),
                }
            }
        },
    }
}

/// Runs the section scanner over the remaining lines and returns whether
/// the target section was ever found, with the pairs gathered for it.
pub open spec fn extract_lines(lines: Seq<Seq<char>>, name: Seq<char>, st: ExtractSt) -> (
    bool,
    Seq<(Seq<char>, Seq<char>)>,
)
    decreases lines.len(),
{
    if lines.len() == 0 {
        (st.found, flush_fields(st.fields, st.ml))
    } else {
        extract_lines(lines.drop_first(), name, extract_step(spec_trim(lines[0]), name, st))
    }
}

/// The initial scanner state.
pub open spec fn extract_init() -> ExtractSt {
    ExtractSt { in_t: false, found: false, fields: Seq::empty(), ml: None }
}

/// The pairs of section `name` in the text, with a flag telling whether a
/// `[name]` header exists at all. Every `key = value` line of the section
/// contributes a pair (the `type` line included); a later duplicate key
/// overwrites the earlier value in place.
pub open spec fn spec_extract(text: Seq<char>, name: Seq<char>) -> (bool, Seq<
    (Seq<char>, Seq<char>),
>) {
    extract_lines(split_lines(text), name, extract_init())
}

/// Errors of the configuration store.
#[derive(Clone, Copy, Debug, PartialEq, Eq, Structural)]
pub enum ConfigError {
    /// No `[name]` header exists in the text.
    SectionNotFound,
    /// A section with the requested name already exists.
    DuplicateRemoteName,
}

/// The views of a list of owned key/value pairs.
pub open spec fn fields_view(fs: Seq<(String, String)>) -> Seq<(Seq<char>, Seq<char>)> {
    fs.map_values(|p: (String, String)| (p.0@, p.1@))
}

proof fn lemma_upsert_update(
    fs: Seq<(Seq<char>, Seq<char>)>,
    k: Seq<char>,
    v: Seq<char>,
    i: int,
)
    requires
        0 <= i < fs.len(),
        fs[i].0 == k,
        forall|j: int| 0 <= j < i ==> (#[trigger] fs[j]).0 != k,
    ensures
        upsert(fs, k, v) == fs.update(i, (k, v)),
    decreases i,
{
    if i == 0 {
        assert(upsert(fs, k, v) =~= fs.update(0, (k, v)));
    } else {
        let rest = fs.drop_first();
        assert(forall|j: int| 0 <= j < rest.len() ==> rest[j] == fs[j + 1]);
        lemma_upsert_update(rest, k, v, i - 1);
        assert(seq![fs[0]] + rest.update(i - 1, (k, v)) =~= fs.update(i, (k, v)));
    }
}

pub proof fn lemma_upsert_push(fs: Seq<(Seq<char>, Seq<char>)>, k: Seq<char>, v: Seq<char>)
    requires
        forall|j: int| 0 <= j < fs.len() ==> (#[trigger] fs[j]).0 != k,
    ensures
        upsert(fs, k, v) == fs.push((k, v)),
    decreases fs.len(),
{
    if fs.len() == 0 {
        assert(upsert(fs, k, v) =~= fs.push((k, v)));
    } else {
        let rest = fs.drop_first();
        assert(forall|j: int| 0 <= j < rest.len() ==> rest[j] == fs[j + 1]);
        lemma_upsert_push(rest, k, v);
        assert(seq![fs[0]] + rest.push((k, v)) =~= fs.push((k, v)));
    }
}

/// Inserts or overwrites the pair for key `k` in a list of owned pairs,
/// mirroring the `upsert` model.
fn upsert_field(fields: &mut Vec<(String, String)>, k: String, v: String)
    ensures
        fields_view(final(fields)@) == upsert(fields_view(old(fields)@), k@, v@),
{
    let ghost fv = fields_view(fields@);
    let mut i: usize = 0;
    while i < fields.len()
        invariant
            i <= fields@.len(),
            fields@ == old(fields)@,
            fv == fields_view(fields@),
            forall|j: int| 0 <= j < i ==> (#[trigger] fv[j]).0 != k@,
        decreases fields@.len() - i,
    {
        if fields[i].0 == k {
            proof {
                assert(fv[i as int].0 == k@);
                lemma_upsert_update(fv, k@, v@, i as int);
            }
            fields[i] = (k, v);
            proof {
                assert(fields_view(fields@) =~= fv.update(i as int, (k@, v@)));
            }
            return ;
        }
        proof {
            assert(fv[i as int].0 != k@);
        }
        i = i + 1;
    }
    proof {
        lemma_upsert_push(fv, k@, v@);
    }
    fields.push((k, v));
    proof {
        assert(fields_view(fields@) =~= fv.push((k@, v@)));
    }
}

/// The characters of the `type` key.
fn type_key_vec() -> (v: Vec<char>)
    ensures
        v@ == type_key(),
{
    let mut v: Vec<char> = Vec::new();
    v.push('t');
    v.push('y');
    v.push('p');
    v.push('e');
    proof {
        assert(v@ =~= type_key());
    }
    v
}

/// The characters of the `key_pem` key.
fn key_pem_vec() -> (v: Vec<char>)
    ensures
        v@ == key_pem_key(),
{
    let mut v: Vec<char> = Vec::new();
    v.push('k');
    v.push('e');
    v.push('y');
    v.push('_');
    v.push('p');
    v.push('e');
    v.push('m');
    proof {
        assert(v@ =~= key_pem_key());
    }
    v
}

/// The characters of the `pubkey` key.
fn pubkey_vec() -> (v: Vec<char>)
    ensures
        v@ == pubkey_key(),
{
    let mut v: Vec<char> = Vec::new();
    v.push('p');
    v.push('u');
    v.push('b');
    v.push('k');
    v.push('e');
    v.push('y');
    proof {
        assert(v@ =~= pubkey_key());
    }
    v
}

/// The characters of the PEM opening marker.
fn pem_marker_vec() -> (v: Vec<char>)
    ensures
        v@ == pem_marker(),
{
    let mut v: Vec<char> = Vec::new();
    v.push('-');
    v.push('-');
    v.push('-');
    v.push('-');
    v.push('-');
    v.push('B');
    v.push('E');
    v.push('G');
    v.push('I');
    v.push('N');
    v.push(' ');
    proof {
        assert(v@ =~= pem_marker());
    }
    v
}

/// The characters of the `remote_name` key.
fn remote_name_vec() -> (v: Vec<char>)
    ensures
        v@ == remote_name_key(),
{
    let mut v: Vec<char> = Vec::new();
    v.push('r');
    v.push('e');
    v.push('m');
    v.push('o');
    v.push('t');
    v.push('e');
    v.push('_');
    v.push('n');
    v.push('a');
    v.push('m');
    v.push('e');
    proof {
        assert(v@ =~= remote_name_key());
    }
    v
}

/// Whether `k` is a multiline-capable key, checked on characters.
fn is_pem_key_vec(k: &Vec<char>) -> (r: bool)
    ensures
        r == is_pem_key(k@),
{
    let a = key_pem_vec();
    let b = pubkey_vec();
    let ka = crate::text::vec_eq(k, &a);
    let kb = crate::text::vec_eq(k, &b);
    ka || kb
}

/// Whether `v` opens a PEM-style multiline block, checked on characters.
fn starts_pem_vec(v: &Vec<char>) -> (r: bool)
    ensures
        r == starts_pem(v@),
{
    let m = pem_marker_vec();
    crate::text::vec_has_prefix(v, &m)
}

/// Splits a trimmed line at its first `=`, trimming key and value.
fn find_kv(t: &Vec<char>) -> (r: Option<(Vec<char>, Vec<char>)>)
    ensures
        r matches Some(kv) ==> is_kv(t@) && kv.0@ == kv_key(t@) && kv.1@ == kv_value(t@),
        r is None ==> !is_kv(t@),
{
    proof {
        crate::text::lemma_find_idx(t@, '=');
    }
    let p = crate::text::find_char(t, '=');
    if p < t.len() {
        proof {
            assert(t@[p as int] == '=');
            assert(is_kv(t@));
            assert(t@.subrange(0, p as int) =~= t@.take(find_idx(t@, '=')));
            assert(t@.subrange(p as int + 1, t@.len() as int) =~= t@.skip(find_idx(t@, '=') + 1));
        }
        let kraw = crate::text::subrange_vec(t, 0, p);
        let vraw = crate::text::subrange_vec(t, p + 1, t.len());
        let k = crate::text::trim_vec(&kraw);
        let v = crate::text::trim_vec(&vraw);
        Some((k, v))
    } else {
        proof {
            if is_kv(t@) {
                let w = choose|i: int| 0 <= i < t@.len() && t@[i] == '=';
                assert(t@[w] != '=');
            }
        }
        None
    }
}

/// The scanner state built from the separate machine variables.
pub open spec fn st_of(
    in_t: bool,
    found: bool,
    fv: Seq<(Seq<char>, Seq<char>)>,
    ml: Option<(Seq<char>, Seq<char>)>,
) -> ExtractSt {
    ExtractSt { in_t: in_t, found: found, fields: fv, ml: ml }
}

/// One line of the scanner outside a multiline block, on machine state.
fn do_step_normal(
    t: &Vec<char>,
    name_c: &Vec<char>,
    in_t: &mut bool,
    found: &mut bool,
    fields: &mut Vec<(String, String)>,
    ml_active: &mut bool,
    ml_key: &mut Vec<char>,
    ml_acc: &mut Vec<char>,
)
    requires
        *old(ml_active) == false,
    ensures
        st_of(
            *final(in_t),
            *final(found),
            fields_view(final(fields)@),
            if *final(ml_active) {
                Some((final(ml_key)@, final(ml_acc)@))
            } else {
                None
            },
        ) == extract_step_normal(
            t@,
            name_c@,
            st_of(*old(in_t), *old(found), fields_view(old(fields)@), None),
        ),
{
    let ghost st0 = st_of(*in_t, *found, fields_view(fields@), None);
    if t.len() == 0 {
        return ;
    }
    if t[0] == '#' || t[0] == ';' {
        proof {
            assert(is_comment(t@));
        }
        return ;
    }
    if is_header_vec(t) {
        let hn = header_name_vec(t);
        let enter = crate::text::vec_eq(&hn, name_c);
        *in_t = enter;
        *found = *found || enter;
        return ;
    }
    if *in_t {
        match find_kv(t) {
            Some((k, v)) => {
                let pem = is_pem_key_vec(&k);
                let sp = starts_pem_vec(&v);
                if pem && sp {
                    *ml_active = true;
                    *ml_key = k;
                    *ml_acc = v;
                } else {
                    let ks = crate::text::chars_to_string(&k);
                    let vs = crate::text::chars_to_string(&v);
                    upsert_field(fields, ks, vs);
                }
            },
            None => {},
        }
    }
}

/// Returns the key/value pairs of section `name` in the text, or
/// `SectionNotFound` when no `[name]` header exists anywhere in it.
pub fn extract_section(text: &str, name: &str) -> (r: Result<Vec<(String, String)>, ConfigError>)
    ensures
        spec_extract(text@, name@).0 <==> r is Ok,
        r matches Ok(out) ==> fields_view(out@) == spec_extract(text@, name@).1,
        r matches Err(e) ==> e == ConfigError::SectionNotFound,
{
    let chars = crate::text::str_to_chars(text);
    let name_c = crate::text::str_to_chars(name);
    let lines = crate::text::split_vec(&chars);
    let ghost lv = lines_view(lines@);
    let mut in_t = false;
    let mut found = false;
    let mut fields: Vec<(String, String)> = Vec::new();
    let mut ml_active = false;
    let mut ml_key: Vec<char> = Vec::new();
    let mut ml_acc: Vec<char> = Vec::new();
    let mut i: usize = 0;
    proof {
        assert(lv.skip(0) =~= lv);
        assert(fields_view(fields@) =~= Seq::<(Seq<char>, Seq<char>)>::empty());
    }
    while i < lines.len()
        invariant
            i <= lines@.len(),
            lv == lines_view(lines@),
            lv == split_lines(text@),
            name_c@ == name@,
            extract_lines(lv, name@, extract_init()) == extract_lines(
                lv.skip(i as int),
                name@,
                st_of(
                    in_t,
                    found,
                    fields_view(fields@),
                    if ml_active {
                        Some((ml_key@, ml_acc@))
                    } else {
                        None
                    },
                ),
            ),
        decreases lines@.len() - i,
    {
        let t = crate::text::trim_vec(&lines[i]);
        let ghost st_pre = st_of(
            in_t,
            found,
            fields_view(fields@),
            if ml_active {
                Some((ml_key@, ml_acc@))
            } else {
                None
            },
        );
        proof {
            assert(lv.skip(i as int)[0] == lv[i as int]);
            assert(lv.skip(i as int).drop_first() =~= lv.skip(i as int + 1));
            assert(t@ == spec_trim(lv[i as int]));
            assert(extract_lines(lv.skip(i as int), name@, st_pre) == extract_lines(
                lv.skip(i as int + 1),
                name@,
                extract_step(t@, name@, st_pre),
            ));
        }
        if ml_active {
            if t.len() == 0 {
                // blank line inside a multiline block: skipped
                proof {
                    assert(extract_step(t@, name@, st_pre) == st_pre);
                }
            } else if t[0] != '[' {
                let ghost acc0 = ml_acc@;
                ml_acc.push('\n');
                let ghost pre = ml_acc@;
                ml_acc.extend_from_slice(t.as_slice());
                proof {
                    assert(ml_acc@ =~= pre + t@);
                    assert(ml_acc@ =~= acc0 + seq!['\n'] + t@);
                    assert(extract_step(t@, name@, st_pre) == st_of(
                        in_t,
                        found,
                        fields_view(fields@),
                        Some((ml_key@, ml_acc@)),
                    ));
                }
            } else {
                let ks = crate::text::chars_to_string(&ml_key);
                let vs = crate::text::chars_to_string(&ml_acc);
                upsert_field(&mut fields, ks, vs);
                ml_active = false;
                let ghost st_fl = st_of(in_t, found, fields_view(fields@), None);
                proof {
                    assert(extract_step(t@, name@, st_pre) == extract_step_normal(
                        t@,
                        name@,
                        st_fl,
                    ));
                }
                do_step_normal(
                    &t,
                    &name_c,
                    &mut in_t,
                    &mut found,
                    &mut fields,
                    &mut ml_active,
                    &mut ml_key,
                    &mut ml_acc,
                );
            }
        } else {
            proof {
                assert(extract_step(t@, name@, st_pre) == extract_step_normal(
                    t@,
                    name@,
                    st_pre,
                ));
            }
            do_step_normal(
                &t,
                &name_c,
                &mut in_t,
                &mut found,
                &mut fields,
                &mut ml_active,
                &mut ml_key,
                &mut ml_acc,
            );
        }
        i = i + 1;
    }
    proof {
        assert(lv.skip(lv.len() as int) =~= Seq::<Seq<char>>::empty());
    }
    if ml_active {
        let ks = crate::text::chars_to_string(&ml_key);
        let vs = crate::text::chars_to_string(&ml_acc);
        upsert_field(&mut fields, ks, vs);
    }
    if found {
        Ok(fields)
    } else {
        Err(ConfigError::SectionNotFound)
    }
}

// ---------------------------------------------------------------------------
// Parsing the whole document
// ---------------------------------------------------------------------------

/// The open section, if the parser is inside one: only its name, `type`
/// value, and other pairs seen so far.
pub open spec fn cur_of(active: bool, name: Seq<char>, kind: Seq<char>, fields: Seq<
    (Seq<char>, Seq<char>),
>) -> Option<SpecEntry> {
    if active {
        Some(SpecEntry { name: name, kind: kind, fields: fields })
    } else {
        None
    }
}

/// The open multiline block, if any.
pub open spec fn ml_of(active: bool, k: Seq<char>, acc: Seq<char>) -> Option<
    (Seq<char>, Seq<char>),
> {
    if active {
        Some((k, acc))
    } else {
        None
    }
}

/// An open section becomes an entry of the result only when a `[name]`
/// header with nonempty name was seen and a `type` line gave it a
/// nonempty kind; any other open section is dropped.
pub open spec fn commit(cur: Option<SpecEntry>) -> Seq<SpecEntry> {
    match cur {
        None => Seq::<SpecEntry>::empty(),
        Some(e) => if e.name.len() > 0 && e.kind.len() > 0 {
            seq![e]
        } else {
            Seq::<SpecEntry>::empty()
        },
    }
}

/// Commits an open multiline block into the open section's pairs.
pub open spec fn flush_ml_entry(
    cur: Option<SpecEntry>,
    k: Seq<char>,
    acc: Seq<char>,
) -> Option<SpecEntry> {
    match cur {
        None => None,
        Some(e) => Some(
            SpecEntry { name: e.name, kind: e.kind, fields: upsert(e.fields, k, acc) },
        ),
    }
}

/// Commits an open multiline block, when there is one.
pub open spec fn flush_opt(
    cur: Option<SpecEntry>,
    ml: Option<(Seq<char>, Seq<char>)>,
) -> Option<SpecEntry> {
    match ml {
        None => cur,
        Some((k, acc)) => flush_ml_entry(cur, k, acc),
    }
}

/// One trimmed line of the parser outside any multiline block: the
/// entries emitted, the open section after, and the multiline block
/// opened, if any.
pub open spec fn parse_step_normal(t: Seq<char>, cur: Option<SpecEntry>) -> (
    Seq<SpecEntry>,
    Option<SpecEntry>,
    Option<(Seq<char>, Seq<char>)>,
) {
    if is_blank(t) || is_comment(t) {
        (Seq::<SpecEntry>::empty(), cur, None)
    } else if is_header(t) {
        (
            commit(cur),
            Some(
                SpecEntry {
                    name: header_name(t),
                    kind: Seq::<char>::empty(),
                    fields: Seq::empty(),
                },
            ),
            None,
        )
    } else if cur is Some && is_kv(t) {
        let e = cur->Some_0;
        let k = kv_key(t);
        let v = kv_value(t);
        if is_pem_key(k) && starts_pem(v) {
            (Seq::<SpecEntry>::empty(), cur, Some((k, v)))
        } else if k == type_key() {
            (
                Seq::<SpecEntry>::empty(),
                Some(SpecEntry { name: e.name, kind: v, fields: e.fields }),
                None,
            )
        } else {
            (
                Seq::<SpecEntry>::empty(),
                Some(SpecEntry { name: e.name, kind: e.kind, fields: upsert(e.fields, k, v) }),
                None,
            )
        }
    } else {
        (Seq::<SpecEntry>::empty(), cur, None)
    }
}

/// One trimmed line of the parser in any state, with the same multiline
/// discipline as the section scanner.
pub open spec fn parse_step(
    t: Seq<char>,
    cur: Option<SpecEntry>,
    ml: Option<(Seq<char>, Seq<char>)>,
) -> (Seq<SpecEntry>, Option<SpecEntry>, Option<(Seq<char>, Seq<char>)>) {
    match ml {
        None => parse_step_normal(t, cur),
        Some((k, acc)) => {
            if is_blank(t) {
                (Seq::<SpecEntry>::empty(), cur, ml)
            } else if t[0] == '[' {
                parse_step_normal(t, flush_ml_entry(cur, k, acc))
            } else {
                (Seq::<SpecEntry>::empty(), cur, Some((k, acc + seq!['\n'] + t)))
            }
        },
    }
}

/// Runs the parser over the remaining lines from the given state and
/// returns every entry still to be emitted.
pub open spec fn parse_lines(
    lines: Seq<Seq<char>>,
    cur: Option<SpecEntry>,
    ml: Option<(Seq<char>, Seq<char>)>,
) -> Seq<SpecEntry>
    decreases lines.len(),
{
    if lines.len() == 0 {
        commit(flush_opt(cur, ml))
    } else {
        let s = parse_step(spec_trim(lines[0]), cur, ml);
        s.0 + parse_lines(lines.drop_first(), s.1, s.2)
    }
}

/// The document's entries: one per section that carries a nonempty
/// `type`, in the order the sections appear; typeless sections are
/// dropped silently.
pub open spec fn spec_parse(text: Seq<char>) -> Seq<SpecEntry> {
    parse_lines(split_lines(text), None, None)
}

/// One named remote read from the configuration text: its section name,
/// its `type` value, and the remaining key/value pairs in the order first
/// seen.
pub struct RemoteEntry {
    pub name: String,
    pub kind: String,
    pub fields: Vec<(String, String)>,
}

impl View for RemoteEntry {
    type V = SpecEntry;

    open spec fn view(&self) -> SpecEntry {
        SpecEntry { name: self.name@, kind: self.kind@, fields: fields_view(self.fields@) }
    }
}

/// The views of a list of entries.
pub open spec fn entries_view(s: Seq<RemoteEntry>) -> Seq<SpecEntry> {
    s.map_values(|e: RemoteEntry| e@)
}

/// Parses the configuration text into its remote entries. The parser is
/// total: unknown or malformed lines are skipped, and a section without a
/// `type` line is dropped.
pub fn parse(text: &str) -> (r: Vec<RemoteEntry>)
    ensures
        entries_view(r@) == spec_parse(text@),
{
    let chars = crate::text::str_to_chars(text);
    let lines = crate::text::split_vec(&chars);
    let ghost lv = lines_view(lines@);
    let mut out: Vec<RemoteEntry> = Vec::new();
    let mut cur_active = false;
    let mut cur_name = String::new();
    let mut cur_kind = String::new();
    let mut cur_fields: Vec<(String, String)> = Vec::new();
    let mut ml_active = false;
    let mut ml_key: Vec<char> = Vec::new();
    let mut ml_acc: Vec<char> = Vec::new();
    let mut i: usize = 0;
    proof {
        assert(lv.skip(0) =~= lv);
        assert(entries_view(out@) =~= Seq::<SpecEntry>::empty());
        assert(fields_view(cur_fields@) =~= Seq::<(Seq<char>, Seq<char>)>::empty());
        assert(entries_view(out@) + parse_lines(lv, None, None) =~= parse_lines(lv, None, None));
    }
    while i < lines.len()
        invariant
            i <= lines@.len(),
            lv == lines_view(lines@),
            lv == split_lines(text@),
            spec_parse(text@) == entries_view(out@) + parse_lines(
                lv.skip(i as int),
                cur_of(cur_active, cur_name@, cur_kind@, fields_view(cur_fields@)),
                ml_of(ml_active, ml_key@, ml_acc@),
            ),
        decreases lines@.len() - i,
    {
        let t = crate::text::trim_vec(&lines[i]);
        let ghost cur0 = cur_of(cur_active, cur_name@, cur_kind@, fields_view(cur_fields@));
        let ghost ml0 = ml_of(ml_active, ml_key@, ml_acc@);
        let ghost step = parse_step(t@, cur0, ml0);
        proof {
            assert(lv.skip(i as int)[0] == lv[i as int]);
            assert(lv.skip(i as int).drop_first() =~= lv.skip(i as int + 1));
            assert(t@ == spec_trim(lv[i as int]));
            assert(parse_lines(lv.skip(i as int), cur0, ml0) == step.0 + parse_lines(
                lv.skip(i as int + 1),
                step.1,
                step.2,
            ));
        }
        if ml_active {
            if t.len() == 0 {
                // blank line inside a multiline block: skipped
                proof {
                    assert(step == (Seq::<SpecEntry>::empty(), cur0, ml0));
                    assert(entries_view(out@) + (step.0 + parse_lines(
                        lv.skip(i as int + 1),
                        step.1,
                        step.2,
                    )) =~= (entries_view(out@) + step.0) + parse_lines(
                        lv.skip(i as int + 1),
                        step.1,
                        step.2,
                    ));
                }
                i = i + 1;
                continue ;
            } else if t[0] != '[' {
                let ghost acc0 = ml_acc@;
                ml_acc.push('\n');
                let ghost mid = ml_acc@;
                ml_acc.extend_from_slice(t.as_slice());
                proof {
                    assert(ml_acc@ =~= mid + t@);
                    assert(ml_acc@ =~= acc0 + seq!['\n'] + t@);
                    assert(step.0 =~= Seq::<SpecEntry>::empty());
                    assert(step.1 == cur0);
                    assert(step.2 == ml_of(ml_active, ml_key@, ml_acc@));
                    assert(entries_view(out@) + (step.0 + parse_lines(
                        lv.skip(i as int + 1),
                        step.1,
                        step.2,
                    )) =~= (entries_view(out@) + step.0) + parse_lines(
                        lv.skip(i as int + 1),
                        step.1,
                        step.2,
                    ));
                }
                i = i + 1;
                continue ;
            } else {
                let ks = crate::text::chars_to_string(&ml_key);
                let vs = crate::text::chars_to_string(&ml_acc);
                upsert_field(&mut cur_fields, ks, vs);
                ml_active = false;
                proof {
                    assert(cur_of(cur_active, cur_name@, cur_kind@, fields_view(cur_fields@))
                        == flush_ml_entry(cur0, (ml0->Some_0).0, (ml0->Some_0).1));
                    assert(step == parse_step_normal(
                        t@,
                        cur_of(cur_active, cur_name@, cur_kind@, fields_view(cur_fields@)),
                    ));
                }
            }
        } else {
            proof {
                assert(step == parse_step_normal(t@, cur0));
            }
        }
        // normal processing: the multiline block, if any, has been closed
        let ghost cur1 = cur_of(cur_active, cur_name@, cur_kind@, fields_view(cur_fields@));
        let ghost out1 = entries_view(out@);
        if t.len() == 0 {
            proof {
                assert(step == (Seq::<SpecEntry>::empty(), cur1, ml_of(false, ml_key@, ml_acc@)));
            }
        } else if t[0] == '#' || t[0] == ';' {
            proof {
                assert(is_comment(t@));
                assert(step == (Seq::<SpecEntry>::empty(), cur1, ml_of(false, ml_key@, ml_acc@)));
            }
        } else if is_header_vec(&t) {
            if cur_active && !cur_name.as_str().is_empty() && !cur_kind.as_str().is_empty() {
                out.push(RemoteEntry { name: cur_name, kind: cur_kind, fields: cur_fields });
                proof {
                    assert(entries_view(out@) =~= out1 + commit(cur1));
                }
                cur_name = String::new();
                cur_kind = String::new();
                cur_fields = Vec::new();
            } else {
                proof {
                    assert(commit(cur1) =~= Seq::<SpecEntry>::empty());
                    assert(entries_view(out@) =~= out1 + commit(cur1));
                }
            }
            let hn = header_name_vec(&t);
            cur_active = true;
            cur_name = crate::text::chars_to_string(&hn);
            cur_kind = String::new();
            cur_fields = Vec::new();
            proof {
                assert(fields_view(cur_fields@) =~= Seq::<(Seq<char>, Seq<char>)>::empty());
                assert(step.1 == cur_of(cur_active, cur_name@, cur_kind@, fields_view(
                    cur_fields@,
                )));
            }
        } else if cur_active {
            match find_kv(&t) {
                Some((k, v)) => {
                    let pem = is_pem_key_vec(&k);
                    let sp = starts_pem_vec(&v);
                    if pem && sp {
                        ml_active = true;
                        ml_key = k;
                        ml_acc = v;
                    } else {
                        let tk = type_key_vec();
                        if crate::text::vec_eq(&k, &tk) {
                            cur_kind = crate::text::chars_to_string(&v);
                        } else {
                            let ks = crate::text::chars_to_string(&k);
                            let vs = crate::text::chars_to_string(&v);
                            upsert_field(&mut cur_fields, ks, vs);
                        }
                    }
                },
                None => {
                    proof {
                        assert(!is_kv(t@));
                    }
                },
            }
        }
        proof {
            assert(entries_view(out@) =~= out1 + step.0);
            assert(step.1 == cur_of(cur_active, cur_name@, cur_kind@, fields_view(cur_fields@)));
            assert(step.2 == ml_of(ml_active, ml_key@, ml_acc@));
            assert((out1 + step.0) + parse_lines(lv.skip(i as int + 1), step.1, step.2) =~= out1
                + (step.0 + parse_lines(lv.skip(i as int + 1), step.1, step.2)));
        }
        i = i + 1;
    }
    proof {
        assert(lv.skip(lv.len() as int) =~= Seq::<Seq<char>>::empty());
    }
    if ml_active {
        let ks = crate::text::chars_to_string(&ml_key);
        let vs = crate::text::chars_to_string(&ml_acc);
        upsert_field(&mut cur_fields, ks, vs);
        ml_active = false;
    }
    if cur_active && !cur_name.as_str().is_empty() && !cur_kind.as_str().is_empty() {
        out.push(RemoteEntry { name: cur_name, kind: cur_kind, fields: cur_fields });
        proof {
            assert(entries_view(out@) =~= entries_view(out@.drop_last()) + seq![
                out@.last()@,
            ]);
        }
    }
    proof {
        assert(entries_view(out@) =~= spec_parse(text@));
    }
    out
}

proof fn lemma_lookup_first(fs: Seq<(Seq<char>, Seq<char>)>, k: Seq<char>, i: int)
    requires
        0 <= i < fs.len(),
        fs[i].0 == k,
        forall|j: int| 0 <= j < i ==> (#[trigger] fs[j]).0 != k,
    ensures
        has_key(fs, k),
        lookup(fs, k) == fs[i].1,
    decreases i,
{
    if i == 0 {
    } else {
        let rest = fs.drop_first();
        assert(forall|j: int| 0 <= j < rest.len() ==> rest[j] == fs[j + 1]);
        lemma_lookup_first(rest, k, i - 1);
        assert(fs[0].0 != k);
    }
}

/// The value stored under `name` in a list of pairs, if any: the first
/// match decides.
pub fn lookup_value(fields: &Vec<(String, String)>, name: &str) -> (r: Option<String>)
    ensures
        r is Some <==> has_key(fields_view(fields@), name@),
        r matches Some(v) ==> v@ == lookup(fields_view(fields@), name@),
{
    let ghost fv = fields_view(fields@);
    let name_c = crate::text::str_to_chars(name);
    let mut i: usize = 0;
    while i < fields.len()
        invariant
            i <= fields@.len(),
            fv == fields_view(fields@),
            name_c@ == name@,
            forall|k: int| 0 <= k < i ==> (#[trigger] fv[k]).0 != name@,
        decreases fields@.len() - i,
    {
        let kc = crate::text::str_to_chars(fields[i].0.as_str());
        if crate::text::vec_eq(&kc, &name_c) {
            proof {
                assert(fv[i as int].0 == name@);
                lemma_lookup_first(fv, name@, i as int);
            }
            return Some(fields[i].1.clone());
        }
        proof {
            assert(fv[i as int].0 != name@);
        }
        i = i + 1;
    }
    proof {
        if has_key(fv, name@) {
            let w = choose|k: int| 0 <= k < fv.len() && fv[k].0 == name@;
            assert(fv[w].0 != name@);
        }
    }
    None
}

// ---------------------------------------------------------------------------
// Writing sections
// ---------------------------------------------------------------------------

/// The separator written between a key and its value.
pub open spec fn kv_sep() -> Seq<char> {
    seq![' ', '=', ' ']
}

/// One written `key = value` line, newline-terminated.
pub open spec fn pair_text(k: Seq<char>, v: Seq<char>) -> Seq<char> {
    k + kv_sep() + v + seq!['\n']
}

/// The written body lines for a list of pairs; the synthetic
/// `remote_name` key is never written.
pub open spec fn fields_text(fs: Seq<(Seq<char>, Seq<char>)>) -> Seq<char>
    decreases fs.len(),
{
    if fs.len() == 0 {
        Seq::<char>::empty()
    } else if fs[0].0 == remote_name_key() {
        fields_text(fs.drop_first())
    } else {
        pair_text(fs[0].0, fs[0].1) + fields_text(fs.drop_first())
    }
}

/// The full text written for one section: a blank separator line, the
/// header, the `type` line, then one line per remaining pair.
pub open spec fn sec_text(name: Seq<char>, kind: Seq<char>, fields: Seq<
    (Seq<char>, Seq<char>),
>) -> Seq<char> {
    seq!['\n', '['] + name + seq![']', '\n'] + type_key() + kv_sep() + kind + seq!['\n']
        + fields_text(fields)
}

/// The whole document written out, one section per entry, in order.
pub open spec fn spec_serialize(doc: Seq<SpecEntry>) -> Seq<char>
    decreases doc.len(),
{
    if doc.len() == 0 {
        Seq::<char>::empty()
    } else {
        sec_text(doc[0].name, doc[0].kind, doc[0].fields) + spec_serialize(doc.drop_first())
    }
}

proof fn lemma_fields_text_push(fs: Seq<(Seq<char>, Seq<char>)>, p: (Seq<char>, Seq<char>))
    ensures
        fields_text(fs.push(p)) == fields_text(fs) + if p.0 == remote_name_key() {
            Seq::<char>::empty()
        } else {
            pair_text(p.0, p.1)
        },
    decreases fs.len(),
{
    let tail = if p.0 == remote_name_key() {
        Seq::<char>::empty()
    } else {
        pair_text(p.0, p.1)
    };
    if fs.len() == 0 {
        assert(fs.push(p).len() == 1);
        assert(fs.push(p)[0] == p);
        let rest = fs.push(p).drop_first();
        assert(rest =~= Seq::<(Seq<char>, Seq<char>)>::empty());
        assert(fields_text(rest) == Seq::<char>::empty());
        if p.0 == remote_name_key() {
            assert(fields_text(fs.push(p)) == fields_text(rest));
        } else {
            assert(fields_text(fs.push(p)) == pair_text(p.0, p.1) + fields_text(rest));
            assert(pair_text(p.0, p.1) + Seq::<char>::empty() =~= pair_text(p.0, p.1));
        }
        assert(fields_text(fs) == Seq::<char>::empty());
        assert(fields_text(fs) + tail =~= tail);
        assert(fields_text(fs.push(p)) =~= tail);
    } else {
        lemma_fields_text_push(fs.drop_first(), p);
        assert(fs.push(p)[0] == fs[0]);
        assert(fs.push(p).drop_first() =~= fs.drop_first().push(p));
        if fs[0].0 == remote_name_key() {
        } else {
            assert(pair_text(fs[0].0, fs[0].1) + (fields_text(fs.drop_first()) + tail)
                =~= (pair_text(fs[0].0, fs[0].1) + fields_text(fs.drop_first())) + tail);
        }
    }
}

/// Appends the written form of one section to `out`.
fn write_section(out: &mut String, name: &str, kind: &str, fields: &Vec<(String, String)>)
    ensures
        final(out)@ == old(out)@ + sec_text(name@, kind@, fields_view(fields@)),
{
    let ghost base = out@;
    out.append("\n[");
    out.append(name);
    out.append("]\n");
    out.append("type = ");
    out.append(kind);
    out.append("\n");
    let ghost head = base + seq!['\n', '['] + name@ + seq![']', '\n'] + type_key() + kv_sep()
        + kind@ + seq!['\n'];
    proof {
        reveal_strlit("\n[");
        reveal_strlit("]\n");
        reveal_strlit("type = ");
        reveal_strlit("\n");
        assert("\n["@ =~= seq!['\n', '[']);
        assert("]\n"@ =~= seq![']', '\n']);
        assert("type = "@ =~= type_key() + kv_sep());
        assert("\n"@ =~= seq!['\n']);
        assert(out@ =~= head);
    }
    let rn = crate::text::chars_to_string(&remote_name_vec());
    let mut i: usize = 0;
    proof {
        assert(fields_view(fields@).take(0) =~= Seq::<(Seq<char>, Seq<char>)>::empty());
        assert(out@ =~= head + fields_text(fields_view(fields@).take(0)));
    }
    while i < fields.len()
        invariant
            i <= fields@.len(),
            rn@ == remote_name_key(),
            out@ == head + fields_text(fields_view(fields@).take(i as int)),
        decreases fields@.len() - i,
    {
        let ghost fv = fields_view(fields@);
        proof {
            lemma_fields_text_push(fv.take(i as int), fv[i as int]);
            assert(fv.take(i as int).push(fv[i as int]) =~= fv.take(i as int + 1));
        }
        if !(fields[i].0 == rn) {
            let ghost pre = out@;
            out.append(fields[i].0.as_str());
            out.append(" = ");
            out.append(fields[i].1.as_str());
            out.append("\n");
            proof {
                reveal_strlit(" = ");
                reveal_strlit("\n");
                assert(" = "@ =~= kv_sep());
                assert("\n"@ =~= seq!['\n']);
                assert(out@ =~= pre + pair_text(fv[i as int].0, fv[i as int].1));
                assert(out@ =~= head + fields_text(fv.take(i as int + 1)));
            }
        } else {
            proof {
                assert(fv[i as int].0 == remote_name_key());
                assert(out@ =~= head + fields_text(fv.take(i as int + 1)));
            }
        }
        i = i + 1;
    }
    proof {
        assert(fields_view(fields@).take(fields@.len() as int) =~= fields_view(fields@));
        assert(out@ =~= old(out)@ + sec_text(name@, kind@, fields_view(fields@)));
    }
}

/// Whether the text holds a `[name]` section header anywhere.
pub fn has_section(text: &str, name: &str) -> (r: bool)
    ensures
        r == spec_has_section(text@, name@),
{
    let chars = crate::text::str_to_chars(text);
    let name_c = crate::text::str_to_chars(name);
    let lines = crate::text::split_vec(&chars);
    let ghost lv = lines_view(lines@);
    let mut i: usize = 0;
    while i < lines.len()
        invariant
            i <= lines@.len(),
            lv == lines_view(lines@),
            lv == split_lines(text@),
            name_c@ == name@,
            forall|k: int|
                0 <= k < i ==> !(is_header(spec_trim(#[trigger] lv[k])) && header_name(
                    spec_trim(lv[k]),
                ) == name@),
        decreases lines@.len() - i,
    {
        let t = crate::text::trim_vec(&lines[i]);
        if is_header_vec(&t) {
            let hn = header_name_vec(&t);
            if crate::text::vec_eq(&hn, &name_c) {
                proof {
                    assert(is_header(spec_trim(lv[i as int])) && header_name(
                        spec_trim(lv[i as int]),
                    ) == name@);
                }
                return true;
            }
        }
        i = i + 1;
    }
    false
}

/// Appends a new section named `name` of type `kind` with the given
/// pairs to the end of the text, or fails with `DuplicateRemoteName`
/// when a `[name]` section already exists. A pair keyed `remote_name` is
/// left out of the written body.
pub fn append_section(text: &str, name: &str, kind: &str, fields: &Vec<(String, String)>) -> (r:
    Result<String, ConfigError>)
    ensures
        spec_has_section(text@, name@) <==> r is Err,
        r matches Err(e) ==> e == ConfigError::DuplicateRemoteName,
        r matches Ok(s) ==> s@ == text@ + sec_text(name@, kind@, fields_view(fields@)),
{
    if has_section(text, name) {
        return Err(ConfigError::DuplicateRemoteName);
    }
    let mut out = text.to_owned();
    write_section(&mut out, name, kind, fields);
    Ok(out)
}

/// Writes the whole document out, one section per entry, in order.
pub fn serialize(doc: &Vec<RemoteEntry>) -> (r: String)
    ensures
        r@ == spec_serialize(entries_view(doc@)),
{
    let mut out = String::new();
    let mut i: usize = 0;
    proof {
        assert(entries_view(doc@).take(0) =~= Seq::<SpecEntry>::empty());
    }
    while i < doc.len()
        invariant
            i <= doc@.len(),
            out@ == spec_serialize(entries_view(doc@).take(i as int)),
        decreases doc@.len() - i,
    {
        let ghost dv = entries_view(doc@);
        proof {
            lemma_serialize_push(dv.take(i as int), dv[i as int]);
            assert(dv.take(i as int).push(dv[i as int]) =~= dv.take(i as int + 1));
        }
        write_section(&mut out, doc[i].name.as_str(), doc[i].kind.as_str(), &doc[i].fields);
        proof {
            assert(doc[i as int]@ == dv[i as int]);
        }
        i = i + 1;
    }
    proof {
        assert(entries_view(doc@).take(doc@.len() as int) =~= entries_view(doc@));
    }
    out
}

proof fn lemma_serialize_push(doc: Seq<SpecEntry>, e: SpecEntry)
    ensures
        spec_serialize(doc.push(e)) == spec_serialize(doc) + sec_text(e.name, e.kind, e.fields),
    decreases doc.len(),
{
    if doc.len() == 0 {
        assert(doc.push(e).len() == 1);
        assert(doc.push(e)[0] == e);
        let rest = doc.push(e).drop_first();
        assert(rest =~= Seq::<SpecEntry>::empty());
        assert(spec_serialize(rest) == Seq::<char>::empty());
        assert(spec_serialize(doc.push(e)) == sec_text(e.name, e.kind, e.fields)
            + spec_serialize(rest));
        assert(sec_text(e.name, e.kind, e.fields) + Seq::<char>::empty() =~= sec_text(
            e.name,
            e.kind,
            e.fields,
        ));
        assert(spec_serialize(doc) == Seq::<char>::empty());
        assert(spec_serialize(doc) + sec_text(e.name, e.kind, e.fields) =~= sec_text(
            e.name,
            e.kind,
            e.fields,
        ));
    } else {
        lemma_serialize_push(doc.drop_first(), e);
        assert(doc.push(e)[0] == doc[0]);
        assert(doc.push(e).drop_first() =~= doc.drop_first().push(e));
        assert(sec_text(doc[0].name, doc[0].kind, doc[0].fields) + (spec_serialize(
            doc.drop_first(),
        ) + sec_text(e.name, e.kind, e.fields)) =~= (sec_text(doc[0].name, doc[0].kind, doc[0].fields)
            + spec_serialize(doc.drop_first())) + sec_text(e.name, e.kind, e.fields));
    }
}

/// Law: the deleted text is exactly the original lines outside section
/// `name`, joined back in their original order — every other section,
/// comment and blank line is present byte for byte.
pub proof fn lemma_delete_isolation_text(text: Seq<char>, name: Seq<char>)
    ensures
        spec_delete(text, name) == join_lines(
            keep_untagged(
                split_lines(text),
                section_tags(split_lines(text), name, false),
            ),
        ),
{
    lemma_delete_isolation(split_lines(text), name, false);
}

/// Law: deleting section `name` keeps exactly the lines outside that
/// section — every line whose tag says it does not belong to `[name]`
/// survives verbatim, in its original order, and no other line survives.
pub proof fn lemma_delete_isolation(lines: Seq<Seq<char>>, name: Seq<char>, active: bool)
    ensures
        section_tags(lines, name, active).len() == lines.len(),
        delete_lines(lines, name, active) == keep_untagged(
            lines,
            section_tags(lines, name, active),
        ),
    decreases lines.len(),
{
    if lines.len() == 0 {
    } else {
        let t = spec_trim(lines[0]);
        let rest = lines.drop_first();
        let tags = section_tags(lines, name, active);
        if is_header(t) {
            let a2 = header_name(t) == name;
            lemma_delete_isolation(rest, name, a2);
            assert(tags.drop_first() =~= section_tags(rest, name, a2));
        } else {
            lemma_delete_isolation(rest, name, active);
            assert(tags.drop_first() =~= section_tags(rest, name, active));
        }
    }
}

} // verus!
