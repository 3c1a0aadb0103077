//! The registry view: deterministic paths for a remote's mount point,
//! tilde expansion against a supplied home directory, the merged rows a
//! listing shows, and the small decisions around adding a remote. The
//! caller observes mount and schedule state and hands the flags in; the
//! merge itself is pure.

use vstd::prelude::*;

use crate::config::fields_view;
use crate::config::has_key;
use crate::config::lookup;
use crate::config::remote_name_key;
use crate::config::RemoteEntry;
use crate::config::SpecEntry;

verus! {

/// The deterministic mount point of a remote under a home directory.
pub open spec fn mount_point_of(home: Seq<char>, name: Seq<char>) -> Seq<char> {
    home + "/mnt/"@ + name
}

/// The mount point path for a remote: `<home>/mnt/<name>`.
pub fn mount_dir(home: &str, name: &str) -> (r: String)
    ensures
        r@ == mount_point_of(home@, name@),
{
    let mut s = home.to_owned();
    s.append("/mnt/");
    s.append(name);
    s
}

/// A path whose first component is `~` expanded against the home
/// directory; any other path is kept as it is.
pub open spec fn spec_expand_tilde(path: Seq<char>, home: Seq<char>) -> Seq<char> {
    if path.len() > 0 && path[0] == '~' && (path.len() == 1 || path[1] == '/') {
        home + path.skip(1)
    } else {
        path
    }
}

/// Expands a leading `~` path component against the home directory.
pub fn expand_tilde(path: &str, home: &str) -> (r: String)
    ensures
        r@ == spec_expand_tilde(path@, home@),
{
    let chars = crate::text::str_to_chars(path);
    let expand = chars.len() > 0 && chars[0] == '~' && (chars.len() == 1 || chars[1] == '/');
    if expand {
        let rest = crate::text::subrange_vec(&chars, 1, chars.len());
        let mut s = home.to_owned();
        let rest_s = crate::text::chars_to_string(&rest);
        s.append(rest_s.as_str());
        proof {
            assert(path@.subrange(1, path@.len() as int) =~= path@.skip(1));
        }
        s
    } else {
        path.to_owned()
    }
}

/// The configuration file's default location under a home directory.
pub open spec fn default_config_path_of(home: Seq<char>) -> Seq<char> {
    home + "/.config/rclone/rclone.conf"@
}

/// The default configuration file path: `<home>/.config/rclone/rclone.conf`.
pub fn default_config_path(home: &str) -> (r: String)
    ensures
        r@ == default_config_path_of(home@),
{
    let mut s = home.to_owned();
    s.append("/.config/rclone/rclone.conf");
    s
}

/// Model of one row of the merged listing.
pub struct SpecMergedView {
    pub name: Seq<char>,
    pub kind: Seq<char>,
    pub mounted: bool,
    pub scheduled: bool,
    pub mount_point: Seq<char>,
}

/// One row of the merged listing: a remote's name and kind from the
/// configuration, the observed mount and schedule flags, and its
/// computed mount point.
pub struct MergedRemoteView {
    pub name: String,
    pub kind: String,
    pub mounted: bool,
    pub scheduled: bool,
    pub mount_point: String,
}

impl View for MergedRemoteView {
    type V = SpecMergedView;

    open spec fn view(&self) -> SpecMergedView {
        SpecMergedView {
            name: self.name@,
            kind: self.kind@,
            mounted: self.mounted,
            scheduled: self.scheduled,
            mount_point: self.mount_point@,
        }
    }
}

/// The row a remote contributes, given its observed flags.
pub open spec fn merged_row(e: SpecEntry, mounted: bool, scheduled: bool, home: Seq<char>)
    -> SpecMergedView {
    SpecMergedView {
        name: e.name,
        kind: e.kind,
        mounted: mounted,
        scheduled: scheduled,
        mount_point: mount_point_of(home, e.name),
    }
}

/// Merges parsed entries with their observed mount and schedule flags
/// into listing rows: row `i` pairs entry `i` with `statuses[i]`, in
/// order, and carries the entry's computed mount point.
pub fn merge_remote_views(
    entries: &Vec<RemoteEntry>,
    statuses: &Vec<(bool, bool)>,
    home: &str,
) -> (r: Vec<MergedRemoteView>)
    requires
        statuses@.len() == entries@.len(),
    ensures
        r@.len() == entries@.len(),
        forall|i: int|
            0 <= i < r@.len() ==> (#[trigger] r@[i])@ == merged_row(
                entries@[i]@,
                statuses@[i].0,
                statuses@[i].1,
                home@,
            ),
{
    let mut out: Vec<MergedRemoteView> = Vec::new();
    let mut i: usize = 0;
    while i < entries.len()
        invariant
            i <= entries@.len(),
            statuses@.len() == entries@.len(),
            out@.len() == i,
            forall|k: int|
                0 <= k < i ==> (#[trigger] out@[k])@ == merged_row(
                    entries@[k]@,
                    statuses@[k].0,
                    statuses@[k].1,
                    home@,
                ),
        decreases entries@.len() - i,
    {
        let mp = mount_dir(home, entries[i].name.as_str());
        let row = MergedRemoteView {
            name: entries[i].name.clone(),
            kind: entries[i].kind.clone(),
            mounted: statuses[i].0,
            scheduled: statuses[i].1,
            mount_point: mp,
        };
        out.push(row);
        i = i + 1;
    }
    out
}

/// The key whose value names a new remote.
pub fn remote_name_of(fields: &Vec<(String, String)>) -> (r: Option<String>)
    ensures
        r is Some <==> has_key(fields_view(fields@), remote_name_key()),
        r matches Some(v) ==> v@ == lookup(fields_view(fields@), remote_name_key()),
{
    let rn: Vec<char> = {
        let mut w: Vec<char> = Vec::new();
        w.push('r');
        w.push('e');
        w.push('m');
        w.push('o');
        w.push('t');
        w.push('e');
        w.push('_');
        w.push('n');
        w.push('a');
        w.push('m');
        w.push('e');
        w
    };
    proof {
        assert(rn@ =~= remote_name_key());
    }
    let rn_s = crate::text::chars_to_string(&rn);
    crate::config::lookup_value(fields, rn_s.as_str())
}

/// The key whose value is obscured before it is persisted.
pub open spec fn pass_key() -> Seq<char> {
    seq!['p', 'a', 's', 's']
}

/// Whether a field's value is to be obscured before persisting: exactly
/// the nonempty values of the `pass` field; an empty `pass` value is
/// stored as it is.
pub fn needs_obscure(key: &str, value: &str) -> (r: bool)
    ensures
        r == (key@ == pass_key() && value@.len() > 0),
{
    let kc = crate::text::str_to_chars(key);
    let pk: Vec<char> = {
        let mut w: Vec<char> = Vec::new();
        w.push('p');
        w.push('a');
        w.push('s');
        w.push('s');
        w
    };
    proof {
        assert(pk@ =~= pass_key());
    }
    let is_pass = crate::text::vec_eq(&kc, &pk);
    let n = value.unicode_len();
    is_pass && n > 0
}

} // verus!
