//! Schedule-text editing: the canonical mount command line for a remote,
//! membership of a remote in a schedule text, and the pure edits that add
//! or remove a remote's auto-mount entry. Reading and writing the real
//! schedule is the caller's concern; these functions only compute texts.

use vstd::prelude::*;

use crate::text::join_lines;
use crate::text::lines_view;
use crate::text::spec_contains;
use crate::text::split_lines;

verus! {

/// The canonical command-line fragment that identifies a remote's
/// auto-mount entry in the schedule text.
pub open spec fn mount_cmd(name: Seq<char>) -> Seq<char> {
    "rclone mount --vfs-cache-mode writes "@ + name + ":"@
}

/// Builds the canonical mount command fragment for a remote.
pub fn mount_command(name: &str) -> (r: String)
    ensures
        r@ == mount_cmd(name@),
{
    let mut s = "rclone mount --vfs-cache-mode writes ".to_owned();
    s.append(name);
    s.append(":");
    s
}

/// Whether the schedule text already holds the remote's mount command.
pub fn is_scheduled(cron: &str, name: &str) -> (r: bool)
    ensures
        r == spec_contains(cron@, mount_cmd(name@)),
{
    let cmd = mount_command(name);
    let hay = crate::text::str_to_chars(cron);
    let needle = crate::text::str_to_chars(cmd.as_str());
    crate::text::contains_sub(&hay, &needle)
}

/// The schedule line appended for a remote: run its mount command at
/// startup, against its mount point.
pub open spec fn schedule_entry(name: Seq<char>, mount_point: Seq<char>) -> Seq<char> {
    "@reboot "@ + mount_cmd(name) + " "@ + mount_point + "\n"@
}

/// The schedule text with the remote's auto-mount entry appended, or
/// `None` when an entry for the remote is already present, in which case
/// the text is to be left as it is.
pub fn schedule_mount(cron: &str, name: &str, mount_point: &str) -> (r: Option<String>)
    ensures
        spec_contains(cron@, mount_cmd(name@)) <==> r is None,
        r matches Some(s) ==> s@ == cron@ + schedule_entry(name@, mount_point@),
{
    if is_scheduled(cron, name) {
        return None;
    }
    let mut s = cron.to_owned();
    s.append("@reboot ");
    let cmd = mount_command(name);
    s.append(cmd.as_str());
    s.append(" ");
    s.append(mount_point);
    s.append("\n");
    proof {
        assert(s@ =~= cron@ + schedule_entry(name@, mount_point@));
    }
    Some(s)
}

/// The schedule's lines, a trailing newline not counting as an extra
/// empty line.
pub open spec fn cron_lines(s: Seq<char>) -> Seq<Seq<char>> {
    if s.len() > 0 && s.last() == '\n' {
        split_lines(s).drop_last()
    } else {
        split_lines(s)
    }
}

/// The lines that survive removing a remote's entries: every line that
/// holds the remote's mount command is dropped; all others are kept
/// verbatim, in order.
pub open spec fn kept_cron_lines(ls: Seq<Seq<char>>, cmd: Seq<char>) -> Seq<Seq<char>>
    decreases ls.len(),
{
    if ls.len() == 0 {
        Seq::<Seq<char>>::empty()
    } else if spec_contains(ls[0], cmd) {
        kept_cron_lines(ls.drop_first(), cmd)
    } else {
        seq![ls[0]] + kept_cron_lines(ls.drop_first(), cmd)
    }
}

/// The schedule text after removing a remote's entries, newline-joined
/// with a final newline.
pub open spec fn spec_remove_schedule(cron: Seq<char>, name: Seq<char>) -> Seq<char> {
    join_lines(kept_cron_lines(cron_lines(cron), mount_cmd(name))) + "\n"@
}

/// Removes every schedule line that holds the remote's mount command,
/// keeping all other lines verbatim, and ends the text with a newline.
pub fn remove_schedule_entries(cron: &str, name: &str) -> (r: String)
    ensures
        r@ == spec_remove_schedule(cron@, name@),
{
    let cmd = mount_command(name);
    let needle = crate::text::str_to_chars(cmd.as_str());
    let chars = crate::text::str_to_chars(cron);
    let mut lines = crate::text::split_vec(&chars);
    if chars.len() > 0 && chars[chars.len() - 1] == '\n' {
        proof {
            crate::text::lemma_split_lines_nonempty(cron@);
        }
        let _popped = lines.pop();
        proof {
            assert(lines_view(lines@) =~= split_lines(cron@).drop_last());
        }
    }
    proof {
        assert(lines_view(lines@) == cron_lines(cron@));
    }
    let ghost lv = lines_view(lines@);
    let mut kept: Vec<Vec<char>> = Vec::new();
    let mut i: usize = 0;
    proof {
        assert(lv.skip(0) =~= lv);
        assert(lines_view(kept@) =~= Seq::<Seq<char>>::empty());
        assert(lines_view(kept@) + kept_cron_lines(lv, needle@) =~= kept_cron_lines(
            lv,
            needle@,
        ));
    }
    while i < lines.len()
        invariant
            i <= lines@.len(),
            lv == lines_view(lines@),
            needle@ == mount_cmd(name@),
            kept_cron_lines(lv, needle@) == lines_view(kept@) + kept_cron_lines(
                lv.skip(i as int),
                needle@,
            ),
        decreases lines@.len() - i,
    {
        proof {
            assert(lv.skip(i as int)[0] == lv[i as int]);
            assert(lv.skip(i as int).drop_first() =~= lv.skip(i as int + 1));
        }
        let ghost pre = lines_view(kept@);
        if !crate::text::contains_sub(&lines[i], &needle) {
            kept.push(crate::config::copy_line(&lines[i]));
            proof {
                assert(lines_view(kept@) =~= pre + seq![lv[i as int]]);
                assert(pre + (seq![lv[i as int]] + kept_cron_lines(
                    lv.skip(i as int + 1),
                    needle@,
                )) =~= lines_view(kept@) + kept_cron_lines(lv.skip(i as int + 1), needle@));
            }
        }
        i = i + 1;
    }
    proof {
        assert(lv.skip(lv.len() as int) =~= Seq::<Seq<char>>::empty());
        assert(lines_view(kept@) + Seq::<Seq<char>>::empty() =~= lines_view(kept@));
    }
    let joined = crate::text::join_vec(&kept);
    let mut out = crate::text::chars_to_string(&joined);
    out.append("\n");
    out
}

} // verus!
