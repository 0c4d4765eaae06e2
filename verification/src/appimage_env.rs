//! Host-safe environment for child processes of an application running from
//! an AppImage.
//!
//! The AppImage launcher points `LD_LIBRARY_PATH`, `PYTHONHOME` and related
//! variables at its mount directory. System tools spawned by the application
//! would then link against the older bundled libraries and crash, so their
//! environment is restored: saved `ORIGINAL_*` values win, search paths lose
//! the entries under the mount, and single-directory variables that point into
//! the mount are removed.
use vstd::prelude::*;
use crate::path::{
    comp_text, comps_start_with, file_name, file_name_of, parent, parent_of, parse_path,
    parse_path_chars, path_components, path_eq, path_starts_with, Comp, ParsedPath,
    PathComponent,
};
use crate::text::{
    chars_of, copy_chars, is_prefix_of, lemma_split_nonempty, split_chars, split_from,
    starts_with_chars, string_of, views_of,
};

verus! {

/// Keys that the launcher sets to a single bundled directory, replacing what
/// the user had: they are removed on children when they still reference the
/// mount, unless an `ORIGINAL_*` value restores them.
pub const APPDIR_SCOPED_KEYS: [&'static str; 6] = [
    "PYTHONHOME",
    "PERLLIB",
    "GTK_PATH",
    "QT_PLUGIN_PATH",
    "GST_PLUGIN_SYSTEM_PATH",
    "GST_PLUGIN_SYSTEM_PATH_1_0",
];

/// Colon-separated search paths that mix bundled and user entries, so they
/// are filtered per entry rather than removed. `PYTHONPATH` is one of them:
/// the launcher prepends the bundled entry to what the user already had.
pub const PATH_LIKE_KEYS: [&'static str; 3] = ["LD_LIBRARY_PATH", "PATH", "PYTHONPATH"];

/// The position of the last `c` in `s`, if any.
pub open spec fn last_index_of(s: Seq<char>, c: char) -> Option<int>
    decreases s.len(),
{
    if s.len() == 0 {
        None
    } else if s.last() == c {
        Some(s.len() - 1)
    } else {
        last_index_of(s.drop_last(), c)
    }
}

/// The mount root and the shared name prefix of this application's mounts:
/// the parent of `appdir`, and its file name up to and including the last
/// dot. There is none when `appdir` has no parent or file name, or when the
/// name has no dot after its first character (a bare dot prefix would match
/// every hidden directory under the root).
pub open spec fn spec_sibling_mount_pattern(appdir: Seq<Comp>) -> Option<(Seq<Comp>, Seq<char>)> {
    match parent_of(appdir) {
        None => None,
        Some(root) => match file_name_of(appdir) {
            None => None,
            Some(name) => match last_index_of(name, '.') {
                Some(dot) => if dot > 0 {
                    Some((root, name.subrange(0, dot + 1)))
                } else {
                    None
                },
                None => None,
            },
        },
    }
}

/// Whether `path` is `root` or lies below it.
pub open spec fn spec_is_under_or_equal(path: Seq<Comp>, root: Seq<Comp>) -> bool {
    path == root || comps_start_with(path, root)
}

/// Whether `path` lies under the current mount or under a sibling mount of
/// the same application: below the mount root, with a first component past
/// the root that begins with the shared name prefix.
pub open spec fn spec_is_under_app_mount(path: Seq<Comp>, appdir: Seq<Comp>) -> bool {
    spec_is_under_or_equal(path, appdir) || match spec_sibling_mount_pattern(appdir) {
        None => false,
        Some((root, prefix)) => {
            &&& comps_start_with(path, root)
            &&& path.len() > root.len()
            &&& is_prefix_of(prefix, comp_text(path[root.len() as int]))
        },
    }
}

fn last_dot(name: &Vec<char>) -> (pos: Option<usize>)
    ensures
        match pos {
            Some(i) => last_index_of(name@, '.') == Some(i as int),
            None => last_index_of(name@, '.') is None,
        },
        pos matches Some(i) ==> i < name@.len(),
{
    let mut i: usize = name.len();
    assert(name@.subrange(0, i as int) =~= name@);
    while i > 0
        invariant
            i <= name@.len(),
            last_index_of(name@, '.') == last_index_of(name@.subrange(0, i as int), '.'),
        decreases i,
    {
        assert(name@.subrange(0, i as int).drop_last() =~= name@.subrange(0, i - 1));
        if name[i - 1] == '.' {
            return Some(i - 1);
        }
        i = i - 1;
    }
    None
}

/// The mount root and shared filename prefix of this application's mounts,
/// derived from `appdir` rather than a fixed `/tmp`, since the mount root
/// follows `$TMPDIR`.
///
/// `/tmp/.mount_Buzz.AmOPMHe` yields `/tmp` and `.mount_Buzz.`, which also
/// matches `/tmp/.mount_Buzz.AkBFKAC`.
pub fn sibling_mount_pattern(appdir: &ParsedPath) -> (pattern: Option<(ParsedPath, String)>)
    ensures
        pattern is None <==> spec_sibling_mount_pattern(appdir@) is None,
        pattern matches Some((root, prefix)) ==> spec_sibling_mount_pattern(appdir@) == Some(
            (root@, prefix@),
        ),
{
    let root = match parent(appdir) {
        Some(r) => r,
        None => return None,
    };
    let name = match file_name(appdir) {
        Some(n) => n,
        None => return None,
    };
    let dot = match last_dot(&name) {
        Some(d) => d,
        None => return None,
    };
    if dot == 0 {
        return None;
    }
    let len = name.len();
    assert(dot < len);
    let mut prefix = name;
    prefix.truncate(dot + 1);
    let text = string_of(&prefix);
    Some((root, text))
}

/// Whether `path` is `root` or lies below it.
pub fn is_under_or_equal(path: &ParsedPath, root: &ParsedPath) -> (under: bool)
    ensures
        under == spec_is_under_or_equal(path@, root@),
{
    if path_eq(path, root) {
        return true;
    }
    path_starts_with(path, root)
}

fn component_text_starts_with(c: &PathComponent, prefix: &String) -> (yes: bool)
    ensures
        yes == is_prefix_of(prefix@, comp_text(c@)),
{
    let p = chars_of(prefix.as_str());
    let text: Vec<char> = match c {
        PathComponent::RootDir => vec!['/'],
        PathComponent::CurDir => vec!['.'],
        PathComponent::ParentDir => vec!['.', '.'],
        PathComponent::Normal(name) => copy_chars(name),
    };
    assert(text@ == comp_text(c@));
    starts_with_chars(&text, &p)
}

/// True when `path` sits under the current mount **or** under a sibling
/// mount of the same application.
///
/// Filtering only against the current mount leaves entries from a
/// concurrently mounted older build in place, which brings back the same
/// stale-library failure: the launcher prepends the new mount to the
/// inherited value, so relaunching while an older instance still holds its
/// mount accumulates both.
pub fn is_under_app_mount(path: &ParsedPath, appdir: &ParsedPath) -> (under: bool)
    ensures
        under == spec_is_under_app_mount(path@, appdir@),
{
    if is_under_or_equal(path, appdir) {
        return true;
    }
    let (root, prefix) = match sibling_mount_pattern(appdir) {
        Some(p) => p,
        None => return false,
    };
    if !path_starts_with(path, &root) {
        return false;
    }
    let n = root.components.len();
    if n >= path.components.len() {
        return false;
    }
    component_text_starts_with(&path.components[n], &prefix)
}

/// The entries of a search path that do not lie under the application's
/// mounts, in their order.
pub open spec fn kept_entries(entries: Seq<Seq<char>>, appdir: Seq<Comp>) -> Seq<Seq<char>>
    decreases entries.len(),
{
    if entries.len() == 0 {
        Seq::empty()
    } else {
        let front = kept_entries(entries.drop_last(), appdir);
        if spec_is_under_app_mount(path_components(entries.last()), appdir) {
            front
        } else {
            front.push(entries.last())
        }
    }
}

/// The parts joined with `sep` between neighbours.
pub open spec fn join_with(parts: Seq<Seq<char>>, sep: char) -> Seq<char>
    decreases parts.len(),
{
    if parts.len() == 0 {
        Seq::empty()
    } else if parts.len() == 1 {
        parts[0]
    } else {
        join_with(parts.drop_last(), sep) + seq![sep] + parts.last()
    }
}

/// A colon-separated search path without the entries under the
/// application's mounts.
pub open spec fn spec_filter_appdir_entries(value: Seq<char>, appdir: Seq<char>) -> Seq<char> {
    join_with(kept_entries(split_chars(value, ':'), path_components(appdir)), ':')
}

/// Drops from the colon-separated search path `value` every entry that lies
/// under the mount `appdir` or under a sibling mount of the same application,
/// keeping the others, unchanged and in order.
pub fn filter_appdir_entries(value: &str, appdir: &str) -> (cleaned: String)
    ensures
        cleaned@ == spec_filter_appdir_entries(value@, appdir@),
{
    let chars = chars_of(value);
    let entries = split_from(&chars, 0, ':');
    assert(chars@.subrange(0, chars@.len() as int) =~= chars@);
    let mount = parse_path(appdir);
    let ghost all = views_of(entries@);
    let mut out: Vec<char> = Vec::new();
    let mut kept: usize = 0;
    let mut i: usize = 0;
    while i < entries.len()
        invariant
            i <= entries@.len(),
            all == views_of(entries@),
            all == split_chars(value@, ':'),
            mount@ == path_components(appdir@),
            kept == kept_entries(all.subrange(0, i as int), mount@).len(),
            kept <= i,
            out@ == join_with(kept_entries(all.subrange(0, i as int), mount@), ':'),
        decreases entries@.len() - i,
    {
        let ghost front = kept_entries(all.subrange(0, i as int), mount@);
        assert(all.subrange(0, i + 1).drop_last() =~= all.subrange(0, i as int));
        assert(all.subrange(0, i + 1).last() == entries@[i as int]@);
        let entry = &entries[i];
        let p = parse_path_chars(entry);
        if !is_under_app_mount(&p, &mount) {
            let ghost before = out@;
            if kept > 0 {
                out.push(':');
            }
            for j in 0..entry.len()
                invariant
                    out@ == before + (if kept > 0 { seq![':'] } else { Seq::<char>::empty() })
                        + entry@.subrange(0, j as int),
            {
                out.push(entry[j]);
                assert(entry@.subrange(0, j + 1) =~= entry@.subrange(0, j as int).push(entry@[j as int]));
            }
            assert(entry@.subrange(0, entry@.len() as int) =~= entry@);
            let ghost grown = front.push(entry@);
            assert(grown.drop_last() =~= front);
            if kept == 0 {
                assert(out@ =~= entry@);
            } else {
                assert(out@ =~= before + seq![':'] + entry@);
            }
            kept = kept + 1;
        }
        i = i + 1;
    }
    assert(all.subrange(0, i as int) =~= all);
    string_of(&out)
}

/// Whether `needle` occurs in `hay` at some position.
pub open spec fn contains_seq(hay: Seq<char>, needle: Seq<char>) -> bool {
    exists|i: int| 0 <= i <= hay.len() - needle.len() && #[trigger] hay.subrange(i, i + needle.len()) == needle
}

fn contains_chars(hay: &Vec<char>, needle: &Vec<char>) -> (found: bool)
    ensures
        found == contains_seq(hay@, needle@),
{
    if needle.len() > hay.len() {
        return false;
    }
    if needle.len() == 0 {
        assert(hay@.subrange(0int, 0int + needle@.len()) =~= needle@);
        return true;
    }
    let last = hay.len() - needle.len();
    let mut i: usize = 0;
    while i <= last
        invariant
            last == hay@.len() - needle@.len(),
            needle@.len() <= hay@.len(),
            needle@.len() > 0,
            hay@.len() == hay.len(),
            i <= last + 1,
            forall|k: int| 0 <= k < i ==> #[trigger] hay@.subrange(k, k + needle@.len()) != needle@,
        decreases last + 1 - i,
    {
        let mut j: usize = 0;
        let mut same = true;
        while j < needle.len()
            invariant
                i <= last,
                last == hay@.len() - needle@.len(),
                needle@.len() <= hay@.len(),
                hay@.len() == hay.len(),
                j <= needle@.len(),
                same == (forall|m: int| 0 <= m < j ==> hay@[i + m] == needle@[m]),
            decreases needle@.len() - j,
        {
            if hay[i + j] != needle[j] {
                same = false;
            }
            j = j + 1;
        }
        if same {
            assert(hay@.subrange(i as int, i + needle@.len()) =~= needle@);
            return true;
        } else {
            assert(hay@.subrange(i as int, i + needle@.len()) != needle@) by {
                let m = choose|m: int| 0 <= m < needle@.len() && hay@[i + m] != needle@[m];
                assert(hay@.subrange(i as int, i + needle@.len())[m] == hay@[i + m]);
            }
        }
        i = i + 1;
    }
    false
}

/// Whether a single-directory value points into the application's mounts:
/// it holds the text of `appdir`, or one of its colon-separated entries lies
/// under the mount or a sibling mount.
pub open spec fn spec_value_references_appdir(value: Seq<char>, appdir: Seq<char>) -> bool {
    ||| contains_seq(value, appdir)
    ||| exists|i: int|
        0 <= i < split_chars(value, ':').len() && spec_is_under_app_mount(
            path_components(#[trigger] split_chars(value, ':')[i]),
            path_components(appdir),
        )
}

/// Whether `value` references the mount `appdir`.
pub fn value_references_appdir(value: &str, appdir: &str) -> (refs: bool)
    ensures
        refs == spec_value_references_appdir(value@, appdir@),
{
    let chars = chars_of(value);
    let needle = chars_of(appdir);
    if contains_chars(&chars, &needle) {
        return true;
    }
    let entries = split_from(&chars, 0, ':');
    assert(chars@.subrange(0, chars@.len() as int) =~= chars@);
    let mount = parse_path(appdir);
    let ghost all = views_of(entries@);
    for i in 0..entries.len()
        invariant
            all == views_of(entries@),
            all == split_chars(value@, ':'),
            mount@ == path_components(appdir@),
            forall|k: int| 0 <= k < i ==> !spec_is_under_app_mount(
                path_components(#[trigger] all[k]),
                mount@,
            ),
    {
        let p = parse_path_chars(&entries[i]);
        assert(all[i as int] == entries@[i as int]@);
        if is_under_app_mount(&p, &mount) {
            return true;
        }
    }
    false
}

/// What a child's environment gets for one variable.
#[derive(Debug, PartialEq, Eq)]
pub enum EnvAction {
    /// Leave the inherited value as it is.
    Keep,
    /// Remove the variable.
    Remove,
    /// Set the variable to the value saved in its `ORIGINAL_` variable.
    Restore,
    /// Set the variable to the given value.
    SetTo(String),
}

/// The name of the variable in which the launcher saved the user's own
/// value of `key`.
pub fn original_key(key: &str) -> (name: String)
    ensures
        name@ == "ORIGINAL_"@ + key@,
{
    let mut name = String::new();
    name.append("ORIGINAL_");
    name.append(key);
    name
}

/// The action for a saved `ORIGINAL_` value: an empty one removes the
/// variable, any other restores it.
pub open spec fn restored_action_is(original_is_empty: bool, action: EnvAction) -> bool {
    if original_is_empty {
        action is Remove
    } else {
        action is Restore
    }
}

/// The characters of an optional string slice.
pub open spec fn opt_chars(s: Option<&str>) -> Option<Seq<char>> {
    match s {
        Some(t) => Some(t@),
        None => None,
    }
}

/// The action a search path gets: a saved original wins; otherwise the mount
/// entries are filtered out of the current value, and the variable is
/// removed when nothing is left; an unset variable is kept. A mount path
/// that is not Unicode (`appdir` then being its lossy text) is under no
/// entry, so the value stays whole.
pub open spec fn path_like_action_is(
    action: EnvAction,
    original_is_empty: Option<bool>,
    current: Option<Seq<char>>,
    appdir: Seq<char>,
    appdir_is_unicode: bool,
) -> bool {
    match original_is_empty {
        Some(empty) => restored_action_is(empty, action),
        None => match current {
            None => action is Keep,
            Some(v) => {
                let cleaned = if appdir_is_unicode {
                    spec_filter_appdir_entries(v, appdir)
                } else {
                    v
                };
                if cleaned.len() == 0 {
                    action is Remove
                } else {
                    action matches EnvAction::SetTo(s) && s@ == cleaned
                }
            },
        },
    }
}

/// The action a single-directory variable gets: a saved original wins;
/// otherwise it is removed when its value references the mount, else kept.
/// A mount path that is not Unicode is referenced only by holding its lossy
/// text, as no entry lies under it.
pub open spec fn appdir_scoped_action_is(
    action: EnvAction,
    original_is_empty: Option<bool>,
    current: Option<Seq<char>>,
    appdir: Seq<char>,
    appdir_is_unicode: bool,
) -> bool {
    match original_is_empty {
        Some(empty) => restored_action_is(empty, action),
        None => match current {
            None => action is Keep,
            Some(v) => if (if appdir_is_unicode {
                spec_value_references_appdir(v, appdir)
            } else {
                contains_seq(v, appdir)
            }) {
                action is Remove
            } else {
                action is Keep
            },
        },
    }
}

/// The action for a colon-separated search path. `original_is_empty` tells
/// whether `ORIGINAL_<key>` is set (and then whether it is empty); `current`
/// is the inherited value, `None` when it is unset or not Unicode.
///
/// A saved original wins. Otherwise the mount entries are filtered out of the
/// current value, and the variable is removed when nothing is left.
/// `appdir` is the mount path's text, lossy when `appdir_is_unicode` is false.
pub fn path_like_action(
    original_is_empty: Option<bool>,
    current: Option<&str>,
    appdir: &str,
    appdir_is_unicode: bool,
) -> (action: EnvAction)
    ensures
        path_like_action_is(action, original_is_empty, opt_chars(current), appdir@, appdir_is_unicode),
{
    match original_is_empty {
        Some(true) => return EnvAction::Remove,
        Some(false) => return EnvAction::Restore,
        None => {},
    }
    let value = match current {
        Some(v) => v,
        None => return EnvAction::Keep,
    };
    let cleaned = if appdir_is_unicode {
        filter_appdir_entries(value, appdir)
    } else {
        String::from_str(value)
    };
    if cleaned.unicode_len() == 0 {
        EnvAction::Remove
    } else {
        EnvAction::SetTo(cleaned)
    }
}

/// The action for a variable that the launcher sets to a single bundled
/// directory: a saved original wins; otherwise the variable is removed when
/// its current value references the mount, and kept when not.
/// `appdir` is the mount path's text, lossy when `appdir_is_unicode` is false.
pub fn appdir_scoped_action(
    original_is_empty: Option<bool>,
    current: Option<&str>,
    appdir: &str,
    appdir_is_unicode: bool,
) -> (action: EnvAction)
    ensures
        appdir_scoped_action_is(action, original_is_empty, opt_chars(current), appdir@, appdir_is_unicode),
{
    match original_is_empty {
        Some(true) => return EnvAction::Remove,
        Some(false) => return EnvAction::Restore,
        None => {},
    }
    match current {
        Some(v) => if (if appdir_is_unicode {
            value_references_appdir(v, appdir)
        } else {
            contains_chars(&chars_of(v), &chars_of(appdir))
        }) {
            EnvAction::Remove
        } else {
            EnvAction::Keep
        },
        None => EnvAction::Keep,
    }
}

/// The mount pattern is the mount's parent and a name prefix of at least two
/// characters that ends in a dot, so it never degrades to a bare `.`.
pub proof fn law_mount_pattern_shape(appdir: Seq<Comp>)
    ensures
        spec_sibling_mount_pattern(appdir) matches Some((root, prefix)) ==> {
            &&& root == appdir.drop_last()
            &&& prefix.len() >= 2
            &&& prefix.last() == '.'
        },
{
    if spec_sibling_mount_pattern(appdir) is Some {
        let name = file_name_of(appdir)->0;
        lemma_last_index_of(name, '.');
    }
}

proof fn lemma_last_index_of(s: Seq<char>, c: char)
    ensures
        last_index_of(s, c) matches Some(i) ==> 0 <= i < s.len() && s[i] == c,
    decreases s.len(),
{
    if s.len() > 0 && s.last() != c {
        lemma_last_index_of(s.drop_last(), c);
    }
}

/// The mount itself and everything below it lie under the application's
/// mounts.
pub proof fn law_under_own_mount(path: Seq<Comp>, appdir: Seq<Comp>)
    requires
        comps_start_with(path, appdir),
    ensures
        spec_is_under_app_mount(path, appdir),
{
}

/// A sibling mount of the same application, such as an older build still
/// mounted, and everything below it lie under the application's mounts: a
/// path that continues the mount root with a name beginning with the mount
/// prefix.
pub proof fn law_sibling_mounts_are_app_mounts(
    appdir: Seq<Comp>,
    name: Seq<char>,
    rest: Seq<Comp>,
)
    requires
        spec_sibling_mount_pattern(appdir) matches Some((root, prefix)) && is_prefix_of(prefix, name),
    ensures
        spec_sibling_mount_pattern(appdir) matches Some((root, _)) && spec_is_under_app_mount(
            root + seq![Comp::Normal(name)] + rest,
            appdir,
        ),
{
    let (root, prefix) = spec_sibling_mount_pattern(appdir)->0;
    let path = root + seq![Comp::Normal(name)] + rest;
    assert(path.subrange(0, root.len() as int) =~= root);
    assert(path[root.len() as int] == Comp::Normal(name));
}

proof fn lemma_kept_entries(entries: Seq<Seq<char>>, appdir: Seq<Comp>)
    ensures
        forall|i: int| 0 <= i < kept_entries(entries, appdir).len() ==> !spec_is_under_app_mount(
            path_components(#[trigger] kept_entries(entries, appdir)[i]),
            appdir,
        ),
        forall|i: int| 0 <= i < kept_entries(entries, appdir).len() ==> entries.contains(
            #[trigger] kept_entries(entries, appdir)[i],
        ),
        forall|i: int| 0 <= i < entries.len() && !spec_is_under_app_mount(
            path_components(#[trigger] entries[i]),
            appdir,
        ) ==> kept_entries(entries, appdir).contains(entries[i]),
    decreases entries.len(),
{
    if entries.len() > 0 {
        let front = entries.drop_last();
        lemma_kept_entries(front, appdir);
        let k = kept_entries(entries, appdir);
        let kf = kept_entries(front, appdir);
        assert forall|i: int| 0 <= i < k.len() implies entries.contains(#[trigger] k[i]) by {
            if i < kf.len() {
                assert(k[i] == kf[i]);
                let j = choose|j: int| 0 <= j < front.len() && front[j] == kf[i];
                assert(entries[j] == front[j]);
            } else {
                assert(k[i] == entries[entries.len() - 1]);
            }
        }
        assert forall|i: int| 0 <= i < entries.len() && !spec_is_under_app_mount(
            path_components(#[trigger] entries[i]),
            appdir,
        ) implies k.contains(entries[i]) by {
            if i < front.len() {
                assert(front[i] == entries[i]);
                let j = choose|j: int| 0 <= j < kf.len() && kf[j] == front[i];
                assert(k[j] == kf[j]);
            } else {
                assert(k[k.len() - 1] == entries[i]);
            }
        }
        assert forall|i: int| 0 <= i < k.len() implies !spec_is_under_app_mount(
            path_components(#[trigger] k[i]),
            appdir,
        ) by {
            if i < kf.len() {
                assert(k[i] == kf[i]);
            }
        }
    }
}

/// Filtering a search path keeps exactly the entries outside the
/// application's mounts: none of the kept entries lies under a mount, each is
/// an entry of the input, and every input entry outside the mounts is kept.
pub proof fn law_filter_keeps_exactly_foreign_entries(value: Seq<char>, appdir: Seq<char>)
    ensures
        ({
            let entries = split_chars(value, ':');
            let mount = path_components(appdir);
            let kept = kept_entries(entries, mount);
            &&& spec_filter_appdir_entries(value, appdir) == join_with(kept, ':')
            &&& forall|i: int| 0 <= i < kept.len() ==> !spec_is_under_app_mount(
                path_components(#[trigger] kept[i]),
                mount,
            )
            &&& forall|i: int| 0 <= i < kept.len() ==> entries.contains(#[trigger] kept[i])
            &&& forall|i: int| 0 <= i < entries.len() && !spec_is_under_app_mount(
                path_components(#[trigger] entries[i]),
                mount,
            ) ==> kept.contains(entries[i])
        }),
{
    lemma_kept_entries(split_chars(value, ':'), path_components(appdir));
}

proof fn lemma_split_pieces_lack_sep(s: Seq<char>, sep: char)
    ensures
        forall|i: int| 0 <= i < split_chars(s, sep).len() ==> !(#[trigger] split_chars(s, sep)[i]).contains(sep),
    decreases s.len(),
{
    lemma_split_nonempty(s, sep);
    if s.len() > 0 {
        let r = split_chars(s.drop_last(), sep);
        lemma_split_pieces_lack_sep(s.drop_last(), sep);
        lemma_split_nonempty(s.drop_last(), sep);
        if s.last() != sep {
            let grown = r.last().push(s.last());
            assert(!grown.contains(sep)) by {
                if grown.contains(sep) {
                    let j = choose|j: int| 0 <= j < grown.len() && grown[j] == sep;
                    if j < r.last().len() {
                        assert(r.last()[j] == sep);
                        assert(r[r.len() - 1].contains(sep));
                    }
                }
            }
        }
    }
}

proof fn lemma_split_append_plain(s: Seq<char>, piece: Seq<char>, sep: char)
    requires
        !piece.contains(sep),
    ensures
        split_chars(s + piece, sep) == split_chars(s, sep).update(
            split_chars(s, sep).len() - 1,
            split_chars(s, sep).last() + piece,
        ),
    decreases piece.len(),
{
    lemma_split_nonempty(s, sep);
    let r = split_chars(s, sep);
    if piece.len() == 0 {
        assert(s + piece =~= s);
        assert(r.last() + piece =~= r.last());
        assert(r.update(r.len() - 1, r.last() + piece) =~= r);
    } else {
        let front = piece.drop_last();
        assert(!front.contains(sep)) by {
            if front.contains(sep) {
                let j = choose|j: int| 0 <= j < front.len() && front[j] == sep;
                assert(piece[j] == sep);
            }
        }
        lemma_split_append_plain(s, front, sep);
        assert((s + piece).drop_last() =~= s + front);
        assert((s + piece).last() == piece.last());
        assert(piece.last() != sep) by {
            assert(piece[piece.len() - 1] == piece.last());
        }
        let rf = split_chars(s + front, sep);
        assert(r.last() + front + seq![piece.last()] =~= r.last() + piece) by {
            assert(front.push(piece.last()) =~= piece);
        }
        assert(rf.update(rf.len() - 1, rf.last().push(piece.last())) =~= r.update(r.len() - 1, r.last() + piece));
    }
}

proof fn lemma_split_join(parts: Seq<Seq<char>>, sep: char)
    requires
        parts.len() >= 1,
        forall|i: int| 0 <= i < parts.len() ==> !(#[trigger] parts[i]).contains(sep),
    ensures
        split_chars(join_with(parts, sep), sep) == parts,
    decreases parts.len(),
{
    if parts.len() == 1 {
        lemma_split_append_plain(Seq::empty(), parts[0], sep);
        assert(Seq::<char>::empty() + parts[0] =~= parts[0]);
        assert(split_chars(Seq::<char>::empty(), sep).update(0, Seq::<char>::empty() + parts[0]) =~= parts);
    } else {
        let front = parts.drop_last();
        lemma_split_join(front, sep);
        let x = join_with(front, sep);
        let with_sep = x + seq![sep];
        assert(with_sep.drop_last() =~= x);
        lemma_split_nonempty(x, sep);
        assert(split_chars(with_sep, sep) == front.push(Seq::<char>::empty()));
        lemma_split_append_plain(with_sep, parts.last(), sep);
        assert(Seq::<char>::empty() + parts.last() =~= parts.last());
        assert(front.push(Seq::<char>::empty()).update(front.len() as int, Seq::<char>::empty() + parts.last()) =~= parts);
    }
}

proof fn lemma_kept_entries_idempotent(entries: Seq<Seq<char>>, appdir: Seq<Comp>)
    ensures
        kept_entries(kept_entries(entries, appdir), appdir) == kept_entries(entries, appdir),
    decreases entries.len(),
{
    if entries.len() > 0 {
        let front = entries.drop_last();
        lemma_kept_entries_idempotent(front, appdir);
        let kf = kept_entries(front, appdir);
        let e = entries.last();
        if !spec_is_under_app_mount(path_components(e), appdir) {
            assert(kf.push(e).drop_last() =~= kf);
        }
    }
}

/// Filtering the mount entries out of a search path a second time changes
/// nothing.
pub proof fn law_filter_idempotent(value: Seq<char>, appdir: Seq<char>)
    ensures
        spec_filter_appdir_entries(spec_filter_appdir_entries(value, appdir), appdir)
            == spec_filter_appdir_entries(value, appdir),
{
    let mount = path_components(appdir);
    let entries = split_chars(value, ':');
    let kept = kept_entries(entries, mount);
    lemma_kept_entries(entries, mount);
    lemma_split_pieces_lack_sep(value, ':');
    lemma_kept_entries_idempotent(entries, mount);
    if kept.len() >= 1 {
        assert forall|i: int| 0 <= i < kept.len() implies !(#[trigger] kept[i]).contains(':') by {
            let j = choose|j: int| 0 <= j < entries.len() && entries[j] == kept[i];
            assert(!entries[j].contains(':'));
        }
        lemma_split_join(kept, ':');
    } else {
        let empty = Seq::<char>::empty();
        assert(join_with(kept, ':') == empty);
        assert(split_chars(empty, ':') == seq![empty]);
        let again = kept_entries(seq![empty], mount);
        assert(seq![empty].drop_last() =~= Seq::<Seq<char>>::empty());
        assert(join_with(again, ':') =~= empty);
    }
}

/// What was seen of one watched variable in the process environment.
pub struct KeyObservation {
    /// The variable's name.
    pub key: String,
    /// Whether `ORIGINAL_<key>` is set, and then whether it is empty.
    pub saved_is_empty: Option<bool>,
    /// The inherited value, `None` when unset or not Unicode.
    pub current: Option<String>,
}

/// The first observation of `key`, if any.
pub open spec fn find_observation(obs: Seq<KeyObservation>, key: Seq<char>) -> Option<KeyObservation>
    decreases obs.len(),
{
    if obs.len() == 0 {
        None
    } else if obs[0].key@ == key {
        Some(obs[0])
    } else {
        find_observation(obs.drop_first(), key)
    }
}

/// Whether `ORIGINAL_<key>` was seen set (and empty); unseen keys count as
/// unset.
pub open spec fn seen_saved(obs: Seq<KeyObservation>, key: Seq<char>) -> Option<bool> {
    match find_observation(obs, key) {
        Some(o) => o.saved_is_empty,
        None => None,
    }
}

/// The inherited value seen for `key`; unseen keys count as unset.
pub open spec fn seen_current(obs: Seq<KeyObservation>, key: Seq<char>) -> Option<Seq<char>> {
    match find_observation(obs, key) {
        Some(o) => match o.current {
            Some(v) => Some(v@),
            None => None,
        },
        None => None,
    }
}

/// Whether `plan` is what a child's environment gets: nothing without a
/// mount; with mount `appdir`, one action for each search-path key and then
/// one for each single-directory key, in the order of the key lists.
pub open spec fn plan_matches(
    plan: Seq<(&str, EnvAction)>,
    appdir: Option<Seq<char>>,
    appdir_is_unicode: bool,
    obs: Seq<KeyObservation>,
) -> bool {
    match appdir {
        None => plan.len() == 0,
        Some(a) => {
            &&& plan.len() == 9
            &&& forall|i: int| 0 <= i < 3 ==> {
                &&& (#[trigger] plan[i]).0 == PATH_LIKE_KEYS[i]
                &&& path_like_action_is(
                    plan[i].1,
                    seen_saved(obs, PATH_LIKE_KEYS[i]@),
                    seen_current(obs, PATH_LIKE_KEYS[i]@),
                    a,
                    appdir_is_unicode,
                )
            }
            &&& forall|i: int| 3 <= i < 9 ==> {
                &&& (#[trigger] plan[i]).0 == APPDIR_SCOPED_KEYS[i - 3]
                &&& appdir_scoped_action_is(
                    plan[i].1,
                    seen_saved(obs, APPDIR_SCOPED_KEYS[i - 3]@),
                    seen_current(obs, APPDIR_SCOPED_KEYS[i - 3]@),
                    a,
                    appdir_is_unicode,
                )
            }
        },
    }
}

fn find_observed<'a>(obs: &'a Vec<KeyObservation>, key: &str) -> (found: Option<&'a KeyObservation>)
    ensures
        match found {
            Some(o) => find_observation(obs@, key@) == Some(*o),
            None => find_observation(obs@, key@) is None,
        },
{
    let wanted = String::from_str(key);
    let n = obs.len();
    assert(obs@.subrange(0, n as int) =~= obs@);
    for i in 0..n
        invariant
            n == obs@.len(),
            wanted@ == key@,
            find_observation(obs@, key@) == find_observation(obs@.subrange(i as int, n as int), key@),
    {
        let ghost rest = obs@.subrange(i as int, n as int);
        assert(rest[0] == obs@[i as int]);
        assert(rest.drop_first() =~= obs@.subrange(i + 1, n as int));
        if obs[i].key == wanted {
            return Some(&obs[i]);
        }
    }
    assert(obs@.subrange(n as int, n as int).len() == 0);
    None
}

fn observed_parts<'a>(obs: &'a Vec<KeyObservation>, key: &str) -> (parts: (Option<bool>, Option<&'a str>))
    ensures
        parts.0 == seen_saved(obs@, key@),
        opt_chars(parts.1) == seen_current(obs@, key@),
{
    match find_observed(obs, key) {
        Some(o) => match &o.current {
            Some(v) => (o.saved_is_empty, Some(v.as_str())),
            None => (o.saved_is_empty, None),
        },
        None => (None, None),
    }
}

/// The changes a child's environment gets, from what was seen of the
/// watched variables: nothing when the application does not run from a
/// mount (`appdir` is `None`), else one action per watched key, search-path
/// keys first. `appdir` is the mount path's text, lossy when
/// `appdir_is_unicode` is false.
pub fn child_env_plan(
    appdir: Option<&str>,
    appdir_is_unicode: bool,
    observed: &Vec<KeyObservation>,
) -> (plan: Vec<(&'static str, EnvAction)>)
    ensures
        plan_matches(plan@, opt_chars(appdir), appdir_is_unicode, observed@),
{
    let mut plan: Vec<(&'static str, EnvAction)> = Vec::new();
    let a = match appdir {
        Some(a) => a,
        None => return plan,
    };
    for i in 0..3
        invariant
            plan@.len() == i,
            forall|j: int| 0 <= j < i ==> {
                &&& (#[trigger] plan@[j]).0 == PATH_LIKE_KEYS[j]
                &&& path_like_action_is(
                    plan@[j].1,
                    seen_saved(observed@, PATH_LIKE_KEYS[j]@),
                    seen_current(observed@, PATH_LIKE_KEYS[j]@),
                    a@,
                    appdir_is_unicode,
                )
            },
    {
        let key = PATH_LIKE_KEYS[i];
        let (saved, current) = observed_parts(observed, key);
        plan.push((key, path_like_action(saved, current, a, appdir_is_unicode)));
    }
    for i in 0..6
        invariant
            plan@.len() == 3 + i,
            forall|j: int| 0 <= j < 3 ==> {
                &&& (#[trigger] plan@[j]).0 == PATH_LIKE_KEYS[j]
                &&& path_like_action_is(
                    plan@[j].1,
                    seen_saved(observed@, PATH_LIKE_KEYS[j]@),
                    seen_current(observed@, PATH_LIKE_KEYS[j]@),
                    a@,
                    appdir_is_unicode,
                )
            },
            forall|j: int| 3 <= j < 3 + i ==> {
                &&& (#[trigger] plan@[j]).0 == APPDIR_SCOPED_KEYS[j - 3]
                &&& appdir_scoped_action_is(
                    plan@[j].1,
                    seen_saved(observed@, APPDIR_SCOPED_KEYS[j - 3]@),
                    seen_current(observed@, APPDIR_SCOPED_KEYS[j - 3]@),
                    a@,
                    appdir_is_unicode,
                )
            },
    {
        let key = APPDIR_SCOPED_KEYS[i];
        let (saved, current) = observed_parts(observed, key);
        plan.push((key, appdir_scoped_action(saved, current, a, appdir_is_unicode)));
    }
    plan
}

/// A child's environment changes only the watched variables, and nothing at
/// all when the application does not run from a mount.
pub proof fn law_plan_touches_only_watched_keys(
    plan: Seq<(&str, EnvAction)>,
    appdir: Option<Seq<char>>,
    appdir_is_unicode: bool,
    obs: Seq<KeyObservation>,
)
    requires
        plan_matches(plan, appdir, appdir_is_unicode, obs),
    ensures
        appdir is None ==> plan.len() == 0,
        forall|i: int| 0 <= i < plan.len() ==> (exists|j: int| 0 <= j < 3 && (#[trigger] plan[i]).0 == PATH_LIKE_KEYS[j])
            || (exists|j: int| 0 <= j < 6 && plan[i].0 == APPDIR_SCOPED_KEYS[j]),
{
    assert forall|i: int| 0 <= i < plan.len() implies (exists|j: int| 0 <= j < 3 && (#[trigger] plan[i]).0 == PATH_LIKE_KEYS[j])
        || (exists|j: int| 0 <= j < 6 && plan[i].0 == APPDIR_SCOPED_KEYS[j]) by {
        if i < 3 {
            assert(plan[i].0 == PATH_LIKE_KEYS[i]);
        } else {
            assert(plan[i].0 == APPDIR_SCOPED_KEYS[i - 3]);
        }
    }
}


/// A saved `ORIGINAL_<key>` decides alone, for both kinds of variable and
/// whatever the current value and the mount: a non-empty one is restored, an
/// empty one removes the variable.
pub proof fn law_saved_original_decides(
    action: EnvAction,
    saved_is_empty: bool,
    current: Option<Seq<char>>,
    appdir: Seq<char>,
    appdir_is_unicode: bool,
)
    ensures
        appdir_scoped_action_is(action, Some(saved_is_empty), current, appdir, appdir_is_unicode) ==> (
            if saved_is_empty { action is Remove } else { action is Restore }
        ),
        path_like_action_is(action, Some(saved_is_empty), current, appdir, appdir_is_unicode) ==> (
            if saved_is_empty { action is Remove } else { action is Restore }
        ),
{
}

/// A value references the mount when any one of its colon-separated entries
/// lies under the application's mounts (the current mount or a sibling), or
/// when it holds the mount path's text; and only then.
pub proof fn law_entry_under_mount_is_a_reference(value: Seq<char>, appdir: Seq<char>, i: int)
    ensures
        0 <= i < split_chars(value, ':').len() && spec_is_under_app_mount(
            path_components(split_chars(value, ':')[i]),
            path_components(appdir),
        ) ==> spec_value_references_appdir(value, appdir),
        contains_seq(value, appdir) ==> spec_value_references_appdir(value, appdir),
        spec_value_references_appdir(value, appdir) ==> contains_seq(value, appdir) || exists|j: int|
            0 <= j < split_chars(value, ':').len() && spec_is_under_app_mount(
                path_components(#[trigger] split_chars(value, ':')[j]),
                path_components(appdir),
            ),
{
}

/// A single-directory variable whose value has an entry under a sibling
/// mount of the same application, and no saved original, is removed.
pub proof fn law_sibling_entry_removes_scoped_variable(
    action: EnvAction,
    value: Seq<char>,
    appdir: Seq<char>,
    i: int,
)
    requires
        0 <= i < split_chars(value, ':').len(),
        spec_is_under_app_mount(path_components(split_chars(value, ':')[i]), path_components(appdir)),
        appdir_scoped_action_is(action, None, Some(value), appdir, true),
    ensures
        action is Remove,
{
}


proof fn lemma_join_holds_part(parts: Seq<Seq<char>>, sep: char, i: int)
    requires
        0 <= i < parts.len(),
    ensures
        join_with(parts, sep).len() >= parts[i].len(),
    decreases parts.len(),
{
    if parts.len() > 1 && i < parts.len() - 1 {
        lemma_join_holds_part(parts.drop_last(), sep, i);
    }
}

/// A search path without a saved original gets exactly its entries outside
/// the application's mounts: it is removed when every entry lies under a
/// mount, set when some non-empty entry lies outside them, and when set it is
/// set to a value whose entries are those outside entries, in order.
pub proof fn law_search_path_keeps_exactly_foreign_entries(action: EnvAction, value: Seq<char>, appdir: Seq<char>)
    requires
        path_like_action_is(action, None, Some(value), appdir, true),
    ensures
        action is Remove || action is SetTo,
        (forall|i: int| 0 <= i < split_chars(value, ':').len() ==> spec_is_under_app_mount(
            path_components(#[trigger] split_chars(value, ':')[i]),
            path_components(appdir),
        )) ==> action is Remove,
        (exists|i: int| 0 <= i < split_chars(value, ':').len() && (#[trigger] split_chars(value, ':')[i]).len() > 0
            && !spec_is_under_app_mount(path_components(split_chars(value, ':')[i]), path_components(appdir)))
            ==> action is SetTo,
        action matches EnvAction::SetTo(s) ==> split_chars(s@, ':') == kept_entries(
            split_chars(value, ':'),
            path_components(appdir),
        ),
{
    let entries = split_chars(value, ':');
    let mount = path_components(appdir);
    let kept = kept_entries(entries, mount);
    lemma_kept_entries(entries, mount);
    lemma_split_pieces_lack_sep(value, ':');
    if forall|i: int| 0 <= i < entries.len() ==> spec_is_under_app_mount(
        path_components(#[trigger] entries[i]),
        mount,
    ) {
        if kept.len() > 0 {
            let j = choose|j: int| 0 <= j < entries.len() && entries[j] == kept[0];
            assert(spec_is_under_app_mount(path_components(entries[j]), mount));
        }
    }
    if exists|i: int| 0 <= i < entries.len() && (#[trigger] entries[i]).len() > 0
        && !spec_is_under_app_mount(path_components(entries[i]), mount) {
        let i = choose|i: int| 0 <= i < entries.len() && (#[trigger] entries[i]).len() > 0
            && !spec_is_under_app_mount(path_components(entries[i]), mount);
        assert(kept.contains(entries[i]));
        let j = choose|j: int| 0 <= j < kept.len() && kept[j] == entries[i];
        lemma_join_holds_part(kept, ':', j);
    }
    if action is SetTo {
        if kept.len() == 0 {
            assert(join_with(kept, ':').len() == 0);
        } else {
            assert forall|i: int| 0 <= i < kept.len() implies !(#[trigger] kept[i]).contains(':') by {
                let j = choose|j: int| 0 <= j < entries.len() && entries[j] == kept[i];
                assert(!entries[j].contains(':'));
            }
            lemma_split_join(kept, ':');
        }
    }
}


/// Every watched variable whose `ORIGINAL_` value was seen gets that value
/// back (or is removed, for an empty one) in the child's environment,
/// whatever its current value and the mount.
pub proof fn law_plan_restores_saved_originals(
    plan: Seq<(&str, EnvAction)>,
    appdir: Seq<char>,
    appdir_is_unicode: bool,
    obs: Seq<KeyObservation>,
    i: int,
)
    requires
        plan_matches(plan, Some(appdir), appdir_is_unicode, obs),
        0 <= i < plan.len(),
        seen_saved(obs, plan[i].0@) is Some,
    ensures
        if seen_saved(obs, plan[i].0@) == Some(true) {
            plan[i].1 is Remove
        } else {
            plan[i].1 is Restore
        },
{
    if i < 3 {
        assert(plan[i].0 == PATH_LIKE_KEYS[i]);
    } else {
        assert(plan[i].0 == APPDIR_SCOPED_KEYS[i - 3]);
    }
}

} // verus!
