//! The decisions of the wiring studio: what a `hifzsdk.swift` file holds,
//! what connecting it writes, and which directory entries the search visits.

use vstd::prelude::*;
use crate::text::chars_eq;
use crate::text::lemma_line_end_at;
use crate::text::lemma_trim_empty;
use crate::text::lemma_trim_strip_cr;
use crate::text::lemma_trim_end_keeps;
use crate::text::lemma_trim_end_prefix;
use crate::text::lemma_trim_ends;
use crate::text::lemma_trim_start_concat;
use crate::text::lemma_trim_start_suffix;
use crate::text::line_end;
use crate::text::strip_cr;
use crate::text::trim_start;
use crate::text::white_space;
use crate::text::lines;
use crate::text::lines_of;
use crate::text::starts_with;
use crate::text::starts_with_chars;
use crate::text::string_from_chars;
use crate::text::to_chars;
use crate::text::trim;
use crate::text::trim_chars;

verus! {

/// What a scan learns of the contents of `hifzsdk.swift`.
#[derive(Clone, Copy, Debug, PartialEq, Eq, Structural)]
pub struct ScanFlags {
    /// Nothing but whitespace.
    pub empty: bool,
    /// The first line, trimmed, is the wire marker.
    pub wired: bool,
}

/// Whether the contents `raw` are empty, and whether their first line,
/// trimmed, is `marker`.
pub open spec fn scan_spec(raw: Seq<char>, marker: Seq<char>) -> ScanFlags {
    ScanFlags {
        empty: trim(raw).len() == 0,
        wired: lines(raw).len() > 0 && trim(lines(raw)[0]) == marker,
    }
}

/// Scan the contents `raw` of `hifzsdk.swift` against the wire `marker`.
pub fn scan_swift_file(raw: &str, marker: &str) -> (flags: ScanFlags)
    ensures
        flags == scan_spec(raw@, marker@),
{
    let chars = to_chars(raw);
    let marker_chars = to_chars(marker);
    let trimmed = trim_chars(&chars);
    let empty = trimmed.len() == 0;
    let ls = lines_of(&chars);
    let ghost lv = ls@.map_values(|l: Vec<char>| l@);
    let wired = if ls.len() > 0 {
        let first = trim_chars(&ls[0]);
        assert(ls@[0]@ == lv[0]);
        chars_eq(&first, &marker_chars)
    } else {
        false
    };
    ScanFlags { empty, wired }
}

/// A scan reports the file empty exactly when every character of it is
/// whitespace.
pub proof fn lemma_scan_empty(raw: Seq<char>, marker: Seq<char>)
    ensures
        scan_spec(raw, marker).empty <==> forall|i: int| 0 <= i < raw.len() ==> white_space(#[trigger] raw[i]),
{
    lemma_trim_empty(raw);
}

/// A scan reports the file wired exactly when the file is not empty and its
/// text before the first line break (`e` characters: none of them a `\n`,
/// and a `\n` or the end of the file after them), trimmed, is the marker.
pub proof fn lemma_scan_wired(raw: Seq<char>, marker: Seq<char>, e: int)
    requires
        0 <= e <= raw.len(),
        forall|j: int| 0 <= j < e ==> raw[j] != '\n',
        e == raw.len() || raw[e] == '\n',
    ensures
        scan_spec(raw, marker).wired <==> raw.len() > 0 && trim(raw.take(e)) == marker,
{
    if raw.len() > 0 {
        lemma_line_end_at(raw, e);
        if e == raw.len() {
            assert(raw.take(e) =~= raw);
            assert(lines(raw)[0] == raw);
            assert(lines(raw).len() > 0);
        } else {
            assert(lines(raw)[0] == strip_cr(raw.take(e)));
            lemma_trim_strip_cr(raw.take(e));
        }
    }
}

/// What connecting `hifzsdk.swift` does.
#[derive(Debug)]
pub enum ConnectAction {
    /// The file holds nothing but whitespace: write the whole wrapper.
    WriteWrapper,
    /// The trimmed file already starts with the wire marker: leave it.
    AlreadyConnected,
    /// Write these contents: the marker, an empty line, then the file's own
    /// text exactly as it was.
    Splice(String),
}

/// The contents that splicing the wire `marker` onto `raw` writes: the
/// marker, an empty line, then `raw` exactly as it was.
pub open spec fn spliced(raw: Seq<char>, marker: Seq<char>) -> Seq<char> {
    marker + seq!['\n', '\n'] + raw
}

/// Whether connecting with `action` disconnects (`action == "disconnect"`).
pub fn wants_disconnect(action: &str) -> (res: bool)
    ensures
        res == (action@ == "disconnect"@),
{
    let a = to_chars(action);
    let d = to_chars("disconnect");
    chars_eq(&a, &d)
}

/// Decide what connecting a `hifzsdk.swift` that holds `raw` does.
pub fn connect_action(raw: &str, marker: &str) -> (action: ConnectAction)
    ensures
        trim(raw@).len() == 0 ==> action is WriteWrapper,
        trim(raw@).len() != 0 && starts_with(trim(raw@), marker@) ==> action is AlreadyConnected,
        trim(raw@).len() != 0 && !starts_with(trim(raw@), marker@) ==> (action matches ConnectAction::Splice(contents)
            && contents@ == spliced(raw@, marker@)),
{
    let chars = to_chars(raw);
    let marker_chars = to_chars(marker);
    let trimmed = trim_chars(&chars);
    if trimmed.len() == 0 {
        return ConnectAction::WriteWrapper;
    }
    if starts_with_chars(&trimmed, &marker_chars) {
        return ConnectAction::AlreadyConnected;
    }
    let mut contents: Vec<char> = marker_chars;
    contents.push('\n');
    contents.push('\n');
    let ghost head = contents@;
    let n: usize = chars.len();
    for i in 0..n
        invariant
            n == chars@.len(),
            contents@ == head + chars@.take(i as int),
    {
        contents.push(chars[i]);
        assert(chars@.take(i + 1) == chars@.take(i as int).push(chars@[i as int]));
    }
    assert(chars@.take(n as int) == chars@);
    assert(contents@ =~= spliced(raw@, marker@));
    ConnectAction::Splice(string_from_chars(&contents))
}

/// The spliced contents are the marker, a `\n`, and the rest.
proof fn lemma_spliced_head(raw: Seq<char>, marker: Seq<char>)
    ensures
        spliced(raw, marker) == marker + seq!['\n'] + (seq!['\n'] + raw),
{
    assert(spliced(raw, marker) =~= marker + seq!['\n'] + (seq!['\n'] + raw));
}

/// A marker with nothing to trim around it that does not end in a carriage return.
pub open spec fn plain_marker(marker: Seq<char>) -> bool {
    &&& marker.len() > 0
    &&& trim(marker) == marker
    &&& forall|i: int| 0 <= i < marker.len() ==> marker[i] != '\n'
    &&& marker.last() != '\r'
}

/// After splicing, a scan sees the file as wired: its first line is the
/// marker.
pub proof fn lemma_spliced_scans_wired(raw: Seq<char>, marker: Seq<char>)
    requires
        plain_marker(marker),
    ensures
        scan_spec(spliced(raw, marker), marker).wired,
        !scan_spec(spliced(raw, marker), marker).empty,
{
    let s = spliced(raw, marker);
    lemma_spliced_head(raw, marker);
    let m = marker.len() as int;
    assert forall|j: int| 0 <= j < m implies s[j] != '\n' by {
        assert(s[j] == marker[j]);
    }
    assert(s[m] == '\n');
    lemma_line_end_at(s, m);
    assert(s.take(m) =~= marker);
    assert(lines(s)[0] == strip_cr(marker));
    lemma_connect_after_splice(raw, marker);
}

/// Connecting is idempotent: connecting a file that connecting spliced
/// leaves it as it is.
pub proof fn lemma_connect_after_splice(raw: Seq<char>, marker: Seq<char>)
    requires
        marker.len() > 0,
        trim(marker) == marker,
    ensures
        trim(spliced(raw, marker)).len() != 0,
        starts_with(trim(spliced(raw, marker)), marker),
{
    let s = spliced(raw, marker);
    lemma_spliced_head(raw, marker);
    lemma_trim_ends(marker);
    let m = marker.len() as int;
    assert(s[0] == marker[0]);
    assert(trim_start(s) == s);
    assert(s[m - 1] == marker.last());
    lemma_trim_end_keeps(s, m - 1);
    lemma_trim_end_prefix(s);
    assert(trim(s).take(m) =~= marker);
}

/// A file that the scan reports as wired (with a marker that is not empty)
/// is left as it is by connecting.
pub proof fn lemma_wired_stays_connected(raw: Seq<char>, marker: Seq<char>)
    requires
        marker.len() > 0,
        scan_spec(raw, marker).wired,
    ensures
        trim(raw).len() != 0,
        starts_with(trim(raw), marker),
{
    let first = lines(raw)[0];
    assert(raw.len() > 0);
    lemma_trim_ends(first);
    lemma_trim_start_suffix(first);
    lemma_trim_end_prefix(trim_start(first));
    let ts = trim_start(first);
    let m = marker.len() as int;
    assert(ts.len() > 0);
    assert(!white_space(ts[0]));
    let j = first.len() - ts.len();
    assert(first[j] == ts[0]);
    assert(ts.take(m) == marker);
    // The start of `raw`, trimmed, begins with the start of its first line, trimmed.
    let e = line_end(raw);
    let tail: Seq<char> = if e >= raw.len() {
        assert(first == raw);
        assert(trim_start(raw) == ts + Seq::<char>::empty());
        Seq::empty()
    } else {
        let f0 = raw.take(e as int);
        assert(raw =~= f0 + raw.skip(e as int));
        assert(first == strip_cr(f0));
        if f0.len() > 0 && f0.last() == '\r' {
            let f1 = f0.drop_last();
            assert(first == f1);
            assert(f1[j] == ts[0]);
            assert(f0 =~= f1 + seq![f0.last()]);
            lemma_trim_start_concat(f1, seq![f0.last()], j);
            assert(f0[j] == f1[j]);
            lemma_trim_start_concat(f0, raw.skip(e as int), j);
            assert(trim_start(raw) =~= ts + (seq![f0.last()] + raw.skip(e as int)));
            seq![f0.last()] + raw.skip(e as int)
        } else {
            assert(first == f0);
            lemma_trim_start_concat(f0, raw.skip(e as int), j);
            raw.skip(e as int)
        }
    };
    assert(trim_start(raw) == ts + tail);
    let t = trim_start(raw);
    assert(t[m - 1] == ts[m - 1]);
    assert(ts[m - 1] == marker[m - 1]);
    assert(trim(first).last() == marker[m - 1]);
    lemma_trim_end_keeps(t, m - 1);
    lemma_trim_end_prefix(t);
    assert(trim(raw).take(m) =~= marker);
}

/// Splicing leaves the file's own code intact: the spliced file is the
/// marker and two line breaks in front of the original text, byte for byte.
pub proof fn lemma_splice_keeps_code(raw: Seq<char>, marker: Seq<char>)
    ensures
        spliced(raw, marker).take(marker.len() as int) == marker,
        spliced(raw, marker).skip(marker.len() + 2 as int) == raw,
        spliced(raw, marker).len() == marker.len() + 2 + raw.len(),
{
    assert(spliced(raw, marker).take(marker.len() as int) =~= marker);
    assert(spliced(raw, marker).skip(marker.len() + 2 as int) =~= raw);
}

/// What the search for a file does with one directory entry.
#[derive(Clone, Copy, Debug, PartialEq, Eq, Structural)]
pub enum EntryStep {
    /// A directory to search in turn.
    Descend,
    /// A directory left out of the search.
    Skip,
    /// The file that is searched for.
    Found,
    /// Another file.
    Pass,
}

/// Whether the search leaves out a directory of this name: hidden
/// directories, `DerivedData` and `build`.
pub open spec fn skipped_dir(name: Seq<char>) -> bool {
    (name.len() > 0 && name[0] == '.') || name == "DerivedData"@ || name == "build"@
}

/// What the search for `file` does with an entry: a directory (whose name,
/// where it is not valid UTF-8, counts as empty) is searched unless it is
/// left out; a file is the one searched for when its name is `file`.
pub open spec fn entry_step_spec(is_dir: bool, name: Option<Seq<char>>, file: Seq<char>) -> EntryStep {
    if is_dir {
        let n = match name {
            Some(n) => n,
            None => Seq::empty(),
        };
        if skipped_dir(n) {
            EntryStep::Skip
        } else {
            EntryStep::Descend
        }
    } else if name == Some(file) {
        EntryStep::Found
    } else {
        EntryStep::Pass
    }
}

/// Decide what the search for `file` does with a directory entry.
pub fn entry_step(is_dir: bool, name: Option<&str>, file: &str) -> (step: EntryStep)
    ensures
        step == entry_step_spec(
            is_dir,
            match name {
                Some(n) => Some(n@),
                None => None,
            },
            file@,
        ),
{
    let chars = match name {
        Some(n) => to_chars(n),
        None => Vec::new(),
    };
    if is_dir {
        let derived = to_chars("DerivedData");
        let build = to_chars("build");
        if (chars.len() > 0 && chars[0] == '.') || chars_eq(&chars, &derived) || chars_eq(&chars, &build) {
            EntryStep::Skip
        } else {
            EntryStep::Descend
        }
    } else {
        match name {
            Some(_) => {
                let target = to_chars(file);
                if chars_eq(&chars, &target) {
                    EntryStep::Found
                } else {
                    EntryStep::Pass
                }
            },
            None => EntryStep::Pass,
        }
    }
}

/// The name of a directory entry, as characters.
pub open spec fn name_view(name: Option<String>) -> Option<Seq<char>> {
    match name {
        Some(n) => Some(n@),
        None => None,
    }
}

/// What the search for `file` makes of the entries of one directory, read in
/// order: the directories it will search in turn, in order, and the first
/// entry that is the file, if any (entries after it are not looked at).
pub open spec fn search_spec<P>(entries: Seq<(P, bool, Option<String>)>, file: Seq<char>) -> (Seq<P>, Option<P>)
    decreases entries.len(),
{
    if entries.len() == 0 {
        (Seq::empty(), None)
    } else {
        let e = entries[0];
        let rest = search_spec(entries.drop_first(), file);
        match entry_step_spec(e.1, name_view(e.2), file) {
            EntryStep::Found => (Seq::empty(), Some(e.0)),
            EntryStep::Descend => (seq![e.0] + rest.0, rest.1),
            _ => rest,
        }
    }
}

/// One step of the search for `file` through the entries (path, whether it
/// is a directory, name) of one directory: the directories to search are
/// pushed onto `stack` in order, and the first entry that is the file ends
/// the step and is returned.
pub fn search_entries<P>(stack: &mut Vec<P>, entries: Vec<(P, bool, Option<String>)>, file: &str) -> (found: Option<P>)
    ensures
        final(stack)@ == old(stack)@ + search_spec(entries@, file@).0,
        found == search_spec(entries@, file@).1,
{
    let ghost goal = search_spec(entries@, file@);
    let mut pending = entries;
    assert(old(stack)@ + goal.0 =~= stack@ + search_spec(pending@, file@).0);
    while pending.len() > 0
        invariant
            old(stack)@ + goal.0 == stack@ + search_spec(pending@, file@).0,
            goal.1 == search_spec(pending@, file@).1,
            goal == search_spec(entries@, file@),
        decreases pending@.len(),
    {
        let ghost before = pending@;
        let ghost pushed = stack@;
        let (path, is_dir, name) = pending.remove(0);
        assert(pending@ == before.drop_first());
        let name_ref: Option<&str> = match &name {
            Some(n) => Some(n.as_str()),
            None => None,
        };
        let step = entry_step(is_dir, name_ref, file);
        assert(name_view(before[0].2) == match name_ref {
            Some(n) => Some(n@),
            None => None::<Seq<char>>,
        });
        match step {
            EntryStep::Found => {
                assert(before[0].0 == path);
                assert(entry_step_spec(before[0].1, name_view(before[0].2), file@) == EntryStep::Found);
                assert(search_spec(before, file@).1 == Some(path));
                assert(search_spec(before, file@).0 == Seq::<P>::empty());
                assert(stack@ + Seq::<P>::empty() =~= stack@);
                assert(old(stack)@ + goal.0 == stack@);
                return Some(path);
            },
            EntryStep::Descend => {
                stack.push(path);
                assert(pushed + (seq![before[0].0] + search_spec(pending@, file@).0) =~= stack@
                    + search_spec(pending@, file@).0);
            },
            _ => {},
        }
    }
    assert(stack@ + Seq::<P>::empty() =~= stack@);
    None
}

/// The search step returns the first entry that is the file searched for,
/// or nothing when no entry is; the directories it pushes are exactly the
/// entries before that (all of them, when nothing is found) that are
/// directories to search, in order.
pub proof fn lemma_search_finds_first<P>(entries: Seq<(P, bool, Option<String>)>, file: Seq<char>)
    ensures
        match search_spec(entries, file).1 {
            Some(x) => exists|i: int|
                0 <= i < entries.len() && entries[i].0 == x && entry_step_spec(
                    entries[i].1,
                    name_view(entries[i].2),
                    file,
                ) == EntryStep::Found && (forall|j: int|
                    0 <= j < i ==> entry_step_spec(entries[j].1, name_view(entries[j].2), file)
                        != EntryStep::Found) && search_spec(entries, file).0 == descended(entries.take(i), file),
            None => (forall|j: int|
                0 <= j < entries.len() ==> entry_step_spec(entries[j].1, name_view(entries[j].2), file)
                    != EntryStep::Found) && search_spec(entries, file).0 == descended(entries, file),
        },
    decreases entries.len(),
{
    if entries.len() > 0 {
        let rest = entries.drop_first();
        lemma_search_finds_first(rest, file);
        let e = entries[0];
        let st = entry_step_spec(e.1, name_view(e.2), file);
        assert(entries.take(1).drop_first() =~= Seq::<(P, bool, Option<String>)>::empty());
        match search_spec(rest, file).1 {
            Some(x) => {
                if st != EntryStep::Found {
                    let i = choose|i: int|
                        0 <= i < rest.len() && rest[i].0 == x && entry_step_spec(
                            rest[i].1,
                            name_view(rest[i].2),
                            file,
                        ) == EntryStep::Found && (forall|j: int|
                            0 <= j < i ==> entry_step_spec(rest[j].1, name_view(rest[j].2), file)
                                != EntryStep::Found) && search_spec(rest, file).0 == descended(rest.take(i), file);
                    assert(entries[i + 1] == rest[i]);
                    assert forall|j: int| 0 <= j < i + 1 implies entry_step_spec(
                        entries[j].1,
                        name_view(entries[j].2),
                        file,
                    ) != EntryStep::Found by {
                        if j > 0 {
                            assert(entries[j] == rest[j - 1]);
                        }
                    }
                    assert(entries.take(i + 1).drop_first() =~= rest.take(i));
                    assert(entries.take(i + 1)[0] == e);
                } else {
                    assert(entries.take(0) =~= Seq::<(P, bool, Option<String>)>::empty());
                }
            },
            None => {
                if st != EntryStep::Found {
                    assert forall|j: int| 0 <= j < entries.len() implies entry_step_spec(
                        entries[j].1,
                        name_view(entries[j].2),
                        file,
                    ) != EntryStep::Found by {
                        if j > 0 {
                            assert(entries[j] == rest[j - 1]);
                        }
                    }
                } else {
                    assert(entries.take(0) =~= Seq::<(P, bool, Option<String>)>::empty());
                }
            },
        }
    }
}

/// The entries of `entries` that are directories to search, in order.
pub open spec fn descended<P>(entries: Seq<(P, bool, Option<String>)>, file: Seq<char>) -> Seq<P>
    decreases entries.len(),
{
    if entries.len() == 0 {
        Seq::empty()
    } else if entry_step_spec(entries[0].1, name_view(entries[0].2), file) == EntryStep::Descend {
        seq![entries[0].0] + descended(entries.drop_first(), file)
    } else {
        descended(entries.drop_first(), file)
    }
}

} // verus!
