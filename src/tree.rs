//! The directory tree, its construction from ordered entries, and its
//! rendering as guide-drawn text lines with running statistics.
use vstd::prelude::*;
use crate::entry::{name_ext, raw_extension, EntryMeta, FileTime};
use crate::size::{format_size, size_text};
use crate::text::{chars_of, decimal, lower_of, lowercase, pad_right, push_decimal, push_padded, string_of};

verus! {

/// One node of the directory tree. Directories hold their children, already
/// filtered and ordered; files hold none.
#[derive(Debug)]
pub struct TreeNode {
    pub name: String,
    pub path: String,
    pub size: u64,
    pub mtime: FileTime,
    pub is_dir: bool,
    pub children: Option<Vec<TreeNode>>,
}

/// Counters gathered while rendering: directories, files, and file bytes.
#[derive(Debug, Clone, Copy, PartialEq, Eq, Structural)]
pub struct Stats {
    pub dirs: usize,
    pub files: usize,
    pub size: u64,
}

/// How a name is shown, chosen from its kind, whether it is hidden, and its
/// extension.
#[derive(Debug, Clone, Copy, PartialEq, Eq, Structural)]
pub enum EntryStyle {
    Directory,
    HiddenDirectory,
    Hidden,
    Rust,
    Python,
    CFamily,
    CSharp,
    OCaml,
    Markdown,
    Text,
    Json,
    Plain,
}

/// One rendered line: the guides and connector that lead it, and the entry.
#[derive(Debug)]
pub struct TreeLine {
    pub lead: String,
    pub name: String,
    pub path: String,
    pub is_dir: bool,
    pub size: u64,
    pub style: EntryStyle,
}

/// A rendered line as the contracts see it.
pub struct LineView {
    pub lead: Seq<char>,
    pub name: Seq<char>,
    pub path: Seq<char>,
    pub is_dir: bool,
    pub size: u64,
    pub style: EntryStyle,
}

impl TreeLine {
    pub open spec fn view(&self) -> LineView {
        LineView {
            lead: self.lead@,
            name: self.name@,
            path: self.path@,
            is_dir: self.is_dir,
            size: self.size,
            style: self.style,
        }
    }
}

pub open spec fn line_views(s: Seq<TreeLine>) -> Seq<LineView> {
    s.map_values(|l: TreeLine| l.view())
}

/// Directories have children and files do not, at every level.
pub open spec fn node_wf(n: TreeNode) -> bool
    decreases n,
{
    &&& (n.children is Some <==> n.is_dir)
    &&& match n.children {
        Some(cs) => nodes_wf(cs@),
        None => true,
    }
}

/// Every node of the run is well formed.
pub open spec fn nodes_wf(cs: Seq<TreeNode>) -> bool
    decreases cs,
{
    cs.len() > 0 ==> node_wf(cs[0]) && nodes_wf(cs.drop_first())
}

pub open spec fn is_hidden_entry(name: Seq<char>) -> bool {
    name.len() > 0 && name[0] == '.' && name != seq!['.'] && name != seq!['.', '.']
}

/// The style for an entry: directories by hiddenness, hidden files alike, and
/// other files by their lower-cased extension.
pub open spec fn style_spec(name: Seq<char>, is_dir: bool) -> EntryStyle {
    let ext = lower_of(name_ext(name));
    if is_dir {
        if is_hidden_entry(name) { EntryStyle::HiddenDirectory } else { EntryStyle::Directory }
    } else if is_hidden_entry(name) {
        EntryStyle::Hidden
    } else if ext == "rs"@ {
        EntryStyle::Rust
    } else if ext == "py"@ {
        EntryStyle::Python
    } else if ext == "c"@ || ext == "cpp"@ || ext == "h"@ || ext == "hpp"@ {
        EntryStyle::CFamily
    } else if ext == "cs"@ {
        EntryStyle::CSharp
    } else if ext == "ml"@ || ext == "mli"@ {
        EntryStyle::OCaml
    } else if ext == "md"@ {
        EntryStyle::Markdown
    } else if ext == "txt"@ {
        EntryStyle::Text
    } else if ext == "json"@ {
        EntryStyle::Json
    } else {
        EntryStyle::Plain
    }
}

pub open spec fn connector(is_last: bool) -> Seq<char> {
    if is_last { "└── "@ } else { "├── "@ }
}

pub open spec fn guide(is_last: bool) -> Seq<char> {
    if is_last { "    "@ } else { "│   "@ }
}

pub open spec fn line_of(n: TreeNode, lead: Seq<char>) -> LineView {
    LineView {
        lead,
        name: n.name@,
        path: n.path@,
        is_dir: n.is_dir,
        size: n.size,
        style: style_spec(n.name@, n.is_dir),
    }
}

pub open spec fn child_nodes(n: TreeNode) -> Seq<TreeNode> {
    match n.children {
        Some(cs) => cs@,
        None => Seq::empty(),
    }
}

/// The lines of a node and its descendants: its own line led by `lead`, then
/// its children, whose guides continue with `cont`.
pub open spec fn subtree_lines(n: TreeNode, lead: Seq<char>, cont: Seq<char>) -> Seq<LineView>
    decreases n,
{
    seq![line_of(n, lead)] + match n.children {
        Some(cs) => children_lines(cs@, cont),
        None => Seq::empty(),
    }
}

/// The lines of a run of siblings; the last one takes the closing connector.
pub open spec fn children_lines(cs: Seq<TreeNode>, cont: Seq<char>) -> Seq<LineView>
    decreases cs,
{
    if cs.len() == 0 {
        Seq::empty()
    } else {
        subtree_lines(cs[0], cont + connector(cs.len() == 1), cont + guide(cs.len() == 1))
            + children_lines(cs.drop_first(), cont)
    }
}

pub open spec fn count_dirs(ls: Seq<LineView>) -> nat
    decreases ls.len(),
{
    if ls.len() == 0 { 0 } else { count_dirs(ls.drop_last()) + if ls.last().is_dir { 1nat } else { 0nat } }
}

pub open spec fn count_files(ls: Seq<LineView>) -> nat
    decreases ls.len(),
{
    if ls.len() == 0 { 0 } else { count_files(ls.drop_last()) + if ls.last().is_dir { 0nat } else { 1nat } }
}

/// Total bytes of the files among the lines.
pub open spec fn file_bytes(ls: Seq<LineView>) -> nat
    decreases ls.len(),
{
    if ls.len() == 0 {
        0
    } else {
        file_bytes(ls.drop_last()) + if ls.last().is_dir { 0nat } else { ls.last().size as nat }
    }
}

/// The byte total as the counter keeps it, held at the largest `u64`.
pub open spec fn capped(n: nat) -> nat {
    if n > u64::MAX { u64::MAX as nat } else { n }
}

/// The statistics of a run of lines.
pub open spec fn stats_of(ls: Seq<LineView>) -> (nat, nat, nat) {
    (count_dirs(ls), count_files(ls), capped(file_bytes(ls)))
}

fn is_hidden_exec(cs: &Vec<char>) -> (r: bool)
    ensures
        r == is_hidden_entry(cs@),
{
    let r = cs.len() > 0 && cs[0] == '.' && cs.len() != 1 && !(cs.len() == 2 && cs[1] == '.');
    proof {
        if cs@.len() == 1 && cs@[0] == '.' {
            assert(cs@ =~= seq!['.']);
        }
        if cs@.len() == 2 && cs@[0] == '.' && cs@[1] == '.' {
            assert(cs@ =~= seq!['.', '.']);
        }
    }
    r
}

/// Chooses how an entry's name is shown.
pub fn entry_style(name: &str, is_dir: bool) -> (r: EntryStyle)
    ensures
        r == style_spec(name@, is_dir),
{
    let cs = chars_of(name);
    let hidden = is_hidden_exec(&cs);
    if is_dir {
        return if hidden { EntryStyle::HiddenDirectory } else { EntryStyle::Directory };
    }
    if hidden {
        return EntryStyle::Hidden;
    }
    let raw = raw_extension(name);
    let ext = lowercase(string_of(raw.as_slice()).as_str());
    if ext == String::from_str("rs") {
        EntryStyle::Rust
    } else if ext == String::from_str("py") {
        EntryStyle::Python
    } else if ext == String::from_str("c") || ext == String::from_str("cpp") || ext
        == String::from_str("h") || ext == String::from_str("hpp") {
        EntryStyle::CFamily
    } else if ext == String::from_str("cs") {
        EntryStyle::CSharp
    } else if ext == String::from_str("ml") || ext == String::from_str("mli") {
        EntryStyle::OCaml
    } else if ext == String::from_str("md") {
        EntryStyle::Markdown
    } else if ext == String::from_str("txt") {
        EntryStyle::Text
    } else if ext == String::from_str("json") {
        EntryStyle::Json
    } else {
        EntryStyle::Plain
    }
}

/// `a` followed by the characters of `b`.
fn chars_concat(a: &Vec<char>, b: &str) -> (r: Vec<char>)
    ensures
        r@ == a@ + b@,
{
    let mut out: Vec<char> = Vec::new();
    for i in 0..a.len()
        invariant
            out@ == a@.subrange(0, i as int),
    {
        out.push(a[i]);
        assert(a@.subrange(0, i + 1) =~= a@.subrange(0, i as int).push(a@[i as int]));
    }
    let bs = chars_of(b);
    for j in 0..bs.len()
        invariant
            out@ == a@ + bs@.subrange(0, j as int),
            a@.subrange(0, a@.len() as int) == a@,
    {
        out.push(bs[j]);
        assert(bs@.subrange(0, j + 1) =~= bs@.subrange(0, j as int).push(bs@[j as int]));
    }
    assert(a@.subrange(0, a@.len() as int) =~= a@);
    assert(bs@.subrange(0, bs@.len() as int) =~= bs@);
    out
}

/// The counters agree with the lines rendered so far.
pub open spec fn stats_match(lines: Seq<TreeLine>, stats: Stats) -> bool {
    let ls = line_views(lines);
    &&& stats.dirs == count_dirs(ls)
    &&& stats.files == count_files(ls)
    &&& stats.size == capped(file_bytes(ls))
}

proof fn lemma_counts_len(ls: Seq<LineView>)
    ensures
        count_dirs(ls) + count_files(ls) == ls.len(),
    decreases ls.len(),
{
    if ls.len() > 0 {
        lemma_counts_len(ls.drop_last());
    }
}

/// Appends the line of `n` and of its descendants, updating the counters.
fn render_subtree(
    n: &TreeNode,
    lead: &Vec<char>,
    cont: &Vec<char>,
    lines: &mut Vec<TreeLine>,
    stats: &mut Stats,
)
    requires
        node_wf(*n),
        stats_match(old(lines)@, *old(stats)),
    ensures
        line_views(final(lines)@) == line_views(old(lines)@) + subtree_lines(*n, lead@, cont@),
        stats_match(final(lines)@, *final(stats)),
    decreases n,
{
    let line = TreeLine {
        lead: string_of(lead.as_slice()),
        name: n.name.clone(),
        path: n.path.clone(),
        is_dir: n.is_dir,
        size: n.size,
        style: entry_style(n.name.as_str(), n.is_dir),
    };
    let ghost before = lines@;
    lines.push(line);
    // The counters never exceed the number of lines, which fits in a usize.
    let _total = lines.len();
    proof {
        assert(line_views(lines@) =~= line_views(before).push(line_of(*n, lead@)));
        assert(line_views(lines@).drop_last() =~= line_views(before));
        lemma_counts_len(line_views(lines@));
    }
    if n.is_dir {
        stats.dirs = stats.dirs + 1;
    } else {
        stats.files = stats.files + 1;
        stats.size = stats.size.saturating_add(n.size);
    }
    let ghost top = line_views(lines@);
    match &n.children {
        Some(cs) => {
            let len = cs.len();
            let mut i: usize = 0;
            assert(cs@.subrange(0, len as int) =~= cs@);
            while i < len
                invariant
                    i <= len == cs@.len(),
                    n.children == Some(*cs),
                    nodes_wf(cs@.subrange(i as int, len as int)),
                    stats_match(lines@, *stats),
                    line_views(lines@) + children_lines(cs@.subrange(i as int, len as int), cont@)
                        == top + children_lines(cs@, cont@),
                decreases len - i,
            {
                let is_last = i + 1 == len;
                let child_lead = if is_last {
                    chars_concat(cont, "└── ")
                } else {
                    chars_concat(cont, "├── ")
                };
                let child_cont = if is_last {
                    chars_concat(cont, "    ")
                } else {
                    chars_concat(cont, "│   ")
                };
                let ghost mid = line_views(lines@);
                proof {
                    let rest = cs@.subrange(i as int, len as int);
                    assert(rest.drop_first() =~= cs@.subrange(i + 1, len as int));
                    assert(rest[0] == cs@[i as int]);
                    let ghost kids = n.children->Some_0;
                    assert(rest.len() > 0);
                    vstd::std_specs::vec::axiom_vec_index_decreases(*cs, i as int);
                    assert(decreases_to!(*n => n.children));
                    assert(decreases_to!(n.children => kids));
                    assert(decreases_to!(kids => kids[i as int]));
                    assert(decreases_to!(*n => cs@[i as int]));
                }
                render_subtree(&cs[i], &child_lead, &child_cont, lines, stats);
                proof {
                    let rest = cs@.subrange(i as int, len as int);
                    let sub = subtree_lines(cs@[i as int], cont@ + connector(is_last), cont@ + guide(
                        is_last,
                    ));
                    assert(children_lines(rest, cont@) == sub + children_lines(
                        cs@.subrange(i + 1, len as int),
                        cont@,
                    ));
                    assert(line_views(lines@) == mid + sub);
                    assert(nodes_wf(cs@.subrange(i + 1, len as int)));
                    assert(line_views(lines@) + children_lines(cs@.subrange(i + 1, len as int), cont@)
                        =~= mid + children_lines(rest, cont@));
                }
                i = i + 1;
            }
            assert(cs@.subrange(len as int, len as int) =~= Seq::<TreeNode>::empty());
            assert(line_views(lines@) =~= line_views(before) + subtree_lines(*n, lead@, cont@));
        },
        None => {
            assert(line_views(lines@) =~= line_views(before) + subtree_lines(*n, lead@, cont@));
        },
    }
}

/// Renders the children of the root, the root itself being shown by its
/// path, and counts what was rendered.
pub fn render_tree(root: &TreeNode) -> (r: (Vec<TreeLine>, Stats))
    requires
        node_wf(*root),
    ensures
        line_views(r.0@) == children_lines(child_nodes(*root), Seq::empty()),
        stats_match(r.0@, r.1),
{
    let mut lines: Vec<TreeLine> = Vec::new();
    let mut stats = Stats { dirs: 0, files: 0, size: 0 };
    let empty: Vec<char> = Vec::new();
    assert(line_views(lines@) =~= Seq::<LineView>::empty());
    match &root.children {
        Some(cs) => {
            let len = cs.len();
            let mut i: usize = 0;
            assert(cs@.subrange(0, len as int) =~= cs@);
            while i < len
                invariant
                    i <= len == cs@.len(),
                    empty@ == Seq::<char>::empty(),
                    nodes_wf(cs@.subrange(i as int, len as int)),
                    stats_match(lines@, stats),
                    line_views(lines@) + children_lines(cs@.subrange(i as int, len as int), empty@)
                        == children_lines(cs@, empty@),
                decreases len - i,
            {
                let is_last = i + 1 == len;
                let lead = if is_last {
                    chars_concat(&empty, "└── ")
                } else {
                    chars_concat(&empty, "├── ")
                };
                let cont = if is_last {
                    chars_concat(&empty, "    ")
                } else {
                    chars_concat(&empty, "│   ")
                };
                let ghost mid = line_views(lines@);
                let ghost rest = cs@.subrange(i as int, len as int);
                assert(rest.drop_first() =~= cs@.subrange(i + 1, len as int));
                assert(rest[0] == cs@[i as int]);
                render_subtree(&cs[i], &lead, &cont, &mut lines, &mut stats);
                proof {
                    let sub = subtree_lines(cs@[i as int], empty@ + connector(is_last), empty@ + guide(
                        is_last,
                    ));
                    assert(children_lines(rest, empty@) == sub + children_lines(
                        cs@.subrange(i + 1, len as int),
                        empty@,
                    ));
                    assert(line_views(lines@) + children_lines(cs@.subrange(i + 1, len as int), empty@)
                        =~= mid + children_lines(rest, empty@));
                }
                i = i + 1;
            }
            assert(cs@.subrange(len as int, len as int) =~= Seq::<TreeNode>::empty());
            assert(line_views(lines@) =~= children_lines(cs@, empty@));
        },
        None => {},
    }
    (lines, stats)
}

/// The closing line of a text rendering.
pub open spec fn summary_text(stats: Stats) -> Seq<char> {
    decimal(stats.dirs as nat) + " directories, "@ + decimal(stats.files as nat) + " files, "@
        + size_text(stats.size as nat) + " bytes total"@
}

/// Appends the characters of `b` to `out`.
fn push_str(out: &mut Vec<char>, b: &str)
    ensures
        final(out)@ == old(out)@ + b@,
{
    let bs = chars_of(b);
    push_padded(out, bs.as_slice(), 0);
    assert(pad_right(bs@, 0) == bs@);
}

/// The summary: directory count, file count and total file size.
pub fn summary_line(stats: &Stats) -> (r: String)
    ensures
        r@ == summary_text(*stats),
{
    let mut out: Vec<char> = Vec::new();
    push_decimal(stats.dirs as u128, &mut out);
    push_str(&mut out, " directories, ");
    push_decimal(stats.files as u128, &mut out);
    push_str(&mut out, " files, ");
    push_str(&mut out, format_size(stats.size).as_str());
    push_str(&mut out, " bytes total");
    assert(out@ =~= summary_text(*stats));
    string_of(out.as_slice())
}

/// Makes the node for a listed entry; `children` holds the directory's
/// already built children, and is absent for a file.
pub fn build_tree_node_from_entry_meta(entry: EntryMeta, children: Option<Vec<TreeNode>>) -> (r: TreeNode)
    requires
        children is Some <==> entry.is_dir,
    ensures
        r.name == entry.name,
        r.path == entry.path,
        r.size == entry.size,
        r.mtime == entry.mtime,
        r.is_dir == entry.is_dir,
        r.children == children,
{
    TreeNode {
        name: entry.name,
        path: entry.path,
        size: entry.size,
        mtime: entry.mtime,
        is_dir: entry.is_dir,
        children,
    }
}

/// The long-format fields that follow a name on its own line.
pub open spec fn long_fields(size: Seq<char>, modified: Seq<char>, created: Seq<char>) -> Seq<char> {
    "\n      "@ + pad_right("Size:"@, 10) + " "@ + pad_right(size, 12) + " "@ + pad_right(
        "Modified:"@,
        10,
    ) + " "@ + pad_right(modified, 20) + " "@ + pad_right("Created:"@, 10) + " "@ + pad_right(
        created,
        20,
    )
}

/// Lays out the long-format fields from their texts.
pub fn format_long_fields(size: &str, modified: &str, created: &str) -> (r: String)
    ensures
        r@ == long_fields(size@, modified@, created@),
{
    let mut out: Vec<char> = Vec::new();
    push_str(&mut out, "\n      ");
    push_padded(&mut out, chars_of("Size:").as_slice(), 10);
    push_str(&mut out, " ");
    push_padded(&mut out, chars_of(size).as_slice(), 12);
    push_str(&mut out, " ");
    push_padded(&mut out, chars_of("Modified:").as_slice(), 10);
    push_str(&mut out, " ");
    push_padded(&mut out, chars_of(modified).as_slice(), 20);
    push_str(&mut out, " ");
    push_padded(&mut out, chars_of("Created:").as_slice(), 10);
    push_str(&mut out, " ");
    push_padded(&mut out, chars_of(created).as_slice(), 20);
    assert(out@ =~= long_fields(size@, modified@, created@));
    string_of(out.as_slice())
}

/// Relies on `chrono::DateTime::from_timestamp`, `with_timezone(&Local)` and
/// `format`: the local date and time as `YYYY-MM-DD HH:MM:SS`, or nothing for
/// a time out of chrono's range. The text depends on the machine's time zone.
#[verifier::external_body]
fn format_time(t: FileTime) -> (r: Option<String>) {
    chrono::DateTime::from_timestamp(t.secs, t.nanos).map(
        |d| d.with_timezone(&chrono::Local).format("%Y-%m-%d %H:%M:%S").to_string(),
    )
}

/// The text for an optional time: its local form, or `-`.
fn time_text(t: Option<FileTime>) -> (r: String)
    ensures
        t is None ==> r@ == "-"@,
{
    match t {
        Some(ft) => match format_time(ft) {
            Some(s) => s,
            None => String::from_str("-"),
        },
        None => String::from_str("-"),
    }
}

/// The long-format fields for an entry's metadata: its size, and its
/// modification and creation times where the platform gives them.
pub fn format_entry_details(size: u64, modified: Option<FileTime>, created: Option<FileTime>) -> (r: String)
    ensures
        exists|m: Seq<char>, c: Seq<char>|
            {
                &&& r@ == long_fields(size_text(size as nat), m, c)
                &&& modified is None ==> m == "-"@
                &&& created is None ==> c == "-"@
            },
{
    let st = format_size(size);
    let m = time_text(modified);
    let c = time_text(created);
    let r = format_long_fields(st.as_str(), m.as_str(), c.as_str());
    assert(r@ == long_fields(size_text(size as nat), m@, c@));
    r
}

/// The note shown in place of the long-format fields when the metadata
/// cannot be read.
pub fn metadata_error_note(message: &str) -> (r: String)
    ensures
        r@ == " (Error reading metadata: "@ + message@ + ")"@,
{
    String::from_str(" (Error reading metadata: ").concat(message).concat(")")
}

} // verus!
