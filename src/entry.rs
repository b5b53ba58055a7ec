//! Directory entries: which ones are shown, and in which order.
use vstd::prelude::*;
use vstd::multiset::Multiset;
use crate::config::{regex_finds, regex_is_match, PrintOptions, SortBy};
use crate::text::{ascii_lower, chars_lt, chars_of, lower_of, lowercase, seq_le, seq_lt,
    to_ascii_lowercase, string_of};

verus! {

/// A modification time as seconds and nanoseconds since the Unix epoch.
#[derive(Debug, Clone, Copy, PartialEq, Eq, Structural)]
pub struct FileTime {
    pub secs: i64,
    pub nanos: u32,
}

/// One listed entry of a directory, with the metadata the sorter reads.
#[derive(Debug)]
pub struct EntryMeta {
    pub name: String,
    pub path: String,
    pub size: u64,
    pub mtime: FileTime,
    pub is_dir: bool,
}

pub open spec fn time_le(a: FileTime, b: FileTime) -> bool {
    a.secs < b.secs || (a.secs == b.secs && a.nanos <= b.nanos)
}

/// Index of the last `.` among the first `n` characters, or -1.
pub open spec fn last_dot_before(s: Seq<char>, n: int) -> int
    decreases n,
{
    if n <= 0 {
        -1
    } else if s[n - 1] == '.' {
        n - 1
    } else {
        last_dot_before(s, n - 1)
    }
}

/// The extension of a file name as paths define it: what follows the last
/// dot, where that dot is not the first character; empty where there is none.
pub open spec fn name_ext(s: Seq<char>) -> Seq<char> {
    let d = last_dot_before(s, s.len() as int);
    if s == seq!['.', '.'] || d <= 0 {
        Seq::empty()
    } else {
        s.subrange(d + 1, s.len() as int)
    }
}

pub open spec fn is_hidden_name(s: Seq<char>) -> bool {
    s.len() > 0 && s[0] == '.'
}

/// Whether the lower-cased extension is in the configured set.
pub open spec fn ext_allowed(exts: Seq<String>, ext: Seq<char>) -> bool {
    exts.len() == 0 || exists|i: int| 0 <= i < exts.len() && #[trigger] exts[i]@ == ext
}

/// The filter: hidden names need `show_hidden`; files, but not directories,
/// must carry an allowed extension and match the regex where those are set.
pub open spec fn entry_visible(name: Seq<char>, is_dir: bool, opts: PrintOptions) -> bool {
    &&& opts.show_hidden || !is_hidden_name(name)
    &&& !is_dir && opts.extension_filters is Some ==> ext_allowed(
        opts.extension_filters->0@,
        ascii_lower(name_ext(name)),
    )
    &&& !is_dir && opts.regex_filter is Some ==> regex_finds(opts.regex_filter->0, name)
}

/// The entries that pass the filter, in their given order.
pub open spec fn visible_entries(s: Seq<EntryMeta>, opts: PrintOptions) -> Seq<EntryMeta>
    decreases s.len(),
{
    if s.len() == 0 {
        s
    } else if entry_visible(s[0].name@, s[0].is_dir, opts) {
        seq![s[0]] + visible_entries(s.drop_first(), opts)
    } else {
        visible_entries(s.drop_first(), opts)
    }
}

/// Whether `a` may stand before `b` under the sort key.
pub open spec fn entry_le(a: EntryMeta, b: EntryMeta, by: SortBy) -> bool {
    match by {
        SortBy::Alphabetical => seq_le(lower_of(a.name@), lower_of(b.name@)),
        SortBy::FileSize => a.size <= b.size,
        SortBy::LastUpdatedTimestamp => time_le(a.mtime, b.mtime),
    }
}

/// Places `x` before the first element that it does not exceed.
pub open spec fn insert_sorted(t: Seq<EntryMeta>, x: EntryMeta, by: SortBy) -> Seq<EntryMeta>
    decreases t.len(),
{
    if t.len() == 0 {
        seq![x]
    } else if entry_le(x, t[0], by) {
        seq![x] + t
    } else {
        seq![t[0]] + insert_sorted(t.drop_first(), x, by)
    }
}

/// The stable sort of `s`: each element goes before the later ones that are
/// not below it.
pub open spec fn sort_spec(s: Seq<EntryMeta>, by: SortBy) -> Seq<EntryMeta>
    decreases s.len(),
{
    if s.len() == 0 {
        s
    } else {
        insert_sorted(sort_spec(s.drop_first(), by), s[0], by)
    }
}

pub open spec fn sorted_by(s: Seq<EntryMeta>, by: SortBy) -> bool {
    forall|i: int, j: int| 0 <= i < j < s.len() ==> entry_le(#[trigger] s[i], #[trigger] s[j], by)
}

/// The extension of a file name, as `name_ext` states it.
pub fn raw_extension(name: &str) -> (r: Vec<char>)
    ensures
        r@ == name_ext(name@),
{
    let cs = chars_of(name);
    let mut n: usize = cs.len();
    while n > 0 && cs[n - 1] != '.'
        invariant
            n <= cs@.len(),
            cs@ == name@,
            last_dot_before(cs@, cs@.len() as int) == last_dot_before(cs@, n as int),
        decreases n,
    {
        n = n - 1;
    }
    let dotdot = cs.len() == 2 && cs[0] == '.' && cs[1] == '.';
    let mut out: Vec<char> = Vec::new();
    if !dotdot && n > 1 {
        let mut i: usize = n;
        while i < cs.len()
            invariant
                n <= i <= cs@.len(),
                out@ == cs@.subrange(n as int, i as int),
            decreases cs.len() - i,
        {
            out.push(cs[i]);
            assert(cs@.subrange(n as int, i + 1) =~= cs@.subrange(n as int, i as int).push(cs@[i as int]));
            i = i + 1;
        }
    }
    proof {
        if dotdot {
            assert(cs@ =~= seq!['.', '.']);
        }
        if cs@ == seq!['.', '.'] {
            assert(dotdot);
        }
    }
    assert(out@ =~= name_ext(name@));
    out
}

/// The extension used by the filter: lower-cased, without the dot.
pub fn entry_extension(name: &str) -> (r: String)
    ensures
        r@ == ascii_lower(name_ext(name@)),
{
    let ext = raw_extension(name);
    to_ascii_lowercase(string_of(ext.as_slice()).as_str())
}

/// Whether `ext` is in the configured extension set (an empty set admits all).
fn ext_in(exts: &Vec<String>, ext: &String) -> (r: bool)
    ensures
        r == ext_allowed(exts@, ext@),
{
    if exts.len() == 0 {
        return true;
    }
    for i in 0..exts.len()
        invariant
            forall|j: int| 0 <= j < i ==> exts@[j]@ != ext@,
    {
        if exts[i] == *ext {
            return true;
        }
    }
    false
}

/// Decides whether an entry is shown, from its name and kind.
pub fn is_visible(name: &str, is_dir: bool, opts: &PrintOptions) -> (r: bool)
    ensures
        r == entry_visible(name@, is_dir, *opts),
{
    let cs = chars_of(name);
    if !opts.show_hidden && cs.len() > 0 && cs[0] == '.' {
        return false;
    }
    if !is_dir {
        if let Some(exts) = &opts.extension_filters {
            let ext = entry_extension(name);
            if !ext_in(exts, &ext) {
                return false;
            }
        }
        if let Some(re) = &opts.regex_filter {
            if !regex_is_match(re, name) {
                return false;
            }
        }
    }
    true
}

proof fn lemma_seq_lt_asym(a: Seq<char>, b: Seq<char>)
    ensures
        !(seq_lt(a, b) && seq_lt(b, a)),
    decreases a.len(),
{
    if a.len() > 0 && b.len() > 0 && a[0] == b[0] {
        lemma_seq_lt_asym(a.drop_first(), b.drop_first());
    }
}

proof fn lemma_seq_lt_split(a: Seq<char>, b: Seq<char>, c: Seq<char>)
    requires
        seq_lt(c, a),
    ensures
        seq_lt(c, b) || seq_lt(b, a),
    decreases a.len(),
{
    if c.len() > 0 && a.len() > 0 && b.len() > 0 {
        if c[0] == a[0] && b[0] == a[0] {
            lemma_seq_lt_split(a.drop_first(), b.drop_first(), c.drop_first());
        }
    }
}

/// Any two entries are ordered one way or the other under each key.
pub proof fn lemma_entry_le_total(a: EntryMeta, b: EntryMeta, by: SortBy)
    ensures
        entry_le(a, b, by) || entry_le(b, a, by),
        entry_le(a, a, by),
{
    lemma_seq_lt_asym(lower_of(a.name@), lower_of(b.name@));
    lemma_seq_lt_asym(lower_of(a.name@), lower_of(a.name@));
}

/// The order under each key is transitive.
pub proof fn lemma_entry_le_trans(a: EntryMeta, b: EntryMeta, c: EntryMeta, by: SortBy)
    requires
        entry_le(a, b, by),
        entry_le(b, c, by),
    ensures
        entry_le(a, c, by),
{
    if by == SortBy::Alphabetical {
        if seq_lt(lower_of(c.name@), lower_of(a.name@)) {
            lemma_seq_lt_split(lower_of(a.name@), lower_of(b.name@), lower_of(c.name@));
        }
    }
}

proof fn lemma_insert_at(t: Seq<EntryMeta>, x: EntryMeta, by: SortBy, j: int)
    requires
        0 <= j <= t.len(),
        forall|k: int| 0 <= k < j ==> !entry_le(x, #[trigger] t[k], by),
        j < t.len() ==> entry_le(x, t[j], by),
    ensures
        insert_sorted(t, x, by) == t.insert(j, x),
    decreases j,
{
    if j == 0 {
        assert(insert_sorted(t, x, by) =~= t.insert(0, x));
    } else {
        let t1 = t.drop_first();
        assert forall|k: int| 0 <= k < j - 1 implies !entry_le(x, #[trigger] t1[k], by) by {
            assert(t1[k] == t[k + 1]);
        }
        lemma_insert_at(t1, x, by, j - 1);
        assert(!entry_le(x, t[0], by));
        assert(seq![t[0]] + t1.insert(j - 1, x) =~= t.insert(j, x));
    }
}

proof fn lemma_insert_multiset(t: Seq<EntryMeta>, x: EntryMeta, by: SortBy)
    ensures
        insert_sorted(t, x, by).to_multiset() == t.to_multiset().insert(x),
    decreases t.len(),
{
    if t.len() == 0 {
        assert(t =~= Seq::<EntryMeta>::empty());
        assert(seq![x] =~= Seq::<EntryMeta>::empty().push(x));
        Seq::<EntryMeta>::empty().to_multiset_ensures();
        Seq::<EntryMeta>::empty().push(x).to_multiset_ensures();
        assert(insert_sorted(t, x, by) == seq![x]);
    } else if entry_le(x, t[0], by) {
        vstd::seq_lib::lemma_multiset_commutative(seq![x], t);
        assert(seq![x] =~= Seq::<EntryMeta>::empty().push(x));
        Seq::<EntryMeta>::empty().push(x).to_multiset_ensures();
        Seq::<EntryMeta>::empty().to_multiset_ensures();
        assert(seq![x].to_multiset() =~= Multiset::empty().insert(x));
        assert((seq![x] + t).to_multiset() =~= t.to_multiset().insert(x));
    } else {
        let t1 = t.drop_first();
        lemma_insert_multiset(t1, x, by);
        vstd::seq_lib::lemma_multiset_commutative(seq![t[0]], insert_sorted(t1, x, by));
        vstd::seq_lib::lemma_multiset_commutative(seq![t[0]], t1);
        assert(seq![t[0]] + t1 =~= t);
        assert(seq![t[0]] =~= Seq::<EntryMeta>::empty().push(t[0]));
        Seq::<EntryMeta>::empty().push(t[0]).to_multiset_ensures();
        Seq::<EntryMeta>::empty().to_multiset_ensures();
        assert(seq![t[0]].to_multiset() =~= Multiset::empty().insert(t[0]));
        assert(insert_sorted(t, x, by).to_multiset() =~= t.to_multiset().insert(x));
    }
}

proof fn lemma_insert_sorted_sorted(t: Seq<EntryMeta>, x: EntryMeta, by: SortBy)
    requires
        sorted_by(t, by),
    ensures
        sorted_by(insert_sorted(t, x, by), by),
        insert_sorted(t, x, by).len() == t.len() + 1,
        forall|k: int| 0 <= k < insert_sorted(t, x, by).len() ==> (#[trigger] insert_sorted(t, x, by)[k] == x
            || t.contains(insert_sorted(t, x, by)[k])),
    decreases t.len(),
{
    let r = insert_sorted(t, x, by);
    if t.len() == 0 {
    } else if entry_le(x, t[0], by) {
        assert forall|i: int, j: int| 0 <= i < j < r.len() implies entry_le(#[trigger] r[i], #[trigger] r[j], by) by {
            if i == 0 {
                if j > 1 {
                    lemma_entry_le_trans(x, t[0], t[j - 1], by);
                }
            } else {
                assert(r[i] == t[i - 1] && r[j] == t[j - 1]);
            }
        }
        assert forall|k: int| 0 <= k < r.len() implies (#[trigger] r[k] == x || t.contains(r[k])) by {
            if k > 0 {
                assert(r[k] == t[k - 1]);
            }
        }
    } else {
        let t1 = t.drop_first();
        assert(sorted_by(t1, by)) by {
            assert forall|i: int, j: int| 0 <= i < j < t1.len() implies entry_le(#[trigger] t1[i], #[trigger] t1[j], by) by {
                assert(t1[i] == t[i + 1] && t1[j] == t[j + 1]);
            }
        }
        lemma_insert_sorted_sorted(t1, x, by);
        let r1 = insert_sorted(t1, x, by);
        lemma_entry_le_total(x, t[0], by);
        assert forall|i: int, j: int| 0 <= i < j < r.len() implies entry_le(#[trigger] r[i], #[trigger] r[j], by) by {
            if i == 0 {
                assert(r[j] == r1[j - 1]);
                if r1[j - 1] != x {
                    let w = choose|w: int| 0 <= w < t1.len() && t1[w] == r1[j - 1];
                    assert(t[w + 1] == t1[w]);
                }
            } else {
                assert(r[i] == r1[i - 1] && r[j] == r1[j - 1]);
            }
        }
        assert forall|k: int| 0 <= k < r.len() implies (#[trigger] r[k] == x || t.contains(r[k])) by {
            if k > 0 {
                assert(r[k] == r1[k - 1]);
                if r1[k - 1] != x {
                    let w = choose|w: int| 0 <= w < t1.len() && t1[w] == r1[k - 1];
                    assert(t[w + 1] == t1[w]);
                }
            } else {
                assert(r[0] == t[0]);
            }
        }
    }
}

/// What the sorter returns is ordered by the key.
pub proof fn lemma_sort_sorted(s: Seq<EntryMeta>, by: SortBy)
    ensures
        sorted_by(sort_spec(s, by), by),
        sort_spec(s, by).len() == s.len(),
    decreases s.len(),
{
    if s.len() > 0 {
        lemma_sort_sorted(s.drop_first(), by);
        lemma_insert_sorted_sorted(sort_spec(s.drop_first(), by), s[0], by);
    }
}

/// What the sorter returns holds the same entries, each as often.
pub proof fn lemma_sort_permutation(s: Seq<EntryMeta>, by: SortBy)
    ensures
        sort_spec(s, by).to_multiset() == s.to_multiset(),
    decreases s.len(),
{
    if s.len() > 0 {
        lemma_sort_permutation(s.drop_first(), by);
        lemma_insert_multiset(sort_spec(s.drop_first(), by), s[0], by);
        vstd::seq_lib::lemma_multiset_commutative(seq![s[0]], s.drop_first());
        assert(seq![s[0]] + s.drop_first() =~= s);
        assert(seq![s[0]] =~= Seq::<EntryMeta>::empty().push(s[0]));
        Seq::<EntryMeta>::empty().push(s[0]).to_multiset_ensures();
        Seq::<EntryMeta>::empty().to_multiset_ensures();
        assert(seq![s[0]].to_multiset() =~= Multiset::empty().insert(s[0]));
        assert(sort_spec(s, by).to_multiset() =~= s.to_multiset());
    }
}

/// A sequence already in order is left as it is.
pub proof fn lemma_sort_keeps_sorted(s: Seq<EntryMeta>, by: SortBy)
    requires
        sorted_by(s, by),
    ensures
        sort_spec(s, by) == s,
    decreases s.len(),
{
    if s.len() > 0 {
        let s1 = s.drop_first();
        assert(sorted_by(s1, by)) by {
            assert forall|i: int, j: int| 0 <= i < j < s1.len() implies entry_le(#[trigger] s1[i], #[trigger] s1[j], by) by {
                assert(s1[i] == s[i + 1] && s1[j] == s[j + 1]);
            }
        }
        lemma_sort_keeps_sorted(s1, by);
        if s1.len() > 0 {
            assert(entry_le(s[0], s1[0], by));
        }
        assert(seq![s[0]] + s1 =~= s);
    }
}

/// Sorting twice under one key gives the order that sorting once gives.
pub proof fn lemma_sort_idempotent(s: Seq<EntryMeta>, by: SortBy)
    ensures
        sort_spec(sort_spec(s, by), by) == sort_spec(s, by),
{
    lemma_sort_sorted(s, by);
    lemma_sort_keeps_sorted(sort_spec(s, by), by);
}

/// The characters of the lower-cased name, the alphabetical sort key.
fn name_key(e: &EntryMeta) -> (r: Vec<char>)
    ensures
        r@ == lower_of(e.name@),
{
    chars_of(lowercase(e.name.as_str()).as_str())
}

fn entry_le_exec(a: &EntryMeta, ak: &Vec<char>, b: &EntryMeta, bk: &Vec<char>, by: SortBy) -> (r: bool)
    requires
        ak@ == lower_of(a.name@),
        bk@ == lower_of(b.name@),
    ensures
        r == entry_le(*a, *b, by),
{
    match by {
        SortBy::Alphabetical => !chars_lt(bk.as_slice(), ak.as_slice()),
        SortBy::FileSize => a.size <= b.size,
        SortBy::LastUpdatedTimestamp => a.mtime.secs < b.mtime.secs || (a.mtime.secs
            == b.mtime.secs && a.mtime.nanos <= b.mtime.nanos),
    }
}

/// Inserts `x` into the sorted `res` where `insert_sorted` places it, keeping
/// `keys` aligned with `res`.
fn insert_entry(res: &mut Vec<EntryMeta>, keys: &mut Vec<Vec<char>>, x: EntryMeta, by: SortBy)
    requires
        old(keys)@.len() == old(res)@.len(),
        forall|k: int| 0 <= k < old(res)@.len() ==> (#[trigger] old(keys)@[k])@ == lower_of(
            old(res)@[k].name@,
        ),
    ensures
        final(res)@ == insert_sorted(old(res)@, x, by),
        final(keys)@.len() == final(res)@.len(),
        forall|k: int| 0 <= k < final(res)@.len() ==> (#[trigger] final(keys)@[k])@ == lower_of(
            final(res)@[k].name@,
        ),
{
    let xk = name_key(&x);
    let mut j: usize = 0;
    while j < res.len() && !entry_le_exec(&x, &xk, &res[j], &keys[j], by)
        invariant
            j <= res@.len(),
            keys@.len() == res@.len(),
            res@ == old(res)@,
            keys@ == old(keys)@,
            xk@ == lower_of(x.name@),
            forall|k: int| 0 <= k < res@.len() ==> (#[trigger] keys@[k])@ == lower_of(res@[k].name@),
            forall|k: int| 0 <= k < j ==> !entry_le(x, #[trigger] res@[k], by),
        decreases res.len() - j,
    {
        j = j + 1;
    }
    proof {
        lemma_insert_at(res@, x, by, j as int);
    }
    let ghost rv = res@;
    let ghost kv = keys@;
    res.insert(j, x);
    keys.insert(j, xk);
    assert forall|k: int| 0 <= k < res@.len() implies (#[trigger] keys@[k])@ == lower_of(res@[k].name@) by {
        if k < j {
            assert(keys@[k] == kv[k] && res@[k] == rv[k]);
        } else if k > j {
            assert(keys@[k] == kv[k - 1] && res@[k] == rv[k - 1]);
        }
    }
}

/// Orders entries by the key, stably: entries with equal keys keep their
/// given order.
pub fn sort_meta_entries(meta_entries: Vec<EntryMeta>, sort_criteria: &SortBy) -> (r: Vec<EntryMeta>)
    ensures
        r@ == sort_spec(meta_entries@, *sort_criteria),
{
    let by = *sort_criteria;
    let ghost all = meta_entries@;
    let mut rest = meta_entries;
    let mut res: Vec<EntryMeta> = Vec::new();
    let mut keys: Vec<Vec<char>> = Vec::new();
    assert(all.subrange(all.len() as int, all.len() as int) =~= Seq::<EntryMeta>::empty());
    while rest.len() > 0
        invariant
            rest@.len() <= all.len(),
            rest@ == all.subrange(0, rest@.len() as int),
            res@ == sort_spec(all.subrange(rest@.len() as int, all.len() as int), by),
            keys@.len() == res@.len(),
            forall|k: int| 0 <= k < res@.len() ==> (#[trigger] keys@[k])@ == lower_of(res@[k].name@),
        decreases rest.len(),
    {
        let ghost i = rest@.len() as int;
        let x = rest.pop().unwrap();
        proof {
            let suffix = all.subrange(i - 1, all.len() as int);
            assert(suffix.drop_first() =~= all.subrange(i, all.len() as int));
            assert(suffix[0] == x);
            assert(rest@ =~= all.subrange(0, i - 1));
        }
        insert_entry(&mut res, &mut keys, x, by);
    }
    assert(all.subrange(0, all.len() as int) =~= all);
    res
}

/// The entries of one listed directory that pass the filter, in sorted
/// order.
pub open spec fn ordered_entries(s: Seq<EntryMeta>, opts: PrintOptions) -> Seq<EntryMeta> {
    sort_spec(visible_entries(s, opts), opts.sort_by)
}

/// Keeps the entries of one listed directory that pass the filter, and
/// orders them by the configured key.
pub fn create_ordered_row_level_entries(entries: Vec<EntryMeta>, opts: &PrintOptions) -> (r: Vec<EntryMeta>)
    ensures
        r@ == ordered_entries(entries@, *opts),
{
    let ghost all = entries@;
    let mut rest = entries;
    let mut kept: Vec<EntryMeta> = Vec::new();
    let mut res: Vec<EntryMeta> = Vec::new();
    assert(all.subrange(all.len() as int, all.len() as int) =~= Seq::<EntryMeta>::empty());
    while rest.len() > 0
        invariant
            rest@.len() <= all.len(),
            rest@ == all.subrange(0, rest@.len() as int),
            kept@ == visible_entries(all.subrange(rest@.len() as int, all.len() as int), *opts),
        decreases rest.len(),
    {
        let ghost i = rest@.len() as int;
        let x = rest.pop().unwrap();
        proof {
            let suffix = all.subrange(i - 1, all.len() as int);
            assert(suffix.drop_first() =~= all.subrange(i, all.len() as int));
            assert(suffix[0] == x);
            assert(rest@ =~= all.subrange(0, i - 1));
        }
        if is_visible(x.name.as_str(), x.is_dir, opts) {
            kept.insert(0, x);
            assert(kept@ =~= seq![x] + visible_entries(all.subrange(i, all.len() as int), *opts));
        }
    }
    assert(all.subrange(0, all.len() as int) =~= all);
    sort_meta_entries(kept, &opts.sort_by)
}

proof fn lemma_visible_members(s: Seq<EntryMeta>, opts: PrintOptions, e: EntryMeta)
    ensures
        visible_entries(s, opts).contains(e) <==> (s.contains(e) && entry_visible(
            e.name@,
            e.is_dir,
            opts,
        )),
    decreases s.len(),
{
    if s.len() > 0 {
        let s1 = s.drop_first();
        lemma_visible_members(s1, opts, e);
        assert(s =~= seq![s[0]] + s1);
        if s.contains(e) && e != s[0] {
            let k = choose|k: int| 0 <= k < s.len() && s[k] == e;
            assert(s1[k - 1] == e);
        }
        if s1.contains(e) {
            let k = choose|k: int| 0 <= k < s1.len() && s1[k] == e;
            assert(s[k + 1] == e);
        }
        if entry_visible(s[0].name@, s[0].is_dir, opts) {
            let v1 = visible_entries(s1, opts);
            assert(visible_entries(s, opts) == seq![s[0]] + v1);
            if v1.contains(e) {
                let k = choose|k: int| 0 <= k < v1.len() && v1[k] == e;
                assert((seq![s[0]] + v1)[k + 1] == e);
            }
            if (seq![s[0]] + v1).contains(e) && e != s[0] {
                let k = choose|k: int| 0 <= k < v1.len() + 1 && (seq![s[0]] + v1)[k] == e;
                assert(v1[k - 1] == e);
            }
            assert((seq![s[0]] + v1)[0] == s[0]);
        }
    }
}

/// An entry is listed exactly when it was in the directory and passes the
/// filter.
pub proof fn lemma_ordered_members(s: Seq<EntryMeta>, opts: PrintOptions, e: EntryMeta)
    ensures
        ordered_entries(s, opts).contains(e) <==> (s.contains(e) && entry_visible(
            e.name@,
            e.is_dir,
            opts,
        )),
{
    let v = visible_entries(s, opts);
    let r = ordered_entries(s, opts);
    lemma_visible_members(s, opts, e);
    lemma_sort_permutation(v, opts.sort_by);
    v.to_multiset_ensures();
    r.to_multiset_ensures();
    assert(r.to_multiset().count(e) == v.to_multiset().count(e));
    assert(r.contains(e) <==> r.to_multiset().count(e) > 0);
    assert(v.contains(e) <==> v.to_multiset().count(e) > 0);
}

/// With hidden entries off, no listed name starts with a dot; with them on,
/// every directory of the listing is shown, and so is every entry where no
/// extension set or regex is configured.
pub proof fn lemma_hidden_entries(s: Seq<EntryMeta>, opts: PrintOptions)
    ensures
        !opts.show_hidden ==> forall|k: int|
            0 <= k < ordered_entries(s, opts).len() ==> !is_hidden_name(
                (#[trigger] ordered_entries(s, opts)[k]).name@,
            ),
        opts.show_hidden ==> forall|e: EntryMeta|
            #[trigger] s.contains(e) && (e.is_dir || (opts.extension_filters is None
                && opts.regex_filter is None)) ==> ordered_entries(s, opts).contains(e),
{
    let r = ordered_entries(s, opts);
    assert forall|k: int| 0 <= k < r.len() implies entry_visible(
        (#[trigger] r[k]).name@,
        r[k].is_dir,
        opts,
    ) by {
        lemma_ordered_members(s, opts, r[k]);
    }
    assert forall|e: EntryMeta|
        #[trigger] s.contains(e) && opts.show_hidden && (e.is_dir || (opts.extension_filters is None
            && opts.regex_filter is None)) implies r.contains(e) by {
        lemma_ordered_members(s, opts, e);
    }
}

/// Every listed file carries an allowed extension; every directory of the
/// listing that the hidden rule admits is listed, whatever its extension.
pub proof fn lemma_extension_filter(s: Seq<EntryMeta>, opts: PrintOptions)
    requires
        opts.extension_filters is Some,
    ensures
        forall|k: int|
            0 <= k < ordered_entries(s, opts).len() && !(#[trigger] ordered_entries(s, opts)[k]).is_dir
                ==> ext_allowed(opts.extension_filters->0@, ascii_lower(name_ext(ordered_entries(s, opts)[k].name@))),
        forall|e: EntryMeta|
            #[trigger] s.contains(e) && e.is_dir && (opts.show_hidden || !is_hidden_name(e.name@))
                ==> ordered_entries(s, opts).contains(e),
{
    let r = ordered_entries(s, opts);
    assert forall|k: int| 0 <= k < r.len() implies entry_visible(
        (#[trigger] r[k]).name@,
        r[k].is_dir,
        opts,
    ) by {
        lemma_ordered_members(s, opts, r[k]);
    }
    assert forall|e: EntryMeta|
        #[trigger] s.contains(e) && e.is_dir && (opts.show_hidden || !is_hidden_name(e.name@)) implies r.contains(e) by {
        lemma_ordered_members(s, opts, e);
    }
}

/// Every listed file has a name that the configured regex matches.
pub proof fn lemma_regex_filter(s: Seq<EntryMeta>, opts: PrintOptions)
    requires
        opts.regex_filter is Some,
    ensures
        forall|k: int|
            0 <= k < ordered_entries(s, opts).len() && !(#[trigger] ordered_entries(s, opts)[k]).is_dir
                ==> regex_finds(opts.regex_filter->0, ordered_entries(s, opts)[k].name@),
{
    let r = ordered_entries(s, opts);
    assert forall|k: int| 0 <= k < r.len() implies entry_visible(
        (#[trigger] r[k]).name@,
        r[k].is_dir,
        opts,
    ) by {
        lemma_ordered_members(s, opts, r[k]);
    }
}

/// Under the alphabetical key, names that lower-case alike compare alike:
/// case does not decide the order.
pub proof fn lemma_alphabetical_ignores_case(a: EntryMeta, a2: EntryMeta, b: EntryMeta)
    requires
        lower_of(a.name@) == lower_of(a2.name@),
    ensures
        entry_le(a, b, SortBy::Alphabetical) == entry_le(a2, b, SortBy::Alphabetical),
        entry_le(b, a, SortBy::Alphabetical) == entry_le(b, a2, SortBy::Alphabetical),
        entry_le(a, a2, SortBy::Alphabetical) && entry_le(a2, a, SortBy::Alphabetical),
{
    lemma_seq_lt_asym(lower_of(a.name@), lower_of(a.name@));
}

/// Whether two entries have equal keys: each may stand before the other.
pub open spec fn same_key(a: EntryMeta, b: EntryMeta, by: SortBy) -> bool {
    entry_le(a, b, by) && entry_le(b, a, by)
}

/// The entries of `s` whose key equals the key of `e`, in their order in `s`.
pub open spec fn key_class(s: Seq<EntryMeta>, e: EntryMeta, by: SortBy) -> Seq<EntryMeta>
    decreases s.len(),
{
    if s.len() == 0 {
        s
    } else if same_key(s[0], e, by) {
        seq![s[0]] + key_class(s.drop_first(), e, by)
    } else {
        key_class(s.drop_first(), e, by)
    }
}

proof fn lemma_key_class_cons(a: EntryMeta, rest: Seq<EntryMeta>, e: EntryMeta, by: SortBy)
    ensures
        key_class(seq![a] + rest, e, by) == if same_key(a, e, by) {
            seq![a] + key_class(rest, e, by)
        } else {
            key_class(rest, e, by)
        },
{
    let s = seq![a] + rest;
    assert(s[0] == a);
    assert(s.drop_first() =~= rest);
}

proof fn lemma_insert_key_class(t: Seq<EntryMeta>, x: EntryMeta, e: EntryMeta, by: SortBy)
    ensures
        key_class(insert_sorted(t, x, by), e, by) == if same_key(x, e, by) {
            seq![x] + key_class(t, e, by)
        } else {
            key_class(t, e, by)
        },
    decreases t.len(),
{
    if t.len() == 0 {
        lemma_key_class_cons(x, t, e, by);
        assert(seq![x] + t =~= seq![x]);
    } else if entry_le(x, t[0], by) {
        lemma_key_class_cons(x, t, e, by);
    } else {
        let t1 = t.drop_first();
        lemma_insert_key_class(t1, x, e, by);
        lemma_key_class_cons(t[0], insert_sorted(t1, x, by), e, by);
        lemma_key_class_cons(t[0], t1, e, by);
        assert(seq![t[0]] + t1 =~= t);
        if same_key(x, e, by) && same_key(t[0], e, by) {
            lemma_entry_le_trans(x, e, t[0], by);
        }
        if same_key(x, e, by) {
            assert(seq![x] + key_class(t1, e, by) =~= seq![x] + key_class(t, e, by));
        }
    }
}

/// The sort is stable: the entries whose key equals that of any entry `e`
/// come out in the order in which they went in.
pub proof fn lemma_sort_stable(s: Seq<EntryMeta>, e: EntryMeta, by: SortBy)
    ensures
        key_class(sort_spec(s, by), e, by) == key_class(s, e, by),
    decreases s.len(),
{
    if s.len() > 0 {
        lemma_sort_stable(s.drop_first(), e, by);
        lemma_insert_key_class(sort_spec(s.drop_first(), by), s[0], e, by);
        lemma_key_class_cons(s[0], s.drop_first(), e, by);
        assert(seq![s[0]] + s.drop_first() =~= s);
    }
}

} // verus!
