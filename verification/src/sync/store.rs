//! The sync folder on disk.
//!
//! Layout:
//!
//! ```text
//! <sync folder>/
//!   devices/
//!     <device id>/
//!       meta.json
//!       ops-000001.jsonl
//!       ops-000002.jsonl
//! ```
//!
//! Every device writes only inside its own `devices/<id>/` subtree and reads
//! everyone else's. Because each file has exactly one writer, the cloud
//! provider never has two versions of a file to reconcile.
//!
//! Paths are held as text and joined with `/`, which every supported
//! platform accepts as a separator.
use vstd::prelude::*;
use crate::sync::op::{Op, OpView};
use crate::sync::ops_view;
use crate::text::{
    chars_of, ends_with, first_index_of, has_prefix, has_suffix, join_path, joined, owned,
    parse_u64, seq_lt, spec_parse_u64, starts_with, str_eq, str_lt, string_of_range, trim,
    trim_range, zero_padded, zero_padded_text, lemma_seq_lt_asymmetric, lemma_seq_lt_total,
    lemma_seq_lt_irreflexive,
};

verus! {

/// Roll over to a new segment past this size, so a busy device does not
/// force the cloud client to re-upload one ever-growing file on every change.
pub const SEGMENT_MAX_BYTES: u64 = 1048576;

pub const DEVICES_DIR: &'static str = "devices";

pub const META_FILE: &'static str = "meta.json";

/// Segment numbering used when a log is rewritten: fresh, and sorting after
/// every segment numbered below 100000.
pub const REWRITE_FIRST_INDEX: u64 = 1000000;

/// What a device publishes about itself next to its log.
#[derive(Debug, Clone)]
pub struct DeviceMeta {
    pub device_id: String,
    pub name: String,
    pub platform: String,
    pub last_seen: String,
    /// Bumped when the device rewrites its own log; readers use it only as a
    /// hint that previously seen files may have been replaced.
    pub compaction_epoch: u64,
}

/// One segment file as found on disk.
#[derive(Debug, Clone)]
pub struct Segment {
    pub path: String,
    pub size: u64,
    pub mtime: i64,
}

pub struct SegmentView {
    pub path: Seq<char>,
    pub size: u64,
    pub mtime: i64,
}

impl View for Segment {
    type V = SegmentView;

    open spec fn view(&self) -> SegmentView {
        SegmentView { path: self.path@, size: self.size, mtime: self.mtime }
    }
}

pub open spec fn segments_view(s: Seq<Segment>) -> Seq<SegmentView> {
    s.map_values(|g: Segment| g@)
}

#[derive(Debug)]
pub struct SyncFolder {
    root: String,
}

impl View for SyncFolder {
    type V = Seq<char>;

    closed spec fn view(&self) -> Seq<char> {
        self.root@
    }
}

/// `devices/<device>` under the folder root.
pub open spec fn device_dir_of(root: Seq<char>, device: Seq<char>) -> Seq<char> {
    joined(joined(root, DEVICES_DIR@), device)
}

/// The name of segment number `index`: `ops-` and the number padded to six
/// digits, then `.jsonl`.
pub open spec fn segment_name(index: nat) -> Seq<char> {
    "ops-"@ + zero_padded(index, 6) + ".jsonl"@
}

pub open spec fn segment_path_of(root: Seq<char>, device: Seq<char>, index: nat) -> Seq<char> {
    joined(device_dir_of(root, device), segment_name(index))
}

pub open spec fn is_separator(c: char) -> bool {
    c == '/' || c == '\\'
}

/// The last component of a path.
pub open spec fn file_name_of(path: Seq<char>) -> Seq<char>
    decreases path.len(),
{
    if path.len() == 0 || is_separator(path.last()) {
        Seq::empty()
    } else {
        file_name_of(path.drop_last()).push(path.last())
    }
}

/// Index of the last `.` in a name, if any.
pub open spec fn last_dot(name: Seq<char>) -> Option<int>
    decreases name.len(),
{
    if name.len() == 0 {
        None
    } else if name.last() == '.' {
        Some(name.len() - 1)
    } else {
        last_dot(name.drop_last())
    }
}

proof fn lemma_last_dot(name: Seq<char>)
    ensures
        last_dot(name) matches Some(k) ==> 0 <= k < name.len() && name[k] == '.',
    decreases name.len(),
{
    if name.len() > 0 && name.last() != '.' {
        lemma_last_dot(name.drop_last());
    }
}

/// A file name without its extension; a name whose only dot leads it has
/// no extension.
pub open spec fn stem_of(name: Seq<char>) -> Seq<char> {
    match last_dot(name) {
        Some(k) => if k > 0 {
            name.take(k)
        } else {
            name
        },
        None => name,
    }
}

/// The number a segment file carries in its name, or 0 when it carries none
/// that can be read.
pub open spec fn segment_index_of(path: Seq<char>) -> u64 {
    let stem = stem_of(file_name_of(path));
    if has_prefix(stem, "ops-"@) {
        match spec_parse_u64(stem.skip(4)) {
            Some(n) => n,
            None => 0,
        }
    } else {
        0
    }
}

/// The segment new ops go into: the last segment while it is below the size
/// limit, otherwise the one numbered after it; the first segment when the
/// device has none yet.
pub open spec fn current_segment_of(root: Seq<char>, device: Seq<char>, segments: Seq<SegmentView>) -> Seq<
    char,
> {
    if segments.len() == 0 {
        segment_path_of(root, device, 1)
    } else if segments.last().size < SEGMENT_MAX_BYTES {
        segments.last().path
    } else {
        segment_path_of(root, device, (segment_index_of(segments.last().path) + 1) as nat)
    }
}

fn file_name_bounds(cs: &[char]) -> (j: usize)
    ensures
        j <= cs.len(),
        file_name_of(cs@) == cs@.subrange(j as int, cs.len() as int),
{
    let mut j: usize = cs.len();
    assert(cs@.take(j as int) =~= cs@);
    assert(cs@.subrange(j as int, j as int) =~= Seq::<char>::empty());
    while j > 0 && !(cs[j - 1] == '/' || cs[j - 1] == '\\')
        invariant
            j <= cs.len(),
            file_name_of(cs@) == file_name_of(cs@.take(j as int)) + cs@.subrange(j as int, cs.len() as int),
        decreases j,
    {
        assert(cs@.take(j as int).drop_last() =~= cs@.take(j - 1));
        assert(cs@.take(j as int).last() == cs@[j - 1]);
        assert(cs@.subrange(j - 1, cs.len() as int) =~= seq![cs@[j - 1]] + cs@.subrange(j as int, cs.len() as int));
        assert(file_name_of(cs@.take(j - 1)).push(cs@[j - 1]) + cs@.subrange(j as int, cs.len() as int)
            =~= file_name_of(cs@.take(j - 1)) + cs@.subrange(j - 1, cs.len() as int));
        j = j - 1;
    }
    if j > 0 {
        assert(cs@.take(j as int).last() == cs@[j - 1]);
    }
    assert(file_name_of(cs@.take(j as int)) =~= Seq::<char>::empty());
    assert(Seq::<char>::empty() + cs@.subrange(j as int, cs.len() as int) =~= cs@.subrange(j as int, cs.len() as int));
    j
}

fn last_dot_in(cs: &[char], from: usize) -> (r: Option<usize>)
    requires
        from <= cs.len(),
    ensures
        match last_dot(cs@.subrange(from as int, cs.len() as int)) {
            Some(k) => r == Some((from + k) as usize),
            None => r is None,
        },
{
    let ghost name = cs@.subrange(from as int, cs.len() as int);
    let mut j: usize = cs.len();
    assert(name.take((j - from) as int) =~= name);
    while j > from && cs[j - 1] != '.'
        invariant
            from <= j <= cs.len(),
            name == cs@.subrange(from as int, cs.len() as int),
            last_dot(name) == last_dot(name.take(j - from)),
        decreases j,
    {
        assert(name.take(j - from).drop_last() =~= name.take(j - 1 - from));
        j = j - 1;
    }
    if j > from {
        assert(name.take(j - from).last() == cs@[j - 1]);
        Some(j - 1)
    } else {
        assert(name.take(0) =~= Seq::<char>::empty());
        None
    }
}

/// The number in a segment path's file name, as `current_segment` reads it.
pub fn segment_index(path: &str) -> (n: u64)
    ensures
        n == segment_index_of(path@),
{
    let cs = chars_of(path);
    let start = file_name_bounds(cs.as_slice());
    let ghost name = cs@.subrange(start as int, cs.len() as int);
    proof {
        lemma_last_dot(name);
    }
    let end: usize = match last_dot_in(cs.as_slice(), start) {
        Some(k) => if k > start {
            k
        } else {
            cs.len()
        },
        None => cs.len(),
    };
    proof {
        match last_dot(name) {
            Some(k) => {
                if k > 0 {
                    assert(cs@.subrange(start as int, end as int) =~= name.take(k));
                } else {
                    assert(cs@.subrange(start as int, end as int) =~= name);
                }
            },
            None => {
                assert(cs@.subrange(start as int, end as int) =~= name);
            },
        }
    }
    let stem = string_of_range(cs.as_slice(), start, end);
    let stem_chars = chars_of(stem.as_str());
    if !starts_with(stem_chars.as_slice(), "ops-") {
        return 0;
    }
    proof {
        reveal_strlit("ops-");
    }
    let digits = string_of_range(stem_chars.as_slice(), 4, stem_chars.len());
    match parse_u64(digits.as_str()) {
        Some(n) => n,
        None => 0,
    }
}

impl SyncFolder {
    pub fn new(root: &str) -> (f: SyncFolder)
        ensures
            f@ == root@,
    {
        SyncFolder { root: owned(root) }
    }

    pub fn root(&self) -> (r: &str)
        ensures
            r@ == self@,
    {
        self.root.as_str()
    }

    /// The directory a device writes its log and meta file into.
    pub fn device_dir(&self, device: &str) -> (p: String)
        ensures
            p@ == device_dir_of(self@, device@),
    {
        let devices = join_path(self.root.as_str(), DEVICES_DIR);
        join_path(devices.as_str(), device)
    }

    /// Path of a device's segment number `index`.
    pub fn segment_path(&self, device: &str, index: u64) -> (p: String)
        ensures
            p@ == segment_path_of(self@, device@, index as nat),
    {
        let dir = self.device_dir(device);
        let mut name = owned("ops-");
        let digits = zero_padded_text(index, 6);
        name.append(digits.as_str());
        name.append(".jsonl");
        join_path(dir.as_str(), name.as_str())
    }

    /// Path of a device's meta file.
    pub fn meta_path(&self, device: &str) -> (p: String)
        ensures
            p@ == joined(device_dir_of(self@, device@), META_FILE@),
    {
        let dir = self.device_dir(device);
        join_path(dir.as_str(), META_FILE)
    }

    /// The segment new ops should go into, given the device's segments
    /// oldest first, rolling over when the newest has grown past the size
    /// limit.
    pub fn current_segment(&self, device: &str, segments: &Vec<Segment>) -> (p: String)
        requires
            segments.len() > 0 && segments@.last().size >= SEGMENT_MAX_BYTES ==> segment_index_of(
                segments@.last().path@,
            ) < u64::MAX,
        ensures
            p@ == current_segment_of(self@, device@, segments_view(segments@)),
    {
        let n = segments.len();
        if n == 0 {
            return self.segment_path(device, 1);
        }
        let last = &segments[n - 1];
        assert(segments_view(segments@).last() == last@);
        if last.size < SEGMENT_MAX_BYTES {
            last.path.clone()
        } else {
            let index = segment_index(last.path.as_str());
            self.segment_path(device, index + 1)
        }
    }
}

/// Whether a directory entry is a segment file: `ops-*.jsonl`.
pub fn is_segment_name(name: &str) -> (r: bool)
    ensures
        r == (has_prefix(name@, "ops-"@) && has_suffix(name@, ".jsonl"@)),
{
    let cs = chars_of(name);
    starts_with(cs.as_slice(), "ops-") && ends_with(cs.as_slice(), ".jsonl")
}

/// Whether `s` is in ascending code point order.
pub open spec fn sorted_texts(s: Seq<Seq<char>>) -> bool {
    forall|i: int, j: int| 0 <= i < j < s.len() ==> !seq_lt(s[j], s[i])
}

pub open spec fn texts_view(s: Seq<String>) -> Seq<Seq<char>> {
    s.map_values(|x: String| x@)
}

/// The occurrences of `x` in `s`.
pub open spec fn occurrences(s: Seq<Seq<char>>, x: Seq<char>) -> Seq<Seq<char>> {
    s.filter(equals_text(x))
}

pub open spec fn equals_text(x: Seq<char>) -> spec_fn(Seq<char>) -> bool {
    |y: Seq<char>| y == x
}

proof fn lemma_occurrences_insert(a: Seq<Seq<char>>, p: int, x: Seq<char>, k: Seq<char>)
    requires
        0 <= p <= a.len(),
    ensures
        occurrences(a.insert(p, x), k).len() == occurrences(a, k).len() + (if x == k { 1int } else { 0 }),
{
    let pred = equals_text(k);
    let front = a.take(p);
    let back = a.skip(p);
    assert(a =~= front + back);
    assert(a.insert(p, x) =~= front.push(x) + back);
    Seq::filter_distributes_over_add(front, back, pred);
    Seq::filter_distributes_over_add(front.push(x), back, pred);
    front.lemma_filter_push(x, pred);
    assert(occurrences(a, k) == front.filter(pred) + back.filter(pred));
    assert(occurrences(a.insert(p, x), k) == front.push(x).filter(pred) + back.filter(pred));
    if x == k {
        assert(front.push(x).filter(pred) == front.filter(pred).push(x));
    } else {
        assert(front.push(x).filter(pred) == front.filter(pred));
    }
}

/// Ids of the devices found in the folder, excluding our own, in order.
pub fn peer_ids(names: Vec<String>, own: &str) -> (out: Vec<String>)
    ensures
        sorted_texts(texts_view(out@)),
        forall|x: Seq<char>| #[trigger] occurrences(texts_view(out@), x).len() == (if x == own@ {
            0
        } else {
            occurrences(texts_view(names@), x).len()
        }),
{
    let ghost s = texts_view(names@);
    let mut out: Vec<String> = Vec::new();
    for name in it: names
        invariant
            it.seq() == names@,
            s == texts_view(it.seq()),
            sorted_texts(texts_view(out@)),
            forall|x: Seq<char>| #[trigger] occurrences(texts_view(out@), x).len() == (if x == own@ {
                0
            } else {
                occurrences(s.take(it.index() as int), x).len()
            }),
    {
        let ghost i = it.index();
        assert(name@ == s[i]);
        let ghost before = texts_view(out@);
        proof {
            assert(s.take(i + 1) =~= s.take(i).push(s[i]));
            assert forall|x: Seq<char>| #[trigger] occurrences(s.take(i + 1), x).len() == occurrences(s.take(i), x).len()
                + (if s[i] == x { 1int } else { 0 }) by {
                s.take(i).lemma_filter_push(s[i], equals_text(x));
            }
        }
        if !str_eq(name.as_str(), own) {
            let mut p: usize = out.len();
            while p > 0 && str_lt(name.as_str(), out[p - 1].as_str())
                invariant
                    p <= out.len(),
                    before == texts_view(out@),
                    forall|q: int| p <= q < out.len() ==> seq_lt(name@, #[trigger] out@[q]@),
                decreases p,
            {
                p = p - 1;
            }
            proof {
                assert forall|q: int| 0 <= q < p implies !seq_lt(name@, before[q]) by {
                    assert(before[q] == out@[q]@);
                    assert(before[p - 1] == out@[p - 1]@);
                    if seq_lt(name@, before[q]) {
                        // before[q] <= before[p - 1] by sortedness, so name < before[p - 1]
                        if q < p - 1 {
                            assert(!seq_lt(before[p - 1], before[q]));
                            if before[q] != before[p - 1] {
                                lemma_seq_lt_total(before[q], before[p - 1]);
                                crate::text::lemma_seq_lt_transitive(name@, before[q], before[p - 1]);
                            }
                        }
                    }
                }
            }
            out.insert(p, name);
            proof {
                let after = texts_view(out@);
                assert(after =~= before.insert(p as int, s[i]));
                assert forall|x: Seq<char>| #[trigger] occurrences(after, x).len() == (if x == own@ {
                    0
                } else {
                    occurrences(s.take(i + 1), x).len()
                }) by {
                    lemma_occurrences_insert(before, p as int, s[i], x);
                }
                assert forall|a: int, b: int| 0 <= a < b < after.len() implies !seq_lt(after[b], after[a]) by {
                    if b < p {
                    } else if b == p {
                        if a < p {
                            assert(after[a] == before[a]);
                        }
                    } else if a < p {
                        assert(after[b] == before[b - 1]);
                        assert(after[a] == before[a]);
                        assert(seq_lt(s[i], before[b - 1]));
                        if seq_lt(before[b - 1], before[a]) {
                            crate::text::lemma_seq_lt_transitive(s[i], before[b - 1], before[a]);
                        }
                    } else if a == p {
                        assert(after[b] == before[b - 1]);
                        assert(seq_lt(s[i], before[b - 1]));
                        lemma_seq_lt_asymmetric(s[i], before[b - 1]);
                    } else {
                        assert(after[a] == before[a - 1]);
                        assert(after[b] == before[b - 1]);
                    }
                }
            }
        }
    }
    proof {
        assert(s.take(s.len() as int) =~= s);
    }
    out
}

/// Whether segments are in ascending path order.
pub open spec fn sorted_by_path(s: Seq<SegmentView>) -> bool {
    forall|i: int, j: int| 0 <= i < j < s.len() ==> !seq_lt(s[j].path, s[i].path)
}

pub open spec fn at_path(p: Seq<char>) -> spec_fn(SegmentView) -> bool {
    |g: SegmentView| g.path == p
}

proof fn lemma_at_path_insert(a: Seq<SegmentView>, p: int, x: SegmentView, k: Seq<char>)
    requires
        0 <= p <= a.len(),
        forall|q: int| p <= q < a.len() ==> seq_lt(x.path, a[q].path),
    ensures
        a.insert(p, x).filter(at_path(k)) == (if x.path == k {
            a.filter(at_path(k)).push(x)
        } else {
            a.filter(at_path(k))
        }),
{
    let pred = at_path(k);
    let front = a.take(p);
    let back = a.skip(p);
    assert(a =~= front + back);
    assert(a.insert(p, x) =~= front.push(x) + back);
    Seq::filter_distributes_over_add(front, back, pred);
    Seq::filter_distributes_over_add(front.push(x), back, pred);
    front.lemma_filter_push(x, pred);
    if x.path == k {
        assert forall|q: int| 0 <= q < back.len() implies !pred(back[q]) by {
            assert(back[q] == a[p + q]);
            lemma_seq_lt_irreflexive(k);
        }
        assert(back.all(|g: SegmentView| !pred(g)));
        back.lemma_all_neg_filter_empty(pred);
        assert(back.filter(pred) =~= Seq::<SegmentView>::empty());
        assert(front.filter(pred) + back.filter(pred) =~= front.filter(pred));
        assert(front.filter(pred).push(x) + back.filter(pred) =~= front.filter(pred).push(x));
    }
}

/// A device's segments, oldest first: ordered by path, with segments of equal
/// path kept in the order found.
pub fn sort_segments(segments: Vec<Segment>) -> (out: Vec<Segment>)
    ensures
        sorted_by_path(segments_view(out@)),
        forall|p: Seq<char>| #[trigger] segments_view(out@).filter(at_path(p)) == segments_view(segments@).filter(
            at_path(p),
        ),
        out.len() == segments.len(),
{
    let ghost s = segments_view(segments@);
    let mut out: Vec<Segment> = Vec::new();
    let n = segments.len();
    for g in it: segments
        invariant
            n == s.len(),
            it.seq() == segments@,
            s == segments_view(it.seq()),
            out.len() == it.index(),
            sorted_by_path(segments_view(out@)),
            forall|p: Seq<char>| #[trigger] segments_view(out@).filter(at_path(p)) == s.take(it.index() as int).filter(
                at_path(p),
            ),
    {
        let ghost i = it.index();
        assert(g@ == s[i]);
        let ghost before = segments_view(out@);
        let mut p: usize = out.len();
        while p > 0 && str_lt(g.path.as_str(), out[p - 1].path.as_str())
            invariant
                p <= out.len(),
                before == segments_view(out@),
                forall|q: int| p <= q < out.len() ==> seq_lt(g.path@, #[trigger] out@[q].path@),
            decreases p,
        {
            p = p - 1;
        }
        proof {
            assert forall|q: int| p <= q < before.len() implies seq_lt(g@.path, before[q].path) by {
                assert(before[q] == out@[q]@);
            }
            assert forall|q: int| 0 <= q < p implies !seq_lt(g@.path, before[q].path) by {
                assert(before[q] == out@[q]@);
                assert(before[p - 1] == out@[p - 1]@);
                if seq_lt(g@.path, before[q].path) && q < p - 1 {
                    assert(!seq_lt(before[p - 1].path, before[q].path));
                    if before[q].path != before[p - 1].path {
                        lemma_seq_lt_total(before[q].path, before[p - 1].path);
                        crate::text::lemma_seq_lt_transitive(g@.path, before[q].path, before[p - 1].path);
                    }
                }
            }
        }
        out.insert(p, g);
        proof {
            let after = segments_view(out@);
            assert(after =~= before.insert(p as int, s[i]));
            assert(s.take(i + 1) =~= s.take(i).push(s[i]));
            assert forall|k: Seq<char>| #[trigger] after.filter(at_path(k)) == s.take(i + 1).filter(at_path(k)) by {
                lemma_at_path_insert(before, p as int, s[i], k);
                s.take(i).lemma_filter_push(s[i], at_path(k));
            }
            assert forall|a: int, b: int| 0 <= a < b < after.len() implies !seq_lt(after[b].path, after[a].path) by {
                if b < p {
                } else if b == p {
                    if a < p {
                        assert(after[a] == before[a]);
                    }
                } else if a < p {
                    assert(after[b] == before[b - 1]);
                    assert(after[a] == before[a]);
                    if seq_lt(before[b - 1].path, before[a].path) {
                        crate::text::lemma_seq_lt_transitive(s[i].path, before[b - 1].path, before[a].path);
                    }
                } else if a == p {
                    assert(after[b] == before[b - 1]);
                    lemma_seq_lt_asymmetric(s[i].path, before[b - 1].path);
                } else {
                    assert(after[a] == before[a - 1]);
                    assert(after[b] == before[b - 1]);
                }
            }
        }
    }
    proof {
        assert(s.take(n as int) =~= s);
    }
    out
}

/// The complete lines of a segment's text, trimmed, with blank lines left
/// out. A line is complete once its newline has been written; whatever
/// follows the last newline is still in flight and is left for a later read.
#[verifier::opaque]
pub open spec fn complete_lines(s: Seq<char>) -> Seq<Seq<char>>
    decreases s.len(),
{
    match first_index_of(s, '\n') {
        None => Seq::empty(),
        Some(k) => {
            if 0 <= k < s.len() {
                let line = trim(s.take(k + 1));
                let rest = complete_lines(s.skip(k + 1));
                if line.len() == 0 {
                    rest
                } else {
                    seq![line] + rest
                }
            } else {
                Seq::empty()
            }
        },
    }
}

proof fn lemma_complete_lines_step(s: Seq<char>, start: int, i: int)
    requires
        0 <= start <= i < s.len(),
        s[i] == '\n',
        forall|q: int| start <= q < i ==> s[q] != '\n',
    ensures
        complete_lines(s.skip(start)) == (if trim(s.subrange(start, i + 1)).len() == 0 {
            complete_lines(s.skip(i + 1))
        } else {
            seq![trim(s.subrange(start, i + 1))] + complete_lines(s.skip(i + 1))
        }),
{
    reveal(complete_lines);
    let t = s.skip(start);
    assert(t[i - start] == '\n');
    let w = choose|k: int| 0 <= k < t.len() && t[k] == '\n' && forall|j: int| 0 <= j < k ==> t[j] != '\n';
    assert(0 <= i - start < t.len() && t[i - start] == '\n' && forall|j: int| 0 <= j < i - start ==> t[j] != '\n');
    if w < i - start {
        assert(t[w] == s[start + w]);
    } else if w > i - start {
    }
    assert(first_index_of(t, '\n') == Some((i - start) as int));
    assert(t.take(i - start + 1) =~= s.subrange(start, i + 1));
    assert(t.skip(i - start + 1) =~= s.skip(i + 1));
}

/// Splits a segment's text into the lines that can be read now.
pub fn segment_lines(raw: &str) -> (lines: Vec<String>)
    ensures
        texts_view(lines@) == complete_lines(raw@),
{
    let cs = chars_of(raw);
    let ghost s = cs@;
    let mut lines: Vec<String> = Vec::new();
    let mut start: usize = 0;
    let mut i: usize = 0;
    assert(s.skip(0) =~= s);
    while i < cs.len()
        invariant
            start <= i <= cs.len(),
            s == cs@,
            complete_lines(s) == texts_view(lines@) + complete_lines(s.skip(start as int)),
            forall|q: int| start <= q < i ==> s[q] != '\n',
        decreases cs.len() - i,
    {
        if cs[i] == '\n' {
            proof {
                lemma_complete_lines_step(s, start as int, i as int);
            }
            let (a, b) = trim_range(cs.as_slice(), start, i + 1);
            if a < b {
                let line = string_of_range(cs.as_slice(), a, b);
                lines.push(line);
            }
            proof {
                if a < b {
                    assert(texts_view(lines@) =~= texts_view(lines@.drop_last()).push(s.subrange(a as int, b as int)));
                }
            }
            assert(complete_lines(s) =~= texts_view(lines@) + complete_lines(s.skip(i + 1)));
            start = i + 1;
        }
        i = i + 1;
    }
    proof {
        let t = s.skip(start as int);
        assert forall|k: int| 0 <= k < t.len() implies t[k] != '\n' by {
            assert(t[k] == s[start + k]);
        }
        assert(first_index_of(t, '\n') is None);
        reveal(complete_lines);
        assert(complete_lines(t) =~= Seq::<Seq<char>>::empty());
        assert(texts_view(lines@) + Seq::<Seq<char>>::empty() =~= texts_view(lines@));
    }
    lines
}

/// The ops read from a segment's lines: everything before the first line
/// that does not parse. A corrupt line stops the read rather than being
/// skipped, so it is retried later instead of silently lost.
pub open spec fn leading_ops(parsed: Seq<Option<OpView>>) -> Seq<OpView>
    decreases parsed.len(),
{
    if parsed.len() == 0 {
        Seq::empty()
    } else {
        match parsed[0] {
            Some(op) => seq![op] + leading_ops(parsed.drop_first()),
            None => Seq::empty(),
        }
    }
}

pub open spec fn parsed_view(s: Seq<Option<Op>>) -> Seq<Option<OpView>> {
    s.map_values(|o: Option<Op>| match o {
        Some(op) => Some(op@),
        None => None,
    })
}

pub fn ops_before_failure(parsed: Vec<Option<Op>>) -> (ops: Vec<Op>)
    ensures
        ops_view(ops@) == leading_ops(parsed_view(parsed@)),
{
    let ghost s = parsed_view(parsed@);
    let mut ops: Vec<Op> = Vec::new();
    assert(s.skip(0) =~= s);
    for item in it: parsed
        invariant
            it.seq() == parsed@,
            s == parsed_view(it.seq()),
            leading_ops(s) == ops_view(ops@) + leading_ops(s.skip(it.index() as int)),
    {
        let ghost i = it.index();
        assert(s.skip(i).drop_first() =~= s.skip(i + 1));
        assert(s.skip(i)[0] == s[i]);
        match item {
            Some(op) => {
                ops.push(op);
                assert(ops_view(ops@) =~= ops_view(ops@.drop_last()).push(s[i]->Some_0));
                assert(ops_view(ops@) + leading_ops(s.skip(i + 1)) =~= ops_view(ops@.drop_last()) + (seq![s[i]->Some_0] + leading_ops(s.skip(i + 1))));
            },
            None => {
                assert(ops_view(ops@) + Seq::<OpView>::empty() =~= ops_view(ops@));
                assert(leading_ops(s) == ops_view(ops@));
                return ops;
            },
        }
    }
    assert(s.skip(s.len() as int) =~= Seq::<Option<OpView>>::empty());
    assert(ops_view(ops@) + Seq::<OpView>::empty() =~= ops_view(ops@));
    ops
}

/// How a rewrite groups ops into segments, given each op's line size: ops
/// accumulate into a segment until its size reaches the limit, which closes
/// it. Returns the closed segments' op counts, the count of ops still open,
/// and their size.
pub open spec fn chunking(sizes: Seq<usize>) -> (Seq<nat>, nat, nat)
    decreases sizes.len(),
{
    if sizes.len() == 0 {
        (Seq::empty(), 0, 0)
    } else {
        let (closed, count, bytes) = chunking(sizes.drop_last());
        let total = bytes + sizes.last();
        if total >= SEGMENT_MAX_BYTES {
            (closed.push(count + 1), 0, 0)
        } else {
            (closed, count + 1, total as nat)
        }
    }
}

/// The op count of each segment a rewrite writes, in order; a final
/// segment below the limit holds whatever is left.
pub open spec fn chunk_counts(sizes: Seq<usize>) -> Seq<nat> {
    let (closed, count, _bytes) = chunking(sizes);
    if count > 0 {
        closed.push(count)
    } else {
        closed
    }
}

/// Splits a rewritten log into segments by size.
pub fn chunk_plan(sizes: &Vec<usize>) -> (counts: Vec<usize>)
    requires
        forall|i: int| 0 <= i < sizes.len() ==> #[trigger] sizes@[i] <= usize::MAX - SEGMENT_MAX_BYTES,
    ensures
        counts@.map_values(|c: usize| c as nat) == chunk_counts(sizes@),
{
    let mut counts: Vec<usize> = Vec::new();
    let mut count: usize = 0;
    let mut bytes: usize = 0;
    let mut i: usize = 0;
    while i < sizes.len()
        invariant
            i <= sizes.len(),
            count <= i,
            bytes < SEGMENT_MAX_BYTES,
            forall|q: int| 0 <= q < sizes.len() ==> #[trigger] sizes@[q] <= usize::MAX - SEGMENT_MAX_BYTES,
            chunking(sizes@.take(i as int)) == (counts@.map_values(|c: usize| c as nat), count as nat, bytes as nat),
        decreases sizes.len() - i,
    {
        assert(sizes@.take(i + 1).drop_last() =~= sizes@.take(i as int));
        assert(sizes@.take(i + 1).last() == sizes@[i as int]);
        bytes = bytes + sizes[i];
        count = count + 1;
        if bytes as u64 >= SEGMENT_MAX_BYTES {
            counts.push(count);
            count = 0;
            bytes = 0;
        }
        assert(counts@.map_values(|c: usize| c as nat) =~= chunking(sizes@.take(i + 1)).0);
        i = i + 1;
    }
    assert(sizes@.take(sizes.len() as int) =~= sizes@);
    if count > 0 {
        counts.push(count);
    }
    assert(counts@.map_values(|c: usize| c as nat) =~= chunk_counts(sizes@));
    counts
}

pub open spec fn sum_counts(s: Seq<nat>) -> nat
    decreases s.len(),
{
    if s.len() == 0 {
        0
    } else {
        sum_counts(s.drop_last()) + s.last()
    }
}

proof fn lemma_chunking_accounts(sizes: Seq<usize>)
    ensures
        sum_counts(chunking(sizes).0) + chunking(sizes).1 == sizes.len(),
        forall|i: int| 0 <= i < chunking(sizes).0.len() ==> #[trigger] chunking(sizes).0[i] > 0,
    decreases sizes.len(),
{
    if sizes.len() > 0 {
        lemma_chunking_accounts(sizes.drop_last());
        let (closed, count, bytes) = chunking(sizes.drop_last());
        if bytes + sizes.last() >= SEGMENT_MAX_BYTES {
            assert(closed.push(count + 1).drop_last() =~= closed);
            assert forall|i: int| 0 <= i < closed.push(count + 1).len() implies #[trigger] closed.push(count + 1)[i] > 0 by {
                if i < closed.len() {
                    assert(closed.push(count + 1)[i] == closed[i]);
                }
            }
        }
    }
}

/// A rewrite puts every op into exactly one segment, and writes no empty
/// segment.
pub proof fn rewriting_keeps_every_op(sizes: Seq<usize>)
    ensures
        sum_counts(chunk_counts(sizes)) == sizes.len(),
        forall|i: int| 0 <= i < chunk_counts(sizes).len() ==> #[trigger] chunk_counts(sizes)[i] > 0,
{
    lemma_chunking_accounts(sizes);
    let (closed, count, _b) = chunking(sizes);
    if count > 0 {
        assert(closed.push(count).drop_last() =~= closed);
        assert forall|i: int| 0 <= i < closed.push(count).len() implies #[trigger] closed.push(count)[i] > 0 by {
            if i < closed.len() {
                assert(closed.push(count)[i] == closed[i]);
            }
        }
    }
}

proof fn lemma_file_name_append(x: Seq<char>, y: Seq<char>)
    requires
        forall|i: int| 0 <= i < y.len() ==> !is_separator(#[trigger] y[i]),
    ensures
        file_name_of(x + y) == file_name_of(x) + y,
    decreases y.len(),
{
    if y.len() == 0 {
        assert(x + y =~= x);
        assert(file_name_of(x) + y =~= file_name_of(x));
    } else {
        lemma_file_name_append(x, y.drop_last());
        assert((x + y).drop_last() =~= x + y.drop_last());
        assert((x + y).last() == y.last());
        assert(file_name_of(x) + y =~= (file_name_of(x) + y.drop_last()).push(y.last()));
    }
}

proof fn lemma_zeros_value(z: Seq<char>)
    requires
        forall|i: int| 0 <= i < z.len() ==> #[trigger] z[i] == '0',
    ensures
        crate::text::digits_value(z) == 0,
    decreases z.len(),
{
    if z.len() > 0 {
        lemma_zeros_value(z.drop_last());
    }
}

proof fn lemma_leading_zeros_value(z: Seq<char>, d: Seq<char>)
    requires
        forall|i: int| 0 <= i < z.len() ==> #[trigger] z[i] == '0',
    ensures
        crate::text::digits_value(z + d) == crate::text::digits_value(d),
    decreases d.len(),
{
    if d.len() == 0 {
        assert(z + d =~= z);
        lemma_zeros_value(z);
    } else {
        lemma_leading_zeros_value(z, d.drop_last());
        assert((z + d).drop_last() =~= z + d.drop_last());
        assert((z + d).last() == d.last());
    }
}

proof fn lemma_padded_parses(n: u64, width: nat)
    ensures
        spec_parse_u64(zero_padded(n as nat, width)) == Some(n),
        zero_padded(n as nat, width).len() > 0,
        forall|i: int| 0 <= i < zero_padded(n as nat, width).len() ==> crate::text::is_digit(
            #[trigger] zero_padded(n as nat, width)[i],
        ),
{
    let d = crate::text::decimal(n as nat);
    crate::text::lemma_decimal(n as nat);
    let p = zero_padded(n as nat, width);
    if d.len() < width {
        let z = Seq::new((width - d.len()) as nat, |i: int| '0');
        assert(p == z + d);
        lemma_leading_zeros_value(z, d);
        assert forall|i: int| 0 <= i < p.len() implies crate::text::is_digit(#[trigger] p[i]) by {
            if i < z.len() {
                assert(p[i] == '0');
            } else {
                assert(p[i] == d[i - z.len()]);
            }
        }
    }
    assert(crate::text::is_digit(p[0]));
    assert(crate::text::unsigned_body(p) == p);
}

/// A segment's number reads back from the path `segment_path` gives it, so
/// rolling over after a full segment names the one numbered after it.
pub proof fn segment_numbers_read_back(root: Seq<char>, device: Seq<char>, index: u64)
    ensures
        segment_index_of(segment_path_of(root, device, index as nat)) == index,
{
    reveal_strlit("ops-");
    reveal_strlit(".jsonl");
    let padded = zero_padded(index as nat, 6);
    lemma_padded_parses(index, 6);
    let name = segment_name(index as nat);
    let dir = device_dir_of(root, device);
    assert forall|i: int| 0 <= i < name.len() implies !is_separator(#[trigger] name[i]) by {
        if i < 4 {
        } else if i < 4 + padded.len() {
            assert(name[i] == padded[i - 4]);
        } else {
        }
    }
    let path = joined(dir, name);
    if dir.len() == 0 {
        assert(path == name);
        assert(Seq::<char>::empty() + name =~= name);
        lemma_file_name_append(Seq::<char>::empty(), name);
    } else if dir.last() == '/' {
        lemma_file_name_append(dir, name);
        assert(file_name_of(dir) == Seq::<char>::empty());
        assert(Seq::<char>::empty() + name =~= name);
    } else {
        let d2 = dir + seq!['/'];
        assert(path =~= d2 + name);
        lemma_file_name_append(d2, name);
        assert(d2.last() == '/');
        assert(file_name_of(d2) == Seq::<char>::empty());
        assert(Seq::<char>::empty() + name =~= name);
    }
    assert(file_name_of(path) == name);
    let head = "ops-"@ + padded;
    assert(name =~= head + ".jsonl"@);
    // The extension's dot is the last one in the name.
    let n5 = head + seq!['.', 'j', 's', 'o', 'n'];
    let n4 = head + seq!['.', 'j', 's', 'o'];
    let n3 = head + seq!['.', 'j', 's'];
    let n2 = head + seq!['.', 'j'];
    let n1 = head + seq!['.'];
    assert(name.drop_last() =~= n5);
    assert(n5.drop_last() =~= n4);
    assert(n4.drop_last() =~= n3);
    assert(n3.drop_last() =~= n2);
    assert(n2.drop_last() =~= n1);
    assert(name.last() == 'l');
    assert(n5.last() == 'n');
    assert(n4.last() == 'o');
    assert(n3.last() == 's');
    assert(n2.last() == 'j');
    assert(n1.last() == '.');
    assert(last_dot(n1) == Some(head.len() as int));
    assert(last_dot(n2) == last_dot(n1));
    assert(last_dot(n3) == last_dot(n2));
    assert(last_dot(n4) == last_dot(n3));
    assert(last_dot(n5) == last_dot(n4));
    assert(last_dot(name) == last_dot(n5));
    assert(head.len() > 0);
    assert(stem_of(name) =~= head);
    assert(has_prefix(head, "ops-"@)) by {
        assert(head.take(4) =~= "ops-"@);
    }
    assert(head.skip(4) =~= padded);
}

/// A device id as it names a directory: not empty, and without a `/`.
pub open spec fn is_device_id(d: Seq<char>) -> bool {
    d.len() > 0 && !d.contains('/')
}

proof fn lemma_joined_last(base: Seq<char>, part: Seq<char>)
    requires
        part.len() > 0,
    ensures
        joined(base, part).len() > 0,
        joined(base, part).last() == part.last(),
{
}

/// Every file a device writes (named relative to its directory) lies in its
/// own directory, so two different devices never write the same file: each file in the folder has exactly
/// one writer, and the cloud provider never has two versions of one to
/// reconcile.
pub proof fn devices_never_share_a_file(
    root: Seq<char>,
    d1: Seq<char>,
    d2: Seq<char>,
    f1: Seq<char>,
    f2: Seq<char>,
)
    requires
        is_device_id(d1),
        is_device_id(d2),
        d1 != d2,
        !(f1.len() > 0 && f1[0] == '/'),
        !(f2.len() > 0 && f2[0] == '/'),
    ensures
        joined(device_dir_of(root, d1), f1) != joined(device_dir_of(root, d2), f2),
{
    assert(d1[0] != '/') by {
        assert(d1.contains(d1[0]));
    }
    assert(d2[0] != '/') by {
        assert(d2.contains(d2[0]));
    }
    reveal_strlit("devices");
    let x = joined(root, DEVICES_DIR@);
    lemma_joined_last(root, DEVICES_DIR@);
    assert(x.last() == 's');
    let a: int = x.len() as int + 1;
    let p1 = joined(device_dir_of(root, d1), f1);
    let p2 = joined(device_dir_of(root, d2), f2);
    assert(device_dir_of(root, d1) == x + seq!['/'] + d1);
    assert(device_dir_of(root, d2) == x + seq!['/'] + d2);
    lemma_joined_last(x, d1);
    lemma_joined_last(x, d2);
    assert(d1.last() != '/') by {
        assert(d1.contains(d1.last()));
    }
    assert(d2.last() != '/') by {
        assert(d2.contains(d2.last()));
    }
    assert(p1 =~= x + seq!['/'] + d1 + seq!['/'] + f1);
    assert(p2 =~= x + seq!['/'] + d2 + seq!['/'] + f2);
    if p1 == p2 {
        if d1.len() < d2.len() {
            assert(p1[a + d1.len()] == '/');
            assert(p2[a + d1.len()] == d2[d1.len() as int]);
            assert(d2.contains(d2[d1.len() as int]));
        } else if d2.len() < d1.len() {
            assert(p2[a + d2.len()] == '/');
            assert(p1[a + d2.len()] == d1[d2.len() as int]);
            assert(d1.contains(d1[d2.len() as int]));
        } else {
            assert forall|i: int| 0 <= i < d1.len() implies d1[i] == d2[i] by {
                assert(p1[a + i] == d1[i]);
                assert(p2[a + i] == d2[i]);
            }
            assert(d1 =~= d2);
        }
    }
}

proof fn lemma_seq_lt_at(a: Seq<char>, b: Seq<char>, k: int)
    requires
        0 <= k < a.len(),
        k < b.len(),
        forall|i: int| 0 <= i < k ==> a[i] == b[i],
        a[k] < b[k],
    ensures
        seq_lt(a, b),
    decreases k,
{
    if k > 0 {
        assert(a[0] == b[0]);
        lemma_seq_lt_at(a.drop_first(), b.drop_first(), k - 1);
    }
}

proof fn lemma_decimal_step(n: nat)
    requires
        n >= 10,
    ensures
        crate::text::decimal(n).len() == crate::text::decimal(n / 10).len() + 1,
        crate::text::decimal(n)[0] == crate::text::decimal(n / 10)[0],
{
    crate::text::lemma_decimal(n / 10);
}

proof fn lemma_decimal_below_100000(n: nat)
    requires
        n < 100000,
    ensures
        crate::text::decimal(n).len() <= 5,
{
    if n >= 10 {
        lemma_decimal_step(n);
        if n / 10 >= 10 {
            lemma_decimal_step(n / 10);
            if n / 100 >= 10 {
                lemma_decimal_step(n / 100);
                if n / 1000 >= 10 {
                    lemma_decimal_step(n / 1000);
                    assert(n / 10000 < 10);
                }
            }
        }
    }
}

/// The first segment of a rewritten log sorts after every segment numbered
/// below 100000, so readers that take segments in name order see the
/// rewritten log after the segments it replaces.
pub proof fn rewritten_segments_sort_after_earlier_ones(index: u64)
    requires
        index < 100000,
    ensures
        seq_lt(segment_name(index as nat), segment_name(REWRITE_FIRST_INDEX as nat)),
{
    reveal_strlit("ops-");
    let d = crate::text::decimal(index as nat);
    lemma_decimal_below_100000(index as nat);
    let a = segment_name(index as nat);
    let pa = zero_padded(index as nat, 6);
    assert(pa[0] == '0');
    assert(a[4] == pa[0]);
    let big: nat = 1000000;
    lemma_decimal_step(big);
    lemma_decimal_step(100000);
    lemma_decimal_step(10000);
    lemma_decimal_step(1000);
    lemma_decimal_step(100);
    lemma_decimal_step(10);
    let db = crate::text::decimal(big);
    assert(db.len() == 7);
    assert(db[0] == crate::text::decimal(1)[0]);
    assert(crate::text::digit_val(db[0]) == 1) by {
        crate::text::lemma_decimal(1);
    }
    let b = segment_name(big);
    assert(zero_padded(big, 6) == db);
    assert(b[4] == db[0]);
    assert forall|i: int| 0 <= i < 4 implies a[i] == b[i] by {
        assert(a[i] == "ops-"@[i]);
        assert(b[i] == "ops-"@[i]);
    }
    assert(a[4] < b[4]);
    lemma_seq_lt_at(a, b, 4);
}

proof fn lemma_chunking_len(sizes: Seq<usize>)
    ensures
        chunking(sizes).0.len() + chunking(sizes).1 <= sizes.len(),
        chunk_counts(sizes).len() <= sizes.len(),
    decreases sizes.len(),
{
    if sizes.len() > 0 {
        lemma_chunking_len(sizes.drop_last());
    }
}

/// The highest segment number among `paths`, 0 when there are none.
pub open spec fn max_segment_index(paths: Seq<Seq<char>>) -> nat
    decreases paths.len(),
{
    if paths.len() == 0 {
        0
    } else {
        let rest = max_segment_index(paths.drop_last());
        let n = segment_index_of(paths.last()) as nat;
        if n > rest {
            n
        } else {
            rest
        }
    }
}

proof fn lemma_max_segment_index(paths: Seq<Seq<char>>)
    ensures
        forall|i: int| 0 <= i < paths.len() ==> segment_index_of(#[trigger] paths[i]) <= max_segment_index(paths),
    decreases paths.len(),
{
    if paths.len() > 0 {
        lemma_max_segment_index(paths.drop_last());
        assert forall|i: int| 0 <= i < paths.len() implies segment_index_of(#[trigger] paths[i]) <= max_segment_index(
            paths,
        ) by {
            if i < paths.len() - 1 {
                assert(paths[i] == paths.drop_last()[i]);
            }
        }
    }
}

/// The number the first segment of a rewritten log gets: `REWRITE_FIRST_INDEX`,
/// or one past the highest number already in use if that is not below it.
pub open spec fn rewrite_first_index(old: Seq<Seq<char>>) -> nat {
    if max_segment_index(old) + 1 > REWRITE_FIRST_INDEX {
        max_segment_index(old) + 1
    } else {
        REWRITE_FIRST_INDEX as nat
    }
}

/// How a device's log is replaced by `sizes.len()` ops of the given encoded
/// sizes: the segments to write, each with the number of ops that go into it
/// (the ops in log order, split as `chunk_plan` splits them), numbered on
/// from `rewrite_first_index(old)`; and the segments to remove afterwards,
/// which are exactly the old ones. Each new segment is numbered above every
/// old one, so none of them is an old segment: removing the old set never
/// removes what was just written, and a reader sees the old log, both, or
/// the new one, never a gap.
pub fn rewrite_plan(folder: &SyncFolder, device: &str, old: &Vec<String>, sizes: &Vec<usize>) -> (r: (
    Vec<(String, usize)>,
    Vec<String>,
))
    requires
        forall|i: int| 0 <= i < sizes.len() ==> #[trigger] sizes@[i] <= usize::MAX - SEGMENT_MAX_BYTES,
        rewrite_first_index(texts_view(old@)) + sizes.len() <= u64::MAX,
    ensures
        r.0@.map_values(|w: (String, usize)| w.1 as nat) == chunk_counts(sizes@),
        forall|k: int| 0 <= k < r.0.len() ==> #[trigger] r.0@[k].0@ == segment_path_of(
            folder@,
            device@,
            (rewrite_first_index(texts_view(old@)) + k) as nat,
        ),
        forall|k: int, i: int| 0 <= k < r.0.len() && 0 <= i < old.len() ==> #[trigger] r.0@[k].0@ != #[trigger] old@[i]@,
        texts_view(r.1@) == texts_view(old@),
{
    let ghost ov = texts_view(old@);
    let mut top: u64 = 0;
    let mut i: usize = 0;
    while i < old.len()
        invariant
            i <= old.len(),
            ov == texts_view(old@),
            top as nat == max_segment_index(ov.take(i as int)),
        decreases old.len() - i,
    {
        assert(ov.take(i + 1).drop_last() =~= ov.take(i as int));
        assert(ov.take(i + 1).last() == old@[i as int]@);
        let n = segment_index(old[i].as_str());
        if n > top {
            top = n;
        }
        i = i + 1;
    }
    assert(ov.take(old.len() as int) =~= ov);
    proof {
        lemma_max_segment_index(ov);
        lemma_chunking_len(sizes@);
    }
    let first: u64 = if top >= REWRITE_FIRST_INDEX {
        top + 1
    } else {
        REWRITE_FIRST_INDEX
    };
    assert(first as nat == rewrite_first_index(ov));
    let counts = chunk_plan(sizes);
    assert(counts@.map_values(|c: usize| c as nat).len() == counts.len());
    let mut written: Vec<(String, usize)> = Vec::new();
    let mut k: usize = 0;
    while k < counts.len()
        invariant
            k <= counts.len(),
            counts.len() <= sizes.len(),
            first as nat == rewrite_first_index(ov),
            first + sizes.len() <= u64::MAX,
            ov == texts_view(old@),
            forall|j: int| 0 <= j < old.len() ==> segment_index_of(#[trigger] ov[j]) < first,
            written.len() == k,
            forall|q: int| 0 <= q < k ==> #[trigger] written@[q].1 == counts@[q],
            forall|q: int| 0 <= q < k ==> #[trigger] written@[q].0@ == segment_path_of(
                folder@,
                device@,
                (first + q) as nat,
            ),
        decreases counts.len() - k,
    {
        let path = folder.segment_path(device, first + k as u64);
        written.push((path, counts[k]));
        k = k + 1;
    }
    proof {
        assert(written@.map_values(|w: (String, usize)| w.1 as nat) =~= counts@.map_values(|c: usize| c as nat));
        assert forall|q: int, j: int| 0 <= q < written.len() && 0 <= j < old.len() implies #[trigger] written@[q].0@
            != #[trigger] old@[j]@ by {
            segment_numbers_read_back(folder@, device@, (first + q) as u64);
            assert(ov[j] == old@[j]@);
        }
    }
    let mut removed: Vec<String> = Vec::new();
    let mut j: usize = 0;
    while j < old.len()
        invariant
            j <= old.len(),
            texts_view(removed@) == texts_view(old@).take(j as int),
        decreases old.len() - j,
    {
        let ghost before = removed@;
        let copy = owned(old[j].as_str());
        removed.push(copy);
        assert(removed@ == before.push(copy));
        assert(texts_view(removed@) =~= texts_view(before).push(old@[j as int]@));
        assert(texts_view(old@).take(j + 1) =~= texts_view(old@).take(j as int).push(old@[j as int]@));
        j = j + 1;
    }
    assert(texts_view(old@).take(old.len() as int) =~= texts_view(old@));
    (written, removed)
}

/// New ops go where the newest segment can still take them. Given a
/// device's segments oldest first (each path once, numbered in increasing
/// order), the
/// segment chosen for appends is the newest one while it is below the size
/// limit, and otherwise the one numbered after it. It is never a segment
/// that is already full, and its number is at least that of every existing
/// segment.
pub proof fn appends_go_to_a_segment_with_room(root: Seq<char>, device: Seq<char>, segments: Seq<SegmentView>)
    requires
        forall|i: int, j: int|
            0 <= i < j < segments.len() ==> segment_index_of(#[trigger] segments[i].path) <= segment_index_of(
                #[trigger] segments[j].path,
            ),
        forall|i: int, j: int|
            0 <= i < j < segments.len() ==> (#[trigger] segments[i]).path != (#[trigger] segments[j]).path,
        segments.len() > 0 ==> segment_index_of(segments.last().path) < u64::MAX,
    ensures
        segments.len() > 0 && segments.last().size < SEGMENT_MAX_BYTES ==> current_segment_of(root, device, segments)
            == segments.last().path,
        segments.len() > 0 && segments.last().size >= SEGMENT_MAX_BYTES ==> segment_index_of(
            current_segment_of(root, device, segments),
        ) == segment_index_of(segments.last().path) + 1,
        forall|i: int|
            0 <= i < segments.len() && (#[trigger] segments[i]).size >= SEGMENT_MAX_BYTES ==> current_segment_of(
                root,
                device,
                segments,
            ) != segments[i].path,
        forall|i: int|
            0 <= i < segments.len() ==> segment_index_of(#[trigger] segments[i].path) <= segment_index_of(
                current_segment_of(root, device, segments),
            ),
{
    let r = current_segment_of(root, device, segments);
    if segments.len() > 0 {
        let n = segments.len() - 1;
        let last = segments[n as int];
        assert(segments.last() == last);
        assert forall|i: int| 0 <= i < segments.len() implies segment_index_of(#[trigger] segments[i].path)
            <= segment_index_of(last.path) by {
            if i < n {
                assert(segment_index_of(segments[i].path) <= segment_index_of(segments[n as int].path));
            }
        }
        if last.size >= SEGMENT_MAX_BYTES {
            segment_numbers_read_back(root, device, (segment_index_of(last.path) + 1) as u64);
            assert forall|i: int|
                0 <= i < segments.len() && (#[trigger] segments[i]).size >= SEGMENT_MAX_BYTES implies r
                != segments[i].path by {
                assert(segment_index_of(segments[i].path) <= segment_index_of(last.path));
            }
        } else {
            assert forall|i: int|
                0 <= i < segments.len() && (#[trigger] segments[i]).size >= SEGMENT_MAX_BYTES implies r
                != segments[i].path by {
                if r == segments[i].path && i < n {
                    assert(segments[i].path != segments[n as int].path);
                }
            }
        }
    }
}

/// The total encoded size of a run of ops.
pub open spec fn total_size(s: Seq<usize>) -> nat
    decreases s.len(),
{
    if s.len() == 0 {
        0
    } else {
        total_size(s.drop_last()) + s.last() as nat
    }
}

proof fn lemma_sum_counts_prefix(c: Seq<nat>, k: int)
    requires
        0 <= k < c.len(),
    ensures
        sum_counts(c.take(k + 1)) == sum_counts(c.take(k)) + c[k],
        sum_counts(c.take(k + 1)) <= sum_counts(c),
    decreases c.len(),
{
    assert(c.take(k + 1).drop_last() =~= c.take(k));
    if k + 1 < c.len() {
        lemma_sum_counts_prefix(c.drop_last(), k);
        assert(c.drop_last().take(k + 1) =~= c.take(k + 1));
        assert(c.drop_last().take(k) =~= c.take(k));
    } else {
        assert(c.take(k + 1) =~= c);
    }
}

/// Where chunk `k` of `c` starts: the ops in the chunks before it.
pub open spec fn chunk_start(c: Seq<nat>, k: int) -> nat {
    sum_counts(c.take(k))
}

#[verifier::spinoff_prover]
#[verifier::rlimit(60)]
proof fn lemma_chunking_greedy(s: Seq<usize>)
    ensures
        ({
            let (closed, count, bytes) = chunking(s);
            &&& sum_counts(closed) + count == s.len()
            &&& bytes == total_size(s.subrange(s.len() - count, s.len() as int))
            &&& bytes < SEGMENT_MAX_BYTES
            &&& forall|k: int|
                0 <= k < closed.len() ==> {
                    let st = chunk_start(closed, k);
                    let en = st + #[trigger] closed[k];
                    &&& closed[k] > 0
                    &&& en <= s.len()
                    &&& total_size(s.subrange(st as int, en - 1)) < SEGMENT_MAX_BYTES
                    &&& total_size(s.subrange(st as int, en as int)) >= SEGMENT_MAX_BYTES
                }
        }),
    decreases s.len(),
{
    lemma_chunking_accounts(s);
    if s.len() == 0 {
        assert(s.subrange(0, 0) =~= Seq::<usize>::empty());
    } else {
        let prev = s.drop_last();
        let m = prev.len() as int;
        let n = s.len() as int;
        lemma_chunking_greedy(prev);
        lemma_chunking_accounts(prev);
        let (c0, cnt0, b0) = chunking(prev);
        let st0 = m - cnt0;
        assert(s.subrange(st0, n).drop_last() =~= prev.subrange(st0, m));
        assert(s.subrange(st0, n).last() == s.last());
        assert(total_size(s.subrange(st0, n)) == b0 + s.last());
        assert forall|a: int, b: int| 0 <= a <= b <= m implies #[trigger] s.subrange(a, b) == prev.subrange(a, b) by {
            assert(s.subrange(a, b) =~= prev.subrange(a, b));
        }
        let (closed, count, bytes) = chunking(s);
        if b0 + s.last() >= SEGMENT_MAX_BYTES {
            assert(closed == c0.push(cnt0 + 1));
            assert(s.subrange(n, n) =~= Seq::<usize>::empty());
            assert forall|k: int| 0 <= k < closed.len() implies {
                let st = chunk_start(closed, k);
                let en = st + #[trigger] closed[k];
                &&& closed[k] > 0
                &&& en <= s.len()
                &&& total_size(s.subrange(st as int, en - 1)) < SEGMENT_MAX_BYTES
                &&& total_size(s.subrange(st as int, en as int)) >= SEGMENT_MAX_BYTES
            } by {
                assert(closed.take(k) =~= c0.take(k));
                if k < c0.len() {
                    assert(closed[k] == c0[k]);
                    lemma_sum_counts_prefix(c0, k);
                    let st = chunk_start(c0, k);
                    let en = st + c0[k];
                    assert(s.subrange(st as int, en - 1) == prev.subrange(st as int, en - 1));
                    assert(s.subrange(st as int, en as int) == prev.subrange(st as int, en as int));
                } else {
                    assert(closed.take(k) =~= c0);
                    assert(s.subrange(st0, n - 1) == prev.subrange(st0, m));
                }
            }
        } else {
            assert(closed == c0);
            assert forall|k: int| 0 <= k < closed.len() implies {
                let st = chunk_start(closed, k);
                let en = st + #[trigger] closed[k];
                &&& closed[k] > 0
                &&& en <= s.len()
                &&& total_size(s.subrange(st as int, en - 1)) < SEGMENT_MAX_BYTES
                &&& total_size(s.subrange(st as int, en as int)) >= SEGMENT_MAX_BYTES
            } by {
                lemma_sum_counts_prefix(c0, k);
                let st = chunk_start(c0, k);
                let en = st + c0[k];
                assert(s.subrange(st as int, en - 1) == prev.subrange(st as int, en - 1));
                assert(s.subrange(st as int, en as int) == prev.subrange(st as int, en as int));
            }
        }
    }
}

/// A rewrite fills each segment in log order until it reaches the size
/// limit, then starts the next one from nothing: every op lands in exactly
/// one segment, no segment is empty, and every segment but the last is
/// minimal, its ops reaching the limit while all but its last op stay below
/// it; the last segment's ops before its last one stay below the limit too.
pub proof fn rewritten_segments_are_filled_in_order(sizes: Seq<usize>)
    ensures
        sum_counts(chunk_counts(sizes)) == sizes.len(),
        forall|k: int|
            #![trigger chunk_counts(sizes)[k]]
            0 <= k < chunk_counts(sizes).len() ==> {
                &&& chunk_counts(sizes)[k] > 0
                &&& chunk_start(chunk_counts(sizes), k) + chunk_counts(sizes)[k] <= sizes.len()
                &&& total_size(
                    sizes.subrange(
                        chunk_start(chunk_counts(sizes), k) as int,
                        chunk_start(chunk_counts(sizes), k) + chunk_counts(sizes)[k] - 1,
                    ),
                ) < SEGMENT_MAX_BYTES
                &&& k + 1 < chunk_counts(sizes).len() ==> total_size(
                    sizes.subrange(
                        chunk_start(chunk_counts(sizes), k) as int,
                        (chunk_start(chunk_counts(sizes), k) + chunk_counts(sizes)[k]) as int,
                    ),
                ) >= SEGMENT_MAX_BYTES
            },
{
    rewriting_keeps_every_op(sizes);
    lemma_chunking_greedy(sizes);
    let (closed, count, bytes) = chunking(sizes);
    let c = chunk_counts(sizes);
    let n = sizes.len() as int;
    assert forall|k: int|
        #![trigger c[k]]
        0 <= k < c.len() implies {
        &&& c[k] > 0
        &&& chunk_start(c, k) + c[k] <= sizes.len()
        &&& total_size(sizes.subrange(chunk_start(c, k) as int, chunk_start(c, k) + c[k] - 1)) < SEGMENT_MAX_BYTES
        &&& k + 1 < c.len() ==> total_size(sizes.subrange(chunk_start(c, k) as int, (chunk_start(c, k) + c[k]) as int))
            >= SEGMENT_MAX_BYTES
    } by {
        if k < closed.len() {
            if count > 0 {
                assert(c == closed.push(count));
                assert(c.take(k) =~= closed.take(k));
                assert(c[k] == closed[k]);
            }
        } else {
            assert(count > 0 && c == closed.push(count) && k == closed.len());
            assert(c.take(k) =~= closed);
            let st = sum_counts(closed) as int;
            assert(st + count == n);
            assert(sizes.subrange(st, n - 1) =~= sizes.subrange(st, n).drop_last());
            assert(total_size(sizes.subrange(st, n - 1)) <= total_size(sizes.subrange(st, n)));
        }
    }
}

} // verus!
