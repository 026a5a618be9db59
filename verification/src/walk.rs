//! The tree walker: recursive traversal of an in-memory directory tree,
//! classifying each regular file and merging subdirectory results bottom-up.

use vstd::prelude::*;
use crate::loc::{
    content_tally, count_line_kinds, ext_spec, extension_of, lemma_lines_le, lemma_tally_sum,
    lines_of, LocData,
};
use crate::report::{
    add_counts, lemma_merge_bump, lemma_merge_empty, merge_maps, sum_blank, sum_code, sum_comment,
    sum_files, CatCounts, Report,
};

verus! {

/// A directory tree as the walker sees it: every regular file with its name,
/// its executable bit and its decoded content (`None` when the file could
/// not be read as text), and every directory with its entries (`readable`
/// false when listing the directory failed).
pub enum FsEntry {
    File { name: String, executable: bool, content: Option<String> },
    Dir { readable: bool, entries: Vec<FsEntry> },
}

/// The view of an optional file content.
pub open spec fn opt_view(c: Option<String>) -> Option<Seq<char>> {
    match c {
        Option::Some(s) => Option::Some(s@),
        Option::None => Option::None,
    }
}

/// The views of a list of strings, such as the ignore list.
pub open spec fn str_seq(v: Seq<String>) -> Seq<Seq<char>> {
    Seq::new(v.len(), |i: int| v[i]@)
}

/// What one regular file contributes to the aggregation: nothing when its
/// extension is ignored or its content could not be decoded, else one file
/// and its line tally under its category key.
pub open spec fn file_map(
    name: Seq<char>,
    content: Option<Seq<char>>,
    ignore: Seq<Seq<char>>,
) -> Map<Seq<char>, CatCounts> {
    if ignore.contains(ext_spec(name)) {
        Map::empty()
    } else {
        match content {
            Option::None => Map::empty(),
            Option::Some(text) => Map::empty().insert(
                ext_spec(name),
                CatCounts {
                    files: 1,
                    blank: content_tally(text).blank,
                    comment: content_tally(text).comment,
                    code: content_tally(text).code,
                },
            ),
        }
    }
}

/// A file whose extension stands in the ignore list contributes zero to
/// every category, whatever its content: it cannot appear in any report.
pub proof fn lemma_ignored_file(name: Seq<char>, content: Option<Seq<char>>, ig: Seq<Seq<char>>)
    requires
        ig.contains(ext_spec(name)),
    ensures
        file_map(name, content, ig) == Map::<Seq<char>, CatCounts>::empty(),
{
}

/// The aggregation of a whole subtree: an executable file is skipped, an
/// unreadable directory contributes nothing, and a directory merges the
/// results of its entries in order.
pub open spec fn scan_spec(t: FsEntry, ignore: Seq<Seq<char>>) -> Map<Seq<char>, CatCounts>
    decreases t,
{
    match t {
        FsEntry::File { name, executable, content } => {
            if executable {
                Map::empty()
            } else {
                file_map(name@, opt_view(content), ignore)
            }
        },
        FsEntry::Dir { readable, entries } => {
            if readable {
                scan_seq(entries@, ignore)
            } else {
                Map::empty()
            }
        },
    }
}

/// Folding the results of a list of entries together, left to right.
pub open spec fn scan_seq(s: Seq<FsEntry>, ignore: Seq<Seq<char>>) -> Map<Seq<char>, CatCounts>
    decreases s,
{
    if s.len() == 0 {
        Map::empty()
    } else {
        merge_maps(scan_seq(s.drop_last(), ignore), scan_spec(s.last(), ignore))
    }
}

/// All counts of a mapping fit the machine counters.
pub open spec fn counts_fit(m: Map<Seq<char>, CatCounts>) -> bool {
    forall|k: Seq<char>|
        m.contains_key(k) ==> {
            let c = #[trigger] m[k];
            c.files <= u32::MAX && c.blank <= u32::MAX && c.comment <= u32::MAX && c.code
                <= u32::MAX
        }
}

/// All counts of a mapping are non-negative.
pub open spec fn map_nonneg(m: Map<Seq<char>, CatCounts>) -> bool {
    forall|k: Seq<char>|
        m.contains_key(k) ==> {
            let c = #[trigger] m[k];
            c.files >= 0 && c.blank >= 0 && c.comment >= 0 && c.code >= 0
        }
}

/// What the machine counters ask of a tree before it is scanned: every
/// classified file fits a `u32` line counter, and the merged counts of every
/// readable directory fit the `u32` fields of a record.
pub open spec fn scan_fits(t: FsEntry, ignore: Seq<Seq<char>>) -> bool
    decreases t,
{
    match t {
        FsEntry::File { name, executable, content } => {
            match content {
                Option::Some(text) => (!executable && !ignore.contains(ext_spec(name@)))
                    ==> text@.len() <= u32::MAX,
                Option::None => true,
            }
        },
        FsEntry::Dir { readable, entries } => {
            readable ==> {
                &&& seq_fits(entries@, ignore)
                &&& counts_fit(scan_seq(entries@, ignore))
            }
        },
    }
}

/// Every entry of the list meets `scan_fits`.
pub open spec fn seq_fits(s: Seq<FsEntry>, ignore: Seq<Seq<char>>) -> bool
    decreases s,
{
    if s.len() == 0 {
        true
    } else {
        seq_fits(s.drop_last(), ignore) && scan_fits(s.last(), ignore)
    }
}

proof fn lemma_seq_fits_index(s: Seq<FsEntry>, ig: Seq<Seq<char>>, i: int)
    requires
        seq_fits(s, ig),
        0 <= i < s.len(),
    ensures
        scan_fits(s[i], ig),
    decreases s.len(),
{
    if i < s.len() - 1 {
        lemma_seq_fits_index(s.drop_last(), ig, i);
    }
}

proof fn lemma_file_map_nonneg(name: Seq<char>, content: Option<Seq<char>>, ig: Seq<Seq<char>>)
    ensures
        map_nonneg(file_map(name, content, ig)),
{
    if !ig.contains(ext_spec(name)) {
        match content {
            Option::Some(text) => {
                lemma_tally_sum(lines_of(text));
            },
            Option::None => {},
        }
    }
}

proof fn lemma_merge_nonneg(a: Map<Seq<char>, CatCounts>, b: Map<Seq<char>, CatCounts>)
    requires
        map_nonneg(a),
        map_nonneg(b),
    ensures
        map_nonneg(merge_maps(a, b)),
{
}

proof fn lemma_scan_nonneg(t: FsEntry, ig: Seq<Seq<char>>)
    ensures
        map_nonneg(scan_spec(t, ig)),
    decreases t,
{
    match t {
        FsEntry::File { name, executable, content } => {
            lemma_file_map_nonneg(name@, opt_view(content), ig);
        },
        FsEntry::Dir { readable, entries } => {
            if readable {
                lemma_scan_seq_nonneg(entries@, ig);
            }
        },
    }
}

proof fn lemma_scan_seq_nonneg(s: Seq<FsEntry>, ig: Seq<Seq<char>>)
    ensures
        map_nonneg(scan_seq(s, ig)),
    decreases s,
{
    if s.len() > 0 {
        lemma_scan_seq_nonneg(s.drop_last(), ig);
        lemma_scan_nonneg(s.last(), ig);
        lemma_merge_nonneg(scan_seq(s.drop_last(), ig), scan_spec(s.last(), ig));
    }
}

/// Component-wise dominance between two mappings.
pub open spec fn map_le(a: Map<Seq<char>, CatCounts>, b: Map<Seq<char>, CatCounts>) -> bool {
    forall|k: Seq<char>|
        #[trigger] a.contains_key(k) ==> b.contains_key(k) && a[k].files <= b[k].files
            && a[k].blank <= b[k].blank && a[k].comment <= b[k].comment && a[k].code <= b[k].code
}

/// Scanning a prefix of the entries never exceeds scanning them all.
proof fn lemma_scan_seq_prefix(s: Seq<FsEntry>, ig: Seq<Seq<char>>, i: int)
    requires
        0 <= i <= s.len(),
    ensures
        map_le(scan_seq(s.take(i), ig), scan_seq(s, ig)),
    decreases s.len() - i,
{
    if i == s.len() {
        assert(s.take(i) == s);
    } else {
        lemma_scan_seq_prefix(s, ig, i + 1);
        assert(s.take(i + 1).drop_last() =~= s.take(i));
        assert(s.take(i + 1).last() == s[i]);
        lemma_scan_nonneg(s[i], ig);
        assert(map_le(scan_seq(s.take(i), ig), scan_seq(s.take(i + 1), ig)));
    }
}

/// Tests whether the ignore list holds this extension.
fn contains_string(v: &Vec<String>, s: &String) -> (r: bool)
    ensures
        r == str_seq(v@).contains(s@),
{
    let n = v.len();
    let mut i: usize = 0;
    while i < n
        invariant
            0 <= i <= n,
            n == v@.len(),
            forall|j: int| 0 <= j < i ==> v@[j]@ != s@,
        decreases n - i,
    {
        if v[i] == *s {
            assert(str_seq(v@)[i as int] == s@);
            return true;
        }
        i += 1;
    }
    assert forall|j: int| 0 <= j < str_seq(v@).len() implies str_seq(v@)[j] != s@ by {
        assert(v@[j]@ != s@);
    }
    false
}

/// Classifies one regular file and folds its counts into the aggregation.
/// A file whose extension is ignored, or whose content could not be decoded,
/// leaves the aggregation unchanged and reports `false`.
#[verifier::loop_isolation(false)]
pub fn process_file(
    name: &str,
    content: Option<&String>,
    map: &mut Report,
    ignore: &Vec<String>,
) -> (ok: bool)
    requires
        old(map).wf(),
        ({
            let fm = file_map(
                name@,
                match content {
                    Option::Some(text) => Option::Some(text@),
                    Option::None => Option::None,
                },
                str_seq(ignore@),
            );
            &&& (fm.contains_key(ext_spec(name@)) ==> match content {
                Option::Some(text) => text@.len() <= u32::MAX,
                Option::None => true,
            })
            &&& (fm.contains_key(ext_spec(name@)) && old(map).as_map().contains_key(
                ext_spec(name@),
            ) ==> {
                let prev = old(map).as_map()[ext_spec(name@)];
                let c = fm[ext_spec(name@)];
                &&& prev.files + c.files <= u32::MAX
                &&& prev.blank + c.blank <= u32::MAX
                &&& prev.comment + c.comment <= u32::MAX
                &&& prev.code + c.code <= u32::MAX
            })
        }),
    ensures
        final(map).wf(),
        final(map).as_map() == merge_maps(
            old(map).as_map(),
            file_map(
                name@,
                match content {
                    Option::Some(text) => Option::Some(text@),
                    Option::None => Option::None,
                },
                str_seq(ignore@),
            ),
        ),
        ok == (!str_seq(ignore@).contains(ext_spec(name@)) && content is Some),
{
    let ext = extension_of(name);
    proof {
        lemma_merge_empty(old(map).as_map());
    }
    if contains_string(ignore, &ext) {
        return false;
    }
    match content {
        Option::None => false,
        Option::Some(text) => {
            let c = count_line_kinds(text.as_str());
            proof {
                let k = ext_spec(name@);
                let cc = CatCounts {
                    files: 1,
                    blank: content_tally(text@).blank,
                    comment: content_tally(text@).comment,
                    code: content_tally(text@).code,
                };
                lemma_merge_bump(old(map).as_map(), Map::empty(), k, cc);
                lemma_tally_sum(lines_of(text@));
                lemma_lines_le(text@);
            }
            map.add_file(ext, c.blank, c.comment, c.code);
            true
        },
    }
}

/// Walks the subtree rooted at `t` and returns the merged aggregation for
/// it, as the original traversal does: files of readable directories are
/// classified in order, subdirectory results are merged in bottom-up, and
/// executable files, ignored extensions, undecodable files and unreadable
/// directories contribute nothing.
#[verifier::loop_isolation(false)]
pub fn scan_dir_recursive(t: &FsEntry, ignore: &Vec<String>) -> (r: Report)
    requires
        scan_fits(*t, str_seq(ignore@)),
    ensures
        r.wf(),
        r.as_map() == scan_spec(*t, str_seq(ignore@)),
    decreases *t,
{
    let ghost ig = str_seq(ignore@);
    match t {
        FsEntry::File { name, executable, content } => {
            let mut data = Report::new();
            if !*executable {
                let _attributed = match content {
                    Option::Some(text) => process_file(name.as_str(), Some(text), &mut data, ignore),
                    Option::None => process_file(name.as_str(), None, &mut data, ignore),
                };
                proof {
                    lemma_merge_empty(file_map(name@, opt_view(*content), ig));
                }
            }
            data
        },
        FsEntry::Dir { readable, entries } => {
            let mut data = Report::new();
            if *readable {
                let n = entries.len();
                let mut i: usize = 0;
                proof {
                    assert(entries@.take(0) =~= Seq::<FsEntry>::empty());
                }
                while i < n
                    invariant
                        0 <= i <= n,
                        n == entries@.len(),
                        data.wf(),
                        data.as_map() == scan_seq(entries@.take(i as int), ig),
                    decreases n - i,
                {
                    proof {
                        assert(scan_fits(*t, ig));
                        lemma_seq_fits_index(entries@, ig, i as int);
                    }
                    let child = scan_dir_recursive(&entries[i], ignore);
                    proof {
                        assert(entries@.take(i as int + 1).drop_last() =~= entries@.take(i as int));
                        assert(entries@.take(i as int + 1).last() == entries@[i as int]);
                        lemma_scan_seq_prefix(entries@, ig, i as int + 1);
                        lemma_scan_seq_nonneg(entries@, ig);
                        assert forall|k: Seq<char>|
                            data.as_map().contains_key(k) && child.as_map().contains_key(k)
                        implies {
                            let a = data.as_map()[k];
                            let b = child.as_map()[k];
                            a.files + b.files <= u32::MAX && a.blank + b.blank <= u32::MAX
                                && a.comment + b.comment <= u32::MAX && a.code + b.code
                                <= u32::MAX
                        } by {
                            let m1 = scan_seq(entries@.take(i as int + 1), ig);
                            assert(m1.contains_key(k));
                            assert(m1[k] == add_counts(data.as_map()[k], child.as_map()[k]));
                            assert(scan_seq(entries@, ig).contains_key(k));
                        }
                    }
                    data.merge(&child);
                    i += 1;
                }
                proof {
                    assert(entries@.take(n as int) == entries@);
                }
            }
            data
        },
    }
}

/// Scanning a concatenation of entry lists merges the scans of the parts.
pub proof fn lemma_scan_seq_concat(a: Seq<FsEntry>, b: Seq<FsEntry>, ig: Seq<Seq<char>>)
    ensures
        scan_seq(a + b, ig) == merge_maps(scan_seq(a, ig), scan_seq(b, ig)),
    decreases b.len(),
{
    if b.len() == 0 {
        assert(a + b =~= a);
        lemma_merge_empty(scan_seq(a, ig));
    } else {
        lemma_scan_seq_concat(a, b.drop_last(), ig);
        assert((a + b).drop_last() =~= a + b.drop_last());
        assert((a + b).last() == b.last());
        crate::report::lemma_merge_associative(
            scan_seq(a, ig),
            scan_seq(b.drop_last(), ig),
            scan_spec(b.last(), ig),
        );
    }
}

/// The order in which entries are visited does not affect the result:
/// scanning two groups of entries in either order merges to the same
/// mapping.
pub proof fn lemma_scan_order_independent(a: Seq<FsEntry>, b: Seq<FsEntry>, ig: Seq<Seq<char>>)
    ensures
        scan_seq(a + b, ig) == scan_seq(b + a, ig),
{
    lemma_scan_seq_concat(a, b, ig);
    lemma_scan_seq_concat(b, a, ig);
    crate::report::lemma_merge_commutative(scan_seq(a, ig), scan_seq(b, ig));
}

/// The regular files of a subtree, in traversal order: what a flat scan
/// would classify.  Files under an unreadable directory do not appear.
pub open spec fn leaves(t: FsEntry) -> Seq<FsEntry>
    decreases t,
{
    match t {
        FsEntry::File { .. } => seq![t],
        FsEntry::Dir { readable, entries } => {
            if readable {
                leaves_seq(entries@)
            } else {
                Seq::empty()
            }
        },
    }
}

pub open spec fn leaves_seq(s: Seq<FsEntry>) -> Seq<FsEntry>
    decreases s,
{
    if s.len() == 0 {
        Seq::empty()
    } else {
        leaves_seq(s.drop_last()) + leaves(s.last())
    }
}

/// Merging subtree results bottom-up equals classifying all leaf files
/// directly into one flat aggregation: the tree structure of the walk does
/// not show in the result.
pub proof fn lemma_scan_flat(t: FsEntry, ig: Seq<Seq<char>>)
    ensures
        scan_spec(t, ig) == scan_seq(leaves(t), ig),
    decreases t,
{
    match t {
        FsEntry::File { .. } => {
            let l = leaves(t);
            assert(l == seq![t]);
            assert(l.drop_last() =~= Seq::<FsEntry>::empty());
            assert(l.last() == t);
            assert(scan_seq(l.drop_last(), ig) == Map::<Seq<char>, CatCounts>::empty());
            assert(scan_seq(l, ig) == merge_maps(
                Map::<Seq<char>, CatCounts>::empty(),
                scan_spec(t, ig),
            ));
            lemma_merge_empty(scan_spec(t, ig));
        },
        FsEntry::Dir { readable, entries } => {
            if readable {
                lemma_scan_seq_flat(entries@, ig);
            }
        },
    }
}

pub proof fn lemma_scan_seq_flat(s: Seq<FsEntry>, ig: Seq<Seq<char>>)
    ensures
        scan_seq(s, ig) == scan_seq(leaves_seq(s), ig),
    decreases s,
{
    if s.len() > 0 {
        lemma_scan_seq_flat(s.drop_last(), ig);
        lemma_scan_flat(s.last(), ig);
        lemma_scan_seq_concat(leaves_seq(s.drop_last()), leaves(s.last()), ig);
    }
}

/// The category a file is attributed to, if any: `None` for an executable
/// file, an ignored extension, an undecodable content, or a directory.
pub open spec fn file_key(t: FsEntry, ig: Seq<Seq<char>>) -> Option<Seq<char>> {
    match t {
        FsEntry::File { name, executable, content } => {
            if !executable && !ig.contains(ext_spec(name@)) && content is Some {
                Option::Some(ext_spec(name@))
            } else {
                Option::None
            }
        },
        FsEntry::Dir { .. } => Option::None,
    }
}

/// The number of lines of a file entry's content.
pub open spec fn file_lines(t: FsEntry) -> int {
    match t {
        FsEntry::File { content: Option::Some(text), .. } => lines_of(text@).len() as int,
        _ => 0,
    }
}

/// How many of the files are attributed to category `k`.
pub open spec fn attributed_files(s: Seq<FsEntry>, ig: Seq<Seq<char>>, k: Seq<char>) -> int
    decreases s.len(),
{
    if s.len() == 0 {
        0
    } else {
        attributed_files(s.drop_last(), ig, k) + if file_key(s.last(), ig) == Option::Some(k) {
            1int
        } else {
            0int
        }
    }
}

/// How many lines the files attributed to category `k` hold together.
pub open spec fn attributed_lines(s: Seq<FsEntry>, ig: Seq<Seq<char>>, k: Seq<char>) -> int
    decreases s.len(),
{
    if s.len() == 0 {
        0
    } else {
        attributed_lines(s.drop_last(), ig, k) + if file_key(s.last(), ig) == Option::Some(k) {
            file_lines(s.last())
        } else {
            0int
        }
    }
}

/// In a flat scan of regular files, each category's `files` count is the
/// number of files attributed to it, and its blank, comment and code counts
/// sum to exactly the lines of those files; a category absent from the
/// result has no file attributed to it.
pub proof fn lemma_category_counts(s: Seq<FsEntry>, ig: Seq<Seq<char>>, k: Seq<char>)
    requires
        forall|i: int| 0 <= i < s.len() ==> (#[trigger] s[i]) is File,
    ensures
        scan_seq(s, ig).contains_key(k) ==> scan_seq(s, ig)[k].files == attributed_files(s, ig, k),
        scan_seq(s, ig).contains_key(k) ==> scan_seq(s, ig)[k].blank + scan_seq(s, ig)[k].comment
            + scan_seq(s, ig)[k].code == attributed_lines(s, ig, k),
        !scan_seq(s, ig).contains_key(k) ==> attributed_files(s, ig, k) == 0
            && attributed_lines(s, ig, k) == 0,
    decreases s.len(),
{
    if s.len() > 0 {
        assert(forall|i: int| 0 <= i < s.drop_last().len() ==> (#[trigger] s.drop_last()[i]) is File);
        lemma_category_counts(s.drop_last(), ig, k);
        let last = s.last();
        let m0 = scan_seq(s.drop_last(), ig);
        let fm = scan_spec(last, ig);
        assert(s[s.len() - 1] is File);
        match last {
            FsEntry::File { name, executable, content } => {
                let ke = ext_spec(name@);
                let contributes = !executable && !ig.contains(ke) && content is Some;
                if !contributes {
                    assert(fm =~= Map::<Seq<char>, CatCounts>::empty());
                    lemma_merge_empty(m0);
                    assert(scan_seq(s, ig) == m0);
                    assert(file_key(last, ig) is None);
                } else {
                    match content {
                        Option::Some(text) => {
                            lemma_tally_sum(lines_of(text@));
                            let cc = CatCounts {
                                files: 1,
                                blank: content_tally(text@).blank,
                                comment: content_tally(text@).comment,
                                code: content_tally(text@).code,
                            };
                            assert(fm == Map::<Seq<char>, CatCounts>::empty().insert(ke, cc));
                            assert(file_key(last, ig) == Option::Some(ke));
                            assert(cc.blank + cc.comment + cc.code == file_lines(last));
                            if k == ke {
                                if m0.contains_key(k) {
                                    assert(scan_seq(s, ig)[k] == add_counts(m0[k], cc));
                                } else {
                                    assert(scan_seq(s, ig)[k] == cc);
                                }
                            } else {
                                assert(!fm.contains_key(k));
                                if m0.contains_key(k) {
                                    assert(scan_seq(s, ig)[k] == m0[k]);
                                }
                            }
                        },
                        Option::None => {},
                    }
                }
            },
            FsEntry::Dir { .. } => {},
        }
    }
}

/// How many files a flat scan attributes at all: every file that is not
/// skipped and not ignored.
pub open spec fn scanned_files(s: Seq<FsEntry>, ig: Seq<Seq<char>>) -> int
    decreases s.len(),
{
    if s.len() == 0 {
        0
    } else {
        scanned_files(s.drop_last(), ig) + if file_key(s.last(), ig) is Some {
            1int
        } else {
            0int
        }
    }
}

/// How many lines a flat scan reads in all: the lines of every attributed
/// file, skipped and ignored files excluded.
pub open spec fn scanned_lines(s: Seq<FsEntry>, ig: Seq<Seq<char>>) -> int
    decreases s.len(),
{
    if s.len() == 0 {
        0
    } else {
        scanned_lines(s.drop_last(), ig) + if file_key(s.last(), ig) is Some {
            file_lines(s.last())
        } else {
            0int
        }
    }
}

/// The attributed file counts summed over a list of category names.
pub open spec fn sum_attr_files(s: Seq<FsEntry>, ig: Seq<Seq<char>>, keys: Seq<Seq<char>>) -> int
    decreases keys.len(),
{
    if keys.len() == 0 {
        0
    } else {
        sum_attr_files(s, ig, keys.drop_last()) + attributed_files(s, ig, keys.last())
    }
}

/// The attributed line counts summed over a list of category names.
pub open spec fn sum_attr_lines(s: Seq<FsEntry>, ig: Seq<Seq<char>>, keys: Seq<Seq<char>>) -> int
    decreases keys.len(),
{
    if keys.len() == 0 {
        0
    } else {
        sum_attr_lines(s, ig, keys.drop_last()) + attributed_lines(s, ig, keys.last())
    }
}

pub open spec fn uniq_seqs(keys: Seq<Seq<char>>) -> bool {
    forall|p: int, q: int| 0 <= p < q < keys.len() ==> keys[p] != keys[q]
}

proof fn lemma_sum_attr_last(s: Seq<FsEntry>, ig: Seq<Seq<char>>, keys: Seq<Seq<char>>)
    requires
        s.len() > 0,
        uniq_seqs(keys),
    ensures
        sum_attr_files(s, ig, keys) == sum_attr_files(s.drop_last(), ig, keys) + (
        if file_key(s.last(), ig) is Some && keys.contains(file_key(s.last(), ig)->0) {
            1int
        } else {
            0int
        }),
        sum_attr_lines(s, ig, keys) == sum_attr_lines(s.drop_last(), ig, keys) + (
        if file_key(s.last(), ig) is Some && keys.contains(file_key(s.last(), ig)->0) {
            file_lines(s.last())
        } else {
            0int
        }),
    decreases keys.len(),
{
    if keys.len() > 0 {
        let kd = keys.drop_last();
        assert(uniq_seqs(kd)) by {
            assert(forall|p: int, q: int| 0 <= p < q < kd.len() ==> kd[p] == keys[p] && kd[q] == keys[q]);
        }
        lemma_sum_attr_last(s, ig, kd);
        if file_key(s.last(), ig) is Some {
            let k0 = file_key(s.last(), ig)->0;
            if keys.last() == k0 {
                assert(keys[keys.len() - 1] == k0);
                assert(keys.contains(k0));
                assert(!kd.contains(k0)) by {
                    if kd.contains(k0) {
                        let i = choose|i: int| 0 <= i < kd.len() && kd[i] == k0;
                        assert(keys[i] == k0);
                        assert(false);
                    }
                }
            } else {
                assert(keys.contains(k0) <==> kd.contains(k0)) by {
                    if kd.contains(k0) {
                        let i = choose|i: int| 0 <= i < kd.len() && kd[i] == k0;
                        assert(keys[i] == k0);
                        assert(keys.contains(k0));
                    }
                    if keys.contains(k0) {
                        let i = choose|i: int| 0 <= i < keys.len() && keys[i] == k0;
                        assert(i < keys.len() - 1);
                        assert(kd[i] == k0);
                        assert(kd.contains(k0));
                    }
                }
            }
        }
    }
}

proof fn lemma_sum_attr_zero(s: Seq<FsEntry>, ig: Seq<Seq<char>>, keys: Seq<Seq<char>>)
    requires
        s.len() == 0,
    ensures
        sum_attr_files(s, ig, keys) == 0,
        sum_attr_lines(s, ig, keys) == 0,
    decreases keys.len(),
{
    if keys.len() > 0 {
        lemma_sum_attr_zero(s, ig, keys.drop_last());
    }
}

proof fn lemma_sum_attr(s: Seq<FsEntry>, ig: Seq<Seq<char>>, keys: Seq<Seq<char>>)
    requires
        uniq_seqs(keys),
        forall|i: int|
            0 <= i < s.len() && (#[trigger] file_key(s[i], ig)) is Some ==> keys.contains(
                file_key(s[i], ig)->0,
            ),
    ensures
        sum_attr_files(s, ig, keys) == scanned_files(s, ig),
        sum_attr_lines(s, ig, keys) == scanned_lines(s, ig),
    decreases s.len(),
{
    if s.len() == 0 {
        lemma_sum_attr_zero(s, ig, keys);
    } else {
        let sd = s.drop_last();
        assert(forall|i: int| 0 <= i < sd.len() ==> sd[i] == s[i]);
        lemma_sum_attr(sd, ig, keys);
        lemma_sum_attr_last(s, ig, keys);
        if file_key(s.last(), ig) is Some {
            assert(file_key(s[s.len() - 1], ig) is Some);
            assert(keys.contains(file_key(s.last(), ig)->0));
        }
    }
}

proof fn lemma_key_in_scan(s: Seq<FsEntry>, ig: Seq<Seq<char>>, i: int)
    requires
        0 <= i < s.len(),
        file_key(s[i], ig) is Some,
    ensures
        scan_seq(s, ig).contains_key(file_key(s[i], ig)->0),
    decreases s.len(),
{
    if i == s.len() - 1 {
        match s.last() {
            FsEntry::File { name, executable, content } => {
                assert(scan_spec(s.last(), ig).contains_key(ext_spec(name@)));
            },
            FsEntry::Dir { .. } => {},
        }
    } else {
        lemma_key_in_scan(s.drop_last(), ig, i);
        assert(s.drop_last()[i] == s[i]);
    }
}

/// The category names of a row sequence, in order.
pub open spec fn langs_of(cats: Seq<LocData>) -> Seq<Seq<char>> {
    Seq::new(cats.len(), |i: int| cats[i].lang@)
}

proof fn lemma_cats_sums(cats: Seq<LocData>, s: Seq<FsEntry>, ig: Seq<Seq<char>>)
    requires
        forall|i: int|
            0 <= i < cats.len() ==> crate::report::counts_of(#[trigger] cats[i]).files
                == attributed_files(s, ig, cats[i].lang@) && crate::report::counts_of(
                cats[i],
            ).blank + crate::report::counts_of(cats[i]).comment + crate::report::counts_of(
                cats[i],
            ).code == attributed_lines(s, ig, cats[i].lang@),
    ensures
        sum_files(cats) == sum_attr_files(s, ig, langs_of(cats)),
        sum_blank(cats) + sum_comment(cats) + sum_code(cats) == sum_attr_lines(
            s,
            ig,
            langs_of(cats),
        ),
    decreases cats.len(),
{
    if cats.len() > 0 {
        let cd = cats.drop_last();
        assert(forall|i: int| 0 <= i < cd.len() ==> cd[i] == cats[i]);
        lemma_cats_sums(cd, s, ig);
        assert(langs_of(cats).drop_last() =~= langs_of(cd));
        assert(langs_of(cats).last() == cats.last().lang@);
        assert(crate::report::counts_of(cats[cats.len() - 1]).files == attributed_files(
            s,
            ig,
            cats.last().lang@,
        ));
    }
}

/// Summed across all categories of a report that holds a flat scan's
/// result: the file counts add up to the number of files attributed, and
/// the blank, comment and code counts together add up to every line of the
/// scanned files, skipped and ignored files excluded.
pub proof fn lemma_report_totals(r: Report, s: Seq<FsEntry>, ig: Seq<Seq<char>>)
    requires
        r.wf(),
        r.as_map() == scan_seq(s, ig),
        forall|i: int| 0 <= i < s.len() ==> (#[trigger] s[i]) is File,
    ensures
        sum_files(r.cats@) == scanned_files(s, ig),
        sum_blank(r.cats@) + sum_comment(r.cats@) + sum_code(r.cats@) == scanned_lines(s, ig),
{
    let cats = r.cats@;
    let keys = langs_of(cats);
    assert(uniq_seqs(keys)) by {
        assert(forall|p: int, q: int|
            0 <= p < q < keys.len() ==> keys[p] == cats[p].lang@ && keys[q] == cats[q].lang@);
    }
    assert forall|i: int| 0 <= i < cats.len() implies crate::report::counts_of(
        #[trigger] cats[i],
    ).files == attributed_files(s, ig, cats[i].lang@) && crate::report::counts_of(cats[i]).blank
        + crate::report::counts_of(cats[i]).comment + crate::report::counts_of(cats[i]).code
        == attributed_lines(s, ig, cats[i].lang@) by {
        crate::report::lemma_cat_seq_map_at(cats, i);
        lemma_category_counts(s, ig, cats[i].lang@);
    }
    lemma_cats_sums(cats, s, ig);
    assert forall|i: int|
        0 <= i < s.len() && (#[trigger] file_key(s[i], ig)) is Some implies keys.contains(
        file_key(s[i], ig)->0,
    ) by {
        let k = file_key(s[i], ig)->0;
        lemma_key_in_scan(s, ig, i);
        crate::report::lemma_cat_seq_map_contains(cats, k);
        let j = choose|j: int| 0 <= j < cats.len() && #[trigger] cats[j].lang@ == k;
        assert(keys[j] == k);
        assert(keys.contains(k));
    }
    lemma_sum_attr(s, ig, keys);
}

/// The same, stated for a whole tree: a report holding a tree's scan has
/// file counts summing to the files attributed anywhere in the tree, and
/// blank, comment and code counts summing to every line of those files.
pub proof fn lemma_tree_totals(r: Report, t: FsEntry, ig: Seq<Seq<char>>)
    requires
        r.wf(),
        r.as_map() == scan_spec(t, ig),
    ensures
        sum_files(r.cats@) == scanned_files(leaves(t), ig),
        sum_blank(r.cats@) + sum_comment(r.cats@) + sum_code(r.cats@) == scanned_lines(
            leaves(t),
            ig,
        ),
{
    lemma_scan_flat(t, ig);
    lemma_leaves_files(t);
    lemma_report_totals(r, leaves(t), ig);
}

/// Every entry a tree's leaf list holds is a regular file.
pub proof fn lemma_leaves_files(t: FsEntry)
    ensures
        forall|i: int| 0 <= i < leaves(t).len() ==> (#[trigger] leaves(t)[i]) is File,
    decreases t,
{
    match t {
        FsEntry::File { .. } => {},
        FsEntry::Dir { readable, entries } => {
            if readable {
                lemma_leaves_seq_files(entries@);
            }
        },
    }
}

pub proof fn lemma_leaves_seq_files(s: Seq<FsEntry>)
    ensures
        forall|i: int| 0 <= i < leaves_seq(s).len() ==> (#[trigger] leaves_seq(s)[i]) is File,
    decreases s,
{
    if s.len() > 0 {
        lemma_leaves_seq_files(s.drop_last());
        lemma_leaves_files(s.last());
        let a = leaves_seq(s.drop_last());
        let b = leaves(s.last());
        assert forall|i: int| 0 <= i < leaves_seq(s).len() implies (#[trigger] leaves_seq(s)[i]) is File by {
            if i < a.len() {
                assert(leaves_seq(s)[i] == a[i]);
            } else {
                assert(leaves_seq(s)[i] == b[i - a.len()]);
            }
        }
    }
}

} // verus!
