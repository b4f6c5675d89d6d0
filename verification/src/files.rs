//! Directory-listing support: which entries a model browser lists, how
//! listings are ordered, keyboard navigation through a listing, and
//! aggregate statistics of a loaded model's meshes.
//!
//! The file-system reads themselves happen in the host; this module works
//! on plain entries the host hands over.

use vstd::prelude::*;
use vstd::string::StrSliceExecFns;
use vstd::utf8::char_u32_cast;
use vstd::utf8::encode_utf8;

verus! {

/// How a directory listing is ordered.
#[derive(Clone, Copy, PartialEq, Eq, Structural, Debug)]
pub enum SortMode {
    Name,
    Size,
    Date,
}

/// One entry of a directory listing.
#[derive(Debug)]
pub struct FileEntry {
    pub name: String,
    /// Seconds elapsed since the entry was last modified.
    pub last_modified: u64,
}

/// Aggregate statistics of the meshes of a loaded model.
#[derive(Clone, Copy, PartialEq, Eq, Structural, Debug)]
pub struct ModelInfo {
    pub polygon_count: usize,
    pub vertex_count: usize,
}

// ---------------------------------------------------------------------------
// Case folding
// ---------------------------------------------------------------------------

/// The character sequence that Unicode lowercasing maps `s` to.  The
/// mapping depends on the characters alone; its full definition is left to
/// the standard library.
pub uninterp spec fn lower_of(s: Seq<char>) -> Seq<char>;

/// Relies on `str::to_lowercase`: the returned string is the Unicode
/// lowercase mapping of the input, a function of the characters alone.
#[verifier::external_body]
fn lowercase(s: &str) -> (r: String)
    ensures
        r@ == lower_of(s@),
{
    s.to_lowercase()
}

// ---------------------------------------------------------------------------
// Lexicographic order on character sequences
// ---------------------------------------------------------------------------

/// Lexicographic order by code point, the order `cmp` gives Rust strings.
pub open spec fn lex_le(a: Seq<char>, b: Seq<char>) -> bool
    decreases a.len(),
{
    if a.len() == 0 {
        true
    } else if b.len() == 0 {
        false
    } else if a[0] == b[0] {
        lex_le(a.drop_first(), b.drop_first())
    } else {
        (a[0] as u32) < (b[0] as u32)
    }
}

/// `lex_le` is total.
pub proof fn lemma_lex_le_total(a: Seq<char>, b: Seq<char>)
    ensures
        lex_le(a, b) || lex_le(b, a),
    decreases a.len(),
{
    if a.len() > 0 && b.len() > 0 {
        if a[0] == b[0] {
            lemma_lex_le_total(a.drop_first(), b.drop_first());
        } else {
            char_u32_cast(a[0], a[0] as u32);
            char_u32_cast(b[0], b[0] as u32);
        }
    }
}

/// `lex_le` is transitive.
pub proof fn lemma_lex_le_trans(a: Seq<char>, b: Seq<char>, c: Seq<char>)
    requires
        lex_le(a, b),
        lex_le(b, c),
    ensures
        lex_le(a, c),
    decreases a.len(),
{
    if a.len() > 0 && b.len() > 0 && c.len() > 0 {
        if a[0] == b[0] && b[0] == c[0] {
            lemma_lex_le_trans(a.drop_first(), b.drop_first(), c.drop_first());
        }
    }
}

/// Compare two strings in the order of [`lex_le`] over their characters.
fn lex_le_str(a: &str, b: &str) -> (r: bool)
    ensures
        r == lex_le(a@, b@),
{
    let an = a.unicode_len();
    let bn = b.unicode_len();
    let mut i: usize = 0;
    proof {
        assert(a@.skip(0) =~~= a@);
        assert(b@.skip(0) =~~= b@);
    }
    while i < an && i < bn
        invariant
            i <= an,
            i <= bn,
            an == a@.len(),
            bn == b@.len(),
            lex_le(a@, b@) == lex_le(a@.skip(i as int), b@.skip(i as int)),
        decreases an - i,
    {
        let ca = a.get_char(i);
        let cb = b.get_char(i);
        if ca == cb {
            proof {
                assert(a@.skip(i as int).drop_first() =~~= a@.skip(i as int + 1));
                assert(b@.skip(i as int).drop_first() =~~= b@.skip(i as int + 1));
                assert(a@.skip(i as int)[0] == ca);
                assert(b@.skip(i as int)[0] == cb);
            }
            i = i + 1;
        } else {
            proof {
                assert(a@.skip(i as int)[0] == ca);
                assert(b@.skip(i as int)[0] == cb);
            }
            return (ca as u32) < (cb as u32);
        }
    }
    proof {
        if i == an {
            assert(a@.skip(i as int) =~~= Seq::<char>::empty());
        } else {
            assert(b@.skip(i as int) =~~= Seq::<char>::empty());
            assert(a@.skip(i as int).len() > 0);
        }
    }
    an <= bn
}

// ---------------------------------------------------------------------------
// Which entries are listed
// ---------------------------------------------------------------------------

/// ASCII lowercase of one byte.
pub open spec fn lower_byte(x: u8) -> u8 {
    if 65 <= x <= 90 {
        (x + 32) as u8
    } else {
        x
    }
}

/// Whether the byte sequence ends, ASCII-case-insensitively, with `ext`
/// (given lowercase).
pub open spec fn spec_has_ext(b: Seq<u8>, ext: Seq<u8>) -> bool {
    b.len() >= ext.len() && forall|i: int|
        0 <= i < ext.len() ==> lower_byte(b[b.len() - ext.len() + i]) == #[trigger] ext[i]
}

/// The `.glb` suffix, as bytes.
pub open spec fn glb_ext() -> Seq<u8> {
    seq![46u8, 103u8, 108u8, 98u8]
}

/// The `.gltf` suffix, as bytes.
pub open spec fn gltf_ext() -> Seq<u8> {
    seq![46u8, 103u8, 108u8, 116u8, 102u8]
}

/// Which entries the browser lists, over the UTF-8 bytes of the entry's
/// name: hidden entries (leading dot) are skipped; directories are always
/// listed; files are listed when their name ends, ASCII-case-
/// insensitively, in `.glb` or `.gltf`.
pub open spec fn spec_approved(b: Seq<u8>, is_dir: bool) -> bool {
    &&& !(b.len() > 0 && b[0] == 46)
    &&& (is_dir || spec_has_ext(b, glb_ext()) || spec_has_ext(b, gltf_ext()))
}

/// ASCII lowercase of one byte.
fn byte_lower(x: u8) -> (r: u8)
    ensures
        r == lower_byte(x),
{
    if 65 <= x && x <= 90 {
        x + 32
    } else {
        x
    }
}

/// Whether `name` is listed by the browser, given whether it names a
/// directory.  Decides exactly [`spec_approved`] of the name's UTF-8
/// bytes.
pub fn approved_file(name: &String, is_dir: bool) -> (r: bool)
    ensures
        r == spec_approved(encode_utf8(name@), is_dir),
{
    let b: &[u8] = name.as_str().as_bytes();
    let n = b.len();
    if n > 0 && b[0] == 46 {
        return false;
    }
    if is_dir {
        return true;
    }
    let glb = n >= 4 && byte_lower(b[n - 4]) == 46 && byte_lower(b[n - 3]) == 103 && byte_lower(
        b[n - 2],
    ) == 108 && byte_lower(b[n - 1]) == 98;
    if glb {
        proof {
            assert forall|i: int| 0 <= i < 4 implies lower_byte(
                encode_utf8(name@)[encode_utf8(name@).len() - 4 + i],
            ) == glb_ext()[i] by {
                if i == 0 {
                } else if i == 1 {
                } else if i == 2 {
                } else {
                }
            }
        }
        return true;
    }
    let gltf = n >= 5 && byte_lower(b[n - 5]) == 46 && byte_lower(b[n - 4]) == 103 && byte_lower(
        b[n - 3],
    ) == 108 && byte_lower(b[n - 2]) == 116 && byte_lower(b[n - 1]) == 102;
    if gltf {
        proof {
            assert forall|i: int| 0 <= i < 5 implies lower_byte(
                encode_utf8(name@)[encode_utf8(name@).len() - 5 + i],
            ) == gltf_ext()[i] by {
                if i == 0 {
                } else if i == 1 {
                } else if i == 2 {
                } else if i == 3 {
                } else {
                }
            }
        }
        return true;
    }
    false
}

// ---------------------------------------------------------------------------
// Listing order
// ---------------------------------------------------------------------------

/// The listing order: directories before files; among equals, by the
/// Unicode-lowercased name for [`SortMode::Name`] and by modification age
/// for [`SortMode::Date`].  ([`SortMode::Size`] has no order; the sort
/// refuses it.)
pub open spec fn le_entry(mode: SortMode, a: (bool, FileEntry), b: (bool, FileEntry)) -> bool {
    if a.0 != b.0 {
        a.0
    } else {
        match mode {
            SortMode::Name => lex_le(lower_of(a.1.name@), lower_of(b.1.name@)),
            SortMode::Date => a.1.last_modified <= b.1.last_modified,
            SortMode::Size => true,
        }
    }
}

/// The listing order is total.
pub proof fn lemma_le_entry_total(mode: SortMode, a: (bool, FileEntry), b: (bool, FileEntry))
    ensures
        le_entry(mode, a, b) || le_entry(mode, b, a),
{
    if a.0 == b.0 && mode == SortMode::Name {
        lemma_lex_le_total(lower_of(a.1.name@), lower_of(b.1.name@));
    }
}

/// The listing order is transitive.
pub proof fn lemma_le_entry_trans(
    mode: SortMode,
    a: (bool, FileEntry),
    b: (bool, FileEntry),
    c: (bool, FileEntry),
)
    requires
        le_entry(mode, a, b),
        le_entry(mode, b, c),
    ensures
        le_entry(mode, a, c),
{
    if a.0 == b.0 && b.0 == c.0 && mode == SortMode::Name {
        lemma_lex_le_trans(lower_of(a.1.name@), lower_of(b.1.name@), lower_of(c.1.name@));
    }
}

/// Pairwise sortedness in the listing order.
pub open spec fn spec_sorted_entries(s: Seq<(bool, FileEntry)>, mode: SortMode) -> bool {
    forall|i: int, j: int| 0 <= i < j < s.len() ==> le_entry(mode, #[trigger] s[i], #[trigger] s[j])
}

/// Decide the listing order between two entries.
fn le_entry_exec(mode: SortMode, a: &(bool, FileEntry), b: &(bool, FileEntry)) -> (r: bool)
    requires
        mode != SortMode::Size,
    ensures
        r == le_entry(mode, *a, *b),
{
    if a.0 != b.0 {
        a.0
    } else {
        match mode {
            SortMode::Name => {
                let la = lowercase(a.1.name.as_str());
                let lb = lowercase(b.1.name.as_str());
                lex_le_str(la.as_str(), lb.as_str())
            },
            SortMode::Date => a.1.last_modified <= b.1.last_modified,
            SortMode::Size => true,
        }
    }
}

/// Sort a listing in place into the order of [`le_entry`]: directories
/// first, then by case-folded name or by modification age.  The entries
/// are permuted, never altered.  [`SortMode::Size`] has no defined order
/// and is refused.
pub fn sort_entries(v: &mut Vec<(bool, FileEntry)>, sort_mode: SortMode)
    requires
        sort_mode != SortMode::Size,
    ensures
        spec_sorted_entries(final(v)@, sort_mode),
        final(v)@.to_multiset() == old(v)@.to_multiset(),
{
    broadcast use vstd::seq_lib::group_to_multiset_ensures, vstd::multiset::group_multiset_axioms;

    let ghost orig = v@;
    let mut out: Vec<(bool, FileEntry)> = Vec::new();
    proof {
        assert(out@.to_multiset().add(v@.to_multiset()) =~= orig.to_multiset());
    }
    while v.len() > 0
        invariant
            sort_mode != SortMode::Size,
            orig == old(v)@,
            out@.to_multiset().add(v@.to_multiset()) == orig.to_multiset(),
            spec_sorted_entries(out@, sort_mode),
            forall|x: int, y: int|
                0 <= x < out@.len() && 0 <= y < v@.len() ==> le_entry(
                    sort_mode,
                    #[trigger] out@[x],
                    #[trigger] v@[y],
                ),
        decreases v@.len(),
    {
        let mut m: usize = 0;
        let mut k: usize = 1;
        proof {
            lemma_le_entry_total(sort_mode, v@[0], v@[0]);
        }
        while k < v.len()
            invariant
                sort_mode != SortMode::Size,
                v@.len() > 0,
                0 <= m < k <= v@.len(),
                forall|t: int| 0 <= t < k ==> le_entry(sort_mode, v@[m as int], #[trigger] v@[t]),
            decreases v@.len() - k,
        {
            if le_entry_exec(sort_mode, &v[k], &v[m]) {
                proof {
                    lemma_le_entry_total(sort_mode, v@[k as int], v@[k as int]);
                    assert forall|t: int| 0 <= t < k + 1 implies le_entry(
                        sort_mode,
                        v@[k as int],
                        #[trigger] v@[t],
                    ) by {
                        if t < k {
                            lemma_le_entry_trans(sort_mode, v@[k as int], v@[m as int], v@[t]);
                        }
                    }
                }
                m = k;
            } else {
                proof {
                    lemma_le_entry_total(sort_mode, v@[k as int], v@[m as int]);
                }
            }
            k = k + 1;
        }
        let ghost pre = v@;
        let ghost out_pre = out@;
        let e = v.remove(m);
        out.push(e);
        proof {
            assert(pre.contains(pre[m as int]));
            vstd::seq_lib::to_multiset_contains(pre, pre[m as int]);
            vstd::seq_lib::to_multiset_remove(pre, m as int);
            vstd::seq_lib::to_multiset_build(out_pre, e);
            assert(v@.to_multiset() == pre.to_multiset().remove(pre[m as int]));
            assert(out@.to_multiset() == out_pre.to_multiset().insert(e));
            assert(out@.to_multiset().add(v@.to_multiset()) =~= orig.to_multiset());
            assert forall|x: int, y: int|
                0 <= x < out@.len() && 0 <= y < v@.len() implies le_entry(
                sort_mode,
                #[trigger] out@[x],
                #[trigger] v@[y],
            ) by {
                let t: int = if y < m { y } else { y + 1 };
                assert(v@[y] == pre[t]);
                if x < out@.len() - 1 {
                    assert(le_entry(sort_mode, out@[x], pre[t]));
                } else {
                    assert(out@[x] == pre[m as int]);
                    assert(le_entry(sort_mode, pre[m as int], pre[t]));
                }
            }
            assert forall|i: int, j: int| 0 <= i < j < out@.len() implies le_entry(
                sort_mode,
                #[trigger] out@[i],
                #[trigger] out@[j],
            ) by {
                if j == out@.len() - 1 {
                    assert(le_entry(sort_mode, out@[i], pre[m as int]));
                }
            }
        }
    }
    v.append(&mut out);
    proof {
        assert(v@.to_multiset().add(Seq::<(bool, FileEntry)>::empty().to_multiset())
            =~= v@.to_multiset());
    }
}

/// The sub-listing of approved entries, in their original order.
pub open spec fn approved_of(s: Seq<(bool, FileEntry)>) -> Seq<(bool, FileEntry)>
    decreases s.len(),
{
    if s.len() == 0 {
        Seq::empty()
    } else {
        let rest = approved_of(s.drop_last());
        if spec_approved(encode_utf8(s.last().1.name@), s.last().0) {
            rest.push(s.last())
        } else {
            rest
        }
    }
}

/// Build the directory listing the browser shows: keep the approved
/// entries (no hidden names; directories, and model files by extension)
/// and order them by `sort_mode` — some permutation `s` of the approved
/// sub-listing, sorted, with each entry's `is_dir` flag stripped off.
pub fn dir_list_approved_files(entries: Vec<(bool, FileEntry)>, sort_mode: SortMode) -> (r: Vec<
    FileEntry,
>)
    requires
        sort_mode != SortMode::Size,
    ensures
        exists|s: Seq<(bool, FileEntry)>|
            {
                &&& s.to_multiset() == approved_of(entries@).to_multiset()
                &&& spec_sorted_entries(s, sort_mode)
                &&& r@ == s.map_values(|e: (bool, FileEntry)| e.1)
            },
{
    let ghost orig = entries@;
    let mut rest = entries;
    let mut kept: Vec<(bool, FileEntry)> = Vec::new();
    let ghost mut j: int = 0;
    proof {
        assert(orig.take(0) =~~= Seq::<(bool, FileEntry)>::empty());
        assert(rest@ =~~= orig.skip(0));
        assert(kept@ =~~= approved_of(orig.take(0)));
    }
    while rest.len() > 0
        invariant
            0 <= j <= orig.len(),
            kept@ == approved_of(orig.take(j)),
            rest@ == orig.skip(j),
        decreases rest@.len(),
    {
        proof {
            assert(orig.skip(j)[0] == orig[j]);
            assert(orig.take(j + 1).drop_last() =~~= orig.take(j));
            assert(orig.take(j + 1).last() == orig[j]);
        }
        let e = rest.remove(0);
        proof {
            assert(rest@ =~~= orig.skip(j + 1));
        }
        if approved_file(&e.1.name, e.0) {
            kept.push(e);
            proof {
                j = j + 1;
                assert(kept@ =~~= approved_of(orig.take(j)));
            }
        } else {
            proof {
                j = j + 1;
                assert(kept@ =~~= approved_of(orig.take(j)));
            }
        }
    }
    proof {
        assert(orig.take(j) =~~= orig);
    }
    sort_entries(&mut kept, sort_mode);
    let ghost s_sorted = kept@;
    let mut out: Vec<FileEntry> = Vec::new();
    let ghost mut p: int = 0;
    proof {
        assert(out@ =~~= s_sorted.take(0).map_values(|e: (bool, FileEntry)| e.1));
        assert(kept@ =~~= s_sorted.skip(0));
    }
    while kept.len() > 0
        invariant
            0 <= p <= s_sorted.len(),
            out@ == s_sorted.take(p).map_values(|e: (bool, FileEntry)| e.1),
            kept@ == s_sorted.skip(p),
        decreases kept@.len(),
    {
        proof {
            assert(s_sorted.skip(p)[0] == s_sorted[p]);
            assert(s_sorted.take(p + 1).drop_last() =~~= s_sorted.take(p));
            assert(s_sorted.take(p + 1).last() == s_sorted[p]);
        }
        let e = kept.remove(0);
        out.push(e.1);
        proof {
            assert(kept@ =~~= s_sorted.skip(p + 1));
            p = p + 1;
            assert(out@ =~~= s_sorted.take(p).map_values(|e: (bool, FileEntry)| e.1));
        }
    }
    proof {
        assert(s_sorted.take(p) =~~= s_sorted);
        assert(out@ == s_sorted.map_values(|e: (bool, FileEntry)| e.1));
    }
    out
}

// ---------------------------------------------------------------------------
// Keyboard navigation
// ---------------------------------------------------------------------------

/// Step the selection one entry up from the entry named `current`,
/// wrapping from the first entry to the last.  Returns the index of the
/// new selection, or `None` when no entry carries the current name; the
/// match is the first entry with that name.
pub fn handle_file_nav_up(file_list: &Vec<FileEntry>, current: &String) -> (r: Option<usize>)
    ensures
        match r {
            Some(idx) => exists|i: int|
                {
                    &&& 0 <= i < file_list@.len()
                    &&& (#[trigger] file_list@[i]).name@ == current@
                    &&& forall|k: int| 0 <= k < i ==> (#[trigger] file_list@[k]).name@ != current@
                    &&& idx as int == if i == 0 {
                        file_list@.len() - 1
                    } else {
                        i - 1
                    }
                },
            None => forall|i: int|
                0 <= i < file_list@.len() ==> (#[trigger] file_list@[i]).name@ != current@,
        },
{
    let n = file_list.len();
    let mut i: usize = 0;
    while i < n
        invariant
            0 <= i <= n,
            n == file_list@.len(),
            forall|k: int| 0 <= k < i ==> (#[trigger] file_list@[k]).name@ != current@,
        decreases n - i,
    {
        if file_list[i].name == *current {
            let idx = if i == 0 {
                n - 1
            } else {
                i - 1
            };
            return Some(idx);
        }
        i = i + 1;
    }
    None
}

/// Step the selection one entry down from the entry named `current`,
/// wrapping from the last entry to the first.  Returns the index of the
/// new selection, or `None` when no entry carries the current name; the
/// match is the first entry with that name.
pub fn handle_file_nav_down(file_list: &Vec<FileEntry>, current: &String) -> (r: Option<usize>)
    ensures
        match r {
            Some(idx) => exists|i: int|
                {
                    &&& 0 <= i < file_list@.len()
                    &&& (#[trigger] file_list@[i]).name@ == current@
                    &&& forall|k: int| 0 <= k < i ==> (#[trigger] file_list@[k]).name@ != current@
                    &&& idx as int == if i + 1 >= file_list@.len() {
                        0
                    } else {
                        i + 1
                    }
                },
            None => forall|i: int|
                0 <= i < file_list@.len() ==> (#[trigger] file_list@[i]).name@ != current@,
        },
{
    let n = file_list.len();
    let mut i: usize = 0;
    while i < n
        invariant
            0 <= i <= n,
            n == file_list@.len(),
            forall|k: int| 0 <= k < i ==> (#[trigger] file_list@[k]).name@ != current@,
        decreases n - i,
    {
        if file_list[i].name == *current {
            let idx = if i + 1 >= n {
                0
            } else {
                i + 1
            };
            return Some(idx);
        }
        i = i + 1;
    }
    None
}

// ---------------------------------------------------------------------------
// Model statistics
// ---------------------------------------------------------------------------

/// Total vertices over meshes given as (vertex count, index count) pairs.
pub open spec fn sum_vertices(s: Seq<(usize, usize)>) -> int
    decreases s.len(),
{
    if s.len() == 0 {
        0
    } else {
        sum_vertices(s.drop_last()) + s.last().0
    }
}

/// Total polygons: each mesh contributes a third of its index count.
pub open spec fn sum_polygons(s: Seq<(usize, usize)>) -> int
    decreases s.len(),
{
    if s.len() == 0 {
        0
    } else {
        sum_polygons(s.drop_last()) + s.last().1 / 3
    }
}

/// Clamp an integer into the `usize` range from above.
pub open spec fn cap_usize(x: int) -> int {
    if x <= usize::MAX as int {
        x
    } else {
        usize::MAX as int
    }
}

/// Total up the statistics of a loaded model's meshes, each given as its
/// (vertex count, index count) pair.  Totals saturate at `usize::MAX`
/// instead of overflowing.
pub fn check_model_loaded(meshes: &Vec<(usize, usize)>) -> (info: ModelInfo)
    ensures
        info.vertex_count as int == cap_usize(sum_vertices(meshes@)),
        info.polygon_count as int == cap_usize(sum_polygons(meshes@)),
{
    let mut vc: usize = 0;
    let mut pc: usize = 0;
    let mut i: usize = 0;
    let n = meshes.len();
    proof {
        assert(meshes@.take(0) =~~= Seq::<(usize, usize)>::empty());
    }
    while i < n
        invariant
            0 <= i <= n,
            n == meshes@.len(),
            vc as int == cap_usize(sum_vertices(meshes@.take(i as int))),
            pc as int == cap_usize(sum_polygons(meshes@.take(i as int))),
        decreases n - i,
    {
        proof {
            assert(meshes@.take(i as int + 1).drop_last() =~~= meshes@.take(i as int));
            assert(meshes@.take(i as int + 1).last() == meshes@[i as int]);
        }
        let pair = meshes[i];
        let v = pair.0;
        let p = pair.1 / 3;
        vc = if vc > usize::MAX - v {
            usize::MAX
        } else {
            vc + v
        };
        pc = if pc > usize::MAX - p {
            usize::MAX
        } else {
            pc + p
        };
        i = i + 1;
    }
    proof {
        assert(meshes@.take(n as int) =~~= meshes@);
    }
    ModelInfo { polygon_count: pc, vertex_count: vc }
}

} // verus!
