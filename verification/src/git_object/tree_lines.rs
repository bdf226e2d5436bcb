//! The payload of a tree: its entries, one after the other.

use crate::bytes::copy_range;
use crate::bytes::extend;
use crate::bytes::find_from;
use crate::bytes::first_index;
use crate::bytes::lemma_first_index_skips;
use crate::bytes::lemma_lex_less_irreflexive;
use crate::bytes::lemma_lex_less_total;
use crate::bytes::lemma_lex_less_transitive;
use crate::bytes::less_than;
use crate::bytes::lex_less;
use crate::bytes::range_is;
use crate::error::Error;
use crate::git_object::tree_line::Mode;
use crate::git_object::tree_line::TreeEntry;
use crate::git_object::tree_line::TreeLine;
use crate::hasher::HASH_BYTES_LENGTH;
use crate::text::lemma_bytes_decide_text;
use crate::text::lemma_no_nul_byte;
use crate::text::lemma_text_of_bytes;
use crate::text::read_text;
use crate::text::text_of;
use vstd::prelude::*;
use vstd::utf8::encode_utf8;

verus! {

/// The values of a sequence of lines.
pub open spec fn entries_of(lines: Seq<TreeLine>) -> Seq<TreeEntry> {
    Seq::new(lines.len(), |i: int| lines[i]@)
}

/// The bytes of a sequence of entries: the bytes of each, in the given
/// order, with nothing between them and nothing after the last.
pub open spec fn encode_entries(entries: Seq<TreeEntry>) -> Seq<u8>
    decreases entries.len(),
{
    if entries.len() == 0 {
        Seq::empty()
    } else {
        entries[0].encoding() + encode_entries(entries.drop_first())
    }
}

/// The entry at the start of `bytes` and the number of bytes that it takes.
/// There is none where the space after the mode or the NUL after the name
/// is missing, where fewer than twenty bytes follow the NUL, or where the
/// mode is not one of the two.
pub open spec fn decode_first(bytes: Seq<u8>) -> Option<(TreeEntry, int)> {
    let space = first_index(bytes, 32);
    let rest = bytes.skip(space + 1);
    let nul = first_index(rest, 0);
    if space >= bytes.len() {
        None
    } else if nul >= rest.len() {
        None
    } else if rest.len() - (nul + 1) < HASH_BYTES_LENGTH {
        None
    } else {
        match Mode::of_bytes(bytes.take(space)) {
            None => None,
            Some(mode) => Some(
                (
                    TreeEntry {
                        mode: mode,
                        path: text_of(rest.take(nul)),
                        hash: rest.subrange(nul + 1, nul + 1 + HASH_BYTES_LENGTH),
                    },
                    space + 1 + nul + 1 + HASH_BYTES_LENGTH,
                ),
            ),
        }
    }
}

/// `entries` followed by what `rest` holds, if it holds anything.
pub open spec fn followed_by(entries: Seq<TreeEntry>, rest: Option<Seq<TreeEntry>>) -> Option<
    Seq<TreeEntry>,
> {
    match rest {
        Some(more) => Some(entries + more),
        None => None,
    }
}

/// The entries that `bytes` hold: none for no bytes, and otherwise the
/// first entry followed by the entries of what comes after it. `None` where
/// some entry cannot be read.
pub open spec fn decode_entries(bytes: Seq<u8>) -> Option<Seq<TreeEntry>>
    decreases bytes.len(),
{
    if bytes.len() == 0 {
        Some(Seq::empty())
    } else {
        match decode_first(bytes) {
            None => None,
            Some((entry, used)) => if 0 < used <= bytes.len() {
                followed_by(seq![entry], decode_entries(bytes.skip(used)))
            } else {
                None
            },
        }
    }
}

/// Whether every entry can be read back from its bytes.
pub open spec fn all_well_formed(entries: Seq<TreeEntry>) -> bool {
    forall|i: int| 0 <= i < entries.len() ==> (#[trigger] entries[i]).well_formed()
}

/// The bytes of entries with one more at the end are the bytes of the
/// entries followed by the bytes of that one.
pub proof fn lemma_encode_push(entries: Seq<TreeEntry>, last: TreeEntry)
    ensures
        encode_entries(entries.push(last)) == encode_entries(entries) + last.encoding(),
    decreases entries.len(),
{
    let all = entries.push(last);
    if entries.len() == 0 {
        assert(all.drop_first() =~= Seq::<TreeEntry>::empty());
        assert(encode_entries(all.drop_first()) =~= Seq::<u8>::empty());
        assert(encode_entries(entries) =~= Seq::<u8>::empty());
        assert(all[0] == last);
        assert(encode_entries(all) =~= encode_entries(entries) + last.encoding());
    } else {
        assert(all.drop_first() =~= entries.drop_first().push(last));
        lemma_encode_push(entries.drop_first(), last);
        assert(encode_entries(all) =~= encode_entries(entries) + last.encoding());
    }
}

/// A well-formed entry in front of any bytes is read back as itself, and
/// takes exactly its own bytes.
pub proof fn lemma_decode_first_of_encoding(entry: TreeEntry, after: Seq<u8>)
    requires
        entry.well_formed(),
    ensures
        decode_first(entry.encoding() + after) == Some((entry, entry.encoding().len() as int)),
{
    let mode = entry.mode.bytes();
    let name = encode_utf8(entry.path);
    let bytes = entry.encoding() + after;
    let tail = seq![32u8] + name + seq![0u8] + entry.hash + after;
    entry.mode.lemma_bytes();
    assert(bytes =~= mode + tail);
    assert(first_index(tail, 32) == 0);
    lemma_first_index_skips(mode, tail, 32);
    let space = first_index(bytes, 32);
    assert(space == mode.len());
    let rest = bytes.skip(space + 1);
    let tail2 = seq![0u8] + entry.hash + after;
    assert(rest =~= name + tail2);
    lemma_no_nul_byte(entry.path);
    assert(first_index(tail2, 0) == 0);
    lemma_first_index_skips(name, tail2, 0);
    let nul = first_index(rest, 0);
    assert(nul == name.len());
    assert(bytes.take(space) =~= mode);
    assert(rest.take(nul) =~= name);
    lemma_text_of_bytes(entry.path);
    assert(rest.subrange(nul + 1, nul + 1 + HASH_BYTES_LENGTH) =~= entry.hash);
}

/// Reading undoes writing: the bytes of well-formed entries are read back
/// as the same entries, in the same order.
pub proof fn lemma_decode_encode(entries: Seq<TreeEntry>)
    requires
        all_well_formed(entries),
    ensures
        decode_entries(encode_entries(entries)) == Some(entries),
    decreases entries.len(),
{
    if entries.len() == 0 {
    } else {
        let first = entries[0];
        let rest = entries.drop_first();
        let after = encode_entries(rest);
        let bytes = encode_entries(entries);
        assert(first.well_formed());
        assert forall|i: int| 0 <= i < rest.len() implies (#[trigger] rest[i]).well_formed() by {
            assert(rest[i] == entries[i + 1]);
        }
        lemma_decode_first_of_encoding(first, after);
        lemma_decode_encode(rest);
        let used = first.encoding().len() as int;
        assert(first.encoding().len() > 0);
        assert(bytes.skip(used) =~= after);
        assert(seq![first] + rest =~= entries);
    }
}

/// Writing is one-to-one: well-formed entries with the same bytes are the
/// same entries in the same order.
pub proof fn lemma_encode_injective(a: Seq<TreeEntry>, b: Seq<TreeEntry>)
    requires
        all_well_formed(a),
        all_well_formed(b),
        encode_entries(a) == encode_entries(b),
    ensures
        a == b,
{
    lemma_decode_encode(a);
    lemma_decode_encode(b);
}

/// Whether the name of `a` comes strictly before the name of `b`, byte by
/// byte.
pub open spec fn comes_before(a: TreeEntry, b: TreeEntry) -> bool {
    lex_less(encode_utf8(a.path), encode_utf8(b.path))
}

/// Whether no entry comes after one whose name comes strictly later.
pub open spec fn is_sorted(entries: Seq<TreeEntry>) -> bool {
    forall|i: int, j: int|
        0 <= i < j < entries.len() ==> !comes_before(#[trigger] entries[j], #[trigger] entries[i])
}

/// The place of `entry` among sorted entries: before the first of them
/// whose name comes strictly later, and after all of them if there is none.
pub open spec fn slot(sorted: Seq<TreeEntry>, entry: TreeEntry) -> int
    decreases sorted.len(),
{
    if sorted.len() == 0 {
        0
    } else if comes_before(entry, sorted[0]) {
        0
    } else {
        1 + slot(sorted.drop_first(), entry)
    }
}

/// The entries in the order of their names. Entries of the same name keep
/// the order in which they were given.
pub open spec fn sort_entries(entries: Seq<TreeEntry>) -> Seq<TreeEntry>
    decreases entries.len(),
{
    if entries.len() == 0 {
        Seq::empty()
    } else {
        let sorted = sort_entries(entries.drop_last());
        sorted.insert(slot(sorted, entries.last()), entries.last())
    }
}

/// The place is within bounds; no entry before it comes strictly after
/// `entry`, and the entry at it does.
pub proof fn lemma_slot(sorted: Seq<TreeEntry>, entry: TreeEntry)
    ensures
        0 <= slot(sorted, entry) <= sorted.len(),
        slot(sorted, entry) < sorted.len() ==> comes_before(entry, sorted[slot(sorted, entry)]),
        forall|j: int| 0 <= j < slot(sorted, entry) ==> !comes_before(entry, #[trigger] sorted[j]),
    decreases sorted.len(),
{
    if sorted.len() != 0 && !comes_before(entry, sorted[0]) {
        let rest = sorted.drop_first();
        lemma_slot(rest, entry);
        assert forall|j: int| 0 <= j < slot(sorted, entry) implies !comes_before(
            entry,
            #[trigger] sorted[j],
        ) by {
            if j > 0 {
                assert(sorted[j] == rest[j - 1]);
            }
        }
    }
}

/// A place of which all this holds is the place.
pub proof fn lemma_slot_is(sorted: Seq<TreeEntry>, entry: TreeEntry, at: int)
    requires
        0 <= at <= sorted.len(),
        at < sorted.len() ==> comes_before(entry, sorted[at]),
        forall|j: int| 0 <= j < at ==> !comes_before(entry, #[trigger] sorted[j]),
    ensures
        slot(sorted, entry) == at,
{
    lemma_slot(sorted, entry);
    let p = slot(sorted, entry);
    if p < at {
        assert(!comes_before(entry, sorted[p]));
    }
}

/// Sorting keeps every entry, as often as it was given, and puts the
/// entries in the order of their names.
pub proof fn lemma_sort_entries(entries: Seq<TreeEntry>)
    ensures
        sort_entries(entries).len() == entries.len(),
        is_sorted(sort_entries(entries)),
        sort_entries(entries).to_multiset() == entries.to_multiset(),
    decreases entries.len(),
{
    if entries.len() == 0 {
        assert(entries =~= Seq::<TreeEntry>::empty());
    } else {
        let front = entries.drop_last();
        let last = entries.last();
        let sorted = sort_entries(front);
        lemma_sort_entries(front);
        lemma_slot(sorted, last);
        let p = slot(sorted, last);
        let all = sorted.insert(p, last);
        assert forall|i: int, j: int| 0 <= i < j < all.len() implies !comes_before(
            #[trigger] all[j],
            #[trigger] all[i],
        ) by {
            if j == p {
                assert(all[i] == sorted[i]);
            } else if i == p {
                assert(all[j] == sorted[j - 1]);
                if comes_before(all[j], last) {
                    lemma_lex_less_transitive(
                        encode_utf8(all[j].path),
                        encode_utf8(last.path),
                        encode_utf8(sorted[p].path),
                    );
                    if j - 1 > p {
                        assert(!comes_before(sorted[j - 1], sorted[p]));
                    } else {
                        lemma_lex_less_irreflexive(encode_utf8(sorted[p].path));
                    }
                }
            } else {
                let a = if i < p { i } else { i - 1 };
                let b = if j < p { j } else { j - 1 };
                assert(all[i] == sorted[a]);
                assert(all[j] == sorted[b]);
            }
        }
        assert(all.remove(p) =~= sorted);
        vstd::seq_lib::to_multiset_remove(all, p);
        all.to_multiset_ensures();
        assert(all.contains(last)) by {
            assert(all[p] == last);
        }
        assert(all.to_multiset() =~= sorted.to_multiset().insert(last));
        assert(front.push(last) =~= entries);
        vstd::seq_lib::to_multiset_build(front, last);
    }
}

/// Every entry of the sorted sequence is one of the entries that were given.
pub proof fn lemma_sorted_entry_is_given(entries: Seq<TreeEntry>, k: int)
    requires
        0 <= k < sort_entries(entries).len(),
    ensures
        exists|i: int| 0 <= i < entries.len() && #[trigger] entries[i] == sort_entries(entries)[k],
{
    let sorted = sort_entries(entries);
    let entry = sorted[k];
    lemma_sort_entries(entries);
    entries.to_multiset_ensures();
    sorted.to_multiset_ensures();
    assert(sorted.contains(entry));
    assert(sorted.to_multiset().count(entry) > 0);
    assert(entries.to_multiset().count(entry) > 0);
    assert(entries.contains(entry));
    let i = choose|i: int| 0 <= i < entries.len() && entries[i] == entry;
    assert(entries[i] == sorted[k]);
}

/// Whether no two entries have the same name.
pub open spec fn distinct_paths(entries: Seq<TreeEntry>) -> bool {
    forall|i: int, j: int|
        0 <= i < j < entries.len() ==> (#[trigger] entries[i]).path != (#[trigger] entries[j]).path
}

/// Of two entries with different names one comes strictly before the other.
pub proof fn lemma_comes_before_total(a: TreeEntry, b: TreeEntry)
    requires
        a.path != b.path,
    ensures
        comes_before(a, b) || comes_before(b, a),
{
    lemma_lex_less_total(encode_utf8(a.path), encode_utf8(b.path));
    if encode_utf8(a.path) == encode_utf8(b.path) {
        lemma_bytes_decide_text(a.path, b.path);
    }
}

/// Sorting neither adds an entry nor leaves one out.
pub proof fn lemma_sort_keeps_entries(entries: Seq<TreeEntry>, entry: TreeEntry)
    ensures
        sort_entries(entries).contains(entry) <==> entries.contains(entry),
{
    lemma_sort_entries(entries);
    entries.to_multiset_ensures();
    sort_entries(entries).to_multiset_ensures();
    assert(sort_entries(entries).contains(entry) <==> sort_entries(entries).to_multiset().count(
        entry,
    ) > 0);
    assert(entries.contains(entry) <==> entries.to_multiset().count(entry) > 0);
}

/// There is one way only to put entries of different names in order: two
/// sorted sequences that hold the same entries are the same sequence.
pub proof fn lemma_sorted_is_unique(x: Seq<TreeEntry>, y: Seq<TreeEntry>)
    requires
        is_sorted(x),
        is_sorted(y),
        distinct_paths(x),
        distinct_paths(y),
        forall|e: TreeEntry| x.contains(e) <==> y.contains(e),
    ensures
        x == y,
    decreases x.len(),
{
    if x.len() == 0 {
        if y.len() > 0 {
            assert(y.contains(y[0]));
            assert(x.contains(y[0]));
        }
        assert(x =~= y);
    } else {
        let m = x.last();
        assert(x.contains(m)) by {
            assert(x[x.len() - 1] == m);
        }
        assert(y.contains(m));
        let j = choose|j: int| 0 <= j < y.len() && y[j] == m;
        let n = y.last();
        assert(y.contains(n)) by {
            assert(y[y.len() - 1] == n);
        }
        assert(x.contains(n));
        let i = choose|i: int| 0 <= i < x.len() && x[i] == n;
        if i < x.len() - 1 {
            assert(x[i].path != x[x.len() - 1].path);
            lemma_comes_before_total(n, m);
            assert(!comes_before(x[x.len() - 1], x[i]));
            assert(comes_before(n, m));
            if j < y.len() - 1 {
                assert(!comes_before(y[y.len() - 1], y[j]));
            }
            assert(false);
        }
        assert(m == n);
        let xs = x.drop_last();
        let ys = y.drop_last();
        assert forall|e: TreeEntry| xs.contains(e) <==> ys.contains(e) by {
            if xs.contains(e) {
                let k = choose|k: int| 0 <= k < xs.len() && xs[k] == e;
                assert(x[k] == e);
                assert(x[k].path != x[x.len() - 1].path);
                assert(x.contains(e));
                assert(y.contains(e));
                let l = choose|l: int| 0 <= l < y.len() && y[l] == e;
                assert(ys[l] == e);
            }
            if ys.contains(e) {
                let k = choose|k: int| 0 <= k < ys.len() && ys[k] == e;
                assert(y[k] == e);
                assert(y[k].path != y[y.len() - 1].path);
                assert(y.contains(e));
                assert(x.contains(e));
                let l = choose|l: int| 0 <= l < x.len() && x[l] == e;
                assert(xs[l] == e);
            }
        }
        assert forall|a: int, b: int| 0 <= a < b < xs.len() implies !comes_before(
            #[trigger] xs[b],
            #[trigger] xs[a],
        ) by {
            assert(xs[a] == x[a] && xs[b] == x[b]);
        }
        assert forall|a: int, b: int| 0 <= a < b < ys.len() implies !comes_before(
            #[trigger] ys[b],
            #[trigger] ys[a],
        ) by {
            assert(ys[a] == y[a] && ys[b] == y[b]);
        }
        assert forall|a: int, b: int| 0 <= a < b < xs.len() implies (#[trigger] xs[a]).path != (
        #[trigger] xs[b]).path by {
            assert(xs[a] == x[a] && xs[b] == x[b]);
        }
        assert forall|a: int, b: int| 0 <= a < b < ys.len() implies (#[trigger] ys[a]).path != (
        #[trigger] ys[b]).path by {
            assert(ys[a] == y[a] && ys[b] == y[b]);
        }
        lemma_sorted_is_unique(xs, ys);
        assert(xs.push(m) =~= x);
        assert(ys.push(m) =~= y);
    }
}

/// Sorting entries of different names leaves their names different.
pub proof fn lemma_sort_keeps_distinct(entries: Seq<TreeEntry>)
    requires
        distinct_paths(entries),
    ensures
        distinct_paths(sort_entries(entries)),
{
    let sorted = sort_entries(entries);
    lemma_sort_entries(entries);
    assert(entries.no_duplicates()) by {
        assert forall|i: int, j: int|
            0 <= i < entries.len() && 0 <= j < entries.len() && i != j implies entries[i]
            != entries[j] by {
            if i < j {
                assert(entries[i].path != entries[j].path);
            } else {
                assert(entries[j].path != entries[i].path);
            }
        }
    }
    entries.lemma_multiset_has_no_duplicates();
    sorted.lemma_multiset_has_no_duplicates_conv();
    sorted.to_multiset_ensures();
    entries.to_multiset_ensures();
    assert forall|i: int, j: int| 0 <= i < j < sorted.len() implies (#[trigger] sorted[i]).path
        != (#[trigger] sorted[j]).path by {
        assert(sorted[i] != sorted[j]);
        assert(sorted.contains(sorted[i]));
        assert(sorted.contains(sorted[j]));
        assert(sorted.to_multiset().count(sorted[i]) > 0);
        assert(sorted.to_multiset().count(sorted[j]) > 0);
        assert(entries.to_multiset().count(sorted[i]) > 0);
        assert(entries.to_multiset().count(sorted[j]) > 0);
        assert(entries.contains(sorted[i]));
        assert(entries.contains(sorted[j]));
        let a = choose|a: int| 0 <= a < entries.len() && entries[a] == sorted[i];
        let b = choose|b: int| 0 <= b < entries.len() && entries[b] == sorted[j];
        if a < b {
            assert(entries[a].path != entries[b].path);
        } else {
            assert(entries[b].path != entries[a].path);
        }
    }
}

/// The order in which entries of different names are given does not matter:
/// the same entries in any order are sorted into the same sequence.
pub proof fn lemma_sort_ignores_order(x: Seq<TreeEntry>, y: Seq<TreeEntry>)
    requires
        distinct_paths(x),
        distinct_paths(y),
        forall|e: TreeEntry| x.contains(e) <==> y.contains(e),
    ensures
        sort_entries(x) == sort_entries(y),
{
    lemma_sort_entries(x);
    lemma_sort_entries(y);
    lemma_sort_keeps_distinct(x);
    lemma_sort_keeps_distinct(y);
    assert forall|e: TreeEntry| sort_entries(x).contains(e) <==> sort_entries(y).contains(e) by {
        lemma_sort_keeps_entries(x, e);
        lemma_sort_keeps_entries(y, e);
    }
    lemma_sorted_is_unique(sort_entries(x), sort_entries(y));
}

/// The entries of a tree, in the order in which they are written.
#[derive(Debug, Clone)]
pub struct TreeLines(pub Vec<TreeLine>);

impl View for TreeLines {
    type V = Seq<TreeEntry>;

    open spec fn view(&self) -> Seq<TreeEntry> {
        entries_of(self.0@)
    }
}

impl TreeLines {
    /// The tree of the given lines, in the given order.
    pub fn new(lines: Vec<TreeLine>) -> (tree: Self)
        ensures
            tree.0 == lines,
            tree@ == entries_of(lines@),
    {
        Self(lines)
    }

    /// Reads the payload of a tree. No bytes give no entries. Fails with
    /// `Error::MalformedTree` exactly where some entry cannot be read: its
    /// space or its NUL is missing, fewer than twenty bytes follow the NUL,
    /// or its mode is not one of the two.
    pub fn from_bytes(bytes: &[u8]) -> (res: Result<Self, Error>)
        ensures
            match res {
                Ok(tree) => decode_entries(bytes@) == Some(tree@),
                Err(e) => e == Error::MalformedTree && decode_entries(bytes@).is_none(),
            },
    {
        let mut lines: Vec<TreeLine> = Vec::new();
        let mut pos: usize = 0;
        proof {
            assert(bytes@.skip(0) =~= bytes@);
            assert(entries_of(lines@) =~= Seq::<TreeEntry>::empty());
            lemma_followed_by_nothing(decode_entries(bytes@));
        }
        while pos < bytes.len()
            invariant
                pos <= bytes@.len(),
                decode_entries(bytes@) == followed_by(
                    entries_of(lines@),
                    decode_entries(bytes@.skip(pos as int)),
                ),
            decreases bytes@.len() - pos,
        {
            let ghost left = bytes@.skip(pos as int);
            let ghost done = entries_of(lines@);
            let space = find_from(bytes, pos, 32u8);
            if space >= bytes.len() {
                return Err(Error::MalformedTree);
            }
            let nul = find_from(bytes, space + 1, 0u8);
            proof {
                assert(left.skip(space - pos + 1) =~= bytes@.skip(space + 1));
            }
            if nul >= bytes.len() {
                return Err(Error::MalformedTree);
            }
            if bytes.len() - (nul + 1) < HASH_BYTES_LENGTH {
                return Err(Error::MalformedTree);
            }
            let end = nul + 1 + HASH_BYTES_LENGTH;
            proof {
                let rest = left.skip(space - pos + 1);
                assert(left.take(space - pos) =~= bytes@.subrange(pos as int, space as int));
                assert(rest.take(nul - space - 1) =~= bytes@.subrange(space + 1, nul as int));
                assert(rest.subrange(nul - space, nul - space + HASH_BYTES_LENGTH)
                    =~= bytes@.subrange(nul + 1, end as int));
                assert(left.skip(end - pos) =~= bytes@.skip(end as int));
            }
            let mode = if range_is(bytes, pos, space, Mode::File.as_str().as_bytes()) {
                Mode::File
            } else if range_is(bytes, pos, space, Mode::Folder.as_str().as_bytes()) {
                Mode::Folder
            } else {
                return Err(Error::MalformedTree);
            };
            let name = copy_range(bytes, space + 1, nul);
            let path = read_text(name.as_slice());
            let hash = copy_range(bytes, nul + 1, end);
            let line = TreeLine::new(mode, path, hash);
            proof {
                let entry = line@;
                assert(decode_first(left) == Some((entry, end - pos)));
                assert(entries_of(lines@.push(line)) =~= done.push(entry));
                lemma_followed_by_more(done, entry, decode_entries(bytes@.skip(end as int)));
            }
            lines.push(line);
            pos = end;
        }
        proof {
            assert(bytes@.skip(pos as int).len() == 0);
            assert(entries_of(lines@) + Seq::<TreeEntry>::empty() =~= entries_of(lines@));
        }
        Ok(TreeLines::new(lines))
    }

    /// The tree of the given lines in the order of their names, byte by
    /// byte. Lines of the same name keep the order in which they were given.
    pub fn sorted(lines: Vec<TreeLine>) -> (tree: Self)
        ensures
            tree@ == sort_entries(entries_of(lines@)),
    {
        let ghost given = entries_of(lines@);
        let mut rest = lines;
        let mut out: Vec<TreeLine> = Vec::new();
        let ghost mut done: int = 0;
        proof {
            assert(given.skip(0) =~= given);
            assert(entries_of(out@) =~= Seq::<TreeEntry>::empty());
            assert(given.take(0) =~= Seq::<TreeEntry>::empty());
        }
        while rest.len() > 0
            invariant
                0 <= done <= given.len(),
                rest@.len() == given.len() - done,
                entries_of(rest@) == given.skip(done),
                entries_of(out@) == sort_entries(given.take(done)),
            decreases rest@.len(),
        {
            let ghost before = entries_of(rest@);
            let ghost lines_before = rest@;
            let ghost sorted = entries_of(out@);
            let line = rest.remove(0);
            proof {
                assert(line@ == before[0]);
                assert(before[0] == given[done]);
                assert forall|i: int| 0 <= i < rest@.len() implies entries_of(rest@)[i]
                    == given.skip(done + 1)[i] by {
                    assert(rest@[i] == lines_before[i + 1]);
                    assert(before[i + 1] == lines_before[i + 1]@);
                    assert(before[i + 1] == given[done + i + 1]);
                }
                assert(entries_of(rest@) =~= given.skip(done + 1));
                assert(given.take(done + 1).drop_last() =~= given.take(done));
                assert(given.take(done + 1).last() == given[done]);
            }
            let mut at: usize = 0;
            while at < out.len() && !less_than(
                line.path.as_str().as_bytes(),
                out[at].path.as_str().as_bytes(),
            )
                invariant
                    at <= out@.len(),
                    sorted == entries_of(out@),
                    forall|j: int| 0 <= j < at ==> !comes_before(line@, #[trigger] sorted[j]),
                decreases out@.len() - at,
            {
                at = at + 1;
            }
            proof {
                lemma_slot_is(sorted, line@, at as int);
            }
            out.insert(at, line);
            proof {
                assert(entries_of(out@) =~= sorted.insert(at as int, line@));
                done = done + 1;
            }
        }
        proof {
            assert(given.take(done) =~= given);
        }
        TreeLines(out)
    }

    /// The payload of the tree: the bytes of each line, in order.
    pub fn to_bytes(&self) -> (bytes: Vec<u8>)
        ensures
            bytes@ == encode_entries(self@),
    {
        let mut bytes: Vec<u8> = Vec::new();
        let mut i: usize = 0;
        while i < self.0.len()
            invariant
                i <= self.0@.len(),
                bytes@ == encode_entries(self@.take(i as int)),
            decreases self.0@.len() - i,
        {
            let line = self.0[i].to_bytes();
            proof {
                assert(self@.take(i + 1) =~= self@.take(i as int).push(self@[i as int]));
                lemma_encode_push(self@.take(i as int), self@[i as int]);
            }
            extend(&mut bytes, line.as_slice());
            i = i + 1;
        }
        assert(self@.take(i as int) =~= self@);
        bytes
    }
}

/// Nothing in front of entries changes nothing.
proof fn lemma_followed_by_nothing(rest: Option<Seq<TreeEntry>>)
    ensures
        followed_by(Seq::empty(), rest) == rest,
{
    if let Some(more) = rest {
        assert(Seq::<TreeEntry>::empty() + more =~= more);
    }
}

/// Moving the first of the remaining entries to the end of those in front
/// changes nothing.
proof fn lemma_followed_by_more(
    done: Seq<TreeEntry>,
    entry: TreeEntry,
    rest: Option<Seq<TreeEntry>>,
)
    ensures
        followed_by(done, followed_by(seq![entry], rest)) == followed_by(done.push(entry), rest),
{
    if let Some(more) = rest {
        assert(done + (seq![entry] + more) =~= done.push(entry) + more);
    }
}

} // verus!
