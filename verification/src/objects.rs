use vstd::prelude::*;

use vstd::utf8::{decode_utf8, valid_utf8};

use crate::errors::HarvestError;
use crate::ext::string_from_utf8;
use crate::ids::{hex_to_bytes, is_hex40, ObjectId};
use crate::pack::DecodedObject;
use crate::text::{ascii_bytes, eq_bytes, str_bytes};

verus! {

/// The first value stored under `k` in an association list.
pub open spec fn assoc_find<V>(m: Seq<(Seq<u8>, V)>, k: Seq<u8>) -> Option<V>
    decreases m.len(),
{
    if m.len() == 0 {
        None
    } else if m.first().0 == k {
        Some(m.first().1)
    } else {
        assoc_find(m.drop_first(), k)
    }
}

/// The first position at or after `i` holding byte `c`, or the length.
pub open spec fn find_byte(b: Seq<u8>, i: int, c: u8) -> int
    decreases b.len() - i,
    when 0 <= i <= b.len()
{
    if i >= b.len() {
        b.len() as int
    } else if b[i] == c {
        i
    } else {
        find_byte(b, i + 1, c)
    }
}

pub proof fn lemma_find_byte_bounds(b: Seq<u8>, i: int, c: u8)
    requires
        0 <= i <= b.len(),
    ensures
        i <= find_byte(b, i, c) <= b.len(),
        find_byte(b, i, c) < b.len() ==> b[find_byte(b, i, c)] == c,
        forall|j: int| i <= j < find_byte(b, i, c) ==> b[j] != c,
    decreases b.len() - i,
{
    if i < b.len() && b[i] != c {
        lemma_find_byte_bounds(b, i + 1, c);
    }
}

/// Finds a byte.  Mirrors `find_byte`.
pub fn find_byte_exec(b: &[u8], i: usize, c: u8) -> (r: usize)
    requires
        i <= b@.len(),
    ensures
        r == find_byte(b@, i as int, c),
        i <= r <= b@.len(),
{
    proof {
        lemma_find_byte_bounds(b@, i as int, c);
    }
    let mut j = i;
    while j < b.len()
        invariant
            i <= j <= b@.len(),
            forall|k: int| i <= k < j ==> b@[k] != c,
        decreases b@.len() - j,
    {
        if b[j] == c {
            proof {
                lemma_find_byte_last(b@, i as int, j as int, c);
            }
            return j;
        }
        j = j + 1;
    }
    proof {
        lemma_find_byte_none(b@, i as int, c);
    }
    b.len()
}

proof fn lemma_find_byte_last(b: Seq<u8>, i: int, j: int, c: u8)
    requires
        0 <= i <= j < b.len(),
        b[j] == c,
        forall|k: int| i <= k < j ==> b[k] != c,
    ensures
        find_byte(b, i, c) == j,
    decreases j - i,
{
    if i < j {
        lemma_find_byte_last(b, i + 1, j, c);
    }
}

proof fn lemma_find_byte_none(b: Seq<u8>, i: int, c: u8)
    requires
        0 <= i <= b.len(),
        forall|k: int| i <= k < b.len() ==> b[k] != c,
    ensures
        find_byte(b, i, c) == b.len(),
    decreases b.len() - i,
{
    if i < b.len() {
        lemma_find_byte_none(b, i + 1, c);
    }
}

/// The last position in `[s, e)` holding a space, or `None`.
pub open spec fn rfind_space(b: Seq<u8>, s: int, e: int) -> Option<int>
    decreases e - s,
    when s <= e
{
    if e <= s {
        None
    } else if 0 <= e - 1 < b.len() && b[e - 1] == 32 {
        Some(e - 1)
    } else {
        rfind_space(b, s, e - 1)
    }
}

/// The value of a run of decimal digits.
pub open spec fn digits_val(b: Seq<u8>, s: int, e: int) -> nat
    decreases e - s,
    when s <= e
{
    if e <= s {
        0
    } else if 0 <= e - 1 < b.len() {
        (digits_val(b, s, e - 1) * 10 + (b[e - 1] - 48)) as nat
    } else {
        0
    }
}

/// Whether `[s, e)` is a non-empty run of decimal digits.
pub open spec fn all_digits(b: Seq<u8>, s: int, e: int) -> bool {
    s < e <= b.len() && 0 <= s && forall|j: int| s <= j < e ==> 48 <= #[trigger] b[j] <= 57
}

/// A decimal integer with an optional leading minus sign, provided its
/// value fits a signed 64-bit word.
pub open spec fn parse_i64(b: Seq<u8>, s: int, e: int) -> Option<int> {
    if 0 <= s < e <= b.len() && b[s] == 45 {
        if all_digits(b, s + 1, e) && digits_val(b, s + 1, e) <= 0x8000000000000000 {
            Some(-(digits_val(b, s + 1, e) as int))
        } else {
            None
        }
    } else if all_digits(b, s, e) && digits_val(b, s, e) < 0x8000000000000000 {
        Some(digits_val(b, s, e) as int)
    } else {
        None
    }
}

/// The tree named on the first line of a commit, which must read
/// `tree <40-hex>` and end with a line feed.
pub open spec fn commit_tree(b: Seq<u8>) -> Option<Seq<u8>> {
    if b.len() >= 46 && b.take(5) == ascii_bytes("tree "@) && is_hex40(b.subrange(5, 45)) && b[45]
        == 10 {
        Some(hex_to_bytes(b.subrange(5, 45)))
    } else {
        None
    }
}

/// The first line at or after `i` that opens with `committer `, as its
/// start and end positions.
pub open spec fn find_committer_line(b: Seq<u8>, i: int) -> Option<(int, int)>
    decreases b.len() - i,
    when 0 <= i <= b.len()
{
    if i >= b.len() {
        None
    } else {
        let e = find_byte(b, i, 10);
        if !(i <= e <= b.len()) {
            None
        } else if e - i >= 10 && b.subrange(i, i + 10) == ascii_bytes("committer "@) {
            Some((i, e))
        } else if e + 1 > b.len() {
            None
        } else {
            find_committer_line(b, e + 1)
        }
    }
}

/// The committer epoch of a commit body: on the first `committer ` line,
/// the second-to-last space-separated token, read as a decimal integer;
/// the last token is the time-zone offset.
pub open spec fn commit_time(b: Seq<u8>) -> Option<int> {
    match find_committer_line(b, 0) {
        None => None,
        Some((s, e)) => match rfind_space(b, s, e) {
            None => None,
            Some(tz_sp) => match rfind_space(b, s, tz_sp) {
                None => None,
                Some(ep_sp) => parse_i64(b, ep_sp + 1, tz_sp),
            },
        },
    }
}

/// What a commit contributes to the extraction: its tree and its
/// committer epoch.  A commit missing either is a fatal shape failure.
pub open spec fn parse_commit(b: Seq<u8>) -> Option<(Seq<u8>, int)> {
    match commit_tree(b) {
        None => None,
        Some(tree) => match commit_time(b) {
            None => None,
            Some(t) => Some((tree, t)),
        },
    }
}

/// The `.SRCINFO` blob of a tree: scanning entries shaped
/// `<mode> <name>\0<20-byte id>`, the id of the first entry named
/// `.SRCINFO` whose mode is a plain or executable file.
pub open spec fn tree_find_srcinfo(b: Seq<u8>, i: int) -> Option<Seq<u8>>
    decreases b.len() - i,
    when 0 <= i <= b.len()
{
    if i >= b.len() {
        None
    } else {
        let sp = find_byte(b, i, 32);
        if !(i <= sp <= b.len()) || sp >= b.len() {
            None
        } else {
            let nul = find_byte(b, sp + 1, 0);
            if !(sp + 1 <= nul <= b.len()) || nul + 21 > b.len() {
                None
            } else {
                let mode = b.subrange(i, sp);
                let name = b.subrange(sp + 1, nul);
                let oid = b.subrange(nul + 1, nul + 21);
                if name == ascii_bytes(".SRCINFO"@) && (mode == ascii_bytes("100644"@) || mode
                    == ascii_bytes("100755"@)) {
                    Some(oid)
                } else {
                    tree_find_srcinfo(b, nul + 21)
                }
            }
        }
    }
}

/// The commits of a decoded pack, each with its tree and epoch, in pack
/// order; meaningful only when no commit is malformed.
pub open spec fn commit_map(objs: Seq<(Seq<u8>, u8, Seq<u8>)>) -> Seq<(Seq<u8>, (Seq<u8>, int))>
    decreases objs.len(),
{
    if objs.len() == 0 {
        Seq::empty()
    } else {
        let rest = commit_map(objs.drop_first());
        let o = objs.first();
        if o.1 == 1 {
            match parse_commit(o.2) {
                Some(p) => seq![(o.0, p)] + rest,
                None => rest,
            }
        } else {
            rest
        }
    }
}

/// The id of the first malformed commit of a decoded pack, if any.
pub open spec fn first_bad_commit(objs: Seq<(Seq<u8>, u8, Seq<u8>)>) -> Option<Seq<u8>>
    decreases objs.len(),
{
    if objs.len() == 0 {
        None
    } else {
        let o = objs.first();
        if o.1 == 1 && parse_commit(o.2) is None {
            Some(o.0)
        } else {
            first_bad_commit(objs.drop_first())
        }
    }
}

/// The trees of a decoded pack that carry a `.SRCINFO` blob, as
/// `(tree id, blob id)` in pack order.
pub open spec fn tree_map(objs: Seq<(Seq<u8>, u8, Seq<u8>)>) -> Seq<(Seq<u8>, Seq<u8>)>
    decreases objs.len(),
{
    if objs.len() == 0 {
        Seq::empty()
    } else {
        let rest = tree_map(objs.drop_first());
        let o = objs.first();
        if o.1 == 2 {
            match tree_find_srcinfo(o.2, 0) {
                Some(blob) => seq![(o.0, blob)] + rest,
                None => rest,
            }
        } else {
            rest
        }
    }
}

/// The commits joined with their trees: each commit whose tree carries a
/// `.SRCINFO` blob maps to that blob and its epoch; the others are
/// silently omitted.
pub open spec fn join_srcinfo(
    commits: Seq<(Seq<u8>, (Seq<u8>, int))>,
    trees: Seq<(Seq<u8>, Seq<u8>)>,
) -> Seq<(Seq<u8>, (Seq<u8>, int))>
    decreases commits.len(),
{
    if commits.len() == 0 {
        Seq::empty()
    } else {
        let rest = join_srcinfo(commits.drop_first(), trees);
        let c = commits.first();
        match assoc_find(trees, c.1.0) {
            Some(blob) => seq![(c.0, (blob, c.1.1))] + rest,
            None => rest,
        }
    }
}

/// The UTF-8 blobs of a decoded pack, as `(blob id, text)` in pack order;
/// a blob that is not UTF-8 text is skipped, never fatal.
pub open spec fn blob_map(objs: Seq<(Seq<u8>, u8, Seq<u8>)>) -> Seq<(Seq<u8>, Seq<char>)>
    decreases objs.len(),
{
    if objs.len() == 0 {
        Seq::empty()
    } else {
        let rest = blob_map(objs.drop_first());
        let o = objs.first();
        if o.1 == 3 && valid_utf8(o.2) {
            seq![(o.0, decode_utf8(o.2))] + rest
        } else {
            rest
        }
    }
}


/// Parses a commit body.  Mirrors `parse_commit`.
fn parse_commit_exec(b: &[u8]) -> (r: Option<(ObjectId, i64)>)
    ensures
        match r {
            Some(p) => parse_commit(b@) == Some((p.0@, p.1 as int)) && p.0.wf(),
            None => parse_commit(b@) is None,
        },
{
    proof {
        reveal_strlit("tree ");
        assert(vstd::string::is_ascii("tree ")) by {
            assert forall|i: int| 0 <= i < "tree "@.len() implies ("tree "@[i] as u32) < 128 by {}
        }
    }
    if b.len() < 46 {
        assert(commit_tree(b@) is None) by {
            assert(b@.len() < 46);
        }
        return None;
    }
    let head = vstd::slice::slice_subrange(b, 0, 5);
    if !eq_bytes(head, str_bytes("tree ")) {
        assert(b@.take(5) != ascii_bytes("tree "@));
        return None;
    }
    let hex = vstd::slice::slice_subrange(b, 5, 45);
    let tree = match ObjectId::from_hex(hex) {
        Ok(id) => id,
        Err(_) => {
            assert(commit_tree(b@) is None);
            return None;
        },
    };
    if b[45] != 10 {
        return None;
    }
    assert(commit_tree(b@) == Some(hex_to_bytes(b@.subrange(5, 45))));
    let time = match commit_time_exec(b) {
        Some(t) => t,
        None => {
            return None;
        },
    };
    Some((tree, time))
}

/// Finds the `committer ` line.  Mirrors `find_committer_line`.
fn find_committer_line_exec(b: &[u8], i: usize) -> (r: Option<(usize, usize)>)
    requires
        i <= b@.len(),
    ensures
        match r {
            Some(p) => find_committer_line(b@, i as int) == Some((p.0 as int, p.1 as int)) && p.0
                <= p.1 <= b@.len(),
            None => find_committer_line(b@, i as int) is None,
        },
    decreases b@.len() - i,
{
    proof {
        reveal_strlit("committer ");
        assert(vstd::string::is_ascii("committer ")) by {
            assert forall|k: int|
                0 <= k < "committer "@.len() implies ("committer "@[k] as u32) < 128 by {}
        }
    }
    if i >= b.len() {
        return None;
    }
    let e = find_byte_exec(b, i, 10);
    if e - i >= 10 {
        let head = vstd::slice::slice_subrange(b, i, i + 10);
        if eq_bytes(head, str_bytes("committer ")) {
            return Some((i, e));
        }
    }
    if e >= b.len() {
        assert(find_committer_line(b@, i as int) is None);
        return None;
    }
    find_committer_line_exec(b, e + 1)
}

/// Finds the last space.  Mirrors `rfind_space`.
fn rfind_space_exec(b: &[u8], s: usize, e: usize) -> (r: Option<usize>)
    requires
        s <= e <= b@.len(),
    ensures
        match r {
            Some(p) => rfind_space(b@, s as int, e as int) == Some(p as int) && s <= p < e,
            None => rfind_space(b@, s as int, e as int) is None,
        },
    decreases e - s,
{
    if e <= s {
        return None;
    }
    if b[e - 1] == 32 {
        return Some(e - 1);
    }
    rfind_space_exec(b, s, e - 1)
}

/// Reads a decimal integer.  Mirrors `parse_i64`.
fn parse_i64_exec(b: &[u8], s: usize, e: usize) -> (r: Option<i64>)
    requires
        s <= e <= b@.len(),
    ensures
        match r {
            Some(v) => parse_i64(b@, s as int, e as int) == Some(v as int),
            None => parse_i64(b@, s as int, e as int) is None,
        },
{
    if s < e && b[s] == 45 {
        match parse_digits_exec(b, s + 1, e) {
            Some(v) => if v <= 0x8000000000000000u64 {
                if v == 0x8000000000000000u64 {
                    Some(i64::MIN)
                } else {
                    Some(-(v as i64))
                }
            } else {
                None
            },
            None => None,
        }
    } else {
        match parse_digits_exec(b, s, e) {
            Some(v) => if v < 0x8000000000000000u64 {
                Some(v as i64)
            } else {
                None
            },
            None => None,
        }
    }
}

/// Reads a non-empty digit run, refusing values at or above 2^63.
fn parse_digits_exec(b: &[u8], s: usize, e: usize) -> (r: Option<u64>)
    requires
        s <= e <= b@.len(),
    ensures
        match r {
            Some(v) => all_digits(b@, s as int, e as int) && digits_val(b@, s as int, e as int)
                == v as nat && v <= 0x8000000000000000u64,
            None => !(all_digits(b@, s as int, e as int) && digits_val(b@, s as int, e as int)
                <= 0x8000000000000000),
        },
{
    if s >= e {
        return None;
    }
    let mut v: u64 = 0;
    let mut j = s;
    while j < e
        invariant
            s <= j <= e <= b@.len(),
            s < e,
            all_digits(b@, s as int, j as int) || j == s,
            forall|k: int| s <= k < j ==> 48 <= #[trigger] b@[k] <= 57,
            digits_val(b@, s as int, j as int) == v as nat,
            v <= 0x8000000000000000u64,
        decreases e - j,
    {
        let c = b[j];
        if !(48 <= c && c <= 57) {
            assert(!all_digits(b@, s as int, e as int));
            return None;
        }
        if v > 0xCCCCCCCCCCCCCCCu64 || (v == 0xCCCCCCCCCCCCCCCu64 && c > 56) {
            proof {
                lemma_digits_val_grows(b@, s as int, j as int, e as int);
            }
            return None;
        }
        v = v * 10 + ((c - 48) as u64);
        j = j + 1;
    }
    Some(v)
}

/// A digit run's value never shrinks as it extends.
proof fn lemma_digits_val_grows(b: Seq<u8>, s: int, j: int, e: int)
    requires
        0 <= s <= j < e <= b.len(),
        48 <= b[j] <= 57,
        forall|k: int| s <= k < j ==> 48 <= #[trigger] b[k] <= 57,
        digits_val(b, s, j) * 10 + (b[j] - 48) > 0x8000000000000000,
    ensures
        !(all_digits(b, s, e) && digits_val(b, s, e) <= 0x8000000000000000),
    decreases e - j,
{
    if all_digits(b, s, e) {
        lemma_digits_val_monotone(b, s, j + 1, e);
        assert(digits_val(b, s, j + 1) == (digits_val(b, s, j) * 10 + (b[j] - 48)) as nat);
    }
}

/// Appending digits never shrinks the value.
proof fn lemma_digits_val_monotone(b: Seq<u8>, s: int, j: int, e: int)
    requires
        0 <= s <= j <= e <= b.len(),
        forall|k: int| s <= k < e ==> 48 <= #[trigger] b[k] <= 57,
    ensures
        digits_val(b, s, e) >= digits_val(b, s, j),
    decreases e - j,
{
    if j < e {
        lemma_digits_val_monotone(b, s, j + 1, e);
        assert(digits_val(b, s, j + 1) == (digits_val(b, s, j) * 10 + (b[j] - 48)) as nat) by {
            assert(0 <= j < b.len());
        }
        assert(digits_val(b, s, j) * 10 >= digits_val(b, s, j)) by (nonlinear_arith)
            requires
                digits_val(b, s, j) >= 0,
        ;
    }
}

/// Reads the committer epoch.  Mirrors `commit_time`.
fn commit_time_exec(b: &[u8]) -> (r: Option<i64>)
    ensures
        match r {
            Some(t) => commit_time(b@) == Some(t as int),
            None => commit_time(b@) is None,
        },
{
    let (s, e) = match find_committer_line_exec(b, 0) {
        Some(p) => p,
        None => {
            return None;
        },
    };
    let tz_sp = match rfind_space_exec(b, s, e) {
        Some(p) => p,
        None => {
            return None;
        },
    };
    let ep_sp = match rfind_space_exec(b, s, tz_sp) {
        Some(p) => p,
        None => {
            return None;
        },
    };
    parse_i64_exec(b, ep_sp + 1, tz_sp)
}

/// Finds a tree's `.SRCINFO` blob.  Mirrors `tree_find_srcinfo`.
fn tree_find_srcinfo_exec(b: &[u8], i: usize) -> (r: Option<ObjectId>)
    requires
        i <= b@.len(),
    ensures
        match r {
            Some(id) => tree_find_srcinfo(b@, i as int) == Some(id@) && id.wf(),
            None => tree_find_srcinfo(b@, i as int) is None,
        },
    decreases b@.len() - i,
{
    proof {
        reveal_strlit(".SRCINFO");
        reveal_strlit("100644");
        reveal_strlit("100755");
        assert(vstd::string::is_ascii(".SRCINFO")) by {
            assert forall|k: int|
                0 <= k < ".SRCINFO"@.len() implies (".SRCINFO"@[k] as u32) < 128 by {}
        }
        assert(vstd::string::is_ascii("100644")) by {
            assert forall|k: int| 0 <= k < "100644"@.len() implies ("100644"@[k] as u32) < 128 by {}
        }
        assert(vstd::string::is_ascii("100755")) by {
            assert forall|k: int| 0 <= k < "100755"@.len() implies ("100755"@[k] as u32) < 128 by {}
        }
    }
    if i >= b.len() {
        return None;
    }
    let sp = find_byte_exec(b, i, 32);
    if sp >= b.len() {
        return None;
    }
    let nul = find_byte_exec(b, sp + 1, 0);
    if b.len() - nul < 21 {
        return None;
    }
    let mode = vstd::slice::slice_subrange(b, i, sp);
    let name = vstd::slice::slice_subrange(b, sp + 1, nul);
    if eq_bytes(name, str_bytes(".SRCINFO")) && (eq_bytes(mode, str_bytes("100644")) || eq_bytes(
        mode,
        str_bytes("100755"),
    )) {
        let oid = vstd::slice::slice_subrange(b, nul + 1, nul + 21);
        assert(oid@.len() == 20);
        let mut bytes: Vec<u8> = Vec::new();
        let mut k: usize = 0;
        while k < 20
            invariant
                nul + 21 <= b@.len(),
                oid@ == b@.subrange(nul + 1, nul + 21),
                oid@.len() == 20,
                k <= 20,
                bytes@ == oid@.take(k as int),
            decreases 20 - k,
        {
            bytes.push(oid[k]);
            assert(bytes@ =~= oid@.take(k + 1));
            k = k + 1;
        }
        assert(bytes@ =~= oid@);
        return Some(ObjectId::from_bytes(bytes));
    }
    tree_find_srcinfo_exec(b, nul + 21)
}


/// The mathematical view of a commit extraction map.
pub open spec fn commit_pairs_view(v: Seq<(ObjectId, (ObjectId, i64))>) -> Seq<
    (Seq<u8>, (Seq<u8>, int)),
> {
    v.map_values(|p: (ObjectId, (ObjectId, i64))| (p.0@, (p.1.0@, p.1.1 as int)))
}

/// The mathematical view of a tree map.
pub open spec fn tree_pairs_view(v: Seq<(ObjectId, ObjectId)>) -> Seq<(Seq<u8>, Seq<u8>)> {
    v.map_values(|p: (ObjectId, ObjectId)| (p.0@, p.1@))
}

/// The mathematical view of a blob content map.
pub open spec fn blob_pairs_view(v: Seq<(ObjectId, String)>) -> Seq<(Seq<u8>, Seq<char>)> {
    v.map_values(|p: (ObjectId, String)| (p.0@, p.1@))
}

/// The view of a decoded object sequence.
pub open spec fn objs_view(objs: Seq<DecodedObject>) -> Seq<(Seq<u8>, u8, Seq<u8>)> {
    objs.map_values(|o: DecodedObject| o@)
}

/// Looks a tree id up in the tree map.  Mirrors `assoc_find`.
fn find_tree_exec(trees: &Vec<(ObjectId, ObjectId)>, key: &ObjectId) -> (r: Option<ObjectId>)
    ensures
        match r {
            Some(blob) => assoc_find(tree_pairs_view(trees@), key@) == Some(blob@),
            None => assoc_find(tree_pairs_view(trees@), key@) is None,
        },
{
    let ghost tv = tree_pairs_view(trees@);
    let mut i: usize = 0;
    while i < trees.len()
        invariant
            i <= trees@.len(),
            tv == tree_pairs_view(trees@),
            forall|j: int| 0 <= j < i ==> (#[trigger] tv[j]).0 != key@,
        decreases trees@.len() - i,
    {
        if trees[i].0.eq_id(key) {
            assert(tv[i as int].0 == key@);
            proof {
                lemma_assoc_find_hits(tv, key@, i as int);
            }
            return Some(trees[i].1.duplicate());
        }
        assert(tv[i as int].0 != key@);
        i = i + 1;
    }
    proof {
        lemma_assoc_find_misses(tv, key@);
    }
    None
}

/// When `k` first occurs at `i`, the find returns that value.
pub proof fn lemma_assoc_find_hits<V>(m: Seq<(Seq<u8>, V)>, k: Seq<u8>, i: int)
    requires
        0 <= i < m.len(),
        m[i].0 == k,
        forall|j: int| 0 <= j < i ==> (#[trigger] m[j]).0 != k,
    ensures
        assoc_find(m, k) == Some(m[i].1),
    decreases i,
{
    if i > 0 {
        lemma_assoc_find_hits(m.drop_first(), k, i - 1);
    }
}

/// When `k` is absent, the find fails.
pub proof fn lemma_assoc_find_misses<V>(m: Seq<(Seq<u8>, V)>, k: Seq<u8>)
    requires
        forall|j: int| 0 <= j < m.len() ==> (#[trigger] m[j]).0 != k,
    ensures
        assoc_find(m, k) is None,
    decreases m.len(),
{
    if m.len() > 0 {
        lemma_assoc_find_misses(m.drop_first(), k);
    }
}

/// Builds the commit-to-blob-and-timestamp map of a decoded pack: every
/// commit must name a tree and a committer epoch, each tree may name a
/// `.SRCINFO` blob, and each commit whose tree names one is kept, in pack
/// order.  A malformed commit is fatal, with its id attached.
pub fn map_commit_id_to_srcinfo_blob_id_and_timestamp(objs: &Vec<DecodedObject>) -> (r: Result<
    Vec<(ObjectId, (ObjectId, i64))>,
    HarvestError,
>)
    ensures
        r matches Ok(v) ==> first_bad_commit(objs_view(objs@)) is None && commit_pairs_view(v@)
            == join_srcinfo(commit_map(objs_view(objs@)), tree_map(objs_view(objs@))),
        r matches Err(e) ==> e matches HarvestError::CommitShape(id) && first_bad_commit(
            objs_view(objs@),
        ) == Some(id@),
{
    let ghost ov = objs_view(objs@);
    let mut commits: Vec<(ObjectId, (ObjectId, i64))> = Vec::new();
    let mut trees: Vec<(ObjectId, ObjectId)> = Vec::new();
    let mut i: usize = 0;
    proof {
        assert(ov.skip(0) =~= ov);
        assert(commit_pairs_view(commits@) + commit_map(ov.skip(0)) =~= commit_map(ov));
        assert(tree_pairs_view(trees@) + tree_map(ov.skip(0)) =~= tree_map(ov));
    }
    while i < objs.len()
        invariant
            i <= objs@.len(),
            ov == objs_view(objs@),
            first_bad_commit(ov) == first_bad_commit(ov.skip(i as int)),
            commit_map(ov) == commit_pairs_view(commits@) + commit_map(ov.skip(i as int)),
            tree_map(ov) == tree_pairs_view(trees@) + tree_map(ov.skip(i as int)),
        decreases objs@.len() - i,
    {
        let ghost old_commits = commit_pairs_view(commits@);
        let ghost old_trees = tree_pairs_view(trees@);
        proof {
            assert(ov.skip(i as int).first() == ov[i as int]);
            assert(ov.skip(i as int).drop_first() =~= ov.skip(i + 1));
        }
        let o = &objs[i];
        if o.kind == crate::pack::KIND_COMMIT {
            match parse_commit_exec(o.data.as_slice()) {
                Some((tree, time)) => {
                    commits.push((o.id.duplicate(), (tree, time)));
                    proof {
                        assert(commit_pairs_view(commits@) =~= old_commits.push(
                            (ov[i as int].0, (parse_commit(ov[i as int].2).unwrap().0, time
                                as int)),
                        ));
                        assert(old_commits + (seq![
                            (ov[i as int].0, parse_commit(ov[i as int].2).unwrap()),
                        ] + commit_map(ov.skip(i + 1))) =~= commit_pairs_view(commits@)
                            + commit_map(ov.skip(i + 1)));
                    }
                },
                None => {
                    assert(first_bad_commit(ov.skip(i as int)) == Some(ov[i as int].0));
                    return Err(HarvestError::CommitShape(o.id.duplicate()));
                },
            }
        } else if o.kind == crate::pack::KIND_TREE {
            match tree_find_srcinfo_exec(o.data.as_slice(), 0) {
                Some(blob) => {
                    trees.push((o.id.duplicate(), blob));
                    proof {
                        assert(tree_pairs_view(trees@) =~= old_trees.push(
                            (ov[i as int].0, tree_find_srcinfo(ov[i as int].2, 0).unwrap()),
                        ));
                        assert(old_trees + (seq![
                            (ov[i as int].0, tree_find_srcinfo(ov[i as int].2, 0).unwrap()),
                        ] + tree_map(ov.skip(i + 1))) =~= tree_pairs_view(trees@) + tree_map(
                            ov.skip(i + 1),
                        ));
                    }
                },
                None => {},
            }
        }
        i = i + 1;
    }
    proof {
        assert(ov.skip(objs@.len() as int) =~= Seq::<(Seq<u8>, u8, Seq<u8>)>::empty());
        assert(commit_pairs_view(commits@) + commit_map(ov.skip(objs@.len() as int))
            =~= commit_pairs_view(commits@));
        assert(tree_pairs_view(trees@) + tree_map(ov.skip(objs@.len() as int)) =~= tree_pairs_view(
            trees@,
        ));
    }
    let ghost cm = commit_map(ov);
    let ghost tm = tree_map(ov);
    let mut out: Vec<(ObjectId, (ObjectId, i64))> = Vec::new();
    let mut j: usize = 0;
    proof {
        assert(cm.skip(0) =~= cm);
        assert(commit_pairs_view(out@) + join_srcinfo(cm.skip(0), tm) =~= join_srcinfo(cm, tm));
    }
    while j < commits.len()
        invariant
            j <= commits@.len(),
            cm == commit_pairs_view(commits@),
            tm == tree_pairs_view(trees@),
            join_srcinfo(cm, tm) == commit_pairs_view(out@) + join_srcinfo(cm.skip(j as int), tm),
        decreases commits@.len() - j,
    {
        let ghost old_out = commit_pairs_view(out@);
        proof {
            assert(cm.skip(j as int).first() == cm[j as int]);
            assert(cm.skip(j as int).drop_first() =~= cm.skip(j + 1));
        }
        let c = &commits[j];
        match find_tree_exec(&trees, &c.1.0) {
            Some(blob) => {
                out.push((c.0.duplicate(), (blob, c.1.1)));
                proof {
                    assert(commit_pairs_view(out@) =~= old_out.push(
                        (cm[j as int].0, (assoc_find(tm, cm[j as int].1.0).unwrap(),
                        cm[j as int].1.1)),
                    ));
                    assert(old_out + (seq![
                        (cm[j as int].0, (assoc_find(tm, cm[j as int].1.0).unwrap(),
                        cm[j as int].1.1)),
                    ] + join_srcinfo(cm.skip(j + 1), tm)) =~= commit_pairs_view(out@)
                        + join_srcinfo(cm.skip(j + 1), tm));
                }
            },
            None => {},
        }
        j = j + 1;
    }
    proof {
        assert(cm.skip(commits@.len() as int) =~= Seq::<(Seq<u8>, (Seq<u8>, int))>::empty());
        assert(commit_pairs_view(out@) + join_srcinfo(cm.skip(commits@.len() as int), tm)
            =~= commit_pairs_view(out@));
    }
    Ok(out)
}

/// Builds the blob-to-text map of a decoded pack: every blob that is
/// valid UTF-8 text, in pack order; a blob that is not is skipped, never
/// fatal to the batch.
pub fn map_blob_id_to_content(objs: &Vec<DecodedObject>) -> (r: Vec<(ObjectId, String)>)
    ensures
        blob_pairs_view(r@) == blob_map(objs_view(objs@)),
{
    let ghost ov = objs_view(objs@);
    let mut out: Vec<(ObjectId, String)> = Vec::new();
    let mut i: usize = 0;
    proof {
        assert(ov.skip(0) =~= ov);
        assert(blob_pairs_view(out@) + blob_map(ov.skip(0)) =~= blob_map(ov));
    }
    while i < objs.len()
        invariant
            i <= objs@.len(),
            ov == objs_view(objs@),
            blob_map(ov) == blob_pairs_view(out@) + blob_map(ov.skip(i as int)),
        decreases objs@.len() - i,
    {
        let ghost old_out = blob_pairs_view(out@);
        proof {
            assert(ov.skip(i as int).first() == ov[i as int]);
            assert(ov.skip(i as int).drop_first() =~= ov.skip(i + 1));
        }
        let o = &objs[i];
        if o.kind == crate::pack::KIND_BLOB {
            let mut bytes: Vec<u8> = Vec::new();
            let mut k: usize = 0;
            while k < o.data.len()
                invariant
                    0 <= i < objs@.len(),
                    o == objs@[i as int],
                    k <= o.data@.len(),
                    bytes@ == o.data@.take(k as int),
                decreases o.data@.len() - k,
            {
                bytes.push(o.data[k]);
                assert(bytes@ =~= o.data@.take(k + 1));
                k = k + 1;
            }
            assert(bytes@ =~= o.data@);
            match string_from_utf8(bytes) {
                Some(text) => {
                    out.push((o.id.duplicate(), text));
                    proof {
                        assert(blob_pairs_view(out@) =~= old_out.push(
                            (ov[i as int].0, decode_utf8(ov[i as int].2)),
                        ));
                        assert(old_out + (seq![(ov[i as int].0, decode_utf8(ov[i as int].2))]
                            + blob_map(ov.skip(i + 1))) =~= blob_pairs_view(out@) + blob_map(
                            ov.skip(i + 1),
                        ));
                    }
                },
                None => {},
            }
        }
        i = i + 1;
    }
    proof {
        assert(ov.skip(objs@.len() as int) =~= Seq::<(Seq<u8>, u8, Seq<u8>)>::empty());
        assert(blob_pairs_view(out@) + blob_map(ov.skip(objs@.len() as int)) =~= blob_pairs_view(
            out@,
        ));
    }
    out
}


/// Extraction is deterministic: a re-harvest of the same tip set reads
/// the same pack bytes, and everything derived from them — the decoded
/// objects, both extraction maps and their join — is a function of those
/// bytes alone, so the extracted rows are identical.
pub proof fn lemma_reharvest_identical(first: Seq<u8>, second: Seq<u8>)
    requires
        first == second,
    ensures
        crate::pack::decode_pack_spec(first) == crate::pack::decode_pack_spec(second),
        crate::pack::decode_pack_spec(first) matches Some(objs) ==> join_srcinfo(
            commit_map(objs),
            tree_map(objs),
        ) == join_srcinfo(
            commit_map(crate::pack::decode_pack_spec(second).unwrap()),
            tree_map(crate::pack::decode_pack_spec(second).unwrap()),
        ),
{
}

} // verus!
