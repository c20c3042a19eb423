use vstd::prelude::*;

use vstd::string::StringSliceAdditionalSpecFns;
use vstd::utf8::{decode_utf8, encode_utf8, valid_utf8};

use crate::errors::HarvestError;
use crate::ext::string_from_utf8;
use crate::ids::is_hex40;
use crate::pktline::{pkt_parse_at, read_pkt_line, Pkt, PktOwned};
use crate::text::{ascii_bytes, eq_bytes, str_bytes, trim_ascii, trim_ascii_exec};

verus! {

/// The commit id and branch name of an advertisement line shaped
/// `<40-hex> refs/heads/<branch>`, after whitespace trimming; `None` for any
/// other line, and for a branch name that is not UTF-8 text.
pub open spec fn ref_line_parts(p: Seq<u8>) -> Option<(Seq<u8>, Seq<u8>)> {
    ref_line_parts_of_trimmed(trim_ascii(p))
}

/// A branch map as an association list of `(branch, tip)` byte strings; a
/// later line for the same branch replaces the earlier tip.
pub open spec fn upsert_ref(m: Seq<(Seq<u8>, Seq<u8>)>, k: Seq<u8>, v: Seq<u8>) -> Seq<
    (Seq<u8>, Seq<u8>),
>
    decreases m.len(),
{
    if m.len() == 0 {
        seq![(k, v)]
    } else if m.first().0 == k {
        seq![(k, v)] + m.drop_first()
    } else {
        seq![m.first()] + upsert_ref(m.drop_first(), k, v)
    }
}

/// What parsing an advertisement yields.
pub enum RefsOutcome {
    /// The branch map, in first-appearance order.
    Refs(Seq<(Seq<u8>, Seq<u8>)>),
    /// A broken packet-line frame.
    Framing,
}

/// How the capability segment of an advertisement ends.
pub enum CapScan {
    /// The position just past the first flush packet.
    After(int),
    /// The input ran out before any flush: an advertisement with no refs.
    Exhausted,
    /// A packet-line was malformed before the first flush.
    Broken,
}

/// Scans the capability lines from `i`; they carry no refs and end at the
/// first flush.
pub open spec fn skip_capabilities(d: Seq<u8>, i: int) -> CapScan
    decreases d.len() - i,
    when 0 <= i <= d.len()
{
    match pkt_parse_at(d, i) {
        None => if i == d.len() {
            CapScan::Exhausted
        } else {
            CapScan::Broken
        },
        Some((p, j)) => match p {
            Pkt::Flush => CapScan::After(j),
            Pkt::Delim => skip_capabilities(d, j),
            Pkt::ResponseEnd => skip_capabilities(d, j),
            Pkt::Data(_) => skip_capabilities(d, j),
        },
    }
}

/// The ref lines read from `i` on, merged into `acc`.  Reading stops at the
/// next framing packet or at the end of the input; lines that do not name a
/// branch head are ignored, and the branch literally named `main` is the
/// aggregate branch, not a package, and is left out.
pub open spec fn collect_refs(d: Seq<u8>, i: int, acc: Seq<(Seq<u8>, Seq<u8>)>) -> RefsOutcome
    decreases d.len() - i,
    when 0 <= i <= d.len()
{
    match pkt_parse_at(d, i) {
        None => if i == d.len() {
            RefsOutcome::Refs(acc)
        } else {
            RefsOutcome::Framing
        },
        Some((p, j)) => match p {
            Pkt::Flush => RefsOutcome::Refs(acc),
            Pkt::Delim => RefsOutcome::Refs(acc),
            Pkt::ResponseEnd => RefsOutcome::Refs(acc),
            Pkt::Data(payload) => match ref_line_parts(payload) {
                Some((hex, branch)) => if branch == ascii_bytes("main"@) {
                    collect_refs(d, j, acc)
                } else {
                    collect_refs(d, j, upsert_ref(acc, branch, hex))
                },
                None => collect_refs(d, j, acc),
            },
        },
    }
}

/// The branch map of a whole advertisement: everything up to and including
/// the first flush is capability text and is skipped, the rest are ref
/// lines.  An advertisement that ends cleanly before any flush carries no
/// refs; a broken frame anywhere is protocol corruption.
pub open spec fn parse_advertisement(d: Seq<u8>) -> RefsOutcome {
    match skip_capabilities(d, 0) {
        CapScan::After(j) => collect_refs(d, j, Seq::empty()),
        CapScan::Exhausted => RefsOutcome::Refs(Seq::empty()),
        CapScan::Broken => RefsOutcome::Framing,
    }
}

/// Whether the branch map `m` is what the strings in `r` spell in UTF-8.
pub open spec fn refs_match(r: Seq<(String, String)>, m: Seq<(Seq<u8>, Seq<u8>)>) -> bool {
    r.len() == m.len() && forall|i: int|
        0 <= i < r.len() ==> encode_utf8((#[trigger] r[i]).0@) == m[i].0 && encode_utf8(r[i].1@)
            == m[i].1
}

/// Parses an advertise-refs response into the branch map, excluding the
/// aggregate branch `main`.  Parsing the same response twice yields the same
/// map: the result is a function of the bytes alone.
pub fn parse_branch_list(response: &[u8]) -> (r: Result<Vec<(String, String)>, HarvestError>)
    ensures
        r matches Ok(v) ==> parse_advertisement(response@) matches RefsOutcome::Refs(m)
            && refs_match(v@, m),
        r matches Err(e) ==> e is WireFraming && parse_advertisement(response@)
            == RefsOutcome::Framing,
{
    let ghost d = response@;
    let refs_prefix = str_bytes_refs_heads();
    let main_lit = str_bytes_main();
    let mut pos: usize = 0;
    // Skip the capability lines, up to and including the first flush.
    loop
        invariant_except_break
            pos <= d.len(),
            d == response@,
            skip_capabilities(d, 0) == skip_capabilities(d, pos as int),
        ensures
            pos <= d.len(),
            d == response@,
            skip_capabilities(d, 0) == CapScan::After(pos as int),
        decreases d.len() - pos,
    {
        let ghost old_pos = pos as int;
        if pos == response.len() {
            assert(skip_capabilities(d, pos as int) is Exhausted);
            return Ok(Vec::new());
        }
        let line = match read_pkt_line(response, pos) {
            Ok(l) => l,
            Err(_) => {
                assert(skip_capabilities(d, pos as int) is Broken);
                return Err(HarvestError::WireFraming);
            },
        };
        let next = line.1;
        match line.0 {
            PktOwned::Flush => {
                assert(skip_capabilities(d, old_pos) == CapScan::After(next as int));
                pos = next;
                break ;
            },
            _ => {
                assert(skip_capabilities(d, old_pos) == skip_capabilities(d, next as int));
                pos = next;
            },
        }
    }
    // Read the ref lines.
    let mut refs: Vec<(String, String)> = Vec::new();
    let ghost mut m_snap: Seq<(Seq<u8>, Seq<u8>)> = Seq::empty();
    loop
        invariant
            pos <= d.len(),
            d == response@,
            refs_prefix@ == ascii_bytes("refs/heads/"@),
            main_lit@ == ascii_bytes("main"@),
            refs_match(refs@, m_snap),
            parse_advertisement(d) == collect_refs(d, pos as int, m_snap),
        decreases d.len() - pos,
    {
        let ghost old_pos = pos as int;
        let ghost old_m = m_snap;
        if pos == response.len() {
            assert(collect_refs(d, pos as int, m_snap) == RefsOutcome::Refs(m_snap));
            return Ok(refs);
        }
        let line = match read_pkt_line(response, pos) {
            Ok(l) => l,
            Err(_) => {
                assert(collect_refs(d, pos as int, m_snap) == RefsOutcome::Framing);
                return Err(HarvestError::WireFraming);
            },
        };
        let next = line.1;
        match line.0 {
            PktOwned::Flush => {
                assert(collect_refs(d, old_pos, m_snap) == RefsOutcome::Refs(m_snap));
                return Ok(refs);
            },
            PktOwned::Delim => {
                assert(collect_refs(d, old_pos, m_snap) == RefsOutcome::Refs(m_snap));
                return Ok(refs);
            },
            PktOwned::ResponseEnd => {
                assert(collect_refs(d, old_pos, m_snap) == RefsOutcome::Refs(m_snap));
                return Ok(refs);
            },
            PktOwned::Data(payload) => {
                let t = trim_ascii_exec(payload.as_slice());
                let parsed = split_ref_line(&t, refs_prefix);
                match parsed {
                    Some((hex_s, branch_s)) => {
                        proof {
                            assert(ref_line_parts(payload@) matches Some(q) && encode_utf8(
                                hex_s@,
                            ) == q.0 && encode_utf8(branch_s@) == q.1);
                        }
                        let is_main = eq_bytes(branch_s.as_str().as_bytes(), main_lit);
                        proof {
                            let q = ref_line_parts(payload@).unwrap();
                            if is_main {
                                assert(q.1 == ascii_bytes("main"@));
                                assert(collect_refs(d, old_pos, old_m) == collect_refs(
                                    d,
                                    next as int,
                                    old_m,
                                ));
                            } else {
                                assert(q.1 != ascii_bytes("main"@));
                                assert(collect_refs(d, old_pos, old_m) == collect_refs(
                                    d,
                                    next as int,
                                    upsert_ref(old_m, q.1, q.0),
                                ));
                            }
                        }
                        if !is_main {
                            upsert_ref_exec(&mut refs, branch_s, hex_s, Ghost(old_m));
                            proof {
                                let q = ref_line_parts(payload@).unwrap();
                                m_snap = upsert_ref(old_m, q.1, q.0);
                            }
                        }
                        pos = next;
                    },
                    None => {
                        assert(collect_refs(d, old_pos, old_m) == collect_refs(
                            d,
                            next as int,
                            old_m,
                        ));
                        pos = next;
                    },
                }
            },
        }
    }
}

/// The bytes of the literal `refs/heads/`.
fn str_bytes_refs_heads() -> (r: &'static [u8])
    ensures
        r@ == ascii_bytes("refs/heads/"@),
{
    proof {
        reveal_strlit("refs/heads/");
        assert(vstd::string::is_ascii("refs/heads/")) by {
            assert forall|i: int|
                0 <= i < "refs/heads/"@.len() implies ("refs/heads/"@[i] as u32) < 128 by {}
        }
    }
    str_bytes("refs/heads/")
}

/// The bytes of the literal `main`.
fn str_bytes_main() -> (r: &'static [u8])
    ensures
        r@ == ascii_bytes("main"@),
{
    proof {
        reveal_strlit("main");
        assert(vstd::string::is_ascii("main")) by {
            assert forall|i: int| 0 <= i < "main"@.len() implies ("main"@[i] as u32) < 128 by {}
        }
    }
    str_bytes("main")
}

/// Splits one trimmed advertisement line into its commit hex and branch
/// name, or `None` when the line has another shape.  `t` must already be the
/// trimmed line, and `refs_prefix` the bytes of `refs/heads/`.
fn split_ref_line(t: &Vec<u8>, refs_prefix: &[u8]) -> (r: Option<(String, String)>)
    requires
        refs_prefix@ == ascii_bytes("refs/heads/"@),
    ensures
        ({
            let parts = ref_line_parts_of_trimmed(t@);
            match r {
                Some(p) => parts matches Some(q) && encode_utf8(p.0@) == q.0 && encode_utf8(p.1@)
                    == q.1,
                None => parts is None,
            }
        }),
{
    proof {
        reveal_strlit("refs/heads/");
    }
    if t.len() < 52 {
        return None;
    }
    let mut k: usize = 0;
    while k < 40
        invariant
            t@.len() >= 52,
            k <= 40,
            forall|j: int| 0 <= j < k ==> crate::ids::is_hex_digit(#[trigger] t@[j]),
        decreases 40 - k,
    {
        if crate::ids::hex_digit_value(t[k]).is_none() {
            assert(t@.take(40)[k as int] == t@[k as int]);
            assert(!is_hex40(t@.take(40)));
            return None;
        }
        k = k + 1;
    }
    assert(is_hex40(t@.take(40))) by {
        assert(forall|j: int| 0 <= j < 40 ==> t@.take(40)[j] == t@[j]);
    }
    if t[40] != 32 {
        return None;
    }
    let mut prefix_part: Vec<u8> = Vec::new();
    let mut i: usize = 41;
    while i < 52
        invariant
            t@.len() >= 52,
            41 <= i <= 52,
            prefix_part@ == t@.subrange(41, i as int),
        decreases 52 - i,
    {
        prefix_part.push(t[i]);
        assert(prefix_part@ =~= t@.subrange(41, i + 1));
        i = i + 1;
    }
    if !eq_bytes(prefix_part.as_slice(), refs_prefix) {
        return None;
    }
    let mut hex_bytes: Vec<u8> = Vec::new();
    let mut i: usize = 0;
    while i < 40
        invariant
            t@.len() >= 52,
            i <= 40,
            hex_bytes@ == t@.subrange(0, i as int),
        decreases 40 - i,
    {
        hex_bytes.push(t[i]);
        assert(hex_bytes@ =~= t@.subrange(0, i + 1));
        i = i + 1;
    }
    let mut branch_bytes: Vec<u8> = Vec::new();
    let mut i: usize = 52;
    while i < t.len()
        invariant
            52 <= i <= t@.len(),
            branch_bytes@ == t@.subrange(52, i as int),
        decreases t@.len() - i,
    {
        branch_bytes.push(t[i]);
        assert(branch_bytes@ =~= t@.subrange(52, i + 1));
        i = i + 1;
    }
    assert(branch_bytes@ =~= t@.skip(52));
    assert(hex_bytes@ =~= t@.take(40));
    let branch = match string_from_utf8(branch_bytes) {
        Some(s) => s,
        None => {
            return None;
        },
    };
    let hex_s = match string_from_utf8(hex_bytes) {
        Some(s) => s,
        None => {
            proof {
                lemma_hex40_is_utf8(t@.take(40));
            }
            assert(false);
            return None;
        },
    };
    proof {
        vstd::utf8::decode_utf8_encode_utf8(t@.skip(52));
        vstd::utf8::decode_utf8_encode_utf8(t@.take(40));
    }
    Some((hex_s, branch))
}

/// The parts of a line that is already whitespace-trimmed.
pub open spec fn ref_line_parts_of_trimmed(t: Seq<u8>) -> Option<(Seq<u8>, Seq<u8>)> {
    if t.len() >= 52 && is_hex40(t.take(40)) && t[40] == 32 && t.subrange(41, 52) == ascii_bytes(
        "refs/heads/"@,
    ) && valid_utf8(t.skip(52)) {
        Some((t.take(40), t.skip(52)))
    } else {
        None
    }
}

/// Forty hex digits are ASCII and therefore valid UTF-8.
proof fn lemma_hex40_is_utf8(s: Seq<u8>)
    requires
        is_hex40(s),
    ensures
        valid_utf8(s),
    decreases s.len(),
{
    lemma_ascii_valid_utf8(s);
}

/// Bytes below 128 are valid UTF-8.
proof fn lemma_ascii_valid_utf8(s: Seq<u8>)
    requires
        forall|i: int| 0 <= i < s.len() ==> #[trigger] s[i] < 128,
    ensures
        valid_utf8(s),
    decreases s.len(),
{
    if s.len() > 0 {
        assert(vstd::utf8::is_leading_byte_width_1(s[0]));
        assert(vstd::utf8::length_of_first_scalar(s) == 1);
        assert(vstd::utf8::pop_first_scalar(s) =~= s.drop_first());
        lemma_ascii_valid_utf8(s.drop_first());
    }
}

/// Replaces the tip recorded for `branch`, or appends the pair.
fn upsert_ref_exec(
    refs: &mut Vec<(String, String)>,
    branch: String,
    hex_s: String,
    Ghost(m): Ghost<Seq<(Seq<u8>, Seq<u8>)>>,
)
    requires
        refs_match(old(refs)@, m),
    ensures
        refs_match(final(refs)@, upsert_ref(m, encode_utf8(branch@), encode_utf8(hex_s@))),
{
    let ghost k = encode_utf8(branch@);
    let ghost v = encode_utf8(hex_s@);
    let mut i: usize = 0;
    while i < refs.len()
        invariant
            refs_match(refs@, m),
            i <= refs@.len(),
            k == encode_utf8(branch@),
            v == encode_utf8(hex_s@),
            forall|j: int| 0 <= j < i ==> m[j].0 != k,
        decreases refs@.len() - i,
    {
        let same = eq_bytes(refs[i].0.as_str().as_bytes(), branch.as_str().as_bytes());
        assert(encode_utf8(refs@[i as int].0@) == m[i as int].0);
        if same {
            assert(m[i as int].0 == k);
            refs.set(i, (branch, hex_s));
            proof {
                lemma_upsert_hits(m, k, v, i as int);
            }
            return ;
        }
        assert(m[i as int].0 != k);
        i = i + 1;
    }
    refs.push((branch, hex_s));
    proof {
        lemma_upsert_appends(m, k, v);
    }
}

/// When `k` first occurs at index `i`, the upsert is an update there.
proof fn lemma_upsert_hits(m: Seq<(Seq<u8>, Seq<u8>)>, k: Seq<u8>, v: Seq<u8>, i: int)
    requires
        0 <= i < m.len(),
        m[i].0 == k,
        forall|j: int| 0 <= j < i ==> m[j].0 != k,
    ensures
        upsert_ref(m, k, v) == m.update(i, (k, v)),
    decreases i,
{
    if i == 0 {
        assert(upsert_ref(m, k, v) == seq![(k, v)] + m.drop_first());
        assert(seq![(k, v)] + m.drop_first() =~= m.update(0, (k, v)));
    } else {
        lemma_upsert_hits(m.drop_first(), k, v, i - 1);
        assert(upsert_ref(m, k, v) == seq![m.first()] + upsert_ref(m.drop_first(), k, v));
        assert(seq![m.first()] + m.drop_first().update(i - 1, (k, v)) =~= m.update(i, (k, v)));
    }
}

/// When `k` is absent, the upsert appends.
proof fn lemma_upsert_appends(m: Seq<(Seq<u8>, Seq<u8>)>, k: Seq<u8>, v: Seq<u8>)
    requires
        forall|j: int| 0 <= j < m.len() ==> m[j].0 != k,
    ensures
        upsert_ref(m, k, v) == m.push((k, v)),
    decreases m.len(),
{
    if m.len() == 0 {
        assert(upsert_ref(m, k, v) =~= m.push((k, v)));
    } else {
        lemma_upsert_appends(m.drop_first(), k, v);
        assert(upsert_ref(m, k, v) == seq![m.first()] + m.drop_first().push((k, v)));
        assert(seq![m.first()] + m.drop_first().push((k, v)) =~= m.push((k, v)));
    }
}


/// Branch enumeration is idempotent against a stable upstream: the map
/// is a function of the advertisement bytes alone, so reading the same
/// advertisement twice yields the same map.
pub proof fn lemma_branch_enumeration_idempotent(first: Seq<u8>, second: Seq<u8>)
    requires
        first == second,
    ensures
        parse_advertisement(first) == parse_advertisement(second),
{
}

} // verus!
