use vstd::prelude::*;

use crate::errors::HarvestError;
use crate::ext::{sha1_digest, sha1_of, zlib_decompress_prefix, zlib_inflate};
use crate::ids::ObjectId;
use crate::text::ascii_bytes;

verus! {

/// Pack entry kind codes, as the entry header carries them.
pub const KIND_COMMIT: u8 = 1;

pub const KIND_TREE: u8 = 2;

pub const KIND_BLOB: u8 = 3;

pub const KIND_TAG: u8 = 4;

pub const KIND_OFS_DELTA: u8 = 6;

pub const KIND_REF_DELTA: u8 = 7;

/// One value bound for sizes read from the wire: anything that does not fit
/// an unsigned 64-bit word is refused as malformed.
pub const SIZE_LIMIT: u128 = 0x1_0000_0000_0000_0000;

/// The little-endian base-128 continuation of a varint whose low bits are
/// already in `acc` and whose next group weighs `mul`: the value and the
/// position just past it.  Over-long or truncated encodings are refused.
pub open spec fn parse_varint_cont(d: Seq<u8>, i: int, acc: nat, mul: nat) -> Option<(nat, int)>
    decreases d.len() - i,
    when 0 <= i <= d.len()
{
    if i >= d.len() {
        None
    } else {
        let b = d[i];
        let val = (acc + (b as nat % 128) * mul) as nat;
        if val >= SIZE_LIMIT as nat || mul >= SIZE_LIMIT as nat {
            None
        } else if b < 128 {
            Some((val, i + 1))
        } else {
            parse_varint_cont(d, i + 1, val, (mul * 128) as nat)
        }
    }
}

/// A whole varint: seven value bits per byte, least significant group
/// first, the high bit marking continuation.
pub open spec fn parse_varint(d: Seq<u8>, i: int) -> Option<(nat, int)> {
    parse_varint_cont(d, i, 0, 1)
}

/// An entry header: the kind in bits 4-6 of the first byte, the inflated
/// size in its low four bits and in base-128 continuation groups.
pub open spec fn parse_entry_header(d: Seq<u8>, off: int) -> Option<(u8, nat, int)> {
    if !(0 <= off < d.len()) {
        None
    } else {
        let b0 = d[off];
        let t = ((b0 / 16) % 8) as u8;
        let size0 = (b0 % 16) as nat;
        if t == 0 || t == 5 {
            None
        } else if b0 < 128 {
            Some((t, size0, off + 1))
        } else {
            match parse_varint_cont(d, off + 1, size0, 16) {
                Some((v, j)) => Some((t, v, j)),
                None => None,
            }
        }
    }
}

/// The continuation of an ofs-delta base distance.
pub open spec fn parse_ofs_cont(d: Seq<u8>, i: int, acc: nat) -> Option<(nat, int)>
    decreases d.len() - i,
    when 0 <= i <= d.len()
{
    if i >= d.len() {
        None
    } else {
        let b = d[i];
        let val = ((acc + 1) * 128 + (b as nat % 128)) as nat;
        if val >= SIZE_LIMIT as nat {
            None
        } else if b < 128 {
            Some((val, i + 1))
        } else {
            parse_ofs_cont(d, i + 1, val)
        }
    }
}

/// An ofs-delta base distance: big-endian base-128 groups with an implicit
/// one added per continuation, as packs encode backwards offsets.
pub open spec fn parse_ofs_dist(d: Seq<u8>, i: int) -> Option<(nat, int)> {
    if !(0 <= i < d.len()) {
        None
    } else {
        let b = d[i];
        if b < 128 {
            Some(((b as nat % 128), i + 1))
        } else {
            parse_ofs_cont(d, i + 1, (b as nat % 128))
        }
    }
}

/// Parses a varint continuation.  Mirrors `parse_varint_cont` exactly.
fn parse_varint_cont_exec(d: &[u8], i: usize, acc: u64, mul: u128) -> (r: Result<
    (u64, usize),
    HarvestError,
>)
    requires
        i <= d@.len(),
        mul < SIZE_LIMIT * 128,
    ensures
        r matches Ok(p) ==> parse_varint_cont(d@, i as int, acc as nat, mul as nat) == Some(
            ((p.0 as nat), p.1 as int),
        ) && i < p.1 <= d@.len(),
        r matches Err(e) ==> e is PackDecode && parse_varint_cont(
            d@,
            i as int,
            acc as nat,
            mul as nat,
        ) is None,
    decreases d@.len() - i,
{
    if i >= d.len() {
        return Err(HarvestError::PackDecode);
    }
    let b = d[i];
    if mul >= SIZE_LIMIT {
        return Err(HarvestError::PackDecode);
    }
    let g: u128 = (b % 128) as u128;
    proof {
        assert(g * mul <= 127 * mul) by (nonlinear_arith)
            requires
                g <= 127,
                0 <= mul,
        ;
    }
    let val: u128 = (acc as u128) + g * mul;
    if val >= SIZE_LIMIT {
        return Err(HarvestError::PackDecode);
    }
    if b < 128 {
        Ok((val as u64, i + 1))
    } else {
        parse_varint_cont_exec(d, i + 1, val as u64, mul * 128)
    }
}

/// Parses an entry header.  Mirrors `parse_entry_header` exactly.
fn parse_entry_header_exec(d: &[u8], off: usize) -> (r: Result<(u8, u64, usize), HarvestError>)
    ensures
        r matches Ok(p) ==> parse_entry_header(d@, off as int) == Some(
            (p.0, p.1 as nat, p.2 as int),
        ) && off < p.2 <= d@.len() && (p.0 == 1 || p.0 == 2 || p.0 == 3 || p.0 == 4 || p.0 == 6
            || p.0 == 7),
        r matches Err(e) ==> e is PackDecode && parse_entry_header(d@, off as int) is None,
{
    if off >= d.len() {
        return Err(HarvestError::PackDecode);
    }
    let b0 = d[off];
    let t = (b0 / 16) % 8;
    let size0 = b0 % 16;
    if t == 0 || t == 5 {
        return Err(HarvestError::PackDecode);
    }
    if b0 < 128 {
        Ok((t, size0 as u64, off + 1))
    } else {
        match parse_varint_cont_exec(d, off + 1, size0 as u64, 16) {
            Ok((v, j)) => Ok((t, v, j)),
            Err(e) => Err(e),
        }
    }
}

/// Parses an ofs-delta distance continuation.  Mirrors `parse_ofs_cont`.
fn parse_ofs_cont_exec(d: &[u8], i: usize, acc: u64) -> (r: Result<(u64, usize), HarvestError>)
    requires
        i <= d@.len(),
    ensures
        r matches Ok(p) ==> parse_ofs_cont(d@, i as int, acc as nat) == Some(
            ((p.0 as nat), p.1 as int),
        ) && i < p.1 <= d@.len(),
        r matches Err(e) ==> e is PackDecode && parse_ofs_cont(d@, i as int, acc as nat) is None,
    decreases d@.len() - i,
{
    if i >= d.len() {
        return Err(HarvestError::PackDecode);
    }
    let b = d[i];
    let val: u128 = ((acc as u128) + 1) * 128 + ((b % 128) as u128);
    if val >= SIZE_LIMIT {
        return Err(HarvestError::PackDecode);
    }
    if b < 128 {
        Ok((val as u64, i + 1))
    } else {
        parse_ofs_cont_exec(d, i + 1, val as u64)
    }
}

/// Parses an ofs-delta distance.  Mirrors `parse_ofs_dist`.
fn parse_ofs_dist_exec(d: &[u8], i: usize) -> (r: Result<(u64, usize), HarvestError>)
    ensures
        r matches Ok(p) ==> parse_ofs_dist(d@, i as int) == Some(((p.0 as nat), p.1 as int)) && i
            < p.1 <= d@.len(),
        r matches Err(e) ==> e is PackDecode && parse_ofs_dist(d@, i as int) is None,
{
    if i >= d.len() {
        return Err(HarvestError::PackDecode);
    }
    let b = d[i];
    if b < 128 {
        Ok(((b % 128) as u64, i + 1))
    } else {
        parse_ofs_cont_exec(d, i + 1, (b % 128) as u64)
    }
}


/// The weight of operand byte `k` of a copy instruction: the low four
/// flag bits select base-offset bytes, the next three select size bytes,
/// each little-endian.
pub open spec fn copy_mul(k: int) -> nat {
    if k == 0 || k == 4 {
        1
    } else if k == 1 || k == 5 {
        0x100
    } else if k == 2 || k == 6 {
        0x10000
    } else {
        0x1000000
    }
}

/// The flag bit selecting operand byte `k`.
pub open spec fn copy_bit(k: int) -> nat {
    if k == 0 {
        1
    } else if k == 1 {
        2
    } else if k == 2 {
        4
    } else if k == 3 {
        8
    } else if k == 4 {
        16
    } else if k == 5 {
        32
    } else {
        64
    }
}

/// The operands of a copy instruction, read one flag-selected byte at a
/// time from operand `k` on, with the offset and size accumulated so far;
/// a zero final size means 65536 bytes.
pub open spec fn copy_ops(delta: Seq<u8>, p: int, cmd: u8, k: int, off: nat, sz: nat) -> Option<
    (nat, nat, int),
>
    decreases 7 - k,
    when 0 <= k <= 7
{
    if k >= 7 {
        Some((off, if sz == 0 {
            0x10000 as nat
        } else {
            sz
        }, p))
    } else if (cmd as nat / copy_bit(k)) % 2 != 1 {
        copy_ops(delta, p, cmd, k + 1, off, sz)
    } else if 0 <= p < delta.len() {
        if k < 4 {
            copy_ops(delta, p + 1, cmd, k + 1, (off + delta[p] * copy_mul(k)) as nat, sz)
        } else {
            copy_ops(delta, p + 1, cmd, k + 1, off, (sz + delta[p] * copy_mul(k)) as nat)
        }
    } else {
        None
    }
}

/// The operands of a copy instruction whose command byte is `cmd`.
pub open spec fn parse_copy(delta: Seq<u8>, p: int, cmd: u8) -> Option<(nat, nat, int)> {
    copy_ops(delta, p, cmd, 0, 0, 0)
}

/// The largest offset accumulated after the first `k` operand bytes.
pub open spec fn max_off(k: int) -> nat {
    if k <= 0 {
        0
    } else if k == 1 {
        0xFF
    } else if k == 2 {
        0xFFFF
    } else if k == 3 {
        0xFFFFFF
    } else {
        0xFFFFFFFF
    }
}

/// The largest size accumulated after the first `k` operand bytes.
pub open spec fn max_sz(k: int) -> nat {
    if k <= 4 {
        0
    } else if k == 5 {
        0xFF
    } else if k == 6 {
        0xFFFF
    } else {
        0xFFFFFF
    }
}

/// Parses a copy instruction's operands.  Mirrors `parse_copy` exactly.
fn parse_copy_exec(delta: &[u8], p: usize, cmd: u8) -> (r: Result<(u64, u64, usize), HarvestError>)
    requires
        p <= delta@.len(),
    ensures
        r matches Ok(q) ==> parse_copy(delta@, p as int, cmd) == Some(
            (q.0 as nat, q.1 as nat, q.2 as int),
        ) && p <= q.2 <= delta@.len() && 1 <= q.1 <= 0x10000000 && q.0 <= 0xFFFFFFFF,
        r matches Err(e) ==> e is PackDecode && parse_copy(delta@, p as int, cmd) is None,
{
    let ghost dv = delta@;
    let mut pos = p;
    let mut off: u64 = 0;
    let mut sz: u64 = 0;
    let mut k: u8 = 0;
    while k < 7
        invariant
            p <= pos <= dv.len(),
            dv == delta@,
            k <= 7,
            off <= max_off(k as int),
            sz <= max_sz(k as int),
            parse_copy(dv, p as int, cmd) == copy_ops(dv, pos as int, cmd, k as int, off as nat, sz as nat),
        decreases 7 - k,
    {
        let ghost old_pos = pos as int;
        let ghost old_off = off as nat;
        let ghost old_sz = sz as nat;
        let bitw: u8 = if k == 0 {
            1
        } else if k == 1 {
            2
        } else if k == 2 {
            4
        } else if k == 3 {
            8
        } else if k == 4 {
            16
        } else if k == 5 {
            32
        } else {
            64
        };
        let mulw: u64 = if k == 0 || k == 4 {
            1
        } else if k == 1 || k == 5 {
            0x100
        } else if k == 2 || k == 6 {
            0x10000
        } else {
            0x1000000
        };
        assert(bitw as nat == copy_bit(k as int));
        assert(mulw as nat == copy_mul(k as int));
        if (cmd / bitw) % 2 == 1 {
            if pos >= delta.len() {
                assert(copy_ops(dv, old_pos, cmd, k as int, old_off, old_sz) is None);
                return Err(HarvestError::PackDecode);
            }
            let b = delta[pos] as u64;
            if k < 4 {
                off = off + b * mulw;
            } else {
                sz = sz + b * mulw;
            }
            pos = pos + 1;
            assert(copy_ops(dv, old_pos, cmd, k as int, old_off, old_sz) == copy_ops(
                dv,
                pos as int,
                cmd,
                k as int + 1,
                off as nat,
                sz as nat,
            ));
        } else {
            assert(copy_ops(dv, old_pos, cmd, k as int, old_off, old_sz) == copy_ops(
                dv,
                old_pos,
                cmd,
                k as int + 1,
                old_off,
                old_sz,
            ));
        }
        k = k + 1;
    }
    assert(copy_ops(dv, pos as int, cmd, 7, off as nat, sz as nat) matches Some(q) && q.2 == pos
        as int && q.0 == off as nat);
    if sz == 0 {
        sz = 0x10000;
    }
    Ok((off, sz, pos))
}

/// The delta instruction stream applied from position `i` on, extending
/// `acc`: a command byte with its high bit set copies a base range, any
/// other non-zero command inserts that many literal bytes, and the zero
/// command is reserved and malformed.
pub open spec fn apply_delta_ops(base: Seq<u8>, delta: Seq<u8>, i: int, acc: Seq<u8>) -> Option<
    Seq<u8>,
>
    decreases delta.len() - i,
    when 0 <= i <= delta.len()
{
    if i >= delta.len() {
        Some(acc)
    } else {
        let cmd = delta[i];
        if cmd >= 128 {
            match parse_copy(delta, i + 1, cmd) {
                None => None,
                Some((off, sz, p)) => if off + sz <= base.len() && i < p <= delta.len() {
                    apply_delta_ops(
                        base,
                        delta,
                        p,
                        acc + base.subrange(off as int, (off + sz) as int),
                    )
                } else {
                    None
                },
            }
        } else if cmd == 0 {
            None
        } else {
            if i + 1 + cmd <= delta.len() {
                apply_delta_ops(base, delta, i + 1 + cmd, acc + delta.subrange(i + 1, i + 1 + cmd))
            } else {
                None
            }
        }
    }
}

/// A whole delta applied to its base: the leading varint must equal the
/// base's length, the second gives the result's length, and the
/// instructions must reproduce exactly that length.
pub open spec fn apply_delta(base: Seq<u8>, delta: Seq<u8>) -> Option<Seq<u8>> {
    match parse_varint(delta, 0) {
        None => None,
        Some((bs, p1)) => if bs != base.len() {
            None
        } else {
            match parse_varint(delta, p1) {
                None => None,
                Some((rs, p2)) => match apply_delta_ops(base, delta, p2, Seq::empty()) {
                    None => None,
                    Some(out) => if out.len() == rs {
                        Some(out)
                    } else {
                        None
                    },
                },
            }
        },
    }
}

/// Applies a delta to its base.  Mirrors `apply_delta` exactly.
pub fn apply_delta_exec(base: &Vec<u8>, delta: &[u8]) -> (r: Result<Vec<u8>, HarvestError>)
    ensures
        r matches Ok(v) ==> apply_delta(base@, delta@) == Some(v@),
        r matches Err(e) ==> e is PackDecode && apply_delta(base@, delta@) is None,
{
    let (bs, p1) = match parse_varint_cont_exec(delta, 0, 0, 1) {
        Ok(q) => q,
        Err(e) => {
            return Err(e);
        },
    };
    let bl: usize = base.len();
    if !(bs <= usize::MAX as u64 && bs as usize == bl) {
        assert(bs != base@.len());
        return Err(HarvestError::PackDecode);
    }
    let (rs, p2) = match parse_varint_cont_exec(delta, p1, 0, 1) {
        Ok(q) => q,
        Err(e) => {
            return Err(e);
        },
    };
    let ghost d = delta@;
    let dl: usize = delta.len();
    let mut out: Vec<u8> = Vec::new();
    let mut i: usize = p2;
    loop
        invariant
            i <= d.len(),
            d == delta@,
            dl == d.len(),
            bl == base@.len(),
            parse_varint(delta@, 0) == Some((bs as nat, p1 as int)),
            bs == base@.len(),
            parse_varint(delta@, p1 as int) == Some((rs as nat, p2 as int)),
            apply_delta_ops(base@, d, p2 as int, Seq::empty()) == apply_delta_ops(
                base@,
                d,
                i as int,
                out@,
            ),
        decreases d.len() - i,
    {
        let ghost old_i = i as int;
        let ghost old_out = out@;
        if i == delta.len() {
            assert(apply_delta_ops(base@, d, i as int, out@) == Some(out@));
            if out.len() as u64 == rs {
                return Ok(out);
            } else {
                return Err(HarvestError::PackDecode);
            }
        }
        let cmd = delta[i];
        if cmd >= 128 {
            let (off, sz, p) = match parse_copy_exec(delta, i + 1, cmd) {
                Ok(q) => q,
                Err(e) => {
                    assert(apply_delta_ops(base@, d, old_i, old_out) is None);
                    return Err(e);
                },
            };
            if !(off <= usize::MAX as u64 && sz <= usize::MAX as u64 && off + sz <= bl as u64) {
                assert(apply_delta_ops(base@, d, old_i, old_out) is None);
                return Err(HarvestError::PackDecode);
            }
            let off = off as usize;
            let sz = sz as usize;
            let mut k: usize = 0;
            while k < sz
                invariant
                    bl == base@.len(),
                    off + sz <= bl,
                    k <= sz,
                    out@ == old_out + base@.subrange(off as int, off + k),
                decreases sz - k,
            {
                out.push(base[off + k]);
                assert(out@ =~= old_out + base@.subrange(off as int, off + k + 1));
                k = k + 1;
            }
            proof {
                assert(apply_delta_ops(base@, d, old_i, old_out) == apply_delta_ops(
                    base@,
                    d,
                    p as int,
                    old_out + base@.subrange(off as int, off + sz),
                ));
            }
            i = p;
        } else if cmd == 0 {
            assert(apply_delta_ops(base@, d, old_i, old_out) is None);
            return Err(HarvestError::PackDecode);
        } else {
            let n = cmd as usize;
            if dl - i < n + 1 {
                assert(apply_delta_ops(base@, d, old_i, old_out) is None);
                return Err(HarvestError::PackDecode);
            }
            let mut k: usize = 0;
            while k < n
                invariant
                    dl == d.len(),
                    d == delta@,
                    i + 1 + n <= dl,
                    k <= n,
                    out@ == old_out + d.subrange(i + 1, i + 1 + k),
                decreases n - k,
            {
                out.push(delta[i + 1 + k]);
                assert(out@ =~= old_out + d.subrange(i + 1, i + 1 + k + 1));
                k = k + 1;
            }
            proof {
                assert(apply_delta_ops(base@, d, old_i, old_out) == apply_delta_ops(
                    base@,
                    d,
                    old_i + 1 + cmd,
                    old_out + d.subrange(old_i + 1, old_i + 1 + cmd),
                ));
            }
            i = i + 1 + n;
        }
    }
}


/// The decimal digits of `n`, most significant first.
pub open spec fn dec_digits(n: nat) -> Seq<u8>
    decreases n,
{
    if n < 10 {
        seq![(48 + n) as u8]
    } else {
        dec_digits(n / 10) + seq![(48 + n % 10) as u8]
    }
}

/// The loose-object label of an entry kind.
pub open spec fn kind_label(t: u8) -> Seq<char> {
    if t == 1 {
        "commit"@
    } else if t == 2 {
        "tree"@
    } else if t == 3 {
        "blob"@
    } else {
        "tag"@
    }
}

/// The canonical header prefixed to an object before hashing:
/// `<kind> <length>\0`.
pub open spec fn obj_header(t: u8, n: nat) -> Seq<u8> {
    ascii_bytes(kind_label(t)) + seq![32u8] + dec_digits(n) + seq![0u8]
}

/// The name of an object: the SHA-1 of its header-prefixed serialization.
pub open spec fn object_id_of(t: u8, data: Seq<u8>) -> Seq<u8> {
    sha1_of(obj_header(t, data.len()) + data)
}

/// The inflated body of the zlib stream at `pos`, which must inflate to
/// exactly `size` bytes, with the offset just past the stream.
pub open spec fn inflate_at(d: Seq<u8>, pos: int, size: nat) -> Option<(Seq<u8>, int)> {
    if 0 <= pos <= d.len() {
        match zlib_inflate(d.skip(pos)) {
            Some((o, u)) => if o.len() == size && u <= d.len() - pos {
                Some((o, pos + u))
            } else {
                None
            },
            None => None,
        }
    } else {
        None
    }
}

/// The offset recorded for `id` among the entries decoded so far.
pub open spec fn env_lookup(env: Seq<(Seq<u8>, int)>, id: Seq<u8>) -> Option<int>
    decreases env.len(),
{
    if env.len() == 0 {
        None
    } else if env.first().0 == id {
        Some(env.first().1)
    } else {
        env_lookup(env.drop_first(), id)
    }
}

/// The object stored at pack offset `off`, fully delta-resolved: its kind,
/// its canonical bytes, and the offset just past the entry.  An ofs-delta
/// follows its relative base offset; a ref-delta looks its base up among
/// the already-decoded entries, and fails loudly when the base is absent
/// or not earlier in the pack.
pub open spec fn decode_entry_at(d: Seq<u8>, off: int, env: Seq<(Seq<u8>, int)>) -> Option<
    (u8, Seq<u8>, int),
>
    decreases off,
    when off >= 0
{
    match parse_entry_header(d, off) {
        None => None,
        Some((t, size, body)) => if t <= 4 {
            match inflate_at(d, body, size) {
                Some((o, nx)) => Some((t, o, nx)),
                None => None,
            }
        } else if t == 6 {
            match parse_ofs_dist(d, body) {
                None => None,
                Some((dist, body2)) => if 0 <= off - dist < off {
                    match decode_entry_at(d, off - dist, env) {
                        None => None,
                        Some((bt, bb, _)) => match inflate_at(d, body2, size) {
                            None => None,
                            Some((delta, nx)) => match apply_delta(bb, delta) {
                                Some(o) => Some((bt, o, nx)),
                                None => None,
                            },
                        },
                    }
                } else {
                    None
                },
            }
        } else {
            if body + 20 <= d.len() {
                match env_lookup(env, d.subrange(body, body + 20)) {
                    None => None,
                    Some(b) => if 0 <= b < off {
                        match decode_entry_at(d, b, env) {
                            None => None,
                            Some((bt, bb, _)) => match inflate_at(d, body + 20, size) {
                                None => None,
                                Some((delta, nx)) => match apply_delta(bb, delta) {
                                    Some(o) => Some((bt, o, nx)),
                                    None => None,
                                },
                            },
                        }
                    } else {
                        None
                    },
                }
            } else {
                None
            }
        },
    }
}

/// The `n` entries from offset `off` on, each as `(id, kind, bytes)`, the
/// id of every decoded entry being recorded for ref-delta resolution; the
/// last entry must end exactly at the trailing checksum.
pub open spec fn walk_entries(d: Seq<u8>, off: int, n: nat, env: Seq<(Seq<u8>, int)>) -> Option<
    Seq<(Seq<u8>, u8, Seq<u8>)>,
>
    decreases n,
{
    if n == 0 {
        if off == d.len() - 20 {
            Some(Seq::empty())
        } else {
            None
        }
    } else {
        match decode_entry_at(d, off, env) {
            None => None,
            Some((t, bytes, nx)) => {
                let id = object_id_of(t, bytes);
                match walk_entries(d, nx, (n - 1) as nat, env.push((id, off))) {
                    None => None,
                    Some(rest) => Some(seq![(id, t, bytes)] + rest),
                }
            },
        }
    }
}

/// A big-endian 32-bit word of the pack header.
pub open spec fn be32(d: Seq<u8>, i: int) -> nat {
    (d[i] as nat * 0x1000000 + d[i + 1] as nat * 0x10000 + d[i + 2] as nat * 0x100 + d[i + 3]
        as nat) as nat
}

/// The objects of a well-formed version-2 packfile: the `PACK` signature,
/// the object count, each entry decoded and named, and the trailing SHA-1
/// over everything before it.
pub open spec fn decode_pack_spec(d: Seq<u8>) -> Option<Seq<(Seq<u8>, u8, Seq<u8>)>> {
    if d.len() >= 32 && d[0] == 80 && d[1] == 65 && d[2] == 67 && d[3] == 75 && d[4] == 0 && d[5]
        == 0 && d[6] == 0 && d[7] == 2 && sha1_of(d.take(d.len() - 20)) == d.skip(d.len() - 20) {
        walk_entries(d, 12, be32(d, 8), Seq::empty())
    } else {
        None
    }
}


/// Whether the machine this decoder runs on can hold the entry at `off`:
/// every inflated size named along its delta chain fits a `usize`.  This
/// is the one machine limit the decoder imposes beyond the format itself.
pub open spec fn entry_supported(d: Seq<u8>, off: int, env: Seq<(Seq<u8>, int)>) -> bool
    decreases off,
    when off >= 0
{
    match parse_entry_header(d, off) {
        None => true,
        Some((t, size, body)) => size <= usize::MAX && if t <= 4 {
            true
        } else if t == 6 {
            match parse_ofs_dist(d, body) {
                None => true,
                Some((dist, _)) => if 0 <= off - dist < off {
                    entry_supported(d, off - dist, env)
                } else {
                    true
                },
            }
        } else {
            if body + 20 <= d.len() {
                match env_lookup(env, d.subrange(body, body + 20)) {
                    None => true,
                    Some(b) => if 0 <= b < off {
                        entry_supported(d, b, env)
                    } else {
                        true
                    },
                }
            } else {
                true
            }
        },
    }
}

/// Whether every entry of the walk is machine-supported and every decoded
/// object's header-prefixed serialization is accepted by the hasher.
pub open spec fn walk_supported(d: Seq<u8>, off: int, n: nat, env: Seq<(Seq<u8>, int)>) -> bool
    decreases n,
{
    n > 0 ==> entry_supported(d, off, env) && match decode_entry_at(d, off, env) {
        None => true,
        Some((t, bytes, nx)) => {
            let id = object_id_of(t, bytes);
            crate::ext::sha1_ok(obj_header(t, bytes.len()) + bytes) && walk_supported(
                d,
                nx,
                (n - 1) as nat,
                env.push((id, off)),
            )
        },
    }
}

/// Whether a pack is within this decoder's reach: the trailing checksum
/// prefix and every decoded object are accepted by the hasher, and every
/// inflated size fits the machine's word.  Decoding is owed exactly for
/// well-formed packs within this reach.
pub open spec fn pack_supported(d: Seq<u8>) -> bool {
    crate::ext::sha1_ok(d.take(d.len() - 20)) && walk_supported(d, 12, be32(d, 8), Seq::empty())
}

/// A decoded, delta-resolved object with its computed name.
pub struct DecodedObject {
    pub id: ObjectId,
    pub kind: u8,
    pub data: Vec<u8>,
}

impl View for DecodedObject {
    type V = (Seq<u8>, u8, Seq<u8>);

    open spec fn view(&self) -> (Seq<u8>, u8, Seq<u8>) {
        (self.id@, self.kind, self.data@)
    }
}

/// Appends the decimal digits of `n`.  Mirrors `dec_digits`.
fn push_decimal(out: &mut Vec<u8>, n: usize)
    ensures
        final(out)@ == old(out)@ + dec_digits(n as nat),
    decreases n,
{
    if n < 10 {
        out.push(48 + (n as u8));
        assert(final(out)@ =~= old(out)@ + dec_digits(n as nat));
    } else {
        push_decimal(out, n / 10);
        out.push(48 + ((n % 10) as u8));
        assert(final(out)@ =~= old(out)@ + (dec_digits((n / 10) as nat) + seq![
            (48 + (n as nat) % 10) as u8,
        ]));
    }
}

/// The canonical header-prefixed serialization of an object.
fn obj_header_prefixed(t: u8, data: &Vec<u8>) -> (r: Vec<u8>)
    requires
        1 <= t <= 4,
    ensures
        r@ == obj_header(t, data@.len()) + data@,
{
    proof {
        reveal_strlit("commit");
        reveal_strlit("tree");
        reveal_strlit("blob");
        reveal_strlit("tag");
        assert(vstd::string::is_ascii("commit")) by {
            assert forall|i: int| 0 <= i < "commit"@.len() implies ("commit"@[i] as u32) < 128 by {}
        }
        assert(vstd::string::is_ascii("tree")) by {
            assert forall|i: int| 0 <= i < "tree"@.len() implies ("tree"@[i] as u32) < 128 by {}
        }
        assert(vstd::string::is_ascii("blob")) by {
            assert forall|i: int| 0 <= i < "blob"@.len() implies ("blob"@[i] as u32) < 128 by {}
        }
        assert(vstd::string::is_ascii("tag")) by {
            assert forall|i: int| 0 <= i < "tag"@.len() implies ("tag"@[i] as u32) < 128 by {}
        }
    }
    let label: &[u8] = if t == 1 {
        crate::text::str_bytes("commit")
    } else if t == 2 {
        crate::text::str_bytes("tree")
    } else if t == 3 {
        crate::text::str_bytes("blob")
    } else {
        crate::text::str_bytes("tag")
    };
    assert(label@ == ascii_bytes(kind_label(t)));
    let mut out: Vec<u8> = Vec::new();
    let mut i: usize = 0;
    while i < label.len()
        invariant
            i <= label@.len(),
            out@ == label@.take(i as int),
        decreases label@.len() - i,
    {
        out.push(label[i]);
        assert(out@ =~= label@.take(i + 1));
        i = i + 1;
    }
    assert(out@ =~= label@);
    out.push(32);
    push_decimal(&mut out, data.len());
    out.push(0);
    let ghost header = out@;
    assert(header =~= obj_header(t, data@.len()));
    let mut i: usize = 0;
    while i < data.len()
        invariant
            i <= data@.len(),
            out@ == header + data@.take(i as int),
        decreases data@.len() - i,
    {
        out.push(data[i]);
        assert(out@ =~= header + data@.take(i + 1));
        i = i + 1;
    }
    assert(out@ =~= obj_header(t, data@.len()) + data@);
    out
}

/// The name of a decoded object: SHA-1 over its header-prefixed bytes.
/// Naming succeeds exactly when the hasher accepts the serialization.
fn object_id_exec(t: u8, data: &Vec<u8>) -> (r: Result<ObjectId, HarvestError>)
    requires
        1 <= t <= 4,
    ensures
        r is Ok <==> crate::ext::sha1_ok(obj_header(t, data@.len()) + data@),
        r matches Ok(id) ==> id.wf() && id@ == object_id_of(t, data@),
        r matches Err(e) ==> e is PackDecode,
{
    let buf = obj_header_prefixed(t, data);
    match sha1_digest(buf.as_slice()) {
        Some(h) => Ok(ObjectId::from_bytes(h)),
        None => Err(HarvestError::PackDecode),
    }
}

/// Looks an id up among the recorded entries.  Mirrors `env_lookup`.
fn env_lookup_exec(env: &Vec<(ObjectId, usize)>, id: &[u8]) -> (r: Option<usize>)
    ensures
        env_lookup(env@.map_values(|p: (ObjectId, usize)| (p.0@, p.1 as int)), id@) == match r {
            Some(b) => Some(b as int),
            None => None,
        },
{
    let ghost ev = env@.map_values(|p: (ObjectId, usize)| (p.0@, p.1 as int));
    let mut i: usize = 0;
    while i < env.len()
        invariant
            i <= env@.len(),
            ev == env@.map_values(|p: (ObjectId, usize)| (p.0@, p.1 as int)),
            forall|j: int| 0 <= j < i ==> (#[trigger] ev[j]).0 != id@,
        decreases env@.len() - i,
    {
        if crate::text::eq_bytes(env[i].0.as_bytes_ref(), id) {
            assert(ev[i as int].0 == id@);
            proof {
                lemma_env_lookup_hits(ev, id@, i as int);
            }
            return Some(env[i].1);
        }
        assert(ev[i as int].0 != id@);
        i = i + 1;
    }
    proof {
        lemma_env_lookup_misses(ev, id@);
    }
    None
}

/// When `id` first occurs at index `i`, the lookup returns that offset.
proof fn lemma_env_lookup_hits(env: Seq<(Seq<u8>, int)>, id: Seq<u8>, i: int)
    requires
        0 <= i < env.len(),
        env[i].0 == id,
        forall|j: int| 0 <= j < i ==> (#[trigger] env[j]).0 != id,
    ensures
        env_lookup(env, id) == Some(env[i].1),
    decreases i,
{
    if i > 0 {
        lemma_env_lookup_hits(env.drop_first(), id, i - 1);
    }
}

/// When `id` is absent, the lookup fails.
proof fn lemma_env_lookup_misses(env: Seq<(Seq<u8>, int)>, id: Seq<u8>)
    requires
        forall|j: int| 0 <= j < env.len() ==> (#[trigger] env[j]).0 != id,
    ensures
        env_lookup(env, id) is None,
    decreases env.len(),
{
    if env.len() > 0 {
        lemma_env_lookup_misses(env.drop_first(), id);
    }
}



/// What any successful decode yields: a plain object kind and an end
/// offset inside the pack.
proof fn lemma_decode_entry_bounds(d: Seq<u8>, off: int, env: Seq<(Seq<u8>, int)>)
    requires
        off >= 0,
        decode_entry_at(d, off, env) is Some,
    ensures
        ({
            let q = decode_entry_at(d, off, env).unwrap();
            1 <= q.0 <= 4 && 0 <= q.2 <= d.len()
        }),
    decreases off,
{
    match parse_entry_header(d, off) {
        None => {},
        Some((t, size, body)) => {
            if t <= 4 {
            } else if t == 6 {
                match parse_ofs_dist(d, body) {
                    None => {},
                    Some((dist, _)) => {
                        if 0 <= off - dist < off {
                            lemma_decode_entry_bounds(d, off - dist, env);
                        }
                    },
                }
            } else {
                if body + 20 <= d.len() {
                    match env_lookup(env, d.subrange(body, body + 20)) {
                        None => {},
                        Some(b) => {
                            if 0 <= b < off {
                                lemma_decode_entry_bounds(d, b, env);
                            }
                        },
                    }
                }
            }
        },
    }
}

/// The view of the recorded entries, for the specification.
pub open spec fn env_view(env: Seq<(ObjectId, usize)>) -> Seq<(Seq<u8>, int)> {
    env.map_values(|p: (ObjectId, usize)| (p.0@, p.1 as int))
}

/// Decodes the entry at `off`, resolving deltas.  Mirrors
/// `decode_entry_at`; a failure of the inflater or hasher on an entry the
/// specification accepts is also reported as a decode failure.  Resolved
/// entries pass through the delta cache, so a shared base inflates once.
fn decode_entry_at_exec(
    d: &[u8],
    off: usize,
    env: &Vec<(ObjectId, usize)>,
    cache: &mut DeltaCache,
) -> (r: Result<(u8, Vec<u8>, usize), HarvestError>)
    requires
        old(cache).wf(),
        old(cache).ok_for(d@, env_view(env@)),
    ensures
        final(cache).wf(),
        final(cache).ok_for(d@, env_view(env@)),
        r matches Ok(q) ==> decode_entry_at(d@, off as int, env_view(env@)) == Some(
            (q.0, q.1@, q.2 as int),
        ) && q.2 <= d@.len() && 1 <= q.0 <= 4,
        r matches Err(e) ==> e is PackDecode,
        (decode_entry_at(d@, off as int, env_view(env@)) is Some && entry_supported(
            d@,
            off as int,
            env_view(env@),
        )) ==> r is Ok,
    decreases off,
{
    let dl: usize = d.len();
    match cache.get(off) {
        Some((kind, data, next)) => {
            proof {
                assert(decode_entry_at(d@, off as int, env_view(env@)) == Some(
                    (kind, data@, next as int),
                ));
                lemma_decode_entry_bounds(d@, off as int, env_view(env@));
            }
            return Ok((kind, data, next));
        },
        None => {},
    }
    let ghost cache_in = *cache;
    let (t, size, body) = match parse_entry_header_exec(d, off) {
        Ok(q) => q,
        Err(e) => {
            return Err(e);
        },
    };
    if size > usize::MAX as u64 {
        // An entry this large cannot exist in an in-memory pack: its
        // inflated body could never match the claimed size.
        return Err(HarvestError::PackDecode);
    }
    let size = size as usize;
    if t <= KIND_TAG {
        let (o, u) = match zlib_decompress_prefix(d, body, size) {
            Some(p) => p,
            None => {
                return Err(HarvestError::PackDecode);
            },
        };
        if o.len() != size {
            return Err(HarvestError::PackDecode);
        }
        assert(inflate_at(d@, body as int, size as nat) == Some((o@, body + u)));
        proof {
            assert(decode_entry_at(d@, off as int, env_view(env@)) == Some(
                (t, o@, (body + u) as int),
            ));
        }
        cache_store(d, off, env, cache, t, &o, body + u);
        Ok((t, o, body + u))
    } else if t == KIND_OFS_DELTA {
        let (dist, body2) = match parse_ofs_dist_exec(d, body) {
            Ok(q) => q,
            Err(e) => {
                return Err(e);
            },
        };
        if !(dist >= 1 && dist <= off as u64) {
            return Err(HarvestError::PackDecode);
        }
        let base_off = off - (dist as usize);
        let (bt, bb, _) = match decode_entry_at_exec(d, base_off, env, cache) {
            Ok(q) => q,
            Err(e) => {
                return Err(e);
            },
        };
        let (delta, u) = match zlib_decompress_prefix(d, body2, size) {
            Some(p) => p,
            None => {
                return Err(HarvestError::PackDecode);
            },
        };
        if delta.len() != size {
            return Err(HarvestError::PackDecode);
        }
        assert(inflate_at(d@, body2 as int, size as nat) == Some((delta@, body2 + u)));
        let o = match apply_delta_exec(&bb, delta.as_slice()) {
            Ok(v) => v,
            Err(e) => {
                return Err(e);
            },
        };
        proof {
            assert(decode_entry_at(d@, off as int, env_view(env@)) == Some(
                (bt, o@, (body2 + u) as int),
            ));
        }
        cache_store(d, off, env, cache, bt, &o, body2 + u);
        Ok((bt, o, body2 + u))
    } else {
        if d.len() - body < 20 {
            return Err(HarvestError::PackDecode);
        }
        let idend: usize = body + 20;
        let mut base_id: Vec<u8> = Vec::new();
        let mut i: usize = body;
        while i < idend
            invariant
                idend == body + 20,
                body + 20 <= d@.len(),
                body <= i <= body + 20,
                base_id@ == d@.subrange(body as int, i as int),
            decreases body + 20 - i,
        {
            base_id.push(d[i]);
            assert(base_id@ =~= d@.subrange(body as int, i + 1));
            i = i + 1;
        }
        let b = match env_lookup_exec(env, base_id.as_slice()) {
            Some(b) => b,
            None => {
                return Err(HarvestError::PackDecode);
            },
        };
        if b >= off {
            return Err(HarvestError::PackDecode);
        }
        let (bt, bb, _) = match decode_entry_at_exec(d, b, env, cache) {
            Ok(q) => q,
            Err(e) => {
                return Err(e);
            },
        };
        let (delta, u) = match zlib_decompress_prefix(d, body + 20, size) {
            Some(p) => p,
            None => {
                return Err(HarvestError::PackDecode);
            },
        };
        if delta.len() != size {
            return Err(HarvestError::PackDecode);
        }
        assert(inflate_at(d@, body + 20, size as nat) == Some((delta@, body + 20 + u)));
        let o = match apply_delta_exec(&bb, delta.as_slice()) {
            Ok(v) => v,
            Err(e) => {
                return Err(e);
            },
        };
        proof {
            assert(decode_entry_at(d@, off as int, env_view(env@)) == Some(
                (bt, o@, (body + 20 + u) as int),
            ));
        }
        cache_store(d, off, env, cache, bt, &o, body + 20 + u);
        Ok((bt, o, body + 20 + u))
    }
}

/// Records one freshly resolved entry in the cache, keeping every cached
/// entry a faithful decode.
fn cache_store(
    d: &[u8],
    off: usize,
    env: &Vec<(ObjectId, usize)>,
    cache: &mut DeltaCache,
    kind: u8,
    data: &Vec<u8>,
    next: usize,
)
    requires
        old(cache).wf(),
        old(cache).ok_for(d@, env_view(env@)),
        decode_entry_at(d@, off as int, env_view(env@)) == Some((kind, data@, next as int)),
    ensures
        final(cache).wf(),
        final(cache).ok_for(d@, env_view(env@)),
{
    cache.put(off, kind, data, next);
    proof {
        assert forall|e: (int, u8, Seq<u8>, int)|
            cache.view_entries().contains(e) implies e.0 >= 0 && decode_entry_at(
            d@,
            e.0,
            env_view(env@),
        ) == Some((e.1, e.2, e.3)) by {
            if !old(cache).view_entries().contains(e) {
                assert(e == (off as int, kind, data@, next as int));
            }
        }
    }
}

/// Decodes a whole packfile into its objects, each named by its SHA-1.
///
/// On success the result is exactly what `decode_pack_spec` assigns to the
/// bytes, so the decoding and every object name are functions of the pack
/// alone.
pub fn decode_pack(d: &[u8]) -> (r: Result<Vec<DecodedObject>, HarvestError>)
    ensures
        r matches Ok(v) ==> decode_pack_spec(d@) == Some(
            v@.map_values(|o: DecodedObject| o@),
        ) && forall|k: int| 0 <= k < v@.len() ==> (#[trigger] v@[k]).id.wf() && 1 <= v@[k].kind
            <= 4,
        r matches Err(e) ==> e is PackDecode,
        (decode_pack_spec(d@) is Some && pack_supported(d@)) ==> r is Ok,
{
    if d.len() < 32 {
        return Err(HarvestError::PackDecode);
    }
    if !(d[0] == 80 && d[1] == 65 && d[2] == 67 && d[3] == 75 && d[4] == 0 && d[5] == 0 && d[6]
        == 0 && d[7] == 2) {
        return Err(HarvestError::PackDecode);
    }
    let body_end = d.len() - 20;
    let mut prefix: Vec<u8> = Vec::new();
    let mut i: usize = 0;
    while i < body_end
        invariant
            body_end == d@.len() - 20,
            i <= body_end,
            prefix@ == d@.take(i as int),
        decreases body_end - i,
    {
        prefix.push(d[i]);
        assert(prefix@ =~= d@.take(i + 1));
        i = i + 1;
    }
    let trailer_hash = match sha1_digest(prefix.as_slice()) {
        Some(h) => h,
        None => {
            return Err(HarvestError::PackDecode);
        },
    };
    let mut trailer: Vec<u8> = Vec::new();
    let mut i: usize = body_end;
    while i < d.len()
        invariant
            body_end == d@.len() - 20,
            body_end <= i <= d@.len(),
            trailer@ == d@.subrange(body_end as int, i as int),
        decreases d@.len() - i,
    {
        trailer.push(d[i]);
        assert(trailer@ =~= d@.subrange(body_end as int, i + 1));
        i = i + 1;
    }
    if !crate::text::eq_bytes(trailer_hash.as_slice(), trailer.as_slice()) {
        return Err(HarvestError::PackDecode);
    }
    assert(sha1_of(d@.take(d@.len() - 20)) == d@.skip(d@.len() - 20));
    let count: u64 = (d[8] as u64) * 0x1000000 + (d[9] as u64) * 0x10000 + (d[10] as u64) * 0x100
        + (d[11] as u64);
    assert(count as nat == be32(d@, 8));
    let ghost dv = d@;
    let ghost full = walk_entries(dv, 12, be32(dv, 8), Seq::empty());
    let mut out: Vec<DecodedObject> = Vec::new();
    let mut env: Vec<(ObjectId, usize)> = Vec::new();
    let mut cache = DeltaCache::new(10 * 1024 * 1024);
    let mut off: usize = 12;
    let mut remaining: u64 = count;
    proof {
        assert(env_view(env@) =~= Seq::<(Seq<u8>, int)>::empty());
        assert(out@.map_values(|o: DecodedObject| o@) =~= Seq::<(Seq<u8>, u8, Seq<u8>)>::empty());
        let w0 = walk_entries(dv, 12, be32(dv, 8), Seq::empty());
        if w0 is Some {
            let rest = w0.unwrap();
            assert(out@.map_values(|o: DecodedObject| o@) + rest =~= rest);
        }
    }
    loop
        invariant
            dv == d@,
            full == walk_entries(dv, 12, be32(dv, 8), Seq::empty()),
            decode_pack_spec(dv) == full,
            body_end == dv.len() - 20,
            off <= dv.len(),
            forall|k: int| 0 <= k < out@.len() ==> (#[trigger] out@[k]).id.wf() && 1
                <= out@[k].kind <= 4,
            cache.wf(),
            cache.ok_for(dv, env_view(env@)),
            (decode_pack_spec(dv) is Some && pack_supported(dv)) ==> walk_supported(
                dv,
                off as int,
                remaining as nat,
                env_view(env@),
            ),
            match walk_entries(dv, off as int, remaining as nat, env_view(env@)) {
                Some(rest) => full == Some(out@.map_values(|o: DecodedObject| o@) + rest),
                None => full is None,
            },
        decreases remaining,
    {
        let ghost old_out = out@;
        let ghost old_env = env_view(env@);
        if remaining == 0 {
            if off == body_end {
                assert(walk_entries(dv, off as int, 0, old_env) == Some(
                    Seq::<(Seq<u8>, u8, Seq<u8>)>::empty(),
                ));
                assert(old_out.map_values(|o: DecodedObject| o@) + Seq::<
                    (Seq<u8>, u8, Seq<u8>),
                >::empty() =~= old_out.map_values(|o: DecodedObject| o@));
                return Ok(out);
            } else {
                return Err(HarvestError::PackDecode);
            }
        }
        let (t, bytes, nx) = match decode_entry_at_exec(d, off, &env, &mut cache) {
            Ok(q) => q,
            Err(e) => {
                return Err(e);
            },
        };
        let id = match object_id_exec(t, &bytes) {
            Ok(id) => id,
            Err(e) => {
                return Err(e);
            },
        };
        proof {
            assert(walk_entries(dv, off as int, remaining as nat, old_env) == match walk_entries(
                dv,
                nx as int,
                (remaining - 1) as nat,
                old_env.push((id@, off as int)),
            ) {
                None => None::<Seq<(Seq<u8>, u8, Seq<u8>)>>,
                Some(rest) => Some(seq![(id@, t, bytes@)] + rest),
            });
        }
        let ghost new_elem = (id@, t, bytes@);
        env.push((id.duplicate(), off));
        out.push(DecodedObject { id, kind: t, data: bytes });
        proof {
            assert(env_view(env@) =~= old_env.push((new_elem.0, off as int)));
            assert(env_view(env@) =~= old_env + seq![(new_elem.0, off as int)]);
            assert forall|e: (int, u8, Seq<u8>, int)|
                cache.view_entries().contains(e) implies e.0 >= 0 && decode_entry_at(
                dv,
                e.0,
                env_view(env@),
            ) == Some((e.1, e.2, e.3)) by {
                lemma_decode_entry_monotone(dv, e.0, old_env, seq![(new_elem.0, off as int)]);
            }
            assert(out@.map_values(|o: DecodedObject| o@) =~= old_out.map_values(
                |o: DecodedObject| o@,
            ).push(new_elem));
            let w = walk_entries(dv, nx as int, (remaining - 1) as nat, env_view(env@));
            if w is Some {
                let rest = w.unwrap();
                assert(old_out.map_values(|o: DecodedObject| o@) + (seq![new_elem] + rest)
                    =~= out@.map_values(|o: DecodedObject| o@) + rest);
            }
        }
        off = nx;
        remaining = remaining - 1;
    }
}


/// Every object a well-formed pack decodes to is named by the SHA-1 of
/// its header-prefixed serialization: the id is recomputed from the
/// content, never read from the pack.
pub proof fn lemma_decoded_ids_are_hashes(d: Seq<u8>)
    ensures
        decode_pack_spec(d) matches Some(objs) ==> forall|k: int|
            0 <= k < objs.len() ==> (#[trigger] objs[k]).0 == object_id_of(objs[k].1, objs[k].2),
{
    if decode_pack_spec(d) is Some {
        lemma_walk_ids(d, 12, be32(d, 8), Seq::empty());
    }
}

proof fn lemma_walk_ids(d: Seq<u8>, off: int, n: nat, env: Seq<(Seq<u8>, int)>)
    ensures
        walk_entries(d, off, n, env) matches Some(objs) ==> forall|k: int|
            0 <= k < objs.len() ==> (#[trigger] objs[k]).0 == object_id_of(objs[k].1, objs[k].2),
    decreases n,
{
    if n > 0 && walk_entries(d, off, n, env) is Some {
        match decode_entry_at(d, off, env) {
            Some((t, bytes, nx)) => {
                let id = object_id_of(t, bytes);
                lemma_walk_ids(d, nx, (n - 1) as nat, env.push((id, off)));
                let rest = walk_entries(d, nx, (n - 1) as nat, env.push((id, off))).unwrap();
                let objs = seq![(id, t, bytes)] + rest;
                assert forall|k: int| 0 <= k < objs.len() implies (#[trigger] objs[k]).0
                    == object_id_of(objs[k].1, objs[k].2) by {
                    if k > 0 {
                        assert(objs[k] == rest[k - 1]);
                    }
                }
            },
            None => {},
        }
    }
}


/// A lookup that succeeds keeps its answer when later entries are
/// recorded: the environment only ever grows at the back, and the first
/// match wins.
proof fn lemma_env_lookup_monotone(env: Seq<(Seq<u8>, int)>, ext: Seq<(Seq<u8>, int)>, id: Seq<u8>)
    requires
        env_lookup(env, id) is Some,
    ensures
        env_lookup(env + ext, id) == env_lookup(env, id),
    decreases env.len(),
{
    assert(env.len() > 0);
    assert((env + ext).first() == env.first());
    if env.first().0 != id {
        lemma_env_lookup_monotone(env.drop_first(), ext, id);
        assert((env + ext).drop_first() =~= env.drop_first() + ext);
    }
}

/// An entry that decodes under some environment decodes to the same
/// object under any extension of it.
proof fn lemma_decode_entry_monotone(
    d: Seq<u8>,
    off: int,
    env: Seq<(Seq<u8>, int)>,
    ext: Seq<(Seq<u8>, int)>,
)
    requires
        off >= 0,
        decode_entry_at(d, off, env) is Some,
    ensures
        decode_entry_at(d, off, env + ext) == decode_entry_at(d, off, env),
    decreases off,
{
    match parse_entry_header(d, off) {
        None => {},
        Some((t, size, body)) => {
            if t <= 4 {
            } else if t == 6 {
                match parse_ofs_dist(d, body) {
                    None => {},
                    Some((dist, _)) => {
                        if 0 <= off - dist < off {
                            lemma_decode_entry_monotone(d, off - dist, env, ext);
                        }
                    },
                }
            } else {
                if body + 20 <= d.len() {
                    let id = d.subrange(body, body + 20);
                    match env_lookup(env, id) {
                        None => {},
                        Some(b) => {
                            lemma_env_lookup_monotone(env, ext, id);
                            if 0 <= b < off {
                                lemma_decode_entry_monotone(d, b, env, ext);
                            }
                        },
                    }
                }
            }
        },
    }
}


/// The payload bytes held by a sequence of cached entries.
pub open spec fn cache_bytes(s: Seq<(int, u8, Seq<u8>, int)>) -> int
    decreases s.len(),
{
    if s.len() == 0 {
        0
    } else {
        s.first().2.len() + cache_bytes(s.drop_first())
    }
}

proof fn lemma_cache_bytes_nonneg(s: Seq<(int, u8, Seq<u8>, int)>)
    ensures
        cache_bytes(s) >= 0,
    decreases s.len(),
{
    if s.len() > 0 {
        lemma_cache_bytes_nonneg(s.drop_first());
    }
}

proof fn lemma_cache_bytes_push(s: Seq<(int, u8, Seq<u8>, int)>, e: (int, u8, Seq<u8>, int))
    ensures
        cache_bytes(s.push(e)) == cache_bytes(s) + e.2.len(),
    decreases s.len(),
{
    if s.len() == 0 {
        assert(s.push(e).drop_first() =~= s);
    } else {
        lemma_cache_bytes_push(s.drop_first(), e);
        assert(s.push(e).drop_first() =~= s.drop_first().push(e));
        assert(s.push(e).first() == s.first());
    }
}

proof fn lemma_cache_bytes_remove_first(s: Seq<(int, u8, Seq<u8>, int)>)
    requires
        s.len() > 0,
    ensures
        cache_bytes(s.remove(0)) == cache_bytes(s) - s.first().2.len(),
{
    assert(s.remove(0) =~= s.drop_first());
}

proof fn lemma_cache_bytes_remove(s: Seq<(int, u8, Seq<u8>, int)>, i: int)
    requires
        0 <= i < s.len(),
    ensures
        cache_bytes(s.remove(i)) == cache_bytes(s) - s[i].2.len(),
    decreases i,
{
    if i == 0 {
        lemma_cache_bytes_remove_first(s);
    } else {
        lemma_cache_bytes_remove(s.drop_first(), i - 1);
        assert(s.remove(i).drop_first() =~= s.drop_first().remove(i - 1));
        assert(s.remove(i).first() == s.first());
    }
}

/// The delta-resolution cache: fully resolved entries keyed by pack
/// offset, least recently used first, capped by the payload bytes held —
/// not by the entry count.
pub struct DeltaCache {
    entries: Vec<(usize, u8, Vec<u8>, usize)>,
    total: usize,
    cap: usize,
}

impl DeltaCache {
    /// The cached entries, oldest first.
    pub closed spec fn view_entries(&self) -> Seq<(int, u8, Seq<u8>, int)> {
        self.entries@.map_values(
            |e: (usize, u8, Vec<u8>, usize)| (e.0 as int, e.1, e.2@, e.3 as int),
        )
    }

    /// The byte account is exact and under the cap.
    pub closed spec fn wf(&self) -> bool {
        self.total as int == cache_bytes(self.view_entries()) && self.total <= self.cap
    }

    /// Every cached entry is what decoding its offset yields.
    pub open spec fn ok_for(&self, d: Seq<u8>, env: Seq<(Seq<u8>, int)>) -> bool {
        forall|e: (int, u8, Seq<u8>, int)|
            self.view_entries().contains(e) ==> e.0 >= 0 && decode_entry_at(d, e.0, env) == Some(
                (e.1, e.2, e.3),
            )
    }

    /// An empty cache holding at most `cap` payload bytes.
    pub fn new(cap: usize) -> (r: Self)
        ensures
            r.wf(),
            r.view_entries() == Seq::<(int, u8, Seq<u8>, int)>::empty(),
    {
        let r = DeltaCache { entries: Vec::new(), total: 0, cap };
        proof {
            assert(r.view_entries() =~= Seq::<(int, u8, Seq<u8>, int)>::empty());
        }
        r
    }

    /// The cached object at `off`, if any, touching it as most recently
    /// used.  A miss promises nothing: the cache may have evicted it.
    pub fn get(&mut self, off: usize) -> (r: Option<(u8, Vec<u8>, usize)>)
        requires
            old(self).wf(),
        ensures
            final(self).wf(),
            forall|e: (int, u8, Seq<u8>, int)|
                final(self).view_entries().contains(e) ==> old(self).view_entries().contains(e),
            r matches Some(q) ==> old(self).view_entries().contains(
                (off as int, q.0, q.1@, q.2 as int),
            ),
    {
        let ghost v0 = self.view_entries();
        let mut i: usize = 0;
        while i < self.entries.len()
            invariant
                i <= self.entries@.len(),
                self == old(self),
                self.wf(),
                v0 == self.view_entries(),
            decreases self.entries@.len() - i,
        {
            if self.entries[i].0 == off {
                let hit = self.entries.remove(i);
                let data = clone_bytes(&hit.2);
                let kind = hit.1;
                let next = hit.3;
                self.entries.push(hit);
                proof {
                    assert(v0[i as int] == (off as int, kind, data@, next as int));
                    assert(self.view_entries() =~= v0.remove(i as int).push(v0[i as int]));
                    lemma_cache_bytes_remove(v0, i as int);
                    lemma_cache_bytes_push(v0.remove(i as int), v0[i as int]);
                    assert forall|e: (int, u8, Seq<u8>, int)|
                        self.view_entries().contains(e) implies v0.contains(e) by {
                        let k = choose|k: int|
                            0 <= k < self.view_entries().len() && self.view_entries()[k] == e;
                        if k < v0.len() - 1 {
                            if k < i {
                                assert(v0[k] == e);
                            } else {
                                assert(v0[k + 1] == e);
                            }
                        } else {
                            assert(v0[i as int] == e);
                        }
                    }
                }
                return Some((kind, data, next));
            }
            i = i + 1;
        }
        None
    }

    /// Stores one resolved entry, evicting the least recently used
    /// entries until the payload bytes fit the cap; an entry larger than
    /// the whole cap is not stored at all.
    pub fn put(&mut self, off: usize, kind: u8, data: &Vec<u8>, next: usize)
        requires
            old(self).wf(),
        ensures
            final(self).wf(),
            forall|e: (int, u8, Seq<u8>, int)|
                final(self).view_entries().contains(e) ==> old(self).view_entries().contains(e)
                    || e == (off as int, kind, data@, next as int),
    {
        if data.len() > self.cap {
            return ;
        }
        let dlen = data.len();
        let ghost v0 = self.view_entries();
        while self.cap - self.total < dlen
            invariant
                self.wf(),
                self.cap == old(self).cap,
                dlen <= self.cap,
                dlen == data@.len(),
                forall|e: (int, u8, Seq<u8>, int)|
                    self.view_entries().contains(e) ==> v0.contains(e),
            decreases self.entries@.len(),
        {
            let ghost vc = self.view_entries();
            proof {
                if self.entries@.len() == 0 {
                    assert(vc =~= Seq::<(int, u8, Seq<u8>, int)>::empty());
                    assert(cache_bytes(vc) == 0);
                    assert(false);
                }
                lemma_cache_bytes_remove_first(vc);
                lemma_cache_bytes_nonneg(vc.remove(0));
            }
            let evicted = self.entries.remove(0);
            self.total = self.total - evicted.2.len();
            proof {
                assert(self.view_entries() =~= vc.remove(0));
                assert forall|e: (int, u8, Seq<u8>, int)|
                    self.view_entries().contains(e) implies vc.contains(e) by {
                    let k = choose|k: int|
                        0 <= k < self.view_entries().len() && self.view_entries()[k] == e;
                    assert(vc[k + 1] == e);
                }
            }
        }
        let ghost vb = self.view_entries();
        self.entries.push((off, kind, clone_bytes(data), next));
        self.total = self.total + dlen;
        proof {
            assert(self.view_entries() =~= vb.push((off as int, kind, data@, next as int)));
            lemma_cache_bytes_push(vb, (off as int, kind, data@, next as int));
            assert forall|e: (int, u8, Seq<u8>, int)|
                self.view_entries().contains(e) implies v0.contains(e) || e == (
                off as int,
                kind,
                data@,
                next as int,
            ) by {
                let k = choose|k: int|
                    0 <= k < self.view_entries().len() && self.view_entries()[k] == e;
                if k < vb.len() {
                    assert(vb[k] == e);
                }
            }
        }
    }
}

/// A byte-for-byte copy.
fn clone_bytes(v: &Vec<u8>) -> (r: Vec<u8>)
    ensures
        r@ == v@,
{
    let mut out: Vec<u8> = Vec::new();
    let mut i: usize = 0;
    while i < v.len()
        invariant
            i <= v@.len(),
            out@ == v@.take(i as int),
        decreases v@.len() - i,
    {
        out.push(v[i]);
        assert(out@ =~= v@.take(i + 1));
        i = i + 1;
    }
    assert(out@ =~= v@);
    out
}


} // verus!
