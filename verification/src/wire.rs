use vstd::prelude::*;

use crate::errors::HarvestError;
use crate::ids::{bytes_to_hex, ObjectId};
use crate::pktline::{
    append_delim, append_flush, append_text_line, pkt_delim, pkt_flush, pkt_parse_at,
    pkt_text_line, read_pkt_line, Pkt, PktOwned,
};
use crate::text::{ascii_bytes, eq_bytes, str_bytes, trim_ascii, trim_ascii_exec};

verus! {

/// One `want` line of a fetch request: the id as forty hex digits.
pub open spec fn want_line(id: Seq<u8>) -> Seq<u8> {
    pkt_text_line(ascii_bytes("want "@) + bytes_to_hex(id))
}

/// The `want` lines for a sequence of ids, in order.
pub open spec fn want_lines(ids: Seq<Seq<u8>>) -> Seq<u8>
    decreases ids.len(),
{
    if ids.len() == 0 {
        Seq::empty()
    } else {
        want_line(ids.first()) + want_lines(ids.drop_first())
    }
}

/// The body of a version-2 `fetch` request: command and agent, a delimiter,
/// one `want` per target, `ofs-delta`, the shallow/filter pair when history
/// and foreign blobs are to be pruned, `no-progress`, `done` and a flush.
pub open spec fn fetch_request_body(ids: Seq<Seq<u8>>, shallow_no_blobs: bool) -> Seq<u8> {
    pkt_text_line(ascii_bytes("command=fetch"@)) + pkt_text_line(
        ascii_bytes("agent=git/aur-mirror"@),
    ) + pkt_delim() + want_lines(ids) + pkt_text_line(ascii_bytes("ofs-delta"@)) + (
    if shallow_no_blobs {
        pkt_text_line(ascii_bytes("deepen 1"@)) + pkt_text_line(ascii_bytes("filter blob:none"@))
    } else {
        Seq::empty()
    }) + pkt_text_line(ascii_bytes("no-progress"@)) + pkt_text_line(ascii_bytes("done"@))
        + pkt_flush()
}

/// Builds the fetch request body for the given target ids.
///
/// The first round trip of a harvest passes `shallow_no_blobs` to request
/// tip-only history without blobs; the second round trip re-requests the
/// `.SRCINFO` blobs alone and leaves it off.
pub fn build_fetch_request_body(ids: &Vec<ObjectId>, shallow_no_blobs: bool) -> (r: Vec<u8>)
    requires
        forall|i: int| 0 <= i < ids@.len() ==> (#[trigger] ids@[i]).wf(),
    ensures
        r@ == fetch_request_body(ids@.map_values(|id: ObjectId| id@), shallow_no_blobs),
{
    proof {
        reveal_strlit("want ");
        reveal_strlit("command=fetch");
        reveal_strlit("agent=git/aur-mirror");
        reveal_strlit("ofs-delta");
        reveal_strlit("deepen 1");
        reveal_strlit("filter blob:none");
        reveal_strlit("no-progress");
        reveal_strlit("done");
        assert(vstd::string::is_ascii("want ")) by {
            assert forall|i: int| 0 <= i < "want "@.len() implies ("want "@[i] as u32) < 128 by {}
        }
        assert(vstd::string::is_ascii("command=fetch")) by {
            assert forall|i: int|
                0 <= i < "command=fetch"@.len() implies ("command=fetch"@[i] as u32) < 128 by {}
        }
        assert(vstd::string::is_ascii("agent=git/aur-mirror")) by {
            assert forall|i: int|
                0 <= i < "agent=git/aur-mirror"@.len() implies ("agent=git/aur-mirror"@[i]
                    as u32) < 128 by {}
        }
        assert(vstd::string::is_ascii("ofs-delta")) by {
            assert forall|i: int|
                0 <= i < "ofs-delta"@.len() implies ("ofs-delta"@[i] as u32) < 128 by {}
        }
        assert(vstd::string::is_ascii("deepen 1")) by {
            assert forall|i: int|
                0 <= i < "deepen 1"@.len() implies ("deepen 1"@[i] as u32) < 128 by {}
        }
        assert(vstd::string::is_ascii("filter blob:none")) by {
            assert forall|i: int|
                0 <= i < "filter blob:none"@.len() implies ("filter blob:none"@[i] as u32)
                    < 128 by {}
        }
        assert(vstd::string::is_ascii("no-progress")) by {
            assert forall|i: int|
                0 <= i < "no-progress"@.len() implies ("no-progress"@[i] as u32) < 128 by {}
        }
        assert(vstd::string::is_ascii("done")) by {
            assert forall|i: int| 0 <= i < "done"@.len() implies ("done"@[i] as u32) < 128 by {}
        }
    }
    let ghost idseq = ids@.map_values(|id: ObjectId| id@);
    let mut out: Vec<u8> = Vec::new();
    append_text_line(&mut out, str_bytes("command=fetch"));
    append_text_line(&mut out, str_bytes("agent=git/aur-mirror"));
    append_delim(&mut out);
    let ghost before_wants = out@;
    let want_prefix = str_bytes("want ");
    assert(want_prefix@.len() == 5);
    let mut i: usize = 0;
    while i < ids.len()
        invariant
            forall|k: int| 0 <= k < ids@.len() ==> (#[trigger] ids@[k]).wf(),
            idseq == ids@.map_values(|id: ObjectId| id@),
            i <= ids@.len(),
            want_prefix@ == ascii_bytes("want "@),
            want_prefix@.len() == 5,
            out@ == before_wants + want_lines(idseq.take(i as int)),
        decreases ids@.len() - i,
    {
        let mut payload: Vec<u8> = Vec::new();
        let mut w: usize = 0;
        while w < want_prefix.len()
            invariant
                want_prefix@ == ascii_bytes("want "@),
                w <= want_prefix@.len(),
                payload@ == want_prefix@.take(w as int),
            decreases want_prefix@.len() - w,
        {
            payload.push(want_prefix[w]);
            assert(payload@ =~= want_prefix@.take(w + 1));
            w = w + 1;
        }
        assert(payload@ =~= ascii_bytes("want "@));
        let mut hex = ids[i].to_hex_bytes();
        payload.append(&mut hex);
        append_text_line(&mut out, payload.as_slice());
        proof {
            assert(payload@ == ascii_bytes("want "@) + bytes_to_hex(idseq[i as int]));
            lemma_want_lines_snoc(idseq, i as int);
            assert(out@ =~= before_wants + want_lines(idseq.take(i + 1)));
        }
        i = i + 1;
    }
    proof {
        assert(idseq.take(idseq.len() as int) =~= idseq);
    }
    append_text_line(&mut out, str_bytes("ofs-delta"));
    if shallow_no_blobs {
        append_text_line(&mut out, str_bytes("deepen 1"));
        append_text_line(&mut out, str_bytes("filter blob:none"));
    }
    append_text_line(&mut out, str_bytes("no-progress"));
    append_text_line(&mut out, str_bytes("done"));
    append_flush(&mut out);
    assert(out@ =~= fetch_request_body(idseq, shallow_no_blobs));
    out
}

proof fn lemma_want_lines_snoc(ids: Seq<Seq<u8>>, i: int)
    requires
        0 <= i < ids.len(),
    ensures
        want_lines(ids.take(i + 1)) == want_lines(ids.take(i)) + want_line(ids[i]),
    decreases i,
{
    let a = ids.take(i + 1);
    if i == 0 {
        assert(a.drop_first() =~= ids.take(0));
        assert(want_lines(ids.take(0)) =~= Seq::<u8>::empty());
        assert(want_lines(a) =~= want_line(ids[0]) + want_lines(ids.take(0)));
        assert(want_line(ids[0]) + Seq::<u8>::empty() =~= want_line(ids[0]));
        assert(Seq::<u8>::empty() + want_line(ids[0]) =~= want_line(ids[0]));
    } else {
        lemma_want_lines_snoc(ids.drop_first(), i - 1);
        assert(a.drop_first() =~= ids.drop_first().take(i));
        assert(ids.take(i).drop_first() =~= ids.drop_first().take(i - 1));
        assert(a.first() == ids.take(i).first());
        assert(want_lines(a) == want_line(ids[0]) + want_lines(ids.drop_first().take(i)));
        assert(want_lines(ids.take(i)) == want_line(ids[0]) + want_lines(
            ids.drop_first().take(i - 1),
        ));
        assert(ids.drop_first()[i - 1] == ids[i]);
        assert(want_line(ids[0]) + (want_lines(ids.drop_first().take(i - 1)) + want_line(ids[i]))
            =~= (want_line(ids[0]) + want_lines(ids.drop_first().take(i - 1))) + want_line(ids[i]));
    }
}

/// What demultiplexing a fetch response yields: the packfile bytes collected
/// from sideband channel 1, or the failure that ended the scan.
pub enum WireOutcome {
    /// The concatenated channel-1 bytes of the `packfile` section.
    Pack(Seq<u8>),
    /// A broken packet-line frame.
    Framing,
    /// The stream ended without a `packfile` section.
    NoSection,
    /// A channel-3 message from the server, preserved verbatim.
    Upstream(Seq<u8>),
}

/// The `packfile` section read from position `i` on: channel 1 extends the
/// pack, channel 2 progress is dropped, channel 3 aborts with the server's
/// message, and only a flush closes the section — a stream that ends, or
/// presents another framing packet, before the closing flush is corrupt.
pub open spec fn pack_section(d: Seq<u8>, i: int, acc: Seq<u8>) -> WireOutcome
    decreases d.len() - i,
    when 0 <= i <= d.len()
{
    match pkt_parse_at(d, i) {
        None => WireOutcome::Framing,
        Some((p, j)) => match p {
            Pkt::Flush => WireOutcome::Pack(acc),
            Pkt::Delim => WireOutcome::Framing,
            Pkt::ResponseEnd => WireOutcome::Framing,
            Pkt::Data(payload) => if payload.len() == 0 {
                WireOutcome::Framing
            } else if payload[0] == 1 {
                pack_section(d, j, acc + payload.drop_first())
            } else if payload[0] == 2 {
                pack_section(d, j, acc)
            } else if payload[0] == 3 {
                WireOutcome::Upstream(payload.drop_first())
            } else {
                WireOutcome::Framing
            },
        },
    }
}

/// The scan for the `packfile` section.  Outside a section (`skipping`
/// false) the next data line names a section: `packfile` enters the pack
/// reader, anything else is skipped up to its closing flush or delimiter.
pub open spec fn scan_sections(d: Seq<u8>, i: int, skipping: bool) -> WireOutcome
    decreases d.len() - i,
    when 0 <= i <= d.len()
{
    match pkt_parse_at(d, i) {
        None => if i == d.len() {
            WireOutcome::NoSection
        } else {
            WireOutcome::Framing
        },
        Some((p, j)) => match p {
            Pkt::Flush => if skipping {
                scan_sections(d, j, false)
            } else {
                WireOutcome::NoSection
            },
            Pkt::Delim => if skipping {
                scan_sections(d, j, false)
            } else {
                WireOutcome::NoSection
            },
            Pkt::ResponseEnd => WireOutcome::NoSection,
            Pkt::Data(payload) => if skipping {
                scan_sections(d, j, true)
            } else if trim_ascii(payload) == ascii_bytes("packfile"@) {
                pack_section(d, j, Seq::empty())
            } else {
                scan_sections(d, j, true)
            },
        },
    }
}

/// The outcome of demultiplexing an entire fetch response.
pub open spec fn demux_response(d: Seq<u8>) -> WireOutcome {
    scan_sections(d, 0, false)
}

/// Extracts the packfile bytes from a fetch response.
///
/// Sections other than `packfile` are drained up to their closing flush and
/// ignored.  Within the `packfile` section, each line's first byte selects a
/// sideband channel: pack data is collected, progress is discarded, and an
/// error message aborts the harvest with the message preserved.
pub fn read_packfile_from_fetch_response(response: &[u8]) -> (r: Result<Vec<u8>, HarvestError>)
    ensures
        r matches Ok(v) ==> demux_response(response@) == WireOutcome::Pack(v@),
        r matches Err(e) ==> match e {
            HarvestError::WireFraming => demux_response(response@) == WireOutcome::Framing,
            HarvestError::NoPackSection => demux_response(response@) == WireOutcome::NoSection,
            HarvestError::UpstreamError(m) => demux_response(response@) == WireOutcome::Upstream(
                m@,
            ),
            _ => false,
        },
{
    proof {
        reveal_strlit("packfile");
        assert(vstd::string::is_ascii("packfile")) by {
            assert forall|i: int|
                0 <= i < "packfile"@.len() implies ("packfile"@[i] as u32) < 128 by {}
        }
    }
    let ghost d = response@;
    let packfile_header = str_bytes("packfile");
    let mut pos: usize = 0;
    let mut skipping = false;
    loop
        invariant
            pos <= d.len(),
            d == response@,
            packfile_header@ == ascii_bytes("packfile"@),
            demux_response(d) == scan_sections(d, pos as int, skipping),
        decreases d.len() - pos, 1int,
    {
        let ghost old_pos = pos as int;
        let ghost old_skipping = skipping;
        if pos == response.len() {
            assert(scan_sections(d, pos as int, skipping) == WireOutcome::NoSection);
            return Err(HarvestError::NoPackSection);
        }
        let line = match read_pkt_line(response, pos) {
            Ok(l) => l,
            Err(_) => {
                assert(scan_sections(d, pos as int, skipping) == WireOutcome::Framing);
                return Err(HarvestError::WireFraming);
            },
        };
        let next = line.1;
        match line.0 {
            PktOwned::Flush => {
                if skipping {
                    assert(scan_sections(d, old_pos, true) == scan_sections(d, next as int, false));
                    skipping = false;
                    pos = next;
                } else {
                    assert(scan_sections(d, old_pos, false) == WireOutcome::NoSection);
                    return Err(HarvestError::NoPackSection);
                }
            },
            PktOwned::Delim => {
                if skipping {
                    assert(scan_sections(d, old_pos, true) == scan_sections(d, next as int, false));
                    skipping = false;
                    pos = next;
                } else {
                    assert(scan_sections(d, old_pos, false) == WireOutcome::NoSection);
                    return Err(HarvestError::NoPackSection);
                }
            },
            PktOwned::ResponseEnd => {
                assert(scan_sections(d, old_pos, skipping) == WireOutcome::NoSection);
                return Err(HarvestError::NoPackSection);
            },
            PktOwned::Data(payload) => {
                if skipping {
                    assert(scan_sections(d, old_pos, true) == scan_sections(d, next as int, true));
                    pos = next;
                } else {
                    let trimmed = trim_ascii_exec(payload.as_slice());
                    if eq_bytes(trimmed.as_slice(), packfile_header) {
                        assert(scan_sections(d, old_pos, false) == pack_section(
                            d,
                            next as int,
                            Seq::empty(),
                        ));
                        return read_pack_lines(response, next);
                    } else {
                        assert(scan_sections(d, old_pos, false) == scan_sections(
                            d,
                            next as int,
                            true,
                        ));
                        skipping = true;
                        pos = next;
                    }
                }
            },
        }
    }
}

/// Reads the sideband lines of the `packfile` section from `pos` on.
fn read_pack_lines(response: &[u8], pos: usize) -> (r: Result<Vec<u8>, HarvestError>)
    requires
        pos <= response@.len(),
    ensures
        r matches Ok(v) ==> pack_section(response@, pos as int, Seq::empty()) == WireOutcome::Pack(
            v@,
        ),
        r matches Err(e) ==> match e {
            HarvestError::WireFraming => pack_section(response@, pos as int, Seq::empty())
                == WireOutcome::Framing,
            HarvestError::UpstreamError(m) => pack_section(response@, pos as int, Seq::empty())
                == WireOutcome::Upstream(m@),
            _ => false,
        },
{
    let ghost d = response@;
    let ghost start = pos as int;
    let mut out: Vec<u8> = Vec::new();
    let mut cur = pos;
    loop
        invariant
            cur <= d.len(),
            d == response@,
            start == pos as int,
            0 <= start <= cur,
            pack_section(d, start, Seq::empty()) == pack_section(d, cur as int, out@),
        decreases d.len() - cur,
    {
        let ghost old_pos = cur as int;
        let ghost old_out = out@;
        if cur == response.len() {
            assert(pack_section(d, cur as int, out@) == WireOutcome::Framing);
            return Err(HarvestError::WireFraming);
        }
        let line = match read_pkt_line(response, cur) {
            Ok(l) => l,
            Err(_) => {
                assert(pack_section(d, cur as int, out@) == WireOutcome::Framing);
                return Err(HarvestError::WireFraming);
            },
        };
        let next = line.1;
        match line.0 {
            PktOwned::Flush => {
                assert(pack_section(d, old_pos, out@) == WireOutcome::Pack(out@));
                return Ok(out);
            },
            PktOwned::Delim => {
                assert(pack_section(d, old_pos, out@) == WireOutcome::Framing);
                return Err(HarvestError::WireFraming);
            },
            PktOwned::ResponseEnd => {
                assert(pack_section(d, old_pos, out@) == WireOutcome::Framing);
                return Err(HarvestError::WireFraming);
            },
            PktOwned::Data(payload) => {
                if payload.len() == 0 {
                    assert(pack_section(d, old_pos, out@) == WireOutcome::Framing);
                    return Err(HarvestError::WireFraming);
                }
                let chan = payload[0];
                if chan == 1 {
                    let mut i: usize = 1;
                    let ghost out0 = out@;
                    while i < payload.len()
                        invariant
                            1 <= i <= payload@.len(),
                            out@ == out0 + payload@.subrange(1, i as int),
                        decreases payload@.len() - i,
                    {
                        out.push(payload[i]);
                        assert(out@ =~= out0 + payload@.subrange(1, i + 1));
                        i = i + 1;
                    }
                    assert(payload@.subrange(1, payload@.len() as int) =~= payload@.drop_first());
                    assert(pack_section(d, old_pos, old_out) == pack_section(
                        d,
                        next as int,
                        old_out + payload@.drop_first(),
                    ));
                    cur = next;
                } else if chan == 2 {
                    assert(pack_section(d, old_pos, old_out) == pack_section(
                        d,
                        next as int,
                        old_out,
                    ));
                    cur = next;
                } else if chan == 3 {
                    let mut msg: Vec<u8> = Vec::new();
                    let mut i: usize = 1;
                    while i < payload.len()
                        invariant
                            1 <= i <= payload@.len(),
                            msg@ == payload@.subrange(1, i as int),
                        decreases payload@.len() - i,
                    {
                        msg.push(payload[i]);
                        assert(msg@ =~= payload@.subrange(1, i + 1));
                        i = i + 1;
                    }
                    assert(msg@ =~= payload@.drop_first());
                    assert(pack_section(d, old_pos, old_out) == WireOutcome::Upstream(
                        payload@.drop_first(),
                    ));
                    return Err(HarvestError::UpstreamError(msg));
                } else {
                    assert(pack_section(d, old_pos, old_out) == WireOutcome::Framing);
                    return Err(HarvestError::WireFraming);
                }
            },
        }
    }
}

} // verus!
