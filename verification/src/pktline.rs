use vstd::prelude::*;

use crate::errors::HarvestError;
use crate::ids::{hex_digit_lower, hex_digit_value, hex_digit_lower_exec, is_hex_digit, hex_val};

verus! {

/// Longest permitted value of a packet-line's length prefix.
pub const PKT_MAX_LEN: usize = 65520;

/// One parsed packet-line: the special framing packets, or a data line
/// carrying payload bytes.
pub enum Pkt {
    Flush,
    Delim,
    ResponseEnd,
    Data(Seq<u8>),
}

/// The four lower-case hex digits of a length prefix.
pub open spec fn hex4(n: nat) -> Seq<u8> {
    seq![
        hex_digit_lower((n / 4096 % 16) as u8),
        hex_digit_lower((n / 256 % 16) as u8),
        hex_digit_lower((n / 16 % 16) as u8),
        hex_digit_lower((n % 16) as u8),
    ]
}

/// A textual packet-line: the length prefix counts itself, the payload and
/// the trailing line feed.
pub open spec fn pkt_text_line(payload: Seq<u8>) -> Seq<u8> {
    hex4(payload.len() + 5) + payload + seq![10u8]
}

/// The flush packet.
pub open spec fn pkt_flush() -> Seq<u8> {
    seq![48u8, 48u8, 48u8, 48u8]
}

/// The delimiter packet.
pub open spec fn pkt_delim() -> Seq<u8> {
    seq![48u8, 48u8, 48u8, 49u8]
}

/// The packet-line starting at `i`, with the position just past it;
/// `None` when the framing is broken (a short or non-hex prefix, or a length
/// that runs past the input).
pub open spec fn pkt_parse_at(d: Seq<u8>, i: int) -> Option<(Pkt, int)> {
    if i + 4 > d.len() {
        None
    } else if !(is_hex_digit(d[i]) && is_hex_digit(d[i + 1]) && is_hex_digit(d[i + 2])
        && is_hex_digit(d[i + 3])) {
        None
    } else {
        let n = hex_val(d[i]) * 4096 + hex_val(d[i + 1]) * 256 + hex_val(d[i + 2]) * 16 + hex_val(
            d[i + 3],
        );
        if n == 0 {
            Some((Pkt::Flush, i + 4))
        } else if n == 1 {
            Some((Pkt::Delim, i + 4))
        } else if n == 2 {
            Some((Pkt::ResponseEnd, i + 4))
        } else if n < 4 || i + n > d.len() || n > PKT_MAX_LEN {
            None
        } else {
            Some((Pkt::Data(d.subrange(i + 4, i + n)), i + n))
        }
    }
}

/// Appends the special packet `0000`.
pub fn append_flush(out: &mut Vec<u8>)
    ensures
        final(out)@ == old(out)@ + pkt_flush(),
{
    out.push(48);
    out.push(48);
    out.push(48);
    out.push(48);
    assert(final(out)@ =~= old(out)@ + pkt_flush());
}

/// Appends the special packet `0001`.
pub fn append_delim(out: &mut Vec<u8>)
    ensures
        final(out)@ == old(out)@ + pkt_delim(),
{
    out.push(48);
    out.push(48);
    out.push(48);
    out.push(49);
    assert(final(out)@ =~= old(out)@ + pkt_delim());
}

/// Appends a textual packet-line: four hex digits of the framed length, the
/// payload, and a line feed.
pub fn append_text_line(out: &mut Vec<u8>, payload: &[u8])
    requires
        payload@.len() + 5 <= PKT_MAX_LEN,
    ensures
        final(out)@ == old(out)@ + pkt_text_line(payload@),
{
    let n: usize = payload.len() + 5;
    out.push(hex_digit_lower_exec(((n / 4096) % 16) as u8));
    out.push(hex_digit_lower_exec(((n / 256) % 16) as u8));
    out.push(hex_digit_lower_exec(((n / 16) % 16) as u8));
    out.push(hex_digit_lower_exec((n % 16) as u8));
    let mut i: usize = 0;
    while i < payload.len()
        invariant
            i <= payload@.len(),
            payload@.len() + 5 <= PKT_MAX_LEN,
            out@ == old(out)@ + hex4((payload@.len() + 5) as nat) + payload@.take(i as int),
        decreases payload@.len() - i,
    {
        out.push(payload[i]);
        assert(out@ =~= old(out)@ + hex4((payload@.len() + 5) as nat) + payload@.take(i + 1));
        i = i + 1;
    }
    out.push(10);
    assert(final(out)@ =~= old(out)@ + pkt_text_line(payload@));
}

/// Reads the packet-line at `pos`.  On success the data payload is handed
/// back as a copy together with the position just past the line; data-free
/// packets carry their tag.  A broken frame is a `WireFraming` failure.
pub fn read_pkt_line(d: &[u8], pos: usize) -> (r: Result<(PktOwned, usize), HarvestError>)
    requires
        pos <= d@.len(),
    ensures
        r matches Ok(p) ==> {
            &&& pkt_parse_at(d@, pos as int) matches Some(q)
            &&& p.0@ == q.0
            &&& p.1 == q.1
            &&& pos < p.1 <= d@.len()
        },
        r is Err ==> pkt_parse_at(d@, pos as int) is None,
        r matches Err(e) ==> e is WireFraming,
{
    if d.len() - pos < 4 {
        return Err(HarvestError::WireFraming);
    }
    let d0 = hex_digit_value(d[pos]);
    let d1 = hex_digit_value(d[pos + 1]);
    let d2 = hex_digit_value(d[pos + 2]);
    let d3 = hex_digit_value(d[pos + 3]);
    if d0.is_none() || d1.is_none() || d2.is_none() || d3.is_none() {
        return Err(HarvestError::WireFraming);
    }
    let n: usize = (d0.unwrap() as usize) * 4096 + (d1.unwrap() as usize) * 256 + (d2.unwrap()
        as usize) * 16 + (d3.unwrap() as usize);
    if n == 0 {
        Ok((PktOwned::Flush, pos + 4))
    } else if n == 1 {
        Ok((PktOwned::Delim, pos + 4))
    } else if n == 2 {
        Ok((PktOwned::ResponseEnd, pos + 4))
    } else if n < 4 || n > d.len() - pos || n > PKT_MAX_LEN {
        Err(HarvestError::WireFraming)
    } else {
        let end: usize = pos + n;
        let mut payload: Vec<u8> = Vec::new();
        let mut i: usize = pos + 4;
        while i < end
            invariant
                pos + 4 <= i <= end,
                end == pos + n,
                end <= d@.len(),
                payload@ == d@.subrange(pos + 4, i as int),
            decreases end - i,
        {
            payload.push(d[i]);
            assert(payload@ =~= d@.subrange(pos + 4, i + 1));
            i = i + 1;
        }
        Ok((PktOwned::Data(payload), pos + n))
    }
}

/// An owned packet-line, as `read_pkt_line` hands it out.
pub enum PktOwned {
    Flush,
    Delim,
    ResponseEnd,
    Data(Vec<u8>),
}

impl View for PktOwned {
    type V = Pkt;

    open spec fn view(&self) -> Pkt {
        match self {
            PktOwned::Flush => Pkt::Flush,
            PktOwned::Delim => Pkt::Delim,
            PktOwned::ResponseEnd => Pkt::ResponseEnd,
            PktOwned::Data(v) => Pkt::Data(v@),
        }
    }
}

} // verus!
