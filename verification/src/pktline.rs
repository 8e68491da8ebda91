//! Pkt-lines: the length-prefixed lines of ref discovery and negotiation.

use vstd::prelude::*;
use vstd::string::*;
use vstd::utf8::*;
use crate::frame::{append, copy_range, lacks};
use crate::hash::{all_hex, hex_bytes, hex_digit, hex_lower, hex_of, hex_value, parse_hex};
use crate::text::{find, find_byte};

verus! {

/// Why bytes are no pkt-lines, or why no request can be built.
#[derive(Debug, Clone, Copy, PartialEq, Eq, Structural)]
pub enum PktError {
    /// A length prefix is not four hex digits, is 1, 2 or 3, or runs past
    /// the end of the input.
    MalformedLine,
    /// No fingerprint was given to ask for.
    EmptyWantSet,
}

/// What a ref says: its name and the fingerprint it points at.
pub struct RefView {
    pub name: Seq<u8>,
    pub target: Seq<u8>,
}

/// A named pointer to a commit.
#[derive(Debug, Clone)]
pub struct Ref {
    pub name: Vec<u8>,
    pub hash: [u8; 20],
}

impl View for Ref {
    type V = RefView;

    open spec fn view(&self) -> RefView {
        RefView { name: self.name@, target: self.hash@ }
    }
}

/// The views of a run of refs.
pub open spec fn ref_views(s: Seq<Ref>) -> Seq<RefView> {
    s.map_values(|r: Ref| r@)
}

/// The prefix `refs/` of every ref name.
pub open spec fn refs_prefix() -> Seq<u8> {
    seq![114u8, 101, 102, 115, 47]
}

/// The number that the four hex digits at `pos` spell, or `None`.
pub open spec fn pkt_len(bytes: Seq<u8>, pos: int) -> Option<int> {
    if 0 <= pos && pos + 4 <= bytes.len() && hex_value(bytes[pos]) >= 0 && hex_value(
        bytes[pos + 1],
    ) >= 0 && hex_value(bytes[pos + 2]) >= 0 && hex_value(bytes[pos + 3]) >= 0 {
        Some(
            hex_value(bytes[pos]) * 4096 + hex_value(bytes[pos + 1]) * 256 + hex_value(
                bytes[pos + 2],
            ) * 16 + hex_value(bytes[pos + 3]),
        )
    } else {
        None
    }
}

/// The smaller of two indices.
pub open spec fn min_index(a: int, b: int) -> int {
    if a <= b {
        a
    } else {
        b
    }
}

/// The ref on a line `<40 hex digits> SP <name>`, where the name starts
/// with `refs/` and ends at the first NUL or newline or at the line's end.
/// Any other line holds no ref.
#[verifier::opaque]
pub open spec fn parse_ref_line(payload: Seq<u8>) -> Option<RefView> {
    if payload.len() >= 41 && all_hex(payload.subrange(0, 40)) && payload[40] == 32 {
        let end = min_index(find_byte(payload, 0, 41), find_byte(payload, 10, 41));
        let name = payload.subrange(41, end);
        if name.len() >= 5 && name.subrange(0, 5) == refs_prefix() {
            Some(RefView { name, target: hex_bytes(payload.subrange(0, 40)) })
        } else {
            None
        }
    } else {
        None
    }
}

/// The refs advertised in `bytes` from `from` on. A flush line holds
/// nothing; a line that holds no ref is passed over. `None` where the
/// input is not a run of pkt-lines.
pub open spec fn advert_refs(bytes: Seq<u8>, from: int) -> Option<Seq<RefView>>
    decreases bytes.len() - from,
{
    if from >= bytes.len() {
        Some(Seq::empty())
    } else {
        match pkt_len(bytes, from) {
            None => None,
            Some(n) => if n == 0 {
                advert_refs(bytes, from + 4)
            } else if n < 4 || from + n > bytes.len() {
                None
            } else {
                match advert_refs(bytes, from + n) {
                    None => None,
                    Some(rest) => match parse_ref_line(bytes.subrange(from + 4, from + n)) {
                        Some(r) => Some(seq![r] + rest),
                        None => Some(rest),
                    },
                }
            },
        }
    }
}

/// Four lowercase hex digits for a number below 65536.
pub open spec fn hex4(n: int) -> Seq<u8> {
    seq![hex_digit(n / 4096), hex_digit(n / 256 % 16), hex_digit(n / 16 % 16), hex_digit(n % 16)]
}

/// A payload under its length prefix, which counts itself.
pub open spec fn pkt_line_bytes(payload: Seq<u8>) -> Seq<u8> {
    hex4((payload.len() + 4) as int) + payload
}

/// The flush line `0000`.
pub open spec fn flush_line() -> Seq<u8> {
    seq![48u8, 48, 48, 48]
}

/// The payload `want <40 hex digits>\n`.
pub open spec fn want_payload(hash: Seq<u8>) -> Seq<u8> {
    seq![119u8, 97, 110, 116, 32] + hex_lower(hash) + seq![10u8]
}

/// One `want` line for each fingerprint, in order.
pub open spec fn want_lines(hashes: Seq<Seq<u8>>) -> Seq<u8>
    decreases hashes.len(),
{
    if hashes.len() == 0 {
        Seq::empty()
    } else {
        pkt_line_bytes(want_payload(hashes[0])) + want_lines(hashes.skip(1))
    }
}

/// The payload `done\n`.
pub open spec fn done_payload() -> Seq<u8> {
    seq![100u8, 111, 110, 101, 10]
}

/// The request for the given fingerprints: their `want` lines, a flush,
/// and a `done` line.
pub open spec fn want_request(hashes: Seq<Seq<u8>>) -> Seq<u8> {
    want_lines(hashes) + flush_line() + pkt_line_bytes(done_payload())
}

/// The value of a hex digit of either case.
pub fn hex_digit_value(c: u8) -> (r: Option<u8>)
    ensures
        match r {
            Some(v) => v == hex_value(c) && v < 16,
            None => hex_value(c) < 0,
        },
{
    if c >= 48 && c <= 57 {
        Some(c - 48)
    } else if c >= 97 && c <= 102 {
        Some(c - 87)
    } else if c >= 65 && c <= 70 {
        Some(c - 55)
    } else {
        None
    }
}

/// The lowercase hex digit of a value below 16.
fn hex_digit_of(n: u8) -> (c: u8)
    requires
        n < 16,
    ensures
        c == hex_digit(n as int),
{
    if n < 10 {
        48 + n
    } else {
        87 + n
    }
}

/// Reads the length prefix at `pos`.
pub fn read_pkt_len(bytes: &[u8], pos: usize) -> (r: Option<usize>)
    ensures
        match pkt_len(bytes@, pos as int) {
            Some(n) => r == Some(n as usize) && n < 65536,
            None => r.is_none(),
        },
{
    if pos > bytes.len() || bytes.len() - pos < 4 {
        return None;
    }
    let a = match hex_digit_value(bytes[pos]) {
        Some(v) => v,
        None => {
            return None;
        },
    };
    let b = match hex_digit_value(bytes[pos + 1]) {
        Some(v) => v,
        None => {
            return None;
        },
    };
    let c = match hex_digit_value(bytes[pos + 2]) {
        Some(v) => v,
        None => {
            return None;
        },
    };
    let d = match hex_digit_value(bytes[pos + 3]) {
        Some(v) => v,
        None => {
            return None;
        },
    };
    Some((a as usize) * 4096 + (b as usize) * 256 + (c as usize) * 16 + (d as usize))
}

/// A payload under its length prefix; `None` where the payload is too long
/// for four hex digits to count.
pub fn pkt_line(payload: &[u8]) -> (r: Option<Vec<u8>>)
    ensures
        match r {
            Some(line) => payload@.len() + 4 < 65536 && line@ == pkt_line_bytes(payload@),
            None => payload@.len() + 4 >= 65536,
        },
{
    if payload.len() >= 65532 {
        return None;
    }
    let n = payload.len() + 4;
    let mut line: Vec<u8> = Vec::new();
    line.push(hex_digit_of((n / 4096) as u8));
    line.push(hex_digit_of((n / 256 % 16) as u8));
    line.push(hex_digit_of((n / 16 % 16) as u8));
    line.push(hex_digit_of((n % 16) as u8));
    assert(line@ =~= hex4(n as int));
    append(&mut line, payload);
    Some(line)
}

/// Whether `refs/` stands in `bytes` at `pos`.
fn is_refs_at(bytes: &[u8], pos: usize, end: usize) -> (r: bool)
    requires
        pos <= end <= bytes@.len(),
    ensures
        r == (end - pos >= 5 && bytes@.subrange(pos as int, end as int).subrange(0, 5)
            == refs_prefix()),
{
    if end - pos < 5 {
        return false;
    }
    let ghost name = bytes@.subrange(pos as int, end as int).subrange(0, 5);
    let ok = bytes[pos] == 114 && bytes[pos + 1] == 101 && bytes[pos + 2] == 102 && bytes[pos
        + 3] == 115 && bytes[pos + 4] == 47;
    proof {
        assert(name[0] == bytes@[pos as int]);
        assert(name[1] == bytes@[pos + 1]);
        assert(name[2] == bytes@[pos + 2]);
        assert(name[3] == bytes@[pos + 3]);
        assert(name[4] == bytes@[pos + 4]);
        if ok {
            assert(name =~= refs_prefix());
        }
    }
    ok
}

/// Reads the ref on one line's payload, if it holds one.
pub fn read_ref_line(payload: &[u8]) -> (r: Option<Ref>)
    ensures
        match parse_ref_line(payload@) {
            Some(v) => r matches Some(x) && x@ == v,
            None => r.is_none(),
        },
{
    reveal(parse_ref_line);
    let n = payload.len();
    if n < 41 {
        return None;
    }
    let text = copy_range(payload, 0, 40);
    let hash = match parse_hex(text.as_slice()) {
        Ok(h) => h,
        Err(_e) => {
            return None;
        },
    };
    if payload[40] != 32 {
        return None;
    }
    let nul = find(payload, 0, 41);
    let nl = find(payload, 10, 41);
    let end = if nul <= nl {
        nul
    } else {
        nl
    };
    if !is_refs_at(payload, 41, end) {
        return None;
    }
    Some(Ref { name: copy_range(payload, 41, end), hash })
}

impl Ref {
    /// Reads the ref on one whole pkt-line, length prefix included; `None`
    /// where the line is shorter than its prefix or holds no ref. The
    /// prefix itself is not checked.
    pub fn parse_pkt_line(data: &str) -> (r: Option<Ref>)
        ensures
            match r {
                Some(x) => encode_utf8(data@).len() >= 4 && parse_ref_line(
                    encode_utf8(data@).subrange(4, encode_utf8(data@).len() as int),
                ) == Some(x@),
                None => encode_utf8(data@).len() < 4 || parse_ref_line(
                    encode_utf8(data@).subrange(4, encode_utf8(data@).len() as int),
                ).is_none(),
            },
    {
        let bytes = data.as_bytes();
        if bytes.len() < 4 {
            return None;
        }
        let payload = copy_range(bytes, 4, bytes.len());
        read_ref_line(payload.as_slice())
    }
}

/// Reads the refs that a discovery response advertises.
pub fn parse_advertisement(body: &[u8]) -> (r: Result<Vec<Ref>, PktError>)
    ensures
        match advert_refs(body@, 0) {
            Some(refs) => r matches Ok(found) && ref_views(found@) == refs,
            None => r matches Err(e) && e == PktError::MalformedLine,
        },
{
    let n = body.len();
    let mut refs: Vec<Ref> = Vec::new();
    let mut pos: usize = 0;
    proof {
        assert(ref_views(refs@) =~= Seq::<RefView>::empty());
        match advert_refs(body@, 0) {
            Some(rest) => {
                assert(ref_views(refs@) + rest =~= rest);
            },
            None => {},
        }
    }
    while pos < n
        invariant
            pos <= n == body@.len(),
            advert_refs(body@, 0) == match advert_refs(body@, pos as int) {
                Some(rest) => Some(ref_views(refs@) + rest),
                None => None,
            },
        decreases n - pos,
    {
        let len = match read_pkt_len(body, pos) {
            Some(len) => len,
            None => {
                return Err(PktError::MalformedLine);
            },
        };
        if len == 0 {
            pos = pos + 4;
        } else {
            if len < 4 || len > n - pos {
                return Err(PktError::MalformedLine);
            }
            let payload = copy_range(body, pos + 4, pos + len);
            match read_ref_line(payload.as_slice()) {
                Some(found) => {
                    let ghost before = ref_views(refs@);
                    refs.push(found);
                    proof {
                        assert(ref_views(refs@) =~= before.push(found@));
                        match advert_refs(body@, pos + len) {
                            Some(rest) => {
                                assert(before + (seq![found@] + rest) =~= before.push(found@)
                                    + rest);
                            },
                            None => {},
                        }
                    }
                },
                None => {},
            }
            pos = pos + len;
        }
    }
    proof {
        assert(ref_views(refs@) + Seq::<RefView>::empty() =~= ref_views(refs@));
    }
    Ok(refs)
}

/// The request that asks for the given fingerprints.
pub fn build_want_request(hashes: &Vec<[u8; 20]>) -> (r: Result<Vec<u8>, PktError>)
    ensures
        match r {
            Ok(bytes) => hashes@.len() > 0 && bytes@ == want_request(
                crate::commit::hash_views(hashes@),
            ),
            Err(e) => hashes@.len() == 0 && e == PktError::EmptyWantSet,
        },
{
    if hashes.len() == 0 {
        return Err(PktError::EmptyWantSet);
    }
    let ghost hs = crate::commit::hash_views(hashes@);
    let mut out: Vec<u8> = Vec::new();
    let mut i: usize = 0;
    proof {
        assert(hs.skip(0) =~= hs);
        assert(out@ + want_lines(hs) =~= want_lines(hs));
    }
    while i < hashes.len()
        invariant
            i <= hashes@.len(),
            hs == crate::commit::hash_views(hashes@),
            out@ + want_lines(hs.skip(i as int)) == want_lines(hs),
        decreases hashes@.len() - i,
    {
        let mut payload: Vec<u8> = Vec::new();
        payload.push(119);
        payload.push(97);
        payload.push(110);
        payload.push(116);
        payload.push(32);
        let hex = hex_of(&hashes[i]);
        append(&mut payload, hex.as_slice());
        payload.push(10);
        assert(payload@ =~= want_payload(hashes@[i as int]@));
        let line = match pkt_line(payload.as_slice()) {
            Some(line) => line,
            None => {
                assert(false);
                Vec::new()
            },
        };
        let ghost before = out@;
        append(&mut out, line.as_slice());
        proof {
            let tail = hs.skip(i as int);
            assert(tail[0] == hashes@[i as int]@);
            assert(tail.skip(1) =~= hs.skip(i + 1));
            assert(out@ + want_lines(hs.skip(i + 1)) =~= before + want_lines(tail));
        }
        i = i + 1;
    }
    proof {
        assert(want_lines(hs.skip(i as int)) =~= Seq::<u8>::empty());
        assert(out@ =~= want_lines(hs));
    }
    out.push(48);
    out.push(48);
    out.push(48);
    out.push(48);
    let mut done: Vec<u8> = Vec::new();
    done.push(100);
    done.push(111);
    done.push(110);
    done.push(101);
    done.push(10);
    assert(done@ =~= done_payload());
    let line = match pkt_line(done.as_slice()) {
        Some(line) => line,
        None => {
            assert(false);
            Vec::new()
        },
    };
    append(&mut out, line.as_slice());
    assert(out@ =~= want_request(hs));
    Ok(out)
}

/// The payload of the line that advertises a ref:
/// `<40 hex digits> SP <name>\n`.
#[verifier::opaque]
pub open spec fn ref_payload(r: RefView) -> Seq<u8> {
    hex_lower(r.target) + seq![32u8] + r.name + seq![10u8]
}

/// The advertisement of a run of refs: one line each.
pub open spec fn ref_lines(refs: Seq<RefView>) -> Seq<u8>
    decreases refs.len(),
{
    if refs.len() == 0 {
        Seq::empty()
    } else {
        pkt_line_bytes(ref_payload(refs[0])) + ref_lines(refs.skip(1))
    }
}

/// A ref that can be advertised: a 20-byte target, a name that starts with
/// `refs/` and holds neither NUL nor newline, and a line short enough for
/// its length prefix.
pub open spec fn valid_ref(r: RefView) -> bool {
    &&& r.target.len() == 20
    &&& r.name.len() >= 5
    &&& r.name.subrange(0, 5) == refs_prefix()
    &&& lacks(r.name, 0)
    &&& lacks(r.name, 10)
    &&& r.name.len() + 46 < 65536
}

/// A hex digit spells the value it was made from.
pub proof fn lemma_digit_value(d: int)
    requires
        0 <= d < 16,
    ensures
        hex_value(hex_digit(d)) == d,
{
}

/// A number below 65536 is the sum of its four hex digits, each weighed.
pub proof fn lemma_four_digits(n: u32)
    requires
        n < 65536,
    ensures
        n / 4096 < 16,
        n / 4096 * 4096 + n / 256 % 16 * 256 + n / 16 % 16 * 16 + n % 16 == n,
{
    assert(n / 4096 < 16 && n / 4096 * 4096 + n / 256 % 16 * 256 + n / 16 % 16 * 16 + n % 16 == n)
        by (bit_vector)
        requires
            n < 65536,
    ;
}

/// Four hex digits written after a prefix spell their number.
pub proof fn lemma_pkt_len(prefix: Seq<u8>, n: int, rest: Seq<u8>)
    requires
        0 <= n < 65536,
    ensures
        pkt_len(prefix + hex4(n) + rest, prefix.len() as int) == Some(n),
{
    let s = prefix + hex4(n) + rest;
    let pos = prefix.len() as int;
    let d0 = n / 4096;
    let d1 = n / 256 % 16;
    let d2 = n / 16 % 16;
    let d3 = n % 16;
    lemma_four_digits(n as u32);
    assert(d0 == (n as u32) / 4096);
    assert(d1 == (n as u32) / 256 % 16);
    assert(d2 == (n as u32) / 16 % 16);
    assert(d3 == (n as u32) % 16);
    lemma_digit_value(d0);
    lemma_digit_value(d1);
    lemma_digit_value(d2);
    lemma_digit_value(d3);
    assert(s[pos] == hex_digit(d0));
    assert(s[pos + 1] == hex_digit(d1));
    assert(s[pos + 2] == hex_digit(d2));
    assert(s[pos + 3] == hex_digit(d3));
}

/// Where no `b` stands from `from` on, the search runs to the end.
pub proof fn lemma_find_none(s: Seq<u8>, b: u8, from: int)
    requires
        0 <= from <= s.len(),
        forall|i: int| from <= i < s.len() ==> s[i] != b,
    ensures
        find_byte(s, b, from) == s.len(),
    decreases s.len() - from,
{
    if from < s.len() {
        lemma_find_none(s, b, from + 1);
    }
}

/// The line that advertises a valid ref is read back as the ref.
pub proof fn lemma_ref_line(r: RefView)
    requires
        valid_ref(r),
    ensures
        parse_ref_line(ref_payload(r)) == Some(r),
        ref_payload(r).len() == r.name.len() + 42,
{
    reveal(parse_ref_line);
    reveal(ref_payload);
    let payload = ref_payload(r);
    crate::hash::lemma_hex_roundtrip(r.target);
    let head = hex_lower(r.target) + seq![32u8];
    assert(payload.subrange(0, 40) =~= hex_lower(r.target));
    assert(payload[40] == 32);
    assert forall|i: int| 41 <= i < payload.len() implies payload[i] != 0u8 by {
        if i < 41 + r.name.len() {
            assert(payload[i] == r.name[i - 41]);
        }
    }
    lemma_find_none(payload, 0, 41);
    assert(payload =~= head + r.name + seq![10u8] + Seq::<u8>::empty());
    crate::commit::lemma_find_mid(head, r.name, 10, Seq::<u8>::empty());
    let end = 41 + r.name.len();
    assert(payload.subrange(41, end as int) =~= r.name);
}

/// One line written after a prefix is read as its payload, and reading
/// goes on after it.
pub proof fn lemma_advert_step(prefix: Seq<u8>, payload: Seq<u8>, rest: Seq<u8>)
    requires
        payload.len() + 4 < 65536,
    ensures
        advert_refs(prefix + pkt_line_bytes(payload) + rest, prefix.len() as int) == match advert_refs(
            prefix + pkt_line_bytes(payload) + rest,
            (prefix.len() + payload.len() + 4) as int,
        ) {
            None => None,
            Some(found) => match parse_ref_line(payload) {
                Some(r) => Some(seq![r] + found),
                None => Some(found),
            },
        },
{
    let s = prefix + pkt_line_bytes(payload) + rest;
    let pos = prefix.len() as int;
    let n = (payload.len() + 4) as int;
    assert(s =~= prefix + hex4(n) + (payload + rest));
    lemma_pkt_len(prefix, n, payload + rest);
    assert(s.subrange(pos + 4, pos + n) =~= payload);
}

/// Reading back the lines of valid refs, written after a prefix and
/// followed by a flush line, gives the refs.
pub proof fn lemma_advert_after(prefix: Seq<u8>, refs: Seq<RefView>)
    requires
        forall|i: int| 0 <= i < refs.len() ==> valid_ref(#[trigger] refs[i]),
    ensures
        advert_refs(prefix + ref_lines(refs) + flush_line(), prefix.len() as int) == Some(refs),
    decreases refs.len(),
{
    let s = prefix + ref_lines(refs) + flush_line();
    let pos = prefix.len() as int;
    if refs.len() == 0 {
        assert(s =~= prefix + hex4(0) + Seq::<u8>::empty());
        lemma_pkt_len(prefix, 0, Seq::<u8>::empty());
        assert(advert_refs(s, pos + 4) == Some(Seq::<RefView>::empty()));
    } else {
        let r = refs[0];
        let payload = ref_payload(r);
        let tail = refs.skip(1);
        lemma_ref_line(r);
        let rest = ref_lines(tail) + flush_line();
        let prefix2 = prefix + pkt_line_bytes(payload);
        assert(s =~= prefix + pkt_line_bytes(payload) + rest);
        assert(s =~= prefix2 + ref_lines(tail) + flush_line());
        lemma_advert_step(prefix, payload, rest);
        assert forall|i: int| 0 <= i < tail.len() implies valid_ref(#[trigger] tail[i]) by {
            assert(tail[i] == refs[i + 1]);
        }
        lemma_advert_after(prefix2, tail);
        assert(seq![r] + tail =~= refs);
    }
}

/// An advertisement of valid refs, closed by a flush line, is read back as
/// the refs: the flush line itself yields nothing.
pub proof fn lemma_advert_roundtrip(refs: Seq<RefView>)
    requires
        forall|i: int| 0 <= i < refs.len() ==> valid_ref(#[trigger] refs[i]),
    ensures
        advert_refs(ref_lines(refs) + flush_line(), 0) == Some(refs),
{
    lemma_advert_after(Seq::empty(), refs);
    assert(Seq::<u8>::empty() + ref_lines(refs) + flush_line() =~= ref_lines(refs) + flush_line());
}

} // verus!
