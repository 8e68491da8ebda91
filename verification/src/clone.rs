//! The decisions of a clone: what to ask a remote for, and what to make of
//! its answers. Talking to the remote is left to the caller.

use vstd::prelude::*;
use vstd::slice::slice_subrange;
use vstd::string::*;
use vstd::utf8::*;
use crate::commit::hash_views;
use crate::frame::same;
use crate::packfile::{pack_magic, pack_records, parse_pack};
use crate::pktline::{
    advert_refs, build_want_request, parse_advertisement, pkt_len, read_pkt_len, ref_views,
    want_request, PktError, Ref, RefView,
};
use crate::resolve::{
    resolve_all, resolve_pack, resolved_views, wanted, wanted_bases, ResolvedObject, ResolvedView,
};
use crate::varint::PackError;

verus! {

/// Why a clone fails.
#[derive(Debug, Clone, Copy, PartialEq, Eq, Structural)]
pub enum CloneError {
    /// The remote answered the discovery with a status other than 200 or
    /// 304.
    RepositoryNotFound,
    /// The advertisement is malformed, or advertises no ref.
    Discovery(PktError),
    /// The answer to the request holds no pack.
    NoPack,
    /// The pack cannot be decoded.
    Pack(PackError),
}

/// Whether a discovery was answered with success: status 200 or 304.
pub fn status_ok(code: u16) -> (ok: bool)
    ensures
        ok == (code == 200 || code == 304),
{
    code == 200 || code == 304
}

/// `s` ends with `w`.
pub open spec fn ends_with(s: Seq<u8>, w: Seq<u8>) -> bool {
    s.len() >= w.len() && s.subrange(s.len() - w.len(), s.len() as int) == w
}

/// The text `.git`.
pub open spec fn dot_git() -> Seq<u8> {
    seq![46u8, 103, 105, 116]
}

/// What is put after a repository's address to reach its services.
#[derive(Debug, Clone, Copy, PartialEq, Eq, Structural)]
pub enum UrlSuffix {
    /// Nothing: the address ends with `.git/`.
    Nothing,
    /// `/`: the address ends with `.git`.
    Slash,
    /// `.git/`: the address ends with neither.
    DotGitSlash,
}

/// What to put after a repository's address so that it ends with `.git/`.
pub fn url_suffix(url: &str) -> (suffix: UrlSuffix)
    ensures
        suffix == if ends_with(encode_utf8(url@), dot_git().push(47)) {
            UrlSuffix::Nothing
        } else if ends_with(encode_utf8(url@), dot_git()) {
            UrlSuffix::Slash
        } else {
            UrlSuffix::DotGitSlash
        },
{
    let b = url.as_bytes();
    let n = b.len();
    let ghost s = b@;
    if n >= 5 && b[n - 5] == 46 && b[n - 4] == 103 && b[n - 3] == 105 && b[n - 2] == 116 && b[n
        - 1] == 47 {
        proof {
            assert(s.subrange(n - 5, n as int) =~= dot_git().push(47));
        }
        return UrlSuffix::Nothing;
    }
    proof {
        if n >= 5 {
            let t = s.subrange(n - 5, n as int);
            assert(t[0] == s[n - 5] && t[1] == s[n - 4] && t[2] == s[n - 3] && t[3] == s[n - 2]
                && t[4] == s[n - 1]);
        }
    }
    if n >= 4 && b[n - 4] == 46 && b[n - 3] == 103 && b[n - 2] == 105 && b[n - 1] == 116 {
        proof {
            assert(s.subrange(n - 4, n as int) =~= dot_git());
        }
        return UrlSuffix::Slash;
    }
    proof {
        if n >= 4 {
            let t = s.subrange(n - 4, n as int);
            assert(t[0] == s[n - 4] && t[1] == s[n - 3] && t[2] == s[n - 2] && t[3] == s[n - 1]);
        }
    }
    UrlSuffix::DotGitSlash
}

/// The fingerprints of a run, each once, in the order they first occur.
pub open spec fn unique(hashes: Seq<Seq<u8>>) -> Seq<Seq<u8>>
    decreases hashes.len(),
{
    if hashes.len() == 0 {
        Seq::empty()
    } else {
        let head = unique(hashes.drop_last());
        if head.contains(hashes.last()) {
            head
        } else {
            head.push(hashes.last())
        }
    }
}

/// The targets of a run of refs.
pub open spec fn targets(refs: Seq<RefView>) -> Seq<Seq<u8>> {
    refs.map_values(|r: RefView| r.target)
}

/// Whether `hash` is among `hashes`.
fn holds(hashes: &Vec<[u8; 20]>, hash: &[u8; 20]) -> (r: bool)
    ensures
        r == hash_views(hashes@).contains(hash@),
{
    let ghost hs = hash_views(hashes@);
    let mut i: usize = 0;
    while i < hashes.len()
        invariant
            i <= hashes@.len(),
            hs == hash_views(hashes@),
            forall|j: int| 0 <= j < i ==> hs[j] != hash@,
        decreases hashes@.len() - i,
    {
        proof {
            assert(hs[i as int] == hashes@[i as int]@);
        }
        if same(hashes[i].as_slice(), hash.as_slice()) {
            return true;
        }
        i = i + 1;
    }
    false
}

/// The fingerprints to ask for: the targets of the refs, each once.
pub fn want_set(refs: &Vec<Ref>) -> (wants: Vec<[u8; 20]>)
    ensures
        hash_views(wants@) == unique(targets(ref_views(refs@))),
{
    let ghost all = targets(ref_views(refs@));
    let mut wants: Vec<[u8; 20]> = Vec::new();
    let mut i: usize = 0;
    proof {
        assert(all.subrange(0, 0) =~= Seq::<Seq<u8>>::empty());
        assert(hash_views(wants@) =~= Seq::<Seq<u8>>::empty());
    }
    while i < refs.len()
        invariant
            i <= refs@.len(),
            all == targets(ref_views(refs@)),
            hash_views(wants@) == unique(all.subrange(0, i as int)),
        decreases refs@.len() - i,
    {
        let ghost prefix = all.subrange(0, i + 1);
        proof {
            assert(prefix.drop_last() =~= all.subrange(0, i as int));
            assert(prefix.last() == refs@[i as int].hash@);
        }
        if !holds(&wants, &refs[i].hash) {
            let ghost before = hash_views(wants@);
            wants.push(refs[i].hash);
            proof {
                assert(hash_views(wants@) =~= before.push(refs@[i as int].hash@));
            }
        }
        i = i + 1;
    }
    proof {
        assert(all.subrange(0, i as int) =~= all);
    }
    wants
}

/// What a discovery leads to: the refs that were advertised and the
/// request that asks for their targets.
#[derive(Debug, Clone)]
pub struct FetchPlan {
    pub refs: Vec<Ref>,
    pub request: Vec<u8>,
}

/// What to make of a discovery's answer: with a status of success, the
/// refs it advertises and the request for their targets.
pub open spec fn planned(code: u16, body: Seq<u8>) -> Result<(Seq<RefView>, Seq<u8>), CloneError> {
    if code != 200 && code != 304 {
        Err(CloneError::RepositoryNotFound)
    } else {
        match advert_refs(body, 0) {
            None => Err(CloneError::Discovery(PktError::MalformedLine)),
            Some(refs) => if refs.len() == 0 {
                Err(CloneError::Discovery(PktError::EmptyWantSet))
            } else {
                Ok((refs, want_request(unique(targets(refs)))))
            },
        }
    }
}

/// Reads a discovery's answer and builds the request that follows it.
pub fn plan_fetch(code: u16, body: &[u8]) -> (r: Result<FetchPlan, CloneError>)
    ensures
        match planned(code, body@) {
            Ok((refs, request)) => r matches Ok(plan) && ref_views(plan.refs@) == refs
                && plan.request@ == request,
            Err(e) => r matches Err(f) && f == e,
        },
{
    if !status_ok(code) {
        return Err(CloneError::RepositoryNotFound);
    }
    let refs = match parse_advertisement(body) {
        Ok(refs) => refs,
        Err(e) => {
            return Err(CloneError::Discovery(e));
        },
    };
    let wants = want_set(&refs);
    proof {
        lemma_unique_nonempty(targets(ref_views(refs@)));
    }
    match build_want_request(&wants) {
        Ok(request) => Ok(FetchPlan { refs, request }),
        Err(e) => Err(CloneError::Discovery(e)),
    }
}

/// A run has a unique member exactly when it has a member.
pub proof fn lemma_unique_nonempty(hashes: Seq<Seq<u8>>)
    ensures
        unique(hashes).len() == 0 <==> hashes.len() == 0,
    decreases hashes.len(),
{
    if hashes.len() > 0 {
        lemma_unique_nonempty(hashes.drop_last());
        let head = unique(hashes.drop_last());
        if head.contains(hashes.last()) {
            assert(head.len() > 0);
        }
    }
}

/// Where the pack starts in the answer to a request: after the pkt-lines
/// that come before the signature `PACK`. `None` where the answer is no
/// run of pkt-lines followed by a pack.
pub open spec fn pack_offset(body: Seq<u8>, pos: int) -> Option<int>
    decreases body.len() - pos,
{
    if pos < 0 || pos >= body.len() {
        None
    } else if pos + 4 <= body.len() && body.subrange(pos, pos + 4) == pack_magic() {
        Some(pos)
    } else {
        match pkt_len(body, pos) {
            None => None,
            Some(n) => if n == 0 {
                pack_offset(body, pos + 4)
            } else if n < 4 || pos + n > body.len() {
                None
            } else {
                pack_offset(body, pos + n)
            },
        }
    }
}

/// Finds where the pack starts in the answer to a request.
pub fn find_pack(body: &[u8]) -> (r: Option<usize>)
    ensures
        match pack_offset(body@, 0) {
            Some(at) => r == Some(at as usize) && 0 <= at < body@.len(),
            None => r.is_none(),
        },
{
    let n = body.len();
    let mut pos: usize = 0;
    while pos < n
        invariant
            pos <= n == body@.len(),
            pack_offset(body@, 0) == pack_offset(body@, pos as int),
        decreases n - pos,
    {
        if n - pos >= 4 {
            let ghost sig = body@.subrange(pos as int, pos + 4);
            proof {
                assert(sig[0] == body@[pos as int] && sig[1] == body@[pos + 1] && sig[2]
                    == body@[pos + 2] && sig[3] == body@[pos + 3]);
            }
            if body[pos] == 80 && body[pos + 1] == 65 && body[pos + 2] == 67 && body[pos + 3]
                == 75 {
                proof {
                    assert(sig =~= pack_magic());
                }
                return Some(pos);
            }
        }
        let len = match read_pkt_len(body, pos) {
            Some(len) => len,
            None => {
                return None;
            },
        };
        if len == 0 {
            pos = pos + 4;
        } else {
            if len < 4 || len > n - pos {
                return None;
            }
            pos = pos + len;
        }
    }
    None
}

/// The objects that the answer to a request holds, given the objects
/// `known` from the store: the records of the pack after the preamble,
/// resolved in the order of the stream.
pub open spec fn received(body: Seq<u8>, known: Seq<ResolvedView>) -> Result<
    Seq<ResolvedView>,
    CloneError,
> {
    match pack_offset(body, 0) {
        None => Err(CloneError::NoPack),
        Some(at) => match pack_records(body.subrange(at, body.len() as int)) {
            Err(e) => Err(CloneError::Pack(e)),
            Ok(records) => match resolve_all(records, known) {
                Err(e) => Err(CloneError::Pack(e)),
                Ok(objects) => Ok(objects),
            },
        },
    }
}

/// Decodes the answer to a request into the objects to store.
pub fn receive_pack(body: &[u8], known: &Vec<ResolvedObject>) -> (r: Result<
    Vec<ResolvedObject>,
    CloneError,
>)
    ensures
        match received(body@, resolved_views(known@)) {
            Ok(objects) => r matches Ok(found) && resolved_views(found@) == objects,
            Err(e) => r matches Err(f) && f == e,
        },
{
    let at = match find_pack(body) {
        Some(at) => at,
        None => {
            return Err(CloneError::NoPack);
        },
    };
    let records = match parse_pack(slice_subrange(body, at, body.len())) {
        Ok(records) => records,
        Err(e) => {
            return Err(CloneError::Pack(e));
        },
    };
    match resolve_pack(&records, known) {
        Ok(objects) => Ok(objects),
        Err(e) => Err(CloneError::Pack(e)),
    }
}

/// The fingerprints that the deltas of the pack in an answer name as
/// their bases.
pub open spec fn bases_wanted(body: Seq<u8>) -> Result<Seq<Seq<u8>>, CloneError> {
    match pack_offset(body, 0) {
        None => Err(CloneError::NoPack),
        Some(at) => match pack_records(body.subrange(at, body.len() as int)) {
            Err(e) => Err(CloneError::Pack(e)),
            Ok(records) => Ok(wanted(records)),
        },
    }
}

/// Lists the fingerprints that the deltas of the pack in an answer name as
/// their bases, so that the caller can look them up in the store before
/// the pack is resolved.
pub fn pack_bases(body: &[u8]) -> (r: Result<Vec<[u8; 20]>, CloneError>)
    ensures
        match bases_wanted(body@) {
            Ok(hashes) => r matches Ok(found) && hash_views(found@) == hashes,
            Err(e) => r matches Err(f) && f == e,
        },
{
    let at = match find_pack(body) {
        Some(at) => at,
        None => {
            return Err(CloneError::NoPack);
        },
    };
    match parse_pack(slice_subrange(body, at, body.len())) {
        Ok(records) => Ok(wanted_bases(&records)),
        Err(e) => Err(CloneError::Pack(e)),
    }
}

} // verus!
