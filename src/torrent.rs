use vstd::prelude::*;

use crate::bencode::{decode_spec, info_span, dict_model, lemma_model_parts, list_model, Bencode, Element, InvalidCharError, Value};
use crate::digest::sha1_of;
use crate::scheduler::{all_missing, piece_count, Scheduler};
use crate::wire::push_all;

verus! {

/// Why a decoded metainfo file cannot describe a torrent.
#[derive(Debug, Clone, Copy, PartialEq, Eq, Structural)]
pub enum MetainfoFault {
    MissingKey,
    TypeMismatch,
    PiecesNotMultipleOf20,
    /// A name or path component that is empty, `.`, `..`, or holds `/` or a NUL byte.
    BadPath,
}

/// A metainfo file that does not describe a torrent.
#[derive(Debug)]
pub struct InvalidTorrentFile {
    pub fault: MetainfoFault,
}

/// Why a metainfo buffer could not be read.
#[derive(Debug)]
pub enum TorrentError {
    Encoding(InvalidCharError),
    Metainfo(InvalidTorrentFile),
}

/// Everything the download needs to know of a torrent; fixed once built.
#[derive(Debug)]
pub struct Torrent {
    pub announce_url: Option<Vec<u8>>,
    pub announce_list: Option<Vec<Vec<Vec<u8>>>>,
    pub name: Vec<u8>,
    /// Sum of the lengths of all files.
    pub length: u64,
    pub info_hash: [u8; 20],
    pub piece_length: u64,
    pub piece_hashes: Vec<[u8; 20]>,
    /// Each file's path components and length, in torrent order.
    pub files: Vec<(Vec<Vec<u8>>, u64)>,
    /// Whether the files lie in a directory named `name` (`files` was given) rather than
    /// being the single file `name`.
    pub multi_file: bool,
    pub peer_id: [u8; 20],
}

/// What a well-formed metainfo value says.
pub struct MetaView {
    pub announce: Option<Seq<u8>>,
    pub tiers: Option<Seq<Seq<Seq<u8>>>>,
    pub name: Seq<u8>,
    pub piece_length: int,
    pub total: int,
    pub files: Seq<(Seq<Seq<u8>>, int)>,
    pub multi: bool,
    pub hashes: Seq<Seq<u8>>,
}

pub open spec fn key_announce() -> Seq<u8> {
    seq![97u8, 110, 110, 111, 117, 110, 99, 101]
}

pub open spec fn key_announce_list() -> Seq<u8> {
    seq![97u8, 110, 110, 111, 117, 110, 99, 101, 45, 108, 105, 115, 116]
}

pub open spec fn key_info() -> Seq<u8> {
    seq![105u8, 110, 102, 111]
}

pub open spec fn key_name() -> Seq<u8> {
    seq![110u8, 97, 109, 101]
}

pub open spec fn key_piece_length() -> Seq<u8> {
    seq![112u8, 105, 101, 99, 101, 32, 108, 101, 110, 103, 116, 104]
}

pub open spec fn key_pieces() -> Seq<u8> {
    seq![112u8, 105, 101, 99, 101, 115]
}

pub open spec fn key_length() -> Seq<u8> {
    seq![108u8, 101, 110, 103, 116, 104]
}

pub open spec fn key_files() -> Seq<u8> {
    seq![102u8, 105, 108, 101, 115]
}

pub open spec fn key_path() -> Seq<u8> {
    seq![112u8, 97, 116, 104]
}

/// The value of the first entry with key `k`.
pub open spec fn lookup(es: Seq<(Seq<u8>, Value)>, k: Seq<u8>) -> Option<Value>
    decreases es.len(),
{
    if es.len() == 0 {
        None
    } else if es[0].0 == k {
        Some(es[0].1)
    } else {
        lookup(es.drop_first(), k)
    }
}

/// A path component that names one entry inside its directory: not empty, not `.` or
/// `..`, and holding no `/` and no NUL byte anywhere, so that it cannot be absolute or climb
/// out of the download directory.
pub open spec fn component_ok(c: Seq<u8>) -> bool {
    &&& c.len() > 0
    &&& c != seq![46u8]
    &&& c != seq![46u8, 46]
    &&& forall|k: int| 0 <= k < c.len() ==> #[trigger] c[k] != 47 && c[k] != 0
}

/// The components of a path list.
pub open spec fn path_of(vs: Seq<Value>) -> Result<Seq<Seq<u8>>, MetainfoFault>
    decreases vs.len(),
{
    if vs.len() == 0 {
        Ok(Seq::empty())
    } else {
        match path_of(vs.drop_last()) {
            Err(e) => Err(e),
            Ok(cs) => match vs.last() {
                Value::Bytes(c) => if component_ok(c) {
                    Ok(cs.push(c))
                } else {
                    Err(MetainfoFault::BadPath)
                },
                _ => Err(MetainfoFault::TypeMismatch),
            },
        }
    }
}

/// One entry of `files`: its path and length.
pub open spec fn file_of(v: Value) -> Result<(Seq<Seq<u8>>, int), MetainfoFault> {
    match v {
        Value::Dict(es) => match lookup(es, key_length()) {
            None => Err(MetainfoFault::MissingKey),
            Some(Value::Int(l)) => match lookup(es, key_path()) {
                None => Err(MetainfoFault::MissingKey),
                Some(Value::List(ps)) => if l < 0 {
                    Err(MetainfoFault::TypeMismatch)
                } else {
                    match path_of(ps) {
                        Err(e) => Err(e),
                        Ok(cs) => if cs.len() == 0 {
                            Err(MetainfoFault::BadPath)
                        } else {
                            Ok((cs, l))
                        },
                    }
                },
                Some(_) => Err(MetainfoFault::TypeMismatch),
            },
            Some(_) => Err(MetainfoFault::TypeMismatch),
        },
        _ => Err(MetainfoFault::TypeMismatch),
    }
}

/// The files of a `files` list and their total length, which must fit in 64 bits.
pub open spec fn files_of(vs: Seq<Value>) -> Result<(Seq<(Seq<Seq<u8>>, int)>, int), MetainfoFault>
    decreases vs.len(),
{
    if vs.len() == 0 {
        Ok((Seq::empty(), 0))
    } else {
        match files_of(vs.drop_last()) {
            Err(e) => Err(e),
            Ok((fs, tot)) => match file_of(vs.last()) {
                Err(e) => Err(e),
                Ok(f) => if tot + f.1 > u64::MAX {
                    Err(MetainfoFault::TypeMismatch)
                } else {
                    Ok((fs.push(f), tot + f.1))
                },
            },
        }
    }
}

/// A tier: a list of byte-string URLs.
pub open spec fn tier_of(v: Value) -> Option<Seq<Seq<u8>>> {
    match v {
        Value::List(us) => if forall|k: int| 0 <= k < us.len() ==> (#[trigger] us[k]) is Bytes {
            Some(Seq::new(us.len(), |k: int| us[k]->Bytes_0))
        } else {
            None
        },
        _ => None,
    }
}

/// The tiers of an `announce-list`.
pub open spec fn tiers_of(vs: Seq<Value>) -> Option<Seq<Seq<Seq<u8>>>>
    decreases vs.len(),
{
    if vs.len() == 0 {
        Some(Seq::empty())
    } else {
        match tiers_of(vs.drop_last()) {
            None => None,
            Some(ts) => match tier_of(vs.last()) {
                None => None,
                Some(t) => Some(ts.push(t)),
            },
        }
    }
}

/// The 20-byte digests that `pieces` concatenates.
pub open spec fn hashes_of(s: Seq<u8>) -> Seq<Seq<u8>> {
    Seq::new(s.len() / 20, |i: int| s.subrange(20 * i, 20 * i + 20))
}

/// What the `info` dictionary says, given what the top level says of trackers.
pub open spec fn info_view(
    info: Seq<(Seq<u8>, Value)>,
    announce: Option<Seq<u8>>,
    tiers: Option<Seq<Seq<Seq<u8>>>>,
) -> Result<MetaView, MetainfoFault> {
    match lookup(info, key_name()) {
        None => Err(MetainfoFault::MissingKey),
        Some(Value::Bytes(name)) => if !component_ok(name) {
            Err(MetainfoFault::BadPath)
        } else {
            match lookup(info, key_piece_length()) {
                None => Err(MetainfoFault::MissingKey),
                Some(Value::Int(pl)) => if pl <= 0 {
                    Err(MetainfoFault::TypeMismatch)
                } else {
                    match lookup(info, key_pieces()) {
                        None => Err(MetainfoFault::MissingKey),
                        Some(Value::Bytes(ps)) => if ps.len() % 20 != 0 {
                            Err(MetainfoFault::PiecesNotMultipleOf20)
                        } else {
                            match lookup(info, key_files()) {
                                Some(Value::List(vs)) => match files_of(vs) {
                                    Err(e) => Err(e),
                                    Ok((fs, tot)) => Ok(
                                        MetaView {
                                            announce,
                                            tiers,
                                            name,
                                            piece_length: pl,
                                            total: tot,
                                            files: fs,
                                            multi: true,
                                            hashes: hashes_of(ps),
                                        },
                                    ),
                                },
                                Some(_) => Err(MetainfoFault::TypeMismatch),
                                None => match lookup(info, key_length()) {
                                    None => Err(MetainfoFault::MissingKey),
                                    Some(Value::Int(l)) => if l < 0 {
                                        Err(MetainfoFault::TypeMismatch)
                                    } else {
                                        Ok(
                                            MetaView {
                                                announce,
                                                tiers,
                                                name,
                                                piece_length: pl,
                                                total: l,
                                                files: seq![(seq![name], l)],
                                                multi: false,
                                                hashes: hashes_of(ps),
                                            },
                                        )
                                    },
                                    Some(_) => Err(MetainfoFault::TypeMismatch),
                                },
                            }
                        },
                        Some(_) => Err(MetainfoFault::TypeMismatch),
                    }
                },
                Some(_) => Err(MetainfoFault::TypeMismatch),
            }
        },
        Some(_) => Err(MetainfoFault::TypeMismatch),
    }
}

/// What a decoded metainfo value says, or the first fault found in it.
pub open spec fn metainfo(v: Value) -> Result<MetaView, MetainfoFault> {
    match v {
        Value::Dict(top) => {
            let ann = lookup(top, key_announce());
            let al = lookup(top, key_announce_list());
            if ann is None && al is None {
                Err(MetainfoFault::MissingKey)
            } else if ann matches Some(a) && !(a is Bytes) {
                Err(MetainfoFault::TypeMismatch)
            } else if al matches Some(l) && !(l matches Value::List(ts) && tiers_of(ts) is Some) {
                Err(MetainfoFault::TypeMismatch)
            } else {
                let announce = match ann {
                    Some(Value::Bytes(a)) => Some(a),
                    _ => None,
                };
                let tiers = match al {
                    Some(Value::List(ts)) => tiers_of(ts),
                    _ => None,
                };
                match lookup(top, key_info()) {
                    None => Err(MetainfoFault::MissingKey),
                    Some(Value::Dict(info)) => info_view(info, announce, tiers),
                    Some(_) => Err(MetainfoFault::TypeMismatch),
                }
            }
        },
        _ => Err(MetainfoFault::TypeMismatch),
    }
}

/// The views of a list of byte strings.
pub open spec fn bytes_list_view(v: Seq<Vec<u8>>) -> Seq<Seq<u8>> {
    Seq::new(v.len(), |i: int| v[i]@)
}

impl Torrent {
    /// The torrent agrees with what metainfo view `m` says.
    pub open spec fn agrees(&self, m: MetaView) -> bool {
        &&& self.announce_url matches Some(a) ==> m.announce == Some(a@)
        &&& self.announce_url is None ==> m.announce is None
        &&& self.announce_list matches Some(l) ==> m.tiers == Some(
            Seq::new(l@.len(), |i: int| bytes_list_view(l@[i]@)),
        )
        &&& self.announce_list is None ==> m.tiers is None
        &&& self.name@ == m.name
        &&& self.piece_length == m.piece_length
        &&& self.length == m.total
        &&& self.multi_file == m.multi
        &&& self.files@.len() == m.files.len()
        &&& forall|i: int|
            0 <= i < m.files.len() ==> bytes_list_view((#[trigger] self.files@[i]).0@) == m.files[i].0
                && self.files@[i].1 == m.files[i].1
        &&& self.piece_hashes@.len() == m.hashes.len()
        &&& forall|i: int| 0 <= i < m.hashes.len() ==> (#[trigger] self.piece_hashes@[i])@ == m.hashes[i]
    }
}

/// A copy of `v`.
fn copy_bytes(v: &Vec<u8>) -> (r: Vec<u8>)
    ensures
        r@ == v@,
{
    let mut out: Vec<u8> = Vec::new();
    push_all(&mut out, v.as_slice());
    assert(out@ =~= v@);
    out
}

/// The value of the first entry of `es` with key `k`.
pub(crate) fn lookup_entry<'a>(es: &'a Vec<(Vec<u8>, Element)>, k: &[u8]) -> (r: Option<&'a Element>)
    ensures
        match lookup(dict_model(es@), k@) {
            Some(v) => r matches Some(e) && e.model() == v,
            None => r is None,
        },
{
    let ghost m = dict_model(es@);
    let mut j: usize = 0;
    assert(m.subrange(0, m.len() as int) =~= m);
    while j < es.len()
        invariant
            j <= es@.len(),
            m == dict_model(es@),
            lookup(m, k@) == lookup(m.subrange(j as int, m.len() as int), k@),
        decreases es@.len() - j,
    {
        let ghost rest = m.subrange(j as int, m.len() as int);
        assert(rest[0] == m[j as int]);
        assert(rest.drop_first() =~= m.subrange(j + 1, m.len() as int));
        if crate::digest::bytes_equal(es[j].0.as_slice(), k) {
            return Some(&es[j].1);
        }
        j = j + 1;
    }
    None
}

/// Whether a path component names one entry inside its directory.
fn component_allowed(c: &Vec<u8>) -> (r: bool)
    ensures
        r == component_ok(c@),
{
    if c.len() == 0 {
        return false;
    }
    if c.len() == 1 && c[0] == 46 {
        assert(c@ =~= seq![46u8]);
        return false;
    }
    if c.len() == 2 && c[0] == 46 && c[1] == 46 {
        assert(c@ =~= seq![46u8, 46]);
        return false;
    }
    proof {
        if c@.len() == 1 {
            assert(c@ != seq![46u8, 46]);
        }
        if c@.len() == 2 {
            assert(c@ != seq![46u8]);
        }
    }
    let mut k: usize = 0;
    while k < c.len()
        invariant
            k <= c@.len(),
            forall|j: int| 0 <= j < k ==> #[trigger] c@[j] != 47 && c@[j] != 0,
        decreases c@.len() - k,
    {
        if c[k] == 47 || c[k] == 0 {
            return false;
        }
        k = k + 1;
    }
    true
}

/// The components of a path list.
fn path_components(vs: &Vec<Element>) -> (r: Result<Vec<Vec<u8>>, MetainfoFault>)
    ensures
        match path_of(list_model(vs@)) {
            Ok(cs) => r matches Ok(x) && bytes_list_view(x@) == cs,
            Err(f) => r matches Err(e) && e == f,
        },
{
    let ghost m = list_model(vs@);
    let mut out: Vec<Vec<u8>> = Vec::new();
    let mut j: usize = 0;
    assert(m.subrange(0, 0) =~= Seq::<Value>::empty());
    assert(bytes_list_view(out@) =~= Seq::<Seq<u8>>::empty());
    while j < vs.len()
        invariant
            j <= vs@.len(),
            m == list_model(vs@),
            path_of(m.subrange(0, j as int)) == Ok::<Seq<Seq<u8>>, MetainfoFault>(bytes_list_view(out@)),
        decreases vs@.len() - j,
    {
        let ghost pre = m.subrange(0, j as int);
        let ghost next = m.subrange(0, j + 1);
        assert(next.drop_last() =~= pre);
        assert(next.last() == vs@[j as int].model());
        match &vs[j] {
            Element::ByteString(c) => {
                if !component_allowed(c) {
                    proof { lemma_path_prefix_err(m, j as int + 1); }
                    return Err(MetainfoFault::BadPath);
                }
                let ghost before = out@;
                out.push(copy_bytes(c));
                assert(bytes_list_view(out@) =~= bytes_list_view(before).push(c@));
            },
            _ => {
                proof { lemma_path_prefix_err(m, j as int + 1); }
                return Err(MetainfoFault::TypeMismatch);
            },
        }
        j = j + 1;
    }
    assert(m.subrange(0, j as int) =~= m);
    Ok(out)
}

/// A fault in a prefix of a path list is the fault of the whole list.
proof fn lemma_path_prefix_err(m: Seq<Value>, n: int)
    requires
        0 <= n <= m.len(),
        path_of(m.subrange(0, n)) is Err,
    ensures
        path_of(m) == path_of(m.subrange(0, n)),
    decreases m.len() - n,
{
    if n < m.len() {
        assert(m.subrange(0, n + 1).drop_last() =~= m.subrange(0, n));
        lemma_path_prefix_err(m, n + 1);
    } else {
        assert(m.subrange(0, n) =~= m);
    }
}

/// One entry of a `files` list.
fn file_entry(e: &Element) -> (r: Result<(Vec<Vec<u8>>, u64), MetainfoFault>)
    ensures
        match file_of(e.model()) {
            Ok((cs, l)) => r matches Ok(x) && bytes_list_view(x.0@) == cs && x.1 == l,
            Err(f) => r matches Err(x) && x == f,
        },
{
    proof { lemma_model_parts(e); }
    match e {
        Element::Dict(es) => {
            let len = match lookup_entry(es, &[108u8, 101, 110, 103, 116, 104]) {
                None => {
                    assert([108u8, 101, 110, 103, 116, 104]@ =~= key_length());
                    return Err(MetainfoFault::MissingKey);
                },
                Some(Element::Integer(l)) => *l,
                Some(_) => {
                    assert([108u8, 101, 110, 103, 116, 104]@ =~= key_length());
                    return Err(MetainfoFault::TypeMismatch);
                },
            };
            assert([108u8, 101, 110, 103, 116, 104]@ =~= key_length());
            let ps = match lookup_entry(es, &[112u8, 97, 116, 104]) {
                None => {
                    assert([112u8, 97, 116, 104]@ =~= key_path());
                    return Err(MetainfoFault::MissingKey);
                },
                Some(Element::List(ps)) => ps,
                Some(_) => {
                    assert([112u8, 97, 116, 104]@ =~= key_path());
                    return Err(MetainfoFault::TypeMismatch);
                },
            };
            assert([112u8, 97, 116, 104]@ =~= key_path());
            proof { lemma_model_parts(&Element::List(*ps)); }
            if len < 0 {
                return Err(MetainfoFault::TypeMismatch);
            }
            let cs = match path_components(ps) {
                Err(f) => {
                    return Err(f);
                },
                Ok(cs) => cs,
            };
            if cs.len() == 0 {
                return Err(MetainfoFault::BadPath);
            }
            Ok((cs, len as u64))
        },
        _ => Err(MetainfoFault::TypeMismatch),
    }
}

/// The views of a list of files.
pub open spec fn files_view(f: Seq<(Vec<Vec<u8>>, u64)>) -> Seq<(Seq<Seq<u8>>, int)> {
    Seq::new(f.len(), |i: int| (bytes_list_view(f[i].0@), f[i].1 as int))
}

/// A fault in a prefix of a `files` list is the fault of the whole list.
proof fn lemma_files_prefix_err(m: Seq<Value>, n: int)
    requires
        0 <= n <= m.len(),
        files_of(m.subrange(0, n)) is Err,
    ensures
        files_of(m) == files_of(m.subrange(0, n)),
    decreases m.len() - n,
{
    if n < m.len() {
        assert(m.subrange(0, n + 1).drop_last() =~= m.subrange(0, n));
        lemma_files_prefix_err(m, n + 1);
    } else {
        assert(m.subrange(0, n) =~= m);
    }
}

/// The files of a `files` list and their total length.
fn files_list(vs: &Vec<Element>) -> (r: Result<(Vec<(Vec<Vec<u8>>, u64)>, u64), MetainfoFault>)
    ensures
        match files_of(list_model(vs@)) {
            Ok((fs, tot)) => r matches Ok(x) && files_view(x.0@) == fs && x.1 == tot,
            Err(f) => r matches Err(e) && e == f,
        },
{
    let ghost m = list_model(vs@);
    let mut out: Vec<(Vec<Vec<u8>>, u64)> = Vec::new();
    let mut total: u64 = 0;
    let mut j: usize = 0;
    assert(m.subrange(0, 0) =~= Seq::<Value>::empty());
    assert(files_view(out@) =~= Seq::<(Seq<Seq<u8>>, int)>::empty());
    while j < vs.len()
        invariant
            j <= vs@.len(),
            m == list_model(vs@),
            files_of(m.subrange(0, j as int)) == Ok::<(Seq<(Seq<Seq<u8>>, int)>, int), MetainfoFault>(
                (files_view(out@), total as int),
            ),
        decreases vs@.len() - j,
    {
        let ghost pre = m.subrange(0, j as int);
        let ghost next = m.subrange(0, j + 1);
        assert(next.drop_last() =~= pre);
        assert(next.last() == vs@[j as int].model());
        match file_entry(&vs[j]) {
            Err(f) => {
                proof { lemma_files_prefix_err(m, j as int + 1); }
                return Err(f);
            },
            Ok((cs, l)) => {
                if l > u64::MAX - total {
                    proof { lemma_files_prefix_err(m, j as int + 1); }
                    return Err(MetainfoFault::TypeMismatch);
                }
                total = total + l;
                let ghost before = out@;
                out.push((cs, l));
                assert(files_view(out@) =~= files_view(before).push((bytes_list_view(cs@), l as int)));
            },
        }
        j = j + 1;
    }
    assert(m.subrange(0, j as int) =~= m);
    Ok((out, total))
}

/// One tier of an `announce-list`.
fn tier_list(e: &Element) -> (r: Option<Vec<Vec<u8>>>)
    ensures
        match tier_of(e.model()) {
            Some(t) => r matches Some(x) && bytes_list_view(x@) == t,
            None => r is None,
        },
{
    proof { lemma_model_parts(e); }
    match e {
        Element::List(us) => {
            let ghost m = list_model(us@);
            let mut out: Vec<Vec<u8>> = Vec::new();
            let mut j: usize = 0;
            while j < us.len()
                invariant
                    j <= us@.len(),
                    m == list_model(us@),
                    e.model() == Value::List(m),
                    out@.len() == j,
                    forall|k: int| 0 <= k < j ==> (#[trigger] m[k]) is Bytes && out@[k]@ == m[k]->Bytes_0,
                decreases us@.len() - j,
            {
                match &us[j] {
                    Element::ByteString(c) => {
                        out.push(copy_bytes(c));
                    },
                    _ => {
                        assert(m[j as int] == us@[j as int].model());
                        assert(!(m[j as int] is Bytes));
                        assert(e.model() == Value::List(m));
                        return None;
                    },
                }
                j = j + 1;
            }
            assert(bytes_list_view(out@) =~= Seq::new(m.len(), |k: int| m[k]->Bytes_0));
            Some(out)
        },
        _ => None,
    }
}

/// A missing tier in a prefix means no tiers at all.
proof fn lemma_tiers_prefix_none(m: Seq<Value>, n: int)
    requires
        0 <= n <= m.len(),
        tiers_of(m.subrange(0, n)) is None,
    ensures
        tiers_of(m) is None,
    decreases m.len() - n,
{
    if n < m.len() {
        assert(m.subrange(0, n + 1).drop_last() =~= m.subrange(0, n));
        lemma_tiers_prefix_none(m, n + 1);
    } else {
        assert(m.subrange(0, n) =~= m);
    }
}

/// The tiers of an `announce-list`.
fn tiers_list(vs: &Vec<Element>) -> (r: Option<Vec<Vec<Vec<u8>>>>)
    ensures
        match tiers_of(list_model(vs@)) {
            Some(ts) => r matches Some(x) && Seq::new(x@.len(), |i: int| bytes_list_view(x@[i]@)) == ts,
            None => r is None,
        },
{
    let ghost m = list_model(vs@);
    let mut out: Vec<Vec<Vec<u8>>> = Vec::new();
    let mut j: usize = 0;
    assert(m.subrange(0, 0) =~= Seq::<Value>::empty());
    assert(Seq::new(out@.len(), |i: int| bytes_list_view(out@[i]@)) =~= Seq::<Seq<Seq<u8>>>::empty());
    while j < vs.len()
        invariant
            j <= vs@.len(),
            m == list_model(vs@),
            tiers_of(m.subrange(0, j as int)) == Some(Seq::new(out@.len(), |i: int| bytes_list_view(out@[i]@))),
        decreases vs@.len() - j,
    {
        let ghost pre = m.subrange(0, j as int);
        let ghost next = m.subrange(0, j + 1);
        assert(next.drop_last() =~= pre);
        assert(next.last() == vs@[j as int].model());
        match tier_list(&vs[j]) {
            None => {
                proof { lemma_tiers_prefix_none(m, j as int + 1); }
                return None;
            },
            Some(t) => {
                let ghost before = out@;
                out.push(t);
                assert(Seq::new(out@.len(), |i: int| bytes_list_view(out@[i]@)) =~= Seq::new(
                    before.len(),
                    |i: int| bytes_list_view(before[i]@),
                ).push(bytes_list_view(t@)));
            },
        }
        j = j + 1;
    }
    assert(m.subrange(0, j as int) =~= m);
    Some(out)
}

/// The 20-byte digest at `at`.
fn digest_at(ps: &Vec<u8>, at: usize) -> (r: [u8; 20])
    requires
        at + 20 <= ps@.len(),
    ensures
        r@ == ps@.subrange(at as int, at + 20),
{
    let mut h: [u8; 20] = [0u8; 20];
    let mut j: usize = 0;
    assert(ps@.len() == ps.len());
    while j < 20
        invariant
            j <= 20,
            at + 20 <= ps@.len(),
            ps@.len() == ps.len(),
            forall|k: int| 0 <= k < j ==> h@[k] == ps@[at + k],
        decreases 20 - j,
    {
        h[j] = ps[at + j];
        j = j + 1;
    }
    assert(h@ =~= ps@.subrange(at as int, at + 20));
    h
}

/// The digests that `pieces` concatenates.
fn split_hashes(ps: &Vec<u8>) -> (r: Vec<[u8; 20]>)
    requires
        ps@.len() % 20 == 0,
    ensures
        r@.len() == hashes_of(ps@).len(),
        forall|i: int| 0 <= i < r@.len() ==> (#[trigger] r@[i])@ == hashes_of(ps@)[i],
{
    let mut out: Vec<[u8; 20]> = Vec::new();
    let mut at: usize = 0;
    while at < ps.len()
        invariant
            ps@.len() % 20 == 0,
            at % 20 == 0,
            at <= ps@.len(),
            out@.len() == at / 20,
            forall|i: int| 0 <= i < out@.len() ==> (#[trigger] out@[i])@ == ps@.subrange(20 * i, 20 * i + 20),
        decreases ps@.len() - at,
    {
        out.push(digest_at(ps, at));
        at = at + 20;
    }
    out
}

impl Torrent {
    /// The torrent that a decoded metainfo value describes, with its info-hash and this
    /// run's peer id; or the first fault found in the value.
    pub fn from_element(decoded: &Element, info_hash: [u8; 20], peer_id: [u8; 20]) -> (r: Result<
        Torrent,
        InvalidTorrentFile,
    >)
        ensures
            match metainfo(decoded.model()) {
                Ok(m) => r matches Ok(t) && t.agrees(m) && t.info_hash == info_hash && t.peer_id
                    == peer_id,
                Err(f) => r matches Err(e) && e.fault == f,
            },
    {
        proof { lemma_model_parts(decoded); }
        let top = match decoded {
            Element::Dict(es) => es,
            _ => {
                return Err(InvalidTorrentFile { fault: MetainfoFault::TypeMismatch });
            },
        };
        let k_announce = [97u8, 110, 110, 111, 117, 110, 99, 101];
        let k_announce_list = [97u8, 110, 110, 111, 117, 110, 99, 101, 45, 108, 105, 115, 116];
        let k_info = [105u8, 110, 102, 111];
        let k_name = [110u8, 97, 109, 101];
        let k_piece_length = [112u8, 105, 101, 99, 101, 32, 108, 101, 110, 103, 116, 104];
        let k_pieces = [112u8, 105, 101, 99, 101, 115];
        let k_length = [108u8, 101, 110, 103, 116, 104];
        let k_files = [102u8, 105, 108, 101, 115];
        assert(k_announce@ =~= key_announce());
        assert(k_announce_list@ =~= key_announce_list());
        assert(k_info@ =~= key_info());
        assert(k_name@ =~= key_name());
        assert(k_piece_length@ =~= key_piece_length());
        assert(k_pieces@ =~= key_pieces());
        assert(k_length@ =~= key_length());
        assert(k_files@ =~= key_files());
        let ann = lookup_entry(top, &k_announce);
        let al = lookup_entry(top, &k_announce_list);
        if ann.is_none() && al.is_none() {
            return Err(InvalidTorrentFile { fault: MetainfoFault::MissingKey });
        }
        let announce_url = match ann {
            None => None,
            Some(Element::ByteString(a)) => Some(copy_bytes(a)),
            Some(_) => {
                return Err(InvalidTorrentFile { fault: MetainfoFault::TypeMismatch });
            },
        };
        let announce_list = match al {
            None => None,
            Some(Element::List(ts)) => {
                proof { lemma_model_parts(&Element::List(*ts)); }
                match tiers_list(ts) {
                    None => {
                        return Err(InvalidTorrentFile { fault: MetainfoFault::TypeMismatch });
                    },
                    Some(x) => Some(x),
                }
            },
            Some(_) => {
                return Err(InvalidTorrentFile { fault: MetainfoFault::TypeMismatch });
            },
        };
        let info = match lookup_entry(top, &k_info) {
            None => {
                return Err(InvalidTorrentFile { fault: MetainfoFault::MissingKey });
            },
            Some(Element::Dict(info)) => info,
            Some(_) => {
                return Err(InvalidTorrentFile { fault: MetainfoFault::TypeMismatch });
            },
        };
        proof { lemma_model_parts(&Element::Dict(*info)); }
        let name = match lookup_entry(info, &k_name) {
            None => {
                return Err(InvalidTorrentFile { fault: MetainfoFault::MissingKey });
            },
            Some(Element::ByteString(n)) => n,
            Some(_) => {
                return Err(InvalidTorrentFile { fault: MetainfoFault::TypeMismatch });
            },
        };
        if !component_allowed(name) {
            return Err(InvalidTorrentFile { fault: MetainfoFault::BadPath });
        }
        let piece_length = match lookup_entry(info, &k_piece_length) {
            None => {
                return Err(InvalidTorrentFile { fault: MetainfoFault::MissingKey });
            },
            Some(Element::Integer(pl)) => *pl,
            Some(_) => {
                return Err(InvalidTorrentFile { fault: MetainfoFault::TypeMismatch });
            },
        };
        if piece_length <= 0 {
            return Err(InvalidTorrentFile { fault: MetainfoFault::TypeMismatch });
        }
        let pieces = match lookup_entry(info, &k_pieces) {
            None => {
                return Err(InvalidTorrentFile { fault: MetainfoFault::MissingKey });
            },
            Some(Element::ByteString(ps)) => ps,
            Some(_) => {
                return Err(InvalidTorrentFile { fault: MetainfoFault::TypeMismatch });
            },
        };
        if pieces.len() % 20 != 0 {
            return Err(InvalidTorrentFile { fault: MetainfoFault::PiecesNotMultipleOf20 });
        }
        let multi_file = match lookup_entry(info, &k_files) {
            Some(_) => true,
            None => false,
        };
        let (files, length) = match lookup_entry(info, &k_files) {
            Some(Element::List(vs)) => {
                proof { lemma_model_parts(&Element::List(*vs)); }
                match files_list(vs) {
                    Err(f) => {
                        return Err(InvalidTorrentFile { fault: f });
                    },
                    Ok(x) => x,
                }
            },
            Some(_) => {
                return Err(InvalidTorrentFile { fault: MetainfoFault::TypeMismatch });
            },
            None => match lookup_entry(info, &k_length) {
                None => {
                    return Err(InvalidTorrentFile { fault: MetainfoFault::MissingKey });
                },
                Some(Element::Integer(l)) => {
                    if *l < 0 {
                        return Err(InvalidTorrentFile { fault: MetainfoFault::TypeMismatch });
                    }
                    let mut path: Vec<Vec<u8>> = Vec::new();
                    path.push(copy_bytes(name));
                    let mut fs: Vec<(Vec<Vec<u8>>, u64)> = Vec::new();
                    fs.push((path, *l as u64));
                    assert(files_view(fs@) =~= seq![(seq![name@], *l as int)]) by {
                        assert(bytes_list_view(fs@[0].0@) =~= seq![name@]);
                    }
                    (fs, *l as u64)
                },
                Some(_) => {
                    return Err(InvalidTorrentFile { fault: MetainfoFault::TypeMismatch });
                },
            },
        };
        let piece_hashes = split_hashes(pieces);
        let t = Torrent {
            announce_url,
            announce_list,
            name: copy_bytes(name),
            length,
            info_hash,
            piece_length: piece_length as u64,
            piece_hashes,
            files,
            multi_file,
            peer_id,
        };
        proof {
            let m = metainfo(decoded.model());
            assert(m is Ok);
            let mv = m->Ok_0;
            assert(t.files@.len() == mv.files.len()) by {
                assert(files_view(t.files@).len() == mv.files.len());
            }
            assert forall|i: int| 0 <= i < mv.files.len() implies bytes_list_view(
                (#[trigger] t.files@[i]).0@,
            ) == mv.files[i].0 && t.files@[i].1 == mv.files[i].1 by {
                assert(files_view(t.files@)[i] == mv.files[i]);
            }
        }
        Ok(t)
    }

    /// The torrent that a metainfo buffer describes: it is decoded, its info-hash taken
    /// from the raw bytes of its `info` value, and a random peer id drawn for this run.
    pub fn parse_decoded(buf: Vec<u8>) -> (r: Result<Torrent, TorrentError>)
        ensures
            match decode_spec(buf@) {
                Err(x) => r matches Err(TorrentError::Encoding(e)) && e.index == x && e.curr
                    == crate::bencode::byte_at(buf@, x),
                Ok(v) => match metainfo(v) {
                    Err(f) => r matches Err(TorrentError::Metainfo(e)) && e.fault == f,
                    Ok(m) => match info_span(buf@) {
                        Some((s, e)) => r matches Ok(t) && t.agrees(m) && t.info_hash@ == sha1_of(
                            buf@.subrange(s, e),
                        ),
                        None => r matches Err(TorrentError::Metainfo(e)) && e.fault
                            == MetainfoFault::MissingKey,
                    },
                },
            },
    {
        let ghost b = buf@;
        let (decoded, hash) = match Bencode::decode(buf) {
            Err(e) => {
                return Err(TorrentError::Encoding(e));
            },
            Ok(x) => x,
        };
        let peer_id: [u8; 20] = rand::random();
        match hash {
            Some(h) => match Torrent::from_element(&decoded, h, peer_id) {
                Ok(t) => Ok(t),
                Err(e) => Err(TorrentError::Metainfo(e)),
            },
            None => match Torrent::from_element(&decoded, [0u8; 20], peer_id) {
                Err(e) => Err(TorrentError::Metainfo(e)),
                Ok(_) => Err(
                    TorrentError::Metainfo(InvalidTorrentFile { fault: MetainfoFault::MissingKey }),
                ),
            },
        }
    }
}

impl Torrent {
    /// The piece scheduler for this torrent as a download starts: every piece with rarity 0,
    /// not verified, all its blocks missing, and nothing downloaded. `None` unless the piece
    /// length is positive and there is one digest per piece of the payload.
    pub fn scheduler(&self) -> (r: Option<Scheduler>)
        ensures
            r is Some <==> self.piece_length > 0 && self.piece_hashes@.len() == piece_count(
                self.length as int,
                self.piece_length as int,
            ),
            r matches Some(s) ==> {
                &&& s.wf()
                &&& s.total_length == self.length
                &&& s.piece_length == self.piece_length
                &&& s.downloaded == 0
                &&& s.pieces@.len() == self.piece_hashes@.len()
                &&& forall|i: int|
                    0 <= i < s.pieces@.len() ==> {
                        &&& (#[trigger] s.pieces@[i]).hash == self.piece_hashes@[i]
                        &&& s.pieces@[i].rarity == 0
                        &&& !s.pieces@[i].verified
                        &&& all_missing(s.pieces@[i].blocks@)
                    }
            },
    {
        Scheduler::new(self.length, self.piece_length, &self.piece_hashes)
    }
}

/// The URLs of all tiers, tier after tier, each in its order.
pub open spec fn tier_urls(l: Seq<Vec<Vec<u8>>>) -> Seq<Seq<u8>>
    decreases l.len(),
{
    if l.len() == 0 {
        Seq::empty()
    } else {
        tier_urls(l.drop_last()) + bytes_list_view(l.last()@)
    }
}

/// The URLs in order, each kept only where it first appears.
pub open spec fn first_occurrences(s: Seq<Seq<u8>>) -> Seq<Seq<u8>>
    decreases s.len(),
{
    if s.len() == 0 {
        Seq::empty()
    } else {
        let d = first_occurrences(s.drop_last());
        if d.contains(s.last()) {
            d
        } else {
            d.push(s.last())
        }
    }
}

/// The announce URL, if any, then the URLs of every tier.
pub open spec fn announce_candidates(t: Torrent) -> Seq<Seq<u8>> {
    (match t.announce_url {
        Some(a) => seq![a@],
        None => Seq::empty(),
    }) + match t.announce_list {
        Some(l) => tier_urls(l@),
        None => Seq::empty(),
    }
}

/// Whether `acc` already holds `u`.
fn holds_url(acc: &Vec<Vec<u8>>, u: &Vec<u8>) -> (r: bool)
    ensures
        r == bytes_list_view(acc@).contains(u@),
{
    let mut j: usize = 0;
    while j < acc.len()
        invariant
            j <= acc@.len(),
            forall|k: int| 0 <= k < j ==> acc@[k]@ != u@,
        decreases acc@.len() - j,
    {
        if crate::digest::bytes_equal(acc[j].as_slice(), u.as_slice()) {
            assert(bytes_list_view(acc@)[j as int] == u@);
            return true;
        }
        j = j + 1;
    }
    proof {
        if bytes_list_view(acc@).contains(u@) {
            let w = choose|w: int| 0 <= w < bytes_list_view(acc@).len() && bytes_list_view(acc@)[w] == u@;
            assert(acc@[w]@ == u@);
        }
    }
    false
}

/// Adds `u` to `acc` unless it is there already.
fn add_url(acc: &mut Vec<Vec<u8>>, u: &Vec<u8>)
    ensures
        bytes_list_view(final(acc)@) == if bytes_list_view(old(acc)@).contains(u@) {
            bytes_list_view(old(acc)@)
        } else {
            bytes_list_view(old(acc)@).push(u@)
        },
{
    if !holds_url(acc, u) {
        let ghost before = acc@;
        acc.push(copy_bytes(u));
        assert(bytes_list_view(acc@) =~= bytes_list_view(before).push(u@));
    }
}

impl Torrent {
    /// The trackers to announce to: the announce URL, then every URL of every tier in order,
    /// each once, where it first appears.
    pub fn announce_urls(&self) -> (r: Vec<Vec<u8>>)
        ensures
            bytes_list_view(r@) == first_occurrences(announce_candidates(*self)),
    {
        let mut acc: Vec<Vec<u8>> = Vec::new();
        let ghost mut seen: Seq<Seq<u8>> = Seq::empty();
        assert(bytes_list_view(acc@) =~= first_occurrences(seen));
        if let Some(a) = &self.announce_url {
            proof {
                assert(seq![a@].drop_last() =~= seen);
            }
            add_url(&mut acc, a);
            proof {
                seen = seq![a@];
            }
        }
        assert(seen =~= match self.announce_url {
            Some(a) => seq![a@],
            None => Seq::<Seq<u8>>::empty(),
        });
        let ghost head = seen;
        if let Some(l) = &self.announce_list {
            let mut t: usize = 0;
            assert(l@.subrange(0, 0) =~= Seq::<Vec<Vec<u8>>>::empty());
            assert(seen =~= head + tier_urls(l@.subrange(0, 0)));
            while t < l.len()
                invariant
                    t <= l@.len(),
                    seen == head + tier_urls(l@.subrange(0, t as int)),
                    bytes_list_view(acc@) == first_occurrences(seen),
                decreases l@.len() - t,
            {
                let tier = &l[t];
                let ghost base = seen;
                let mut u: usize = 0;
                assert(bytes_list_view(tier@.subrange(0, 0)) =~= Seq::<Seq<u8>>::empty());
                assert(seen =~= base + bytes_list_view(tier@.subrange(0, 0)));
                while u < tier.len()
                    invariant
                        u <= tier@.len(),
                        seen == base + bytes_list_view(tier@.subrange(0, u as int)),
                        bytes_list_view(acc@) == first_occurrences(seen),
                    decreases tier@.len() - u,
                {
                    let ghost next = seen.push(tier@[u as int]@);
                    assert(next.drop_last() =~= seen);
                    add_url(&mut acc, &tier[u]);
                    proof {
                        seen = next;
                        assert(bytes_list_view(tier@.subrange(0, u + 1)) =~= bytes_list_view(
                            tier@.subrange(0, u as int),
                        ).push(tier@[u as int]@));
                    }
                    u = u + 1;
                }
                proof {
                    assert(tier@.subrange(0, u as int) =~= tier@);
                    assert(l@.subrange(0, t + 1).drop_last() =~= l@.subrange(0, t as int));
                    assert(l@.subrange(0, t + 1).last() == l@[t as int]);
                }
                t = t + 1;
            }
            assert(l@.subrange(0, t as int) =~= l@);
        }
        assert(seen =~= announce_candidates(*self));
        acc
    }
}

} // verus!
