use vstd::prelude::*;

use crate::value::{BValue, BencodeValue, bval_entries, bval_list};
use crate::parse::{KeyCmp, lex_cmp, copy_bytes};
use crate::emit::{lemma_bval_entries_index, lemma_bval_list_index};

verus! {

/// How a present-but-wrong-typed *optional* field is handled: a hard
/// error under `Strict`, silently treated as absent under `Lenient`.
/// Required fields and the layout rules are hard errors either way.
#[derive(Debug, Clone, Copy, PartialEq, Eq, Structural)]
pub enum MapPolicy {
    Strict,
    Lenient,
}

/// The field a validation error speaks of.
#[derive(Debug, Clone, Copy, PartialEq, Eq, Structural)]
pub enum FieldName {
    Announce,
    Info,
    PieceLength,
    Pieces,
    Name,
    Length,
    Files,
    AnnounceList,
    CreationDate,
    Comment,
    CreatedBy,
    Private,
}

/// Well-formed bencode that violates the torrent schema.
#[derive(Debug, Clone, Copy, PartialEq, Eq, Structural)]
pub enum ValidationError {
    MissingField(FieldName),
    TypeMismatch(FieldName),
    MalformedPieces,
    AmbiguousLayout,
    MalformedFileEntry(usize),
}

/// What UTF-8 decoding returns on a byte sequence: `Some` of the text
/// exactly when the bytes are valid UTF-8, a function of the bytes alone.
pub uninterp spec fn utf8_decode(b: Seq<u8>) -> Option<Seq<char>>;

/// Relies on `String::from_utf8` of std: it returns `Ok` exactly when
/// the bytes are valid UTF-8, and the resulting text is a function of
/// the bytes alone.
#[verifier::external_body]
fn bytes_to_text(b: &Vec<u8>) -> (r: Option<String>)
    ensures
        match r {
            Option::Some(t) => utf8_decode(b@) == Option::Some(t@),
            Option::None => utf8_decode(b@) is None,
        },
{
    match String::from_utf8(b.clone()) {
        Ok(t) => Some(t),
        Err(e) => None,
    }
}

// === The typed model ===

/// A single file of a multi-file torrent.
#[derive(Debug, PartialEq)]
pub struct FileInfo {
    pub length: i64,
    pub path: Vec<String>,
    pub md5sum: Option<String>,
}

/// The `info` dictionary: piece geometry, name, and exactly one of the
/// single-file (`length`) or multi-file (`files`) layouts.
#[derive(Debug, PartialEq)]
pub struct TorrentInfo {
    pub piece_length: i64,
    pub pieces: Vec<u8>,
    pub name: String,
    pub length: Option<i64>,
    pub files: Option<Vec<FileInfo>>,
    pub private: Option<i64>,
}

/// A validated `.torrent` file: tracker data and the `info` dictionary.
#[derive(Debug, PartialEq)]
pub struct TorrentMetaInfo {
    pub announce: String,
    pub info: TorrentInfo,
    pub announce_list: Option<Vec<Vec<String>>>,
    pub creation_date: Option<i64>,
    pub comment: Option<String>,
    pub created_by: Option<String>,
}

#[verifier::ext_equal]
pub struct FileView {
    pub length: int,
    pub path: Seq<Seq<char>>,
    pub md5sum: Option<Seq<char>>,
}

#[verifier::ext_equal]
pub struct InfoView {
    pub piece_length: int,
    pub pieces: Seq<u8>,
    pub name: Seq<char>,
    pub length: Option<int>,
    pub files: Option<Seq<FileView>>,
    pub private: Option<int>,
}

#[verifier::ext_equal]
pub struct MetaView {
    pub announce: Seq<char>,
    pub announce_list: Option<Seq<Seq<Seq<char>>>>,
    pub creation_date: Option<int>,
    pub comment: Option<Seq<char>>,
    pub created_by: Option<Seq<char>>,
    pub info: InfoView,
}

impl FileInfo {
    pub open spec fn model(&self) -> FileView {
        FileView {
            length: self.length as int,
            path: self.path.deep_view(),
            md5sum: match self.md5sum {
                Option::Some(s) => Option::Some(s@),
                Option::None => Option::None,
            },
        }
    }
}

pub open spec fn files_models(fs: Seq<FileInfo>) -> Seq<FileView> {
    Seq::new(fs.len(), |i: int| fs[i].model())
}

impl TorrentInfo {
    pub open spec fn model(&self) -> InfoView {
        InfoView {
            piece_length: self.piece_length as int,
            pieces: self.pieces@,
            name: self.name@,
            length: match self.length {
                Option::Some(n) => Option::Some(n as int),
                Option::None => Option::None,
            },
            files: match self.files {
                Option::Some(fs) => Option::Some(files_models(fs@)),
                Option::None => Option::None,
            },
            private: match self.private {
                Option::Some(n) => Option::Some(n as int),
                Option::None => Option::None,
            },
        }
    }
}

impl TorrentMetaInfo {
    pub open spec fn model(&self) -> MetaView {
        MetaView {
            announce: self.announce@,
            announce_list: match self.announce_list {
                Option::Some(ts) => Option::Some(ts.deep_view()),
                Option::None => Option::None,
            },
            creation_date: match self.creation_date {
                Option::Some(n) => Option::Some(n as int),
                Option::None => Option::None,
            },
            comment: match self.comment {
                Option::Some(s) => Option::Some(s@),
                Option::None => Option::None,
            },
            created_by: match self.created_by {
                Option::Some(s) => Option::Some(s@),
                Option::None => Option::None,
            },
            info: self.info.model(),
        }
    }
}

// === Dictionary keys ===

/// The dictionary key "announce".
pub open spec fn key_announce() -> Seq<u8> {
    seq![97u8, 110u8, 110u8, 111u8, 117u8, 110u8, 99u8, 101u8]
}

/// The dictionary key "info".
pub open spec fn key_info() -> Seq<u8> {
    seq![105u8, 110u8, 102u8, 111u8]
}

/// The dictionary key "piece length".
pub open spec fn key_piece_length() -> Seq<u8> {
    seq![112u8, 105u8, 101u8, 99u8, 101u8, 32u8, 108u8, 101u8, 110u8, 103u8, 116u8, 104u8]
}

/// The dictionary key "pieces".
pub open spec fn key_pieces() -> Seq<u8> {
    seq![112u8, 105u8, 101u8, 99u8, 101u8, 115u8]
}

/// The dictionary key "name".
pub open spec fn key_name() -> Seq<u8> {
    seq![110u8, 97u8, 109u8, 101u8]
}

/// The dictionary key "length".
pub open spec fn key_length() -> Seq<u8> {
    seq![108u8, 101u8, 110u8, 103u8, 116u8, 104u8]
}

/// The dictionary key "files".
pub open spec fn key_files() -> Seq<u8> {
    seq![102u8, 105u8, 108u8, 101u8, 115u8]
}

/// The dictionary key "path".
pub open spec fn key_path() -> Seq<u8> {
    seq![112u8, 97u8, 116u8, 104u8]
}

/// The dictionary key "md5sum".
pub open spec fn key_md5sum() -> Seq<u8> {
    seq![109u8, 100u8, 53u8, 115u8, 117u8, 109u8]
}

/// The dictionary key "announce-list".
pub open spec fn key_announce_list() -> Seq<u8> {
    seq![97u8, 110u8, 110u8, 111u8, 117u8, 110u8, 99u8, 101u8, 45u8, 108u8, 105u8, 115u8, 116u8]
}

/// The dictionary key "creation date".
pub open spec fn key_creation_date() -> Seq<u8> {
    seq![99u8, 114u8, 101u8, 97u8, 116u8, 105u8, 111u8, 110u8, 32u8, 100u8, 97u8, 116u8, 101u8]
}

/// The dictionary key "comment".
pub open spec fn key_comment() -> Seq<u8> {
    seq![99u8, 111u8, 109u8, 109u8, 101u8, 110u8, 116u8]
}

/// The dictionary key "created by".
pub open spec fn key_created_by() -> Seq<u8> {
    seq![99u8, 114u8, 101u8, 97u8, 116u8, 101u8, 100u8, 32u8, 98u8, 121u8]
}

/// The dictionary key "private".
pub open spec fn key_private_flag() -> Seq<u8> {
    seq![112u8, 114u8, 105u8, 118u8, 97u8, 116u8, 101u8]
}

/// First value under `k`, scanning entries left to right.
pub open spec fn dget(es: Seq<(Seq<u8>, BValue)>, k: Seq<u8>) -> Option<BValue>
    decreases es.len(),
{
    if es.len() == 0 {
        Option::None
    } else if es[0].0 == k {
        Option::Some(es[0].1)
    } else {
        dget(es.drop_first(), k)
    }
}

fn dict_get<'a>(es: &'a Vec<(Vec<u8>, BencodeValue)>, k: &Vec<u8>) -> (r: Option<
    &'a BencodeValue,
>)
    ensures
        match r {
            Option::Some(v) => dget(bval_entries(es@), k@) == Option::Some(v.bval()),
            Option::None => dget(bval_entries(es@), k@) is None,
        },
{
    let ghost ses = bval_entries(es@);
    proof {
        lemma_bval_entries_index(es@);
        assert(ses.skip(0) =~= ses);
    }
    let mut i: usize = 0;
    while i < es.len()
        invariant
            i <= es.len(),
            ses == bval_entries(es@),
            ses.len() == es@.len(),
            forall|j: int| 0 <= j < es@.len() ==> #[trigger] ses[j] == (es@[j].0@, es@[j].1.bval()),
            dget(ses, k@) == dget(ses.skip(i as int), k@),
        decreases es.len() - i,
    {
        let same = match lex_cmp(&es[i].0, k) {
            KeyCmp::Same => true,
            KeyCmp::Below => false,
            KeyCmp::Above => false,
        };
        proof {
            assert(ses.skip(i as int)[0] == ses[i as int]);
        }
        if same {
            return Option::Some(&es[i].1);
        }
        proof {
            assert(ses.skip(i as int).drop_first() =~= ses.skip(i + 1));
        }
        i = i + 1;
    }
    proof {
        assert(ses.skip(es@.len() as int) =~= Seq::<(Seq<u8>, BValue)>::empty());
    }
    Option::None
}

// === The mapping specification ===

pub open spec fn spec_path_from(xs: Seq<BValue>, i: int) -> Option<Seq<Seq<char>>>
    decreases xs.len() - i,
{
    if i >= xs.len() {
        Option::Some(Seq::empty())
    } else {
        match xs[i] {
            BValue::Bytes(b) => if b.len() == 0 {
                Option::None
            } else {
                match utf8_decode(b) {
                    Option::Some(t) => match spec_path_from(xs, i + 1) {
                        Option::Some(r) => Option::Some(seq![t] + r),
                        Option::None => Option::None,
                    },
                    Option::None => Option::None,
                }
            },
            _ => Option::None,
        }
    }
}

/// One file entry: a dictionary with `length >= 0` and a non-empty
/// `path` of non-empty text segments; `md5sum` optional text.  `None`
/// means the entry is malformed (under the given policy).
pub open spec fn spec_file(v: BValue, strict: bool) -> Option<FileView> {
    match v {
        BValue::Dict(es) => match dget(es, key_length()) {
            Option::Some(BValue::Int(n)) => if n < 0 {
                Option::None
            } else {
                match dget(es, key_path()) {
                    Option::Some(BValue::List(xs)) => if xs.len() == 0 {
                        Option::None
                    } else {
                        match spec_path_from(xs, 0) {
                            Option::Some(segs) => match dget(es, key_md5sum()) {
                                Option::None => Option::Some(
                                    FileView { length: n, path: segs, md5sum: Option::None },
                                ),
                                Option::Some(BValue::Bytes(mb)) => match utf8_decode(mb) {
                                    Option::Some(mt) => Option::Some(
                                        FileView {
                                            length: n,
                                            path: segs,
                                            md5sum: Option::Some(mt),
                                        },
                                    ),
                                    Option::None => if strict {
                                        Option::None
                                    } else {
                                        Option::Some(
                                            FileView {
                                                length: n,
                                                path: segs,
                                                md5sum: Option::None,
                                            },
                                        )
                                    },
                                },
                                Option::Some(_) => if strict {
                                    Option::None
                                } else {
                                    Option::Some(
                                        FileView { length: n, path: segs, md5sum: Option::None },
                                    )
                                },
                            },
                            Option::None => Option::None,
                        }
                    },
                    _ => Option::None,
                }
            },
            _ => Option::None,
        },
        _ => Option::None,
    }
}

pub open spec fn spec_files_from(xs: Seq<BValue>, i: int, strict: bool) -> Result<
    Seq<FileView>,
    ValidationError,
>
    decreases xs.len() - i,
{
    if i >= xs.len() {
        Ok(Seq::empty())
    } else {
        match spec_file(xs[i], strict) {
            Option::Some(f) => match spec_files_from(xs, i + 1, strict) {
                Ok(r) => Ok(seq![f] + r),
                Err(e) => Err(e),
            },
            Option::None => Err(ValidationError::MalformedFileEntry(i as usize)),
        }
    }
}

pub open spec fn spec_tier_from(xs: Seq<BValue>, i: int) -> Option<Seq<Seq<char>>>
    decreases xs.len() - i,
{
    if i >= xs.len() {
        Option::Some(Seq::empty())
    } else {
        match xs[i] {
            BValue::Bytes(b) => match utf8_decode(b) {
                Option::Some(t) => match spec_tier_from(xs, i + 1) {
                    Option::Some(r) => Option::Some(seq![t] + r),
                    Option::None => Option::None,
                },
                Option::None => Option::None,
            },
            _ => Option::None,
        }
    }
}

pub open spec fn spec_tiers_from(xs: Seq<BValue>, i: int) -> Option<Seq<Seq<Seq<char>>>>
    decreases xs.len() - i,
{
    if i >= xs.len() {
        Option::Some(Seq::empty())
    } else {
        match xs[i] {
            BValue::List(t) => match spec_tier_from(t, 0) {
                Option::Some(tt) => match spec_tiers_from(xs, i + 1) {
                    Option::Some(r) => Option::Some(seq![tt] + r),
                    Option::None => Option::None,
                },
                Option::None => Option::None,
            },
            _ => Option::None,
        }
    }
}

/// An optional text field: absent stays absent; present text is taken;
/// present non-text is an error under `strict`, absent otherwise.
pub open spec fn spec_opt_text(
    es: Seq<(Seq<u8>, BValue)>,
    k: Seq<u8>,
    f: FieldName,
    strict: bool,
) -> Result<Option<Seq<char>>, ValidationError> {
    match dget(es, k) {
        Option::None => Ok(Option::None),
        Option::Some(BValue::Bytes(b)) => match utf8_decode(b) {
            Option::Some(t) => Ok(Option::Some(t)),
            Option::None => if strict {
                Err(ValidationError::TypeMismatch(f))
            } else {
                Ok(Option::None)
            },
        },
        Option::Some(_) => if strict {
            Err(ValidationError::TypeMismatch(f))
        } else {
            Ok(Option::None)
        },
    }
}

/// An optional integer field, handled as `spec_opt_text` is.
pub open spec fn spec_opt_int(
    es: Seq<(Seq<u8>, BValue)>,
    k: Seq<u8>,
    f: FieldName,
    strict: bool,
) -> Result<Option<int>, ValidationError> {
    match dget(es, k) {
        Option::None => Ok(Option::None),
        Option::Some(BValue::Int(n)) => Ok(Option::Some(n)),
        Option::Some(_) => if strict {
            Err(ValidationError::TypeMismatch(f))
        } else {
            Ok(Option::None)
        },
    }
}

/// The optional `announce-list`: a list of tiers, each a list of text.
pub open spec fn spec_opt_tiers(es: Seq<(Seq<u8>, BValue)>, strict: bool) -> Result<
    Option<Seq<Seq<Seq<char>>>>,
    ValidationError,
> {
    match dget(es, key_announce_list()) {
        Option::None => Ok(Option::None),
        Option::Some(BValue::List(xs)) => match spec_tiers_from(xs, 0) {
            Option::Some(ts) => Ok(Option::Some(ts)),
            Option::None => if strict {
                Err(ValidationError::TypeMismatch(FieldName::AnnounceList))
            } else {
                Ok(Option::None)
            },
        },
        Option::Some(_) => if strict {
            Err(ValidationError::TypeMismatch(FieldName::AnnounceList))
        } else {
            Ok(Option::None)
        },
    }
}

pub open spec fn spec_map_opts(
    es: Seq<(Seq<u8>, BValue)>,
    ies: Seq<(Seq<u8>, BValue)>,
    at: Seq<char>,
    pl: int,
    pb: Seq<u8>,
    nt: Seq<char>,
    len_opt: Option<int>,
    files_opt: Option<Seq<FileView>>,
    strict: bool,
) -> Result<MetaView, ValidationError> {
    match spec_opt_int(ies, key_private_flag(), FieldName::Private, strict) {
        Err(e) => Err(e),
        Ok(priv_opt) => match spec_opt_tiers(es, strict) {
            Err(e) => Err(e),
            Ok(al) => match spec_opt_int(es, key_creation_date(), FieldName::CreationDate, strict) {
                Err(e) => Err(e),
                Ok(cd) => match spec_opt_text(es, key_comment(), FieldName::Comment, strict) {
                    Err(e) => Err(e),
                    Ok(cm) => match spec_opt_text(es, key_created_by(), FieldName::CreatedBy, strict) {
                        Err(e) => Err(e),
                        Ok(cb) => Ok(
                            MetaView {
                                announce: at,
                                announce_list: al,
                                creation_date: cd,
                                comment: cm,
                                created_by: cb,
                                info: InfoView {
                                    piece_length: pl,
                                    pieces: pb,
                                    name: nt,
                                    length: len_opt,
                                    files: files_opt,
                                    private: priv_opt,
                                },
                            },
                        ),
                    },
                },
            },
        },
    }
}

pub open spec fn spec_map_layout(
    es: Seq<(Seq<u8>, BValue)>,
    ies: Seq<(Seq<u8>, BValue)>,
    at: Seq<char>,
    pl: int,
    pb: Seq<u8>,
    nt: Seq<char>,
    strict: bool,
) -> Result<MetaView, ValidationError> {
    match (dget(ies, key_length()), dget(ies, key_files())) {
        (Option::Some(lv), Option::Some(fv)) => Err(ValidationError::AmbiguousLayout),
        (Option::None, Option::None) => Err(ValidationError::AmbiguousLayout),
        (Option::Some(BValue::Int(n)), Option::None) => if n < 0 {
            Err(ValidationError::TypeMismatch(FieldName::Length))
        } else {
            spec_map_opts(es, ies, at, pl, pb, nt, Option::Some(n), Option::None, strict)
        },
        (Option::Some(lv), Option::None) => Err(ValidationError::TypeMismatch(FieldName::Length)),
        (Option::None, Option::Some(BValue::List(xs))) => if xs.len() == 0 {
            Err(ValidationError::TypeMismatch(FieldName::Files))
        } else {
            match spec_files_from(xs, 0, strict) {
                Ok(fs) => spec_map_opts(
                    es,
                    ies,
                    at,
                    pl,
                    pb,
                    nt,
                    Option::None,
                    Option::Some(fs),
                    strict,
                ),
                Err(e) => Err(e),
            }
        },
        (Option::None, Option::Some(fv)) => Err(ValidationError::TypeMismatch(FieldName::Files)),
    }
}

pub open spec fn spec_map_info(
    es: Seq<(Seq<u8>, BValue)>,
    ies: Seq<(Seq<u8>, BValue)>,
    at: Seq<char>,
    strict: bool,
) -> Result<MetaView, ValidationError> {
    match dget(ies, key_piece_length()) {
        Option::None => Err(ValidationError::MissingField(FieldName::PieceLength)),
        Option::Some(BValue::Int(pl)) => if pl <= 0 {
            Err(ValidationError::TypeMismatch(FieldName::PieceLength))
        } else {
            match dget(ies, key_pieces()) {
                Option::None => Err(ValidationError::MissingField(FieldName::Pieces)),
                Option::Some(BValue::Bytes(pb)) => match dget(ies, key_name()) {
                    Option::None => Err(ValidationError::MissingField(FieldName::Name)),
                    Option::Some(BValue::Bytes(nb)) => match utf8_decode(nb) {
                        Option::None => Err(ValidationError::TypeMismatch(FieldName::Name)),
                        Option::Some(nt) => if pb.len() % 20 != 0 {
                            Err(ValidationError::MalformedPieces)
                        } else {
                            spec_map_layout(es, ies, at, pl, pb, nt, strict)
                        },
                    },
                    Option::Some(_) => Err(ValidationError::TypeMismatch(FieldName::Name)),
                },
                Option::Some(_) => Err(ValidationError::TypeMismatch(FieldName::Pieces)),
            }
        },
        Option::Some(_) => Err(ValidationError::TypeMismatch(FieldName::PieceLength)),
    }
}

/// The full mapping, checked in a fixed order: required top-level keys,
/// required `info` keys, piece alignment, the layout rule, file entries,
/// then the optional fields.  A value that is not a dictionary has no
/// `announce` at all and fails as such.
pub open spec fn spec_map(v: BValue, strict: bool) -> Result<MetaView, ValidationError> {
    match v {
        BValue::Dict(es) => match dget(es, key_announce()) {
            Option::None => Err(ValidationError::MissingField(FieldName::Announce)),
            Option::Some(BValue::Bytes(ab)) => match utf8_decode(ab) {
                Option::None => Err(ValidationError::TypeMismatch(FieldName::Announce)),
                Option::Some(at) => match dget(es, key_info()) {
                    Option::None => Err(ValidationError::MissingField(FieldName::Info)),
                    Option::Some(BValue::Dict(ies)) => spec_map_info(es, ies, at, strict),
                    Option::Some(_) => Err(ValidationError::TypeMismatch(FieldName::Info)),
                },
            },
            Option::Some(_) => Err(ValidationError::TypeMismatch(FieldName::Announce)),
        },
        _ => Err(ValidationError::MissingField(FieldName::Announce)),
    }
}

} // verus!

verus! {

fn mk_key_announce() -> (k: Vec<u8>)
    ensures
        k@ == key_announce(),
{
    let mut k: Vec<u8> = Vec::new();
    k.push(97);
    k.push(110);
    k.push(110);
    k.push(111);
    k.push(117);
    k.push(110);
    k.push(99);
    k.push(101);
    proof {
        assert(k@ =~= key_announce());
    }
    k
}

fn mk_key_info() -> (k: Vec<u8>)
    ensures
        k@ == key_info(),
{
    let mut k: Vec<u8> = Vec::new();
    k.push(105);
    k.push(110);
    k.push(102);
    k.push(111);
    proof {
        assert(k@ =~= key_info());
    }
    k
}

fn mk_key_piece_length() -> (k: Vec<u8>)
    ensures
        k@ == key_piece_length(),
{
    let mut k: Vec<u8> = Vec::new();
    k.push(112);
    k.push(105);
    k.push(101);
    k.push(99);
    k.push(101);
    k.push(32);
    k.push(108);
    k.push(101);
    k.push(110);
    k.push(103);
    k.push(116);
    k.push(104);
    proof {
        assert(k@ =~= key_piece_length());
    }
    k
}

fn mk_key_pieces() -> (k: Vec<u8>)
    ensures
        k@ == key_pieces(),
{
    let mut k: Vec<u8> = Vec::new();
    k.push(112);
    k.push(105);
    k.push(101);
    k.push(99);
    k.push(101);
    k.push(115);
    proof {
        assert(k@ =~= key_pieces());
    }
    k
}

fn mk_key_name() -> (k: Vec<u8>)
    ensures
        k@ == key_name(),
{
    let mut k: Vec<u8> = Vec::new();
    k.push(110);
    k.push(97);
    k.push(109);
    k.push(101);
    proof {
        assert(k@ =~= key_name());
    }
    k
}

fn mk_key_length() -> (k: Vec<u8>)
    ensures
        k@ == key_length(),
{
    let mut k: Vec<u8> = Vec::new();
    k.push(108);
    k.push(101);
    k.push(110);
    k.push(103);
    k.push(116);
    k.push(104);
    proof {
        assert(k@ =~= key_length());
    }
    k
}

fn mk_key_files() -> (k: Vec<u8>)
    ensures
        k@ == key_files(),
{
    let mut k: Vec<u8> = Vec::new();
    k.push(102);
    k.push(105);
    k.push(108);
    k.push(101);
    k.push(115);
    proof {
        assert(k@ =~= key_files());
    }
    k
}

fn mk_key_path() -> (k: Vec<u8>)
    ensures
        k@ == key_path(),
{
    let mut k: Vec<u8> = Vec::new();
    k.push(112);
    k.push(97);
    k.push(116);
    k.push(104);
    proof {
        assert(k@ =~= key_path());
    }
    k
}

fn mk_key_md5sum() -> (k: Vec<u8>)
    ensures
        k@ == key_md5sum(),
{
    let mut k: Vec<u8> = Vec::new();
    k.push(109);
    k.push(100);
    k.push(53);
    k.push(115);
    k.push(117);
    k.push(109);
    proof {
        assert(k@ =~= key_md5sum());
    }
    k
}

fn mk_key_announce_list() -> (k: Vec<u8>)
    ensures
        k@ == key_announce_list(),
{
    let mut k: Vec<u8> = Vec::new();
    k.push(97);
    k.push(110);
    k.push(110);
    k.push(111);
    k.push(117);
    k.push(110);
    k.push(99);
    k.push(101);
    k.push(45);
    k.push(108);
    k.push(105);
    k.push(115);
    k.push(116);
    proof {
        assert(k@ =~= key_announce_list());
    }
    k
}

fn mk_key_creation_date() -> (k: Vec<u8>)
    ensures
        k@ == key_creation_date(),
{
    let mut k: Vec<u8> = Vec::new();
    k.push(99);
    k.push(114);
    k.push(101);
    k.push(97);
    k.push(116);
    k.push(105);
    k.push(111);
    k.push(110);
    k.push(32);
    k.push(100);
    k.push(97);
    k.push(116);
    k.push(101);
    proof {
        assert(k@ =~= key_creation_date());
    }
    k
}

fn mk_key_comment() -> (k: Vec<u8>)
    ensures
        k@ == key_comment(),
{
    let mut k: Vec<u8> = Vec::new();
    k.push(99);
    k.push(111);
    k.push(109);
    k.push(109);
    k.push(101);
    k.push(110);
    k.push(116);
    proof {
        assert(k@ =~= key_comment());
    }
    k
}

fn mk_key_created_by() -> (k: Vec<u8>)
    ensures
        k@ == key_created_by(),
{
    let mut k: Vec<u8> = Vec::new();
    k.push(99);
    k.push(114);
    k.push(101);
    k.push(97);
    k.push(116);
    k.push(101);
    k.push(100);
    k.push(32);
    k.push(98);
    k.push(121);
    proof {
        assert(k@ =~= key_created_by());
    }
    k
}

fn mk_key_private_flag() -> (k: Vec<u8>)
    ensures
        k@ == key_private_flag(),
{
    let mut k: Vec<u8> = Vec::new();
    k.push(112);
    k.push(114);
    k.push(105);
    k.push(118);
    k.push(97);
    k.push(116);
    k.push(101);
    proof {
        assert(k@ =~= key_private_flag());
    }
    k
}


// === Prepend helpers for the mapping loops ===

pub open spec fn path_prepend(a: Seq<Seq<char>>, r: Option<Seq<Seq<char>>>) -> Option<
    Seq<Seq<char>>,
> {
    match r {
        Option::Some(t) => Option::Some(a + t),
        Option::None => Option::None,
    }
}

pub open spec fn tiers_prepend(
    a: Seq<Seq<Seq<char>>>,
    r: Option<Seq<Seq<Seq<char>>>>,
) -> Option<Seq<Seq<Seq<char>>>> {
    match r {
        Option::Some(t) => Option::Some(a + t),
        Option::None => Option::None,
    }
}

pub open spec fn files_prepend(
    a: Seq<FileView>,
    r: Result<Seq<FileView>, ValidationError>,
) -> Result<Seq<FileView>, ValidationError> {
    match r {
        Ok(t) => Ok(a + t),
        Err(e) => Err(e),
    }
}

proof fn lemma_path_prepend_assoc(a: Seq<Seq<char>>, b: Seq<Seq<char>>, r: Option<Seq<Seq<char>>>)
    ensures
        path_prepend(a, path_prepend(b, r)) == path_prepend(a + b, r),
{
    match r {
        Option::Some(t) => {
            assert(a + (b + t) =~= (a + b) + t);
        },
        Option::None => (),
    }
}

proof fn lemma_tiers_prepend_assoc(
    a: Seq<Seq<Seq<char>>>,
    b: Seq<Seq<Seq<char>>>,
    r: Option<Seq<Seq<Seq<char>>>>,
)
    ensures
        tiers_prepend(a, tiers_prepend(b, r)) == tiers_prepend(a + b, r),
{
    match r {
        Option::Some(t) => {
            assert(a + (b + t) =~= (a + b) + t);
        },
        Option::None => (),
    }
}

proof fn lemma_files_prepend_assoc(
    a: Seq<FileView>,
    b: Seq<FileView>,
    r: Result<Seq<FileView>, ValidationError>,
)
    ensures
        files_prepend(a, files_prepend(b, r)) == files_prepend(a + b, r),
{
    match r {
        Ok(t) => {
            assert(a + (b + t) =~= (a + b) + t);
        },
        Err(e) => (),
    }
}

// === The executable mapper ===

fn map_path(xs: &Vec<BencodeValue>) -> (r: Option<Vec<String>>)
    ensures
        match r {
            Option::Some(p) => spec_path_from(bval_list(xs@), 0) == Option::Some(p.deep_view()),
            Option::None => spec_path_from(bval_list(xs@), 0) is None,
        },
{
    let ghost sxs = bval_list(xs@);
    proof {
        lemma_bval_list_index(xs@);
    }
    let mut out: Vec<String> = Vec::new();
    let mut i: usize = 0;
    proof {
        assert(out.deep_view() =~= Seq::<Seq<char>>::empty());
    }
    while i < xs.len()
        invariant
            i <= xs.len(),
            sxs == bval_list(xs@),
            sxs.len() == xs@.len(),
            forall|j: int| 0 <= j < xs@.len() ==> #[trigger] sxs[j] == xs@[j].bval(),
            spec_path_from(sxs, 0) == path_prepend(out.deep_view(), spec_path_from(sxs, i as int)),
        decreases xs.len() - i,
    {
        let seg = match &xs[i] {
            BencodeValue::ByteString(b) => b,
            _ => {
                return Option::None;
            },
        };
        if seg.len() == 0 {
            return Option::None;
        }
        let t = match bytes_to_text(seg) {
            Option::Some(t) => t,
            Option::None => {
                return Option::None;
            },
        };
        let ghost before = out.deep_view();
        let ghost tv = t@;
        out.push(t);
        proof {
            assert(out.deep_view() =~= before + seq![tv]);
            assert(spec_path_from(sxs, i as int) == path_prepend(
                seq![tv],
                spec_path_from(sxs, i + 1),
            ));
            lemma_path_prepend_assoc(before, seq![tv], spec_path_from(sxs, i + 1));
        }
        i = i + 1;
    }
    proof {
        assert(out.deep_view() + Seq::<Seq<char>>::empty() =~= out.deep_view());
    }
    Option::Some(out)
}

fn map_tier(xs: &Vec<BencodeValue>) -> (r: Option<Vec<String>>)
    ensures
        match r {
            Option::Some(p) => spec_tier_from(bval_list(xs@), 0) == Option::Some(p.deep_view()),
            Option::None => spec_tier_from(bval_list(xs@), 0) is None,
        },
{
    let ghost sxs = bval_list(xs@);
    proof {
        lemma_bval_list_index(xs@);
    }
    let mut out: Vec<String> = Vec::new();
    let mut i: usize = 0;
    proof {
        assert(out.deep_view() =~= Seq::<Seq<char>>::empty());
    }
    while i < xs.len()
        invariant
            i <= xs.len(),
            sxs == bval_list(xs@),
            sxs.len() == xs@.len(),
            forall|j: int| 0 <= j < xs@.len() ==> #[trigger] sxs[j] == xs@[j].bval(),
            spec_tier_from(sxs, 0) == path_prepend(out.deep_view(), spec_tier_from(sxs, i as int)),
        decreases xs.len() - i,
    {
        let seg = match &xs[i] {
            BencodeValue::ByteString(b) => b,
            _ => {
                return Option::None;
            },
        };
        let t = match bytes_to_text(seg) {
            Option::Some(t) => t,
            Option::None => {
                return Option::None;
            },
        };
        let ghost before = out.deep_view();
        let ghost tv = t@;
        out.push(t);
        proof {
            assert(out.deep_view() =~= before + seq![tv]);
            assert(spec_tier_from(sxs, i as int) == path_prepend(
                seq![tv],
                spec_tier_from(sxs, i + 1),
            ));
            lemma_path_prepend_assoc(before, seq![tv], spec_tier_from(sxs, i + 1));
        }
        i = i + 1;
    }
    proof {
        assert(out.deep_view() + Seq::<Seq<char>>::empty() =~= out.deep_view());
    }
    Option::Some(out)
}

fn map_tiers(xs: &Vec<BencodeValue>) -> (r: Option<Vec<Vec<String>>>)
    ensures
        match r {
            Option::Some(p) => spec_tiers_from(bval_list(xs@), 0) == Option::Some(p.deep_view()),
            Option::None => spec_tiers_from(bval_list(xs@), 0) is None,
        },
{
    let ghost sxs = bval_list(xs@);
    proof {
        lemma_bval_list_index(xs@);
    }
    let mut out: Vec<Vec<String>> = Vec::new();
    let mut i: usize = 0;
    proof {
        assert(out.deep_view() =~= Seq::<Seq<Seq<char>>>::empty());
    }
    while i < xs.len()
        invariant
            i <= xs.len(),
            sxs == bval_list(xs@),
            sxs.len() == xs@.len(),
            forall|j: int| 0 <= j < xs@.len() ==> #[trigger] sxs[j] == xs@[j].bval(),
            spec_tiers_from(sxs, 0) == tiers_prepend(
                out.deep_view(),
                spec_tiers_from(sxs, i as int),
            ),
        decreases xs.len() - i,
    {
        let tier = match &xs[i] {
            BencodeValue::List(t) => t,
            _ => {
                return Option::None;
            },
        };
        let tv = match map_tier(tier) {
            Option::Some(t) => t,
            Option::None => {
                return Option::None;
            },
        };
        let ghost before = out.deep_view();
        let ghost tvv = tv.deep_view();
        out.push(tv);
        proof {
            assert(out.deep_view() =~= before + seq![tvv]);
            assert(spec_tiers_from(sxs, i as int) == tiers_prepend(
                seq![tvv],
                spec_tiers_from(sxs, i + 1),
            ));
            lemma_tiers_prepend_assoc(before, seq![tvv], spec_tiers_from(sxs, i + 1));
        }
        i = i + 1;
    }
    proof {
        assert(out.deep_view() + Seq::<Seq<Seq<char>>>::empty() =~= out.deep_view());
    }
    Option::Some(out)
}

fn map_file(v: &BencodeValue, strict: bool) -> (r: Option<FileInfo>)
    ensures
        match spec_file(v.bval(), strict) {
            Option::Some(fv) => r matches Option::Some(f) && f.model() == fv,
            Option::None => r is None,
        },
{
    let es = match v {
        BencodeValue::Dictionary(es) => es,
        _ => {
            return Option::None;
        },
    };
    proof {
        assert(*v == BencodeValue::Dictionary(*es));
    }
    let kl = mk_key_length();
    let n: i64 = match dict_get(es, &kl) {
        Option::Some(BencodeValue::Integer(n)) => *n,
        Option::Some(_) => {
            return Option::None;
        },
        Option::None => {
            return Option::None;
        },
    };
    if n < 0 {
        return Option::None;
    }
    let kp = mk_key_path();
    let pxs = match dict_get(es, &kp) {
        Option::Some(BencodeValue::List(xs)) => xs,
        Option::Some(_) => {
            return Option::None;
        },
        Option::None => {
            return Option::None;
        },
    };
    if pxs.len() == 0 {
        return Option::None;
    }
    let segs = match map_path(pxs) {
        Option::Some(s) => s,
        Option::None => {
            return Option::None;
        },
    };
    let km = mk_key_md5sum();
    let md5sum: Option<String> = match dict_get(es, &km) {
        Option::None => Option::None,
        Option::Some(BencodeValue::ByteString(mb)) => match bytes_to_text(mb) {
            Option::Some(t) => Option::Some(t),
            Option::None => {
                if strict {
                    return Option::None;
                }
                Option::None
            },
        },
        Option::Some(_) => {
            if strict {
                return Option::None;
            }
            Option::None
        },
    };
    let f = FileInfo { length: n, path: segs, md5sum };
    proof {
        match spec_file(v.bval(), strict) {
            Option::Some(fv) => {
                assert(f.model() =~= fv);
            },
            Option::None => {
                assert(false);
            },
        }
    }
    Option::Some(f)
}

fn opt_text_field(
    es: &Vec<(Vec<u8>, BencodeValue)>,
    k: &Vec<u8>,
    f: FieldName,
    strict: bool,
) -> (r: Result<Option<String>, ValidationError>)
    ensures
        match spec_opt_text(bval_entries(es@), k@, f, strict) {
            Ok(o) => r matches Ok(ro) && (match o {
                Option::Some(t) => ro matches Option::Some(s) && s@ == t,
                Option::None => ro is None,
            }),
            Err(e) => r matches Err(e2) && e2 == e,
        },
{
    match dict_get(es, k) {
        Option::None => Ok(Option::None),
        Option::Some(BencodeValue::ByteString(b)) => match bytes_to_text(b) {
            Option::Some(t) => Ok(Option::Some(t)),
            Option::None => if strict {
                Err(ValidationError::TypeMismatch(f))
            } else {
                Ok(Option::None)
            },
        },
        Option::Some(_) => if strict {
            Err(ValidationError::TypeMismatch(f))
        } else {
            Ok(Option::None)
        },
    }
}

fn opt_int_field(
    es: &Vec<(Vec<u8>, BencodeValue)>,
    k: &Vec<u8>,
    f: FieldName,
    strict: bool,
) -> (r: Result<Option<i64>, ValidationError>)
    ensures
        match spec_opt_int(bval_entries(es@), k@, f, strict) {
            Ok(o) => r matches Ok(ro) && (match o {
                Option::Some(n) => ro matches Option::Some(m) && m as int == n,
                Option::None => ro is None,
            }),
            Err(e) => r matches Err(e2) && e2 == e,
        },
{
    match dict_get(es, k) {
        Option::None => Ok(Option::None),
        Option::Some(BencodeValue::Integer(n)) => Ok(Option::Some(*n)),
        Option::Some(_) => if strict {
            Err(ValidationError::TypeMismatch(f))
        } else {
            Ok(Option::None)
        },
    }
}


fn map_files(fxs: &Vec<BencodeValue>, strict: bool) -> (r: Result<Vec<FileInfo>, ValidationError>)
    ensures
        match spec_files_from(bval_list(fxs@), 0, strict) {
            Ok(fs) => r matches Ok(fv) && files_models(fv@) == fs,
            Err(e) => r matches Err(e2) && e2 == e,
        },
{
    let ghost sfxs = bval_list(fxs@);
    proof {
        lemma_bval_list_index(fxs@);
    }
    let mut fvec: Vec<FileInfo> = Vec::new();
    let mut i: usize = 0;
    proof {
        assert(files_models(fvec@) =~= Seq::<FileView>::empty());
    }
    while i < fxs.len()
        invariant
            i <= fxs.len(),
            sfxs == bval_list(fxs@),
            sfxs.len() == fxs@.len(),
            forall|j: int| 0 <= j < fxs@.len() ==> #[trigger] sfxs[j] == fxs@[j].bval(),
            spec_files_from(sfxs, 0, strict) == files_prepend(
                files_models(fvec@),
                spec_files_from(sfxs, i as int, strict),
            ),
        decreases fxs.len() - i,
    {
        let f = match map_file(&fxs[i], strict) {
            Option::Some(f) => f,
            Option::None => {
                return Err(ValidationError::MalformedFileEntry(i));
            },
        };
        let ghost before = files_models(fvec@);
        let ghost fm = f.model();
        fvec.push(f);
        proof {
            assert(files_models(fvec@) =~= before + seq![fm]);
            assert(spec_files_from(sfxs, i as int, strict) == files_prepend(
                seq![fm],
                spec_files_from(sfxs, i + 1, strict),
            ));
            lemma_files_prepend_assoc(before, seq![fm], spec_files_from(sfxs, i + 1, strict));
        }
        i = i + 1;
    }
    proof {
        assert(files_models(fvec@) + Seq::<FileView>::empty() =~= files_models(fvec@));
    }
    Ok(fvec)
}

/// Validate a decoded bencode value against the torrent schema and
/// project it into the typed model.  The checks run in a fixed order —
/// required top-level keys, required `info` keys, piece alignment, the
/// exactly-one-layout rule, file entries in order, then optional fields —
/// so the error reported is deterministic.  A pure projection: the result
/// is exactly `spec_map` of the value.
pub fn to_metainfo(v: &BencodeValue, policy: MapPolicy) -> (r: Result<
    TorrentMetaInfo,
    ValidationError,
>)
    ensures
        match spec_map(v.bval(), policy matches MapPolicy::Strict) {
            Ok(m) => r matches Ok(t) && t.model() == m,
            Err(e) => r matches Err(e2) && e2 == e,
        },
{
    let strict = match policy {
        MapPolicy::Strict => true,
        MapPolicy::Lenient => false,
    };
    let es = match v {
        BencodeValue::Dictionary(es) => es,
        _ => {
            return Err(ValidationError::MissingField(FieldName::Announce));
        },
    };
    proof {
        assert(*v == BencodeValue::Dictionary(*es));
    }
    let ka = mk_key_announce();
    let ab = match dict_get(es, &ka) {
        Option::None => {
            return Err(ValidationError::MissingField(FieldName::Announce));
        },
        Option::Some(BencodeValue::ByteString(b)) => b,
        Option::Some(_) => {
            return Err(ValidationError::TypeMismatch(FieldName::Announce));
        },
    };
    let announce = match bytes_to_text(ab) {
        Option::Some(t) => t,
        Option::None => {
            return Err(ValidationError::TypeMismatch(FieldName::Announce));
        },
    };
    let ki = mk_key_info();
    let ies = match dict_get(es, &ki) {
        Option::None => {
            return Err(ValidationError::MissingField(FieldName::Info));
        },
        Option::Some(BencodeValue::Dictionary(d)) => d,
        Option::Some(_) => {
            return Err(ValidationError::TypeMismatch(FieldName::Info));
        },
    };
    let kpl = mk_key_piece_length();
    let piece_length: i64 = match dict_get(ies, &kpl) {
        Option::None => {
            return Err(ValidationError::MissingField(FieldName::PieceLength));
        },
        Option::Some(BencodeValue::Integer(n)) => *n,
        Option::Some(_) => {
            return Err(ValidationError::TypeMismatch(FieldName::PieceLength));
        },
    };
    if piece_length <= 0 {
        return Err(ValidationError::TypeMismatch(FieldName::PieceLength));
    }
    let kps = mk_key_pieces();
    let pb = match dict_get(ies, &kps) {
        Option::None => {
            return Err(ValidationError::MissingField(FieldName::Pieces));
        },
        Option::Some(BencodeValue::ByteString(b)) => b,
        Option::Some(_) => {
            return Err(ValidationError::TypeMismatch(FieldName::Pieces));
        },
    };
    let kn = mk_key_name();
    let nb = match dict_get(ies, &kn) {
        Option::None => {
            return Err(ValidationError::MissingField(FieldName::Name));
        },
        Option::Some(BencodeValue::ByteString(b)) => b,
        Option::Some(_) => {
            return Err(ValidationError::TypeMismatch(FieldName::Name));
        },
    };
    let name = match bytes_to_text(nb) {
        Option::Some(t) => t,
        Option::None => {
            return Err(ValidationError::TypeMismatch(FieldName::Name));
        },
    };
    if pb.len() % 20 != 0 {
        return Err(ValidationError::MalformedPieces);
    }
    let pieces = copy_bytes(pb);
    let kle = mk_key_length();
    let kfi = mk_key_files();
    let lv = dict_get(ies, &kle);
    let fv = dict_get(ies, &kfi);
    let mut length: Option<i64> = Option::None;
    let mut files: Option<Vec<FileInfo>> = Option::None;
    match (lv, fv) {
        (Option::Some(_), Option::Some(_)) => {
            return Err(ValidationError::AmbiguousLayout);
        },
        (Option::None, Option::None) => {
            return Err(ValidationError::AmbiguousLayout);
        },
        (Option::Some(BencodeValue::Integer(n)), Option::None) => {
            if *n < 0 {
                return Err(ValidationError::TypeMismatch(FieldName::Length));
            }
            length = Option::Some(*n);
        },
        (Option::Some(_), Option::None) => {
            return Err(ValidationError::TypeMismatch(FieldName::Length));
        },
        (Option::None, Option::Some(BencodeValue::List(fxs))) => {
            if fxs.len() == 0 {
                return Err(ValidationError::TypeMismatch(FieldName::Files));
            }
            let fvec = match map_files(fxs, strict) {
                Ok(fv) => fv,
                Err(e) => {
                    return Err(e);
                },
            };
            files = Option::Some(fvec);
        },
        (Option::None, Option::Some(_)) => {
            return Err(ValidationError::TypeMismatch(FieldName::Files));
        },
    }
    let kpr = mk_key_private_flag();
    let private = match opt_int_field(ies, &kpr, FieldName::Private, strict) {
        Ok(o) => o,
        Err(e) => {
            return Err(e);
        },
    };
    let kal = mk_key_announce_list();
    let announce_list: Option<Vec<Vec<String>>> = match dict_get(es, &kal) {
        Option::None => Option::None,
        Option::Some(BencodeValue::List(xs)) => match map_tiers(xs) {
            Option::Some(ts) => Option::Some(ts),
            Option::None => {
                if strict {
                    return Err(ValidationError::TypeMismatch(FieldName::AnnounceList));
                }
                Option::None
            },
        },
        Option::Some(_) => {
            if strict {
                return Err(ValidationError::TypeMismatch(FieldName::AnnounceList));
            }
            Option::None
        },
    };
    let kcd = mk_key_creation_date();
    let creation_date = match opt_int_field(es, &kcd, FieldName::CreationDate, strict) {
        Ok(o) => o,
        Err(e) => {
            return Err(e);
        },
    };
    let kcm = mk_key_comment();
    let comment = match opt_text_field(es, &kcm, FieldName::Comment, strict) {
        Ok(o) => o,
        Err(e) => {
            return Err(e);
        },
    };
    let kcb = mk_key_created_by();
    let created_by = match opt_text_field(es, &kcb, FieldName::CreatedBy, strict) {
        Ok(o) => o,
        Err(e) => {
            return Err(e);
        },
    };
    let t = TorrentMetaInfo {
        announce,
        info: TorrentInfo { piece_length, pieces, name, length, files, private },
        announce_list,
        creation_date,
        comment,
        created_by,
    };
    proof {
        match spec_map(v.bval(), strict) {
            Ok(m) => {
                assert(t.model() =~= m);
            },
            Err(e) => {
                assert(false);
            },
        }
    }
    Ok(t)
}

} // verus!
